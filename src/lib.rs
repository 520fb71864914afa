//! Per-account ledger: exact four-digit decimals, a causally ordered history
//! merged from late-arriving batches, and the resolution of disputes,
//! resolves and chargebacks into available and held funds.

pub mod client;
pub mod error;
pub mod fixed;
pub mod ledger_spec;
pub mod merge;
pub mod transactions;
