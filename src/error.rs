use vstd::prelude::*;

verus! {

/// Failures of the ledger: malformed decimal text, or a value that does not
/// fit the decimal representation.
#[derive(Clone, Copy, Debug, PartialEq, Eq, Structural)]
pub enum LedgerError {
    ParseError,
    Overflow,
}

} // verus!
