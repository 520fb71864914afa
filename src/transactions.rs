use vstd::prelude::*;
use core::cmp::Ordering;

use crate::fixed::Fixed;

verus! {

/// A deposit or withdrawal: a signed amount (credit positive, debit
/// negative) with its identifier and its place in causal order.
#[derive(Debug, Default, Clone, Copy)]
pub struct Transaction {
    /// Unique, but says nothing of order.
    pub id: u64,
    /// Causal order; several transactions may share one value, in which case
    /// the identifier breaks the tie.
    pub chronology: u64,
    pub amount: Fixed,
    pub disputed: bool,
}

/// Order of causal keys `(chronology, id)`: `a` comes strictly before `b`.
pub open spec fn key_lt(a: Transaction, b: Transaction) -> bool {
    a.chronology < b.chronology || (a.chronology == b.chronology && a.id < b.id)
}

/// `a` comes before `b` or has the same causal key.
pub open spec fn key_le(a: Transaction, b: Transaction) -> bool {
    !key_lt(b, a)
}

/// The sequence is in ascending causal order.
pub open spec fn sorted(s: Seq<Transaction>) -> bool {
    forall|i: int, j: int| 0 <= i < j < s.len() ==> key_le(#[trigger] s[i], #[trigger] s[j])
}

pub open spec fn key_cmp(a: Transaction, b: Transaction) -> Ordering {
    if key_lt(a, b) {
        Ordering::Less
    } else if key_lt(b, a) {
        Ordering::Greater
    } else {
        Ordering::Equal
    }
}

impl PartialEq for Transaction {
    fn eq(&self, other: &Transaction) -> (r: bool) {
        self.chronology == other.chronology && self.id == other.id
    }
}

impl vstd::std_specs::cmp::PartialEqSpecImpl for Transaction {
    open spec fn obeys_eq_spec() -> bool {
        true
    }

    open spec fn eq_spec(&self, other: &Transaction) -> bool {
        self.chronology == other.chronology && self.id == other.id
    }
}

impl PartialOrd for Transaction {
    fn partial_cmp(&self, other: &Transaction) -> (r: Option<Ordering>) {
        if self.chronology < other.chronology {
            Some(Ordering::Less)
        } else if self.chronology > other.chronology {
            Some(Ordering::Greater)
        } else if self.id < other.id {
            Some(Ordering::Less)
        } else if self.id > other.id {
            Some(Ordering::Greater)
        } else {
            Some(Ordering::Equal)
        }
    }
}

impl vstd::std_specs::cmp::PartialOrdSpecImpl for Transaction {
    open spec fn obeys_partial_cmp_spec() -> bool {
        true
    }

    open spec fn partial_cmp_spec(&self, other: &Transaction) -> Option<Ordering> {
        Some(key_cmp(*self, *other))
    }
}

impl Transaction {
    pub fn new(id: u64, chronology: u64, amount: Fixed) -> (r: Transaction)
        ensures
            r == (Transaction { id, chronology, amount, disputed: false }),
    {
        Transaction { id, chronology, amount, disputed: false }
    }
}

/// A claim against an earlier transaction, of one of three kinds.
#[derive(Debug, Clone, Copy)]
pub struct Claim {
    pub id: u64,
    pub chronology: u64,
    pub claim_type: ClaimType,
}

/// A pending claim that the transaction `id` is in question.
#[derive(Debug, Clone, Copy)]
pub struct Dispute {
    pub id: u64,
    pub chronology: u64,
}

/// Causal order of disputes: `a` comes strictly before `b`.
pub open spec fn dispute_lt(a: Dispute, b: Dispute) -> bool {
    a.chronology < b.chronology || (a.chronology == b.chronology && a.id < b.id)
}

/// The disputes are in ascending causal order.
pub open spec fn disputes_sorted(s: Seq<Dispute>) -> bool {
    forall|i: int, j: int| 0 <= i < j < s.len() ==> !dispute_lt(#[trigger] s[j], #[trigger] s[i])
}

/// A pending claim that withdraws a dispute of transaction `id`.
#[derive(Debug, Clone, Copy)]
pub struct Resolve {
    pub id: u64,
    pub chronology: u64,
}

/// A pending claim that reverses disputed transaction `id` and locks the
/// account.
#[derive(Debug, Clone, Copy)]
pub struct Chargeback {
    pub id: u64,
    pub chronology: u64,
}

/// Where a record belongs: the account, the transaction it creates or
/// refers to, and its place in causal order.
#[derive(Debug, Clone, Copy)]
pub struct TransactionMetadata {
    pub client_id: u64,
    pub transaction_id: u64,
    pub chronology: u64,
}

#[derive(Debug, Clone, Copy, PartialEq, Eq, Structural)]
pub enum ClaimType {
    Dispute,
    Resolve,
    Chargeback,
}

/// What a record does: change the funds by a signed amount, or make a claim.
#[derive(Debug, Clone, Copy)]
pub enum TransactionType {
    UpdateFunds(Fixed),
    Claim(ClaimType),
}

/// A record as it arrives, before it is routed to its account.
#[derive(Debug, Clone, Copy)]
pub struct UnprocessedTransaction {
    pub transaction_type: TransactionType,
    pub metadata: TransactionMetadata,
}

impl UnprocessedTransaction {
    pub fn new(
        transaction_type: TransactionType,
        client_id: u64,
        transaction_id: u64,
        chronology: u64,
    ) -> (r: UnprocessedTransaction)
        ensures
            r.transaction_type == transaction_type,
            r.metadata.client_id == client_id,
            r.metadata.transaction_id == transaction_id,
            r.metadata.chronology == chronology,
    {
        UnprocessedTransaction {
            transaction_type,
            metadata: TransactionMetadata { client_id, transaction_id, chronology },
        }
    }
}

/// The kind of an input record, as it is named in the input.
#[derive(Debug, Clone, Copy, PartialEq, Eq, Structural)]
pub enum SerializedTransactionType {
    Deposit,
    Withdrawal,
    Dispute,
    Resolve,
    Chargeback,
}

} // verus!
