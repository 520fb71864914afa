use vstd::prelude::*;

use crate::error::LedgerError;
use crate::fixed::{in_range, Fixed};
use crate::ledger_spec::{
    insert_dispute, lemma_insert_dispute_sorted, lemma_pass_kept_sorted, lemma_pass_sorted, lemma_sort_sorted, lemma_pass_lock, lemma_pass_replay, lemma_pass_settled, chargeback_ids, cutoff, dispute_step, first_index, funds, insert_sorted, is_first, is_last,
    last_index, lemma_first_index, lemma_last_index, resolve_ids, resolve_pass, sort_spec, tx_ids,
    Pending,
};
use crate::merge::{lemma_merge_sorted, merge_in_place, merge_spec};
use crate::transactions::{
    disputes_sorted, sorted, Chargeback, ClaimType, Dispute, Resolve, Transaction, TransactionType,
    UnprocessedTransaction,
};

verus! {

/// An account's derived funds.
#[derive(Default, Debug, Clone, Copy)]
pub struct ClientState {
    available_funds: Fixed,
    held_funds: Fixed,
    locked: bool,
}

/// One account: its evaluated history, the transactions that arrived since,
/// its pending claims and its lock point.
#[derive(Debug, Clone)]
pub struct Client {
    state: ClientState,
    // chronology at which the account was locked
    locked: Option<u64>,
    sorted_transactions: Vec<Transaction>,
    unsorted_transactions: Vec<Transaction>,
    disputes: Vec<Dispute>,
    resolves: Vec<Resolve>,
    chargebacks: Vec<Chargeback>,
}

/// The abstract state of an account.
pub struct ClientView {
    pub available: int,
    pub held: int,
    pub state_locked: bool,
    pub incoming: Seq<Transaction>,
    /// history, pending disputes (`kept`), resolves, chargebacks, lock point
    pub pending: Pending,
}

/// What handling one record does to an account.
pub open spec fn handle_spec(v: ClientView, t: UnprocessedTransaction) -> ClientView {
    let id = t.metadata.transaction_id;
    let chronology = t.metadata.chronology;
    if v.pending.lock matches Some(l) && l < chronology {
        v
    } else {
        match t.transaction_type {
            TransactionType::UpdateFunds(amount) => ClientView {
                incoming: v.incoming.push(
                    Transaction { id, chronology, amount, disputed: false },
                ),
                ..v
            },
            TransactionType::Claim(kind) => ClientView {
                pending: add_claim(v.pending, id, chronology, kind),
                ..v
            },
        }
    }
}

/// A claim put into the pending buffer of its kind.
pub open spec fn add_claim(p: Pending, id: u64, chronology: u64, kind: ClaimType) -> Pending {
    match kind {
        ClaimType::Dispute => Pending {
            kept: insert_dispute(p.kept, Dispute { id, chronology }),
            ..p
        },
        ClaimType::Resolve => Pending {
            resolves: p.resolves.push(Resolve { id, chronology }),
            ..p
        },
        ClaimType::Chargeback => Pending {
            chargebacks: p.chargebacks.push(Chargeback { id, chronology }),
            ..p
        },
    }
}

/// The claim pass of an evaluation: the incoming batch sorted and merged
/// into the history, then every pending dispute tried in turn.
pub open spec fn evaluate_pending(v: ClientView) -> Pending {
    let merged = merge_spec(v.pending.history, sort_spec(v.incoming));
    resolve_pass(Pending { history: merged, kept: Seq::empty(), ..v.pending }, v.pending.kept)
}

/// The account after an evaluation, and whether it succeeded. On overflow the
/// claim pass stands and the funds keep their previous values.
pub open spec fn evaluate_spec(v: ClientView) -> (ClientView, bool) {
    let p = evaluate_pending(v);
    match funds(p.history, cutoff(p.lock)) {
        Some((a, h)) => (
            ClientView {
                available: a,
                held: h,
                state_locked: p.lock is Some,
                incoming: Seq::empty(),
                pending: p,
            },
            true,
        ),
        None => (ClientView { incoming: Seq::empty(), pending: p, ..v }, false),
    }
}

impl View for Client {
    type V = ClientView;

    closed spec fn view(&self) -> ClientView {
        ClientView {
            available: self.state.available_funds@,
            held: self.state.held_funds@,
            state_locked: self.state.locked,
            incoming: self.unsorted_transactions@,
            pending: Pending {
                history: self.sorted_transactions@,
                kept: self.disputes@,
                resolves: self.resolves@,
                chargebacks: self.chargebacks@,
                lock: self.locked,
            },
        }
    }
}

/// An account that has seen nothing: no funds, no records, no lock.
pub open spec fn fresh(v: ClientView) -> bool {
    &&& v.available == 0
    &&& v.held == 0
    &&& !v.state_locked
    &&& v.incoming.len() == 0
    &&& v.pending.history.len() == 0
    &&& v.pending.kept.len() == 0
    &&& v.pending.resolves.len() == 0
    &&& v.pending.chargebacks.len() == 0
    &&& v.pending.lock is None
}

/// Evaluating twice in a row gives what evaluating once gives: the same
/// account and the same outcome.
pub proof fn lemma_evaluate_idempotent(v: ClientView)
    ensures
        evaluate_spec(evaluate_spec(v).0) == evaluate_spec(v),
{
    let p = evaluate_pending(v);
    let merged = merge_spec(v.pending.history, sort_spec(v.incoming));
    lemma_pass_settled(Pending { history: merged, kept: Seq::empty(), ..v.pending }, v.pending.kept);
    let v1 = evaluate_spec(v).0;
    assert(v1.pending == p);
    assert(sort_spec(v1.incoming) =~= Seq::<Transaction>::empty());
    assert(merge_spec(p.history, Seq::<Transaction>::empty()) =~= p.history);
    lemma_pass_replay(p, p.kept.len() as int);
    assert(p.kept.subrange(0, p.kept.len() as int) =~= p.kept);
    assert(evaluate_pending(v1) == p);
}

/// Once an account is locked it stays locked, its lock point never moves
/// later, and a record later than the lock point leaves it unchanged.
pub proof fn lemma_lock_monotonic(v: ClientView, t: UnprocessedTransaction)
    requires
        v.pending.lock is Some,
    ensures
        evaluate_spec(v).0.pending.lock is Some,
        evaluate_spec(v).0.pending.lock->0 <= v.pending.lock->0,
        evaluate_spec(v).1 ==> evaluate_spec(v).0.state_locked,
        t.metadata.chronology > v.pending.lock->0 ==> handle_spec(v, t) == v,
{
    let merged = merge_spec(v.pending.history, sort_spec(v.incoming));
    lemma_pass_lock(Pending { history: merged, kept: Seq::empty(), ..v.pending }, v.pending.kept);
}

/// Inserts `x` into the sorted vector `v` after every element that does not
/// come after it.
fn insert_sorted_vec(v: &mut Vec<Transaction>, x: Transaction)
    ensures
        final(v)@ == insert_sorted(old(v)@, x),
        final(v)@.len() == old(v)@.len() + 1,
{
    let ghost s = v@;
    v.push(x);
    let mut i: usize = v.len() - 1;
    assert(s.subrange(0, i as int) =~= s);
    assert(s.subrange(i as int, s.len() as int) =~= Seq::<Transaction>::empty());
    assert(v@ =~= s.subrange(0, i as int).push(x) + s.subrange(i as int, s.len() as int));
    while i > 0 && (x.chronology < v[i - 1].chronology || (x.chronology == v[i - 1].chronology
        && x.id < v[i - 1].id))
        invariant
            i <= s.len(),
            v@ == s.subrange(0, i as int).push(x) + s.subrange(i as int, s.len() as int),
            insert_sorted(s, x) == insert_sorted(s.subrange(0, i as int), x) + s.subrange(
                i as int,
                s.len() as int,
            ),
        decreases i,
    {
        let ghost pre = s.subrange(0, i as int);
        assert(pre.last() == v@[i - 1]);
        assert(pre.drop_last() =~= s.subrange(0, i - 1));
        let y = v[i - 1];
        v[i - 1] = x;
        v[i] = y;
        i = i - 1;
        assert(v@ =~= s.subrange(0, i as int).push(x) + s.subrange(i as int, s.len() as int));
        assert(s.subrange(i as int, s.len() as int) =~= seq![y] + s.subrange(
            i + 1,
            s.len() as int,
        ));
    }
    if i > 0 {
        let ghost pre = s.subrange(0, i as int);
        assert(pre.last() == v@[i - 1]);
        assert(insert_sorted(pre, x) == pre.push(x));
    } else {
        assert(s.subrange(0, 0) =~= Seq::<Transaction>::empty());
    }
}

/// Inserts `x` into the sorted disputes `v` after every dispute that does
/// not come after it.
fn insert_dispute_vec(v: &mut Vec<Dispute>, x: Dispute)
    ensures
        final(v)@ == insert_dispute(old(v)@, x),
{
    let ghost s = v@;
    v.push(x);
    let mut i: usize = v.len() - 1;
    assert(s.subrange(0, i as int) =~= s);
    assert(s.subrange(i as int, s.len() as int) =~= Seq::<Dispute>::empty());
    assert(v@ =~= s.subrange(0, i as int).push(x) + s.subrange(i as int, s.len() as int));
    while i > 0 && (x.chronology < v[i - 1].chronology || (x.chronology == v[i - 1].chronology
        && x.id < v[i - 1].id))
        invariant
            i <= s.len(),
            v@ == s.subrange(0, i as int).push(x) + s.subrange(i as int, s.len() as int),
            insert_dispute(s, x) == insert_dispute(s.subrange(0, i as int), x) + s.subrange(
                i as int,
                s.len() as int,
            ),
        decreases i,
    {
        let ghost pre = s.subrange(0, i as int);
        assert(pre.last() == v@[i - 1]);
        assert(pre.drop_last() =~= s.subrange(0, i - 1));
        let y = v[i - 1];
        v[i - 1] = x;
        v[i] = y;
        i = i - 1;
        assert(v@ =~= s.subrange(0, i as int).push(x) + s.subrange(i as int, s.len() as int));
        assert(s.subrange(i as int, s.len() as int) =~= seq![y] + s.subrange(
            i + 1,
            s.len() as int,
        ));
    }
    if i > 0 {
        let ghost pre = s.subrange(0, i as int);
        assert(pre.last() == v@[i - 1]);
        assert(insert_dispute(pre, x) == pre.push(x));
    } else {
        assert(s.subrange(0, 0) =~= Seq::<Dispute>::empty());
    }
}

/// Sorts by causal key, keeping the arrival order of equal keys.
fn sort_transactions(v: &Vec<Transaction>) -> (r: Vec<Transaction>)
    ensures
        r@ == sort_spec(v@),
        r@.len() == v@.len(),
{
    let mut out: Vec<Transaction> = Vec::new();
    let mut i: usize = 0;
    while i < v.len()
        invariant
            i <= v@.len(),
            out@ == sort_spec(v@.subrange(0, i as int)),
            out@.len() == i,
        decreases v@.len() - i,
    {
        let ghost pre = v@.subrange(0, i as int + 1);
        assert(pre.drop_last() =~= v@.subrange(0, i as int));
        insert_sorted_vec(&mut out, v[i]);
        i = i + 1;
    }
    assert(v@.subrange(0, i as int) =~= v@);
    out
}

/// Once a prefix of the history overflows, the whole history does.
proof fn lemma_funds_none_extends(h: Seq<Transaction>, k: int, max: u64)
    requires
        0 <= k <= h.len(),
        funds(h.subrange(0, k), max) is None,
    ensures
        funds(h, max) is None,
    decreases h.len() - k,
{
    if k < h.len() {
        let next = h.subrange(0, k + 1);
        assert(next.drop_last() =~= h.subrange(0, k));
        lemma_funds_none_extends(h, k + 1, max);
    } else {
        assert(h.subrange(0, k) =~= h);
    }
}

impl Client {
    /// The history and the pending disputes are in causal order.
    pub closed spec fn wf(&self) -> bool {
        sorted(self.sorted_transactions@) && disputes_sorted(self.disputes@)
    }

    pub fn new() -> (r: Client)
        ensures
            fresh(r@),
            r.wf(),
    {
        Client {
            state: ClientState {
                available_funds: Fixed::zero(),
                held_funds: Fixed::zero(),
                locked: false,
            },
            locked: None,
            sorted_transactions: Vec::new(),
            unsorted_transactions: Vec::new(),
            disputes: Vec::new(),
            resolves: Vec::new(),
            chargebacks: Vec::new(),
        }
    }

    /// Takes one record for this account. A record later than the lock
    /// point is dropped; a transaction waits for the next evaluation, and a
    /// claim is kept by kind.
    pub fn handle_transaction(&mut self, transaction: UnprocessedTransaction)
        requires
            old(self).wf(),
        ensures
            final(self)@ == handle_spec(old(self)@, transaction),
            final(self).wf(),
    {
        let id = transaction.metadata.transaction_id;
        let chronology = transaction.metadata.chronology;

        // a locked account takes nothing after its lock point
        if let Some(locked_chronology) = self.locked {
            if locked_chronology < chronology {
                return ;
            }
        }
        match transaction.transaction_type {
            TransactionType::UpdateFunds(amount) => self.handle_update_funds(id, chronology, amount),
            TransactionType::Claim(claim_type) => self.handle_claim(id, chronology, claim_type),
        }
    }

    fn handle_update_funds(&mut self, id: u64, chronology: u64, amount: Fixed)
        ensures
            final(self)@ == (ClientView {
                incoming: old(self)@.incoming.push(
                    Transaction { id, chronology, amount, disputed: false },
                ),
                ..old(self)@
            }),
    {
        // kept for a later dispute, or for an earlier deposit that arrives
        // late and covers this withdrawal
        self.unsorted_transactions.push(Transaction::new(id, chronology, amount));
    }

    fn handle_claim(&mut self, id: u64, chronology: u64, claim_type: ClaimType)
        requires
            old(self).wf(),
        ensures
            final(self).wf(),
            final(self)@ == (ClientView {
                pending: add_claim(old(self)@.pending, id, chronology, claim_type),
                ..old(self)@
            }),
    {
        proof {
            lemma_insert_dispute_sorted(self.disputes@, Dispute { id, chronology });
        }
        match claim_type {
            ClaimType::Dispute => {
                insert_dispute_vec(&mut self.disputes, Dispute { id, chronology });
            },
            ClaimType::Resolve => {
                self.resolves.push(Resolve { id, chronology });
            },
            ClaimType::Chargeback => {
                self.chargebacks.push(Chargeback { id, chronology });
            },
        }
    }

    fn find_resolve_by_id(&self, id: u64) -> (r: Option<usize>)
        ensures
            match r {
                Some(i) => i as int == first_index(resolve_ids(self.resolves@), id),
                None => first_index(resolve_ids(self.resolves@), id) == -1,
            },
    {
        let ghost ids = resolve_ids(self.resolves@);
        proof {
            lemma_first_index(ids, id);
        }
        let mut i: usize = 0;
        while i < self.resolves.len()
            invariant
                ids == resolve_ids(self.resolves@),
                i <= ids.len(),
                forall|j: int| 0 <= j < i ==> ids[j] != id,
            decreases ids.len() - i,
        {
            if self.resolves[i].id == id {
                proof {
                    lemma_first_index(ids, id);
                }
                assert(is_first(ids, id, i as int));
                return Some(i);
            }
            i = i + 1;
        }
        proof {
            lemma_first_index(ids, id);
        }
        None
    }

    fn find_chargeback_by_id(&self, id: u64) -> (r: Option<usize>)
        ensures
            match r {
                Some(i) => i as int == first_index(chargeback_ids(self.chargebacks@), id),
                None => first_index(chargeback_ids(self.chargebacks@), id) == -1,
            },
    {
        let ghost ids = chargeback_ids(self.chargebacks@);
        proof {
            lemma_first_index(ids, id);
        }
        let mut i: usize = 0;
        while i < self.chargebacks.len()
            invariant
                ids == chargeback_ids(self.chargebacks@),
                i <= ids.len(),
                forall|j: int| 0 <= j < i ==> ids[j] != id,
            decreases ids.len() - i,
        {
            if self.chargebacks[i].id == id {
                proof {
                    lemma_first_index(ids, id);
                }
                assert(is_first(ids, id, i as int));
                return Some(i);
            }
            i = i + 1;
        }
        proof {
            lemma_first_index(ids, id);
        }
        None
    }

    /// Searches from the most recent end, where disputes are most likely.
    fn find_transaction_by_id(&self, id: u64) -> (r: Option<usize>)
        ensures
            match r {
                Some(i) => i as int == last_index(tx_ids(self.sorted_transactions@), id),
                None => last_index(tx_ids(self.sorted_transactions@), id) == -1,
            },
    {
        let ghost ids = tx_ids(self.sorted_transactions@);
        proof {
            lemma_last_index(ids, id);
        }
        let mut i: usize = self.sorted_transactions.len();
        while i > 0
            invariant
                ids == tx_ids(self.sorted_transactions@),
                i <= ids.len(),
                forall|j: int| i <= j < ids.len() ==> ids[j] != id,
            decreases i,
        {
            if self.sorted_transactions[i - 1].id == id {
                proof {
                    lemma_last_index(ids, id);
                }
                assert(is_last(ids, id, i - 1));
                return Some(i - 1);
            }
            i = i - 1;
        }
        proof {
            lemma_last_index(ids, id);
        }
        None
    }

    spec fn pending_of(&self) -> Pending {
        Pending {
            history: self.sorted_transactions@,
            kept: self.disputes@,
            resolves: self.resolves@,
            chargebacks: self.chargebacks@,
            lock: self.locked,
        }
    }

    /// Tries every pending dispute against the history and the pending
    /// resolves and chargebacks; the disputes still open are kept.
    fn resolve_disputes(&mut self)
        ensures
            final(self).pending_of() == resolve_pass(
                Pending { kept: Seq::empty(), ..old(self).pending_of() },
                old(self).disputes@,
            ),
            final(self).state == old(self).state,
            final(self).unsorted_transactions == old(self).unsorted_transactions,
    {
        let mut disputes: Vec<Dispute> = Vec::new();
        std::mem::swap(&mut disputes, &mut self.disputes);
        let ghost start = Pending { kept: Seq::empty(), ..old(self).pending_of() };
        let mut i: usize = 0;
        while i < disputes.len()
            invariant
                disputes@ == old(self).disputes@,
                i <= disputes@.len(),
                self.pending_of() == resolve_pass(start, disputes@.subrange(0, i as int)),
                self.state == old(self).state,
                self.unsorted_transactions == old(self).unsorted_transactions,
            decreases disputes@.len() - i,
        {
            let d = disputes[i];
            let ghost p = self.pending_of();
            proof {
                let ds = disputes@.subrange(0, i as int + 1);
                assert(ds.drop_last() =~= disputes@.subrange(0, i as int));
                lemma_last_index(tx_ids(p.history), d.id);
                lemma_first_index(resolve_ids(p.resolves), d.id);
                lemma_first_index(chargeback_ids(p.chargebacks), d.id);
            }
            match self.find_transaction_by_id(d.id) {
                None => {
                    // the transaction is not known yet
                    self.disputes.push(d);
                },
                Some(ti) => {
                    match self.find_resolve_by_id(d.id) {
                        Some(ri) => {
                            self.resolves.remove(ri);
                            let mut t = self.sorted_transactions[ti];
                            t.disputed = false;
                            self.sorted_transactions[ti] = t;
                        },
                        None => {
                            match self.find_chargeback_by_id(d.id) {
                                Some(ci) => {
                                    let c = self.chargebacks.remove(ci);
                                    self.locked =
                                    match self.locked {
                                        Some(l) => {
                                            if l <= c.chronology {
                                                Some(l)
                                            } else {
                                                Some(c.chronology)
                                            }
                                        },
                                        None => Some(c.chronology),
                                    };
                                    self.sorted_transactions.remove(ti);
                                },
                                None => {
                                    let mut t = self.sorted_transactions[ti];
                                    t.disputed = true;
                                    self.sorted_transactions[ti] = t;
                                    self.disputes.push(d);
                                },
                            }
                        },
                    }
                },
            }
            proof {
                assert(self.pending_of() =~= dispute_step(p, d));
            }
            i = i + 1;
        }
        assert(disputes@.subrange(0, i as int) =~= disputes@);
    }

    /// Evaluates the account: merges the transactions that arrived since the
    /// last evaluation into the history, resolves what claims it can, and
    /// derives the funds from the history up to the lock point. Fails with
    /// `Overflow` when a sum leaves the decimal range; the funds are then
    /// left as they were.
    pub fn calculate_funds(&mut self) -> (r: Result<(), LedgerError>)
        requires
            old(self).wf(),
            old(self)@.pending.history.len() + old(self)@.incoming.len() <= usize::MAX,
        ensures
            (final(self)@, r is Ok) == evaluate_spec(old(self)@),
            final(self).wf(),
            r is Err ==> r == Err::<(), LedgerError>(LedgerError::Overflow),
    {
        // combine the two sorted lists
        let batch = sort_transactions(&self.unsorted_transactions);
        merge_in_place(&mut self.sorted_transactions, batch.as_slice());
        self.unsorted_transactions = Vec::new();

        // resolve any disputes we can
        self.resolve_disputes();

        let ghost p = self.pending_of();
        assert(p == evaluate_pending(old(self)@));
        proof {
            let v = old(self)@;
            lemma_sort_sorted(v.incoming);
            lemma_merge_sorted(v.pending.history, sort_spec(v.incoming));
            let merged = merge_spec(v.pending.history, sort_spec(v.incoming));
            lemma_pass_sorted(Pending { history: merged, kept: Seq::empty(), ..v.pending }, v.pending.kept);
            lemma_pass_kept_sorted(Pending { history: merged, kept: Seq::empty(), ..v.pending }, v.pending.kept);
        }
        let max_chronology: u64 = match self.locked {
            Some(l) => l,
            None => u64::MAX,
        };
        let mut available = Fixed::zero();
        let mut held = Fixed::zero();
        let mut i: usize = 0;
        while i < self.sorted_transactions.len()
            invariant
                p == self.pending_of(),
                p == evaluate_pending(old(self)@),
                sorted(p.history),
                disputes_sorted(p.kept),
                max_chronology == cutoff(p.lock),
                i <= p.history.len(),
                funds(p.history.subrange(0, i as int), max_chronology) == Some(
                    (available@, held@),
                ),
                self.state == old(self).state,
                self.unsorted_transactions@ == Seq::<Transaction>::empty(),
            decreases p.history.len() - i,
        {
            let ghost pre = p.history.subrange(0, i as int + 1);
            assert(pre.drop_last() =~= p.history.subrange(0, i as int));
            let t = self.sorted_transactions[i];
            assert(pre.last() == t);
            // transactions past the lock point do not count
            if t.chronology <= max_chronology {
                if t.disputed {
                    if t.amount.is_negative() {
                        // a disputed withdrawal: neither returned nor
                        // withheld further until it is resolved
                        match held.checked_sub(&t.amount) {
                            Some(h) => {
                                held = h;
                            },
                            None => {
                                proof {
                                    lemma_funds_none_extends(p.history, i as int + 1, max_chronology);
                                }
                                return Err(LedgerError::Overflow);
                            },
                        }
                    } else {
                        // a disputed deposit; available may go negative
                        match available.checked_sub(&t.amount) {
                            Some(a) => match held.checked_add(&t.amount) {
                                Some(h) => {
                                    available = a;
                                    held = h;
                                },
                                None => {
                                    proof {
                                    lemma_funds_none_extends(p.history, i as int + 1, max_chronology);
                                }
                                return Err(LedgerError::Overflow);
                                },
                            },
                            None => {
                                proof {
                                    lemma_funds_none_extends(p.history, i as int + 1, max_chronology);
                                }
                                return Err(LedgerError::Overflow);
                            },
                        }
                    }
                } else {
                    match available.checked_add(&t.amount) {
                        Some(a) => {
                            // available funds may not go below zero
                            if !a.is_negative() {
                                available = a;
                            }
                        },
                        None => {
                            proof {
                                    lemma_funds_none_extends(p.history, i as int + 1, max_chronology);
                                }
                                return Err(LedgerError::Overflow);
                        },
                    }
                }
            }
            i = i + 1;
        }
        assert(p.history.subrange(0, i as int) =~= p.history);
        self.state = ClientState {
            available_funds: available,
            held_funds: held,
            locked: self.locked.is_some(),
        };
        Ok(())
    }

    pub fn available_funds(&self) -> (r: Fixed)
        ensures
            r@ == self@.available,
    {
        self.state.available_funds
    }

    pub fn held_funds(&self) -> (r: Fixed)
        ensures
            r@ == self@.held,
    {
        self.state.held_funds
    }

    pub fn total_funds(&self) -> (r: Fixed)
        requires
            in_range(self@.available + self@.held),
        ensures
            r@ == self@.available + self@.held,
    {
        self.available_funds().add(self.held_funds())
    }

    pub fn is_locked(&self) -> (r: bool)
        ensures
            r == self@.state_locked,
    {
        self.state.locked
    }
}

impl Default for Client {
    fn default() -> (r: Client)
        ensures
            fresh(r@),
            r.wf(),
    {
        Client::new()
    }
}

} // verus!
