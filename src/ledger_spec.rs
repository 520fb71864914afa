use vstd::prelude::*;

use crate::fixed::in_range;
use crate::merge::all_key_le;
use crate::transactions::{
    dispute_lt, disputes_sorted, key_le, key_lt, sorted, Chargeback, Dispute, Resolve, Transaction,
};

verus! {

// ---------------------------------------------------------------------------
// Looking up by identifier

/// `i` is the first position that holds `id`.
pub open spec fn is_first(ids: Seq<u64>, id: u64, i: int) -> bool {
    &&& 0 <= i < ids.len()
    &&& ids[i] == id
    &&& forall|j: int| 0 <= j < i ==> ids[j] != id
}

/// `i` is the last position that holds `id`.
pub open spec fn is_last(ids: Seq<u64>, id: u64, i: int) -> bool {
    &&& 0 <= i < ids.len()
    &&& ids[i] == id
    &&& forall|j: int| i < j < ids.len() ==> ids[j] != id
}

/// The first position that holds `id`, or -1.
pub open spec fn first_index(ids: Seq<u64>, id: u64) -> int
    decreases ids.len(),
{
    if ids.len() == 0 {
        -1
    } else {
        let k = first_index(ids.drop_last(), id);
        if k >= 0 {
            k
        } else if ids.last() == id {
            ids.len() - 1
        } else {
            -1
        }
    }
}

/// The last position that holds `id`, or -1.
pub open spec fn last_index(ids: Seq<u64>, id: u64) -> int
    decreases ids.len(),
{
    if ids.len() == 0 {
        -1
    } else if ids.last() == id {
        ids.len() - 1
    } else {
        last_index(ids.drop_last(), id)
    }
}

pub open spec fn tx_ids(h: Seq<Transaction>) -> Seq<u64> {
    h.map_values(|t: Transaction| t.id)
}

pub open spec fn resolve_ids(r: Seq<Resolve>) -> Seq<u64> {
    r.map_values(|c: Resolve| c.id)
}

pub open spec fn chargeback_ids(c: Seq<Chargeback>) -> Seq<u64> {
    c.map_values(|c: Chargeback| c.id)
}

pub proof fn lemma_first_index(ids: Seq<u64>, id: u64)
    ensures
        -1 <= first_index(ids, id) < ids.len(),
        first_index(ids, id) == -1 <==> forall|j: int| 0 <= j < ids.len() ==> ids[j] != id,
        first_index(ids, id) >= 0 ==> is_first(ids, id, first_index(ids, id)),
        forall|i: int| #[trigger] is_first(ids, id, i) ==> first_index(ids, id) == i,
    decreases ids.len(),
{
    if ids.len() > 0 {
        let t = ids.drop_last();
        lemma_first_index(t, id);
        assert forall|j: int| 0 <= j < t.len() implies t[j] == ids[j] by {}
        assert forall|i: int| #[trigger] is_first(ids, id, i) implies first_index(ids, id) == i by {
            if i < ids.len() - 1 {
                assert(is_first(t, id, i));
            } else {
                assert forall|j: int| 0 <= j < t.len() implies t[j] != id by {
                    assert(ids[j] != id);
                }
            }
        }
    }
}

pub proof fn lemma_last_index(ids: Seq<u64>, id: u64)
    ensures
        -1 <= last_index(ids, id) < ids.len(),
        last_index(ids, id) == -1 <==> forall|j: int| 0 <= j < ids.len() ==> ids[j] != id,
        last_index(ids, id) >= 0 ==> is_last(ids, id, last_index(ids, id)),
        forall|i: int| #[trigger] is_last(ids, id, i) ==> last_index(ids, id) == i,
    decreases ids.len(),
{
    if ids.len() > 0 {
        let t = ids.drop_last();
        lemma_last_index(t, id);
        assert forall|j: int| 0 <= j < t.len() implies t[j] == ids[j] by {}
        assert forall|i: int| #[trigger] is_last(ids, id, i) implies last_index(ids, id) == i by {
            if ids.last() != id {
                assert(i < ids.len() - 1);
                assert(is_last(t, id, i));
            }
        }
    }
}

// ---------------------------------------------------------------------------
// Sorting the incoming batch

/// Inserts `x` into sorted `s` after every element that does not come after it.
pub open spec fn insert_sorted(s: Seq<Transaction>, x: Transaction) -> Seq<Transaction>
    decreases s.len(),
{
    if s.len() == 0 {
        seq![x]
    } else if key_lt(x, s.last()) {
        insert_sorted(s.drop_last(), x).push(s.last())
    } else {
        s.push(x)
    }
}

/// Stable insertion sort by causal key.
pub open spec fn sort_spec(s: Seq<Transaction>) -> Seq<Transaction>
    decreases s.len(),
{
    if s.len() == 0 {
        s
    } else {
        insert_sorted(sort_spec(s.drop_last()), s.last())
    }
}

/// Inserts `d` into sorted `s` after every dispute that does not come after it.
pub open spec fn insert_dispute(s: Seq<Dispute>, d: Dispute) -> Seq<Dispute>
    decreases s.len(),
{
    if s.len() == 0 {
        seq![d]
    } else if dispute_lt(d, s.last()) {
        insert_dispute(s.drop_last(), d).push(s.last())
    } else {
        s.push(d)
    }
}

// ---------------------------------------------------------------------------
// Resolving claims

/// What the claim pass works on: the history, the disputes kept so far, the
/// pending resolves and chargebacks, and the lock point.
pub struct Pending {
    pub history: Seq<Transaction>,
    pub kept: Seq<Dispute>,
    pub resolves: Seq<Resolve>,
    pub chargebacks: Seq<Chargeback>,
    pub lock: Option<u64>,
}

/// The lock point after a chargeback at `c`: the earlier of the two.
pub open spec fn lower_lock(lock: Option<u64>, c: u64) -> Option<u64> {
    match lock {
        Some(l) => Some(if l <= c {
            l
        } else {
            c
        }),
        None => Some(c),
    }
}

pub open spec fn with_disputed(t: Transaction, disputed: bool) -> Transaction {
    Transaction { disputed, ..t }
}

/// One dispute against the current pending state.
pub open spec fn dispute_step(p: Pending, d: Dispute) -> Pending {
    let ti = last_index(tx_ids(p.history), d.id);
    let ri = first_index(resolve_ids(p.resolves), d.id);
    let ci = first_index(chargeback_ids(p.chargebacks), d.id);
    if ti < 0 {
        // the transaction is not known yet: wait
        Pending { kept: p.kept.push(d), ..p }
    } else if ri >= 0 {
        // withdrawn
        Pending {
            history: p.history.update(ti, with_disputed(p.history[ti], false)),
            resolves: p.resolves.remove(ri),
            ..p
        }
    } else if ci >= 0 {
        // reversed: the transaction leaves the history and the account locks
        Pending {
            history: p.history.remove(ti),
            chargebacks: p.chargebacks.remove(ci),
            lock: lower_lock(p.lock, p.chargebacks[ci].chronology),
            ..p
        }
    } else {
        // still open
        Pending {
            history: p.history.update(ti, with_disputed(p.history[ti], true)),
            kept: p.kept.push(d),
            ..p
        }
    }
}

/// The claim pass: each dispute of `ds` in turn.
pub open spec fn resolve_pass(p: Pending, ds: Seq<Dispute>) -> Pending
    decreases ds.len(),
{
    if ds.len() == 0 {
        p
    } else {
        dispute_step(resolve_pass(p, ds.drop_last()), ds.last())
    }
}

// ---------------------------------------------------------------------------
// Deriving the funds

/// The point past which transactions do not count.
pub open spec fn cutoff(lock: Option<u64>) -> u64 {
    match lock {
        Some(l) => l,
        None => u64::MAX,
    }
}

/// One transaction applied to `(available, held)`; `None` on overflow.
pub open spec fn funds_step(acc: Option<(int, int)>, t: Transaction, max: u64) -> Option<
    (int, int),
> {
    match acc {
        None => None,
        Some((av, hd)) => {
            if t.chronology > max {
                Some((av, hd))
            } else if t.disputed {
                if t.amount@ < 0 {
                    // a disputed withdrawal: held grows by its size
                    if in_range(hd - t.amount@) {
                        Some((av, hd - t.amount@))
                    } else {
                        None
                    }
                } else {
                    // a disputed deposit moves from available to held
                    if in_range(av - t.amount@) && in_range(hd + t.amount@) {
                        Some((av - t.amount@, hd + t.amount@))
                    } else {
                        None
                    }
                }
            } else if !in_range(av + t.amount@) {
                None
            } else if av + t.amount@ >= 0 {
                Some((av + t.amount@, hd))
            } else {
                // insufficient funds: skipped
                Some((av, hd))
            }
        },
    }
}

/// `(available, held)` after scanning the history in order; `None` on
/// overflow.
pub open spec fn funds(h: Seq<Transaction>, max: u64) -> Option<(int, int)>
    decreases h.len(),
{
    if h.len() == 0 {
        Some((0, 0))
    } else {
        funds_step(funds(h.drop_last(), max), h.last(), max)
    }
}


// ---------------------------------------------------------------------------
// Laws of the claim pass

/// A kept dispute that another pass would keep as it is: its transaction is
/// still unknown, or it is marked disputed and nothing pending settles it.
pub open spec fn settled(p: Pending, d: Dispute) -> bool {
    let ti = last_index(tx_ids(p.history), d.id);
    ti < 0 || (p.history[ti].disputed && first_index(resolve_ids(p.resolves), d.id) < 0
        && first_index(chargeback_ids(p.chargebacks), d.id) < 0)
}

pub open spec fn all_settled(p: Pending) -> bool {
    forall|k: int| 0 <= k < p.kept.len() ==> settled(p, #[trigger] p.kept[k])
}

proof fn lemma_first_index_remove(ids: Seq<u64>, k: int, id: u64)
    requires
        0 <= k < ids.len(),
        first_index(ids, id) < 0,
    ensures
        first_index(ids.remove(k), id) < 0,
{
    lemma_first_index(ids, id);
    lemma_first_index(ids.remove(k), id);
    if first_index(ids.remove(k), id) >= 0 {
        let j = first_index(ids.remove(k), id);
        if j < k {
            assert(ids[j] == id);
        } else {
            assert(ids[j + 1] == id);
        }
    }
}

proof fn lemma_last_index_remove(h: Seq<Transaction>, ti: int, id: u64)
    requires
        0 <= ti < h.len(),
        h[ti].id != id,
    ensures
        ({
            let l = last_index(tx_ids(h), id);
            let l2 = last_index(tx_ids(h.remove(ti)), id);
            &&& l < 0 ==> l2 < 0
            &&& l >= 0 ==> l2 >= 0 && h.remove(ti)[l2] == h[l]
        }),
{
    let ids = tx_ids(h);
    let h2 = h.remove(ti);
    let ids2 = tx_ids(h2);
    lemma_last_index(ids, id);
    lemma_last_index(ids2, id);
    let l = last_index(ids, id);
    if l < 0 {
        if last_index(ids2, id) >= 0 {
            let j = last_index(ids2, id);
            if j < ti {
                assert(ids[j] == id);
            } else {
                assert(ids[j + 1] == id);
            }
        }
    } else {
        let l2 = if l > ti {
            l - 1
        } else {
            l
        };
        assert(h2[l2] == h[l]);
        assert forall|j: int| l2 < j < ids2.len() implies ids2[j] != id by {
            if j < ti {
                assert(ids2[j] == ids[j]);
            } else {
                assert(ids2[j] == ids[j + 1]);
            }
        }
        assert(is_last(ids2, id, l2));
    }
}

proof fn lemma_step_settled(p: Pending, d: Dispute)
    requires
        all_settled(p),
    ensures
        all_settled(dispute_step(p, d)),
{
    let h = p.history;
    let ids = tx_ids(h);
    let ti = last_index(ids, d.id);
    let ri = first_index(resolve_ids(p.resolves), d.id);
    let ci = first_index(chargeback_ids(p.chargebacks), d.id);
    let q = dispute_step(p, d);
    lemma_last_index(ids, d.id);
    lemma_first_index(resolve_ids(p.resolves), d.id);
    lemma_first_index(chargeback_ids(p.chargebacks), d.id);
    if ti < 0 {
        assert forall|k: int| 0 <= k < q.kept.len() implies settled(q, #[trigger] q.kept[k]) by {
            if k < p.kept.len() {
                assert(q.kept[k] == p.kept[k]);
            }
        }
    } else if ri >= 0 {
        assert(tx_ids(q.history) =~= ids);
        assert(resolve_ids(q.resolves) =~= resolve_ids(p.resolves).remove(ri));
        assert forall|k: int| 0 <= k < q.kept.len() implies settled(q, #[trigger] q.kept[k]) by {
            let e = p.kept[k];
            assert(settled(p, e));
            lemma_last_index(ids, e.id);
            if last_index(ids, e.id) >= 0 {
                lemma_first_index_remove(resolve_ids(p.resolves), ri, e.id);
            }
        }
    } else if ci >= 0 {
        assert(chargeback_ids(q.chargebacks) =~= chargeback_ids(p.chargebacks).remove(ci));
        assert forall|k: int| 0 <= k < q.kept.len() implies settled(q, #[trigger] q.kept[k]) by {
            let e = p.kept[k];
            assert(settled(p, e));
            lemma_last_index(ids, e.id);
            if last_index(ids, e.id) >= 0 {
                assert(e.id != d.id);
                lemma_first_index_remove(chargeback_ids(p.chargebacks), ci, e.id);
            }
            assert(h[ti].id == d.id);
            if e.id != d.id {
                lemma_last_index_remove(h, ti, e.id);
            }
        }
    } else {
        assert(tx_ids(q.history) =~= ids);
        assert forall|k: int| 0 <= k < q.kept.len() implies settled(q, #[trigger] q.kept[k]) by {
            if k < p.kept.len() {
                let e = p.kept[k];
                assert(q.kept[k] == e);
                assert(settled(p, e));
                lemma_last_index(ids, e.id);
            } else {
                assert(q.kept[k] == d);
            }
        }
    }
}

/// After a claim pass every dispute it kept is settled.
pub proof fn lemma_pass_settled(p: Pending, ds: Seq<Dispute>)
    requires
        all_settled(p),
    ensures
        all_settled(resolve_pass(p, ds)),
    decreases ds.len(),
{
    if ds.len() > 0 {
        lemma_pass_settled(p, ds.drop_last());
        lemma_step_settled(resolve_pass(p, ds.drop_last()), ds.last());
    }
}

/// Running the claim pass over settled disputes keeps each of them and
/// changes nothing else.
pub proof fn lemma_pass_replay(q: Pending, i: int)
    requires
        all_settled(q),
        0 <= i <= q.kept.len(),
    ensures
        resolve_pass(Pending { kept: Seq::empty(), ..q }, q.kept.subrange(0, i)) == (Pending {
            kept: q.kept.subrange(0, i),
            ..q
        }),
    decreases i,
{
    let ds = q.kept.subrange(0, i);
    if i == 0 {
        assert(ds =~= Seq::<Dispute>::empty());
    } else {
        assert(ds.drop_last() =~= q.kept.subrange(0, i - 1));
        lemma_pass_replay(q, i - 1);
        let s = Pending { kept: q.kept.subrange(0, i - 1), ..q };
        let d = q.kept[i - 1];
        assert(ds.last() == d);
        assert(settled(q, d));
        let ti = last_index(tx_ids(q.history), d.id);
        lemma_last_index(tx_ids(q.history), d.id);
        if ti >= 0 {
            assert(with_disputed(q.history[ti], true) == q.history[ti]);
            assert(q.history.update(ti, q.history[ti]) =~= q.history);
        }
        assert(s.kept.push(d) =~= ds);
    }
}

/// The claim pass only ever lowers the lock point, and never unlocks.
pub proof fn lemma_pass_lock(p: Pending, ds: Seq<Dispute>)
    ensures
        p.lock is Some ==> resolve_pass(p, ds).lock is Some && resolve_pass(p, ds).lock->0
            <= p.lock->0,
    decreases ds.len(),
{
    if ds.len() > 0 {
        lemma_pass_lock(p, ds.drop_last());
    }
}

/// A transaction later than the cutoff has no effect on the funds, wherever
/// it stands in the history.
pub proof fn lemma_funds_ignore_later(h: Seq<Transaction>, i: int, t: Transaction, max: u64)
    requires
        0 <= i <= h.len(),
        t.chronology > max,
    ensures
        funds(h.insert(i, t), max) == funds(h, max),
    decreases h.len(),
{
    if i == h.len() {
        assert(h.insert(i, t).drop_last() =~= h);
    } else {
        assert(h.insert(i, t).drop_last() =~= h.drop_last().insert(i, t));
        lemma_funds_ignore_later(h.drop_last(), i, t, max);
    }
}

// ---------------------------------------------------------------------------
// Order is kept

proof fn lemma_insert_bounded(s: Seq<Transaction>, x: Transaction, t: Transaction)
    requires
        all_key_le(s, t),
        key_le(x, t),
    ensures
        all_key_le(insert_sorted(s, x), t),
    decreases s.len(),
{
    if s.len() > 0 {
        assert(s.last() == s[s.len() - 1]);
        if key_lt(x, s.last()) {
            lemma_insert_bounded(s.drop_last(), x, t);
            let r = insert_sorted(s.drop_last(), x);
            assert forall|i: int| 0 <= i < r.push(s.last()).len() implies key_le(
                #[trigger] r.push(s.last())[i],
                t,
            ) by {
                if i < r.len() {
                    assert(r.push(s.last())[i] == r[i]);
                }
            }
        } else {
            assert forall|i: int| 0 <= i < s.push(x).len() implies key_le(
                #[trigger] s.push(x)[i],
                t,
            ) by {
                if i < s.len() {
                    assert(s.push(x)[i] == s[i]);
                }
            }
        }
    }
}

proof fn lemma_insert_sorted(s: Seq<Transaction>, x: Transaction)
    requires
        sorted(s),
    ensures
        sorted(insert_sorted(s, x)),
    decreases s.len(),
{
    if s.len() > 0 {
        let l = s.last();
        let s0 = s.drop_last();
        assert(sorted(s0)) by {
            assert forall|i: int, j: int| 0 <= i < j < s0.len() implies key_le(
                #[trigger] s0[i],
                #[trigger] s0[j],
            ) by {
                assert(s0[i] == s[i] && s0[j] == s[j]);
            }
        }
        assert(all_key_le(s0, l)) by {
            assert forall|i: int| 0 <= i < s0.len() implies key_le(#[trigger] s0[i], l) by {
                assert(s0[i] == s[i]);
                assert(key_le(s[i], s[s.len() - 1]));
            }
        }
        if key_lt(x, l) {
            lemma_insert_sorted(s0, x);
            lemma_insert_bounded(s0, x, l);
            let r = insert_sorted(s0, x);
            assert forall|i: int, j: int| 0 <= i < j < r.push(l).len() implies key_le(
                #[trigger] r.push(l)[i],
                #[trigger] r.push(l)[j],
            ) by {
                assert(r.push(l)[i] == r[i]);
                if j < r.len() {
                    assert(r.push(l)[j] == r[j]);
                }
            }
        } else {
            assert forall|i: int, j: int| 0 <= i < j < s.push(x).len() implies key_le(
                #[trigger] s.push(x)[i],
                #[trigger] s.push(x)[j],
            ) by {
                assert(s.push(x)[i] == s[i]);
                if j < s.len() {
                    assert(s.push(x)[j] == s[j]);
                } else if i < s.len() - 1 {
                    assert(key_le(s[i], s[s.len() - 1]));
                }
            }
        }
    }
}

/// The sorted batch is in causal order.
pub proof fn lemma_sort_sorted(s: Seq<Transaction>)
    ensures
        sorted(sort_spec(s)),
    decreases s.len(),
{
    if s.len() > 0 {
        lemma_sort_sorted(s.drop_last());
        lemma_insert_sorted(sort_spec(s.drop_last()), s.last());
    }
}

/// The claim pass keeps the history in causal order.
pub proof fn lemma_pass_sorted(p: Pending, ds: Seq<Dispute>)
    requires
        sorted(p.history),
    ensures
        sorted(resolve_pass(p, ds).history),
    decreases ds.len(),
{
    if ds.len() > 0 {
        lemma_pass_sorted(p, ds.drop_last());
        let q = resolve_pass(p, ds.drop_last());
        let h = q.history;
        let d = ds.last();
        let ti = last_index(tx_ids(h), d.id);
        let ri = first_index(resolve_ids(q.resolves), d.id);
        let ci = first_index(chargeback_ids(q.chargebacks), d.id);
        lemma_last_index(tx_ids(h), d.id);
        if ti >= 0 {
            if ri >= 0 || ci < 0 {
                let h2 = dispute_step(q, d).history;
                assert forall|i: int, j: int| 0 <= i < j < h2.len() implies key_le(
                    #[trigger] h2[i],
                    #[trigger] h2[j],
                ) by {
                    assert(key_le(h[i], h[j]));
                }
            } else {
                let h2 = h.remove(ti);
                assert forall|i: int, j: int| 0 <= i < j < h2.len() implies key_le(
                    #[trigger] h2[i],
                    #[trigger] h2[j],
                ) by {
                    let a = if i < ti {
                        i
                    } else {
                        i + 1
                    };
                    let b = if j < ti {
                        j
                    } else {
                        j + 1
                    };
                    assert(h2[i] == h[a] && h2[j] == h[b]);
                    assert(key_le(h[a], h[b]));
                }
            }
        }
    }
}

/// Every dispute of the sequence comes no later than `t`.
pub open spec fn all_dispute_le(s: Seq<Dispute>, t: Dispute) -> bool {
    forall|i: int| 0 <= i < s.len() ==> !dispute_lt(t, #[trigger] s[i])
}

proof fn lemma_insert_dispute_bounded(s: Seq<Dispute>, x: Dispute, t: Dispute)
    requires
        all_dispute_le(s, t),
        !dispute_lt(t, x),
    ensures
        all_dispute_le(insert_dispute(s, x), t),
    decreases s.len(),
{
    if s.len() > 0 {
        assert(s.last() == s[s.len() - 1]);
        if dispute_lt(x, s.last()) {
            lemma_insert_dispute_bounded(s.drop_last(), x, t);
            let r = insert_dispute(s.drop_last(), x);
            assert forall|i: int| 0 <= i < r.push(s.last()).len() implies !dispute_lt(
                t,
                #[trigger] r.push(s.last())[i],
            ) by {
                if i < r.len() {
                    assert(r.push(s.last())[i] == r[i]);
                }
            }
        } else {
            assert forall|i: int| 0 <= i < s.push(x).len() implies !dispute_lt(
                t,
                #[trigger] s.push(x)[i],
            ) by {
                if i < s.len() {
                    assert(s.push(x)[i] == s[i]);
                }
            }
        }
    }
}

/// Inserting into sorted disputes keeps them sorted.
pub proof fn lemma_insert_dispute_sorted(s: Seq<Dispute>, x: Dispute)
    requires
        disputes_sorted(s),
    ensures
        disputes_sorted(insert_dispute(s, x)),
    decreases s.len(),
{
    if s.len() > 0 {
        let l = s.last();
        let s0 = s.drop_last();
        assert(disputes_sorted(s0)) by {
            assert forall|i: int, j: int| 0 <= i < j < s0.len() implies !dispute_lt(
                #[trigger] s0[j],
                #[trigger] s0[i],
            ) by {
                assert(s0[i] == s[i] && s0[j] == s[j]);
            }
        }
        assert(all_dispute_le(s0, l)) by {
            assert forall|i: int| 0 <= i < s0.len() implies !dispute_lt(l, #[trigger] s0[i]) by {
                assert(s0[i] == s[i]);
                assert(!dispute_lt(s[s.len() - 1], s[i]));
            }
        }
        if dispute_lt(x, l) {
            lemma_insert_dispute_sorted(s0, x);
            lemma_insert_dispute_bounded(s0, x, l);
            let r = insert_dispute(s0, x);
            assert forall|i: int, j: int| 0 <= i < j < r.push(l).len() implies !dispute_lt(
                #[trigger] r.push(l)[j],
                #[trigger] r.push(l)[i],
            ) by {
                assert(r.push(l)[i] == r[i]);
                if j < r.len() {
                    assert(r.push(l)[j] == r[j]);
                }
            }
        } else {
            assert forall|i: int, j: int| 0 <= i < j < s.push(x).len() implies !dispute_lt(
                #[trigger] s.push(x)[j],
                #[trigger] s.push(x)[i],
            ) by {
                assert(s.push(x)[i] == s[i]);
                if j < s.len() {
                    assert(s.push(x)[j] == s[j]);
                } else if i < s.len() - 1 {
                    assert(!dispute_lt(s[s.len() - 1], s[i]));
                }
            }
        }
    }
}

proof fn lemma_pass_kept_bounded(p: Pending, ds: Seq<Dispute>, t: Dispute)
    requires
        all_dispute_le(p.kept, t),
        all_dispute_le(ds, t),
    ensures
        all_dispute_le(resolve_pass(p, ds).kept, t),
    decreases ds.len(),
{
    if ds.len() > 0 {
        assert(all_dispute_le(ds.drop_last(), t)) by {
            assert forall|i: int| 0 <= i < ds.drop_last().len() implies !dispute_lt(
                t,
                #[trigger] ds.drop_last()[i],
            ) by {
                assert(ds.drop_last()[i] == ds[i]);
            }
        }
        lemma_pass_kept_bounded(p, ds.drop_last(), t);
        let k = resolve_pass(p, ds.drop_last()).kept;
        assert(ds.last() == ds[ds.len() - 1]);
        assert forall|i: int| 0 <= i < k.push(ds.last()).len() implies !dispute_lt(
            t,
            #[trigger] k.push(ds.last())[i],
        ) by {
            if i < k.len() {
                assert(k.push(ds.last())[i] == k[i]);
            }
        }
    }
}

/// A claim pass over disputes in causal order keeps them in causal order.
pub proof fn lemma_pass_kept_sorted(p: Pending, ds: Seq<Dispute>)
    requires
        p.kept.len() == 0,
        disputes_sorted(ds),
    ensures
        disputes_sorted(resolve_pass(p, ds).kept),
    decreases ds.len(),
{
    if ds.len() > 0 {
        let ds0 = ds.drop_last();
        let l = ds.last();
        assert(disputes_sorted(ds0)) by {
            assert forall|i: int, j: int| 0 <= i < j < ds0.len() implies !dispute_lt(
                #[trigger] ds0[j],
                #[trigger] ds0[i],
            ) by {
                assert(ds0[i] == ds[i] && ds0[j] == ds[j]);
            }
        }
        lemma_pass_kept_sorted(p, ds0);
        assert(all_dispute_le(ds0, l)) by {
            assert forall|i: int| 0 <= i < ds0.len() implies !dispute_lt(l, #[trigger] ds0[i]) by {
                assert(ds0[i] == ds[i]);
                assert(!dispute_lt(ds[ds.len() - 1], ds[i]));
            }
        }
        lemma_pass_kept_bounded(p, ds0, l);
        let k = resolve_pass(p, ds0).kept;
        assert forall|i: int, j: int| 0 <= i < j < k.push(l).len() implies !dispute_lt(
            #[trigger] k.push(l)[j],
            #[trigger] k.push(l)[i],
        ) by {
            assert(k.push(l)[i] == k[i]);
            if j < k.len() {
                assert(k.push(l)[j] == k[j]);
            }
        }
    }
}

} // verus!
