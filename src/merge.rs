use vstd::prelude::*;
use vstd::multiset::Multiset;

use crate::transactions::{key_le, key_lt, sorted, Transaction};

verus! {

broadcast use vstd::seq_lib::group_to_multiset_ensures;

/// The stable merge of two sequences, taken from the back: the later of the
/// two last elements goes last, and on equal keys the element of `b` does.
pub open spec fn merge_spec(a: Seq<Transaction>, b: Seq<Transaction>) -> Seq<Transaction>
    decreases a.len() + b.len(),
{
    if a.len() == 0 {
        b
    } else if b.len() == 0 {
        a
    } else if key_lt(b.last(), a.last()) {
        merge_spec(a.drop_last(), b).push(a.last())
    } else {
        merge_spec(a, b.drop_last()).push(b.last())
    }
}

/// Every element of the sequence comes no later than `t`.
pub open spec fn all_key_le(s: Seq<Transaction>, t: Transaction) -> bool {
    forall|i: int| 0 <= i < s.len() ==> key_le(#[trigger] s[i], t)
}

proof fn lemma_merge_bounded(a: Seq<Transaction>, b: Seq<Transaction>, t: Transaction)
    requires
        all_key_le(a, t),
        all_key_le(b, t),
    ensures
        all_key_le(merge_spec(a, b), t),
    decreases a.len() + b.len(),
{
    if a.len() > 0 && b.len() > 0 {
        if key_lt(b.last(), a.last()) {
            assert(a.last() == a[a.len() - 1]);
            lemma_merge_bounded(a.drop_last(), b, t);
        } else {
            assert(b.last() == b[b.len() - 1]);
            lemma_merge_bounded(a, b.drop_last(), t);
        }
    }
}

/// Merging two sorted sequences gives a sorted sequence holding exactly the
/// elements of both.
pub proof fn lemma_merge_sorted(a: Seq<Transaction>, b: Seq<Transaction>)
    requires
        sorted(a),
        sorted(b),
    ensures
        sorted(merge_spec(a, b)),
        merge_spec(a, b).len() == a.len() + b.len(),
        merge_spec(a, b).to_multiset() == a.to_multiset().add(b.to_multiset()),
    decreases a.len() + b.len(),
{
    if a.len() == 0 {
        assert(a.to_multiset() =~= Multiset::empty());
        assert(b.to_multiset().add(Multiset::empty()) =~= b.to_multiset());
        assert(Multiset::<Transaction>::empty().add(b.to_multiset()) =~= b.to_multiset());
    } else if b.len() == 0 {
        assert(b.to_multiset() =~= Multiset::empty());
        assert(a.to_multiset().add(Multiset::empty()) =~= a.to_multiset());
    } else if key_lt(b.last(), a.last()) {
        let a0 = a.drop_last();
        let t = a.last();
        assert(a0.push(t) =~= a);
        lemma_merge_sorted(a0, b);
        assert(all_key_le(a0, t)) by {
            assert forall|i: int| 0 <= i < a0.len() implies key_le(#[trigger] a0[i], t) by {
                assert(a[i] == a0[i]);
                assert(key_le(a[i], a[a.len() - 1]));
            }
        }
        assert(all_key_le(b, t)) by {
            assert forall|i: int| 0 <= i < b.len() implies key_le(#[trigger] b[i], t) by {
                if i < b.len() - 1 {
                    assert(key_le(b[i], b[b.len() - 1]));
                }
            }
        }
        lemma_merge_bounded(a0, b, t);
        let m = merge_spec(a0, b);
        assert forall|i: int, j: int|
            0 <= i < j < m.push(t).len() implies key_le(
            #[trigger] m.push(t)[i],
            #[trigger] m.push(t)[j],
        ) by {
            if j < m.len() {
                assert(m.push(t)[i] == m[i]);
                assert(m.push(t)[j] == m[j]);
            } else {
                assert(m.push(t)[i] == m[i]);
            }
        }
        assert(a0.push(t).to_multiset() == a0.to_multiset().insert(t));
        assert(m.push(t).to_multiset() =~= a.to_multiset().add(b.to_multiset()));
    } else {
        let b0 = b.drop_last();
        let t = b.last();
        assert(b0.push(t) =~= b);
        lemma_merge_sorted(a, b0);
        assert(all_key_le(b0, t)) by {
            assert forall|i: int| 0 <= i < b0.len() implies key_le(#[trigger] b0[i], t) by {
                assert(b[i] == b0[i]);
                assert(key_le(b[i], b[b.len() - 1]));
            }
        }
        assert(all_key_le(a, t)) by {
            assert forall|i: int| 0 <= i < a.len() implies key_le(#[trigger] a[i], t) by {
                if i < a.len() - 1 {
                    assert(key_le(a[i], a[a.len() - 1]));
                }
            }
        }
        lemma_merge_bounded(a, b0, t);
        let m = merge_spec(a, b0);
        assert forall|i: int, j: int|
            0 <= i < j < m.push(t).len() implies key_le(
            #[trigger] m.push(t)[i],
            #[trigger] m.push(t)[j],
        ) by {
            if j < m.len() {
                assert(m.push(t)[i] == m[i]);
                assert(m.push(t)[j] == m[j]);
            } else {
                assert(m.push(t)[i] == m[i]);
            }
        }
        assert(b0.push(t).to_multiset() == b0.to_multiset().insert(t));
        assert(m.push(t).to_multiset() =~= a.to_multiset().add(b.to_multiset()));
    }
}

/// Merges the sorted batch `b` into the sorted vector `a`, from the back,
/// with no extra buffer beyond the grown `a`.
pub fn merge_in_place(a: &mut Vec<Transaction>, b: &[Transaction])
    requires
        old(a).len() + b.len() <= usize::MAX,
    ensures
        final(a)@ == merge_spec(old(a)@, b@),
{
    let ghost aa = a@;
    let ghost bb = b@;
    let mut i: usize = a.len();
    let mut j: usize = b.len();
    let mut x: usize = 0;
    while x < j
        invariant
            j == bb.len(),
            bb == b@,
            i == aa.len(),
            x <= j,
            a@.len() == i + x,
            a@.subrange(0, i as int) == aa,
        decreases j - x,
    {
        a.push(b[x]);
        assert(a@.subrange(0, i as int) =~= aa);
        x = x + 1;
    }
    let n: usize = a.len();
    let mut k: usize = n;
    assert(aa.subrange(0, i as int) =~= aa);
    assert(bb.subrange(0, j as int) =~= bb);
    assert(a@.subrange(k as int, n as int) =~= Seq::<Transaction>::empty());
    assert(merge_spec(aa, bb) =~= merge_spec(aa.subrange(0, i as int), bb.subrange(0, j as int))
        + a@.subrange(k as int, n as int));
    // merge backwards
    while i > 0 && j > 0
        invariant
            bb == b@,
            n == aa.len() + bb.len(),
            a@.len() == n,
            i <= aa.len(),
            j <= bb.len(),
            k == i + j,
            a@.subrange(0, i as int) == aa.subrange(0, i as int),
            merge_spec(aa, bb) == merge_spec(aa.subrange(0, i as int), bb.subrange(0, j as int))
                + a@.subrange(k as int, n as int),
        decreases i + j,
    {
        let ghost ai = aa.subrange(0, i as int);
        let ghost bj = bb.subrange(0, j as int);
        let ghost old_a = a@;
        assert(ai.last() == a@[i - 1]);
        assert(bj.last() == b@[j - 1]);
        k = k - 1;
        let later = a[i - 1].chronology > b[j - 1].chronology || (a[i - 1].chronology == b[j
            - 1].chronology && a[i - 1].id > b[j - 1].id);
        if later {
            i = i - 1;
            let v = a[i];
            a[k] = v;
            assert(ai.drop_last() =~= aa.subrange(0, i as int));
            assert(a@.subrange(0, i as int) =~= aa.subrange(0, i as int));
            assert(a@.subrange(k as int, n as int) =~= seq![v] + old_a.subrange(
                k + 1,
                n as int,
            ));
        } else {
            j = j - 1;
            let v = b[j];
            a[k] = v;
            assert(bj.drop_last() =~= bb.subrange(0, j as int));
            assert(a@.subrange(0, i as int) =~= aa.subrange(0, i as int));
            assert(a@.subrange(k as int, n as int) =~= seq![v] + old_a.subrange(
                k + 1,
                n as int,
            ));
        }
    }
    // copy what remains of b
    while j > 0
        invariant
            bb == b@,
            n == aa.len() + bb.len(),
            a@.len() == n,
            i <= aa.len(),
            j <= bb.len(),
            k == i + j,
            j > 0 ==> i == 0,
            a@.subrange(0, i as int) == aa.subrange(0, i as int),
            merge_spec(aa, bb) == merge_spec(aa.subrange(0, i as int), bb.subrange(0, j as int))
                + a@.subrange(k as int, n as int),
        decreases j,
    {
        let ghost bj = bb.subrange(0, j as int);
        let ghost old_a = a@;
        j = j - 1;
        k = k - 1;
        let v = b[j];
        a[k] = v;
        assert(bj =~= bb.subrange(0, j as int).push(v));
        assert(a@.subrange(k as int, n as int) =~= seq![v] + old_a.subrange(k + 1, n as int));
    }
    assert(bb.subrange(0, 0) =~= Seq::<Transaction>::empty());
    assert(merge_spec(aa.subrange(0, i as int), bb.subrange(0, 0)) == aa.subrange(0, i as int));
    assert(a@ =~= a@.subrange(0, i as int) + a@.subrange(k as int, n as int));
}

} // verus!
