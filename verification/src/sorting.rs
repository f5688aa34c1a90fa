//! Descending order on field elements.

use vstd::prelude::*;
use vstd::relations::{sorted_by, total_ordering};
use vstd::seq_lib::{lemma_sorted_unique, to_multiset_update};

verus! {

/// No element is smaller than one that follows it.
pub open spec fn is_descending(s: Seq<u64>) -> bool {
    forall|i: int, j: int| 0 <= i < j < s.len() ==> s[i] >= s[j]
}

/// The rearrangement of `s` in descending order.
pub open spec fn descending_sort(s: Seq<u64>) -> Seq<u64> {
    s.sort_by(|a: u64, b: u64| a >= b)
}

/// `descending_sort` yields a descending rearrangement of its argument.
pub proof fn lemma_descending_sort(s: Seq<u64>)
    ensures
        is_descending(descending_sort(s)),
        descending_sort(s).to_multiset() == s.to_multiset(),
        descending_sort(s).len() == s.len(),
{
    let geq = |a: u64, b: u64| a >= b;
    assert(total_ordering(geq));
    s.lemma_sort_by_ensures(geq);
    let r = descending_sort(s);
    assert(sorted_by(r, geq));
    assert forall|i: int, j: int| 0 <= i < j < r.len() implies r[i] >= r[j] by {
        assert(geq(r[i], r[j]));
    }
    r.to_multiset_ensures();
    s.to_multiset_ensures();
}

/// A descending rearrangement of `s` can only be `descending_sort(s)`.
pub proof fn lemma_descending_unique(r: Seq<u64>, s: Seq<u64>)
    requires
        is_descending(r),
        r.to_multiset() == s.to_multiset(),
    ensures
        r == descending_sort(s),
{
    let geq = |a: u64, b: u64| a >= b;
    assert(total_ordering(geq));
    lemma_descending_sort(s);
    let d = descending_sort(s);
    assert(sorted_by(r, geq));
    assert(sorted_by(d, geq)) by {
        assert forall|i: int, j: int| 0 <= i < j < d.len() implies #[trigger] geq(d[i], d[j]) by {}
    }
    lemma_sorted_unique(r, d, geq);
}

/// Sorting a sequence that is already in descending order returns it
/// unchanged, so sorting twice is sorting once.
pub proof fn lemma_descending_sort_idempotent(s: Seq<u64>)
    ensures
        is_descending(s) ==> descending_sort(s) == s,
        descending_sort(descending_sort(s)) == descending_sort(s),
{
    if is_descending(s) {
        lemma_descending_unique(s, s);
    }
    lemma_descending_sort(s);
    lemma_descending_unique(descending_sort(s), descending_sort(s));
}

/// Exchanging two elements of a sequence rearranges it.
proof fn lemma_swap_rearranges(s: Seq<u64>, i: int, j: int)
    requires
        0 <= i < s.len(),
        0 <= j < s.len(),
    ensures
        s.update(i, s[j]).update(j, s[i]).to_multiset() == s.to_multiset(),
{
    broadcast use vstd::multiset::group_multiset_axioms;

    let mid = s.update(i, s[j]);
    s.to_multiset_ensures();
    mid.to_multiset_ensures();
    assert(s.to_multiset().count(s[i]) > 0);
    assert(mid.to_multiset().count(mid[j]) > 0);
    to_multiset_update(s, i, s[j]);
    to_multiset_update(mid, j, s[i]);
    assert(mid.update(j, s[i]).to_multiset() =~= s.to_multiset());
}

/// Sorts `v` into descending order, in place.
pub fn sort_descending(v: &mut Vec<u64>)
    ensures
        final(v)@ == descending_sort(old(v)@),
{
    let n = v.len();
    let mut i: usize = 1;
    while i < n
        invariant
            1 <= i,
            i <= n || n == 0,
            n == v@.len(),
            v@.to_multiset() == old(v)@.to_multiset(),
            i <= n ==> is_descending(v@.take(i as int)),
        decreases n - i,
    {
        let mut j: usize = i;
        proof {
            let t = v@.take(i as int);
            assert forall|a: int, b: int| 0 <= a < b < i implies v@[a] >= v@[b] by {
                assert(t[a] >= t[b]);
            }
        }
        while j > 0 && v[j - 1] < v[j]
            invariant
                j <= i < n,
                n == v@.len(),
                v@.to_multiset() == old(v)@.to_multiset(),
                forall|a: int, b: int| 0 <= a < b <= i && a != j && b != j ==> v@[a] >= v@[b],
                forall|b: int| j < b <= i ==> v@[j as int] > v@[b],
            decreases j,
        {
            let left: u64 = v[j - 1];
            let right: u64 = v[j];
            proof {
                lemma_swap_rearranges(v@, j - 1, j as int);
            }
            v.set(j - 1, right);
            v.set(j, left);
            j = j - 1;
        }
        proof {
            let t = v@.take(i + 1);
            assert forall|a: int, b: int| 0 <= a < b < t.len() implies t[a] >= t[b] by {
                if a == j {
                } else if b == j {
                    if a == j - 1 {
                    } else {
                        assert(v@[a] >= v@[j - 1]);
                    }
                } else {
                }
            }
        }
        i = i + 1;
    }
    proof {
        if n >= 1 {
            assert(v@.take(n as int) =~= v@);
        }
        assert(is_descending(v@));
        lemma_descending_unique(v@, old(v)@);
    }
}

} // verus!
