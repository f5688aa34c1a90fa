//! Wire handles.

use vstd::prelude::*;

verus! {

/// A handle to one circuit variable. A handle is made once, while the
/// circuit is built, and stands for one field element in every assignment.
#[derive(Clone, Copy, Debug, PartialEq, Eq, Structural, Hash)]
pub struct Target {
    pub index: usize,
}

/// The value that the assignment `w` gives to the wire `t`.
pub open spec fn value_of(w: Seq<u64>, t: Target) -> int {
    w[t.index as int] as int
}

/// The values that the assignment `w` gives to the wires `ts`, in order.
pub open spec fn values_of(w: Seq<u64>, ts: Seq<Target>) -> Seq<int> {
    Seq::new(ts.len(), |i: int| value_of(w, ts[i]))
}

/// Every value of the assignment `w` is a residue modulo `p`.
pub open spec fn in_field(w: Seq<u64>, p: int) -> bool {
    forall|t: int| 0 <= t < w.len() ==> #[trigger] w[t] < p
}

/// Every wire of `ts` has an index below `n`.
pub open spec fn all_below(ts: Seq<Target>, n: int) -> bool {
    forall|i: int| 0 <= i < ts.len() ==> (#[trigger] ts[i]).index < n
}

/// The handles of the `count` consecutive wires that start at `first`.
pub open spec fn wire_range(first: int, count: nat) -> Seq<Target> {
    Seq::new(count, |i: int| Target { index: (first + i) as usize })
}

/// The wires `ts` paired, position by position, with `values`.
pub open spec fn paired(ts: Seq<Target>, values: Seq<u64>) -> Seq<(Target, u64)> {
    Seq::new(ts.len(), |i: int| (ts[i], values[i]))
}

/// Every wire of `first` has a smaller index than every wire of `second`.
pub open spec fn precede(first: Seq<Target>, second: Seq<Target>) -> bool {
    forall|d: int, j: int|
        0 <= d < first.len() && 0 <= j < second.len() ==> (#[trigger] first[d]).index < (
        #[trigger] second[j]).index
}

/// Tells whether no wire occurs twice in `ts`.
pub fn all_distinct(ts: &[Target]) -> (r: bool)
    ensures
        r == ts@.no_duplicates(),
{
    let mut i: usize = 0;
    while i < ts.len()
        invariant
            i <= ts.len(),
            forall|a: int, b: int| 0 <= a < b < i ==> ts@[a] != ts@[b],
        decreases ts.len() - i,
    {
        let mut j: usize = 0;
        while j < i
            invariant
                j <= i,
                i < ts.len(),
                forall|a: int| 0 <= a < j ==> ts@[a] != ts@[i as int],
            decreases i - j,
        {
            if ts[j].index == ts[i].index {
                assert(ts@[j as int] == ts@[i as int]);
                return false;
            }
            j = j + 1;
        }
        i = i + 1;
    }
    true
}

/// Tells whether every wire of `first` has a smaller index than every wire
/// of `second`.
pub fn all_precede(first: &[Target], second: &[Target]) -> (r: bool)
    ensures
        r == precede(first@, second@),
{
    if second.len() == 0 {
        return true;
    }
    let mut lowest: usize = second[0].index;
    let ghost mut at: int = 0;
    let mut j: usize = 1;
    while j < second.len()
        invariant
            1 <= j <= second.len(),
            0 <= at < j,
            second@[at].index == lowest,
            forall|k: int| 0 <= k < j ==> lowest <= (#[trigger] second@[k]).index,
        decreases second.len() - j,
    {
        if second[j].index < lowest {
            lowest = second[j].index;
            proof {
                at = j as int;
            }
        }
        j = j + 1;
    }
    let mut d: usize = 0;
    while d < first.len()
        invariant
            d <= first.len(),
            0 <= at < second.len(),
            second@[at].index == lowest,
            forall|k: int| 0 <= k < d ==> (#[trigger] first@[k]).index < lowest,
        decreases first.len() - d,
    {
        if first[d].index >= lowest {
            assert(!(first@[d as int].index < second@[at].index));
            return false;
        }
        d = d + 1;
    }
    true
}

} // verus!
