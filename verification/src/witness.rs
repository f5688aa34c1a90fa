//! Concrete values for wires.

use crate::target::{paired, Target};
use vstd::prelude::*;

verus! {

/// Why a value could not be recorded.
#[derive(Clone, Copy, Debug, PartialEq, Eq, Structural)]
pub enum WitnessError {
    /// The wire already holds a different value.
    Conflict,
    /// A list of wires and a list of values differ in length.
    LengthMismatch,
}

/// The value a partial assignment gives to wire `i`, if any. Wires beyond
/// the end of the sequence are unset.
pub open spec fn lookup(pw: Seq<Option<u64>>, i: int) -> Option<u64> {
    if 0 <= i < pw.len() {
        pw[i]
    } else {
        None
    }
}

/// The wire `t` has a value in `pw`.
pub open spec fn known(pw: Seq<Option<u64>>, t: Target) -> bool {
    lookup(pw, t.index as int) is Some
}

/// Every wire of `ts` has a value in `pw`.
pub open spec fn all_known(pw: Seq<Option<u64>>, ts: Seq<Target>) -> bool {
    forall|i: int| 0 <= i < ts.len() ==> known(pw, #[trigger] ts[i])
}

/// The values that `pw` gives to the wires `ts`, in order.
pub open spec fn known_values(pw: Seq<Option<u64>>, ts: Seq<Target>) -> Seq<u64> {
    Seq::new(ts.len(), |i: int| lookup(pw, ts[i].index as int).unwrap())
}

/// `pw`, lengthened with unset wires so that it covers at least `n` wires.
pub open spec fn padded(pw: Seq<Option<u64>>, n: int) -> Seq<Option<u64>> {
    if n <= pw.len() {
        pw
    } else {
        pw + Seq::new((n - pw.len()) as nat, |i: int| None::<u64>)
    }
}

/// `pw` with wire `i` set to `value`.
pub open spec fn assigned(pw: Seq<Option<u64>>, i: int, value: u64) -> Seq<Option<u64>> {
    padded(pw, i + 1).update(i, Some(value))
}

/// `pw` with wire `i` set to `value` unless it already holds a value.
pub open spec fn filled(pw: Seq<Option<u64>>, i: int, value: u64) -> Seq<Option<u64>> {
    if lookup(pw, i) is Some {
        pw
    } else {
        assigned(pw, i, value)
    }
}

/// `pw` after filling, in order, each wire of `pairs` with the value
/// beside it.
pub open spec fn filled_pairs(pw: Seq<Option<u64>>, pairs: Seq<(Target, u64)>) -> Seq<Option<u64>>
    decreases pairs.len(),
{
    if pairs.len() == 0 {
        pw
    } else {
        filled(filled_pairs(pw, pairs.drop_last()), pairs.last().0.index as int, pairs.last().1)
    }
}

/// Writing pair `k` of `pairs`, after the pairs before it, meets a wire
/// that holds another value.
pub open spec fn clashes(pw: Seq<Option<u64>>, pairs: Seq<(Target, u64)>, k: int) -> bool {
    let held = lookup(filled_pairs(pw, pairs.take(k)), pairs[k].0.index as int);
    held is Some && held != Some(pairs[k].1)
}

/// No wire occurs twice in `pairs`.
pub open spec fn distinct_wires(pairs: Seq<(Target, u64)>) -> bool {
    forall|a: int, b: int| 0 <= a < b < pairs.len() ==> pairs[a].0 != pairs[b].0
}

/// Some pair of `pairs` is for wire `u`.
pub open spec fn mentions(pairs: Seq<(Target, u64)>, u: int) -> bool {
    exists|j: int| 0 <= j < pairs.len() && (#[trigger] pairs[j]).0.index == u
}

/// Filling leaves every wire that was set, and every wire that is not
/// mentioned, as it was; it gives every other wire the value beside it.
pub proof fn lemma_filled_pairs(pw: Seq<Option<u64>>, pairs: Seq<(Target, u64)>)
    requires
        distinct_wires(pairs),
    ensures
        extends(pw, filled_pairs(pw, pairs)),
        forall|u: int| !mentions(pairs, u) ==> #[trigger] lookup(filled_pairs(pw, pairs), u) == lookup(pw, u),
        forall|j: int|
            0 <= j < pairs.len() && lookup(pw, pairs[j].0.index as int) is None ==> lookup(
                filled_pairs(pw, pairs),
                (#[trigger] pairs[j]).0.index as int,
            ) == Some(pairs[j].1),
    decreases pairs.len(),
{
    let after = filled_pairs(pw, pairs);
    if pairs.len() > 0 {
        let front = pairs.drop_last();
        let mid = filled_pairs(pw, front);
        let last = pairs.last();
        assert(distinct_wires(front)) by {
            assert forall|a: int, b: int| 0 <= a < b < front.len() implies front[a].0 != front[b].0 by {
                assert(pairs[a].0 != pairs[b].0);
            }
        }
        lemma_filled_pairs(pw, front);
        assert forall|u: int| #![trigger lookup(after, u)] lookup(pw, u) is Some implies lookup(after, u)
            == lookup(pw, u) by {
            assert(lookup(mid, u) == lookup(pw, u));
        }
        assert forall|u: int| !mentions(pairs, u) implies #[trigger] lookup(after, u) == lookup(
            pw,
            u,
        ) by {
            assert(pairs[pairs.len() - 1].0.index != u);
            if mentions(front, u) {
                let j = choose|j: int| 0 <= j < front.len() && (#[trigger] front[j]).0.index == u;
                assert(pairs[j].0.index == u);
            }
            assert(lookup(mid, u) == lookup(pw, u));
        }
        assert forall|j: int|
            0 <= j < pairs.len() && lookup(pw, pairs[j].0.index as int) is None implies lookup(
            after,
            (#[trigger] pairs[j]).0.index as int,
        ) == Some(pairs[j].1) by {
            let u = pairs[j].0.index as int;
            if j < front.len() {
                assert(front[j] == pairs[j]);
                assert(lookup(mid, front[j].0.index as int) == Some(front[j].1));
            } else {
                if mentions(front, u) {
                    let k = choose|k: int| 0 <= k < front.len() && (#[trigger] front[k]).0.index == u;
                    assert(pairs[k].0 != pairs[j].0);
                }
                assert(lookup(mid, u) == lookup(pw, u));
            }
        }
    }
}

/// Every wire that `pw` sets, `next` sets to the same value.
pub open spec fn extends(pw: Seq<Option<u64>>, next: Seq<Option<u64>>) -> bool {
    forall|i: int| #![trigger lookup(next, i)] lookup(pw, i) is Some ==> lookup(next, i) == lookup(pw, i)
}

/// Each of the first `n` wires has a value in `pw`.
pub open spec fn is_complete(pw: Seq<Option<u64>>, n: int) -> bool {
    forall|i: int| 0 <= i < n ==> #[trigger] lookup(pw, i) is Some
}

/// The values that `pw` gives to the first `n` wires, as a full assignment.
pub open spec fn total(pw: Seq<Option<u64>>, n: int) -> Seq<u64> {
    Seq::new(n as nat, |i: int| lookup(pw, i).unwrap())
}

/// A partial assignment of values to wires.
pub struct PartialWitness {
    values: Vec<Option<u64>>,
}

impl View for PartialWitness {
    type V = Seq<Option<u64>>;

    closed spec fn view(&self) -> Seq<Option<u64>> {
        self.values@
    }
}

impl PartialWitness {
    /// An assignment that sets no wire.
    pub fn new() -> (r: Self)
        ensures
            r@ == Seq::<Option<u64>>::empty(),
    {
        PartialWitness { values: Vec::new() }
    }

    /// The number of wires the assignment covers, set or not.
    pub fn len(&self) -> (r: usize)
        ensures
            r == self@.len(),
    {
        self.values.len()
    }

    /// Lengthens the assignment with unset wires until it covers wire
    /// `index`.
    fn cover(&mut self, index: usize)
        ensures
            final(self)@ == padded(old(self)@, index + 1),
    {
        while self.values.len() <= index
            invariant
                self.values@.len() >= old(self)@.len(),
                self.values@.len() <= index + 1 || self.values@.len() == old(self)@.len(),
                self.values@ == padded(old(self)@, self.values@.len() as int),
            decreases index + 1 - self.values.len(),
        {
            self.values.push(None);
            assert(self.values@ =~= padded(old(self)@, self.values@.len() as int));
        }
        assert(self.values@ =~= padded(old(self)@, index + 1));
    }

    /// Reads one wire.
    pub fn get_target(&self, t: Target) -> (r: Option<u64>)
        ensures
            r == lookup(self@, t.index as int),
    {
        if t.index < self.values.len() {
            self.values[t.index]
        } else {
            None
        }
    }

    /// Reads several wires. The values come back in the order of `ts`, and
    /// only if every one of them is set.
    pub fn get_targets(&self, ts: &[Target]) -> (r: Option<Vec<u64>>)
        ensures
            r is Some <==> all_known(self@, ts@),
            r is Some ==> r.unwrap()@ == known_values(self@, ts@),
    {
        let mut out: Vec<u64> = Vec::new();
        let mut i: usize = 0;
        while i < ts.len()
            invariant
                i <= ts.len(),
                out@.len() == i,
                forall|k: int| 0 <= k < i ==> known(self@, #[trigger] ts@[k]),
                forall|k: int| 0 <= k < i ==> out@[k] == lookup(self@, ts@[k].index as int).unwrap(),
            decreases ts.len() - i,
        {
            match self.get_target(ts[i]) {
                Some(v) => {
                    out.push(v);
                },
                None => {
                    assert(!known(self@, ts@[i as int]));
                    return None;
                },
            }
            i = i + 1;
        }
        assert(out@ =~= known_values(self@, ts@));
        Some(out)
    }

    /// Whether every wire of `ts` is set.
    pub fn knows_all(&self, ts: &[Target]) -> (r: bool)
        ensures
            r == all_known(self@, ts@),
    {
        let mut i: usize = 0;
        while i < ts.len()
            invariant
                i <= ts.len(),
                forall|k: int| 0 <= k < i ==> known(self@, #[trigger] ts@[k]),
            decreases ts.len() - i,
        {
            if self.get_target(ts[i]).is_none() {
                assert(!known(self@, ts@[i as int]));
                return false;
            }
            i = i + 1;
        }
        true
    }

    /// Reads the first `n` wires as a full assignment, if every one of them
    /// is set.
    pub fn values_upto(&self, n: usize) -> (r: Option<Vec<u64>>)
        ensures
            r is Some <==> is_complete(self@, n as int),
            r is Some ==> r.unwrap()@ == total(self@, n as int),
    {
        let mut out: Vec<u64> = Vec::new();
        let mut i: usize = 0;
        while i < n
            invariant
                i <= n,
                out@.len() == i,
                forall|k: int| 0 <= k < i ==> #[trigger] lookup(self@, k) is Some,
                forall|k: int| 0 <= k < i ==> out@[k] == lookup(self@, k).unwrap(),
            decreases n - i,
        {
            match self.get_target(Target { index: i }) {
                Some(v) => {
                    out.push(v);
                },
                None => {
                    assert(!(lookup(self@, i as int) is Some));
                    return None;
                },
            }
            i = i + 1;
        }
        assert(out@ =~= total(self@, n as int));
        Some(out)
    }

    /// Sets one wire. Setting a wire again to the value it holds changes
    /// nothing; setting it to another value is refused.
    pub fn set_target(&mut self, t: Target, value: u64) -> (r: Result<(), WitnessError>)
        ensures
            match r {
                Ok(()) => {
                    &&& lookup(old(self)@, t.index as int) != Some(value) ==> lookup(
                        old(self)@,
                        t.index as int,
                    ) is None
                    &&& final(self)@ == filled(old(self)@, t.index as int, value)
                },
                Err(e) => {
                    &&& e == WitnessError::Conflict
                    &&& lookup(old(self)@, t.index as int) is Some
                    &&& lookup(old(self)@, t.index as int) != Some(value)
                    &&& final(self)@ == old(self)@
                },
            },
    {
        match self.get_target(t) {
            Some(held) => {
                if held == value {
                    Ok(())
                } else {
                    Err(WitnessError::Conflict)
                }
            },
            None => {
                self.cover(t.index);
                self.values.set(t.index, Some(value));
                Ok(())
            },
        }
    }

    /// Sets the wires `ts` to `values`, position by position and in order.
    /// The first wire that already holds another value stops the writing:
    /// the wires before it stay set, and the conflict is reported.
    pub fn set_target_arr(&mut self, ts: &[Target], values: &[u64]) -> (r: Result<(), WitnessError>)
        ensures
            match r {
                Ok(()) => {
                    &&& ts@.len() == values@.len()
                    &&& final(self)@ == filled_pairs(old(self)@, paired(ts@, values@))
                    &&& forall|k: int|
                        0 <= k < ts@.len() ==> !#[trigger] clashes(old(self)@, paired(ts@, values@), k)
                },
                Err(WitnessError::LengthMismatch) => {
                    &&& ts@.len() != values@.len()
                    &&& final(self)@ == old(self)@
                },
                Err(WitnessError::Conflict) => {
                    &&& ts@.len() == values@.len()
                    &&& exists|k: int|
                        {
                            &&& 0 <= k < ts@.len()
                            &&& #[trigger] clashes(old(self)@, paired(ts@, values@), k)
                            &&& forall|b: int|
                                0 <= b < k ==> !#[trigger] clashes(old(self)@, paired(ts@, values@), b)
                            &&& final(self)@ == filled_pairs(
                                old(self)@,
                                paired(ts@, values@).take(k),
                            )
                        }
                },
            },
    {
        if ts.len() != values.len() {
            return Err(WitnessError::LengthMismatch);
        }
        let ghost pairs = paired(ts@, values@);
        let mut i: usize = 0;
        assert(pairs.take(0).len() == 0);
        while i < ts.len()
            invariant
                i <= ts.len(),
                ts@.len() == values@.len(),
                pairs == paired(ts@, values@),
                self@ == filled_pairs(old(self)@, pairs.take(i as int)),
                forall|k: int| 0 <= k < i ==> !#[trigger] clashes(old(self)@, pairs, k),
            decreases ts.len() - i,
        {
            assert(pairs.take(i + 1).drop_last() =~= pairs.take(i as int));
            assert(pairs[i as int] == (ts@[i as int], values@[i as int]));
            match self.set_target(ts[i], values[i]) {
                Ok(()) => {},
                Err(e) => {
                    assert(clashes(old(self)@, pairs, i as int));
                    return Err(WitnessError::Conflict);
                },
            }
            i = i + 1;
        }
        assert(pairs.take(ts.len() as int) =~= pairs);
        Ok(())
    }

    /// Fills, in order, each wire of `pairs` with the value beside it,
    /// unless the wire already holds a value.
    pub fn fill_pairs(&mut self, pairs: &[(Target, u64)])
        ensures
            final(self)@ == filled_pairs(old(self)@, pairs@),
    {
        let mut i: usize = 0;
        assert(pairs@.take(0).len() == 0);
        while i < pairs.len()
            invariant
                i <= pairs.len(),
                self@ == filled_pairs(old(self)@, pairs@.take(i as int)),
            decreases pairs.len() - i,
        {
            let (t, value) = pairs[i];
            assert(pairs@.take(i + 1).drop_last() =~= pairs@.take(i as int));
            self.fill_target(t, value);
            i = i + 1;
        }
        assert(pairs@.take(pairs.len() as int) =~= pairs@);
    }

    /// Sets the wire unless it already holds a value.
    pub fn fill_target(&mut self, t: Target, value: u64)
        ensures
            final(self)@ == filled(old(self)@, t.index as int, value),
    {
        if self.get_target(t).is_none() {
            self.cover(t.index);
            self.values.set(t.index, Some(value));
        }
    }
}

} // verus!
