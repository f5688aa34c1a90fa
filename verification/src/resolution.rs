//! What it means to complete a partial assignment by running the
//! computations of a circuit, each once all the wires it reads are set.

use crate::bits::lemma_low_bits_value;
use crate::gate::Gate;
use crate::model::{CircuitModel, Driver};
use crate::target::{paired, Target};
use crate::witness::{
    all_known, distinct_wires, extends, filled_pairs, is_complete, known, known_values,
    lemma_filled_pairs, lookup, mentions, total,
};
use vstd::arithmetic::div_mod::lemma_small_mod;
use vstd::arithmetic::power2::pow2;
use vstd::prelude::*;

verus! {

impl CircuitModel {
    /// The wires read by whatever drives wire `t`.
    pub open spec fn reads(self, t: int) -> Seq<Target> {
        match self.drivers[t] {
            Driver::Gate { index } => self.gates[index as int].inputs(),
            Driver::Generator { index } => self.generators[index as int].dependencies(),
            _ => Seq::empty(),
        }
    }

    /// The wires written by whatever drives wire `t`.
    pub open spec fn writes(self, t: int) -> Seq<Target> {
        match self.drivers[t] {
            Driver::Gate { index } => self.gates[index as int].outputs(),
            Driver::Generator { index } => self.generators[index as int].outputs(),
            _ => Seq::empty(),
        }
    }

    /// The values that whatever drives wire `t` writes when the wires it
    /// reads hold `input`.
    pub open spec fn yields(self, t: int, input: Seq<u64>) -> Seq<u64> {
        match self.drivers[t] {
            Driver::Gate { index } => self.gates[index as int].results(self.modulus, input),
            Driver::Generator { index } => self.generators[index as int].results(self.modulus, input),
            _ => Seq::empty(),
        }
    }

    /// A gate or a deferred computation drives wire `t`, and `pw` sets
    /// every wire that it reads.
    pub open spec fn ready(self, t: int, pw: Seq<Option<u64>>) -> bool {
        &&& self.drivers[t] is Gate || self.drivers[t] is Generator
        &&& all_known(pw, self.reads(t))
    }

    /// The value that the driver of wire `t` computes for it from `pw`.
    pub open spec fn computed_value(self, t: int, pw: Seq<Option<u64>>) -> u64 {
        self.yields(t, known_values(pw, self.reads(t)))[self.writes(t).index_of(
            Target { index: t as usize },
        )]
    }

    /// What the driver of wire `t` writes, wire by wire, given `pw`.
    pub open spec fn written(self, t: int, pw: Seq<Option<u64>>) -> Seq<(Target, u64)> {
        paired(self.writes(t), self.yields(t, known_values(pw, self.reads(t))))
    }

    /// `after` is `before` completed: a wire that `before` sets keeps its
    /// value; any other wire holds what its driver computes from `after`
    /// if `after` sets every wire that the driver reads, and is unset
    /// otherwise. Wires beyond the circuit are untouched.
    pub open spec fn resolved(self, before: Seq<Option<u64>>, after: Seq<Option<u64>>) -> bool {
        forall|t: int| #[trigger]
            lookup(after, t) == (if lookup(before, t) is Some || !(0 <= t < self.num_wires()) {
                lookup(before, t)
            } else if self.ready(t, after) {
                Some(self.computed_value(t, after))
            } else {
                None
            })
    }

    /// The state of a resolution that has dealt with the wires below
    /// `upto`: `cur` extends `before` within the circuit; every wire it
    /// has added holds what its driver computes; and no unset wire below
    /// `upto` can be computed.
    pub open spec fn resolving(self, before: Seq<Option<u64>>, cur: Seq<Option<u64>>, upto: int) -> bool {
        &&& extends(before, cur)
        &&& forall|u: int| !(0 <= u < self.num_wires()) ==> #[trigger] lookup(cur, u) == lookup(before, u)
        &&& forall|u: int|
            0 <= u < self.num_wires() && lookup(before, u) is None && (#[trigger] lookup(cur, u)) is Some
                ==> self.ready(u, cur) && lookup(cur, u) == Some(self.computed_value(u, cur))
        &&& forall|u: int| 0 <= u < upto && (#[trigger] lookup(cur, u)) is None ==> !self.ready(u, cur)
    }
}

/// Wires that are set stay set, with the same values, in an extension.
pub proof fn lemma_known_values_extend(pw: Seq<Option<u64>>, next: Seq<Option<u64>>, ts: Seq<Target>)
    requires
        extends(pw, next),
        all_known(pw, ts),
    ensures
        all_known(next, ts),
        known_values(next, ts) == known_values(pw, ts),
{
    assert forall|i: int| 0 <= i < ts.len() implies known(next, #[trigger] ts[i]) && lookup(
        next,
        ts[i].index as int,
    ) == lookup(pw, ts[i].index as int) by {
        assert(known(pw, ts[i]));
        assert(lookup(next, ts[i].index as int) == lookup(pw, ts[i].index as int));
    }
    assert(known_values(next, ts) =~= known_values(pw, ts));
}

impl CircuitModel {
    /// The driver of a computed wire writes that wire, writes no wire
    /// twice, writes only wires inside the circuit that it drives, and
    /// reads only wires older than those it writes.
    pub proof fn lemma_driver_facts(self, t: int)
        requires
            self.wf(),
            0 <= t < self.num_wires(),
            self.drivers[t] is Gate || self.drivers[t] is Generator,
        ensures
            self.writes(t).contains(Target { index: t as usize }),
            self.writes(t).no_duplicates(),
            forall|j: int|
                0 <= j < self.writes(t).len() ==> (#[trigger] self.writes(t)[j]).index < self.num_wires()
                    && self.drivers[self.writes(t)[j].index as int] == self.drivers[t],
            forall|d: int, j: int|
                0 <= d < self.reads(t).len() && 0 <= j < self.writes(t).len() ==> (
                #[trigger] self.reads(t)[d]).index < (#[trigger] self.writes(t)[j]).index,
    {
        assert(self.driver_wf(t));
        match self.drivers[t] {
            Driver::Gate { index } => {
                assert(self.gate_wf(index as int));
                let g = self.gates[index as int];
                match g {
                    crate::gate::Gate::Bits { first, count, .. } => {
                        assert forall|a: int, b: int|
                            0 <= a < g.outputs().len() && 0 <= b < g.outputs().len() && a
                                != b implies g.outputs()[a] != g.outputs()[b] by {
                            assert(g.outputs()[a].index == first + a);
                            assert(g.outputs()[b].index == first + b);
                        }
                    },
                    _ => {},
                }
            },
            Driver::Generator { index } => {
                assert(self.generator_wf(index as int));
            },
            _ => {},
        }
    }
}

impl CircuitModel {
    /// A resolution that has dealt with every wire has completed the
    /// assignment it started from.
    pub proof fn lemma_resolve_done(self, before: Seq<Option<u64>>, cur: Seq<Option<u64>>)
        requires
            self.resolving(before, cur, self.num_wires()),
        ensures
            self.resolved(before, cur),
    {
        assert forall|t: int| #[trigger]
            lookup(cur, t) == (if lookup(before, t) is Some || !(0 <= t < self.num_wires()) {
                lookup(before, t)
            } else if self.ready(t, cur) {
                Some(self.computed_value(t, cur))
            } else {
                None
            }) by {
            if lookup(before, t) is Some {
            } else if !(0 <= t < self.num_wires()) {
            } else {
                if lookup(cur, t) is Some {
                } else {
                }
            }
        }
    }

    /// Running the driver of the next unset wire, when everything it reads
    /// is set, and filling its outputs, advances a resolution.
    pub proof fn lemma_resolve_run(self, before: Seq<Option<u64>>, cur: Seq<Option<u64>>, t: int)
        requires
            self.wf(),
            0 <= t < self.num_wires(),
            self.resolving(before, cur, t),
            lookup(cur, t) is None,
            self.ready(t, cur),
        ensures
            self.resolving(before, filled_pairs(cur, self.written(t, cur)), t + 1),
    {
        let n = self.num_wires();
        let pairs = self.written(t, cur);
        let ws = self.writes(t);
        let vals = self.yields(t, known_values(cur, self.reads(t)));
        let next = filled_pairs(cur, pairs);
        self.lemma_driver_facts(t);
        assert(distinct_wires(pairs)) by {
            assert forall|a: int, b: int| 0 <= a < b < pairs.len() implies pairs[a].0 != pairs[b].0 by {
                assert(ws[a] != ws[b]);
            }
        }
        lemma_filled_pairs(cur, pairs);
        lemma_known_values_extend(cur, next, self.reads(t));
        // an output that is still unset is not below t
        assert forall|j: int| 0 <= j < ws.len() && lookup(cur, ws[j].index as int) is None implies (
        #[trigger] ws[j]).index >= t by {
            let o = ws[j].index as int;
            if o < t {
                assert(self.drivers[o] == self.drivers[t]);
                assert(self.reads(o) == self.reads(t));
                assert(self.ready(o, cur));
                assert(lookup(cur, o) is None);
            }
        }
        assert(extends(before, next)) by {
            assert forall|i: int| #![trigger lookup(next, i)] lookup(before, i) is Some implies lookup(
                next,
                i,
            ) == lookup(before, i) by {
                assert(lookup(cur, i) == lookup(before, i));
            }
        }
        assert forall|u: int| !(0 <= u < n) implies #[trigger] lookup(next, u) == lookup(before, u) by {
            if mentions(pairs, u) {
                let j = choose|j: int| 0 <= j < pairs.len() && (#[trigger] pairs[j]).0.index == u;
                assert(ws[j].index < n);
            }
            assert(lookup(cur, u) == lookup(before, u));
        }
        assert forall|u: int|
            0 <= u < n && lookup(before, u) is None && (#[trigger] lookup(next, u)) is Some implies self.ready(
            u,
            next,
        ) && lookup(next, u) == Some(self.computed_value(u, next)) by {
            if lookup(cur, u) is Some {
                assert(self.ready(u, cur));
                lemma_known_values_extend(cur, next, self.reads(u));
                assert(lookup(next, u) == lookup(cur, u));
            } else {
                assert(mentions(pairs, u));
                let j = choose|j: int| 0 <= j < pairs.len() && (#[trigger] pairs[j]).0.index == u;
                assert(ws[j].index == u);
                assert(ws[j] == Target { index: u as usize });
                assert(self.drivers[u] == self.drivers[t]);
                assert(lookup(next, pairs[j].0.index as int) == Some(pairs[j].1));
                let k = ws.index_of(Target { index: u as usize });
                assert(0 <= k < ws.len() && ws[k] == ws[j]);
                assert(k == j);
            }
        }
        assert forall|u: int| 0 <= u < t + 1 && (#[trigger] lookup(next, u)) is None implies !self.ready(
            u,
            next,
        ) by {
            if lookup(cur, u) is Some {
                assert(lookup(next, u) == lookup(cur, u));
            }
            if u == t {
                let j = choose|j: int| 0 <= j < ws.len() && ws[j] == Target { index: t as usize };
                assert(pairs[j].0.index == t);
                assert(lookup(next, pairs[j].0.index as int) == Some(pairs[j].1));
            } else if self.ready(u, next) {
                assert(!self.ready(u, cur));
                self.lemma_driver_facts(u);
                let rs = self.reads(u);
                let d = choose|d: int| 0 <= d < rs.len() && !known(cur, #[trigger] rs[d]);
                let e = rs[d].index as int;
                let own = choose|j: int|
                    0 <= j < self.writes(u).len() && self.writes(u)[j] == Target { index: u as usize };
                assert(rs[d].index < self.writes(u)[own].index);
                if mentions(pairs, e) {
                    let j = choose|j: int| 0 <= j < pairs.len() && (#[trigger] pairs[j]).0.index == e;
                    assert(ws[j].index >= t);
                }
                assert(lookup(next, e) == lookup(cur, e));
                assert(known(next, rs[d]));
            }
        }
    }
}

impl CircuitModel {
    /// A completed assignment meets every gate whose outputs the
    /// completion wrote, except where a gate asserts something that its
    /// inputs decide: an equality, or that a value has no more binary
    /// digits than it provides.
    ///
    /// So an assignment completed from the prover's inputs can fail a
    /// check only at an `Equal` gate, at a decomposition of a value that
    /// is too large, or at a wire that was set before the completion.
    pub proof fn lemma_resolved_gate_holds(
        self,
        before: Seq<Option<u64>>,
        after: Seq<Option<u64>>,
        i: int,
    )
        requires
            self.wf(),
            self.resolved(before, after),
            is_complete(after, self.num_wires()),
            0 <= i < self.gates.len(),
            !(self.gates[i] is Equal),
            forall|j: int|
                0 <= j < self.gates[i].outputs().len() ==> lookup(
                    before,
                    (#[trigger] self.gates[i].outputs()[j]).index as int,
                ) is None,
            match self.gates[i] {
                Gate::Bits { x, count, .. } => lookup(after, x.index as int).unwrap() < pow2(count as nat)
                    && pow2(count as nat) <= self.modulus,
                Gate::Constant { value, .. } => value < self.modulus,
                _ => true,
            },
        ensures
            self.gates[i].holds(self.modulus, total(after, self.num_wires())),
    {
        let g = self.gates[i];
        let n = self.num_wires();
        let w = total(after, n);
        let p = self.modulus;
        assert(self.gate_wf(i));
        let input = known_values(after, g.inputs());
        assert forall|j: int| 0 <= j < g.outputs().len() implies w[(#[trigger] g.outputs()[j]).index as int]
            == g.results(p, input)[j] by {
            let o = g.outputs()[j].index as int;
            assert(self.drivers[o] == Driver::Gate { index: i as usize });
            assert(lookup(after, o) is Some);
            assert(self.ready(o, after));
            self.lemma_driver_facts(o);
            let k = self.writes(o).index_of(Target { index: o as usize });
            assert(self.writes(o)[j] == Target { index: o as usize });
            assert(0 <= k < self.writes(o).len() && self.writes(o)[k] == self.writes(o)[j]);
            assert(k == j);
        }
        assert forall|k: int| 0 <= k < g.inputs().len() implies input[k] == w[(
        #[trigger] g.inputs()[k]).index as int] by {
            assert(g.inputs()[k].index < n);
        }
        match g {
            Gate::Constant { out, .. } => {
                assert(g.outputs()[0] == out);
            },
            Gate::Add { a, b, out } => {
                assert(g.outputs()[0] == out && g.inputs()[0] == a && g.inputs()[1] == b);
                vstd::arithmetic::div_mod::lemma_mod_bound(input[0] + input[1], p);
            },
            Gate::Sub { a, b, out } => {
                assert(g.outputs()[0] == out && g.inputs()[0] == a && g.inputs()[1] == b);
                vstd::arithmetic::div_mod::lemma_mod_bound(input[0] - input[1], p);
            },
            Gate::Mul { a, b, out } => {
                assert(g.outputs()[0] == out && g.inputs()[0] == a && g.inputs()[1] == b);
                vstd::arithmetic::div_mod::lemma_mod_bound(input[0] * input[1], p);
            },
            Gate::MulAdd { a, b, c, out } => {
                assert(g.outputs()[0] == out && g.inputs()[0] == a && g.inputs()[1] == b
                    && g.inputs()[2] == c);
                vstd::arithmetic::div_mod::lemma_mod_bound(input[0] * input[1] + input[2], p);
            },
            Gate::Equal { .. } => {},
            Gate::Bits { x, first, count } => {
                assert(g.inputs()[0] == x);
                let value = input[0] as int;
                lemma_low_bits_value(value, count as nat);
                let digits = w.subrange(first as int, first + count);
                assert(digits =~= g.results(p, input)) by {
                    assert forall|j: int| 0 <= j < count implies digits[j] == g.results(p, input)[j] by {
                        assert(g.outputs()[j].index == first + j);
                    }
                }
                lemma_small_mod(value as nat, p as nat);
            },
        }
    }
}

} // verus!
