//! The circuit under construction.

use crate::challenger::{challenge_models, Challenge};
use crate::circuit_data::CircuitData;
use crate::gate::Gate;
use crate::generator::{generator_models, WitnessGenerator};
use crate::model::{CircuitModel, Driver};
use crate::error::CircuitError;
use crate::target::{all_below, all_distinct, all_precede, wire_range, Target};
use vstd::prelude::*;

verus! {

/// A circuit that is still growing. One builder owns the wire and gate
/// tables, and every gadget extends them through an exclusive reference.
pub struct CircuitBuilder {
    modulus: u64,
    drivers: Vec<Driver>,
    gates: Vec<Gate>,
    generators: Vec<WitnessGenerator>,
    challenges: Vec<Challenge>,
    public_inputs: Vec<Target>,
}

impl View for CircuitBuilder {
    type V = CircuitModel;

    closed spec fn view(&self) -> CircuitModel {
        CircuitModel {
            modulus: self.modulus as int,
            drivers: self.drivers@,
            gates: self.gates@,
            generators: generator_models(self.generators@),
            challenges: challenge_models(self.challenges@),
            public_inputs: self.public_inputs@,
        }
    }
}

impl CircuitBuilder {
    /// An empty circuit over the integers modulo `modulus`.
    pub fn new(modulus: u64) -> (r: Self)
        requires
            modulus >= 2,
        ensures
            r@.wf(),
            r@.modulus == modulus,
            r@.num_wires() == 0,
            r@.gates.len() == 0,
            r@.generators.len() == 0,
            r@.challenges.len() == 0,
            r@.public_inputs.len() == 0,
    {
        CircuitBuilder {
            modulus,
            drivers: Vec::new(),
            gates: Vec::new(),
            generators: Vec::new(),
            challenges: Vec::new(),
            public_inputs: Vec::new(),
        }
    }

    /// Finishes the circuit. Nothing about it changes.
    pub fn build(self) -> (r: CircuitData)
        ensures
            r@ == self@,
    {
        CircuitData::from_parts(
            self.modulus,
            self.drivers,
            self.gates,
            self.generators,
            self.challenges,
            self.public_inputs,
        )
    }

    /// The modulus of the field.
    pub fn modulus(&self) -> (r: u64)
        ensures
            r == self@.modulus,
    {
        self.modulus
    }

    /// The number of wires allocated so far.
    pub fn num_targets(&self) -> (r: usize)
        ensures
            r == self@.num_wires(),
    {
        self.drivers.len()
    }

    /// Whether the wire `t` has been allocated in this circuit.
    pub fn is_allocated(&self, t: Target) -> (r: bool)
        ensures
            r == self@.has(t),
    {
        t.index < self.drivers.len()
    }

    /// Whether every wire of `ts` has been allocated in this circuit.
    pub fn all_allocated(&self, ts: &[Target]) -> (r: bool)
        ensures
            r == self@.has_all(ts@),
    {
        let mut i: usize = 0;
        while i < ts.len()
            invariant
                i <= ts.len(),
                all_below(ts@.take(i as int), self@.num_wires()),
            decreases ts.len() - i,
        {
            if !self.is_allocated(ts[i]) {
                return false;
            }
            assert forall|k: int| 0 <= k < i + 1 implies (#[trigger] ts@.take(i + 1)[k]).index
                < self@.num_wires() by {
                if k < i {
                    assert(ts@.take(i as int)[k] == ts@[k]);
                }
            }
            i = i + 1;
        }
        assert(ts@.take(ts.len() as int) =~= ts@);
        true
    }

    /// Allocates one wire that nothing in the circuit drives.
    pub fn add_virtual_target(&mut self) -> (t: Target)
        requires
            old(self)@.wf(),
            old(self)@.num_wires() < usize::MAX,
        ensures
            final(self)@ == old(self)@.with_inputs(1),
            final(self)@.wf(),
            old(self)@.grows_to(final(self)@),
            t.index == old(self)@.num_wires(),
            final(self)@.is_input(t),
    {
        let t = Target { index: self.drivers.len() };
        self.drivers.push(Driver::Input);
        proof {
            old(self)@.lemma_with_inputs(1);
            assert(self@.drivers =~= old(self)@.with_inputs(1).drivers);
        }
        t
    }

    /// Allocates `count` consecutive wires that nothing in the circuit
    /// drives, and returns them in order.
    pub fn add_virtual_targets(&mut self, count: usize) -> (ts: Vec<Target>)
        requires
            old(self)@.wf(),
            old(self)@.num_wires() + count <= usize::MAX,
        ensures
            final(self)@ == old(self)@.with_inputs(count as nat),
            final(self)@.wf(),
            old(self)@.grows_to(final(self)@),
            ts@ == wire_range(old(self)@.num_wires(), count as nat),
            forall|i: int| 0 <= i < ts@.len() ==> final(self)@.is_input(#[trigger] ts@[i]),
    {
        let mut ts: Vec<Target> = Vec::new();
        let ghost start = self@;
        let mut i: usize = 0;
        while i < count
            invariant
                i <= count,
                start.wf(),
                start == old(self)@,
                start.num_wires() + count <= usize::MAX,
                self@ == start.with_inputs(i as nat),
                ts@ == wire_range(start.num_wires(), i as nat),
            decreases count - i,
        {
            let t = Target { index: self.drivers.len() };
            self.drivers.push(Driver::Input);
            ts.push(t);
            proof {
                assert(self@.drivers =~= start.with_inputs((i + 1) as nat).drivers);
                assert(ts@ =~= wire_range(start.num_wires(), (i + 1) as nat));
            }
            i = i + 1;
        }
        proof {
            start.lemma_with_inputs(count as nat);
            assert forall|k: int| 0 <= k < ts@.len() implies self@.is_input(#[trigger] ts@[k]) by {
                assert(ts@[k].index == start.num_wires() + k);
            }
        }
        ts
    }

    /// Appends a gate and allocates the wires it defines.
    fn emit(&mut self, g: Gate)
        requires
            old(self)@.wf(),
            all_below(g.inputs(), old(self)@.num_wires()),
            g.outputs() == wire_range(old(self)@.num_wires(), g.outputs().len()),
            g.within(old(self)@.num_wires() + g.outputs().len()),
            old(self)@.num_wires() + g.outputs().len() <= usize::MAX,
        ensures
            final(self)@ == old(self)@.with_gate(g),
            final(self)@.wf(),
            old(self)@.grows_to(final(self)@),
            final(self)@.num_wires() == old(self)@.num_wires() + g.outputs().len(),
            forall|w: Seq<u64>| #[trigger]
                final(self)@.gates_hold(w) <==> old(self)@.gates_hold(w) && g.holds(
                    old(self)@.modulus,
                    w,
                ),
    {
        let position: usize = self.gates.len();
        let count: usize = match g {
            Gate::Equal { .. } => 0,
            Gate::Bits { count, .. } => count,
            _ => 1,
        };
        assert(count == g.outputs().len());
        self.gates.push(g);
        let emitted: usize = self.gates.len();
        let ghost before = self.drivers@;
        let mut i: usize = 0;
        while i < count
            invariant
                i <= count,
                before.len() + count <= usize::MAX,
                emitted == self.gates@.len(),
                self.drivers@ == before + Seq::new(i as nat, |k: int| Driver::Gate { index: position }),
                self.modulus == old(self).modulus,
                self.gates@ == old(self).gates@.push(g),
                self.generators == old(self).generators,
                self.challenges == old(self).challenges,
                self.public_inputs == old(self).public_inputs,
            decreases count - i,
        {
            self.drivers.push(Driver::Gate { index: position });
            assert(self.drivers@ =~= before + Seq::new(
                (i + 1) as nat,
                |k: int| Driver::Gate { index: position },
            ));
            i = i + 1;
        }
        proof {
            old(self)@.lemma_with_gate(g);
            assert(self@.drivers =~= old(self)@.with_gate(g).drivers);
        }
    }

    /// A wire that holds the constant `value`, reduced modulo the field's
    /// modulus.
    pub fn constant(&mut self, value: u64) -> (out: Target)
        requires
            old(self)@.wf(),
            old(self)@.num_wires() < usize::MAX,
        ensures
            final(self)@ == old(self)@.with_gate(
                Gate::Constant { out, value: (value % (old(self)@.modulus as u64)) as u64 },
            ),
            final(self)@.wf(),
            old(self)@.grows_to(final(self)@),
            out.index == old(self)@.num_wires(),
            final(self)@.num_wires() == old(self)@.num_wires() + 1,
            forall|w: Seq<u64>| #[trigger]
                final(self)@.gates_hold(w) <==> old(self)@.gates_hold(w) && w[out.index as int] as int
                    == value as int % old(self)@.modulus,
    {
        let out = Target { index: self.drivers.len() };
        let g = Gate::Constant { out, value: value % self.modulus };
        proof {
            assert(g.outputs() =~= wire_range(self@.num_wires(), 1));
        }
        self.emit(g);
        out
    }

    /// A wire that holds zero.
    pub fn zero(&mut self) -> (out: Target)
        requires
            old(self)@.wf(),
            old(self)@.num_wires() < usize::MAX,
        ensures
            final(self)@ == old(self)@.with_gate(Gate::Constant { out, value: 0 }),
            final(self)@.wf(),
            old(self)@.grows_to(final(self)@),
            out.index == old(self)@.num_wires(),
            final(self)@.num_wires() == old(self)@.num_wires() + 1,
            forall|w: Seq<u64>| #[trigger]
                final(self)@.gates_hold(w) <==> old(self)@.gates_hold(w) && w[out.index as int] == 0,
    {
        proof {
            vstd::arithmetic::div_mod::lemma_small_mod(0, self@.modulus as nat);
        }
        self.constant(0)
    }

    /// A wire that holds one.
    pub fn one(&mut self) -> (out: Target)
        requires
            old(self)@.wf(),
            old(self)@.num_wires() < usize::MAX,
        ensures
            final(self)@ == old(self)@.with_gate(Gate::Constant { out, value: 1 }),
            final(self)@.wf(),
            old(self)@.grows_to(final(self)@),
            out.index == old(self)@.num_wires(),
            final(self)@.num_wires() == old(self)@.num_wires() + 1,
            forall|w: Seq<u64>| #[trigger]
                final(self)@.gates_hold(w) <==> old(self)@.gates_hold(w) && w[out.index as int] == 1,
    {
        proof {
            vstd::arithmetic::div_mod::lemma_small_mod(1, self@.modulus as nat);
        }
        self.constant(1)
    }

    /// A wire that holds `a + b`.
    pub fn add(&mut self, a: Target, b: Target) -> (out: Target)
        requires
            old(self)@.wf(),
            old(self)@.has(a),
            old(self)@.has(b),
            old(self)@.num_wires() < usize::MAX,
        ensures
            final(self)@ == old(self)@.with_gate(Gate::Add { a, b, out }),
            final(self)@.wf(),
            old(self)@.grows_to(final(self)@),
            out.index == old(self)@.num_wires(),
            final(self)@.num_wires() == old(self)@.num_wires() + 1,
            forall|w: Seq<u64>| #[trigger]
                final(self)@.gates_hold(w) <==> old(self)@.gates_hold(w) && (Gate::Add {
                    a,
                    b,
                    out,
                }).holds(old(self)@.modulus, w),
    {
        let out = Target { index: self.drivers.len() };
        let g = Gate::Add { a, b, out };
        proof {
            assert(g.outputs() =~= wire_range(self@.num_wires(), 1));
        }
        self.emit(g);
        out
    }

    /// A wire that holds `a - b`.
    pub fn sub(&mut self, a: Target, b: Target) -> (out: Target)
        requires
            old(self)@.wf(),
            old(self)@.has(a),
            old(self)@.has(b),
            old(self)@.num_wires() < usize::MAX,
        ensures
            final(self)@ == old(self)@.with_gate(Gate::Sub { a, b, out }),
            final(self)@.wf(),
            old(self)@.grows_to(final(self)@),
            out.index == old(self)@.num_wires(),
            final(self)@.num_wires() == old(self)@.num_wires() + 1,
            forall|w: Seq<u64>| #[trigger]
                final(self)@.gates_hold(w) <==> old(self)@.gates_hold(w) && (Gate::Sub {
                    a,
                    b,
                    out,
                }).holds(old(self)@.modulus, w),
    {
        let out = Target { index: self.drivers.len() };
        let g = Gate::Sub { a, b, out };
        proof {
            assert(g.outputs() =~= wire_range(self@.num_wires(), 1));
        }
        self.emit(g);
        out
    }

    /// A wire that holds `a * b`.
    pub fn mul(&mut self, a: Target, b: Target) -> (out: Target)
        requires
            old(self)@.wf(),
            old(self)@.has(a),
            old(self)@.has(b),
            old(self)@.num_wires() < usize::MAX,
        ensures
            final(self)@ == old(self)@.with_gate(Gate::Mul { a, b, out }),
            final(self)@.wf(),
            old(self)@.grows_to(final(self)@),
            out.index == old(self)@.num_wires(),
            final(self)@.num_wires() == old(self)@.num_wires() + 1,
            forall|w: Seq<u64>| #[trigger]
                final(self)@.gates_hold(w) <==> old(self)@.gates_hold(w) && (Gate::Mul {
                    a,
                    b,
                    out,
                }).holds(old(self)@.modulus, w),
    {
        let out = Target { index: self.drivers.len() };
        let g = Gate::Mul { a, b, out };
        proof {
            assert(g.outputs() =~= wire_range(self@.num_wires(), 1));
        }
        self.emit(g);
        out
    }

    /// A wire that holds `a * b + c`.
    pub fn mul_add(&mut self, a: Target, b: Target, c: Target) -> (out: Target)
        requires
            old(self)@.wf(),
            old(self)@.has(a),
            old(self)@.has(b),
            old(self)@.has(c),
            old(self)@.num_wires() < usize::MAX,
        ensures
            final(self)@ == old(self)@.with_gate(Gate::MulAdd { a, b, c, out }),
            final(self)@.wf(),
            old(self)@.grows_to(final(self)@),
            out.index == old(self)@.num_wires(),
            final(self)@.num_wires() == old(self)@.num_wires() + 1,
            forall|w: Seq<u64>| #[trigger]
                final(self)@.gates_hold(w) <==> old(self)@.gates_hold(w) && (Gate::MulAdd {
                    a,
                    b,
                    c,
                    out,
                }).holds(old(self)@.modulus, w),
    {
        let out = Target { index: self.drivers.len() };
        let g = Gate::MulAdd { a, b, c, out };
        proof {
            assert(g.outputs() =~= wire_range(self@.num_wires(), 1));
        }
        self.emit(g);
        out
    }

    /// Constrains `a` and `b` to hold the same value.
    pub fn connect(&mut self, a: Target, b: Target)
        requires
            old(self)@.wf(),
            old(self)@.has(a),
            old(self)@.has(b),
        ensures
            final(self)@ == old(self)@.with_gate(Gate::Equal { a, b }),
            final(self)@.wf(),
            old(self)@.grows_to(final(self)@),
            final(self)@.num_wires() == old(self)@.num_wires(),
            forall|w: Seq<u64>| #[trigger]
                final(self)@.gates_hold(w) <==> old(self)@.gates_hold(w) && w[a.index as int]
                    == w[b.index as int],
    {
        let g = Gate::Equal { a, b };
        proof {
            assert(g.outputs() =~= wire_range(self@.num_wires(), 0));
        }
        self.emit(g);
    }

    /// Decomposes `x` into `count` binary digits, least significant first.
    /// The constraint holds only if `x` is the value of those digits.
    pub fn split_le(&mut self, x: Target, count: usize) -> (digits: Vec<Target>)
        requires
            old(self)@.wf(),
            old(self)@.has(x),
            old(self)@.num_wires() + count <= usize::MAX,
        ensures
            final(self)@ == old(self)@.with_gate(
                Gate::Bits { x, first: old(self)@.num_wires() as usize, count },
            ),
            final(self)@.wf(),
            old(self)@.grows_to(final(self)@),
            digits@ == wire_range(old(self)@.num_wires(), count as nat),
            final(self)@.num_wires() == old(self)@.num_wires() + count,
            forall|w: Seq<u64>| #[trigger]
                final(self)@.gates_hold(w) <==> old(self)@.gates_hold(w) && (Gate::Bits {
                    x,
                    first: old(self)@.num_wires() as usize,
                    count,
                }).holds(old(self)@.modulus, w),
    {
        let first: usize = self.drivers.len();
        let g = Gate::Bits { x, first, count };
        self.emit(g);
        let mut digits: Vec<Target> = Vec::new();
        let mut i: usize = 0;
        while i < count
            invariant
                i <= count,
                first + count <= usize::MAX,
                digits@ == wire_range(first as int, i as nat),
            decreases count - i,
        {
            digits.push(Target { index: first + i });
            assert(digits@ =~= wire_range(first as int, (i + 1) as nat));
            i = i + 1;
        }
        digits
    }

    /// Constrains `x` to lie in `[0, 2^bits)` by decomposing it into that
    /// many binary digits.
    pub fn range_check(&mut self, x: Target, bits: usize)
        requires
            old(self)@.wf(),
            old(self)@.has(x),
            old(self)@.num_wires() + bits <= usize::MAX,
        ensures
            final(self)@ == old(self)@.with_gate(
                Gate::Bits { x, first: old(self)@.num_wires() as usize, count: bits },
            ),
            final(self)@.wf(),
            old(self)@.grows_to(final(self)@),
            final(self)@.num_wires() == old(self)@.num_wires() + bits,
            forall|w: Seq<u64>| #[trigger]
                final(self)@.gates_hold(w) <==> old(self)@.gates_hold(w) && (Gate::Bits {
                    x,
                    first: old(self)@.num_wires() as usize,
                    count: bits,
                }).holds(old(self)@.modulus, w),
    {
        let first: usize = self.drivers.len();
        self.emit(Gate::Bits { x, first, count: bits });
    }

    /// Allocates a wire bound, through the transcript, to the wires
    /// `observed` in that order. No gate constrains the new wire: the
    /// transcript alone decides its value.
    pub fn draw_challenge(&mut self, observed: Vec<Target>) -> (out: Target)
        requires
            old(self)@.wf(),
            old(self)@.has_all(observed@),
            old(self)@.num_wires() < usize::MAX,
        ensures
            final(self)@ == old(self)@.with_challenge(observed@),
            final(self)@.wf(),
            old(self)@.grows_to(final(self)@),
            out.index == old(self)@.num_wires(),
            final(self)@.num_wires() == old(self)@.num_wires() + 1,
            final(self)@.gates == old(self)@.gates,
    {
        let out = Target { index: self.drivers.len() };
        self.drivers.push(Driver::Challenge { index: self.challenges.len() });
        self.challenges.push(Challenge { observed, output: out });
        let recorded: usize = self.challenges.len();
        proof {
            old(self)@.lemma_with_challenge(observed@);
            assert(self@.challenges =~= old(self)@.with_challenge(observed@).challenges);
        }
        out
    }

    /// Declares the value of `t` public.
    pub fn register_public_input(&mut self, t: Target)
        requires
            old(self)@.wf(),
            old(self)@.has(t),
        ensures
            final(self)@ == old(self)@.with_public_inputs(seq![t]),
            final(self)@.wf(),
            old(self)@.grows_to(final(self)@),
    {
        self.public_inputs.push(t);
        proof {
            old(self)@.lemma_with_public_inputs(seq![t]);
            assert(self@.public_inputs =~= old(self)@.with_public_inputs(seq![t]).public_inputs);
        }
    }

    /// Declares the values of `ts` public, in order.
    pub fn register_public_inputs(&mut self, ts: &[Target])
        requires
            old(self)@.wf(),
            old(self)@.has_all(ts@),
        ensures
            final(self)@ == old(self)@.with_public_inputs(ts@),
            final(self)@.wf(),
            old(self)@.grows_to(final(self)@),
    {
        let mut i: usize = 0;
        while i < ts.len()
            invariant
                i <= ts.len(),
                self.public_inputs@ == old(self).public_inputs@ + ts@.take(i as int),
                self.modulus == old(self).modulus,
                self.drivers == old(self).drivers,
                self.gates == old(self).gates,
                self.generators == old(self).generators,
                self.challenges == old(self).challenges,
            decreases ts.len() - i,
        {
            self.public_inputs.push(ts[i]);
            assert(self.public_inputs@ =~= old(self).public_inputs@ + ts@.take(i + 1));
            i = i + 1;
        }
        proof {
            assert(ts@.take(ts.len() as int) =~= ts@);
            old(self)@.lemma_with_public_inputs(ts@);
        }
    }

    /// Whether every wire of `ts` has been allocated and nothing drives it.
    pub fn all_undriven(&self, ts: &[Target]) -> (r: bool)
        ensures
            r == self@.all_inputs(ts@),
    {
        let mut i: usize = 0;
        while i < ts.len()
            invariant
                i <= ts.len(),
                forall|k: int| 0 <= k < i ==> self@.is_input(#[trigger] ts@[k]),
            decreases ts.len() - i,
        {
            let t = ts[i];
            if t.index >= self.drivers.len() {
                assert(!self@.is_input(ts@[i as int]));
                return false;
            }
            match self.drivers[t.index] {
                Driver::Input => {},
                _ => {
                    assert(!self@.is_input(ts@[i as int]));
                    return false;
                },
            }
            i = i + 1;
        }
        true
    }

    /// Registers a deferred computation as the driver of its outputs.
    ///
    /// The computation is refused, and the circuit left as it was, unless
    /// all its wires are allocated, nothing drives its outputs yet, no
    /// output occurs twice, and every output is newer than every
    /// dependency, which rules out cycles among computations.
    pub fn add_simple_generator(&mut self, generator: WitnessGenerator) -> (r: Result<
        (),
        CircuitError,
    >)
        requires
            old(self)@.wf(),
        ensures
            match r {
                Ok(()) => {
                    &&& old(self)@.generator_refusal(generator@) is None
                    &&& final(self)@ == old(self)@.with_generator(generator@)
                    &&& final(self)@.wf()
                },
                Err(e) => {
                    &&& old(self)@.generator_refusal(generator@) == Some(e)
                    &&& final(self)@ == old(self)@
                },
            },
    {
        let deps = generator.dependencies();
        let outs = generator.outputs();
        if !self.all_allocated(deps.as_slice()) || !self.all_allocated(outs.as_slice()) {
            return Err(CircuitError::UnknownWire);
        }
        match &generator {
            WitnessGenerator::Sort(_) => {
                if deps.len() != outs.len() {
                    return Err(CircuitError::LengthMismatch);
                }
            },
            _ => {},
        }
        if !self.all_undriven(outs.as_slice()) || !all_distinct(outs.as_slice()) || !all_precede(
            deps.as_slice(),
            outs.as_slice(),
        ) {
            return Err(CircuitError::InvalidGenerator);
        }
        let position: usize = self.generators.len();
        let ghost model = generator@;
        self.generators.push(generator);
        let registered: usize = self.generators.len();
        let wires: usize = self.drivers.len();
        let mut j: usize = 0;
        while j < outs.len()
            invariant
                j <= outs.len(),
                outs@ == model.outputs(),
                old(self)@.has_all(outs@),
                self.drivers@.len() == old(self).drivers@.len(),
                self.drivers@.len() == wires,
                forall|t: int|
                    0 <= t < self.drivers@.len() ==> #[trigger] self.drivers@[t] == (if outs@.take(
                        j as int,
                    ).contains(Target { index: t as usize }) {
                        Driver::Generator { index: position }
                    } else {
                        old(self).drivers@[t]
                    }),
                self.modulus == old(self).modulus,
                self.gates == old(self).gates,
                self.generators@ == old(self).generators@.push(generator),
                self.challenges == old(self).challenges,
                self.public_inputs == old(self).public_inputs,
            decreases outs.len() - j,
        {
            let t = outs[j];
            assert(outs@[j as int].index < old(self)@.num_wires());
            self.drivers.set(t.index, Driver::Generator { index: position });
            proof {
                let done = outs@.take(j as int);
                let more = outs@.take(j + 1);
                assert(more =~= done.push(t));
                assert forall|u: int| 0 <= u < self.drivers@.len() implies #[trigger] self.drivers@[u]
                    == (if more.contains(Target { index: u as usize }) {
                    Driver::Generator { index: position }
                } else {
                    old(self).drivers@[u]
                }) by {
                    let target = Target { index: u as usize };
                    if done.contains(target) {
                        let m = choose|m: int| 0 <= m < done.len() && done[m] == target;
                        assert(more[m] == target);
                    }
                    if u == t.index {
                        assert(more[j as int] == target);
                    }
                    if more.contains(target) && !done.contains(target) {
                        let m = choose|m: int| 0 <= m < more.len() && more[m] == target;
                        if m < j {
                            assert(done[m] == target);
                        }
                    }
                }
            }
            j = j + 1;
        }
        proof {
            assert(outs@.take(outs.len() as int) =~= outs@);
            old(self)@.lemma_with_generator(model);
            assert(self@.drivers =~= old(self)@.with_generator(model).drivers);
            assert(self@.generators =~= old(self)@.with_generator(model).generators);
        }
        Ok(())
    }
}

} // verus!
