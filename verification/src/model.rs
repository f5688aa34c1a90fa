//! The mathematical description of a circuit: its wires, its constraints,
//! and the computations that complete an honest assignment.

use crate::field::inverse_or_zero;
use crate::gate::Gate;
use crate::sorting::descending_sort;
use crate::error::CircuitError;
use crate::target::{all_below, in_field, precede, wire_range, Target};
use crate::witness::{all_known, known};
use vstd::prelude::*;

verus! {

/// What gives a wire its value.
#[derive(Clone, Copy, Debug, PartialEq, Eq, Structural)]
pub enum Driver {
    /// Nothing in the circuit: the prover sets the wire.
    Input,
    /// The transcript, through the challenge at this position of the
    /// circuit's list.
    Challenge { index: usize },
    /// A gate, by its position in the circuit's gate list.
    Gate { index: usize },
    /// The deferred computation at this position of the circuit's list.
    Generator { index: usize },
}

/// A deferred computation, by the wires it reads and writes.
pub enum GeneratorModel {
    /// Writes to `sorted` the values of `original` in descending order.
    Sort { original: Seq<Target>, sorted: Seq<Target> },
    /// Writes to `inverse` the multiplicative inverse of `x`, or zero if it
    /// has none, and to `is_zero` one if `x` is zero and zero otherwise.
    Equality { x: Target, inverse: Target, is_zero: Target },
}

impl GeneratorModel {
    /// The wires that must hold a value before the computation can run.
    pub open spec fn dependencies(self) -> Seq<Target> {
        match self {
            GeneratorModel::Sort { original, .. } => original,
            GeneratorModel::Equality { x, .. } => seq![x],
        }
    }

    /// The wires the computation writes.
    pub open spec fn outputs(self) -> Seq<Target> {
        match self {
            GeneratorModel::Sort { sorted, .. } => sorted,
            GeneratorModel::Equality { inverse, is_zero, .. } => seq![inverse, is_zero],
        }
    }

    /// The values written, given the values `input` of the dependencies.
    pub open spec fn results(self, p: int, input: Seq<u64>) -> Seq<u64> {
        match self {
            GeneratorModel::Sort { .. } => descending_sort(input),
            GeneratorModel::Equality { .. } => seq![
                inverse_or_zero(input[0] as int, p) as u64,
                if input[0] as int % p == 0 {
                    1u64
                } else {
                    0u64
                },
            ],
        }
    }
}

/// A challenge drawn from the transcript: the wire `output` is bound to
/// everything in `observed`, in that order.
pub struct ChallengeModel {
    pub observed: Seq<Target>,
    pub output: Target,
}

/// A circuit as a mathematical object.
pub struct CircuitModel {
    /// The modulus of the field the wires range over.
    pub modulus: int,
    /// One entry for each wire, in order of allocation.
    pub drivers: Seq<Driver>,
    /// The constraints, in order of emission.
    pub gates: Seq<Gate>,
    /// The deferred computations, in order of registration.
    pub generators: Seq<GeneratorModel>,
    /// The challenges drawn so far.
    pub challenges: Seq<ChallengeModel>,
    /// The wires whose values are public.
    pub public_inputs: Seq<Target>,
}

impl CircuitModel {
    /// The number of wires allocated.
    pub open spec fn num_wires(self) -> int {
        self.drivers.len() as int
    }

    /// The wire `t` has been allocated.
    pub open spec fn has(self, t: Target) -> bool {
        t.index < self.num_wires()
    }

    /// Every wire of `ts` has been allocated.
    pub open spec fn has_all(self, ts: Seq<Target>) -> bool {
        all_below(ts, self.num_wires())
    }

    /// The wire `t` has been allocated and nothing in the circuit drives it.
    pub open spec fn is_input(self, t: Target) -> bool {
        self.has(t) && self.drivers[t.index as int] == Driver::Input
    }

    /// Gate `i` mentions allocated wires only, reads wires older than those
    /// it defines, and is recorded as the driver of each wire it defines.
    pub open spec fn gate_wf(self, i: int) -> bool {
        let g = self.gates[i];
        &&& g.within(self.num_wires())
        &&& forall|k: int, j: int|
            0 <= k < g.inputs().len() && 0 <= j < g.outputs().len() ==> (#[trigger] g.inputs()[k]).index
                < (#[trigger] g.outputs()[j]).index
        &&& forall|j: int|
            0 <= j < g.outputs().len() ==> self.drivers[(#[trigger] g.outputs()[j]).index as int] == (
            Driver::Gate { index: i as usize })
    }

    /// The same, for deferred computation `k`.
    pub open spec fn generator_wf(self, k: int) -> bool {
        let g = self.generators[k];
        &&& self.has_all(g.dependencies())
        &&& self.has_all(g.outputs())
        &&& forall|d: int, j: int|
            0 <= d < g.dependencies().len() && 0 <= j < g.outputs().len() ==> (
            #[trigger] g.dependencies()[d]).index < (#[trigger] g.outputs()[j]).index
        &&& forall|j: int|
            0 <= j < g.outputs().len() ==> self.drivers[(#[trigger] g.outputs()[j]).index as int] == (
            Driver::Generator { index: k as usize })
        &&& g.outputs().no_duplicates()
        &&& g is Sort ==> g.dependencies().len() == g.outputs().len()
    }

    /// The driver recorded for wire `t` exists and defines that wire.
    pub open spec fn driver_wf(self, t: int) -> bool {
        match self.drivers[t] {
            Driver::Input => true,
            Driver::Challenge { index } => index < self.challenges.len()
                && self.challenges[index as int].output == (Target { index: t as usize }),
            Driver::Gate { index } => index < self.gates.len() && self.gates[index as int].outputs().contains(
                Target { index: t as usize },
            ),
            Driver::Generator { index } => index < self.generators.len()
                && self.generators[index as int].outputs().contains(Target { index: t as usize }),
        }
    }

    /// Challenge `c` observes allocated wires and is recorded as the driver
    /// of the wire it binds.
    pub open spec fn challenge_wf(self, c: int) -> bool {
        &&& self.has_all(self.challenges[c].observed)
        &&& self.has(self.challenges[c].output)
        &&& self.drivers[self.challenges[c].output.index as int] == (Driver::Challenge {
            index: c as usize,
        })
    }

    /// The invariant of every circuit under construction and every
    /// finished one.
    pub open spec fn wf(self) -> bool {
        &&& 2 <= self.modulus <= u64::MAX
        &&& self.num_wires() <= usize::MAX
        &&& self.gates.len() <= usize::MAX
        &&& self.generators.len() <= usize::MAX
        &&& self.challenges.len() <= usize::MAX
        &&& forall|i: int| 0 <= i < self.gates.len() ==> #[trigger] self.gate_wf(i)
        &&& forall|k: int| 0 <= k < self.generators.len() ==> #[trigger] self.generator_wf(k)
        &&& forall|t: int| 0 <= t < self.num_wires() ==> #[trigger] self.driver_wf(t)
        &&& forall|c: int| 0 <= c < self.challenges.len() ==> #[trigger] self.challenge_wf(c)
        &&& self.has_all(self.public_inputs)
    }

    /// Challenge `c` can be drawn under `pw`: every wire it observes is
    /// set, and the wire it binds is not.
    pub open spec fn pending(self, c: int, pw: Seq<Option<u64>>) -> bool {
        &&& all_known(pw, self.challenges[c].observed)
        &&& !known(pw, self.challenges[c].output)
    }

    /// Every gate holds under the assignment `w`.
    pub open spec fn gates_hold(self, w: Seq<u64>) -> bool {
        forall|i: int| 0 <= i < self.gates.len() ==> (#[trigger] self.gates[i]).holds(self.modulus, w)
    }

    /// `w` assigns a field element to each wire, and every gate holds.
    pub open spec fn satisfied_by(self, w: Seq<u64>) -> bool {
        &&& w.len() == self.num_wires()
        &&& in_field(w, self.modulus)
        &&& self.gates_hold(w)
    }

    /// The circuit with `count` more wires that nothing drives.
    pub open spec fn with_inputs(self, count: nat) -> CircuitModel {
        CircuitModel { drivers: self.drivers + Seq::new(count, |i: int| Driver::Input), ..self }
    }

    /// The circuit with `g` appended as its last gate, and with the wires it
    /// defines allocated.
    pub open spec fn with_gate(self, g: Gate) -> CircuitModel {
        CircuitModel {
            drivers: self.drivers + Seq::new(
                g.outputs().len(),
                |i: int| Driver::Gate { index: self.gates.len() as usize },
            ),
            gates: self.gates.push(g),
            ..self
        }
    }

    /// The circuit with the deferred computation `g` registered as the
    /// driver of its outputs.
    pub open spec fn with_generator(self, g: GeneratorModel) -> CircuitModel {
        CircuitModel {
            drivers: Seq::new(
                self.drivers.len(),
                |t: int|
                    if g.outputs().contains(Target { index: t as usize }) {
                        Driver::Generator { index: self.generators.len() as usize }
                    } else {
                        self.drivers[t]
                    },
            ),
            generators: self.generators.push(g),
            ..self
        }
    }

    /// Every wire of `ts` has been allocated and nothing drives it.
    pub open spec fn all_inputs(self, ts: Seq<Target>) -> bool {
        forall|j: int| 0 <= j < ts.len() ==> self.is_input(#[trigger] ts[j])
    }

    /// Why the deferred computation `g` cannot be registered, if it
    /// cannot: it names a wire that was never allocated; it is a sort
    /// whose two sequences differ in length; or one of its outputs is
    /// already driven, occurs twice, or is not newer than everything it
    /// reads.
    pub open spec fn generator_refusal(self, g: GeneratorModel) -> Option<CircuitError> {
        if !self.has_all(g.dependencies()) || !self.has_all(g.outputs()) {
            Some(CircuitError::UnknownWire)
        } else if g is Sort && g.dependencies().len() != g.outputs().len() {
            Some(CircuitError::LengthMismatch)
        } else if !self.all_inputs(g.outputs()) || !g.outputs().no_duplicates() || !precede(
            g.dependencies(),
            g.outputs(),
        ) {
            Some(CircuitError::InvalidGenerator)
        } else {
            None
        }
    }

    /// The circuit with a fresh wire bound to the wires `observed`.
    pub open spec fn with_challenge(self, observed: Seq<Target>) -> CircuitModel {
        CircuitModel {
            drivers: self.drivers.push(Driver::Challenge { index: self.challenges.len() as usize }),
            challenges: self.challenges.push(
                ChallengeModel { observed, output: Target { index: self.drivers.len() as usize } },
            ),
            ..self
        }
    }

    /// The circuit with the wires `ts` added to the public ones.
    pub open spec fn with_public_inputs(self, ts: Seq<Target>) -> CircuitModel {
        CircuitModel { public_inputs: self.public_inputs + ts, ..self }
    }

    /// `later` is this circuit with more wires and gates, and nothing else.
    pub open spec fn adds_gates_only(self, later: CircuitModel) -> bool {
        &&& self.grows_to(later)
        &&& later.generators == self.generators
        &&& later.challenges == self.challenges
        &&& later.public_inputs == self.public_inputs
    }

    /// `later` is this circuit after more construction: nothing that was
    /// here has changed.
    pub open spec fn grows_to(self, later: CircuitModel) -> bool {
        &&& later.modulus == self.modulus
        &&& self.drivers.is_prefix_of(later.drivers)
        &&& self.gates.is_prefix_of(later.gates)
        &&& self.generators.is_prefix_of(later.generators)
        &&& self.challenges.is_prefix_of(later.challenges)
        &&& self.public_inputs.is_prefix_of(later.public_inputs)
    }
}

impl CircuitModel {
    /// Allocating undriven wires keeps a circuit well formed and leaves its
    /// constraints as they were.
    pub proof fn lemma_with_inputs(self, count: nat)
        requires
            self.wf(),
            self.num_wires() + count <= usize::MAX,
        ensures
            self.with_inputs(count).wf(),
            self.grows_to(self.with_inputs(count)),
            self.with_inputs(count).num_wires() == self.num_wires() + count,
            forall|t: Target|
                self.num_wires() <= t.index < self.num_wires() + count ==> #[trigger] self.with_inputs(
                    count,
                ).is_input(t),
    {
        let next = self.with_inputs(count);
        assert forall|i: int| 0 <= i < next.gates.len() implies #[trigger] next.gate_wf(i) by {
            assert(self.gate_wf(i));
        }
        assert forall|k: int| 0 <= k < next.generators.len() implies #[trigger] next.generator_wf(
            k,
        ) by {
            assert(self.generator_wf(k));
        }
        assert forall|t: int| 0 <= t < next.num_wires() implies #[trigger] next.driver_wf(t) by {
            if t < self.num_wires() {
                assert(self.driver_wf(t));
            }
        }
        assert forall|c: int| 0 <= c < next.challenges.len() implies #[trigger] next.challenge_wf(
            c,
        ) by {
            assert(self.challenge_wf(c));
        }
    }

    /// Appending a gate whose inputs exist and whose outputs are the next
    /// wires keeps a circuit well formed, and adds exactly that gate's
    /// constraint.
    pub proof fn lemma_with_gate(self, g: Gate)
        requires
            self.wf(),
            all_below(g.inputs(), self.num_wires()),
            g.outputs() == wire_range(self.num_wires(), g.outputs().len()),
            g.within(self.num_wires() + g.outputs().len()),
            self.num_wires() + g.outputs().len() <= usize::MAX,
            self.gates.len() < usize::MAX,
        ensures
            self.with_gate(g).wf(),
            self.grows_to(self.with_gate(g)),
            self.with_gate(g).num_wires() == self.num_wires() + g.outputs().len(),
            forall|w: Seq<u64>| #[trigger]
                self.with_gate(g).gates_hold(w) <==> self.gates_hold(w) && g.holds(self.modulus, w),
    {
        let next = self.with_gate(g);
        let n = self.num_wires();
        let last = self.gates.len() as int;
        assert forall|i: int| 0 <= i < next.gates.len() implies #[trigger] next.gate_wf(i) by {
            if i < last {
                assert(self.gate_wf(i));
                assert(next.gates[i] == self.gates[i]);
            } else {
                assert(next.gates[i] == g);
                assert forall|j: int| 0 <= j < g.outputs().len() implies (#[trigger] g.outputs()[j]).index
                    == n + j by {}
            }
        }
        assert forall|k: int| 0 <= k < next.generators.len() implies #[trigger] next.generator_wf(
            k,
        ) by {
            assert(self.generator_wf(k));
        }
        assert forall|t: int| 0 <= t < next.num_wires() implies #[trigger] next.driver_wf(t) by {
            if t < n {
                assert(self.driver_wf(t));
                match self.drivers[t] {
                    Driver::Gate { index } => {
                        assert(next.gates[index as int] == self.gates[index as int]);
                    },
                    _ => {},
                }
            } else {
                assert(g.outputs()[t - n] == Target { index: t as usize });
            }
        }
        assert forall|c: int| 0 <= c < next.challenges.len() implies #[trigger] next.challenge_wf(
            c,
        ) by {
            assert(self.challenge_wf(c));
        }
        assert forall|w: Seq<u64>| #[trigger]
            next.gates_hold(w) <==> self.gates_hold(w) && g.holds(self.modulus, w) by {
            if next.gates_hold(w) {
                assert(next.gates[last].holds(self.modulus, w));
                assert forall|i: int| 0 <= i < self.gates.len() implies (
                #[trigger] self.gates[i]).holds(self.modulus, w) by {
                    assert(next.gates[i].holds(self.modulus, w));
                }
            }
            if self.gates_hold(w) && g.holds(self.modulus, w) {
                assert forall|i: int| 0 <= i < next.gates.len() implies (
                #[trigger] next.gates[i]).holds(next.modulus, w) by {
                    if i < last {
                        assert(self.gates[i].holds(self.modulus, w));
                    }
                }
            }
        }
    }

    /// Binding a fresh wire to observed wires keeps a circuit well formed
    /// and leaves its constraints as they were.
    pub proof fn lemma_with_challenge(self, observed: Seq<Target>)
        requires
            self.wf(),
            self.has_all(observed),
            self.num_wires() < usize::MAX,
            self.challenges.len() < usize::MAX,
        ensures
            self.with_challenge(observed).wf(),
            self.grows_to(self.with_challenge(observed)),
            self.with_challenge(observed).num_wires() == self.num_wires() + 1,
    {
        let next = self.with_challenge(observed);
        assert forall|i: int| 0 <= i < next.gates.len() implies #[trigger] next.gate_wf(i) by {
            assert(self.gate_wf(i));
        }
        assert forall|k: int| 0 <= k < next.generators.len() implies #[trigger] next.generator_wf(
            k,
        ) by {
            assert(self.generator_wf(k));
        }
        assert forall|t: int| 0 <= t < next.num_wires() implies #[trigger] next.driver_wf(t) by {
            if t < self.num_wires() {
                assert(self.driver_wf(t));
            }
        }
        assert forall|c: int| 0 <= c < next.challenges.len() implies #[trigger] next.challenge_wf(
            c,
        ) by {
            if c < self.challenges.len() {
                assert(self.challenge_wf(c));
            }
        }
    }

    /// Publishing allocated wires keeps a circuit well formed.
    pub proof fn lemma_with_public_inputs(self, ts: Seq<Target>)
        requires
            self.wf(),
            self.has_all(ts),
        ensures
            self.with_public_inputs(ts).wf(),
            self.grows_to(self.with_public_inputs(ts)),
    {
        let next = self.with_public_inputs(ts);
        assert forall|i: int| 0 <= i < next.gates.len() implies #[trigger] next.gate_wf(i) by {
            assert(self.gate_wf(i));
        }
        assert forall|k: int| 0 <= k < next.generators.len() implies #[trigger] next.generator_wf(
            k,
        ) by {
            assert(self.generator_wf(k));
        }
        assert forall|t: int| 0 <= t < next.num_wires() implies #[trigger] next.driver_wf(t) by {
            assert(self.driver_wf(t));
        }
        assert forall|c: int| 0 <= c < next.challenges.len() implies #[trigger] next.challenge_wf(
            c,
        ) by {
            assert(self.challenge_wf(c));
        }
    }

    /// Registering a deferred computation on undriven wires that are newer
    /// than everything it reads keeps a circuit well formed, and changes no
    /// constraint and no other wire's driver.
    pub proof fn lemma_with_generator(self, g: GeneratorModel)
        requires
            self.wf(),
            self.has_all(g.dependencies()),
            forall|j: int| 0 <= j < g.outputs().len() ==> self.is_input(#[trigger] g.outputs()[j]),
            g.outputs().no_duplicates(),
            forall|d: int, j: int|
                0 <= d < g.dependencies().len() && 0 <= j < g.outputs().len() ==> (
                #[trigger] g.dependencies()[d]).index < (#[trigger] g.outputs()[j]).index,
            g is Sort ==> g.dependencies().len() == g.outputs().len(),
            self.generators.len() < usize::MAX,
        ensures
            self.with_generator(g).wf(),
            self.with_generator(g).num_wires() == self.num_wires(),
            forall|t: int|
                0 <= t < self.num_wires() && !g.outputs().contains(Target { index: t as usize })
                    ==> #[trigger] self.with_generator(g).drivers[t] == self.drivers[t],
    {
        let next = self.with_generator(g);
        let fresh = self.generators.len() as int;
        assert forall|i: int| 0 <= i < next.gates.len() implies #[trigger] next.gate_wf(i) by {
            assert(self.gate_wf(i));
            let gate = self.gates[i];
            assert forall|j: int| 0 <= j < gate.outputs().len() implies next.drivers[(
            #[trigger] gate.outputs()[j]).index as int] == (Driver::Gate { index: i as usize }) by {
                let o = gate.outputs()[j];
                if g.outputs().contains(o) {
                    let m = choose|m: int| 0 <= m < g.outputs().len() && g.outputs()[m] == o;
                    assert(self.is_input(g.outputs()[m]));
                }
            }
        }
        assert forall|k: int| 0 <= k < next.generators.len() implies #[trigger] next.generator_wf(
            k,
        ) by {
            if k < fresh {
                assert(self.generator_wf(k));
                let old_g = self.generators[k];
                assert forall|j: int| 0 <= j < old_g.outputs().len() implies next.drivers[(
                #[trigger] old_g.outputs()[j]).index as int] == (Driver::Generator {
                    index: k as usize,
                }) by {
                    let o = old_g.outputs()[j];
                    if g.outputs().contains(o) {
                        let m = choose|m: int| 0 <= m < g.outputs().len() && g.outputs()[m] == o;
                        assert(self.is_input(g.outputs()[m]));
                    }
                }
            } else {
                assert(next.generators[k] == g);
                assert forall|j: int| 0 <= j < g.outputs().len() implies next.drivers[(
                #[trigger] g.outputs()[j]).index as int] == (Driver::Generator {
                    index: k as usize,
                }) by {
                    assert(self.is_input(g.outputs()[j]));
                    assert(g.outputs().contains(g.outputs()[j]));
                }
                assert forall|j: int| 0 <= j < g.outputs().len() implies (#[trigger] g.outputs()[j]).index
                    < next.num_wires() by {
                    assert(self.is_input(g.outputs()[j]));
                }
            }
        }
        assert forall|t: int| 0 <= t < next.num_wires() implies #[trigger] next.driver_wf(t) by {
            assert(self.driver_wf(t));
        }
        assert forall|c: int| 0 <= c < next.challenges.len() implies #[trigger] next.challenge_wf(
            c,
        ) by {
            assert(self.challenge_wf(c));
            let o = self.challenges[c].output;
            if g.outputs().contains(o) {
                let m = choose|m: int| 0 <= m < g.outputs().len() && g.outputs()[m] == o;
                assert(self.is_input(g.outputs()[m]));
            }
        }
    }
}

} // verus!
