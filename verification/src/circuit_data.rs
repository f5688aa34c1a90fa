//! The finished circuit: immutable, and reusable for any number of
//! assignments.

use crate::challenger::{challenge_models, Challenge};
use crate::gate::Gate;
use crate::generator::{generator_models, GeneratedValues, WitnessGenerator};
use crate::model::{CircuitModel, Driver};
use crate::target::Target;
use crate::witness::{all_known, is_complete, known, known_values, lookup, total, PartialWitness};
use vstd::prelude::*;

verus! {

/// A finished circuit.
pub struct CircuitData {
    modulus: u64,
    drivers: Vec<Driver>,
    gates: Vec<Gate>,
    generators: Vec<WitnessGenerator>,
    challenges: Vec<Challenge>,
    public_inputs: Vec<Target>,
}

impl View for CircuitData {
    type V = CircuitModel;

    closed spec fn view(&self) -> CircuitModel {
        CircuitModel {
            modulus: self.modulus as int,
            drivers: self.drivers@,
            gates: self.gates@,
            generators: generator_models(self.generators@),
            challenges: challenge_models(self.challenges@),
            public_inputs: self.public_inputs@,
        }
    }
}

impl CircuitData {
    /// Assembles a circuit from its tables.
    pub(crate) fn from_parts(
        modulus: u64,
        drivers: Vec<Driver>,
        gates: Vec<Gate>,
        generators: Vec<WitnessGenerator>,
        challenges: Vec<Challenge>,
        public_inputs: Vec<Target>,
    ) -> (r: Self)
        ensures
            r@ == (CircuitModel {
                modulus: modulus as int,
                drivers: drivers@,
                gates: gates@,
                generators: generator_models(generators@),
                challenges: challenge_models(challenges@),
                public_inputs: public_inputs@,
            }),
    {
        CircuitData { modulus, drivers, gates, generators, challenges, public_inputs }
    }

    /// The modulus of the field.
    pub fn modulus(&self) -> (r: u64)
        ensures
            r == self@.modulus,
    {
        self.modulus
    }

    /// The number of wires.
    pub fn num_targets(&self) -> (r: usize)
        ensures
            r == self@.num_wires(),
    {
        self.drivers.len()
    }

    /// The wires whose values are public, in order of registration.
    pub fn public_inputs(&self) -> (r: Vec<Target>)
        ensures
            r@ == self@.public_inputs,
    {
        self.public_inputs.clone()
    }

    /// The values that `witness` gives the public wires, in order, if it
    /// sets every one of them.
    pub fn public_values(&self, witness: &PartialWitness) -> (r: Option<Vec<u64>>)
        ensures
            r is Some <==> all_known(witness@, self@.public_inputs),
            r is Some ==> r.unwrap()@ == known_values(witness@, self@.public_inputs),
    {
        witness.get_targets(self.public_inputs.as_slice())
    }

    /// The first challenge, in the order in which they were drawn, that
    /// `witness` leaves unset although it sets every wire the challenge
    /// observes: the wire to set, and the observed values in the order of
    /// absorption. The transcript derives the value from them.
    pub fn next_challenge(&self, witness: &PartialWitness) -> (r: Option<(Target, Vec<u64>)>)
        ensures
            match r {
                Some((output, observed)) => exists|c: int|
                    {
                        &&& 0 <= c < self@.challenges.len()
                        &&& #[trigger] self@.pending(c, witness@)
                        &&& forall|b: int| 0 <= b < c ==> !#[trigger] self@.pending(b, witness@)
                        &&& output == self@.challenges[c].output
                        &&& observed@ == known_values(witness@, self@.challenges[c].observed)
                    },
                None => forall|c: int|
                    0 <= c < self@.challenges.len() ==> !#[trigger] self@.pending(c, witness@),
            },
    {
        let mut c: usize = 0;
        while c < self.challenges.len()
            invariant
                c <= self.challenges.len(),
                forall|b: int| 0 <= b < c ==> !#[trigger] self@.pending(b, witness@),
            decreases self.challenges.len() - c,
        {
            let challenge = &self.challenges[c];
            assert(self@.challenges[c as int] == challenge@);
            if witness.get_target(challenge.output).is_none() {
                match witness.get_targets(challenge.observed.as_slice()) {
                    Some(values) => {
                        assert(self@.pending(c as int, witness@));
                        return Some((challenge.output, values));
                    },
                    None => {},
                }
            }
            c = c + 1;
        }
        None
    }

    /// The number of challenges drawn while the circuit was built.
    pub fn num_challenges(&self) -> (r: usize)
        ensures
            r == self@.challenges.len(),
    {
        self.challenges.len()
    }

    /// For challenge `c`, the values that `witness` gives the wires it
    /// observes, in the order of absorption, and the value it gives the
    /// challenge wire, if all of them are set. Whoever owns the transcript
    /// compares the second with what the transcript derives from the
    /// first.
    pub fn challenge_values(&self, witness: &PartialWitness, c: usize) -> (r: Option<(Vec<u64>, u64)>)
        requires
            c < self@.challenges.len(),
        ensures
            r is Some <==> all_known(witness@, self@.challenges[c as int].observed) && known(
                witness@,
                self@.challenges[c as int].output,
            ),
            match r {
                Some((observed, drawn)) => {
                    &&& observed@ == known_values(witness@, self@.challenges[c as int].observed)
                    &&& Some(drawn) == lookup(witness@, self@.challenges[c as int].output.index as int)
                },
                None => true,
            },
    {
        let challenge = &self.challenges[c];
        assert(self@.challenges[c as int] == challenge@);
        match witness.get_target(challenge.output) {
            Some(drawn) => match witness.get_targets(challenge.observed.as_slice()) {
                Some(observed) => Some((observed, drawn)),
                None => None,
            },
            None => None,
        }
    }

    /// Decides whether `witness` gives every wire a field element and
    /// meets every constraint. This is the circuit's only verdict on an
    /// assignment.
    ///
    /// No gate constrains a challenge wire: whether it holds what the
    /// transcript derives is checked against the transcript, with
    /// `challenge_values`.
    pub fn check(&self, witness: &PartialWitness) -> (r: bool)
        requires
            self@.wf(),
        ensures
            r == (is_complete(witness@, self@.num_wires()) && self@.satisfied_by(
                total(witness@, self@.num_wires()),
            )),
    {
        let n = self.drivers.len();
        let values = match witness.values_upto(n) {
            Some(values) => values,
            None => {
                return false;
            },
        };
        let mut t: usize = 0;
        while t < n
            invariant
                t <= n,
                n == values@.len(),
                n == self@.num_wires(),
                values@ == total(witness@, n as int),
                forall|k: int| 0 <= k < t ==> #[trigger] values@[k] < self.modulus,
            decreases n - t,
        {
            if values[t] >= self.modulus {
                assert(!(values@[t as int] < self@.modulus));
                return false;
            }
            t = t + 1;
        }
        let mut i: usize = 0;
        while i < self.gates.len()
            invariant
                i <= self.gates.len(),
                self@.wf(),
                n == values@.len(),
                n == self@.num_wires(),
                values@ == total(witness@, n as int),
                forall|k: int| 0 <= k < i ==> (#[trigger] self.gates@[k]).holds(self.modulus as int, values@),
            decreases self.gates.len() - i,
        {
            assert(self@.gate_wf(i as int));
            if !self.gates[i].check(self.modulus, &values) {
                assert(!self@.gates[i as int].holds(self@.modulus, values@));
                return false;
            }
            i = i + 1;
        }
        true
    }

    /// Completes `witness` by running every gate and every deferred
    /// computation whose inputs are set, each at most once, in dependency
    /// order. A wire that already holds a value is never overwritten.
    ///
    /// Wires that only the prover or the transcript can set are left as
    /// they are, and so is everything that depends on an unset wire.
    pub fn resolve(&self, witness: &mut PartialWitness)
        requires
            self@.wf(),
        ensures
            self@.resolved(old(witness)@, final(witness)@),
    {
        let n = self.drivers.len();
        let mut t: usize = 0;
        while t < n
            invariant
                t <= n,
                n == self@.num_wires(),
                self@.wf(),
                self@.resolving(old(witness)@, witness@, t as int),
            decreases n - t,
        {
            let ghost cur = witness@;
            if witness.get_target(Target { index: t }).is_none() {
                proof {
                    assert(self@.driver_wf(t as int));
                }
                match self.drivers[t] {
                    Driver::Gate { index } => {
                        let gate = self.gates[index];
                        let inputs = gate.input_wires();
                        if witness.knows_all(inputs.as_slice()) {
                            proof {
                                assert(self@.gate_wf(index as int));
                            }
                            let mut buffer = GeneratedValues::new();
                            gate.run_once(self.modulus, witness, &mut buffer);
                            proof {
                                assert(buffer@ =~= self@.written(t as int, cur));
                                self@.lemma_resolve_run(old(witness)@, cur, t as int);
                            }
                            witness.fill_pairs(buffer.target_values.as_slice());
                        }
                    },
                    Driver::Generator { index } => {
                        let inputs = self.generators[index].dependencies();
                        if witness.knows_all(inputs.as_slice()) {
                            proof {
                                assert(self@.generator_wf(index as int));
                            }
                            let mut buffer = GeneratedValues::new();
                            self.generators[index].run_once(self.modulus, witness, &mut buffer);
                            proof {
                                assert(buffer@ =~= self@.written(t as int, cur));
                                self@.lemma_resolve_run(old(witness)@, cur, t as int);
                            }
                            witness.fill_pairs(buffer.target_values.as_slice());
                        }
                    },
                    _ => {},
                }
            }
            t = t + 1;
        }
        proof {
            self@.lemma_resolve_done(old(witness)@, witness@);
        }
    }
}

} // verus!
