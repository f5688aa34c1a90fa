//! Deferred computations: what fills the wires that no gate defines.

use crate::gadgets::permutation_check::SortGenerator;
use crate::model::GeneratorModel;
use crate::field::field_inverse;
use crate::target::{paired, Target};
use crate::witness::{all_known, known, known_values, PartialWitness};
use vstd::prelude::*;

verus! {

/// The values a deferred computation has produced, each with the wire it
/// is meant for, in the order in which they were produced.
pub struct GeneratedValues {
    pub target_values: Vec<(Target, u64)>,
}

impl View for GeneratedValues {
    type V = Seq<(Target, u64)>;

    open spec fn view(&self) -> Seq<(Target, u64)> {
        self.target_values@
    }
}

impl GeneratedValues {
    /// An empty buffer.
    pub fn new() -> (r: Self)
        ensures
            r@ == Seq::<(Target, u64)>::empty(),
    {
        GeneratedValues { target_values: Vec::new() }
    }

    /// Records `value` for the wire `t`.
    pub fn set_target(&mut self, t: Target, value: u64)
        ensures
            final(self)@ == old(self)@.push((t, value)),
    {
        self.target_values.push((t, value));
    }

    /// Records `values` for the wires `ts`, position by position.
    pub fn set_target_arr(&mut self, ts: &[Target], values: &[u64])
        requires
            ts@.len() == values@.len(),
        ensures
            final(self)@ == old(self)@ + paired(ts@, values@),
    {
        let mut i: usize = 0;
        while i < ts.len()
            invariant
                i <= ts.len(),
                ts@.len() == values@.len(),
                self@ == old(self)@ + paired(ts@, values@).take(i as int),
            decreases ts.len() - i,
        {
            self.target_values.push((ts[i], values[i]));
            assert(self@ =~= old(self)@ + paired(ts@, values@).take(i + 1));
            i = i + 1;
        }
        assert(paired(ts@, values@).take(ts.len() as int) =~= paired(ts@, values@));
    }
}

/// The deferred computation behind a zero test: it reads `x` and writes
/// its inverse, or zero, to `inverse`, and whether it is zero to `is_zero`.
#[derive(Clone, Copy, Debug)]
pub struct EqualityGenerator {
    pub x: Target,
    pub inverse: Target,
    pub is_zero: Target,
}

impl View for EqualityGenerator {
    type V = GeneratorModel;

    open spec fn view(&self) -> GeneratorModel {
        GeneratorModel::Equality { x: self.x, inverse: self.inverse, is_zero: self.is_zero }
    }
}

impl EqualityGenerator {
    /// The wire that must hold a value before the computation can run.
    pub fn dependencies(&self) -> (r: Vec<Target>)
        ensures
            r@ == self@.dependencies(),
    {
        let mut r: Vec<Target> = Vec::new();
        r.push(self.x);
        assert(r@ =~= self@.dependencies());
        r
    }

    /// The wires the computation writes.
    pub fn outputs(&self) -> (r: Vec<Target>)
        ensures
            r@ == self@.outputs(),
    {
        let mut r: Vec<Target> = Vec::new();
        r.push(self.inverse);
        r.push(self.is_zero);
        assert(r@ =~= self@.outputs());
        r
    }
}

impl EqualityGenerator {
    /// Runs the computation once `x` is known: records the inverse of `x`,
    /// or zero, for `inverse`, and one or zero for `is_zero`.
    pub fn run_once(&self, p: u64, witness: &PartialWitness, out_buffer: &mut GeneratedValues)
        requires
            p >= 2,
            all_known(witness@, self@.dependencies()),
        ensures
            final(out_buffer)@ == old(out_buffer)@ + paired(
                self@.outputs(),
                self@.results(p as int, known_values(witness@, self@.dependencies())),
            ),
    {
        assert(known(witness@, self@.dependencies()[0]));
        match witness.get_target(self.x) {
            Some(value) => {
                let inverse = field_inverse(value, p);
                let flag: u64 = if value % p == 0 {
                    1
                } else {
                    0
                };
                out_buffer.set_target(self.inverse, inverse);
                out_buffer.set_target(self.is_zero, flag);
                assert(out_buffer@ =~= old(out_buffer)@ + paired(
                    self@.outputs(),
                    self@.results(p as int, known_values(witness@, self@.dependencies())),
                ));
            },
            None => {},
        }
    }
}

/// A deferred computation registered with a circuit.
#[derive(Debug)]
pub enum WitnessGenerator {
    Sort(SortGenerator),
    Equality(EqualityGenerator),
}

impl View for WitnessGenerator {
    type V = GeneratorModel;

    open spec fn view(&self) -> GeneratorModel {
        match self {
            WitnessGenerator::Sort(g) => g@,
            WitnessGenerator::Equality(g) => g@,
        }
    }
}

impl WitnessGenerator {
    /// The wires that must hold a value before the computation can run.
    pub fn dependencies(&self) -> (r: Vec<Target>)
        ensures
            r@ == self@.dependencies(),
            self is Sort <==> self@ is Sort,
    {
        match self {
            WitnessGenerator::Sort(g) => {
                proof {
                    g.lemma_is_sort();
                }
                g.dependencies()
            },
            WitnessGenerator::Equality(g) => g.dependencies(),
        }
    }

    /// The wires the computation writes.
    pub fn outputs(&self) -> (r: Vec<Target>)
        ensures
            r@ == self@.outputs(),
    {
        match self {
            WitnessGenerator::Sort(g) => g.outputs(),
            WitnessGenerator::Equality(g) => g.outputs(),
        }
    }
}

impl WitnessGenerator {
    /// Runs the computation once its dependencies are known, and records
    /// what it produces in `out_buffer`.
    pub fn run_once(&self, p: u64, witness: &PartialWitness, out_buffer: &mut GeneratedValues)
        requires
            p >= 2,
            all_known(witness@, self@.dependencies()),
            self@ is Sort ==> self@.dependencies().len() == self@.outputs().len(),
        ensures
            final(out_buffer)@ == old(out_buffer)@ + paired(
                self@.outputs(),
                self@.results(p as int, known_values(witness@, self@.dependencies())),
            ),
    {
        match self {
            WitnessGenerator::Sort(g) => {
                proof {
                    g.lemma_is_sort();
                }
                g.run_once(witness, out_buffer)
            },
            WitnessGenerator::Equality(g) => g.run_once(p, witness, out_buffer),
        }
    }
}

/// The models of a list of deferred computations.
pub open spec fn generator_models(gs: Seq<WitnessGenerator>) -> Seq<GeneratorModel> {
    Seq::new(gs.len(), |i: int| gs[i]@)
}

} // verus!
