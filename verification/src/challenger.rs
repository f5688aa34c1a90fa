//! Challenges drawn from the transcript.

use crate::circuit_builder::CircuitBuilder;
use crate::model::ChallengeModel;
use crate::target::Target;
use vstd::prelude::*;

verus! {

/// A challenge recorded in a circuit: the wire `output` is bound to the
/// wires `observed`, in the order in which they were absorbed.
#[derive(Debug)]
pub struct Challenge {
    pub observed: Vec<Target>,
    pub output: Target,
}

impl View for Challenge {
    type V = ChallengeModel;

    open spec fn view(&self) -> ChallengeModel {
        ChallengeModel { observed: self.observed@, output: self.output }
    }
}

/// The models of a list of challenges.
pub open spec fn challenge_models(cs: Seq<Challenge>) -> Seq<ChallengeModel> {
    Seq::new(cs.len(), |i: int| cs[i]@)
}

/// The in-circuit side of the transcript. It absorbs wires and hands out
/// challenge wires, each bound to everything absorbed before it.
pub struct RecursiveChallenger {
    observed: Vec<Target>,
}

impl View for RecursiveChallenger {
    type V = Seq<Target>;

    closed spec fn view(&self) -> Seq<Target> {
        self.observed@
    }
}

impl RecursiveChallenger {
    /// A transcript that has absorbed nothing.
    pub fn new() -> (r: Self)
        ensures
            r@ == Seq::<Target>::empty(),
    {
        RecursiveChallenger { observed: Vec::new() }
    }

    /// Absorbs the wires `ts`, in order.
    pub fn observe_elements(&mut self, ts: &[Target])
        ensures
            final(self)@ == old(self)@ + ts@,
    {
        let mut i: usize = 0;
        while i < ts.len()
            invariant
                i <= ts.len(),
                self.observed@ == old(self).observed@ + ts@.take(i as int),
            decreases ts.len() - i,
        {
            self.observed.push(ts[i]);
            assert(self.observed@ =~= old(self).observed@ + ts@.take(i + 1));
            i = i + 1;
        }
        assert(ts@.take(ts.len() as int) =~= ts@);
    }

    /// Draws a challenge: a fresh wire of `builder`, bound to everything
    /// absorbed so far.
    pub fn get_challenge(&mut self, builder: &mut CircuitBuilder) -> (out: Target)
        requires
            old(builder)@.wf(),
            old(builder)@.has_all(old(self)@),
            old(builder)@.num_wires() < usize::MAX,
        ensures
            final(self)@ == old(self)@,
            final(builder)@ == old(builder)@.with_challenge(old(self)@),
            final(builder)@.wf(),
            old(builder)@.grows_to(final(builder)@),
            out.index == old(builder)@.num_wires(),
            final(builder)@.num_wires() == old(builder)@.num_wires() + 1,
            final(builder)@.gates == old(builder)@.gates,
    {
        let observed = self.observed.clone();
        builder.draw_challenge(observed)
    }
}

} // verus!
