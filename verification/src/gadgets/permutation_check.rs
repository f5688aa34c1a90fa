//! Permutation equality, order assertion and the verifiable sort.

use crate::bits::{all_boolean, bits_value, lemma_bits_value_bound};
use crate::circuit_builder::CircuitBuilder;
use crate::error::CircuitError;
use crate::field::{mul_mod, sub_mod};
use crate::fingerprint::{as_ints, eval_product, lemma_eval_product_rearranged, lemma_eval_product_step};
use crate::challenger::RecursiveChallenger;
use crate::model::{ChallengeModel, GeneratorModel};
use crate::generator::{GeneratedValues, WitnessGenerator};
use crate::serialization::{
    lemma_target_vec_round_trip, parsed_target_vec, target_vec_bytes, target_vec_len,
    write_target_vec, Buffer, IoError, IoResult,
};
use crate::sorting::{descending_sort, lemma_descending_sort, sort_descending};
use crate::witness::{all_known, known_values, PartialWitness};
use crate::target::{paired, precede, value_of, values_of, wire_range, Target};
use vstd::arithmetic::div_mod::{lemma_mod_add_multiples_vanish, lemma_small_mod};
use vstd::arithmetic::power2::pow2;
use vstd::prelude::*;
use vstd::slice::slice_to_vec;

verus! {

/// The deferred computation behind a sort: it reads the wires of the
/// original sequence and writes their values, in descending order, to the
/// wires of the claimed-sorted sequence. It holds wire handles only.
#[derive(Debug, Default)]
pub struct SortGenerator {
    original_array: Vec<Target>,
    sorted_array: Vec<Target>,
}

impl View for SortGenerator {
    type V = GeneratorModel;

    closed spec fn view(&self) -> GeneratorModel {
        GeneratorModel::Sort { original: self.original_array@, sorted: self.sorted_array@ }
    }
}

/// The bytes of a sort's deferred computation: the wires of the
/// original sequence, then those of the sorted one.
pub open spec fn sort_generator_bytes(g: GeneratorModel) -> Seq<u8> {
    target_vec_bytes(g.dependencies()) + target_vec_bytes(g.outputs())
}

/// The sort's deferred computation that `bytes` start with.
pub open spec fn parsed_sort_generator(bytes: Seq<u8>) -> Result<GeneratorModel, IoError> {
    match parsed_target_vec(bytes) {
        Err(e) => Err(e),
        Ok(original) => match parsed_target_vec(bytes.skip(target_vec_len(original.len()) as int)) {
            Err(e) => Err(e),
            Ok(sorted) => Ok(GeneratorModel::Sort { original, sorted }),
        },
    }
}

/// A sort's deferred computation is read back from its bytes, whatever
/// follows them: it can be stored with a circuit and restored from wire
/// identities alone.
pub proof fn lemma_sort_generator_round_trip(g: GeneratorModel, rest: Seq<u8>)
    requires
        g is Sort,
        g.dependencies().len() <= usize::MAX,
        g.outputs().len() <= usize::MAX,
    ensures
        parsed_sort_generator(sort_generator_bytes(g) + rest) == Ok::<GeneratorModel, IoError>(g),
{
    let original = g.dependencies();
    let sorted = g.outputs();
    let bytes = sort_generator_bytes(g) + rest;
    let tail = target_vec_bytes(sorted) + rest;
    assert(bytes =~= target_vec_bytes(original) + tail);
    lemma_target_vec_round_trip(original, tail);
    lemma_target_vec_round_trip(sorted, rest);
}

impl SortGenerator {
    /// Appends to `dst` the bytes from which `deserialize` restores this
    /// computation.
    pub fn serialize(&self, dst: &mut Vec<u8>) -> (r: IoResult<()>)
        ensures
            r is Ok,
            final(dst)@ == old(dst)@ + sort_generator_bytes(self@),
    {
        match write_target_vec(dst, self.original_array.as_slice()) {
            Ok(()) => {},
            Err(e) => {
                return Err(e);
            },
        }
        write_target_vec(dst, self.sorted_array.as_slice())
    }

    /// Restores a computation from the bytes that `src` has not yet read,
    /// and moves past them. The first list of wires that cannot be read
    /// decides the error.
    pub fn deserialize(src: &mut Buffer) -> (r: IoResult<Self>)
        requires
            old(src).wf(),
        ensures
            final(src).wf(),
            match r {
                Ok(g) => {
                    &&& parsed_sort_generator(old(src)@) == Ok::<GeneratorModel, IoError>(g@)
                    &&& final(src)@ == old(src)@.skip(
                        (target_vec_len(g@.dependencies().len()) + target_vec_len(
                            g@.outputs().len(),
                        )) as int,
                    )
                },
                Err(e) => parsed_sort_generator(old(src)@) == Err::<GeneratorModel, IoError>(e),
            },
    {
        let original_array = match src.read_target_vec() {
            Ok(ts) => ts,
            Err(e) => {
                return Err(e);
            },
        };
        let sorted_array = match src.read_target_vec() {
            Ok(ts) => ts,
            Err(e) => {
                return Err(e);
            },
        };
        Ok(Self { original_array, sorted_array })
    }

    /// The model of a sort generator is a sort.
    pub proof fn lemma_is_sort(&self)
        ensures
            self@ is Sort,
    {
    }

    /// The computation that sorts `original_array` into `sorted_array`.
    pub fn new(original_array: Vec<Target>, sorted_array: Vec<Target>) -> (r: Self)
        ensures
            r@ == (GeneratorModel::Sort { original: original_array@, sorted: sorted_array@ }),
    {
        SortGenerator { original_array, sorted_array }
    }

    /// The wires that must hold a value before the computation can run:
    /// those of the original sequence.
    pub fn dependencies(&self) -> (r: Vec<Target>)
        ensures
            r@ == self@.dependencies(),
    {
        self.original_array.clone()
    }

    /// The wires the computation writes: those of the sorted sequence.
    pub fn outputs(&self) -> (r: Vec<Target>)
        ensures
            r@ == self@.outputs(),
    {
        self.sorted_array.clone()
    }

    /// The name under which the computation is stored with a circuit.
    pub fn id(&self) -> (r: String)
        ensures
            r@ == "SortGenerator"@,
    {
        "SortGenerator".to_owned()
    }

    /// Runs the computation once its dependencies are known: reads the
    /// values of the original sequence from `witness`, sorts them in
    /// descending order, and records the result for the wires of the
    /// sorted sequence in `out_buffer`.
    pub fn run_once(&self, witness: &PartialWitness, out_buffer: &mut GeneratedValues)
        requires
            all_known(witness@, self@.dependencies()),
            self@.dependencies().len() == self@.outputs().len(),
        ensures
            final(out_buffer)@ == old(out_buffer)@ + paired(
                self@.outputs(),
                descending_sort(known_values(witness@, self@.dependencies())),
            ),
    {
        match witness.get_targets(self.original_array.as_slice()) {
            Some(values) => {
                let mut array = values;
                sort_descending(&mut array);
                proof {
                    lemma_descending_sort(values@);
                }
                out_buffer.set_target_arr(self.sorted_array.as_slice(), array.as_slice());
            },
            None => {},
        }
    }
}

/// What an order assertion accepts: the difference `larger - smaller`,
/// taken in the field, is below `2^bits`.
pub open spec fn leq_relation(smaller: int, larger: int, bits: nat, p: int) -> bool {
    sub_mod(larger, smaller, p) < pow2(bits)
}

/// The wires an order assertion adds from `base` on, under the assignment
/// `w`: the difference, then its `bits` binary digits.
pub open spec fn leq_trace(
    w: Seq<u64>,
    smaller: Target,
    larger: Target,
    bits: nat,
    base: int,
    p: int,
) -> bool {
    let digits = w.subrange(base + 1, base + 1 + bits);
    &&& w[base] == sub_mod(value_of(w, larger), value_of(w, smaller), p)
    &&& all_boolean(digits)
    &&& w[base] == bits_value(digits) % p
}

/// An order assertion's trace forces the difference below `2^bits`,
/// provided that every number below `2^bits` is a field element.
pub proof fn lemma_leq_trace_sound(
    w: Seq<u64>,
    smaller: Target,
    larger: Target,
    bits: nat,
    base: int,
    p: int,
)
    requires
        0 <= base,
        base + 1 + bits <= w.len(),
        pow2(bits) <= p,
        leq_trace(w, smaller, larger, bits, base, p),
    ensures
        leq_relation(value_of(w, smaller), value_of(w, larger), bits, p),
{
    let digits = w.subrange(base + 1, base + 1 + bits);
    lemma_bits_value_bound(digits);
    lemma_small_mod(bits_value(digits) as nat, p as nat);
}

impl CircuitBuilder {
    /// Asserts `smaller <= larger` for two wires that are known to hold
    /// values of at most `n_log` bits: emits their difference and
    /// range-checks it into `[0, 2^n_log)`.
    pub fn assert_leq(&mut self, smaller: Target, larger: Target, n_log: usize) -> (r: Result<
        (),
        CircuitError,
    >)
        requires
            old(self)@.wf(),
            old(self)@.num_wires() + 1 + n_log <= usize::MAX,
        ensures
            match r {
                Ok(()) => {
                    &&& old(self)@.has(smaller) && old(self)@.has(larger)
                    &&& final(self)@.wf()
                    &&& old(self)@.adds_gates_only(final(self)@)
                    &&& final(self)@.num_wires() == old(self)@.num_wires() + 1 + n_log
                    &&& forall|w: Seq<u64>| #[trigger]
                        final(self)@.gates_hold(w) <==> old(self)@.gates_hold(w) && leq_trace(
                            w,
                            smaller,
                            larger,
                            n_log as nat,
                            old(self)@.num_wires(),
                            old(self)@.modulus,
                        )
                    &&& forall|w: Seq<u64>|
                        #[trigger] final(self)@.gates_hold(w) && w.len() >= final(self)@.num_wires()
                            && pow2(n_log as nat) <= old(self)@.modulus ==> leq_relation(
                            value_of(w, smaller),
                            value_of(w, larger),
                            n_log as nat,
                            old(self)@.modulus,
                        )
                },
                Err(e) => {
                    &&& e == CircuitError::UnknownWire
                    &&& !(old(self)@.has(smaller) && old(self)@.has(larger))
                    &&& final(self)@ == old(self)@
                },
            },
    {
        if !self.is_allocated(smaller) || !self.is_allocated(larger) {
            return Err(CircuitError::UnknownWire);
        }
        let diff = self.sub(larger, smaller);
        let ghost middle = self@;
        self.range_check(diff, n_log);
        proof {
            assert forall|w: Seq<u64>| #[trigger]
                self@.gates_hold(w) <==> old(self)@.gates_hold(w) && leq_trace(
                    w,
                    smaller,
                    larger,
                    n_log as nat,
                    old(self)@.num_wires(),
                    old(self)@.modulus,
                ) by {
                assert(self@.gates_hold(w) <==> middle.gates_hold(w) && (crate::gate::Gate::Bits {
                    x: diff,
                    first: middle.num_wires() as usize,
                    count: n_log,
                }).holds(middle.modulus, w));
            }
            assert forall|w: Seq<u64>|
                #[trigger] self@.gates_hold(w) && w.len() >= self@.num_wires() && pow2(n_log as nat)
                    <= old(self)@.modulus implies leq_relation(
                value_of(w, smaller),
                value_of(w, larger),
                n_log as nat,
                old(self)@.modulus,
            ) by {
                lemma_leq_trace_sound(
                    w,
                    smaller,
                    larger,
                    n_log as nat,
                    old(self)@.num_wires(),
                    old(self)@.modulus,
                );
            }
        }
        Ok(())
    }
}

/// Step `i` of a running product: the wire at `base + 1 + 2i` holds
/// `xs[i] - alpha`, and the wire after it holds the product so far.
pub open spec fn product_step(
    w: Seq<u64>,
    xs: Seq<Target>,
    alpha: Target,
    base: int,
    p: int,
    i: int,
) -> bool {
    &&& w[base + 1 + 2 * i] == sub_mod(value_of(w, xs[i]), value_of(w, alpha), p)
    &&& w[base + 2 + 2 * i] == mul_mod(w[base + 2 * i] as int, w[base + 1 + 2 * i] as int, p)
}

/// The wires a running product adds from `base` on, under the assignment
/// `w`: the constant one, then two wires for each element of `xs`.
pub open spec fn product_trace(w: Seq<u64>, xs: Seq<Target>, alpha: Target, base: int, p: int) -> bool {
    &&& w[base] == 1
    &&& forall|i: int| 0 <= i < xs.len() ==> #[trigger] product_step(w, xs, alpha, base, p, i)
}

/// Under a running product's trace, the wire after step `i - 1` holds the
/// fingerprint of the first `i` elements.
pub proof fn lemma_product_trace_value(
    w: Seq<u64>,
    xs: Seq<Target>,
    alpha: Target,
    base: int,
    p: int,
    i: int,
)
    requires
        p >= 2,
        product_trace(w, xs, alpha, base, p),
        0 <= i <= xs.len(),
    ensures
        w[base + 2 * i] == eval_product(values_of(w, xs).take(i), value_of(w, alpha), p),
    decreases i,
{
    let vals = values_of(w, xs);
    if i == 0 {
        assert(vals.take(0).len() == 0);
        lemma_small_mod(1, p as nat);
    } else {
        lemma_product_trace_value(w, xs, alpha, base, p, i - 1);
        assert(product_step(w, xs, alpha, base, p, i - 1));
        assert(vals.take(i) =~= vals.take(i - 1).push(value_of(w, xs[i - 1])));
        lemma_eval_product_step(vals.take(i - 1), value_of(w, xs[i - 1]), value_of(w, alpha), p);
    }
}

/// The wires a permutation check adds from `base` on, under the
/// assignment `w`: the challenge, the running product over `a`, the
/// running product over `b`, and the two results equal.
pub open spec fn permutation_trace(w: Seq<u64>, a: Seq<Target>, b: Seq<Target>, base: int, p: int) -> bool {
    let alpha = Target { index: base as usize };
    &&& product_trace(w, a, alpha, base + 1, p)
    &&& product_trace(w, b, alpha, base + 2 + 2 * a.len(), p)
    &&& w[base + 1 + 2 * a.len()] == w[base + 2 + 2 * a.len() + 2 * b.len()]
}

/// What a permutation check accepts: the two sequences of values have the
/// same fingerprint at the challenge `alpha`.
pub open spec fn permutation_relation(a: Seq<int>, b: Seq<int>, alpha: int, p: int) -> bool {
    eval_product(a, alpha, p) == eval_product(b, alpha, p)
}

/// A permutation check's trace forces the fingerprints to agree.
pub proof fn lemma_permutation_trace_sound(
    w: Seq<u64>,
    a: Seq<Target>,
    b: Seq<Target>,
    base: int,
    p: int,
)
    requires
        p >= 2,
        0 <= base <= usize::MAX,
        permutation_trace(w, a, b, base, p),
    ensures
        permutation_relation(values_of(w, a), values_of(w, b), w[base] as int, p),
{
    let alpha = Target { index: base as usize };
    lemma_product_trace_value(w, a, alpha, base + 1, p, a.len() as int);
    lemma_product_trace_value(w, b, alpha, base + 2 + 2 * a.len(), p, b.len() as int);
    assert(values_of(w, a).take(a.len() as int) =~= values_of(w, a));
    assert(values_of(w, b).take(b.len() as int) =~= values_of(w, b));
}

impl CircuitBuilder {
    /// Emits the running product of `x - alpha` over the wires `xs` and
    /// returns the wire that holds the whole product.
    fn product_of_differences(&mut self, xs: &[Target], alpha: Target) -> (out: Target)
        requires
            old(self)@.wf(),
            old(self)@.has_all(xs@),
            old(self)@.has(alpha),
            old(self)@.num_wires() + 1 + 2 * xs@.len() <= usize::MAX,
        ensures
            final(self)@.wf(),
            old(self)@.adds_gates_only(final(self)@),
            final(self)@.num_wires() == old(self)@.num_wires() + 1 + 2 * xs@.len(),
            out.index == old(self)@.num_wires() + 2 * xs@.len(),
            forall|w: Seq<u64>| #[trigger]
                final(self)@.gates_hold(w) <==> old(self)@.gates_hold(w) && product_trace(
                    w,
                    xs@,
                    alpha,
                    old(self)@.num_wires(),
                    old(self)@.modulus,
                ),
    {
        let ghost base = self@.num_wires();
        let ghost p = self@.modulus;
        let mut acc = self.one();
        let mut i: usize = 0;
        while i < xs.len()
            invariant
                i <= xs.len(),
                base == old(self)@.num_wires(),
                p == old(self)@.modulus,
                base + 1 + 2 * xs@.len() <= usize::MAX,
                old(self)@.has_all(xs@),
                old(self)@.has(alpha),
                self@.wf(),
                old(self)@.adds_gates_only(self@),
                self@.num_wires() == base + 1 + 2 * i,
                acc.index == base + 2 * i,
                forall|w: Seq<u64>| #[trigger]
                    self@.gates_hold(w) <==> old(self)@.gates_hold(w) && product_trace(
                        w,
                        xs@.take(i as int),
                        alpha,
                        base,
                        p,
                    ),
            decreases xs.len() - i,
        {
            let ghost before = self@;
            let x = xs[i];
            let term = self.sub(x, alpha);
            let next = self.mul(acc, term);
            proof {
                let done = xs@.take(i as int);
                let more = xs@.take(i + 1);
                assert forall|w: Seq<u64>| #[trigger]
                    self@.gates_hold(w) <==> old(self)@.gates_hold(w) && product_trace(
                        w,
                        more,
                        alpha,
                        base,
                        p,
                    ) by {
                    assert(self@.gates_hold(w) <==> before.gates_hold(w) && product_step(
                        w,
                        xs@,
                        alpha,
                        base,
                        p,
                        i as int,
                    ));
                    if product_trace(w, more, alpha, base, p) {
                        assert(product_step(w, more, alpha, base, p, i as int));
                        assert forall|k: int| 0 <= k < done.len() implies #[trigger] product_step(
                            w,
                            done,
                            alpha,
                            base,
                            p,
                            k,
                        ) by {
                            assert(product_step(w, more, alpha, base, p, k));
                        }
                    }
                    if product_trace(w, done, alpha, base, p) && product_step(
                        w,
                        xs@,
                        alpha,
                        base,
                        p,
                        i as int,
                    ) {
                        assert forall|k: int| 0 <= k < more.len() implies #[trigger] product_step(
                            w,
                            more,
                            alpha,
                            base,
                            p,
                            k,
                        ) by {
                            if k < i {
                                assert(product_step(w, done, alpha, base, p, k));
                            }
                        }
                    }
                }
            }
            acc = next;
            i = i + 1;
        }
        proof {
            assert(xs@.take(xs.len() as int) =~= xs@);
        }
        acc
    }
}

impl CircuitBuilder {
    /// Asserts that the wires `a` hold a rearrangement of the values of the
    /// wires `b`.
    ///
    /// Every wire of `a`, then every wire of `b`, is absorbed into a fresh
    /// transcript, and the challenge drawn from it is the point at which
    /// the two fingerprints are computed and constrained to be equal.
    pub fn permutation_check(&mut self, a: &[Target], b: &[Target]) -> (r: Result<(), CircuitError>)
        requires
            old(self)@.wf(),
            old(self)@.num_wires() + 3 + 2 * a@.len() + 2 * b@.len() <= usize::MAX,
        ensures
            match r {
                Ok(()) => {
                    &&& a@.len() == b@.len()
                    &&& old(self)@.has_all(a@) && old(self)@.has_all(b@)
                    &&& final(self)@.wf()
                    &&& old(self)@.grows_to(final(self)@)
                    &&& final(self)@.generators == old(self)@.generators
                    &&& final(self)@.public_inputs == old(self)@.public_inputs
                    &&& final(self)@.challenges == old(self)@.challenges.push(
                        ChallengeModel {
                            observed: a@ + b@,
                            output: Target { index: old(self)@.num_wires() as usize },
                        },
                    )
                    &&& final(self)@.num_wires() == old(self)@.num_wires() + 3 + 4 * a@.len()
                    &&& forall|w: Seq<u64>| #[trigger]
                        final(self)@.gates_hold(w) <==> old(self)@.gates_hold(w) && permutation_trace(
                            w,
                            a@,
                            b@,
                            old(self)@.num_wires(),
                            old(self)@.modulus,
                        )
                    &&& forall|w: Seq<u64>| #[trigger]
                        final(self)@.gates_hold(w) ==> permutation_relation(
                            values_of(w, a@),
                            values_of(w, b@),
                            w[old(self)@.num_wires()] as int,
                            old(self)@.modulus,
                        )
                },
                Err(e) => {
                    &&& final(self)@ == old(self)@
                    &&& e == CircuitError::LengthMismatch || e == CircuitError::UnknownWire
                    &&& e == CircuitError::LengthMismatch <==> a@.len() != b@.len()
                    &&& e == CircuitError::UnknownWire ==> !(old(self)@.has_all(a@) && old(
                        self,
                    )@.has_all(b@))
                },
            },
    {
        if a.len() != b.len() {
            return Err(CircuitError::LengthMismatch);
        }
        if !self.all_allocated(a) || !self.all_allocated(b) {
            return Err(CircuitError::UnknownWire);
        }
        let ghost base = self@.num_wires();
        let ghost p = self@.modulus;
        let mut challenger = RecursiveChallenger::new();
        challenger.observe_elements(a);
        challenger.observe_elements(b);
        assert(challenger@ =~= a@ + b@);
        let alpha = challenger.get_challenge(self);
        let ghost drawn = self@;
        let a_eval = self.product_of_differences(a, alpha);
        let ghost first = self@;
        let b_eval = self.product_of_differences(b, alpha);
        let ghost second = self@;
        self.connect(a_eval, b_eval);
        proof {
            assert(alpha == Target { index: base as usize });
            assert forall|w: Seq<u64>| #[trigger]
                self@.gates_hold(w) <==> old(self)@.gates_hold(w) && permutation_trace(
                    w,
                    a@,
                    b@,
                    base,
                    p,
                ) by {
                assert(drawn.gates_hold(w) <==> old(self)@.gates_hold(w));
                assert(first.gates_hold(w) <==> drawn.gates_hold(w) && product_trace(
                    w,
                    a@,
                    alpha,
                    base + 1,
                    p,
                ));
                assert(second.gates_hold(w) <==> first.gates_hold(w) && product_trace(
                    w,
                    b@,
                    alpha,
                    base + 2 + 2 * a@.len(),
                    p,
                ));
                assert(self@.gates_hold(w) <==> second.gates_hold(w) && w[a_eval.index as int]
                    == w[b_eval.index as int]);
            }
            assert forall|w: Seq<u64>| #[trigger] self@.gates_hold(w) implies permutation_relation(
                values_of(w, a@),
                values_of(w, b@),
                w[base] as int,
                p,
            ) by {
                lemma_permutation_trace_sound(w, a@, b@, base, p);
            }
        }
        Ok(())
    }
}

/// The number of wires that the order assertions on `n` adjacent wires of
/// `bits` bits add.
pub open spec fn order_wires(n: nat, bits: nat) -> int {
    if n == 0 {
        0
    } else {
        (n - 1) * (1 + bits)
    }
}

/// Order assertion `i` of a sorted check, on `sorted[i]` and the wire
/// before it, holds under `w`.
pub open spec fn order_step(w: Seq<u64>, sorted: Seq<Target>, bits: nat, base: int, p: int, i: int) -> bool {
    leq_trace(w, sorted[i], sorted[i - 1], bits, base + (i - 1) * (1 + bits), p)
}

/// The wires that the order assertions of a sorted check add from `base`
/// on, under the assignment `w`.
pub open spec fn order_trace(w: Seq<u64>, sorted: Seq<Target>, bits: nat, base: int, p: int) -> bool {
    forall|i: int| 1 <= i < sorted.len() ==> #[trigger] order_step(w, sorted, bits, base, p, i)
}

/// The order assertions before number `upto` hold under `w`.
pub open spec fn order_trace_upto(
    w: Seq<u64>,
    sorted: Seq<Target>,
    bits: nat,
    base: int,
    p: int,
    upto: int,
) -> bool {
    forall|i: int| 1 <= i < upto ==> #[trigger] order_step(w, sorted, bits, base, p, i)
}

/// The wires a sorted check adds from `base` on, under the assignment
/// `w`: its order assertions, then its permutation check.
pub open spec fn sorted_trace(
    w: Seq<u64>,
    sorted: Seq<Target>,
    original: Seq<Target>,
    bits: nat,
    base: int,
    p: int,
) -> bool {
    &&& order_trace(w, sorted, bits, base, p)
    &&& permutation_trace(w, sorted, original, base + order_wires(sorted.len(), bits), p)
}

/// What the order assertions of a sorted check accept: each element's
/// difference from the one before it, taken in the field, is below
/// `2^bits`.
pub open spec fn adjacent_relation(s: Seq<int>, bits: nat, p: int) -> bool {
    forall|i: int| 1 <= i < s.len() ==> leq_relation(#[trigger] s[i], s[i - 1], bits, p)
}

/// The order assertions' trace forces the adjacent differences below
/// `2^bits`, provided that every number below `2^bits` is a field element.
pub proof fn lemma_order_trace_sound(w: Seq<u64>, sorted: Seq<Target>, bits: nat, base: int, p: int)
    requires
        0 <= base,
        base + order_wires(sorted.len(), bits) <= w.len(),
        pow2(bits) <= p,
        order_trace(w, sorted, bits, base, p),
    ensures
        adjacent_relation(values_of(w, sorted), bits, p),
{
    let s = values_of(w, sorted);
    let n = sorted.len() as int;
    assert forall|i: int| 1 <= i < s.len() implies leq_relation(#[trigger] s[i], s[i - 1], bits, p) by {
        assert(order_step(w, sorted, bits, base, p, i));
        let c = 1 + bits as int;
        assert((i - 1) * c + c <= (n - 1) * c) by (nonlinear_arith)
            requires
                1 <= i < n,
                c >= 0,
        ;
        assert((i - 1) * c >= 0) by (nonlinear_arith)
            requires
                1 <= i,
                c >= 0,
        ;
        lemma_leq_trace_sound(w, sorted[i], sorted[i - 1], bits, base + (i - 1) * c, p);
    }
}

impl CircuitBuilder {
    /// Asserts that the wires `sorted_array` hold the values of the wires
    /// `original_array` in descending order: each adjacent pair is
    /// asserted to be in order, and the two sequences are asserted to be
    /// rearrangements of each other.
    pub fn sorted_check(&mut self, sorted_array: &[Target], original_array: &[Target], n_log: usize) -> (r:
        Result<(), CircuitError>)
        requires
            old(self)@.wf(),
            old(self)@.num_wires() + order_wires(sorted_array@.len(), n_log as nat) + 3 + 2
                * sorted_array@.len() + 2 * original_array@.len() <= usize::MAX,
        ensures
            match r {
                Ok(()) => {
                    &&& sorted_array@.len() == original_array@.len()
                    &&& old(self)@.has_all(sorted_array@) && old(self)@.has_all(original_array@)
                    &&& final(self)@.wf()
                    &&& old(self)@.grows_to(final(self)@)
                    &&& final(self)@.generators == old(self)@.generators
                    &&& final(self)@.public_inputs == old(self)@.public_inputs
                    &&& final(self)@.challenges == old(self)@.challenges.push(
                        ChallengeModel {
                            observed: sorted_array@ + original_array@,
                            output: Target {
                                index: (old(self)@.num_wires() + order_wires(
                                    sorted_array@.len(),
                                    n_log as nat,
                                )) as usize,
                            },
                        },
                    )
                    &&& final(self)@.num_wires() == old(self)@.num_wires() + order_wires(
                        sorted_array@.len(),
                        n_log as nat,
                    ) + 3 + 4 * sorted_array@.len()
                    &&& forall|w: Seq<u64>| #[trigger]
                        final(self)@.gates_hold(w) <==> old(self)@.gates_hold(w) && sorted_trace(
                            w,
                            sorted_array@,
                            original_array@,
                            n_log as nat,
                            old(self)@.num_wires(),
                            old(self)@.modulus,
                        )
                    &&& forall|w: Seq<u64>|
                        #[trigger] final(self)@.gates_hold(w) && w.len() >= final(self)@.num_wires()
                            ==> {
                            &&& permutation_relation(
                                values_of(w, sorted_array@),
                                values_of(w, original_array@),
                                w[old(self)@.num_wires() + order_wires(
                                    sorted_array@.len(),
                                    n_log as nat,
                                )] as int,
                                old(self)@.modulus,
                            )
                            &&& pow2(n_log as nat) <= old(self)@.modulus ==> adjacent_relation(
                                values_of(w, sorted_array@),
                                n_log as nat,
                                old(self)@.modulus,
                            )
                        }
                },
                Err(e) => {
                    &&& final(self)@ == old(self)@
                    &&& e == CircuitError::LengthMismatch || e == CircuitError::UnknownWire
                    &&& e == CircuitError::LengthMismatch <==> sorted_array@.len()
                        != original_array@.len()
                    &&& e == CircuitError::UnknownWire ==> !(old(self)@.has_all(sorted_array@) && old(
                        self,
                    )@.has_all(original_array@))
                },
            },
    {
        if sorted_array.len() != original_array.len() {
            return Err(CircuitError::LengthMismatch);
        }
        if !self.all_allocated(sorted_array) || !self.all_allocated(original_array) {
            return Err(CircuitError::UnknownWire);
        }
        let ghost base = self@.num_wires();
        let ghost p = self@.modulus;
        let ghost bits = n_log as nat;
        let ghost c = 1 + bits as int;
        let n = sorted_array.len();
        let mut i: usize = 1;
        while i < n
            invariant
                1 <= i,
                i <= n || (n == 0 && i == 1),
                n == sorted_array@.len(),
                n == original_array@.len(),
                base == old(self)@.num_wires(),
                p == old(self)@.modulus,
                bits == n_log as nat,
                c == 1 + bits,
                base + order_wires(n as nat, bits) + 3 + 4 * n <= usize::MAX,
                old(self)@.has_all(sorted_array@),
                self@.wf(),
                old(self)@.adds_gates_only(self@),
                self@.num_wires() == base + (i - 1) * c,
                forall|w: Seq<u64>| #[trigger]
                    self@.gates_hold(w) <==> old(self)@.gates_hold(w) && order_trace_upto(
                        w,
                        sorted_array@,
                        bits,
                        base,
                        p,
                        i as int,
                    ),
            decreases n - i,
        {
            let ghost before = self@;
            proof {
                assert((i - 1) * c + c <= (n - 1) * c) by (nonlinear_arith)
                    requires
                        1 <= i < n,
                        c >= 0,
                ;
                assert((i - 1) * c + c == i * c) by (nonlinear_arith);
            }
            match self.assert_leq(sorted_array[i], sorted_array[i - 1], n_log) {
                Ok(()) => {},
                Err(e) => {
                    return Err(e);
                },
            }
            proof {
                assert forall|w: Seq<u64>| #[trigger]
                    self@.gates_hold(w) <==> old(self)@.gates_hold(w) && order_trace_upto(
                        w,
                        sorted_array@,
                        bits,
                        base,
                        p,
                        i + 1,
                    ) by {
                    assert(self@.gates_hold(w) <==> before.gates_hold(w) && order_step(
                        w,
                        sorted_array@,
                        bits,
                        base,
                        p,
                        i as int,
                    ));
                    if order_trace_upto(w, sorted_array@, bits, base, p, i + 1) {
                        assert(order_step(w, sorted_array@, bits, base, p, i as int));
                    }
                }
            }
            i = i + 1;
        }
        let ghost ordered = self@;
        proof {
            assert(0 * c == 0) by (nonlinear_arith);
            assert(ordered.num_wires() == base + order_wires(n as nat, bits));
            assert forall|w: Seq<u64>|
                order_trace_upto(w, sorted_array@, bits, base, p, i as int) <==> order_trace(
                    w,
                    sorted_array@,
                    bits,
                    base,
                    p,
                ) by {}
        }
        match self.permutation_check(sorted_array, original_array) {
            Ok(()) => {},
            Err(e) => {
                return Err(e);
            },
        }
        proof {
            assert forall|w: Seq<u64>|
                #[trigger] self@.gates_hold(w) && w.len() >= self@.num_wires() implies {
                &&& permutation_relation(
                    values_of(w, sorted_array@),
                    values_of(w, original_array@),
                    w[base + order_wires(n as nat, bits)] as int,
                    p,
                )
                &&& pow2(bits) <= p ==> adjacent_relation(values_of(w, sorted_array@), bits, p)
            } by {
                if pow2(bits) <= p {
                    lemma_order_trace_sound(w, sorted_array@, bits, base, p);
                }
            }
        }
        Ok(())
    }
}

impl CircuitBuilder {
    /// Allocates a sequence of fresh wires constrained to hold the values
    /// of `original_array` in descending order, and returns it.
    ///
    /// The constraints are those of `sorted_check` on the fresh wires. A
    /// deferred computation that reads `original_array` and writes the
    /// fresh wires is registered, so that an honest assignment is
    /// completed by sorting; the constraints do not depend on it.
    pub fn sort(&mut self, original_array: &[Target], n_log: usize) -> (r: Result<
        Vec<Target>,
        CircuitError,
    >)
        requires
            old(self)@.wf(),
            old(self)@.num_wires() + order_wires(original_array@.len(), n_log as nat) + 3 + 5
                * original_array@.len() <= usize::MAX,
        ensures
            match r {
                Ok(sorted) => {
                    let base = old(self)@.num_wires();
                    let n = original_array@.len();
                    let challenge_at = base + n + order_wires(n, n_log as nat);
                    &&& old(self)@.has_all(original_array@)
                    &&& sorted@ == wire_range(base, n)
                    &&& final(self)@.wf()
                    &&& old(self)@.grows_to(final(self)@)
                    &&& final(self)@.public_inputs == old(self)@.public_inputs
                    &&& final(self)@.generators == old(self)@.generators.push(
                        GeneratorModel::Sort { original: original_array@, sorted: sorted@ },
                    )
                    &&& final(self)@.challenges == old(self)@.challenges.push(
                        ChallengeModel {
                            observed: sorted@ + original_array@,
                            output: Target { index: challenge_at as usize },
                        },
                    )
                    &&& final(self)@.num_wires() == challenge_at + 3 + 4 * n
                    &&& forall|w: Seq<u64>| #[trigger]
                        final(self)@.gates_hold(w) <==> old(self)@.gates_hold(w) && sorted_trace(
                            w,
                            sorted@,
                            original_array@,
                            n_log as nat,
                            base + n,
                            old(self)@.modulus,
                        )
                    &&& forall|w: Seq<u64>|
                        #[trigger] final(self)@.gates_hold(w) && w.len() >= final(self)@.num_wires()
                            ==> {
                            &&& permutation_relation(
                                values_of(w, sorted@),
                                values_of(w, original_array@),
                                w[challenge_at] as int,
                                old(self)@.modulus,
                            )
                            &&& pow2(n_log as nat) <= old(self)@.modulus ==> adjacent_relation(
                                values_of(w, sorted@),
                                n_log as nat,
                                old(self)@.modulus,
                            )
                        }
                },
                Err(e) => {
                    &&& e == CircuitError::UnknownWire
                    &&& !old(self)@.has_all(original_array@)
                    &&& final(self)@ == old(self)@
                },
            },
    {
        if !self.all_allocated(original_array) {
            return Err(CircuitError::UnknownWire);
        }
        let ghost base = self@.num_wires();
        let sorted_array = self.add_virtual_targets(original_array.len());
        let ghost allocated = self@;
        match self.sorted_check(sorted_array.as_slice(), original_array, n_log) {
            Ok(()) => {},
            Err(e) => {
                return Err(e);
            },
        }
        let ghost checked = self@;
        let generator = SortGenerator::new(slice_to_vec(original_array), sorted_array.clone());
        proof {
            let g = generator@;
            assert(g.outputs() == sorted_array@);
            assert forall|j: int| 0 <= j < g.outputs().len() implies checked.is_input(
                #[trigger] g.outputs()[j],
            ) by {
                assert(allocated.is_input(sorted_array@[j]));
                assert(checked.drivers[sorted_array@[j].index as int]
                    == allocated.drivers[sorted_array@[j].index as int]);
            }
            assert(precede(g.dependencies(), g.outputs()));
            assert(checked.generator_refusal(g) is None);
        }
        match self.add_simple_generator(WitnessGenerator::Sort(generator)) {
            Ok(()) => {},
            Err(e) => {
                return Err(e);
            },
        }
        proof {
            assert(self@.generators =~= old(self)@.generators.push(
                GeneratorModel::Sort { original: original_array@, sorted: sorted_array@ },
            ));
            assert forall|t: int| 0 <= t < old(self)@.drivers.len() implies #[trigger] self@.drivers[t]
                == old(self)@.drivers[t] by {
                let target = Target { index: t as usize };
                if sorted_array@.contains(target) {
                    let m = choose|m: int| 0 <= m < sorted_array@.len() && sorted_array@[m] == target;
                    assert(sorted_array@[m].index == base + m);
                }
                assert(checked.drivers[t] == allocated.drivers[t]);
            }
            assert(forall|w: Seq<u64>| #[trigger] self@.gates_hold(w) <==> checked.gates_hold(w));
        }
        Ok(sorted_array)
    }
}

/// No element is smaller than one that follows it.
pub open spec fn descends(s: Seq<int>) -> bool {
    forall|i: int, j: int| 0 <= i < j < s.len() ==> s[i] >= s[j]
}

/// Every element lies in `[0, 2^bits)`.
pub open spec fn all_fit(s: Seq<int>, bits: nat) -> bool {
    forall|i: int| 0 <= i < s.len() ==> 0 <= #[trigger] s[i] < pow2(bits)
}

/// For two values of at most `bits` bits, in a field that holds every
/// value of `bits + 1` bits, an order assertion accepts exactly when the
/// first is no greater than the second.
pub proof fn lemma_leq_relation_is_order(smaller: int, larger: int, bits: nat, p: int)
    requires
        0 <= smaller < pow2(bits),
        0 <= larger < pow2(bits),
        2 * pow2(bits) <= p,
    ensures
        leq_relation(smaller, larger, bits, p) <==> smaller <= larger,
{
    let d = larger - smaller;
    if smaller <= larger {
        lemma_small_mod(d as nat, p as nat);
    } else {
        lemma_mod_add_multiples_vanish(d, p);
        lemma_small_mod((d + p) as nat, p as nat);
    }
}

/// An order assertion rejects a pair of a value of at most `bits` bits and
/// a value that lies at least `2^bits` away from both ends of the field,
/// whichever of the two is claimed to be the smaller: the range check
/// catches the wraparound.
///
/// A value beyond `bits` bits that lies closer to an end of the field can
/// pass, which is why both inputs must be known to fit.
pub proof fn lemma_leq_rejects_out_of_range(inside: int, outside: int, bits: nat, p: int)
    requires
        0 <= inside < pow2(bits),
        2 * pow2(bits) - 1 <= outside <= p - pow2(bits),
    ensures
        !leq_relation(inside, outside, bits, p),
        !leq_relation(outside, inside, bits, p),
{
    lemma_small_mod((outside - inside) as nat, p as nat);
    lemma_mod_add_multiples_vanish(inside - outside, p);
    lemma_small_mod((inside - outside + p) as nat, p as nat);
}

/// For values of at most `bits` bits, in a field that holds every value
/// of `bits + 1` bits, the order assertions of a sorted check accept
/// exactly the sequences in descending order.
pub proof fn lemma_adjacent_relation_is_order(s: Seq<int>, bits: nat, p: int)
    requires
        all_fit(s, bits),
        2 * pow2(bits) <= p,
    ensures
        adjacent_relation(s, bits, p) <==> descends(s),
{
    if adjacent_relation(s, bits, p) {
        assert forall|i: int, j: int| 0 <= i < j < s.len() implies s[i] >= s[j] by {
            lemma_adjacent_chain(s, bits, p, i, j);
        }
    }
    if descends(s) {
        assert forall|i: int| 1 <= i < s.len() implies leq_relation(
            #[trigger] s[i],
            s[i - 1],
            bits,
            p,
        ) by {
            lemma_leq_relation_is_order(s[i], s[i - 1], bits, p);
        }
    }
}

/// Adjacent order assertions on values that fit chain into order between
/// any two positions.
proof fn lemma_adjacent_chain(s: Seq<int>, bits: nat, p: int, i: int, j: int)
    requires
        all_fit(s, bits),
        2 * pow2(bits) <= p,
        adjacent_relation(s, bits, p),
        0 <= i < j < s.len(),
    ensures
        s[i] >= s[j],
    decreases j - i,
{
    assert(leq_relation(s[j], s[j - 1], bits, p));
    lemma_leq_relation_is_order(s[j], s[j - 1], bits, p);
    if i < j - 1 {
        lemma_adjacent_chain(s, bits, p, i, j - 1);
    }
}

/// The values that the sort's deferred computation writes are accepted:
/// if every value of the original sequence has at most `bits` bits, in a
/// field that holds every value of `bits + 1` bits, then its descending
/// sort passes the order assertions, and at every challenge its
/// fingerprint is that of the original sequence.
pub proof fn lemma_sorted_values_accepted(original: Seq<u64>, bits: nat, alpha: int, p: int)
    requires
        all_fit(as_ints(original), bits),
        2 * pow2(bits) <= p,
    ensures
        all_fit(as_ints(descending_sort(original)), bits),
        adjacent_relation(as_ints(descending_sort(original)), bits, p),
        permutation_relation(as_ints(descending_sort(original)), as_ints(original), alpha, p),
{
    let sorted = descending_sort(original);
    lemma_descending_sort(original);
    lemma_eval_product_rearranged(sorted, original, alpha, p);
    let s = as_ints(sorted);
    assert(all_fit(s, bits)) by {
        assert forall|i: int| 0 <= i < s.len() implies 0 <= #[trigger] s[i] < pow2(bits) by {
            sorted.to_multiset_ensures();
            original.to_multiset_ensures();
            assert(sorted.to_multiset().count(sorted[i]) > 0);
            assert(original.contains(sorted[i]));
            let k = choose|k: int| 0 <= k < original.len() && original[k] == sorted[i];
            assert(as_ints(original)[k] == s[i]);
        }
    }
    assert(descends(s)) by {
        assert forall|i: int, j: int| 0 <= i < j < s.len() implies s[i] >= s[j] by {
            assert(sorted[i] >= sorted[j]);
        }
    }
    lemma_adjacent_relation_is_order(s, bits, p);
}

} // verus!
