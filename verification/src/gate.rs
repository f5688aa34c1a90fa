//! The constraints a circuit is made of.

use crate::bits::{all_boolean, bit_of, bits_value, low_bits};
use crate::field::{add_mod, field_add, field_mul, field_mul_add, field_sub, mul_mod, sub_mod};
use crate::generator::GeneratedValues;
use crate::target::{all_below, paired, value_of, wire_range, Target};
use crate::witness::{all_known, known, known_values, PartialWitness};
use vstd::arithmetic::div_mod::*;
use vstd::arithmetic::power2::*;
use vstd::prelude::*;

verus! {

/// One constraint over the wires of a circuit.
///
/// Every gate but `Equal` also defines its output wires as a function of
/// its input wires, which is how an honest assignment is completed.
#[derive(Clone, Copy, Debug, PartialEq, Eq, Structural)]
pub enum Gate {
    /// `out` holds the constant `value`.
    Constant { out: Target, value: u64 },
    /// `out = a + b`.
    Add { a: Target, b: Target, out: Target },
    /// `out = a - b`.
    Sub { a: Target, b: Target, out: Target },
    /// `out = a * b`.
    Mul { a: Target, b: Target, out: Target },
    /// `out = a * b + c`.
    MulAdd { a: Target, b: Target, c: Target, out: Target },
    /// `a` and `b` hold the same value.
    Equal { a: Target, b: Target },
    /// The `count` wires from `first` on each hold zero or one, and are the
    /// little-endian binary digits of `x`.
    Bits { x: Target, first: usize, count: usize },
}

impl Gate {
    /// The wires this gate reads.
    pub open spec fn inputs(self) -> Seq<Target> {
        match self {
            Gate::Constant { .. } => seq![],
            Gate::Add { a, b, .. } => seq![a, b],
            Gate::Sub { a, b, .. } => seq![a, b],
            Gate::Mul { a, b, .. } => seq![a, b],
            Gate::MulAdd { a, b, c, .. } => seq![a, b, c],
            Gate::Equal { a, b } => seq![a, b],
            Gate::Bits { x, .. } => seq![x],
        }
    }

    /// The wires this gate defines.
    pub open spec fn outputs(self) -> Seq<Target> {
        match self {
            Gate::Constant { out, .. } => seq![out],
            Gate::Add { out, .. } => seq![out],
            Gate::Sub { out, .. } => seq![out],
            Gate::Mul { out, .. } => seq![out],
            Gate::MulAdd { out, .. } => seq![out],
            Gate::Equal { .. } => seq![],
            Gate::Bits { first, count, .. } => wire_range(first as int, count as nat),
        }
    }

    /// The values this gate gives its outputs when its inputs hold `input`.
    pub open spec fn results(self, p: int, input: Seq<u64>) -> Seq<u64> {
        match self {
            Gate::Constant { value, .. } => seq![value],
            Gate::Add { .. } => seq![add_mod(input[0] as int, input[1] as int, p) as u64],
            Gate::Sub { .. } => seq![sub_mod(input[0] as int, input[1] as int, p) as u64],
            Gate::Mul { .. } => seq![mul_mod(input[0] as int, input[1] as int, p) as u64],
            Gate::MulAdd { .. } => seq![
                add_mod(input[0] as int * input[1] as int, input[2] as int, p) as u64,
            ],
            Gate::Equal { .. } => seq![],
            Gate::Bits { count, .. } => low_bits(input[0] as int, count as nat),
        }
    }

    /// Whether the assignment `w` meets the constraint, modulo `p`.
    pub open spec fn holds(self, p: int, w: Seq<u64>) -> bool {
        match self {
            Gate::Constant { out, value } => value_of(w, out) == value,
            Gate::Add { a, b, out } => value_of(w, out) == add_mod(value_of(w, a), value_of(w, b), p),
            Gate::Sub { a, b, out } => value_of(w, out) == sub_mod(value_of(w, a), value_of(w, b), p),
            Gate::Mul { a, b, out } => value_of(w, out) == mul_mod(value_of(w, a), value_of(w, b), p),
            Gate::MulAdd { a, b, c, out } => value_of(w, out) == add_mod(
                value_of(w, a) * value_of(w, b),
                value_of(w, c),
                p,
            ),
            Gate::Equal { a, b } => value_of(w, a) == value_of(w, b),
            Gate::Bits { x, first, count } => {
                let digits = w.subrange(first as int, first + count);
                &&& all_boolean(digits)
                &&& value_of(w, x) == bits_value(digits) % p
            },
        }
    }

    /// Every wire this gate mentions has an index below `n`.
    pub open spec fn within(self, n: int) -> bool {
        &&& all_below(self.inputs(), n)
        &&& match self {
            Gate::Bits { first, count, .. } => first + count <= n,
            _ => all_below(self.outputs(), n),
        }
    }

    /// Evaluates the constraint on a full assignment.
    pub fn check(&self, p: u64, w: &Vec<u64>) -> (r: bool)
        requires
            p > 0,
            self.within(w.len() as int),
        ensures
            r == self.holds(p as int, w@),
    {
        match *self {
            Gate::Constant { out, value } => {
                assert(self.outputs()[0] == out);
                w[out.index] == value
            },
            Gate::Add { a, b, out } => {
                assert(self.inputs()[0] == a && self.inputs()[1] == b && self.outputs()[0] == out);
                w[out.index] == field_add(w[a.index], w[b.index], p)
            },
            Gate::Sub { a, b, out } => {
                assert(self.inputs()[0] == a && self.inputs()[1] == b && self.outputs()[0] == out);
                w[out.index] == field_sub(w[a.index], w[b.index], p)
            },
            Gate::Mul { a, b, out } => {
                assert(self.inputs()[0] == a && self.inputs()[1] == b && self.outputs()[0] == out);
                w[out.index] == field_mul(w[a.index], w[b.index], p)
            },
            Gate::MulAdd { a, b, c, out } => {
                assert(self.inputs()[0] == a && self.inputs()[1] == b && self.inputs()[2] == c
                    && self.outputs()[0] == out);
                w[out.index] == field_mul_add(w[a.index], w[b.index], w[c.index], p)
            },
            Gate::Equal { a, b } => {
                assert(self.inputs()[0] == a && self.inputs()[1] == b);
                w[a.index] == w[b.index]
            },
            Gate::Bits { x, first, count } => {
                assert(self.inputs()[0] == x);
                let ghost digits = w@.subrange(first as int, first + count);
                let mut sum: u64 = 0;
                let mut weight: u64 = 1 % p;
                let mut j: usize = 0;
                proof {
                    lemma2_to64();
                    lemma_small_mod(0, p as nat);
                    assert(digits.take(0).len() == 0);
                }
                while j < count
                    invariant
                        p > 0,
                        j <= count,
                        first + count <= w.len(),
                        *self == (Gate::Bits { x, first, count }),
                        digits == w@.subrange(first as int, first + count),
                        all_boolean(digits.take(j as int)),
                        sum == bits_value(digits.take(j as int)) % (p as int),
                        weight == pow2(j as nat) % (p as nat),
                    decreases count - j,
                {
                    let digit: u64 = w[first + j];
                    assert(digit == digits[j as int]);
                    if digit > 1 {
                        assert(!(digits[j as int] <= 1));
                        return false;
                    }
                    proof {
                        let before = digits.take(j as int);
                        let after = digits.take(j + 1);
                        assert(after.drop_last() =~= before);
                        assert(after.last() == digit);
                        assert(all_boolean(after)) by {
                            assert forall|k: int| 0 <= k < after.len() implies #[trigger] after[k]
                                <= 1 by {
                                if k < j {
                                    assert(after[k] == before[k]);
                                }
                            }
                        }
                        let pj = pow2(j as nat) as int;
                        let pi = p as int;
                        lemma_mul_mod_noop_right(digit as int, pj, pi);
                        lemma_add_mod_noop(bits_value(before), digit * pj, pi);
                        lemma_pow2_unfold((j + 1) as nat);
                        lemma_mul_mod_noop_right(2, pj, pi);
                    }
                    let term: u64 = field_mul(digit, weight, p);
                    sum = field_add(sum, term, p);
                    weight = field_mul(2, weight, p);
                    j = j + 1;
                }
                assert(digits.take(count as int) =~= digits);
                w[x.index] == sum
            },
        }
    }
}

impl Gate {
    /// The wires this gate reads, in order.
    pub fn input_wires(&self) -> (r: Vec<Target>)
        ensures
            r@ == self.inputs(),
    {
        let mut r: Vec<Target> = Vec::new();
        match *self {
            Gate::Constant { .. } => {},
            Gate::Add { a, b, .. } => {
                r.push(a);
                r.push(b);
            },
            Gate::Sub { a, b, .. } => {
                r.push(a);
                r.push(b);
            },
            Gate::Mul { a, b, .. } => {
                r.push(a);
                r.push(b);
            },
            Gate::MulAdd { a, b, c, .. } => {
                r.push(a);
                r.push(b);
                r.push(c);
            },
            Gate::Equal { a, b } => {
                r.push(a);
                r.push(b);
            },
            Gate::Bits { x, .. } => {
                r.push(x);
            },
        }
        assert(r@ =~= self.inputs());
        r
    }

    /// Computes the outputs of this gate from the values that `witness`
    /// gives its inputs, and records them in `out_buffer`.
    pub fn run_once(&self, p: u64, witness: &PartialWitness, out_buffer: &mut GeneratedValues)
        requires
            p > 0,
            all_known(witness@, self.inputs()),
            self.within(usize::MAX as int),
        ensures
            final(out_buffer)@ == old(out_buffer)@ + paired(
                self.outputs(),
                self.results(p as int, known_values(witness@, self.inputs())),
            ),
    {
        let ghost input = known_values(witness@, self.inputs());
        let ghost expected = paired(self.outputs(), self.results(p as int, input));
        match *self {
            Gate::Constant { out, value } => {
                out_buffer.set_target(out, value);
                assert(out_buffer@ =~= old(out_buffer)@ + expected);
            },
            Gate::Add { a, b, out } => {
                assert(known(witness@, self.inputs()[0]) && known(witness@, self.inputs()[1]));
                match (witness.get_target(a), witness.get_target(b)) {
                    (Some(x), Some(y)) => {
                        out_buffer.set_target(out, field_add(x, y, p));
                    },
                    _ => {},
                }
                assert(out_buffer@ =~= old(out_buffer)@ + expected);
            },
            Gate::Sub { a, b, out } => {
                assert(known(witness@, self.inputs()[0]) && known(witness@, self.inputs()[1]));
                match (witness.get_target(a), witness.get_target(b)) {
                    (Some(x), Some(y)) => {
                        out_buffer.set_target(out, field_sub(x, y, p));
                    },
                    _ => {},
                }
                assert(out_buffer@ =~= old(out_buffer)@ + expected);
            },
            Gate::Mul { a, b, out } => {
                assert(known(witness@, self.inputs()[0]) && known(witness@, self.inputs()[1]));
                match (witness.get_target(a), witness.get_target(b)) {
                    (Some(x), Some(y)) => {
                        out_buffer.set_target(out, field_mul(x, y, p));
                    },
                    _ => {},
                }
                assert(out_buffer@ =~= old(out_buffer)@ + expected);
            },
            Gate::MulAdd { a, b, c, out } => {
                assert(known(witness@, self.inputs()[0]) && known(witness@, self.inputs()[1])
                    && known(witness@, self.inputs()[2]));
                match (witness.get_target(a), witness.get_target(b), witness.get_target(c)) {
                    (Some(x), Some(y), Some(z)) => {
                        out_buffer.set_target(out, field_mul_add(x, y, z, p));
                    },
                    _ => {},
                }
                assert(out_buffer@ =~= old(out_buffer)@ + expected);
            },
            Gate::Equal { .. } => {
                assert(out_buffer@ =~= old(out_buffer)@ + expected);
            },
            Gate::Bits { x, first, count } => {
                assert(known(witness@, self.inputs()[0]));
                match witness.get_target(x) {
                    Some(value) => {
                        let mut rest: u64 = value;
                        let mut j: usize = 0;
                        proof {
                            lemma2_to64();
                        }
                        while j < count
                            invariant
                                j <= count,
                                first + count <= usize::MAX,
                                rest == value as int / (pow2(j as nat) as int),
                                expected.len() == count,
                                forall|k: int|
                                    0 <= k < count ==> #[trigger] expected[k] == (
                                        Target { index: (first + k) as usize },
                                        bit_of(value as int, k as nat) as u64,
                                    ),
                                out_buffer@ == old(out_buffer)@ + expected.take(j as int),
                            decreases count - j,
                        {
                            let digit: u64 = rest % 2;
                            out_buffer.set_target(Target { index: first + j }, digit);
                            proof {
                                assert(out_buffer@ =~= old(out_buffer)@ + expected.take(j + 1));
                                lemma_pow2_pos(j as nat);
                                lemma_pow2_unfold((j + 1) as nat);
                                lemma_div_denominator(value as int, pow2(j as nat) as int, 2);
                            }
                            rest = rest / 2;
                            j = j + 1;
                        }
                        assert(expected.take(count as int) =~= expected);
                    },
                    None => {},
                }
            },
        }
    }
}

} // verus!
