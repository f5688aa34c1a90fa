//! Packing a match flag, an index and a value into one sortable field
//! element, and unpacking it again.

use crate::bits::{all_boolean, bits_value, lemma_bits_value_bound, lemma_bits_value_split};
use crate::circuit_builder::CircuitBuilder;
use crate::error::CircuitError;
use crate::field::{add_mod, power_of_two, width_fits};
use crate::gate::Gate;
use crate::target::{value_of, wire_range, Target};
use vstd::arithmetic::div_mod::*;
use vstd::arithmetic::mul::*;
use vstd::arithmetic::power2::*;
use vstd::prelude::*;

verus! {

/// The widths of the value and of the index of a packed key. The flag
/// takes one more bit, above both.
#[derive(Clone, Copy, Debug, PartialEq, Eq, Structural)]
pub struct KeyWidths {
    pub value_bits: usize,
    pub index_bits: usize,
}

impl KeyWidths {
    /// The number of bits of a packed key.
    pub open spec fn total_bits(self) -> nat {
        (self.value_bits + self.index_bits + 1) as nat
    }

    /// Every packed key of these widths is a field element modulo `p`.
    pub open spec fn fits(self, p: int) -> bool {
        pow2(self.total_bits()) <= p
    }

    /// The position of the flag's bit.
    pub open spec fn flag_shift(self) -> nat {
        (self.value_bits + self.index_bits) as nat
    }
}

/// The key that packs `flag`, `index` and `value`: the value in the low
/// bits, the index above it, and the flag on top.
pub open spec fn pack(flag: int, index: int, value: int, widths: KeyWidths) -> int {
    value + index * pow2(widths.value_bits as nat) + flag * pow2(widths.flag_shift())
}

/// The flag of a packed key: its top bit.
pub open spec fn packed_flag(key: int, widths: KeyWidths) -> int {
    key / (pow2(widths.flag_shift()) as int)
}

/// The index of a packed key: the bits between the value and the flag.
pub open spec fn packed_index(key: int, widths: KeyWidths) -> int {
    (key / (pow2(widths.value_bits as nat) as int)) % (pow2(widths.index_bits as nat) as int)
}

/// The value of a packed key: its low bits.
pub open spec fn packed_value(key: int, widths: KeyWidths) -> int {
    key % (pow2(widths.value_bits as nat) as int)
}

/// The components of a key are valid: the flag is zero or one, and the
/// index and the value are below their widths.
pub open spec fn valid_components(flag: int, index: int, value: int, widths: KeyWidths) -> bool {
    &&& 0 <= flag <= 1
    &&& 0 <= index < pow2(widths.index_bits as nat)
    &&& 0 <= value < pow2(widths.value_bits as nat)
}

/// A value below `pv` plus `pv` times an index below `pi` is below
/// `pv * pi`.
proof fn lemma_packed_middle_bound(index: int, value: int, pv: int, pi: int)
    requires
        0 <= value < pv,
        0 <= index < pi,
    ensures
        0 <= value + index * pv < pv * pi,
{
    assert(index * pv <= (pi - 1) * pv) by (nonlinear_arith)
        requires
            0 <= index <= pi - 1,
            pv > 0,
    ;
    assert((pi - 1) * pv == pv * pi - pv) by (nonlinear_arith);
    assert(index * pv >= 0) by (nonlinear_arith)
        requires
            index >= 0,
            pv > 0,
    ;
}

/// Unpacking a packed key gives back its components: for every valid
/// flag, index and value, the key is below `2^total_bits`, and its flag,
/// its index and its value are the ones packed.
pub proof fn lemma_pack_round_trip(flag: int, index: int, value: int, widths: KeyWidths)
    requires
        valid_components(flag, index, value, widths),
    ensures
        0 <= pack(flag, index, value, widths) < pow2(widths.total_bits()),
        packed_flag(pack(flag, index, value, widths), widths) == flag,
        packed_index(pack(flag, index, value, widths), widths) == index,
        packed_value(pack(flag, index, value, widths), widths) == value,
{
    let v = widths.value_bits as nat;
    let i = widths.index_bits as nat;
    let pv = pow2(v) as int;
    let pi = pow2(i) as int;
    let ps = pow2(widths.flag_shift()) as int;
    let key = pack(flag, index, value, widths);
    lemma_pow2_pos(v);
    lemma_pow2_pos(i);
    lemma_pow2_adds(v, i);
    lemma_pow2_unfold(widths.total_bits());
    assert(ps == pv * pi);
    let middle = value + index * pv;
    lemma_packed_middle_bound(index, value, pv, pi);
    assert(0 <= flag * ps <= ps) by (nonlinear_arith)
        requires
            0 <= flag <= 1,
            ps > 0,
    ;
    // the flag
    assert(key == ps * flag + middle) by (nonlinear_arith)
        requires
            key == middle + flag * ps,
    ;
    lemma_fundamental_div_mod_converse(key, ps, flag, middle);
    // the value
    let upper = index + flag * pi;
    assert(key == pv * upper + value) by (nonlinear_arith)
        requires
            key == value + index * pv + flag * ps,
            ps == pv * pi,
            upper == index + flag * pi,
    ;
    assert(upper >= 0) by (nonlinear_arith)
        requires
            upper == index + flag * pi,
            index >= 0,
            flag >= 0,
            pi > 0,
    ;
    lemma_fundamental_div_mod_converse(key, pv, upper, value);
    // the index
    assert(upper == pi * flag + index) by (nonlinear_arith)
        requires
            upper == index + flag * pi,
    ;
    lemma_fundamental_div_mod_converse(upper, pi, flag, index);
}

/// A key with its flag set ranks above every key with its flag clear,
/// whatever their indices and values: a descending sort puts the
/// flagged keys first.
pub proof fn lemma_flag_decides_order(
    index1: int,
    value1: int,
    index0: int,
    value0: int,
    widths: KeyWidths,
)
    requires
        valid_components(1, index1, value1, widths),
        valid_components(0, index0, value0, widths),
    ensures
        pack(1, index1, value1, widths) > pack(0, index0, value0, widths),
{
    let v = widths.value_bits as nat;
    let i = widths.index_bits as nat;
    let pv = pow2(v) as int;
    let pi = pow2(i) as int;
    let ps = pow2(widths.flag_shift()) as int;
    lemma_pow2_pos(v);
    lemma_pow2_adds(v, i);
    lemma_pow2_pos(i);
    lemma_packed_middle_bound(index0, value0, pv, pi);
    assert(index1 * pv >= 0) by (nonlinear_arith)
        requires
            index1 >= 0,
            pv > 0,
    ;
    assert(1 * ps == ps && 0 * ps == 0) by (nonlinear_arith);
}

/// A width whose power of two fits a word is below the word size.
proof fn lemma_fitting_width_is_small(bits: nat, p: int)
    requires
        pow2(bits) <= p <= u64::MAX,
    ensures
        bits < 64,
{
    lemma2_to64();
    if bits >= 64 {
        if bits > 64 {
            lemma_pow2_strictly_increases(64, bits);
        }
    }
}

impl KeyWidths {
    /// Tells whether every packed key of these widths is a field element
    /// modulo `p`.
    pub fn check_fits(&self, p: u64) -> (r: bool)
        ensures
            r == self.fits(p as int),
            r ==> self.total_bits() < 64,
    {
        if self.value_bits >= 64 || self.index_bits >= 64 {
            proof {
                lemma2_to64();
                lemma_pow2_strictly_increases(64, self.total_bits());
            }
            return false;
        }
        let total: usize = self.value_bits + self.index_bits + 1;
        let r = width_fits(total, p);
        proof {
            if r {
                lemma_fitting_width_is_small(self.total_bits(), p as int);
            }
        }
        r
    }
}

/// The wires an encoding adds from `base` on, under the assignment `w`:
/// the constant `2^value_bits`, the index shifted by it plus the value,
/// the constant `2^(value_bits + index_bits)`, and the flag shifted by
/// it plus the rest.
pub open spec fn encode_trace(
    w: Seq<u64>,
    flag: Target,
    index: Target,
    value: Target,
    widths: KeyWidths,
    base: int,
    p: int,
) -> bool {
    &&& w[base] == pow2(widths.value_bits as nat)
    &&& w[base + 1] == add_mod(value_of(w, index) * w[base], value_of(w, value), p)
    &&& w[base + 2] == pow2(widths.flag_shift())
    &&& w[base + 3] == add_mod(value_of(w, flag) * w[base + 2], w[base + 1] as int, p)
}

/// An encoding's trace forces the packed wire to hold the packed key of
/// the three components, reduced into the field.
pub proof fn lemma_encode_trace_sound(
    w: Seq<u64>,
    flag: Target,
    index: Target,
    value: Target,
    widths: KeyWidths,
    base: int,
    p: int,
)
    requires
        p > 0,
        encode_trace(w, flag, index, value, widths, base, p),
    ensures
        w[base + 3] as int == pack(value_of(w, flag), value_of(w, index), value_of(w, value), widths) % p,
{
    let shifted_flag = value_of(w, flag) * pow2(widths.flag_shift());
    let middle = value_of(w, index) * pow2(widths.value_bits as nat) + value_of(w, value);
    lemma_add_mod_noop_right(shifted_flag, middle, p);
}

impl CircuitBuilder {
    /// A wire that holds the key packing `flag`, `index` and `value`:
    /// `value + index * 2^value_bits + flag * 2^(value_bits + index_bits)`.
    ///
    /// The components are not range-checked here: the key unpacks to them
    /// only if the flag is a bit and the index and the value are below
    /// their widths.
    pub fn encode(&mut self, flag: Target, index: Target, value: Target, widths: KeyWidths) -> (r:
        Result<Target, CircuitError>)
        requires
            old(self)@.wf(),
            old(self)@.num_wires() + 4 <= usize::MAX,
        ensures
            match r {
                Ok(packed) => {
                    let base = old(self)@.num_wires();
                    &&& widths.fits(old(self)@.modulus)
                    &&& old(self)@.has(flag) && old(self)@.has(index) && old(self)@.has(value)
                    &&& packed.index == base + 3
                    &&& final(self)@.wf()
                    &&& old(self)@.adds_gates_only(final(self)@)
                    &&& final(self)@.num_wires() == base + 4
                    &&& forall|w: Seq<u64>| #[trigger]
                        final(self)@.gates_hold(w) <==> old(self)@.gates_hold(w) && encode_trace(
                            w,
                            flag,
                            index,
                            value,
                            widths,
                            base,
                            old(self)@.modulus,
                        )
                    &&& forall|w: Seq<u64>| #[trigger]
                        final(self)@.gates_hold(w) ==> value_of(w, packed) == pack(
                            value_of(w, flag),
                            value_of(w, index),
                            value_of(w, value),
                            widths,
                        ) % old(self)@.modulus
                },
                Err(e) => {
                    &&& final(self)@ == old(self)@
                    &&& e == CircuitError::WidthExceedsCapacity || e == CircuitError::UnknownWire
                    &&& e == CircuitError::WidthExceedsCapacity <==> !widths.fits(old(self)@.modulus)
                    &&& e == CircuitError::UnknownWire ==> !(old(self)@.has(flag) && old(self)@.has(
                        index,
                    ) && old(self)@.has(value))
                },
            },
    {
        if !widths.check_fits(self.modulus()) {
            return Err(CircuitError::WidthExceedsCapacity);
        }
        if !self.is_allocated(flag) || !self.is_allocated(index) || !self.is_allocated(value) {
            return Err(CircuitError::UnknownWire);
        }
        let ghost base = self@.num_wires();
        let ghost p = self@.modulus;
        proof {
            lemma_pow2_strictly_increases(widths.value_bits as nat, widths.total_bits());
            lemma_pow2_strictly_increases(widths.flag_shift(), widths.total_bits());
            lemma_small_mod(pow2(widths.value_bits as nat), p as nat);
            lemma_small_mod(pow2(widths.flag_shift()), p as nat);
        }
        let shift_index = self.constant(power_of_two(widths.value_bits));
        let shifted_index_add_value = self.mul_add(index, shift_index, value);
        let shift_flag = self.constant(power_of_two(widths.value_bits + widths.index_bits));
        let packed = self.mul_add(flag, shift_flag, shifted_index_add_value);
        proof {
            assert forall|w: Seq<u64>| #[trigger] self@.gates_hold(w) implies value_of(w, packed) == pack(
                value_of(w, flag),
                value_of(w, index),
                value_of(w, value),
                widths,
            ) % p by {
                lemma_encode_trace_sound(w, flag, index, value, widths, base, p);
            }
        }
        Ok(packed)
    }
}

/// Step `j` of the recomposition of a key's low digits: the wire at
/// `sum + 1 + 2j` holds `2^j`, and the wire after it adds digit `j`
/// times that to the sum so far.
pub open spec fn recompose_step(w: Seq<u64>, digits: int, sum: int, p: int, j: int) -> bool {
    &&& w[sum + 1 + 2 * j] == pow2(j as nat)
    &&& w[sum + 2 + 2 * j] == add_mod(
        w[digits + j] * w[sum + 1 + 2 * j],
        w[sum + 2 * j] as int,
        p,
    )
}

/// The wires a decoding adds from `base` on, under the assignment `w`:
/// the binary digits of the key, then a sum that starts at zero and adds
/// the low `value_bits` digits, each times its power of two.
pub open spec fn decode_trace(w: Seq<u64>, packed: Target, widths: KeyWidths, base: int, p: int) -> bool {
    let total = widths.total_bits() as int;
    let digits = w.subrange(base, base + total);
    &&& all_boolean(digits)
    &&& value_of(w, packed) == bits_value(digits) % p
    &&& w[base + total] == 0
    &&& forall|j: int|
        0 <= j < widths.value_bits ==> #[trigger] recompose_step(w, base, base + total, p, j)
}

/// Under a decoding's trace, the sum after `j` steps is the number that
/// the low `j` digits denote.
proof fn lemma_recomposed_value(w: Seq<u64>, packed: Target, widths: KeyWidths, base: int, p: int, j: int)
    requires
        0 <= base,
        base + widths.total_bits() + 1 + 2 * widths.value_bits <= w.len(),
        widths.fits(p),
        decode_trace(w, packed, widths, base, p),
        0 <= j <= widths.value_bits,
    ensures
        w[base + widths.total_bits() + 2 * j] == bits_value(
            w.subrange(base, base + widths.total_bits()).take(j),
        ),
    decreases j,
{
    let total = widths.total_bits() as int;
    let digits = w.subrange(base, base + total);
    if j == 0 {
        assert(digits.take(0).len() == 0);
    } else {
        lemma_recomposed_value(w, packed, widths, base, p, j - 1);
        assert(recompose_step(w, base, base + total, p, j - 1));
        let low = digits.take(j);
        assert(low.drop_last() =~= digits.take(j - 1));
        assert(low.last() == w[base + j - 1]);
        assert(all_boolean(low)) by {
            assert forall|k: int| 0 <= k < low.len() implies #[trigger] low[k] <= 1 by {
                assert(digits[k] <= 1);
            }
        }
        lemma_bits_value_bound(low);
        lemma_pow2_strictly_increases(j as nat, widths.total_bits());
        lemma_small_mod(bits_value(low) as nat, p as nat);
        assert(w[base + j - 1] * pow2((j - 1) as nat) == low.last() * pow2((low.len() - 1) as nat));
    }
}

/// A decoding's trace forces its outputs: the key is below
/// `2^total_bits`, the flag wire holds its top bit, and the value wire
/// holds its low `value_bits` bits.
pub proof fn lemma_decode_trace_sound(w: Seq<u64>, packed: Target, widths: KeyWidths, base: int, p: int)
    requires
        0 <= base,
        base + widths.total_bits() + 1 + 2 * widths.value_bits <= w.len(),
        widths.fits(p),
        decode_trace(w, packed, widths, base, p),
    ensures
        value_of(w, packed) < pow2(widths.total_bits()),
        w[base + widths.flag_shift()] == packed_flag(value_of(w, packed), widths),
        w[base + widths.total_bits() + 2 * widths.value_bits] == packed_value(
            value_of(w, packed),
            widths,
        ),
{
    let total = widths.total_bits() as int;
    let shift = widths.flag_shift() as int;
    let v = widths.value_bits as int;
    let digits = w.subrange(base, base + total);
    let key = bits_value(digits);
    lemma_bits_value_bound(digits);
    lemma_small_mod(key as nat, p as nat);
    assert(value_of(w, packed) == key);
    // the flag is the top digit
    lemma_bits_value_split(digits, shift);
    let low = digits.take(shift);
    let top = digits.skip(shift);
    assert(all_boolean(low)) by {
        assert forall|k: int| 0 <= k < low.len() implies #[trigger] low[k] <= 1 by {
            assert(digits[k] <= 1);
        }
    }
    lemma_bits_value_bound(low);
    assert(top.len() == 1);
    assert(top.drop_last().len() == 0);
    assert(bits_value(top.drop_last()) == 0);
    lemma2_to64();
    assert(bits_value(top) == top[0] * pow2(0));
    assert(top[0] == w[base + shift]);
    let ps = pow2(shift as nat) as int;
    lemma_pow2_pos(shift as nat);
    lemma_fundamental_div_mod_converse(key, ps, w[base + shift] as int, bits_value(low));
    // the value is the number of the low digits
    lemma_bits_value_split(digits, v);
    let value_digits = digits.take(v);
    assert(all_boolean(value_digits)) by {
        assert forall|k: int| 0 <= k < value_digits.len() implies #[trigger] value_digits[k] <= 1 by {
            assert(digits[k] <= 1);
        }
    }
    lemma_bits_value_bound(value_digits);
    let rest = digits.skip(v);
    assert(all_boolean(rest)) by {
        assert forall|k: int| 0 <= k < rest.len() implies #[trigger] rest[k] <= 1 by {
            assert(digits[k + v] <= 1);
        }
    }
    lemma_bits_value_bound(rest);
    let pv = pow2(v as nat) as int;
    lemma_pow2_pos(v as nat);
    lemma_fundamental_div_mod_converse(key, pv, bits_value(rest), bits_value(value_digits));
    lemma_recomposed_value(w, packed, widths, base, p, v);
}

impl CircuitBuilder {
    /// Unpacks a key: returns a wire that holds its flag and a wire that
    /// holds its value.
    ///
    /// The key is decomposed into `total_bits` binary digits, which also
    /// constrains it below `2^total_bits`. The flag is the top digit; the
    /// value is recomposed from the low `value_bits` digits.
    pub fn decode(&mut self, packed: Target, widths: KeyWidths) -> (r: Result<
        (Target, Target),
        CircuitError,
    >)
        requires
            old(self)@.wf(),
            widths.fits(old(self)@.modulus) ==> old(self)@.num_wires() + widths.total_bits() + 1 + 2
                * widths.value_bits <= usize::MAX,
        ensures
            match r {
                Ok((flag, value)) => {
                    let base = old(self)@.num_wires();
                    &&& widths.fits(old(self)@.modulus)
                    &&& old(self)@.has(packed)
                    &&& flag.index == base + widths.flag_shift()
                    &&& value.index == base + widths.total_bits() + 2 * widths.value_bits
                    &&& final(self)@.wf()
                    &&& old(self)@.adds_gates_only(final(self)@)
                    &&& final(self)@.num_wires() == base + widths.total_bits() + 1 + 2
                        * widths.value_bits
                    &&& forall|w: Seq<u64>| #[trigger]
                        final(self)@.gates_hold(w) <==> old(self)@.gates_hold(w) && decode_trace(
                            w,
                            packed,
                            widths,
                            base,
                            old(self)@.modulus,
                        )
                    &&& forall|w: Seq<u64>|
                        #[trigger] final(self)@.gates_hold(w) && w.len() >= final(self)@.num_wires()
                            ==> {
                            &&& value_of(w, packed) < pow2(widths.total_bits())
                            &&& value_of(w, flag) == packed_flag(value_of(w, packed), widths)
                            &&& value_of(w, value) == packed_value(value_of(w, packed), widths)
                        }
                },
                Err(e) => {
                    &&& final(self)@ == old(self)@
                    &&& e == CircuitError::WidthExceedsCapacity || e == CircuitError::UnknownWire
                    &&& e == CircuitError::WidthExceedsCapacity <==> !widths.fits(old(self)@.modulus)
                    &&& e == CircuitError::UnknownWire ==> !old(self)@.has(packed)
                },
            },
    {
        if !widths.check_fits(self.modulus()) {
            return Err(CircuitError::WidthExceedsCapacity);
        }
        if !self.is_allocated(packed) {
            return Err(CircuitError::UnknownWire);
        }
        let ghost base = self@.num_wires();
        let ghost p = self@.modulus;
        let total: usize = widths.value_bits + widths.index_bits + 1;
        let digits = self.split_le(packed, total);
        let ghost split = self@;
        let flag = digits[total - 1];
        let mut sum = self.zero();
        let mut j: usize = 0;
        while j < widths.value_bits
            invariant
                j <= widths.value_bits,
                total == widths.total_bits(),
                total < 64,
                widths.fits(p),
                base == old(self)@.num_wires(),
                p == old(self)@.modulus,
                base + total + 1 + 2 * widths.value_bits <= usize::MAX,
                digits@ == wire_range(base, total as nat),
                self@.wf(),
                old(self)@.adds_gates_only(self@),
                self@.num_wires() == base + total + 1 + 2 * j,
                sum.index == base + total + 2 * j,
                forall|w: Seq<u64>| #[trigger]
                    self@.gates_hold(w) <==> split.gates_hold(w) && w[base + total] == 0 && forall|k: int|
                        0 <= k < j ==> #[trigger] recompose_step(w, base, base + total, p, k),
            decreases widths.value_bits - j,
        {
            let ghost before = self@;
            proof {
                lemma_pow2_strictly_increases(j as nat, widths.total_bits());
                lemma_small_mod(pow2(j as nat), p as nat);
            }
            let weight = self.constant(power_of_two(j));
            assert(digits@[j as int].index == base + j);
            let next = self.mul_add(digits[j], weight, sum);
            proof {
                assert forall|w: Seq<u64>| #[trigger]
                    self@.gates_hold(w) <==> split.gates_hold(w) && w[base + total] == 0 && forall|k: int|
                        0 <= k < j + 1 ==> #[trigger] recompose_step(w, base, base + total, p, k) by {
                    assert(self@.gates_hold(w) <==> before.gates_hold(w) && recompose_step(
                        w,
                        base,
                        base + total,
                        p,
                        j as int,
                    ));
                    if forall|k: int|
                        0 <= k < j + 1 ==> #[trigger] recompose_step(w, base, base + total, p, k) {
                        assert(recompose_step(w, base, base + total, p, j as int));
                    }
                }
            }
            sum = next;
            j = j + 1;
        }
        proof {
            assert forall|w: Seq<u64>| #[trigger]
                self@.gates_hold(w) <==> old(self)@.gates_hold(w) && decode_trace(w, packed, widths, base, p) by {
                assert(split.gates_hold(w) <==> old(self)@.gates_hold(w) && (Gate::Bits {
                    x: packed,
                    first: base as usize,
                    count: total,
                }).holds(p, w));
            }
            assert forall|w: Seq<u64>|
                #[trigger] self@.gates_hold(w) && w.len() >= self@.num_wires() implies {
                &&& value_of(w, packed) < pow2(widths.total_bits())
                &&& value_of(w, flag) == packed_flag(value_of(w, packed), widths)
                &&& value_of(w, sum) == packed_value(value_of(w, packed), widths)
            } by {
                lemma_decode_trace_sound(w, packed, widths, base, p);
            }
        }
        Ok((flag, sum))
    }
}

/// Decoding an encoded key gives back the flag and the value that were
/// encoded: whenever an encoding of valid components and a decoding of
/// its result both hold, the decoded flag and value wires hold the
/// values of the encoded flag and value wires. The index is not needed
/// again.
pub proof fn lemma_decode_inverts_encode(
    w: Seq<u64>,
    flag: Target,
    index: Target,
    value: Target,
    widths: KeyWidths,
    encoded_at: int,
    decoded_at: int,
    p: int,
)
    requires
        widths.fits(p),
        0 <= encoded_at <= usize::MAX - 3,
        0 <= decoded_at,
        decoded_at + widths.total_bits() + 1 + 2 * widths.value_bits <= w.len(),
        valid_components(value_of(w, flag), value_of(w, index), value_of(w, value), widths),
        encode_trace(w, flag, index, value, widths, encoded_at, p),
        decode_trace(w, Target { index: (encoded_at + 3) as usize }, widths, decoded_at, p),
    ensures
        w[decoded_at + widths.flag_shift()] == value_of(w, flag),
        w[decoded_at + widths.total_bits() + 2 * widths.value_bits] == value_of(w, value),
{
    let packed = Target { index: (encoded_at + 3) as usize };
    let key = pack(value_of(w, flag), value_of(w, index), value_of(w, value), widths);
    lemma_pow2_pos(widths.total_bits());
    lemma_encode_trace_sound(w, flag, index, value, widths, encoded_at, p);
    lemma_pack_round_trip(value_of(w, flag), value_of(w, index), value_of(w, value), widths);
    lemma_small_mod(key as nat, p as nat);
    lemma_decode_trace_sound(w, packed, widths, decoded_at, p);
}

} // verus!
