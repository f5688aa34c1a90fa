//! The constraints of the gadgets can be met: whenever the relation that
//! a gadget asserts holds of the values on its input wires, the wires it
//! adds can be given values under which its trace holds.
//!
//! Each lemma names those values, as a block to append to an assignment of
//! the wires that came before.

use crate::bits::{bit_of, lemma_low_bits_value, low_bits};
use crate::field::{
    add_mod, has_inverse, inverse_or_zero, is_prime, lemma_prime_has_inverses, mul_mod, sub_mod,
};
use crate::fingerprint::{
    as_ints, eval_product, lemma_eval_product_permutation, lemma_eval_product_step,
};
use crate::gadgets::insert::{equal_test_trace, zero_flag, zero_test_trace};
use crate::gadgets::packed_key::{decode_trace, encode_trace, recompose_step, KeyWidths};
use crate::gadgets::permutation_check::{
    all_fit, lemma_sorted_values_accepted, adjacent_relation, leq_relation, leq_trace, order_step, order_trace, order_trace_upto, order_wires,
    permutation_relation, permutation_trace, product_step, product_trace, sorted_trace,
};
use crate::sorting::{descending_sort, lemma_descending_sort};
use crate::target::{all_below, in_field, value_of, values_of, wire_range, Target};
use vstd::arithmetic::div_mod::*;
use vstd::arithmetic::power2::*;
use vstd::prelude::*;

verus! {

/// The values of the wires an order assertion adds: the difference, then
/// its binary digits.
pub open spec fn leq_block(w: Seq<u64>, smaller: Target, larger: Target, bits: nat, p: int) -> Seq<u64> {
    let difference = sub_mod(value_of(w, larger), value_of(w, smaller), p);
    seq![difference as u64] + low_bits(difference, bits)
}

/// An order assertion can be met whenever its relation holds: appending
/// the difference and its digits to an assignment of the earlier wires
/// gives an assignment under which the assertion's trace holds.
pub proof fn lemma_leq_satisfiable(w: Seq<u64>, smaller: Target, larger: Target, bits: nat, p: int)
    requires
        2 <= p <= u64::MAX,
        smaller.index < w.len(),
        larger.index < w.len(),
        leq_relation(value_of(w, smaller), value_of(w, larger), bits, p),
    ensures
        leq_block(w, smaller, larger, bits, p).len() == 1 + bits,
        leq_trace(w + leq_block(w, smaller, larger, bits, p), smaller, larger, bits, w.len() as int, p),
        in_field(w, p) ==> in_field(w + leq_block(w, smaller, larger, bits, p), p),
{
    let base = w.len() as int;
    let difference = sub_mod(value_of(w, larger), value_of(w, smaller), p);
    let block = leq_block(w, smaller, larger, bits, p);
    let next = w + block;
    lemma_mod_bound(value_of(w, larger) - value_of(w, smaller), p);
    lemma_low_bits_value(difference, bits);
    lemma_small_mod(difference as nat, p as nat);
    assert(next.subrange(base + 1, base + 1 + bits) =~= low_bits(difference, bits));
    assert(next[base] == difference);
    if in_field(w, p) {
        assert forall|t: int| 0 <= t < next.len() implies #[trigger] next[t] < p by {
            if t < base {
                assert(next[t] == w[t]);
            } else if t > base {
                assert(next[t] == low_bits(difference, bits)[t - base - 1]);
            }
        }
    }
}

/// An order assertion's trace speaks only of the wires up to its last:
/// it holds under every longer assignment that agrees on them.
pub proof fn lemma_leq_trace_stable(
    w: Seq<u64>,
    longer: Seq<u64>,
    smaller: Target,
    larger: Target,
    bits: nat,
    base: int,
    p: int,
)
    requires
        w.is_prefix_of(longer),
        0 <= base,
        base + 1 + bits <= w.len(),
        smaller.index < w.len(),
        larger.index < w.len(),
        leq_trace(w, smaller, larger, bits, base, p),
    ensures
        leq_trace(longer, smaller, larger, bits, base, p),
{
    assert(longer.subrange(base + 1, base + 1 + bits) =~= w.subrange(base + 1, base + 1 + bits));
}

/// The values of the wires that the first `upto - 1` order assertions of
/// a sorted check add, one block after another.
pub open spec fn order_blocks(w: Seq<u64>, sorted: Seq<Target>, bits: nat, p: int, upto: int) -> Seq<u64>
    decreases upto,
{
    if upto <= 1 {
        Seq::empty()
    } else {
        order_blocks(w, sorted, bits, p, upto - 1) + leq_block(
            w,
            sorted[upto - 1],
            sorted[upto - 2],
            bits,
            p,
        )
    }
}

/// The order assertions of a sorted check can be met whenever each
/// adjacent pair is in the asserted relation.
pub proof fn lemma_order_satisfiable(w: Seq<u64>, sorted: Seq<Target>, bits: nat, p: int, upto: int)
    requires
        2 <= p <= u64::MAX,
        all_below(sorted, w.len() as int),
        adjacent_relation(values_of(w, sorted), bits, p),
        0 <= upto <= sorted.len(),
    ensures
        order_blocks(w, sorted, bits, p, upto).len() == order_wires(upto as nat, bits),
        order_trace_upto(
            w + order_blocks(w, sorted, bits, p, upto),
            sorted,
            bits,
            w.len() as int,
            p,
            upto,
        ),
        in_field(w, p) ==> in_field(w + order_blocks(w, sorted, bits, p, upto), p),
    decreases upto,
{
    let base = w.len() as int;
    let c = 1 + bits as int;
    if upto <= 1 {
        assert(w + order_blocks(w, sorted, bits, p, upto) =~= w);
        if upto == 1 {
            assert(0 * c == 0) by (nonlinear_arith);
        }
    } else {
        let i = upto - 1;
        lemma_order_satisfiable(w, sorted, bits, p, i);
        let prev = w + order_blocks(w, sorted, bits, p, i);
        let smaller = sorted[i];
        let larger = sorted[i - 1];
        let vals = values_of(w, sorted);
        assert(leq_relation(vals[i], vals[i - 1], bits, p));
        assert(value_of(prev, smaller) == value_of(w, smaller));
        assert(value_of(prev, larger) == value_of(w, larger));
        let block = leq_block(w, smaller, larger, bits, p);
        assert(leq_block(prev, smaller, larger, bits, p) == block);
        lemma_leq_satisfiable(prev, smaller, larger, bits, p);
        let next = prev + block;
        assert(next =~= w + order_blocks(w, sorted, bits, p, upto));
        assert((i - 1) * c + c == i * c) by (nonlinear_arith);
        assert(prev.len() == base + (i - 1) * c);
        assert forall|k: int| 1 <= k < upto implies #[trigger] order_step(next, sorted, bits, base, p, k) by {
            if k < i {
                assert(order_step(prev, sorted, bits, base, p, k));
                assert((k - 1) * c + c <= (i - 1) * c) by (nonlinear_arith)
                    requires
                        1 <= k <= i - 1,
                        c >= 0,
                ;
                assert((k - 1) * c >= 0) by (nonlinear_arith)
                    requires
                        1 <= k,
                        c >= 0,
                ;
                lemma_leq_trace_stable(
                    prev,
                    next,
                    sorted[k],
                    sorted[k - 1],
                    bits,
                    base + (k - 1) * c,
                    p,
                );
            }
        }
    }
}

/// The value of wire `j` of a running product over `vals`: the products
/// so far at the even wires, the factors at the odd ones.
pub open spec fn product_wire(vals: Seq<int>, alpha: int, p: int, j: int) -> u64 {
    if j % 2 == 0 {
        eval_product(vals.take(j / 2), alpha, p) as u64
    } else {
        sub_mod(vals[(j - 1) / 2], alpha, p) as u64
    }
}

/// The values of the wires a running product over `vals` adds.
pub open spec fn product_block(vals: Seq<int>, alpha: int, p: int) -> Seq<u64> {
    Seq::new(1 + 2 * vals.len(), |j: int| product_wire(vals, alpha, p, j))
}

/// A running product can always be met, and its last wire then holds
/// the fingerprint of the values.
pub proof fn lemma_product_satisfiable(w: Seq<u64>, xs: Seq<Target>, alpha: Target, p: int)
    requires
        2 <= p <= u64::MAX,
        all_below(xs, w.len() as int),
        alpha.index < w.len(),
    ensures
        product_trace(
            w + product_block(values_of(w, xs), value_of(w, alpha), p),
            xs,
            alpha,
            w.len() as int,
            p,
        ),
        (w + product_block(values_of(w, xs), value_of(w, alpha), p))[(w.len() + 2 * xs.len()) as int]
            == eval_product(values_of(w, xs), value_of(w, alpha), p),
        in_field(w, p) ==> in_field(w + product_block(values_of(w, xs), value_of(w, alpha), p), p),
{
    let base = w.len() as int;
    let vals = values_of(w, xs);
    let a = value_of(w, alpha);
    let block = product_block(vals, a, p);
    let next = w + block;
    assert(vals.take(0).len() == 0);
    lemma_small_mod(1, p as nat);
    assert(next[base] == block[0]);
    assert forall|j: int| 0 <= j < block.len() implies 0 <= #[trigger] block[j] < p by {
        if j % 2 == 0 {
            lemma_mod_bound(crate::fingerprint::poly_product(vals.take(j / 2), a), p);
        } else {
            lemma_mod_bound(vals[(j - 1) / 2] - a, p);
        }
    }
    assert forall|i: int| 0 <= i < xs.len() implies #[trigger] product_step(next, xs, alpha, base, p, i) by {
        assert(next[base + 1 + 2 * i] == block[1 + 2 * i]);
        assert(next[base + 2 + 2 * i] == block[2 + 2 * i]);
        assert(next[base + 2 * i] == block[2 * i]);
        assert(value_of(next, xs[i]) == vals[i]);
        assert(value_of(next, alpha) == a);
        lemma_mod_bound(vals[i] - a, p);
        lemma_mod_bound(crate::fingerprint::poly_product(vals.take(i), a), p);
        lemma_mod_bound(crate::fingerprint::poly_product(vals.take(i + 1), a), p);
        lemma_eval_product_step(vals.take(i), vals[i], a, p);
        assert(vals.take(i).push(vals[i]) =~= vals.take(i + 1));
    }
    assert(vals.take(vals.len() as int) =~= vals);
    assert(next[base + 2 * xs.len()] == block[2 * xs.len() as int]);
    lemma_mod_bound(crate::fingerprint::poly_product(vals, a), p);
    if in_field(w, p) {
        assert forall|t: int| 0 <= t < next.len() implies #[trigger] next[t] < p by {
            if t < base {
                assert(next[t] == w[t]);
            } else {
                assert(next[t] == block[t - base]);
            }
        }
    }
}

/// A running product's trace speaks only of the wires up to its last.
pub proof fn lemma_product_trace_stable(
    w: Seq<u64>,
    longer: Seq<u64>,
    xs: Seq<Target>,
    alpha: Target,
    base: int,
    p: int,
)
    requires
        w.is_prefix_of(longer),
        0 <= base,
        base + 1 + 2 * xs.len() <= w.len(),
        all_below(xs, w.len() as int),
        alpha.index < w.len(),
        product_trace(w, xs, alpha, base, p),
    ensures
        product_trace(longer, xs, alpha, base, p),
{
    assert forall|i: int| 0 <= i < xs.len() implies #[trigger] product_step(longer, xs, alpha, base, p, i) by {
        assert(product_step(w, xs, alpha, base, p, i));
    }
}

/// The values of the wires a permutation check adds: the challenge, then
/// the two running products.
pub open spec fn permutation_block(w: Seq<u64>, a: Seq<Target>, b: Seq<Target>, alpha: u64, p: int) -> Seq<
    u64,
> {
    seq![alpha] + product_block(values_of(w, a), alpha as int, p) + product_block(
        values_of(w, b),
        alpha as int,
        p,
    )
}

/// A permutation check can be met, at a given challenge, whenever the
/// fingerprints of the two sequences agree there. For sequences that are
/// rearrangements of each other that is at every challenge.
pub proof fn lemma_permutation_satisfiable(w: Seq<u64>, a: Seq<Target>, b: Seq<Target>, alpha: u64, p: int)
    requires
        2 <= p <= u64::MAX,
        alpha < p,
        w.len() <= usize::MAX,
        all_below(a, w.len() as int),
        all_below(b, w.len() as int),
        permutation_relation(values_of(w, a), values_of(w, b), alpha as int, p),
    ensures
        permutation_block(w, a, b, alpha, p).len() == 3 + 2 * a.len() + 2 * b.len(),
        (w + permutation_block(w, a, b, alpha, p))[w.len() as int] == alpha,
        permutation_trace(w + permutation_block(w, a, b, alpha, p), a, b, w.len() as int, p),
        in_field(w, p) ==> in_field(w + permutation_block(w, a, b, alpha, p), p),
{
    let base = w.len() as int;
    let wire = Target { index: base as usize };
    let drawn = w + seq![alpha];
    assert(values_of(drawn, a) =~= values_of(w, a));
    assert(values_of(drawn, b) =~= values_of(w, b));
    assert(value_of(drawn, wire) == alpha);
    lemma_product_satisfiable(drawn, a, wire, p);
    let first = drawn + product_block(values_of(w, a), alpha as int, p);
    assert(values_of(first, b) =~= values_of(w, b));
    assert(value_of(first, wire) == alpha);
    lemma_product_satisfiable(first, b, wire, p);
    let second = first + product_block(values_of(w, b), alpha as int, p);
    assert(second =~= w + permutation_block(w, a, b, alpha, p));
    lemma_product_trace_stable(first, second, a, wire, base + 1, p);
    assert(second[base + 1 + 2 * a.len()] == first[base + 1 + 2 * a.len()]);
    if in_field(w, p) {
        assert(in_field(drawn, p)) by {
            assert forall|t: int| 0 <= t < drawn.len() implies #[trigger] drawn[t] < p by {
                if t < base {
                    assert(drawn[t] == w[t]);
                }
            }
        }
    }
}

/// A permutation check of two sequences that hold rearrangements of the
/// same values can be met at every challenge, whatever the values are.
pub proof fn lemma_rearrangement_accepted(w: Seq<u64>, a: Seq<Target>, b: Seq<Target>, alpha: u64, p: int)
    requires
        2 <= p <= u64::MAX,
        alpha < p,
        w.len() <= usize::MAX,
        all_below(a, w.len() as int),
        all_below(b, w.len() as int),
        values_of(w, a).to_multiset() == values_of(w, b).to_multiset(),
    ensures
        (w + permutation_block(w, a, b, alpha, p))[w.len() as int] == alpha,
        permutation_trace(w + permutation_block(w, a, b, alpha, p), a, b, w.len() as int, p),
        in_field(w, p) ==> in_field(w + permutation_block(w, a, b, alpha, p), p),
{
    lemma_eval_product_permutation(values_of(w, a), values_of(w, b), alpha as int, p);
    lemma_permutation_satisfiable(w, a, b, alpha, p);
}

/// The order assertions' trace speaks only of the wires up to its last.
pub proof fn lemma_order_trace_stable(
    w: Seq<u64>,
    longer: Seq<u64>,
    sorted: Seq<Target>,
    bits: nat,
    base: int,
    p: int,
)
    requires
        w.is_prefix_of(longer),
        0 <= base,
        base + order_wires(sorted.len(), bits) <= w.len(),
        all_below(sorted, w.len() as int),
        order_trace(w, sorted, bits, base, p),
    ensures
        order_trace(longer, sorted, bits, base, p),
{
    let c = 1 + bits as int;
    let n = sorted.len() as int;
    assert forall|k: int| 1 <= k < sorted.len() implies #[trigger] order_step(
        longer,
        sorted,
        bits,
        base,
        p,
        k,
    ) by {
        assert(order_step(w, sorted, bits, base, p, k));
        assert((k - 1) * c + c <= (n - 1) * c) by (nonlinear_arith)
            requires
                1 <= k <= n - 1,
                c >= 0,
        ;
        assert((k - 1) * c >= 0) by (nonlinear_arith)
            requires
                1 <= k,
                c >= 0,
        ;
        lemma_leq_trace_stable(w, longer, sorted[k], sorted[k - 1], bits, base + (k - 1) * c, p);
    }
}

/// The values of the wires a sorted check adds: those of its order
/// assertions, then those of its permutation check.
pub open spec fn sorted_block(
    w: Seq<u64>,
    sorted: Seq<Target>,
    original: Seq<Target>,
    bits: nat,
    alpha: u64,
    p: int,
) -> Seq<u64> {
    order_blocks(w, sorted, bits, p, sorted.len() as int) + permutation_block(
        w,
        sorted,
        original,
        alpha,
        p,
    )
}

/// A sorted check can be met, at a given challenge, whenever each
/// adjacent pair of the claimed sequence is in the asserted relation and
/// the fingerprints of the two sequences agree at the challenge.
pub proof fn lemma_sorted_check_satisfiable(
    w: Seq<u64>,
    sorted: Seq<Target>,
    original: Seq<Target>,
    bits: nat,
    alpha: u64,
    p: int,
)
    requires
        2 <= p <= u64::MAX,
        alpha < p,
        w.len() + order_wires(sorted.len(), bits) <= usize::MAX,
        all_below(sorted, w.len() as int),
        all_below(original, w.len() as int),
        adjacent_relation(values_of(w, sorted), bits, p),
        permutation_relation(values_of(w, sorted), values_of(w, original), alpha as int, p),
    ensures
        sorted_block(w, sorted, original, bits, alpha, p).len() == order_wires(sorted.len(), bits)
            + 3 + 2 * sorted.len() + 2 * original.len(),
        sorted_trace(
            w + sorted_block(w, sorted, original, bits, alpha, p),
            sorted,
            original,
            bits,
            w.len() as int,
            p,
        ),
        in_field(w, p) ==> in_field(w + sorted_block(w, sorted, original, bits, alpha, p), p),
{
    let base = w.len() as int;
    let n = sorted.len() as int;
    lemma_order_satisfiable(w, sorted, bits, p, n);
    let ordered = w + order_blocks(w, sorted, bits, p, n);
    assert(order_trace(ordered, sorted, bits, base, p));
    assert(values_of(ordered, sorted) =~= values_of(w, sorted));
    assert(values_of(ordered, original) =~= values_of(w, original));
    lemma_permutation_satisfiable(ordered, sorted, original, alpha, p);
    let block = permutation_block(ordered, sorted, original, alpha, p);
    assert(block == permutation_block(w, sorted, original, alpha, p));
    let done = ordered + block;
    assert(done =~= w + sorted_block(w, sorted, original, bits, alpha, p));
    lemma_order_trace_stable(ordered, done, sorted, bits, base, p);
}

/// The field elements that the assignment `w` gives the wires `ts`.
pub open spec fn wire_values(w: Seq<u64>, ts: Seq<Target>) -> Seq<u64> {
    Seq::new(ts.len(), |i: int| w[ts[i].index as int])
}

/// The values of the wires a sort adds: the values of the original
/// sequence in descending order, then the wires of the sorted check on
/// them.
pub open spec fn sort_block(w: Seq<u64>, original: Seq<Target>, bits: nat, alpha: u64, p: int) -> Seq<u64> {
    let sorted_values = descending_sort(wire_values(w, original));
    sorted_values + sorted_block(
        w + sorted_values,
        wire_range(w.len() as int, original.len()),
        original,
        bits,
        alpha,
        p,
    )
}

/// A sort can be met, at every challenge, whatever values of at most
/// `bits` bits the original sequence holds, in a field that holds every
/// value of `bits + 1` bits: the fresh wires take the values in
/// descending order, which is what the sort's deferred computation
/// writes, and the wires of the sorted check follow.
pub proof fn lemma_sort_satisfiable(w: Seq<u64>, original: Seq<Target>, bits: nat, alpha: u64, p: int)
    requires
        2 <= p <= u64::MAX,
        alpha < p,
        2 * pow2(bits) <= p,
        w.len() + original.len() + order_wires(original.len(), bits) <= usize::MAX,
        all_below(original, w.len() as int),
        all_fit(values_of(w, original), bits),
    ensures
        sort_block(w, original, bits, alpha, p).len() == original.len() + order_wires(
            original.len(),
            bits,
        ) + 3 + 4 * original.len(),
        wire_values(
            w + sort_block(w, original, bits, alpha, p),
            wire_range(w.len() as int, original.len()),
        ) == descending_sort(wire_values(w, original)),
        sorted_trace(
            w + sort_block(w, original, bits, alpha, p),
            wire_range(w.len() as int, original.len()),
            original,
            bits,
            (w.len() + original.len()) as int,
            p,
        ),
        in_field(w, p) ==> in_field(w + sort_block(w, original, bits, alpha, p), p),
{
    let base = w.len() as int;
    let n = original.len();
    let values = wire_values(w, original);
    let sorted_values = descending_sort(values);
    let sorted = wire_range(base, n);
    let placed = w + sorted_values;
    lemma_descending_sort(values);
    assert(as_ints(values) =~= values_of(w, original));
    lemma_sorted_values_accepted(values, bits, alpha as int, p);
    assert(values_of(placed, sorted) =~= as_ints(sorted_values));
    assert(values_of(placed, original) =~= values_of(w, original));
    assert(all_below(sorted, placed.len() as int));
    lemma_sorted_check_satisfiable(placed, sorted, original, bits, alpha, p);
    let done = placed + sorted_block(placed, sorted, original, bits, alpha, p);
    assert(done =~= w + sort_block(w, original, bits, alpha, p));
    assert(wire_values(done, sorted) =~= sorted_values);
    if in_field(w, p) {
        assert(in_field(placed, p)) by {
            assert forall|t: int| 0 <= t < placed.len() implies #[trigger] placed[t] < p by {
                if t < base {
                    assert(placed[t] == w[t]);
                } else {
                    assert(as_ints(sorted_values)[t - base] < pow2(bits));
                }
            }
        }
    }
}

/// The values of the wires a zero test of `x` adds: the inverse of `x`
/// or zero, the flag, and the two products with the constants they are
/// constrained to.
pub open spec fn zero_test_block(w: Seq<u64>, x: Target, p: int) -> Seq<u64> {
    seq![
        inverse_or_zero(value_of(w, x), p) as u64,
        zero_flag(value_of(w, x)) as u64,
        1u64,
        1u64,
        0u64,
        0u64,
    ]
}

/// A zero test can be met whenever the tested value is zero or has an
/// inverse, which over a prime field is always: the wires take what the
/// test's deferred computation writes.
pub proof fn lemma_zero_test_satisfiable(w: Seq<u64>, x: Target, p: int)
    requires
        2 <= p <= u64::MAX,
        x.index < w.len(),
        value_of(w, x) < p,
        is_prime(p) || value_of(w, x) == 0 || has_inverse(value_of(w, x), p),
    ensures
        zero_test_trace(w + zero_test_block(w, x, p), x, w.len() as int, p),
        in_field(w, p) ==> in_field(w + zero_test_block(w, x, p), p),
{
    let base = w.len() as int;
    let value = value_of(w, x);
    let block = zero_test_block(w, x, p);
    let next = w + block;
    let inverse = inverse_or_zero(value, p);
    assert(next[base] == block[0] && next[base + 1] == block[1] && next[base + 2] == block[2]
        && next[base + 3] == block[3] && next[base + 4] == block[4] && next[base + 5] == block[5]);
    assert(value_of(next, x) == value);
    lemma_small_mod(1, p as nat);
    lemma_small_mod(0, p as nat);
    if value == 0 {
        assert(value * (block[0] as int) == 0) by (nonlinear_arith)
            requires
                value == 0,
        ;
        assert(value * 1 == 0);
    } else {
        if is_prime(p) {
            lemma_small_mod(value as nat, p as nat);
            lemma_prime_has_inverses(value, p);
        }
        assert(0 <= inverse < p && mul_mod(value, inverse, p) == 1);
        lemma_add_mod_noop(value * inverse, 0, p);
        assert(value * 0 == 0) by (nonlinear_arith);
    }
    if in_field(w, p) {
        assert forall|t: int| 0 <= t < next.len() implies #[trigger] next[t] < p by {
            if t < base {
                assert(next[t] == w[t]);
            } else {
                assert(next[t] == block[t - base]);
            }
        }
    }
}

/// The values of the wires an equality test adds: the difference, then
/// those of the zero test of it.
pub open spec fn equal_test_block(w: Seq<u64>, x: Target, y: Target, p: int) -> Seq<u64> {
    let difference = sub_mod(value_of(w, x), value_of(w, y), p) as u64;
    seq![difference] + zero_test_block(w + seq![difference], Target { index: w.len() as usize }, p)
}

/// Over a prime field, an equality test can always be met.
pub proof fn lemma_equal_test_satisfiable(w: Seq<u64>, x: Target, y: Target, p: int)
    requires
        is_prime(p),
        p <= u64::MAX,
        w.len() < usize::MAX,
        x.index < w.len(),
        y.index < w.len(),
    ensures
        equal_test_trace(w + equal_test_block(w, x, y, p), x, y, w.len() as int, p),
        in_field(w, p) ==> in_field(w + equal_test_block(w, x, y, p), p),
{
    let base = w.len() as int;
    let difference = sub_mod(value_of(w, x), value_of(w, y), p) as u64;
    lemma_mod_bound(value_of(w, x) - value_of(w, y), p);
    let subtracted = w + seq![difference];
    let wire = Target { index: base as usize };
    assert(value_of(subtracted, wire) == difference);
    lemma_zero_test_satisfiable(subtracted, wire, p);
    let next = subtracted + zero_test_block(subtracted, wire, p);
    assert(next =~= w + equal_test_block(w, x, y, p));
    assert(next[base] == difference);
    assert(value_of(next, x) == value_of(w, x));
    assert(value_of(next, y) == value_of(w, y));
    if in_field(w, p) {
        assert(in_field(subtracted, p)) by {
            assert forall|t: int| 0 <= t < subtracted.len() implies #[trigger] subtracted[t] < p by {
                if t < base {
                    assert(subtracted[t] == w[t]);
                }
            }
        }
    }
}

/// The values of the wires an encoding adds.
pub open spec fn encode_block(
    w: Seq<u64>,
    flag: Target,
    index: Target,
    value: Target,
    widths: KeyWidths,
    p: int,
) -> Seq<u64> {
    let low = pow2(widths.value_bits as nat) as int;
    let high = pow2(widths.flag_shift()) as int;
    let middle = add_mod(value_of(w, index) * low, value_of(w, value), p);
    seq![low as u64, middle as u64, high as u64, add_mod(value_of(w, flag) * high, middle, p) as u64]
}

/// An encoding can always be met.
pub proof fn lemma_encode_satisfiable(
    w: Seq<u64>,
    flag: Target,
    index: Target,
    value: Target,
    widths: KeyWidths,
    p: int,
)
    requires
        widths.fits(p),
        p <= u64::MAX,
        flag.index < w.len(),
        index.index < w.len(),
        value.index < w.len(),
    ensures
        encode_trace(
            w + encode_block(w, flag, index, value, widths, p),
            flag,
            index,
            value,
            widths,
            w.len() as int,
            p,
        ),
        in_field(w, p) ==> in_field(w + encode_block(w, flag, index, value, widths, p), p),
{
    let base = w.len() as int;
    let block = encode_block(w, flag, index, value, widths, p);
    let next = w + block;
    let low = pow2(widths.value_bits as nat) as int;
    let high = pow2(widths.flag_shift()) as int;
    lemma_pow2_pos(widths.total_bits());
    lemma_pow2_strictly_increases(widths.value_bits as nat, widths.total_bits());
    lemma_pow2_strictly_increases(widths.flag_shift(), widths.total_bits());
    let middle = add_mod(value_of(w, index) * low, value_of(w, value), p);
    lemma_mod_bound(value_of(w, index) * low + value_of(w, value), p);
    lemma_mod_bound(value_of(w, flag) * high + middle, p);
    assert(next[base] == block[0] && next[base + 1] == block[1] && next[base + 2] == block[2]
        && next[base + 3] == block[3]);
    assert(value_of(next, flag) == value_of(w, flag));
    assert(value_of(next, index) == value_of(w, index));
    assert(value_of(next, value) == value_of(w, value));
    if in_field(w, p) {
        assert forall|t: int| 0 <= t < next.len() implies #[trigger] next[t] < p by {
            if t < base {
                assert(next[t] == w[t]);
            } else {
                assert(next[t] == block[t - base]);
            }
        }
    }
}

/// The value of wire `t` of a decoding of the key `key`: its binary
/// digits, then the sum of its low digits so far at the even places and
/// the powers of two at the odd ones.
pub open spec fn decode_wire(key: int, widths: KeyWidths, t: int) -> u64 {
    let total = widths.total_bits() as int;
    if t < total {
        bit_of(key, t as nat) as u64
    } else if (t - total) % 2 == 0 {
        (key % (pow2(((t - total) / 2) as nat) as int)) as u64
    } else {
        pow2(((t - total - 1) / 2) as nat) as u64
    }
}

/// The values of the wires a decoding adds.
pub open spec fn decode_block(w: Seq<u64>, packed: Target, widths: KeyWidths) -> Seq<u64> {
    Seq::new(
        widths.total_bits() + 1 + 2 * widths.value_bits as nat,
        |t: int| decode_wire(value_of(w, packed), widths, t),
    )
}

/// The low `j` bits of a key, and `2^j` itself, are field elements when
/// every key of `total` bits is.
proof fn lemma_low_part_in_field(key: int, j: nat, total: nat, p: int)
    requires
        0 <= key,
        j < total,
        pow2(total) <= p,
    ensures
        0 <= key % (pow2(j) as int) < p,
        pow2(j) < p,
{
    lemma_pow2_pos(j);
    lemma_mod_bound(key, pow2(j) as int);
    lemma_pow2_strictly_increases(j, total);
}

/// A decoding can be met whenever the key is below `2^total_bits`.
pub proof fn lemma_decode_satisfiable(w: Seq<u64>, packed: Target, widths: KeyWidths, p: int)
    requires
        widths.fits(p),
        p <= u64::MAX,
        packed.index < w.len(),
        value_of(w, packed) < pow2(widths.total_bits()),
    ensures
        decode_trace(w + decode_block(w, packed, widths), packed, widths, w.len() as int, p),
        in_field(w, p) ==> in_field(w + decode_block(w, packed, widths), p),
{
    let base = w.len() as int;
    let total = widths.total_bits() as int;
    let v = widths.value_bits as int;
    let key = value_of(w, packed);
    let block = decode_block(w, packed, widths);
    let next = w + block;
    let digits = next.subrange(base, base + total);
    lemma_low_bits_value(key, widths.total_bits());
    assert(digits =~= low_bits(key, widths.total_bits()));
    lemma_small_mod(key as nat, p as nat);
    assert(value_of(next, packed) == key);
    lemma2_to64();
    assert(next[base + total] == block[total]);
    assert(key % 1 == 0);
    assert forall|j: int| 0 <= j < v implies #[trigger] recompose_step(next, base, base + total, p, j) by {
        let pj = pow2(j as nat) as int;
        lemma_pow2_pos(j as nat);
        lemma_pow2_unfold((j + 1) as nat);
        lemma_low_part_in_field(key, j as nat, widths.total_bits(), p);
        lemma_low_part_in_field(key, (j + 1) as nat, widths.total_bits(), p);
        assert((1 + 2 * j - 1) / 2 == j && (2 + 2 * j) / 2 == j + 1 && (2 * j) / 2 == j);
        assert(next[base + total + 1 + 2 * j] == block[total + 1 + 2 * j]);
        assert(next[base + total + 2 + 2 * j] == block[total + 2 + 2 * j]);
        assert(next[base + total + 2 * j] == block[total + 2 * j]);
        assert(next[base + j] == block[j]);
        assert(block[total + 1 + 2 * j] == pj);
        assert(block[total + 2 * j] == key % pj);
        assert(block[total + 2 + 2 * j] == key % (pow2((j + 1) as nat) as int));
        assert(block[j] == bit_of(key, j as nat));
        lemma_mod_breakdown(key, pj, 2);
        assert(pj * 2 == pow2((j + 1) as nat));
        assert(bit_of(key, j as nat) * pj == pj * ((key / pj) % 2)) by (nonlinear_arith)
            requires
                bit_of(key, j as nat) == (key / pj) % 2,
        ;
        lemma_small_mod((key % (pow2((j + 1) as nat) as int)) as nat, p as nat);
    }
    if in_field(w, p) {
        assert forall|t: int| 0 <= t < next.len() implies #[trigger] next[t] < p by {
            if t < base {
                assert(next[t] == w[t]);
            } else {
                let r = t - base;
                assert(next[t] == block[r]);
                lemma_pow2_strictly_increases(0, widths.total_bits());
                if r >= total {
                    if (r - total) % 2 == 0 {
                        lemma_low_part_in_field(key, ((r - total) / 2) as nat, widths.total_bits(), p);
                    } else {
                        lemma_low_part_in_field(
                            key,
                            ((r - total - 1) / 2) as nat,
                            widths.total_bits(),
                            p,
                        );
                    }
                }
            }
        }
    }
}

} // verus!
