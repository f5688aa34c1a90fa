//! Arithmetic modulo a word-sized modulus.
//!
//! A field element is a `u64` residue; the modulus travels with the circuit
//! that uses it. Everything here is stated for an arbitrary modulus of at
//! least two, and the facts that need a prime say so.

use vstd::arithmetic::div_mod::*;
use vstd::arithmetic::mul::*;
use vstd::arithmetic::power2::*;
use vstd::prelude::*;

verus! {

/// The sum of two values, reduced modulo `p`.
pub open spec fn add_mod(a: int, b: int, p: int) -> int {
    (a + b) % p
}

/// The difference of two values, reduced modulo `p` into `[0, p)`.
pub open spec fn sub_mod(a: int, b: int, p: int) -> int {
    (a - b) % p
}

/// The product of two values, reduced modulo `p`.
pub open spec fn mul_mod(a: int, b: int, p: int) -> int {
    (a * b) % p
}

/// `p` has no divisor strictly between one and itself.
pub open spec fn is_prime(p: int) -> bool {
    &&& p >= 2
    &&& forall|d: int| 1 < d < p ==> #[trigger] (p % d) != 0
}

/// Adds two residues.
pub fn field_add(a: u64, b: u64, p: u64) -> (r: u64)
    requires
        p > 0,
    ensures
        r == add_mod(a as int, b as int, p as int),
        r < p,
{
    let wide: u128 = a as u128 + b as u128;
    (wide % (p as u128)) as u64
}

/// Subtracts one residue from another; the result wraps into `[0, p)`.
pub fn field_sub(a: u64, b: u64, p: u64) -> (r: u64)
    requires
        p > 0,
    ensures
        r == sub_mod(a as int, b as int, p as int),
        r < p,
{
    let a_low: u64 = a % p;
    let b_low: u64 = b % p;
    proof {
        lemma_sub_mod_noop(a as int, b as int, p as int);
    }
    if a_low >= b_low {
        proof {
            lemma_small_mod((a_low - b_low) as nat, p as nat);
        }
        a_low - b_low
    } else {
        proof {
            let d = a_low as int - b_low as int;
            lemma_mod_add_multiples_vanish(d, p as int);
            lemma_small_mod((d + p) as nat, p as nat);
        }
        p - (b_low - a_low)
    }
}

/// Multiplies two residues.
pub fn field_mul(a: u64, b: u64, p: u64) -> (r: u64)
    requires
        p > 0,
    ensures
        r == mul_mod(a as int, b as int, p as int),
        r < p,
{
    proof {
        lemma_mul_upper_bound(a as int, u64::MAX as int, b as int, u64::MAX as int);
    }
    let wide: u128 = (a as u128) * (b as u128);
    (wide % (p as u128)) as u64
}

/// Computes `a * b + c` on residues.
pub fn field_mul_add(a: u64, b: u64, c: u64, p: u64) -> (r: u64)
    requires
        p > 0,
    ensures
        r == add_mod(a as int * b as int, c as int, p as int),
        r < p,
{
    proof {
        lemma_mul_upper_bound(a as int, u64::MAX as int, b as int, u64::MAX as int);
    }
    let wide: u128 = (a as u128) * (b as u128) + (c as u128);
    (wide % (p as u128)) as u64
}

/// Tells whether every value of `bits` bits is a residue, that is whether
/// `2^bits` does not exceed the modulus.
pub fn width_fits(bits: usize, p: u64) -> (r: bool)
    ensures
        r == (pow2(bits as nat) <= p),
{
    if bits >= 64 {
        proof {
            lemma2_to64();
            if bits > 64 {
                lemma_pow2_strictly_increases(64, bits as nat);
            }
        }
        false
    } else {
        let bound: u64 = power_of_two(bits);
        bound <= p
    }
}

/// Computes `2^bits` for a width below the word size.
pub fn power_of_two(bits: usize) -> (r: u64)
    requires
        bits < 64,
    ensures
        r == pow2(bits as nat),
{
    let mut r: u64 = 1;
    let mut i: usize = 0;
    proof {
        lemma2_to64();
    }
    while i < bits
        invariant
            i <= bits,
            bits < 64,
            r == pow2(i as nat),
        decreases bits - i,
    {
        proof {
            lemma_pow2_unfold((i + 1) as nat);
            lemma_pow2_strictly_increases((i + 1) as nat, 64);
            lemma2_to64();
        }
        r = r * 2;
        i = i + 1;
    }
    r
}


/// Some residue multiplies `x` to one.
pub open spec fn has_inverse(x: int, p: int) -> bool {
    exists|m: int| 0 <= m < p && #[trigger] mul_mod(x, m, p) == 1
}

/// The residue that multiplies `x` to one, or zero if there is none.
pub open spec fn inverse_or_zero(x: int, p: int) -> int {
    if has_inverse(x, p) {
        choose|m: int| 0 <= m < p && #[trigger] mul_mod(x, m, p) == 1
    } else {
        0
    }
}


/// `d` divides both `a` and `b`.
pub open spec fn common_divisor(d: int, a: int, b: int) -> bool {
    d >= 1 && a % d == 0 && b % d == 0
}

/// A sum of a multiple of `b` and of `c` is divisible by whatever divides
/// `b` and `c`.
proof fn lemma_divides_combination(d: int, q: int, b: int, c: int)
    requires
        d >= 1,
        b % d == 0,
        c % d == 0,
    ensures
        (q * b + c) % d == 0,
{
    lemma_mul_mod_noop_right(q, b, d);
    assert(q * 0 == 0) by (nonlinear_arith);
    lemma_small_mod(0, d as nat);
    assert((q * b) % d == 0);
    lemma_add_mod_noop(q * b, c, d);
}

/// One step of Euclid's algorithm keeps the cofactor congruence: if
/// `t0 * x` is congruent to `r0` and `t1 * x` to `r1`, then
/// `(t0 - q * t1) * x` is congruent to `r0 - q * r1`.
proof fn lemma_cofactor_step(t0: int, t1: int, q: int, x: int, r0: int, r1: int, p: int)
    requires
        p > 0,
        (t0 * x) % p == r0 % p,
        (t1 * x) % p == r1 % p,
    ensures
        (sub_mod(t0, mul_mod(q, t1, p), p) * x) % p == (r0 - q * r1) % p,
{
    let t = t0 - q * t1;
    lemma_sub_mod_noop_right(t0, q * t1, p);
    assert(sub_mod(t0, mul_mod(q, t1, p), p) == t % p);
    lemma_mul_mod_noop_left(t, x, p);
    assert(t * x == t0 * x - q * (t1 * x)) by (nonlinear_arith)
        requires
            t == t0 - q * t1,
    ;
    lemma_sub_mod_noop(t0 * x, q * (t1 * x), p);
    lemma_mul_mod_noop_right(q, t1 * x, p);
    lemma_mul_mod_noop_right(q, r1, p);
    lemma_sub_mod_noop(r0, q * r1, p);
}

/// A residue has at most one inverse.
pub proof fn lemma_inverse_unique(x: int, m1: int, m2: int, p: int)
    requires
        p >= 2,
        0 <= m1 < p,
        0 <= m2 < p,
        mul_mod(x, m1, p) == 1,
        mul_mod(x, m2, p) == 1,
    ensures
        m1 == m2,
{
    // m1 = m1 * (x * m2) = (m1 * x) * m2 = m2, all modulo p
    lemma_mul_mod_noop_right(m1, x * m2, p);
    lemma_mul_mod_noop_left(x * m1, m2, p);
    assert(m1 * (x * m2) == (x * m1) * m2) by (nonlinear_arith);
    assert(m1 * 1 == m1 && 1 * m2 == m2);
    lemma_small_mod(m1 as nat, p as nat);
    lemma_small_mod(m2 as nat, p as nat);
}

/// A residue that shares a divisor above one with the modulus has no
/// inverse.
proof fn lemma_no_inverse(x: int, g: int, p: int)
    requires
        p >= 2,
        g > 1,
        p % g == 0,
        (x % p) % g == 0,
    ensures
        !has_inverse(x, p),
{
    if has_inverse(x, p) {
        let m = choose|m: int| 0 <= m < p && #[trigger] mul_mod(x, m, p) == 1;
        lemma_fundamental_div_mod(x, p);
        lemma_divides_combination(g, x / p, p, x % p);
        assert(p * (x / p) == (x / p) * p) by (nonlinear_arith);
        assert(x % g == 0);
        lemma_mul_mod_noop_left(x, m, g);
        assert(0 * m == 0) by (nonlinear_arith);
        assert((x * m) % g == 0);
        lemma_fundamental_div_mod(x * m, p);
        let k = (x * m) / p;
        assert(p * k == k * p) by (nonlinear_arith);
        lemma_divides_combination(g, k, p, 0);
        assert((k * p) % g == 0);
        lemma_add_mod_noop(k * p, 1, g);
        lemma_small_mod(1, g as nat);
        assert(false);
    }
}

/// Computes the multiplicative inverse of `x` modulo `p` by Euclid's
/// algorithm, or zero if `x` has none.
pub fn field_inverse(x: u64, p: u64) -> (r: u64)
    requires
        p >= 2,
    ensures
        r == inverse_or_zero(x as int, p as int),
        r < p,
        has_inverse(x as int, p as int) ==> mul_mod(x as int, r as int, p as int) == 1,
{
    let reduced: u64 = x % p;
    let mut r0: u64 = p;
    let mut r1: u64 = reduced;
    let mut t0: u64 = 0;
    let mut t1: u64 = 1;
    proof {
        lemma_mod_self_0(p as int);
        lemma_small_mod(0, p as nat);
        lemma_mul_mod_noop_right(1, x as int, p as int);
        lemma_mod_twice(x as int, p as int);
        assert(0 * (x as int) == 0) by (nonlinear_arith);
    }
    while r1 != 0
        invariant
            p >= 2,
            reduced == x % p,
            0 < r0 <= p,
            r1 < r0,
            t0 < p,
            t1 < p,
            (t0 as int * x as int) % (p as int) == r0 as int % (p as int),
            (t1 as int * x as int) % (p as int) == r1 as int % (p as int),
            forall|d: int| #[trigger]
                common_divisor(d, r0 as int, r1 as int) ==> common_divisor(d, p as int, reduced as int),
        decreases r1,
    {
        let q: u64 = r0 / r1;
        let r2: u64 = r0 % r1;
        let t2: u64 = field_sub(t0, field_mul(q, t1, p), p);
        proof {
            lemma_fundamental_div_mod(r0 as int, r1 as int);
            assert(r1 as int * q as int == q as int * r1 as int) by (nonlinear_arith);
            lemma_cofactor_step(
                t0 as int,
                t1 as int,
                q as int,
                x as int,
                r0 as int,
                r1 as int,
                p as int,
            );
            assert forall|d: int| #[trigger] common_divisor(d, r1 as int, r2 as int) implies common_divisor(
                d,
                p as int,
                reduced as int,
            ) by {
                lemma_divides_combination(d, q as int, r1 as int, r2 as int);
                assert(common_divisor(d, r0 as int, r1 as int));
            }
        }
        r0 = r1;
        r1 = r2;
        t0 = t1;
        t1 = t2;
    }
    proof {
        lemma_mod_self_0(r0 as int);
        assert(common_divisor(r0 as int, r0 as int, r1 as int));
    }
    if r0 == 1 {
        proof {
            lemma_small_mod(1, p as nat);
            let m = t0 as int;
            assert(m * x as int == x as int * m) by (nonlinear_arith);
            assert(mul_mod(x as int, m, p as int) == 1);
            let chosen = inverse_or_zero(x as int, p as int);
            lemma_inverse_unique(x as int, m, chosen, p as int);
        }
        t0
    } else {
        proof {
            lemma_no_inverse(x as int, r0 as int, p as int);
        }
        0
    }
}


/// Modulo a prime, the product of two nonzero residues is not zero.
proof fn lemma_residue_product_nonzero(a: int, b: int, p: int)
    requires
        is_prime(p),
        0 < a < p,
        0 < b < p,
    ensures
        (a * b) % p != 0,
    decreases a,
{
    if a == 1 {
        assert(a * b == b) by (nonlinear_arith)
            requires
                a == 1,
        ;
        lemma_small_mod(b as nat, p as nat);
    } else {
        let r = p % a;
        let q = p / a;
        assert(r != 0);
        lemma_mod_bound(p, a);
        lemma_fundamental_div_mod(p, a);
        lemma_residue_product_nonzero(r, b, p);
        if (a * b) % p == 0 {
            assert(r * b == p * b - q * (a * b)) by (nonlinear_arith)
                requires
                    p == a * q + r,
            ;
            lemma_mod_multiples_basic(b, p);
            assert(p * b == b * p) by (nonlinear_arith);
            lemma_mul_mod_noop_right(q, a * b, p);
            assert(q * 0 == 0) by (nonlinear_arith);
            lemma_small_mod(0, p as nat);
            lemma_sub_mod_noop(p * b, q * (a * b), p);
            assert(false);
        }
    }
}

/// Modulo a prime, a product is zero only if one of its factors is: the
/// integers modulo a prime have no zero divisors.
pub proof fn lemma_prime_no_zero_divisors(a: int, b: int, p: int)
    requires
        is_prime(p),
        (a * b) % p == 0,
    ensures
        a % p == 0 || b % p == 0,
{
    lemma_mul_mod_noop_general(a, b, p);
    lemma_mod_bound(a, p);
    lemma_mod_bound(b, p);
    if a % p != 0 && b % p != 0 {
        lemma_residue_product_nonzero(a % p, b % p, p);
    }
}

/// Modulo a prime, every residue other than zero has an inverse. The
/// proof descends as Euclid's algorithm does, and returns the inverse.
pub proof fn lemma_residue_has_inverse(a: int, p: int) -> (m: int)
    requires
        is_prime(p),
        0 < a < p,
    ensures
        0 <= m < p,
        mul_mod(a, m, p) == 1,
    decreases a,
{
    if a == 1 {
        lemma_small_mod(1, p as nat);
        1
    } else {
        let r = p % a;
        let q = p / a;
        assert(r != 0);
        lemma_mod_bound(p, a);
        lemma_fundamental_div_mod(p, a);
        let inner = lemma_residue_has_inverse(r, p);
        let raw = -(q * inner);
        let m = raw % p;
        lemma_mod_bound(raw, p);
        lemma_mul_mod_noop_right(a, raw, p);
        assert(a * raw == p * (-inner) + r * inner) by (nonlinear_arith)
            requires
                p == a * q + r,
                raw == -(q * inner),
        ;
        lemma_mod_multiples_vanish(-inner, r * inner, p);
        m
    }
}

/// Modulo a prime, every value that is not a multiple of the prime has an
/// inverse.
pub proof fn lemma_prime_has_inverses(x: int, p: int)
    requires
        is_prime(p),
        x % p != 0,
    ensures
        has_inverse(x, p),
{
    lemma_mod_bound(x, p);
    let m = lemma_residue_has_inverse(x % p, p);
    lemma_mul_mod_noop_left(x, m, p);
    assert(mul_mod(x, m, p) == 1);
}

} // verus!
