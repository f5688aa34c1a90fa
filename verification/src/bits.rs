//! Little-endian binary digits.

use vstd::arithmetic::div_mod::*;
use vstd::arithmetic::mul::*;
use vstd::arithmetic::power2::*;
use vstd::prelude::*;

verus! {

/// The number whose little-endian digits are `bits`: the sum of
/// `bits[j] * 2^j`.
pub open spec fn bits_value(bits: Seq<u64>) -> int
    decreases bits.len(),
{
    if bits.len() == 0 {
        0
    } else {
        bits_value(bits.drop_last()) + bits.last() * pow2((bits.len() - 1) as nat)
    }
}

/// Every digit is zero or one.
pub open spec fn all_boolean(bits: Seq<u64>) -> bool {
    forall|j: int| 0 <= j < bits.len() ==> #[trigger] bits[j] <= 1
}

/// Digit `j` of the binary expansion of `x`.
pub open spec fn bit_of(x: int, j: nat) -> int {
    (x / (pow2(j) as int)) % 2
}

/// The `count` low binary digits of `x`, least significant first.
pub open spec fn low_bits(x: int, count: nat) -> Seq<u64> {
    Seq::new(count, |j: int| bit_of(x, j as nat) as u64)
}

/// Binary digits of length `n` denote a number below `2^n`.
pub proof fn lemma_bits_value_bound(bits: Seq<u64>)
    requires
        all_boolean(bits),
    ensures
        0 <= bits_value(bits) < pow2(bits.len()),
    decreases bits.len(),
{
    if bits.len() == 0 {
        lemma2_to64();
    } else {
        let n = (bits.len() - 1) as nat;
        lemma_bits_value_bound(bits.drop_last());
        lemma_pow2_unfold(bits.len());
        lemma_pow2_pos(n);
        assert(bits.last() <= 1);
        assert(bits.last() * pow2(n) <= pow2(n)) by (nonlinear_arith)
            requires
                bits.last() <= 1,
                pow2(n) > 0,
        ;
        assert(bits.last() * pow2(n) >= 0) by (nonlinear_arith)
            requires
                bits.last() >= 0,
                pow2(n) > 0,
        ;
    }
}

/// The value of a digit string is the value of its low `k` digits plus
/// `2^k` times the value of the rest.
pub proof fn lemma_bits_value_split(bits: Seq<u64>, k: int)
    requires
        0 <= k <= bits.len(),
    ensures
        bits_value(bits) == bits_value(bits.take(k)) + pow2(k as nat) * bits_value(bits.skip(k)),
    decreases bits.len(),
{
    if k == bits.len() {
        assert(bits.take(k) =~= bits);
        assert(bits.skip(k).len() == 0);
        assert(pow2(k as nat) * 0 == 0) by (nonlinear_arith);
    } else {
        let n = (bits.len() - 1) as nat;
        let front = bits.drop_last();
        lemma_bits_value_split(front, k);
        assert(front.take(k) =~= bits.take(k));
        assert(front.skip(k) =~= bits.skip(k).drop_last());
        assert(bits.skip(k).last() == bits.last());
        let m = (n - k) as nat;
        assert(bits.skip(k).len() - 1 == m);
        lemma_pow2_adds(k as nat, m);
        let hi = bits_value(front.skip(k));
        let top = bits.last() as int;
        let pk = pow2(k as nat) as int;
        let pm = pow2(m) as int;
        assert(pk * (hi + top * pm) == pk * hi + top * (pk * pm)) by (nonlinear_arith);
    }
}

/// The low `n` binary digits of a number below `2^n` denote that number.
pub proof fn lemma_low_bits_value(x: int, n: nat)
    requires
        0 <= x < pow2(n),
    ensures
        all_boolean(low_bits(x, n)),
        bits_value(low_bits(x, n)) == x,
    decreases n,
{
    let bits = low_bits(x, n);
    assert(all_boolean(bits));
    if n == 0 {
        lemma2_to64();
    } else {
        let m = (n - 1) as nat;
        let half = pow2(m) as int;
        lemma_pow2_unfold(n);
        lemma_pow2_pos(m);
        let low = x % half;
        let top = x / half;
        lemma_fundamental_div_mod(x, half);
        lemma_mod_bound(x, half);
        assert(0 <= top < 2) by (nonlinear_arith)
            requires
                x == half * top + low,
                0 <= low < half,
                0 <= x < 2 * half,
        ;
        lemma_low_bits_value(low, m);
        assert(bits.drop_last() =~= low_bits(low, m)) by {
            assert forall|j: int| 0 <= j < m implies #[trigger] bits.drop_last()[j] == low_bits(
                low,
                m,
            )[j] by {
                lemma_bit_of_low_part(x, m, j as nat);
            }
        }
        assert(bit_of(x, m) == top) by {
            lemma_small_mod(top as nat, 2);
        }
        assert(bits.last() == top);
        assert(top * half == half * top) by (nonlinear_arith);
    }
}

/// Digits below position `m` are unchanged by reducing modulo `2^m`.
pub proof fn lemma_bit_of_low_part(x: int, m: nat, j: nat)
    requires
        0 <= x,
        j < m,
    ensures
        bit_of(x % (pow2(m) as int), j) == bit_of(x, j),
{
    let pj = pow2(j) as int;
    let pm = pow2(m) as int;
    let d = (m - j) as nat;
    let pd = pow2(d) as int;
    lemma_pow2_pos(j);
    lemma_pow2_pos(m);
    lemma_pow2_pos(d);
    lemma_pow2_adds(j, d);
    lemma_pow2_unfold(d);
    let rest = pow2((d - 1) as nat) as int;
    // x = pm * q + r, and pm = pj * pd, with pd even
    let q = x / pm;
    let r = x % pm;
    lemma_fundamental_div_mod(x, pm);
    lemma_mod_bound(x, pm);
    // x / pj = pd * q + r / pj
    assert(x == pj * (pd * q) + r) by (nonlinear_arith)
        requires
            x == pm * q + r,
            pm == pj * pd,
    ;
    lemma_fundamental_div_mod(r, pj);
    lemma_mod_bound(r, pj);
    let rq = r / pj;
    let rr = r % pj;
    assert(x == pj * (pd * q + rq) + rr) by (nonlinear_arith)
        requires
            x == pj * (pd * q) + r,
            r == pj * rq + rr,
    ;
    lemma_fundamental_div_mod_converse_div(x, pj, pd * q + rq, rr);
    assert(x / pj == pd * q + rq);
    assert(pd * q == 2 * (rest * q)) by (nonlinear_arith)
        requires
            pd == 2 * rest,
    ;
    lemma_mod_multiples_vanish(rest * q, rq, 2);
}

} // verus!
