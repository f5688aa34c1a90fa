//! The polynomial fingerprint of a sequence: the product of `x - alpha`
//! over its elements, at a point `alpha`.

use vstd::arithmetic::div_mod::*;
use vstd::arithmetic::mul::*;
use crate::field::{is_prime, lemma_prime_no_zero_divisors};
use vstd::prelude::*;
use vstd::seq_lib::{commutative_foldl, lemma_fold_left_permutation};

verus! {

/// The product of `x - alpha` over the elements `x` of `xs`, as an integer.
pub open spec fn poly_product(xs: Seq<int>, alpha: int) -> int
    decreases xs.len(),
{
    if xs.len() == 0 {
        1
    } else {
        poly_product(xs.drop_last(), alpha) * (xs.last() - alpha)
    }
}

/// The same product in the field of integers modulo `p`: the value at
/// `alpha` of the monic polynomial whose roots are the elements of `xs`.
pub open spec fn eval_product(xs: Seq<int>, alpha: int, p: int) -> int {
    poly_product(xs, alpha) % p
}

/// Multiplying the fingerprint of a sequence by one more factor, all in
/// the field, gives the fingerprint of the sequence with that element
/// appended.
pub proof fn lemma_eval_product_step(xs: Seq<int>, x: int, alpha: int, p: int)
    requires
        p > 0,
    ensures
        eval_product(xs.push(x), alpha, p) == (eval_product(xs, alpha, p) * ((x - alpha) % p)) % p,
{
    assert(xs.push(x).drop_last() =~= xs);
    lemma_mul_mod_noop_general(poly_product(xs, alpha), x - alpha, p);
}

/// One factor of a fingerprint, multiplied onto a product.
pub open spec fn times_factor(alpha: int) -> spec_fn(int, int) -> int {
    |acc: int, x: int| acc * (x - alpha)
}

/// The product of the factors is the left fold of `times_factor`.
proof fn lemma_poly_product_is_fold(xs: Seq<int>, alpha: int)
    ensures
        poly_product(xs, alpha) == xs.fold_left(1int, times_factor(alpha)),
    decreases xs.len(),
{
    if xs.len() > 0 {
        lemma_poly_product_is_fold(xs.drop_last(), alpha);
    }
}

/// The fingerprint of a sequence does not depend on the order of its
/// elements: sequences that are rearrangements of each other have the
/// same fingerprint at every point, modulo every modulus.
pub proof fn lemma_eval_product_permutation(a: Seq<int>, b: Seq<int>, alpha: int, p: int)
    requires
        a.to_multiset() == b.to_multiset(),
    ensures
        poly_product(a, alpha) == poly_product(b, alpha),
        eval_product(a, alpha, p) == eval_product(b, alpha, p),
{
    let f = times_factor(alpha);
    assert(commutative_foldl(f)) by {
        assert forall|x: int, y: int, v: int| #[trigger] f(f(v, x), y) == f(f(v, y), x) by {
            assert(v * (x - alpha) * (y - alpha) == v * (y - alpha) * (x - alpha)) by (nonlinear_arith);
        }
    }
    lemma_fold_left_permutation(a, b, f, 1int);
    lemma_poly_product_is_fold(a, alpha);
    lemma_poly_product_is_fold(b, alpha);
}

/// The product over a sequence is the factor of any one element times
/// the product over the rest.
pub proof fn lemma_poly_product_remove(xs: Seq<int>, k: int, alpha: int)
    requires
        0 <= k < xs.len(),
    ensures
        poly_product(xs, alpha) == poly_product(xs.remove(k), alpha) * (xs[k] - alpha),
    decreases xs.len(),
{
    let last = xs.len() - 1;
    if k == last {
        assert(xs.remove(k) =~= xs.drop_last());
    } else {
        let front = xs.drop_last();
        lemma_poly_product_remove(front, k, alpha);
        let rest = xs.remove(k);
        assert(rest.drop_last() =~= front.remove(k));
        assert(rest.last() == xs.last());
        let r = poly_product(front.remove(k), alpha);
        let fk = xs[k] - alpha;
        let fl = xs.last() - alpha;
        assert(front[k] == xs[k]);
        assert((r * fk) * fl == (r * fl) * fk) by (nonlinear_arith);
    }
}

/// Over a prime field, a fingerprint vanishes only at an element of the
/// sequence.
pub proof fn lemma_eval_product_root(xs: Seq<int>, alpha: int, p: int)
    requires
        is_prime(p),
        eval_product(xs, alpha, p) == 0,
    ensures
        exists|j: int| 0 <= j < xs.len() && (#[trigger] xs[j] - alpha) % p == 0,
    decreases xs.len(),
{
    if xs.len() == 0 {
        vstd::arithmetic::div_mod::lemma_small_mod(1, p as nat);
    } else {
        let front = xs.drop_last();
        lemma_prime_no_zero_divisors(poly_product(front, alpha), xs.last() - alpha, p);
        if (xs.last() - alpha) % p == 0 {
            assert((xs[xs.len() - 1] - alpha) % p == 0);
        } else {
            lemma_eval_product_root(front, alpha, p);
            let j = choose|j: int| 0 <= j < front.len() && (#[trigger] front[j] - alpha) % p == 0;
            assert((xs[j] - alpha) % p == 0);
        }
    }
}

/// The challenges, among the elements of the field, at which the
/// fingerprints of `a` and `b` agree.
pub open spec fn agreeing_challenges(a: Seq<int>, b: Seq<int>, p: int) -> Set<int> {
    Set::new(|alpha: int| 0 <= alpha < p && eval_product(a, alpha, p) == eval_product(b, alpha, p))
}

/// Over a prime field, if `b` is `a` with the element at position `k`
/// replaced by a different field element, then the fingerprints of `a`
/// and `b` agree only at a challenge that equals one of the other
/// elements of `a`.
pub proof fn lemma_substitution_detected(a: Seq<int>, k: int, y: int, alpha: int, p: int)
    requires
        is_prime(p),
        0 <= k < a.len(),
        (a[k] - y) % p != 0,
        eval_product(a, alpha, p) == eval_product(a.update(k, y), alpha, p),
    ensures
        exists|j: int| 0 <= j < a.len() && j != k && (#[trigger] a[j] - alpha) % p == 0,
{
    let b = a.update(k, y);
    let rest = a.remove(k);
    assert(b.remove(k) =~= rest);
    lemma_poly_product_remove(a, k, alpha);
    lemma_poly_product_remove(b, k, alpha);
    let r = poly_product(rest, alpha);
    let pa = poly_product(a, alpha);
    let pb = poly_product(b, alpha);
    assert(pa - pb == r * (a[k] - y)) by (nonlinear_arith)
        requires
            pa == r * (a[k] - alpha),
            pb == r * (y - alpha),
    ;
    lemma_mod_equivalence(pa, pb, p);
    lemma_prime_no_zero_divisors(r, a[k] - y, p);
    lemma_eval_product_root(rest, alpha, p);
    let j = choose|j: int| 0 <= j < rest.len() && (#[trigger] rest[j] - alpha) % p == 0;
    if j < k {
        assert(rest[j] == a[j]);
        assert((a[j] - alpha) % p == 0);
    } else {
        assert(rest[j] == a[j + 1]);
        assert((a[j + 1] - alpha) % p == 0);
    }
}

/// Over a prime field, if `b` is `a` with one element replaced by a
/// different field element, a permutation check of `a` against `b`
/// passes for fewer challenges than `a` has elements: a uniformly drawn
/// challenge lets the substitution through with probability below
/// `len(a) / p`.
pub proof fn lemma_substitution_rarely_accepted(a: Seq<int>, k: int, y: int, p: int)
    requires
        is_prime(p),
        0 <= k < a.len(),
        (a[k] - y) % p != 0,
    ensures
        agreeing_challenges(a, a.update(k, y), p).finite(),
        agreeing_challenges(a, a.update(k, y), p).len() < a.len(),
{
    let b = a.update(k, y);
    let good = agreeing_challenges(a, b, p);
    let others = a.remove(k).map_values(|x: int| x % p);
    let roots = others.to_set();
    assert forall|alpha: int| good.contains(alpha) implies roots.contains(alpha) by {
        lemma_substitution_detected(a, k, y, alpha, p);
        let j = choose|j: int| 0 <= j < a.len() && j != k && (#[trigger] a[j] - alpha) % p == 0;
        lemma_mod_equivalence(a[j], alpha, p);
        lemma_small_mod(alpha as nat, p as nat);
        let i = if j < k {
            j
        } else {
            j - 1
        };
        assert(a.remove(k)[i] == a[j]);
        assert(others[i] == alpha);
    }
    vstd::seq_lib::seq_to_set_is_finite(others);
    others.lemma_cardinality_of_set();
    vstd::set_lib::lemma_len_subset(good, roots);
}

/// The elements of `xs` as integers.
pub open spec fn as_ints(xs: Seq<u64>) -> Seq<int> {
    Seq::new(xs.len(), |i: int| xs[i] as int)
}

/// One factor of a fingerprint of field elements, multiplied onto a
/// product.
pub open spec fn times_element_factor(alpha: int) -> spec_fn(int, u64) -> int {
    |acc: int, x: u64| acc * (x - alpha)
}

/// The product of the factors of field elements is a left fold.
proof fn lemma_element_product_is_fold(xs: Seq<u64>, alpha: int)
    ensures
        poly_product(as_ints(xs), alpha) == xs.fold_left(1int, times_element_factor(alpha)),
    decreases xs.len(),
{
    if xs.len() > 0 {
        lemma_element_product_is_fold(xs.drop_last(), alpha);
        assert(as_ints(xs).drop_last() =~= as_ints(xs.drop_last()));
    }
}

/// Sequences of field elements that are rearrangements of each other have
/// the same fingerprint at every point.
pub proof fn lemma_eval_product_rearranged(a: Seq<u64>, b: Seq<u64>, alpha: int, p: int)
    requires
        a.to_multiset() == b.to_multiset(),
    ensures
        eval_product(as_ints(a), alpha, p) == eval_product(as_ints(b), alpha, p),
{
    let f = times_element_factor(alpha);
    assert(commutative_foldl(f)) by {
        assert forall|x: u64, y: u64, v: int| #[trigger] f(f(v, x), y) == f(f(v, y), x) by {
            assert(v * (x - alpha) * (y - alpha) == v * (y - alpha) * (x - alpha)) by (nonlinear_arith);
        }
    }
    lemma_fold_left_permutation(a, b, f, 1int);
    lemma_element_product_is_fold(a, alpha);
    lemma_element_product_is_fold(b, alpha);
}

} // verus!
