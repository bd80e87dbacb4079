//! Primality over the mathematical integers, and the facts about divisors
//! that the sieve rests on.

use vstd::arithmetic::div_mod::{lemma_fundamental_div_mod, lemma_mod_multiples_basic};
use vstd::prelude::*;

verus! {

/// `d` divides `n`.
pub open spec fn divides(d: int, n: int) -> bool {
    n % d == 0
}

/// `n` is a prime number.
pub open spec fn is_prime(n: int) -> bool {
    n >= 2 && forall|d: int| 2 <= d < n ==> !#[trigger] divides(d, n)
}

/// The primes from 2 to `n`, in increasing order.
pub open spec fn primes_up_to(n: int) -> Seq<int>
    decreases n,
{
    if n < 2 {
        Seq::empty()
    } else if is_prime(n) {
        primes_up_to(n - 1).push(n)
    } else {
        primes_up_to(n - 1)
    }
}

/// `c` has no divisor from 2 up that is smaller than both `bound` and `c`.
pub open spec fn no_divisor_below(c: int, bound: int) -> bool {
    forall|d: int| 2 <= d < bound && d < c ==> !#[trigger] divides(d, c)
}

/// A product has each of its positive factors as a divisor.
pub proof fn lemma_factors_divide(a: int, b: int)
    requires
        a > 0,
        b > 0,
    ensures
        divides(a, a * b),
        divides(b, a * b),
{
    lemma_mod_multiples_basic(a, b);
    lemma_mod_multiples_basic(b, a);
    assert(a * b == b * a) by (nonlinear_arith);
}

/// A divisor `d` of a positive `c` comes with a cofactor: `c == d * (c / d)`,
/// and the cofactor is at least 2 where `d` is smaller than `c`.
pub proof fn lemma_cofactor(d: int, c: int)
    requires
        d > 0,
        c > 0,
        divides(d, c),
    ensures
        c == d * (c / d),
        c / d >= 1,
        d < c ==> c / d >= 2,
        d >= 2 ==> c / d < c,
        divides(c / d, c),
{
    lemma_fundamental_div_mod(c, d);
    let q = c / d;
    assert(q >= 1 && (d < c ==> q >= 2) && (d >= 2 ==> q < c)) by (nonlinear_arith)
        requires
            c == d * q,
            d > 0,
            c > 0,
    ;
    lemma_factors_divide(d, q);
}

/// Divisibility is transitive.
pub proof fn lemma_divides_transitive(e: int, p: int, c: int)
    requires
        e > 0,
        p > 0,
        c > 0,
        divides(e, p),
        divides(p, c),
    ensures
        divides(e, c),
{
    lemma_cofactor(e, p);
    lemma_cofactor(p, c);
    let a = p / e;
    let b = c / p;
    assert(c == e * (a * b)) by (nonlinear_arith)
        requires
            p == e * a,
            c == p * b,
    ;
    assert(a * b > 0) by (nonlinear_arith)
        requires
            a >= 1,
            b >= 1,
    ;
    lemma_factors_divide(e, a * b);
}

/// An odd number has no even divisor.
pub proof fn lemma_odd_has_no_even_divisor(d: int, c: int)
    requires
        d > 0,
        d % 2 == 0,
        c > 0,
        c % 2 == 1,
    ensures
        !divides(d, c),
{
    if divides(d, c) {
        assert(divides(2, d));
        lemma_divides_transitive(2, d, c);
    }
}

/// A number with a divisor from 2 up that is smaller than itself is not prime;
/// so no product of two numbers from 2 up is.
pub proof fn lemma_product_is_not_prime(a: int, b: int)
    requires
        a >= 2,
        b >= 2,
    ensures
        !is_prime(a * b),
{
    lemma_factors_divide(a, b);
    assert(a < a * b) by (nonlinear_arith)
        requires
            a >= 2,
            b >= 2,
    ;
}

/// A number that is not prime, from 2 up, has a divisor from 2 up that is
/// smaller than itself.
pub proof fn lemma_composite_has_divisor(n: int) -> (d: int)
    requires
        n >= 2,
        !is_prime(n),
    ensures
        2 <= d < n,
        divides(d, n),
{
    choose|d: int| 2 <= d < n && divides(d, n)
}

/// If `c` has no small divisor below a bound whose square exceeds `c`, then
/// `c` is prime.
pub proof fn lemma_no_divisor_below_root_is_prime(c: int, bound: int)
    requires
        c >= 2,
        bound >= 0,
        c < bound * bound,
        no_divisor_below(c, bound),
    ensures
        is_prime(c),
{
    assert forall|d: int| 2 <= d < c implies !#[trigger] divides(d, c) by {
        if divides(d, c) {
            lemma_cofactor(d, c);
            let e = c / d;
            assert(d < bound || e < bound) by (nonlinear_arith)
                requires
                    c == d * e,
                    c < bound * bound,
                    bound >= 0,
                    d >= 2,
                    e >= 2,
            ;
            if d < bound {
                assert(!divides(d, c));
            } else {
                assert(!divides(e, c));
            }
        }
    }
}

} // verus!
