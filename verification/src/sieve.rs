//! The sieve of Eratosthenes over the odd numbers: index `i` of the array
//! stands for the odd number `2 * i + 1`.

use crate::bitvec::{words_needed, BitVec};
use crate::primes::{
    divides, is_prime, lemma_cofactor, lemma_composite_has_divisor, lemma_divides_transitive,
    lemma_no_divisor_below_root_is_prime, lemma_odd_has_no_even_divisor,
    lemma_product_is_not_prime, no_divisor_below,
};
use vstd::prelude::*;

verus! {

/// The elements of the sieve for the bound `n`: one for each odd number below
/// `2 * (n / 2)`, set where that number is prime.
pub open spec fn sieve_view(n: nat) -> Seq<bool> {
    Seq::new(n / 2, |i: int| is_prime(2 * i + 1))
}

/// The padding of the sieve for the bound `n`: every bit of it is set.
pub open spec fn sieve_padding(n: nat) -> Seq<bool> {
    Seq::new((words_needed(n / 2) * (usize::BITS as nat) - n / 2) as nat, |i: int| true)
}

/// The stored bits of the sieve for the bound `n`: its elements, then its
/// padding.
pub open spec fn sieve_bits(n: nat) -> Seq<bool> {
    sieve_view(n) + sieve_padding(n)
}

/// The index that the `u`-th strike of the base at index `i` clears: the
/// strikes start at the square of `2 * i + 1` and go on by twice that base.
spec fn strike(i: int, u: int) -> int {
    2 * i * (i + 1) + u * (2 * i + 1)
}

/// No prime's bit has been cleared.
spec fn primes_kept(v: Seq<bool>) -> bool {
    forall|k: int| 1 <= k < v.len() && is_prime(2 * k + 1) ==> #[trigger] v[k]
}

/// Every number whose bit is still set has no divisor below `bound`.
spec fn survivors_sifted(v: Seq<bool>, bound: int) -> bool {
    forall|k: int| 1 <= k < v.len() && #[trigger] v[k] ==> no_divisor_below(2 * k + 1, bound)
}

/// The integer square root: the largest `r` whose square is at most `n`.
pub fn isqrt(n: usize) -> (r: usize)
    ensures
        r * r <= n < (r + 1) * (r + 1),
{
    let target: u64 = n as u64;
    let mut lo: u64 = 0;
    let mut hi: u64 = 0x1_0000_0000;
    while hi - lo > 1
        invariant
            lo < hi <= 0x1_0000_0000,
            lo * lo <= target < hi * hi,
            target == n,
        decreases hi - lo,
    {
        let mid: u64 = lo + (hi - lo) / 2;
        assert(mid * mid <= 0xffff_ffff * 0xffff_ffff) by (nonlinear_arith)
            requires
                mid <= 0xffff_ffff,
        ;
        if mid * mid <= target {
            lo = mid;
        } else {
            hi = mid;
        }
    }
    assert(lo <= target) by (nonlinear_arith)
        requires
            lo * lo <= target,
    ;
    lo as usize
}

/// The strikes of one base clear indices of composite numbers, in
/// increasing order.
proof fn lemma_strike(i: int, u: int)
    requires
        i >= 1,
        u >= 0,
    ensures
        strike(i, u) >= 1,
        strike(i, u + 1) == strike(i, u) + (2 * i + 1),
        2 * strike(i, u) + 1 == (2 * i + 1) * (2 * i + 1 + 2 * u),
        !is_prime(2 * strike(i, u) + 1),
{
    assert(strike(i, u) >= 1 && strike(i, u + 1) == strike(i, u) + (2 * i + 1) && 2 * strike(i, u)
        + 1 == (2 * i + 1) * (2 * i + 1 + 2 * u)) by (nonlinear_arith)
        requires
            i >= 1,
            u >= 0,
    ;
    lemma_product_is_not_prime(2 * i + 1, 2 * i + 1 + 2 * u);
}

/// A later strike of the same base clears a larger index.
proof fn lemma_strike_increases(i: int, u: int, t: int)
    requires
        i >= 1,
        0 <= u < t,
    ensures
        strike(i, u) < strike(i, t),
{
    assert(u * (2 * i + 1) < t * (2 * i + 1)) by (nonlinear_arith)
        requires
            i >= 1,
            0 <= u < t,
    ;
}

/// An odd multiple of the base at index `i` that no smaller base divides is
/// reached by one of that base's strikes.
proof fn lemma_multiple_is_struck(i: int, k: int) -> (u: int)
    requires
        i >= 1,
        k >= 1,
        divides(2 * i + 1, 2 * k + 1),
        2 * i + 1 < 2 * k + 1,
        no_divisor_below(2 * k + 1, 2 * i + 1),
    ensures
        u >= 0,
        k == strike(i, u),
{
    let p = 2 * i + 1;
    let c = 2 * k + 1;
    lemma_cofactor(p, c);
    let q = c / p;
    if q < p {
        assert(!divides(q, c));
    }
    if q % 2 == 0 {
        lemma_odd_has_no_even_divisor(q, c);
    }
    let u = (q - p) / 2;
    assert(q == p + 2 * u);
    assert(k == strike(i, u)) by (nonlinear_arith)
        requires
            2 * k + 1 == (2 * i + 1) * q,
            q == 2 * i + 1 + 2 * u,
    ;
    u
}

/// Once the base at index `i` is done with, the numbers whose bit is still
/// set have no divisor below the next base.
proof fn lemma_base_done(v: Seq<bool>, i: int)
    requires
        i >= 1,
        survivors_sifted(v, 2 * i + 1),
        is_prime(2 * i + 1) ==> forall|u: int|
            0 <= u && #[trigger] strike(i, u) < v.len() ==> !v[strike(i, u)],
    ensures
        survivors_sifted(v, 2 * i + 3),
{
    let p = 2 * i + 1;
    assert forall|k: int| 1 <= k < v.len() && #[trigger] v[k] implies no_divisor_below(
        2 * k + 1,
        2 * i + 3,
    ) by {
        let c = 2 * k + 1;
        assert(no_divisor_below(c, p));
        assert forall|d: int| 2 <= d < 2 * i + 3 && d < c implies !#[trigger] divides(d, c) by {
            if d == p + 1 {
                lemma_odd_has_no_even_divisor(d, c);
            } else if d == p && divides(p, c) {
                if is_prime(p) {
                    let u = lemma_multiple_is_struck(i, k);
                    assert(strike(i, u) < v.len());
                } else {
                    let e = lemma_composite_has_divisor(p);
                    lemma_divides_transitive(e, p, c);
                }
            }
        }
    }
}

/// Sieves the odd numbers for the primes up to `upper_limit`.
///
/// The array that comes back has one element for each odd number below
/// `2 * (upper_limit / 2)`. The element at index `i` is set where
/// `2 * i + 1` is prime, and so is every bit of the padding.
pub fn odd_sieve(upper_limit: usize) -> (vector: BitVec)
    requires
        upper_limit >= 2,
    ensures
        vector@ == sieve_view(upper_limit as nat),
        vector.padding() == sieve_padding(upper_limit as nat),
{
    let mut vector = BitVec::new(true, upper_limit / 2);
    vector.set(0, false);
    let root: usize = isqrt(upper_limit);
    let mut i: usize = 1;
    proof {
        assert forall|k: int| 1 <= k < vector@.len() && #[trigger] vector@[k] implies no_divisor_below(
            2 * k + 1,
            3,
        ) by {
            assert forall|d: int| 2 <= d < 3 && d < 2 * k + 1 implies !#[trigger] divides(
                d,
                2 * k + 1,
            ) by {
                lemma_odd_has_no_even_divisor(d, 2 * k + 1);
            }
        }
    }
    while i <= root / 2
        invariant
            upper_limit >= 2,
            1 <= i <= root / 2 + 1,
            root * root <= upper_limit < (root + 1) * (root + 1),
            vector@.len() == upper_limit / 2,
            vector.padding() == sieve_padding(upper_limit as nat),
            !vector@[0],
            primes_kept(vector@),
            survivors_sifted(vector@, 2 * i + 1),
        decreases root / 2 + 1 - i,
    {
        assert(2 * i * (i + 1) <= upper_limit && root <= upper_limit / 2 && i < upper_limit / 2)
            by (nonlinear_arith)
            requires
                1 <= i <= root / 2,
                root * root <= upper_limit,
        ;
        if vector.get(i) {
            let step: usize = 2 * i + 1;
            let mut j: usize = 2 * i * (i + 1);
            let ghost before = vector@;
            let ghost mut t: int = 0;
            while j < vector.len()
                invariant
                    upper_limit >= 2,
                    i >= 1,
                    step == 2 * i + 1,
                    step <= upper_limit / 2 + 1,
                    t >= 0,
                    j == strike(i as int, t),
                    vector@.len() == upper_limit / 2,
                    vector@.len() == before.len(),
                    vector.padding() == sieve_padding(upper_limit as nat),
                    !vector@[0],
                    primes_kept(vector@),
                    forall|k: int| 0 <= k < vector@.len() && #[trigger] vector@[k] ==> before[k],
                    forall|u: int| 0 <= u < t ==> !vector@[#[trigger] strike(i as int, u)],
                decreases
                        if j < upper_limit / 2 {
                            upper_limit / 2 - j
                        } else {
                            0
                        },
            {
                proof {
                    lemma_strike(i as int, t);
                    assert forall|u: int| 0 <= u < t implies 0 <= #[trigger] strike(i as int, u)
                        < j by {
                        lemma_strike(i as int, u);
                        lemma_strike_increases(i as int, u, t);
                    }
                }
                vector.set(j, false);
                j += step;
                proof {
                    t = t + 1;
                }
            }
            proof {
                assert forall|u: int| 0 <= u && #[trigger] strike(i as int, u) < vector@.len() implies 
                    !vector@[strike(i as int, u)] by {
                    if u >= t {
                        if u > t {
                            lemma_strike_increases(i as int, t, u);
                        }
                    }
                }
                assert(survivors_sifted(vector@, 2 * i + 1));
                lemma_base_done(vector@, i as int);
            }
        } else {
            proof {
                lemma_base_done(vector@, i as int);
            }
        }
        i += 1;
    }
    proof {
        let bound = 2 * i + 1;
        assert forall|k: int| 0 <= k < vector@.len() implies vector@[k] == is_prime(2 * k + 1) by {
            if k >= 1 && vector@[k] {
                assert(no_divisor_below(2 * k + 1, bound));
                assert(2 * k + 1 < bound * bound) by (nonlinear_arith)
                    requires
                        2 * k + 1 < (root + 1) * (root + 1),
                        bound >= root + 1,
                        root >= 0,
                ;
                lemma_no_divisor_below_root_is_prime(2 * k + 1, bound);
            }
        }
        assert(vector@ =~= sieve_view(upper_limit as nat));
    }
    vector
}

} // verus!
