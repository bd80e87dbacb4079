//! What listing and counting give for the sieve of a bound, against the
//! primes up to that bound.

use crate::bitvec::words_needed;
use crate::primes::{divides, is_prime, primes_up_to};
use crate::report::{
    count_set, counted, lemma_count_set_all, lemma_count_set_concat, lemma_odds_listed_stops,
    listed, odds_listed,
};
use crate::sieve::{sieve_bits, sieve_padding, sieve_view};
use vstd::arithmetic::div_mod::lemma_fundamental_div_mod;
use vstd::prelude::*;

verus! {

/// The sieve of a bound has padding unless its length is a whole number of
/// words.
pub open spec fn sieve_is_padded(n: nat) -> bool {
    (n / 2) % (usize::BITS as nat) != 0
}

/// `primes_up_to(n)` holds the primes from 2 to `n` and nothing else.
pub proof fn lemma_primes_up_to_holds_the_primes(n: int, p: int)
    ensures
        primes_up_to(n).contains(p) <==> is_prime(p) && p <= n,
    decreases n,
{
    if n >= 2 {
        lemma_primes_up_to_holds_the_primes(n - 1, p);
        let rest = primes_up_to(n - 1);
        if is_prime(n) {
            assert(rest.push(n)[rest.len() as int] == n);
            if primes_up_to(n).contains(p) && p != n {
                let i = choose|i: int| 0 <= i < primes_up_to(n).len() && primes_up_to(n)[i] == p;
                assert(rest[i] == p);
            }
            if rest.contains(p) {
                let i = choose|i: int| 0 <= i < rest.len() && rest[i] == p;
                assert(rest.push(n)[i] == p);
            }
        }
    }
}

/// `primes_up_to(n)` is strictly increasing.
pub proof fn lemma_primes_up_to_increases(n: int, i: int, j: int)
    requires
        0 <= i < j < primes_up_to(n).len(),
    ensures
        primes_up_to(n)[i] < primes_up_to(n)[j],
    decreases n,
{
    if n >= 2 {
        let rest = primes_up_to(n - 1);
        if j < rest.len() {
            lemma_primes_up_to_increases(n - 1, i, j);
        } else {
            assert(rest.contains(rest[i]));
            lemma_primes_up_to_holds_the_primes(n - 1, rest[i]);
        }
    }
}

/// After sieving for the bound `n`, the element at index `v / 2` tells
/// whether the odd number `v` is prime, for every odd `v` below `n`. The
/// bound itself, where it is odd, has no element.
pub proof fn lemma_element_tells_primality(n: nat, v: int)
    requires
        v % 2 == 1,
        1 <= v < n,
    ensures
        0 <= v / 2 < sieve_view(n).len(),
        sieve_view(n)[v / 2] == is_prime(v),
{
}

/// The length of the padding of the sieve of a bound.
proof fn lemma_sieve_padding_len(n: nat)
    ensures
        sieve_view(n).len() == n / 2,
        sieve_bits(n).len() == n / 2 + sieve_padding(n).len(),
        sieve_padding(n).len() > 0 <==> sieve_is_padded(n),
{
    let len = (n / 2) as int;
    let width = usize::BITS as int;
    lemma_fundamental_div_mod(len, width);
    assert(words_needed(len as nat) * width >= len && (words_needed(len as nat) * width == len
        <==> len % width == 0)) by (nonlinear_arith)
        requires
            len == width * (len / width) + len % width,
            0 <= len % width < width,
            words_needed(len as nat) == if len % width == 0 {
                len / width
            } else {
                len / width + 1
            },
    ;
}

/// Where the first `k` bits tell which of the odd numbers they stand for
/// are prime, and all those numbers are within the limit, the number 2 and
/// what is listed of these bits are the primes up to `2 * k`.
proof fn lemma_listed_prefix(bits: Seq<bool>, limit: int, k: int)
    requires
        1 <= k <= bits.len(),
        2 * k - 1 <= limit,
        forall|i: int| 0 <= i < k ==> bits[i] == is_prime(2 * i + 1),
    ensures
        seq![2int] + odds_listed(bits, limit, k) == primes_up_to(2 * k),
        odds_listed(bits, limit, k).len() == count_set(bits.take(k)),
    decreases k,
{
    let taken = bits.take(k);
    assert(taken.drop_last() =~= bits.take(k - 1));
    assert(taken.last() == bits[k - 1]);
    if k == 1 {
        assert(!is_prime(1));
        assert(is_prime(2));
        assert(primes_up_to(1) =~= Seq::<int>::empty());
        assert(odds_listed(bits, limit, 0) =~= Seq::<int>::empty());
        assert(seq![2int] + odds_listed(bits, limit, 1) =~= primes_up_to(1).push(2));
        assert(count_set(bits.take(0)) == 0);
    } else {
        lemma_listed_prefix(bits, limit, k - 1);
        assert(divides(2, 2 * k));
        assert(!is_prime(2 * k));
        assert(primes_up_to(2 * k) == primes_up_to(2 * k - 1));
        let before = odds_listed(bits, limit, k - 1);
        if bits[k - 1] {
            assert(seq![2int] + before.push(2 * k - 1) =~= (seq![2int] + before).push(2 * k - 1));
        }
    }
}

/// What listing gives for the sieve of `n`: the primes up to `n` where `n` is
/// even. Where `n` is odd, the primes below `n` and then, if the sieve has
/// padding, `n` itself, for the first bit of the padding stands for it.
pub proof fn lemma_sieve_listing(n: nat)
    requires
        n >= 2,
    ensures
        listed(sieve_bits(n), n as int) == primes_up_to(n - n % 2) + (if n % 2 == 1
            && sieve_is_padded(n) {
            seq![n as int]
        } else {
            Seq::empty()
        }),
{
    let bits = sieve_bits(n);
    let len = (n / 2) as int;
    let total = bits.len() as int;
    lemma_sieve_padding_len(n);
    lemma_listed_prefix(bits, n as int, len);
    let head = odds_listed(bits, n as int, len);
    if n % 2 == 1 && sieve_is_padded(n) {
        assert(bits[len]);
        assert(odds_listed(bits, n as int, len + 1) == head.push(n as int));
        lemma_odds_listed_stops(bits, n as int, len + 1, total);
        assert(seq![2int] + head.push(n as int) =~= (seq![2int] + head) + seq![n as int]);
    } else {
        if total > len {
            lemma_odds_listed_stops(bits, n as int, len, total);
        }
        assert((seq![2int] + head) + Seq::<int>::empty() =~= seq![2int] + head);
    }
}

/// What counting gives for the sieve of `n`: the number of primes up to `n`
/// where `n` is even, of primes below `n` where it is odd.
pub proof fn lemma_sieve_count(n: nat)
    requires
        n >= 2,
    ensures
        counted(sieve_bits(n), sieve_padding(n).len(), true) == primes_up_to(n - n % 2).len(),
{
    let bits = sieve_bits(n);
    let len = (n / 2) as int;
    lemma_sieve_padding_len(n);
    lemma_listed_prefix(bits, n as int, len);
    assert(bits.take(len) =~= sieve_view(n));
    lemma_count_set_concat(sieve_view(n), sieve_padding(n));
    lemma_count_set_all(sieve_padding(n));
}

/// Listing the sieve of `n` gives the primes up to `n`, in increasing order.
/// This holds of every even `n`. Of an odd `n` it holds where the sieve's
/// padding and the primality of `n` agree: for `n` is listed, prime or not,
/// just where the sieve has padding.
pub proof fn lemma_listing_is_the_primes(n: nat)
    requires
        n >= 2,
        n % 2 == 0 || (is_prime(n as int) <==> sieve_is_padded(n)),
    ensures
        listed(sieve_bits(n), n as int) == primes_up_to(n as int),
{
    lemma_sieve_listing(n);
    if n % 2 == 0 {
        assert(primes_up_to(n as int) + Seq::<int>::empty() =~= primes_up_to(n as int));
    } else if is_prime(n as int) {
        assert(primes_up_to(n - 1) + seq![n as int] =~= primes_up_to(n - 1).push(n as int));
    } else {
        assert(primes_up_to(n - 1) + Seq::<int>::empty() =~= primes_up_to(n - 1));
    }
}

/// Counting the sieve of `n` gives the number of primes up to `n`. This
/// holds of every `n` but an odd prime, which has no bit among the elements
/// of its own sieve and so is not counted.
pub proof fn lemma_count_is_the_number_of_primes(n: nat)
    requires
        n >= 2,
        n % 2 == 0 || !is_prime(n as int),
    ensures
        counted(sieve_bits(n), sieve_padding(n).len(), true) == primes_up_to(n as int).len(),
{
    lemma_sieve_count(n);
}

/// Counting the sieve of `n` gives the length of its listing. This holds of
/// every even `n`, and of an odd `n` whose sieve has no padding: where it
/// has, the listing holds `n` besides what is counted.
pub proof fn lemma_count_is_the_length_of_the_listing(n: nat)
    requires
        n >= 2,
        n % 2 == 0 || !sieve_is_padded(n),
    ensures
        counted(sieve_bits(n), sieve_padding(n).len(), true) == listed(
            sieve_bits(n),
            n as int,
        ).len(),
{
    lemma_sieve_count(n);
    lemma_sieve_listing(n);
}

} // verus!
