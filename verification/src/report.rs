//! What is reported of a sieved array: the primes it stands for, and how
//! many they are.

use crate::bitvec::{word_bit, words_bits, BitVec, BITS_PER_USIZE};
use vstd::arithmetic::div_mod::lemma_fundamental_div_mod_converse;
use vstd::prelude::*;

verus! {

/// How many of the booleans are set.
pub open spec fn count_set(bits: Seq<bool>) -> nat
    decreases bits.len(),
{
    if bits.len() == 0 {
        0
    } else if bits.last() {
        count_set(bits.drop_last()) + 1
    } else {
        count_set(bits.drop_last())
    }
}

/// How many bits of the word are set.
pub open spec fn word_ones(word: usize) -> nat {
    count_set(Seq::new(usize::BITS as nat, |b: int| word_bit(word, b)))
}

/// `usize::count_ones` of the standard library, which returns the number of
/// ones in the binary representation of the word. Verus takes this contract
/// on trust: the result is the number of bits of the word that are set.
pub assume_specification[ usize::count_ones ](word: usize) -> (ones: u32)
    ensures
        ones == word_ones(word),
;

/// What counting gives for the stored bits `bits`, of which the last
/// `padding` are padding: one for the prime 2, and one for each set bit;
/// where the array was filled with `true`, the padding is taken off again.
pub open spec fn counted(bits: Seq<bool>, padding: nat, default: bool) -> int {
    if default {
        1 + count_set(bits) - padding
    } else {
        1 + count_set(bits) as int
    }
}

/// No more booleans are set than there are.
pub proof fn lemma_count_set_bound(bits: Seq<bool>)
    ensures
        count_set(bits) <= bits.len(),
    decreases bits.len(),
{
    if bits.len() > 0 {
        lemma_count_set_bound(bits.drop_last());
    }
}

/// The count of a concatenation is the sum of the two counts.
pub proof fn lemma_count_set_concat(a: Seq<bool>, b: Seq<bool>)
    ensures
        count_set(a + b) == count_set(a) + count_set(b),
    decreases b.len(),
{
    if b.len() == 0 {
        assert(a + b =~= a);
    } else {
        assert((a + b).drop_last() =~= a + b.drop_last());
        lemma_count_set_concat(a, b.drop_last());
    }
}

/// Where every boolean is set, the count is the length.
pub proof fn lemma_count_set_all(bits: Seq<bool>)
    requires
        forall|k: int| 0 <= k < bits.len() ==> bits[k],
    ensures
        count_set(bits) == bits.len(),
    decreases bits.len(),
{
    if bits.len() > 0 {
        lemma_count_set_all(bits.drop_last());
    }
}

/// One more word adds its own bits to the stored bits.
proof fn lemma_words_bits_push(words: Seq<usize>, w: int)
    requires
        0 <= w < words.len(),
    ensures
        words_bits(words.take(w + 1)) == words_bits(words.take(w)) + Seq::new(
            usize::BITS as nat,
            |b: int| word_bit(words[w], b),
        ),
{
    let width = usize::BITS as int;
    let left = words_bits(words.take(w + 1));
    let right = words_bits(words.take(w)) + Seq::new(
        usize::BITS as nat,
        |b: int| word_bit(words[w], b),
    );
    assert(left.len() == (w + 1) * width);
    assert(words_bits(words.take(w)).len() == w * width);
    assert((w + 1) * width == w * width + width) by (nonlinear_arith);
    assert forall|k: int| 0 <= k < left.len() implies left[k] == right[k] by {
        if k < w * width {
            assert(k / width < w) by (nonlinear_arith)
                requires
                    0 <= k < w * width,
                    width > 0,
            ;
        } else {
            lemma_fundamental_div_mod_converse(k, width, w, k - w * width);
        }
    }
    assert(left =~= right);
}

/// Counts the primes that a sieved array stands for: one for the prime 2,
/// and one for each set bit of the storage. With `default` set, which is for
/// an array that was filled with `true`, the number of padding bits is taken
/// off again, so that only the set elements are counted.
pub fn count_primes(vector: BitVec, default: bool) -> (count: usize)
    requires
        vector@.len() + vector.padding().len() < usize::MAX,
        default ==> forall|k: int| 0 <= k < vector.padding().len() ==> vector.padding()[k],
    ensures
        count == counted(vector@ + vector.padding(), vector.padding().len(), default),
        default ==> count == 1 + count_set(vector@),
{
    proof {
        lemma_count_set_concat(vector@, vector.padding());
        if default {
            lemma_count_set_all(vector.padding());
        }
    }
    let ghost bits = vector@ + vector.padding();
    let (words, len) = vector.into_inner();
    let mut count: usize = 1;
    let mut w: usize = 0;
    proof {
        assert(words_bits(words@.take(0)) =~= Seq::<bool>::empty());
        assert(words_bits(words@).len() == words@.len() * usize::BITS);
    }
    while w < words.len()
        invariant
            w <= words@.len(),
            words@.len() * usize::BITS < usize::MAX,
            count == 1 + count_set(words_bits(words@.take(w as int))),
        decreases words@.len() - w,
    {
        proof {
            lemma_words_bits_push(words@, w as int);
            lemma_count_set_concat(
                words_bits(words@.take(w as int)),
                Seq::new(usize::BITS as nat, |b: int| word_bit(words@[w as int], b)),
            );
            lemma_count_set_bound(words_bits(words@.take(w + 1)));
            assert((w + 1) * usize::BITS <= words@.len() * usize::BITS) by (nonlinear_arith)
                requires
                    w + 1 <= words@.len(),
            ;
        }
        count += words[w].count_ones() as usize;
        w += 1;
    }
    proof {
        assert(words@.take(w as int) =~= words@);
        assert(words_bits(words@) == bits);
        assert(BITS_PER_USIZE * words@.len() == bits.len()) by (nonlinear_arith)
            requires
                bits.len() == words@.len() * usize::BITS,
                BITS_PER_USIZE == usize::BITS,
        ;
    }
    if default {
        count -= BITS_PER_USIZE * words.len() - len;
    }
    count
}

/// The odd numbers up to `limit` whose bit is set among the first `k` of
/// `bits`, in increasing order: the bit at index `i` stands for `2 * i + 1`.
pub open spec fn odds_listed(bits: Seq<bool>, limit: int, k: int) -> Seq<int>
    decreases k,
{
    if k <= 0 {
        Seq::empty()
    } else if k <= bits.len() && bits[k - 1] && 2 * k - 1 <= limit {
        odds_listed(bits, limit, k - 1).push(2 * k - 1)
    } else {
        odds_listed(bits, limit, k - 1)
    }
}

/// What listing gives for the stored bits `bits`: the number 2, then the
/// odd numbers up to `limit` whose bit is set.
pub open spec fn listed(bits: Seq<bool>, limit: int) -> Seq<int> {
    seq![2int] + odds_listed(bits, limit, bits.len() as int)
}

/// The numbers of a list, as mathematical integers.
pub open spec fn as_ints(list: Seq<usize>) -> Seq<int> {
    list.map_values(|p: usize| p as int)
}

/// From the first index whose number is over the limit on, nothing is
/// listed any more.
pub proof fn lemma_odds_listed_stops(bits: Seq<bool>, limit: int, k: int, m: int)
    requires
        0 <= k <= m,
        2 * k + 1 > limit,
    ensures
        odds_listed(bits, limit, m) == odds_listed(bits, limit, k),
    decreases m - k,
{
    if k < m {
        lemma_odds_listed_stops(bits, limit, k, m - 1);
    }
}

/// Shifting a word to the right by one more place.
proof fn lemma_shift_once_more(word: usize, b: usize)
    requires
        b < usize::BITS,
    ensures
        (word >> b) >> 1usize == word >> ((b + 1) as usize),
{
    assert((word >> b) >> 1usize == word >> ((b + 1) as usize)) by (bit_vector)
        requires
            b < usize::BITS,
    ;
}

/// Lists the primes that a sieved array stands for: the number 2, then
/// `2 * i + 1` for each index `i` of the storage whose bit is set, as long as
/// that number is no more than `upper_limit`. The padding is read like the
/// elements: only the limit ends the list.
pub fn list_primes(vector: BitVec, upper_limit: usize) -> (primes: Vec<usize>)
    ensures
        as_ints(primes@) == listed(vector@ + vector.padding(), upper_limit as int),
{
    let ghost bits = vector@ + vector.padding();
    let (words, _) = vector.into_inner();
    // How many odd numbers there are up to the limit.
    let odds: usize = upper_limit / 2 + upper_limit % 2;
    let mut primes: Vec<usize> = Vec::new();
    primes.push(2);
    let mut k: usize = 0;
    let mut w: usize = 0;
    proof {
        assert(as_ints(primes@) =~= seq![2int] + odds_listed(bits, upper_limit as int, 0));
    }
    while w < words.len() && k < odds
        invariant
            w <= words@.len(),
            bits == words_bits(words@),
            odds == upper_limit / 2 + upper_limit % 2,
            k == w * usize::BITS,
            k <= bits.len(),
            k <= odds + usize::BITS,
            as_ints(primes@) == seq![2int] + odds_listed(bits, upper_limit as int, k as int),
        decreases words@.len() - w,
    {
        let mut x: usize = words[w];
        let mut b: usize = 0;
        proof {
            assert(x >> 0usize == x) by (bit_vector);
        }
        while b < BITS_PER_USIZE
            invariant
                w < words@.len(),
                bits == words_bits(words@),
                odds == upper_limit / 2 + upper_limit % 2,
                b <= usize::BITS,
                k == w * usize::BITS + b,
                k <= odds + b,
                b < usize::BITS ==> x == words@[w as int] >> b,
                as_ints(primes@) == seq![2int] + odds_listed(bits, upper_limit as int, k as int),
            decreases usize::BITS - b,
        {
            proof {
                lemma_fundamental_div_mod_converse(k as int, usize::BITS as int, w as int, b as int);
                assert(k < bits.len()) by (nonlinear_arith)
                    requires
                        k == w * usize::BITS + b,
                        b < usize::BITS,
                        w < words@.len(),
                        bits.len() == words@.len() * usize::BITS,
                ;
                assert(bits[k as int] == (x & 1usize == 1usize));
                lemma_shift_once_more(words@[w as int], b);
            }
            if x & 1 == 1 && k < odds {
                let ghost before = primes@;
                primes.push(2 * k + 1);
                proof {
                    assert(as_ints(primes@) =~= as_ints(before).push(2 * k + 1));
                    assert(as_ints(primes@) =~= seq![2int] + odds_listed(
                        bits,
                        upper_limit as int,
                        k + 1,
                    ));
                }
            }
            x >>= 1;
            k += 1;
            b += 1;
        }
        w += 1;
        proof {
            assert(k == w * usize::BITS) by (nonlinear_arith)
                requires
                    k == (w - 1) * usize::BITS + usize::BITS,
            ;
            assert(k <= bits.len()) by (nonlinear_arith)
                requires
                    k == w * usize::BITS,
                    w <= words@.len(),
                    bits.len() == words@.len() * usize::BITS,
            ;
        }
    }
    proof {
        if w < words@.len() {
            lemma_odds_listed_stops(bits, upper_limit as int, k as int, bits.len() as int);
        }
        assert(odds_listed(bits, upper_limit as int, k as int) == odds_listed(
            bits,
            upper_limit as int,
            bits.len() as int,
        ));
    }
    primes
}

/// Lists the primes that a sieved array stands for, as `list_primes` does,
/// and counts the numbers listed.
pub fn count_and_list_primes(vector: BitVec, upper_limit: usize) -> (r: (Vec<usize>, usize))
    ensures
        as_ints(r.0@) == listed(vector@ + vector.padding(), upper_limit as int),
        r.1 == r.0@.len(),
{
    let primes = list_primes(vector, upper_limit);
    let count: usize = primes.len();
    (primes, count)
}

/// What is reported of a sieved array: the list of primes where it was
/// asked for, and their count where that was asked for.
#[derive(Debug, PartialEq, Eq)]
pub struct Report {
    /// The primes, in increasing order.
    pub primes: Option<Vec<usize>>,
    /// How many primes there are.
    pub count: Option<usize>,
}

/// Reports on an array that was filled with `true` and then sieved. Asked
/// for both, the count is that of the primes listed; asked for the count
/// alone, the storage is counted and nothing is listed.
pub fn report(vector: BitVec, upper_limit: usize, print: bool, count: bool) -> (r: Report)
    requires
        count && !print ==> vector@.len() + vector.padding().len() < usize::MAX,
        count && !print ==> forall|k: int| 0 <= k < vector.padding().len() ==> vector.padding()[k],
    ensures
        match r.primes {
            Some(primes) => print && as_ints(primes@) == listed(
                vector@ + vector.padding(),
                upper_limit as int,
            ),
            None => !print,
        },
        match r.count {
            Some(number) => count && number == (if print {
                listed(vector@ + vector.padding(), upper_limit as int).len() as int
            } else {
                counted(vector@ + vector.padding(), vector.padding().len(), true)
            }),
            None => !count,
        },
{
    if count && print {
        let (primes, number) = count_and_list_primes(vector, upper_limit);
        proof {
            assert(as_ints(primes@).len() == primes@.len());
        }
        Report { primes: Some(primes), count: Some(number) }
    } else if count {
        let number: usize = count_primes(vector, true);
        Report { primes: None, count: Some(number) }
    } else if print {
        let primes = list_primes(vector, upper_limit);
        Report { primes: Some(primes), count: None }
    } else {
        Report { primes: None, count: None }
    }
}

} // verus!
