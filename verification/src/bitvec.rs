//! A fixed-length array of booleans packed into machine words.

use vstd::prelude::*;

verus! {

/// Number of booleans that one storage word holds.
pub const BITS_PER_USIZE: usize = usize::BITS as usize;

/// Bit `b` of `word`, counted from the least significant one.
pub open spec fn word_bit(word: usize, b: int) -> bool {
    (word >> (b as usize)) & 1usize == 1usize
}

/// The booleans that a sequence of words stores: word by word, and within
/// each word from the least significant bit up.
pub open spec fn words_bits(words: Seq<usize>) -> Seq<bool> {
    Seq::new(
        words.len() * (usize::BITS as nat),
        |k: int| word_bit(words[k / (usize::BITS as int)], k % (usize::BITS as int)),
    )
}

/// Number of words needed to store `len` booleans.
pub open spec fn words_needed(len: nat) -> nat {
    if len % (usize::BITS as nat) == 0 {
        len / (usize::BITS as nat)
    } else {
        len / (usize::BITS as nat) + 1
    }
}

/// A word of all ones has every bit set, a word of all zeros has none.
proof fn lemma_bit_of_fill(b: usize)
    requires
        b < usize::BITS,
    ensures
        ((!0usize) >> b) & 1usize == 1usize,
        (0usize >> b) & 1usize != 1usize,
{
    assert(((!0usize) >> b) & 1usize == 1usize) by (bit_vector)
        requires
            b < usize::BITS,
    ;
    assert((0usize >> b) & 1usize != 1usize) by (bit_vector);
}

/// Testing a word against a one-bit mask reads the bit at the mask's place.
proof fn lemma_bit_of_mask(w: usize, b: usize)
    requires
        b < usize::BITS,
    ensures
        (w & (1usize << b) != 0) == ((w >> b) & 1usize == 1usize),
{
    assert((w & (1usize << b) != 0) == ((w >> b) & 1usize == 1usize)) by (bit_vector)
        requires
            b < usize::BITS,
    ;
}

/// Or-ing a one-bit mask into a word sets that bit and keeps the others.
proof fn lemma_bit_after_or(w: usize, b: usize, c: usize)
    requires
        b < usize::BITS,
        c < usize::BITS,
    ensures
        (((w | (1usize << b)) >> c) & 1usize == 1usize) == (if c == b {
            true
        } else {
            (w >> c) & 1usize == 1usize
        }),
{
    assert((((w | (1usize << b)) >> c) & 1usize == 1usize) == (if c == b {
        true
    } else {
        (w >> c) & 1usize == 1usize
    })) by (bit_vector)
        requires
            b < usize::BITS,
            c < usize::BITS,
    ;
}

/// And-ing the complement of a one-bit mask into a word clears that bit and
/// keeps the others.
proof fn lemma_bit_after_and_not(w: usize, b: usize, c: usize)
    requires
        b < usize::BITS,
        c < usize::BITS,
    ensures
        (((w & !(1usize << b)) >> c) & 1usize == 1usize) == (if c == b {
            false
        } else {
            (w >> c) & 1usize == 1usize
        }),
{
    assert((((w & !(1usize << b)) >> c) & 1usize == 1usize) == (if c == b {
        false
    } else {
        (w >> c) & 1usize == 1usize
    })) by (bit_vector)
        requires
            b < usize::BITS,
            c < usize::BITS,
    ;
}

/// A packed array of booleans of fixed length.
///
/// The storage is a whole number of words, so it may hold more bits than the
/// array has elements. The elements are the first `len` stored bits; the
/// stored bits after them are padding, which `new` fills like the elements
/// and which nothing changes afterwards.
pub struct BitVec {
    vec: Vec<usize>,
    len: usize,
}

impl View for BitVec {
    type V = Seq<bool>;

    /// The elements of the array.
    closed spec fn view(&self) -> Seq<bool> {
        words_bits(self.vec@).take(self.len as int)
    }
}

impl BitVec {
    /// The stored bits after the last element.
    pub closed spec fn padding(&self) -> Seq<bool> {
        words_bits(self.vec@).skip(self.len as int)
    }

    #[verifier::type_invariant]
    spec fn well_formed(&self) -> bool {
        self.vec@.len() == words_needed(self.len as nat)
    }

    /// An array of `len` elements that are all `default`, on as few words as
    /// hold them; the padding is `default` too.
    pub fn new(default: bool, len: usize) -> (r: Self)
        ensures
            r@ == Seq::new(len as nat, |i: int| default),
            r.padding() == Seq::new(
                (words_needed(len as nat) * (usize::BITS as nat) - len) as nat,
                |i: int| default,
            ),
    {
        let fill: usize = if default {
            !0usize
        } else {
            0usize
        };
        let words: usize = if len % BITS_PER_USIZE == 0 {
            len / BITS_PER_USIZE
        } else {
            len / BITS_PER_USIZE + 1
        };
        let r = Self { vec: vec![fill; words], len };
        proof {
            let bits = words_bits(r.vec@);
            assert forall|k: int| 0 <= k < bits.len() implies bits[k] == default by {
                lemma_bit_of_fill((k % (usize::BITS as int)) as usize);
            }
            assert(r@ =~= Seq::new(len as nat, |i: int| default));
            assert(r.padding() =~= Seq::new(
                (words_needed(len as nat) * (usize::BITS as nat) - len) as nat,
                |i: int| default,
            ));
        }
        r
    }

    /// The element at index `i`.
    pub fn get(&self, i: usize) -> (r: bool)
        requires
            i < self@.len(),
        ensures
            r == self@[i as int],
    {
        proof {
            use_type_invariant(self);
            lemma_bit_of_mask(self.vec@[i as int / (usize::BITS as int)], (i % BITS_PER_USIZE) as usize);
        }
        self.vec[i / BITS_PER_USIZE] & (1usize << (i % BITS_PER_USIZE)) != 0
    }

    /// Stores `v` at index `i`. No other element changes, nor the padding.
    pub fn set(&mut self, i: usize, v: bool)
        requires
            i < old(self)@.len(),
        ensures
            final(self)@ == old(self)@.update(i as int, v),
            final(self).padding() == old(self).padding(),
    {
        proof {
            use_type_invariant(&*self);
        }
        let mask: usize = 1usize << (i % BITS_PER_USIZE);
        let word: usize = self.vec[i / BITS_PER_USIZE];
        if v {
            self.vec[i / BITS_PER_USIZE] = word | mask;
        } else {
            self.vec[i / BITS_PER_USIZE] = word & !mask;
        }
        proof {
            let b = (i % BITS_PER_USIZE) as usize;
            let before = words_bits(old(self).vec@);
            let after = words_bits(self.vec@);
            assert forall|k: int| 0 <= k < after.len() implies after[k] == before.update(
                i as int,
                v,
            )[k] by {
                let c = (k % (usize::BITS as int)) as usize;
                if k / (usize::BITS as int) == i as int / (usize::BITS as int) {
                    lemma_bit_after_or(word, b, c);
                    lemma_bit_after_and_not(word, b, c);
                }
            }
            assert(after =~= before.update(i as int, v));
            assert(self@ =~= old(self)@.update(i as int, v));
            assert(self.padding() =~= old(self).padding());
        }
    }

    /// The number of elements.
    pub fn len(&self) -> (r: usize)
        ensures
            r == self@.len(),
    {
        proof {
            use_type_invariant(self);
        }
        self.len
    }

    /// Gives up the array for its storage words and its number of elements.
    /// The words store the elements first and the padding after them.
    pub fn into_inner(self) -> (r: (Vec<usize>, usize))
        ensures
            words_bits(r.0@) == self@ + self.padding(),
            r.0@.len() == words_needed(self@.len()),
            r.1 == self@.len(),
    {
        proof {
            use_type_invariant(&self);
            assert(words_bits(self.vec@) =~= self@ + self.padding());
        }
        (self.vec, self.len)
    }
}

} // verus!
