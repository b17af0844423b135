//! Access to a matrix's individual rows.

use vstd::prelude::*;
use crate::bits::{lemma_slice_bit, low_mask, seq_bit, vec_bit, word_bit};

verus! {

/// The value of a right-aligned small slice: the addressed word shifted down
/// to the bit and masked to `len` bits, or 0 when the word does not exist.
pub open spec fn spec_small_slice(words: Seq<u32>, bit: nat, len: u32) -> u32
    recommends
        len <= 32,
{
    if bit / 32 < words.len() {
        (words[(bit / 32) as int] >> ((bit % 32) as u32)) & low_mask(len)
    } else {
        0u32
    }
}

/// A slice of bit-vector blocks. It holds its own copy of the words, so it
/// stays valid independently of the matrix it was read from.
#[derive(Debug)]
pub struct BitSlice {
    words: Vec<u32>,
}

/// An iterator over a range of a row's bits.
#[derive(Debug)]
pub struct Iter {
    slice: BitSlice,
    pos: usize,
    end: usize,
}

/// Copies a word vector element by element.
pub(crate) fn copy_words(v: &Vec<u32>) -> (r: Vec<u32>)
    ensures
        r@ == v@,
{
    let mut r: Vec<u32> = Vec::new();
    let mut i: usize = 0;
    while i < v.len()
        invariant
            i <= v.len(),
            r@ == v@.take(i as int),
        decreases v.len() - i,
    {
        r.push(v[i]);
        i += 1;
        proof {
            assert(r@ =~= v@.take(i as int));
        }
    }
    proof {
        assert(v@.take(v@.len() as int) =~= v@);
    }
    r
}

/// Copies the word range `start .. end` element by element.
pub(crate) fn copy_words_range(v: &Vec<u32>, start: usize, end: usize) -> (r: Vec<u32>)
    requires
        start <= end <= v@.len(),
    ensures
        r@ == v@.subrange(start as int, end as int),
{
    let mut r: Vec<u32> = Vec::new();
    let mut i: usize = start;
    while i < end
        invariant
            start <= i <= end <= v@.len(),
            r@ == v@.subrange(start as int, i as int),
        decreases end - i,
    {
        r.push(v[i]);
        i += 1;
        proof {
            assert(r@ =~= v@.subrange(start as int, i as int));
        }
    }
    r
}

impl BitSlice {
    /// The words the slice holds.
    pub closed spec fn spec_words(&self) -> Seq<u32> {
        self.words@
    }

    /// The boolean at `bit`; false at or past the end of the words.
    pub open spec fn spec_get(&self, bit: nat) -> bool {
        seq_bit(self.spec_words(), bit)
    }

    /// Creates a new slice holding the given blocks.
    pub fn new(words: Vec<u32>) -> (r: BitSlice)
        ensures
            r.spec_words() == words@,
    {
        BitSlice { words }
    }

    /// Returns `true` if a bit is enabled, or `false` otherwise — also, never
    /// failing, for any index at or past the end of the words.
    pub fn get(&self, bit: usize) -> (r: bool)
        ensures
            r == self.spec_get(bit as nat),
    {
        vec_bit(&self.words, bit)
    }

    /// Returns a small integer-sized slice: `len` (at most 32) consecutive
    /// bits starting at `bit`, right-aligned in the result as
    /// `(word >> offset) & ((1 << len) - 1)`, or 0 if `bit`'s word does not
    /// exist. While the bits stay within one word this equals reading `len`
    /// bits one by one.
    pub fn small_slice_aligned(&self, bit: usize, len: u8) -> (r: u32)
        requires
            len <= 32,
        ensures
            r == spec_small_slice(self.spec_words(), bit as nat, len as u32),
            forall|j: u32|
                j < len && bit % 32 + j < 32 ==> #[trigger] word_bit(r, j) == self.spec_get(
                    (bit + j) as nat,
                ),
            forall|j: u32| len <= j < 32 ==> !(#[trigger] word_bit(r, j)),
    {
        let block: usize = bit / 32;
        let offset: u32 = (bit % 32) as u32;
        let r: u32 = if block < self.words.len() {
            let w = self.words[block];
            let mask: u32 = if len == 32 {
                0xffff_ffffu32
            } else {
                proof {
                    assert(1u32 << (len as u32) >= 1u32) by (bit_vector)
                        requires
                            (len as u32) < 32,
                    ;
                }
                (1u32 << (len as u32)) - 1
            };
            (w >> offset) & mask
        } else {
            0u32
        };
        proof {
            if (bit as nat) / 32 < self.words@.len() {
                let w = self.words@[(bit as int) / 32];
                assert forall|j: u32| j < len && bit % 32 + j < 32 implies #[trigger] word_bit(
                    r,
                    j,
                ) == self.spec_get((bit + j) as nat) by {
                    lemma_slice_bit(w, offset, len as u32, j);
                    vstd::arithmetic::div_mod::lemma_fundamental_div_mod(bit as int, 32);
                    vstd::arithmetic::div_mod::lemma_fundamental_div_mod_converse(
                        bit + j,
                        32,
                        (bit as int) / 32,
                        bit as int % 32 + j,
                    );
                }
                assert forall|j: u32| len <= j < 32 implies !(#[trigger] word_bit(r, j)) by {
                    lemma_slice_bit(w, offset, len as u32, j);
                }
            } else {
                assert forall|j: u32| j < 32 implies !(#[trigger] word_bit(0u32, j)) by {
                    crate::bits::lemma_fill_word_bit(j);
                }
                assert forall|j: u32| j < len && bit % 32 + j < 32 implies #[trigger] word_bit(
                    r,
                    j,
                ) == self.spec_get((bit + j) as nat) by {
                    vstd::arithmetic::div_mod::lemma_fundamental_div_mod(bit as int, 32);
                    vstd::arithmetic::div_mod::lemma_fundamental_div_mod_converse(
                        bit + j,
                        32,
                        (bit as int) / 32,
                        bit as int % 32 + j,
                    );
                }
            }
        }
        r
    }

    /// Iterates over bits `0 .. len`.
    pub fn iter_bits(&self, len: usize) -> (r: Iter)
        ensures
            r.spec_words() == self.spec_words(),
            r.spec_pos() == 0,
            r.spec_end() == len,
    {
        Iter { slice: BitSlice { words: copy_words(&self.words) }, pos: 0, end: len }
    }

    /// The slice's blocks, as a copy.
    pub fn iter_blocks(&self) -> (r: Vec<u32>)
        ensures
            r@ == self.spec_words(),
    {
        copy_words(&self.words)
    }
}

impl Iter {
    /// The words the iterator walks.
    pub closed spec fn spec_words(&self) -> Seq<u32> {
        self.slice.spec_words()
    }

    /// The next bit position.
    pub closed spec fn spec_pos(&self) -> nat {
        self.pos as nat
    }

    /// The position the iteration stops at.
    pub closed spec fn spec_end(&self) -> nat {
        self.end as nat
    }

    /// The next bit of the range, or None once the range is exhausted.
    pub fn next(&mut self) -> (r: Option<bool>)
        ensures
            final(self).spec_words() == old(self).spec_words(),
            final(self).spec_end() == old(self).spec_end(),
            old(self).spec_pos() < old(self).spec_end() ==> r == Some(
                seq_bit(old(self).spec_words(), old(self).spec_pos()),
            ) && final(self).spec_pos() == old(self).spec_pos() + 1,
            old(self).spec_pos() >= old(self).spec_end() ==> r is None && final(self).spec_pos()
                == old(self).spec_pos(),
    {
        if self.pos < self.end {
            let b = self.slice.get(self.pos);
            self.pos = self.pos + 1;
            Some(b)
        } else {
            None
        }
    }
}

} // verus!
