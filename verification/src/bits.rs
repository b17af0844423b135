//! Word-level bit access: spec-level views of single packed words, the lemmas
//! that connect bitwise operations to them, and one executable bit probe.

use vstd::prelude::*;

verus! {

/// True iff bit `k` of word `w` is set.
pub open spec fn word_bit(w: u32, k: u32) -> bool {
    (w >> k) & 1u32 == 1u32
}

/// Word `w` with bit `k` set to `b` and every other bit unchanged.
pub open spec fn word_with_bit(w: u32, k: u32, b: bool) -> u32 {
    if b {
        w | (1u32 << k)
    } else {
        w & !(1u32 << k)
    }
}

/// The all-ones or all-zero word that fills freshly grown rows.
pub open spec fn fill_word(b: bool) -> u32 {
    if b {
        0xffff_ffffu32
    } else {
        0u32
    }
}

/// The word with exactly the low `len` bits set.
pub open spec fn low_mask(len: u32) -> u32
    recommends
        len <= 32,
{
    if len == 32 {
        0xffff_ffffu32
    } else {
        ((1u32 << len) - 1) as u32
    }
}

/// Bit `bit` of a packed word sequence; false at or past the end of the words.
pub open spec fn seq_bit(words: Seq<u32>, bit: nat) -> bool {
    bit / 32 < words.len() && word_bit(words[(bit / 32) as int], (bit % 32) as u32)
}

/// No bit of the all-zero word is set; every bit of the all-ones word is.
pub proof fn lemma_fill_word_bit(k: u32)
    by (bit_vector)
    requires
        k < 32,
    ensures
        !word_bit(0u32, k),
        word_bit(0xffff_ffffu32, k),
{
}

/// Writing bit `k` of a word changes that bit and no other.
pub proof fn lemma_word_with_bit(w: u32, k: u32, b: bool, j: u32)
    by (bit_vector)
    requires
        k < 32,
        j < 32,
    ensures
        word_bit(word_with_bit(w, k, b), j) == (if j == k {
            b
        } else {
            word_bit(w, j)
        }),
{
}

/// Writing a bit twice to the same value is the same as writing it once.
pub proof fn lemma_word_with_bit_idempotent(w: u32, k: u32, b: bool)
    by (bit_vector)
    requires
        k < 32,
    ensures
        word_with_bit(word_with_bit(w, k, b), k, b) == word_with_bit(w, k, b),
{
}

/// A bit of a bitwise-or is the disjunction of the operands' bits.
pub proof fn lemma_word_or_bit(a: u32, b: u32, j: u32)
    by (bit_vector)
    requires
        j < 32,
    ensures
        word_bit(a | b, j) == (word_bit(a, j) || word_bit(b, j)),
{
}

/// Bit `j` of the right-aligned slice `(w >> i) & low_mask(len)` is bit `i + j`
/// of the word while `j < len` stays within the word, and unset from `len` on.
pub proof fn lemma_slice_bit(w: u32, i: u32, len: u32, j: u32)
    by (bit_vector)
    requires
        i < 32,
        len <= 32,
        j < 32,
    ensures
        j < len && i + j < 32 ==> word_bit((w >> i) & low_mask(len), j) == word_bit(
            w,
            (i + j) as u32,
        ),
        j >= len ==> !word_bit((w >> i) & low_mask(len), j),
{
}

/// Bit `i` of a packed word vector, read by shifting and masking.
pub fn vec_bit(words: &Vec<u32>, i: usize) -> (r: bool)
    ensures
        r == seq_bit(words@, i as nat),
{
    let w: usize = i / 32;
    if w < words.len() {
        ((words[w] >> ((i % 32) as u32)) & 1u32) == 1u32
    } else {
        false
    }
}

} // verus!
