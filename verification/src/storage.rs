//! Trusted boundary around the `bit_vec` crate, which supplies the growable
//! packed bit storage the matrix owns. Each wrapper states, over the named
//! storage words and bit count, what the called function's source shows.

use vstd::prelude::*;
use crate::bits::{fill_word, word_with_bit};

verus! {

#[verifier::external_type_specification]
#[verifier::external_body]
#[verifier::reject_recursive_types(B)]
pub struct ExBitVec<B>(bit_vec::BitVec<B>);

/// The words of the bit vector's backing storage, in order.
pub uninterp spec fn bv_words(v: bit_vec::BitVec) -> Seq<u32>;

/// The number of bits the bit vector holds; its storage is that count of bits
/// rounded up to whole words.
pub uninterp spec fn bv_nbits(v: bit_vec::BitVec) -> nat;

/// Relies on bit_vec::BitVec::from_elem: `len` bits, each set to `bit`. With a
/// whole number of words there is no partial last block, so every storage word
/// is all-ones or all-zero.
#[verifier::external_body]
pub(crate) fn bv_from_elem(len: usize, bit: bool) -> (r: bit_vec::BitVec)
    requires
        len % 32 == 0,
    ensures
        bv_nbits(r) == len,
        bv_words(r).len() == len / 32,
        forall|k: int| 0 <= k < bv_words(r).len() ==> bv_words(r)[k] == fill_word(bit),
{
    bit_vec::BitVec::from_elem(len, bit)
}

/// Relies on bit_vec::BitVec::storage: the backing words, read for their count.
#[verifier::external_body]
pub(crate) fn bv_word_count(v: &bit_vec::BitVec) -> (r: usize)
    ensures
        r == bv_words(*v).len(),
{
    v.storage().len()
}

/// Relies on bit_vec::BitVec::storage: the backing words, read at one index.
#[verifier::external_body]
pub(crate) fn bv_word_at(v: &bit_vec::BitVec, k: usize) -> (r: u32)
    requires
        k < bv_words(*v).len(),
    ensures
        r == bv_words(*v)[k as int],
{
    v.storage()[k]
}

/// Relies on bit_vec::BitVec::set: writes bit `i` by updating one storage
/// word; it panics only when `i` is out of bounds, which the precondition
/// rules out.
#[verifier::external_body]
pub(crate) fn bv_set(v: &mut bit_vec::BitVec, i: usize, x: bool)
    requires
        i < bv_nbits(*old(v)),
        i / 32 < bv_words(*old(v)).len(),
    ensures
        bv_nbits(*final(v)) == bv_nbits(*old(v)),
        bv_words(*final(v)) == bv_words(*old(v)).update(
            i as int / 32,
            word_with_bit(bv_words(*old(v))[i as int / 32], (i % 32) as u32, x),
        ),
{
    v.set(i, x)
}

/// Relies on bit_vec::BitVec::fill: writes an all-ones or all-zero block over
/// every storage word; with a whole number of words there is no partial last
/// block to clear afterwards.
#[verifier::external_body]
pub(crate) fn bv_fill(v: &mut bit_vec::BitVec, bit: bool)
    requires
        bv_nbits(*old(v)) % 32 == 0,
    ensures
        bv_nbits(*final(v)) == bv_nbits(*old(v)),
        bv_words(*final(v)).len() == bv_words(*old(v)).len(),
        forall|k: int| 0 <= k < bv_words(*final(v)).len() ==> bv_words(*final(v))[k] == fill_word(
            bit,
        ),
{
    v.fill(bit)
}

/// Relies on bit_vec::BitVec::grow: appends `n` bits set to `value`. With
/// whole words on both sides it appends `n / 32` all-ones or all-zero words;
/// it panics only when the new bit count overflows, which the precondition
/// rules out.
#[verifier::external_body]
pub(crate) fn bv_grow(v: &mut bit_vec::BitVec, n: usize, value: bool)
    requires
        bv_nbits(*old(v)) % 32 == 0,
        n % 32 == 0,
        bv_nbits(*old(v)) + n <= usize::MAX,
    ensures
        bv_nbits(*final(v)) == bv_nbits(*old(v)) + n,
        bv_words(*final(v)) == bv_words(*old(v)) + Seq::new((n / 32) as nat, |k: int| fill_word(value)),
{
    v.grow(n, value)
}

/// Relies on bit_vec::BitVec::truncate: keeps the first `len` bits when `len`
/// is below the current bit count, and does nothing otherwise.
#[verifier::external_body]
pub(crate) fn bv_truncate(v: &mut bit_vec::BitVec, len: usize)
    requires
        bv_nbits(*old(v)) % 32 == 0,
        len % 32 == 0,
    ensures
        bv_nbits(*final(v)) == (if len < bv_nbits(*old(v)) {
            len as nat
        } else {
            bv_nbits(*old(v))
        }),
        bv_words(*final(v)) == (if len < bv_nbits(*old(v)) {
            bv_words(*old(v)).take(len as int / 32)
        } else {
            bv_words(*old(v))
        }),
{
    v.truncate(len)
}

/// Relies on bit_vec::BitVec::from_fn: builds a bit vector of `len` bits whose
/// bit `i` is `f(i)`. The closure hands back bit `i` of `words`, and `len`
/// covers the words exactly, so the storage words equal `words`.
#[verifier::external_body]
pub(crate) fn bv_from_words(words: &Vec<u32>, len: usize) -> (r: bit_vec::BitVec)
    requires
        len == words@.len() * 32,
    ensures
        bv_nbits(r) == len,
        bv_words(r) == words@,
{
    bit_vec::BitVec::from_fn(len, |i| crate::bits::vec_bit(words, i))
}

} // verus!
