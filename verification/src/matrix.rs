//! Matrix of bits.

use vstd::prelude::*;
use crate::bits::{fill_word, lemma_fill_word_bit, seq_bit};
use crate::model::{
    bit_addr,
    lemma_bit_addr_parts,
    lemma_mat_with_bit,
    lemma_row_blocks_pos,
    lemma_row_words_in_range,
    lemma_sub_words_bits,
    mat_bit,
    mat_rows,
    mat_with_bit,
    reaches,
    row_blocks,
};
use crate::row::{BitSlice, Iter};
use crate::storage::{
    bv_fill,
    bv_from_elem,
    bv_from_words,
    bv_grow,
    bv_nbits,
    bv_set,
    bv_truncate,
    bv_word_at,
    bv_word_count,
    bv_words,
};
use crate::submatrix::BitSubMatrix;
use crate::util::blocks_for;
use core::ops::Range;

verus! {

/// A matrix of bits, packed row-major into whole-word rows.
#[derive(Debug, PartialEq, Eq)]
pub struct BitMatrix {
    bit_vec: bit_vec::BitVec,
    row_bits: usize,
}

impl BitMatrix {
    /// The backing storage words.
    pub closed spec fn words(&self) -> Seq<u32> {
        bv_words(self.bit_vec)
    }

    /// The row width in bits.
    pub closed spec fn spec_row_bits(&self) -> nat {
        self.row_bits as nat
    }

    /// The number of rows.
    pub open spec fn spec_rows(&self) -> nat {
        mat_rows(self.words(), self.spec_row_bits())
    }

    /// The boolean at `(r, c)`.
    pub open spec fn spec_get(&self, r: int, c: int) -> bool {
        mat_bit(self.words(), self.spec_row_bits(), r, c)
    }

    /// Well-formed: the storage is a whole number of whole-word rows, and the
    /// stored bit count matches it.
    pub closed spec fn wf(&self) -> bool {
        &&& bv_nbits(self.bit_vec) == self.words().len() * 32
        &&& self.words().len() * 32 <= usize::MAX
        &&& (self.row_bits == 0 ==> self.words().len() == 0)
        &&& (self.row_bits > 0 ==> self.words().len() % row_blocks(self.row_bits as nat) == 0)
    }

    /// Create a new BitMatrix with specific numbers of bits in columns and
    /// rows, every bit false. A matrix with a zero row width holds no rows.
    pub fn new(rows: usize, row_bits: usize) -> (r: BitMatrix)
        requires
            row_blocks(row_bits as nat) * rows * 32 <= usize::MAX,
        ensures
            r.wf(),
            r.spec_row_bits() == row_bits,
            r.spec_rows() == (if row_bits == 0 {
                0nat
            } else {
                rows as nat
            }),
            forall|i: int, j: int| !r.spec_get(i, j),
    {
        let rb = blocks_for(row_bits);
        proof {
            assert(rb * rows <= usize::MAX && rb * rows * 32 == (rb * rows) * 32)
                by (nonlinear_arith)
                requires
                    rb * rows * 32 <= usize::MAX,
                    0 <= rb,
                    0 <= rows,
            ;
        }
        let nwords = rb * rows;
        proof {
            assert((nwords * 32) % 32 == 0 && (nwords * 32) / 32 == nwords) by (nonlinear_arith)
                requires
                    0 <= nwords,
            ;
            if row_bits > 0 {
                lemma_row_blocks_pos(row_bits as nat);
                assert((rb as int * rows as int) % (rb as int) == 0 && (rb as int * rows as int)
                    / (rb as int) == rows as int) by (nonlinear_arith)
                    requires
                        rb > 0,
                        0 <= rows,
                ;
            }
        }
        let m = BitMatrix { bit_vec: bv_from_elem(nwords * 32, false), row_bits };
        proof {
            if row_bits == 0 {
                assert(nwords as int == 0) by (nonlinear_arith)
                    requires
                        rb == 0,
                        nwords as int == rb as int * rows as int,
                ;
            }
            assert(bv_nbits(m.bit_vec) == m.words().len() * 32);
            assert(m.words().len() * 32 <= usize::MAX);
            assert(m.row_bits == 0 ==> m.words().len() == 0);
            assert(m.row_bits > 0 ==> m.words().len() % row_blocks(m.row_bits as nat) == 0);
            assert(m.wf());
            assert forall|i: int, j: int| !m.spec_get(i, j) by {
                if 0 <= i < m.spec_rows() && 0 <= j < row_bits {
                    lemma_bit_addr_parts(row_bits as nat, i, j);
                    lemma_row_blocks_pos(row_bits as nat);
                    let addr = bit_addr(row_bits as nat, i, j);
                    if addr / 32 < m.words().len() {
                        lemma_fill_word_bit((addr % 32) as u32);
                    }
                }
            }
        }
        m
    }

    /// Returns the number of rows.
    pub fn num_rows(&self) -> (r: usize)
        requires
            self.wf(),
        ensures
            r == self.spec_rows(),
    {
        if self.row_bits == 0 {
            0
        } else {
            let rb = blocks_for(self.row_bits);
            proof {
                lemma_row_blocks_pos(self.row_bits as nat);
            }
            bv_word_count(&self.bit_vec) / rb
        }
    }

    /// Returns the matrix's size as `(rows, columns)`.
    pub fn size(&self) -> (r: (usize, usize))
        requires
            self.wf(),
        ensures
            r.0 == self.spec_rows(),
            r.1 == self.spec_row_bits(),
    {
        (self.num_rows(), self.row_bits)
    }

    /// Sets the value of a bit. The address must be in bounds.
    pub fn set(&mut self, row: usize, col: usize, enabled: bool)
        requires
            old(self).wf(),
            row < old(self).spec_rows(),
            col < old(self).spec_row_bits(),
        ensures
            final(self).wf(),
            final(self).spec_row_bits() == old(self).spec_row_bits(),
            final(self).spec_rows() == old(self).spec_rows(),
            final(self).words() == mat_with_bit(
                old(self).words(),
                old(self).spec_row_bits(),
                row as int,
                col as int,
                enabled,
            ),
            forall|i: int, j: int| #![auto]
                final(self).spec_get(i, j) == (if i == row && j == col {
                    enabled
                } else {
                    old(self).spec_get(i, j)
                }),
    {
        let ghost words0 = self.words();
        let ghost nb = self.spec_row_bits();
        let rb = blocks_for(self.row_bits);
        proof {
            lemma_row_blocks_pos(nb);
            lemma_row_words_in_range(words0, nb, row as int);
            lemma_bit_addr_parts(nb, row as int, col as int);
            assert(row * rb + col / 32 < (row + 1) * rb) by (nonlinear_arith)
                requires
                    0 <= col as int / 32 < rb,
            ;
            assert((row + 1) * rb <= words0.len());
        }
        let block = row * rb + col / 32;
        let i = block * 32 + col % 32;
        proof {
            assert(block * 32 + 32 <= words0.len() * 32) by (nonlinear_arith)
                requires
                    block < words0.len(),
            ;
            vstd::arithmetic::div_mod::lemma_fundamental_div_mod_converse(
                i as int,
                32,
                block as int,
                col as int % 32,
            );
            assert(i as int == bit_addr(nb, row as int, col as int));
        }
        bv_set(&mut self.bit_vec, i, enabled);
        proof {
            assert(self.words() == mat_with_bit(words0, nb, row as int, col as int, enabled));
            lemma_mat_with_bit(words0, nb, row as int, col as int, enabled);
            assert((self.row_bits > 0) ==> self.words().len() % row_blocks(nb) == 0);
        }
    }

    /// Returns the boolean at `(row, col)`. The address must be in bounds.
    pub fn get(&self, row: usize, col: usize) -> (r: bool)
        requires
            self.wf(),
            row < self.spec_rows(),
            col < self.spec_row_bits(),
        ensures
            r == self.spec_get(row as int, col as int),
    {
        let ghost nb = self.spec_row_bits();
        let rb = blocks_for(self.row_bits);
        proof {
            lemma_row_blocks_pos(nb);
            lemma_row_words_in_range(self.words(), nb, row as int);
            lemma_bit_addr_parts(nb, row as int, col as int);
            assert(row * rb + col / 32 < (row + 1) * rb) by (nonlinear_arith)
                requires
                    0 <= col as int / 32 < rb,
            ;
        }
        let w = bv_word_at(&self.bit_vec, row * rb + col / 32);
        ((w >> ((col % 32) as u32)) & 1u32) == 1u32
    }

    /// Copies the storage words of rows `start .. end`.
    fn rows_words(&self, start: usize, end: usize) -> (r: Vec<u32>)
        requires
            self.wf(),
            start <= end,
            end <= self.spec_rows(),
        ensures
            r@ == self.words().subrange(
                start as int * row_blocks(self.spec_row_bits()) as int,
                end as int * row_blocks(self.spec_row_bits()) as int,
            ),
    {
        let ghost nb = self.spec_row_bits();
        let rb = blocks_for(self.row_bits);
        proof {
            assert(self.words().len() <= self.words().len() * 32);
            if self.row_bits > 0 {
                lemma_row_blocks_pos(nb);
                if end > 0 {
                    lemma_row_words_in_range(self.words(), nb, end - 1);
                    assert((end - 1 + 1) * rb == end as int * rb);
                }
                assert(start as int * rb <= end as int * rb) by (nonlinear_arith)
                    requires
                        rb > 0,
                        0 <= start <= end,
                ;
            } else {
                assert(start as int * rb == 0 && end as int * rb == 0) by (nonlinear_arith)
                    requires
                        rb == 0,
                ;
                assert(self.words().len() == 0);
            }
        }
        let lo = start * rb;
        let hi = end * rb;
        let mut r: Vec<u32> = Vec::new();
        let mut i: usize = lo;
        while i < hi
            invariant
                lo <= i <= hi,
                hi <= self.words().len(),
                r@ == self.words().subrange(lo as int, i as int),
            decreases hi - i,
        {
            let w = bv_word_at(&self.bit_vec, i);
            r.push(w);
            i += 1;
            proof {
                assert(r@ =~= self.words().subrange(lo as int, i as int));
            }
        }
        r
    }

    /// Grows the matrix in-place, adding `num_rows` rows with every bit,
    /// padding included, set to `value`; existing rows are untouched. With a
    /// zero row width the matrix stays empty.
    pub fn grow(&mut self, num_rows: usize, value: bool)
        requires
            old(self).wf(),
            old(self).words().len() * 32 + row_blocks(old(self).spec_row_bits()) * num_rows * 32
                <= usize::MAX,
        ensures
            final(self).wf(),
            final(self).spec_row_bits() == old(self).spec_row_bits(),
            final(self).spec_rows() == (if old(self).spec_row_bits() == 0 {
                0int
            } else {
                old(self).spec_rows() + num_rows
            }),
            final(self).words() == old(self).words() + Seq::new(
                row_blocks(old(self).spec_row_bits()) * num_rows as nat,
                |k: int| fill_word(value),
            ),
            forall|i: int, j: int| #![auto]
                0 <= i < old(self).spec_rows() ==> final(self).spec_get(i, j) == old(
                    self,
                ).spec_get(i, j),
            forall|i: int, j: int| #![auto]
                old(self).spec_rows() <= i < final(self).spec_rows() && 0 <= j < old(
                    self,
                ).spec_row_bits() ==> final(self).spec_get(i, j) == value,
    {
        let ghost w0 = self.words();
        let ghost nb = self.spec_row_bits();
        let ghost rows0 = self.spec_rows();
        let rb = blocks_for(self.row_bits);
        proof {
            assert(rb * num_rows <= usize::MAX && rb as int * num_rows as int * 32 == (rb
                * num_rows) as int * 32) by (nonlinear_arith)
                requires
                    rb as int * num_rows as int * 32 + w0.len() * 32 <= usize::MAX,
                    0 <= rb,
                    0 <= num_rows,
                    0 <= w0.len(),
            ;
        }
        let add_words = rb * num_rows;
        let n = add_words * 32;
        proof {
            assert((w0.len() * 32) % 32 == 0 && (add_words as int * 32) % 32 == 0 && (add_words
                as int * 32) / 32 == add_words as int) by (nonlinear_arith)
                requires
                    0 <= w0.len(),
                    0 <= add_words,
            ;
        }
        bv_grow(&mut self.bit_vec, n, value);
        proof {
            let wnew = self.words();
            assert(wnew == w0 + Seq::new(add_words as nat, |k: int| fill_word(value)));
            assert(wnew.len() == w0.len() + add_words);
            assert((w0.len() + add_words) * 32 == w0.len() * 32 + add_words as int * 32)
                by (nonlinear_arith)
            ;
            if self.row_bits == 0 {
                assert(add_words as int == 0) by (nonlinear_arith)
                    requires
                        rb == 0,
                        add_words as int == rb as int * num_rows as int,
                ;
            } else {
                lemma_row_blocks_pos(nb);
                assert(rows0 as int * rb == w0.len()) by (nonlinear_arith)
                    requires
                        rb > 0,
                        w0.len() % (rb as nat) == 0,
                        rows0 == w0.len() / (rb as nat),
                ;
                assert((rows0 as int + num_rows) * rb == w0.len() + rb as int * num_rows as int)
                    by (nonlinear_arith)
                    requires
                        rows0 as int * rb == w0.len(),
                ;
                assert(((rows0 as int + num_rows) * rb) % (rb as int) == 0 && ((rows0 as int
                    + num_rows) * rb) / (rb as int) == rows0 as int + num_rows)
                    by (nonlinear_arith)
                    requires
                        rb > 0,
                        0 <= rows0 as int + num_rows,
                ;
            }
            assert forall|i: int, j: int| #![auto]
                0 <= i < rows0 implies self.spec_get(i, j) == mat_bit(w0, nb, i, j) by {
                if 0 <= j < nb {
                    lemma_bit_addr_parts(nb, i, j);
                    lemma_row_words_in_range(w0, nb, i);
                    assert(i * rb + j / 32 < (i + 1) * rb) by (nonlinear_arith)
                        requires
                            0 <= j / 32 < rb,
                    ;
                    assert(wnew[i * (rb as int) + j / 32] == w0[i * (rb as int) + j / 32]);
                }
            }
            assert forall|i: int, j: int| #![auto]
                rows0 <= i < self.spec_rows() && 0 <= j < nb implies self.spec_get(i, j)
                    == value by {
                lemma_bit_addr_parts(nb, i, j);
                lemma_row_words_in_range(wnew, nb, i);
                lemma_row_blocks_pos(nb);
                let block = i * (rb as int) + j / 32;
                assert(i * rb + j / 32 < (i + 1) * rb && rows0 as int * rb <= i * rb)
                    by (nonlinear_arith)
                    requires
                        0 <= j / 32 < rb,
                        rows0 <= i,
                        0 <= rb,
                ;
                assert(w0.len() <= block < wnew.len());
                assert(wnew[block] == fill_word(value));
                lemma_fill_word_bit((j % 32) as u32);
            }
        }
    }

    /// Truncates the matrix to at most `num_rows` rows, keeping those rows'
    /// bits; with `num_rows` at or above the current row count it does
    /// nothing.
    pub fn truncate(&mut self, num_rows: usize)
        requires
            old(self).wf(),
            row_blocks(old(self).spec_row_bits()) * num_rows * 32 <= usize::MAX,
        ensures
            final(self).wf(),
            final(self).spec_row_bits() == old(self).spec_row_bits(),
            final(self).spec_rows() == (if (num_rows as nat) < old(self).spec_rows() {
                num_rows as nat
            } else {
                old(self).spec_rows()
            }),
            final(self).words() == (if (num_rows as nat) < old(self).spec_rows() {
                old(self).words().take(
                    row_blocks(old(self).spec_row_bits()) as int * num_rows as int,
                )
            } else {
                old(self).words()
            }),
            forall|i: int, j: int| #![auto]
                0 <= i < final(self).spec_rows() ==> final(self).spec_get(i, j) == old(
                    self,
                ).spec_get(i, j),
    {
        let ghost w0 = self.words();
        let ghost nb = self.spec_row_bits();
        let ghost rows0 = self.spec_rows();
        let rb = blocks_for(self.row_bits);
        proof {
            assert(rb * num_rows <= usize::MAX && (rb * num_rows) as int * 32 == rb as int
                * num_rows as int * 32) by (nonlinear_arith)
                requires
                    rb as int * num_rows as int * 32 <= usize::MAX,
                    0 <= rb,
                    0 <= num_rows,
            ;
        }
        let keep = rb * num_rows;
        proof {
            assert((w0.len() * 32) % 32 == 0 && (keep as int * 32) % 32 == 0 && (keep as int * 32)
                / 32 == keep as int) by (nonlinear_arith)
                requires
                    0 <= w0.len(),
                    0 <= keep,
            ;
            if self.row_bits > 0 {
                lemma_row_blocks_pos(nb);
                assert((num_rows < rows0 <==> keep < w0.len()) && rows0 as int * rb == w0.len()
                    && (keep as int) % (rb as int) == 0 && keep as int / (rb as int)
                    == num_rows as int) by (nonlinear_arith)
                    requires
                        rb > 0,
                        keep as int == rb as int * num_rows as int,
                        w0.len() % (rb as nat) == 0,
                        rows0 == w0.len() / (rb as nat),
                ;
                assert(keep < w0.len() <==> keep * 32 < w0.len() * 32) by (nonlinear_arith);
            } else {
                assert(keep as int == 0) by (nonlinear_arith)
                    requires
                        rb == 0,
                        keep as int == rb as int * num_rows as int,
                ;
                assert(w0.len() == 0);
            }
        }
        bv_truncate(&mut self.bit_vec, keep * 32);
        proof {
            let wnew = self.words();
            if (num_rows as nat) < rows0 {
                assert(wnew == w0.take(keep as int));
            } else {
                assert(wnew == w0);
            }
            assert forall|i: int, j: int| #![auto]
                0 <= i < self.spec_rows() implies self.spec_get(i, j) == mat_bit(w0, nb, i, j) by {
                if 0 <= j < nb {
                    lemma_bit_addr_parts(nb, i, j);
                    lemma_row_words_in_range(wnew, nb, i);
                    lemma_row_words_in_range(w0, nb, i);
                    assert(i * rb + j / 32 < (i + 1) * rb) by (nonlinear_arith)
                        requires
                            0 <= j / 32 < rb,
                    ;
                    assert(wnew[i * (rb as int) + j / 32] == w0[i * (rb as int) + j / 32]);
                }
            }
        }
    }

    /// The matrix's structured form: its row width, and a copy of its storage
    /// words, row-major with rows padded to whole words.
    pub fn to_parts(&self) -> (r: (usize, Vec<u32>))
        requires
            self.wf(),
        ensures
            r.0 == self.spec_row_bits(),
            r.1@ == self.words(),
    {
        let ghost nb = self.spec_row_bits();
        let rows = self.num_rows();
        let words = self.rows_words(0, rows);
        proof {
            let rb = row_blocks(nb) as int;
            if self.row_bits > 0 {
                lemma_row_blocks_pos(nb);
                assert(self.spec_rows() as int * rb == self.words().len()) by (nonlinear_arith)
                    requires
                        rb > 0,
                        self.words().len() % (rb as nat) == 0,
                        self.spec_rows() == self.words().len() / (rb as nat),
                ;
            } else {
                assert(self.words().len() == 0);
            }
            assert(words@ =~= self.words());
        }
        (self.row_bits, words)
    }

    /// Rebuilds a matrix from its structured form. It succeeds exactly when
    /// the words are a whole number of whole-word rows whose bit count fits
    /// the machine; the rebuilt matrix holds exactly the given words.
    pub fn from_parts(row_bits: usize, words: Vec<u32>) -> (r: Option<BitMatrix>)
        ensures
            r is Some <==> {
                &&& words@.len() * 32 <= usize::MAX
                &&& (row_bits == 0 ==> words@.len() == 0)
                &&& (row_bits > 0 ==> words@.len() % row_blocks(row_bits as nat) == 0)
            },
            r matches Some(m) ==> m.wf() && m.spec_row_bits() == row_bits && m.words() == words@,
    {
        let len = words.len();
        proof {
            assert((len <= usize::MAX / 32) <==> (len * 32 <= usize::MAX)) by (nonlinear_arith)
                requires
                    0 <= len,
            ;
        }
        if len > usize::MAX / 32 {
            return None;
        }
        if row_bits == 0 {
            if len != 0 {
                return None;
            }
        } else {
            let rb = blocks_for(row_bits);
            proof {
                lemma_row_blocks_pos(row_bits as nat);
            }
            if len % rb != 0 {
                return None;
            }
        }
        let bv = bv_from_words(&words, len * 32);
        Some(BitMatrix { bit_vec: bv, row_bits })
    }

    /// Returns a slice of the matrix's rows, as its own copy of their words.
    /// Each bit of the slice reads as the matching bit of the matrix.
    pub fn sub_matrix(&self, range: Range<usize>) -> (r: BitSubMatrix)
        requires
            self.wf(),
            range.start <= range.end,
            range.end <= self.spec_rows(),
        ensures
            r.wf(),
            r.spec_row_bits() == self.spec_row_bits(),
            r.spec_rows() == range.end - range.start,
            forall|i: int, j: int|
                #[trigger] r.spec_get(i, j) == (0 <= i < range.end - range.start && self.spec_get(
                    range.start + i,
                    j,
                )),
    {
        let ghost nb = self.spec_row_bits();
        let words = self.rows_words(range.start, range.end);
        proof {
            lemma_sub_words_bits(self.words(), nb, range.start as int, range.end as int);
            let rb = row_blocks(nb) as int;
            if self.row_bits > 0 {
                lemma_row_blocks_pos(nb);
                assert((((range.end - range.start) as int) * rb) % rb == 0) by (nonlinear_arith)
                    requires
                        rb > 0,
                ;
            }
        }
        BitSubMatrix::new(words, self.row_bits)
    }

    /// Given a row's index, returns a view of all rows above that row and a
    /// view of that row together with all rows below.
    pub fn split_at(&self, row: usize) -> (r: (BitSubMatrix, BitSubMatrix))
        requires
            self.wf(),
            row <= self.spec_rows(),
        ensures
            r.0.wf(),
            r.1.wf(),
            r.0.spec_row_bits() == self.spec_row_bits(),
            r.1.spec_row_bits() == self.spec_row_bits(),
            r.0.spec_rows() == row,
            r.1.spec_rows() == self.spec_rows() - row,
            forall|i: int, j: int|
                #[trigger] r.0.spec_get(i, j) == (0 <= i < row && self.spec_get(i, j)),
            forall|i: int, j: int|
                #[trigger] r.1.spec_get(i, j) == (0 <= i < self.spec_rows() - row && self.spec_get(
                    row + i,
                    j,
                )),
    {
        let rows = self.num_rows();
        (self.sub_matrix(0..row), self.sub_matrix(row..rows))
    }

    /// Iterate over bits in the specified row.
    pub fn iter_row(&self, row: usize) -> (r: Iter)
        requires
            self.wf(),
            row < self.spec_rows(),
        ensures
            r.spec_pos() == 0,
            r.spec_end() == self.spec_row_bits(),
            forall|c: int|
                0 <= c < self.spec_row_bits() ==> seq_bit(r.spec_words(), c as nat) == #[trigger]
                self.spec_get(row as int, c),
    {
        let ghost nb = self.spec_row_bits();
        let words = self.rows_words(row, row + 1);
        proof {
            lemma_sub_words_bits(self.words(), nb, row as int, row as int + 1);
            assert forall|c: int| 0 <= c < nb implies seq_bit(words@, c as nat) == mat_bit(
                self.words(),
                nb,
                row as int,
                c,
            ) by {
                assert(mat_bit(words@, nb, 0, c) == mat_bit(self.words(), nb, row as int, c));
                lemma_bit_addr_parts(nb, 0, c);
                assert(bit_addr(nb, 0, c) == c);
                assert(mat_rows(words@, nb) == 1);
            }
        }
        BitSlice::new(words).iter_bits(self.row_bits)
    }

    /// Computes the transitive closure of the binary relation represented by
    /// the matrix, using Warshall's algorithm. The matrix must be square:
    /// afterwards the bit at `(i, j)` is enabled exactly when a path of one
    /// or more edges led from `i` to `j`, and no enabled bit is cleared.
    pub fn transitive_closure(&mut self)
        requires
            old(self).wf(),
            old(self).spec_rows() == old(self).spec_row_bits(),
        ensures
            final(self).wf(),
            final(self).spec_row_bits() == old(self).spec_row_bits(),
            final(self).spec_rows() == old(self).spec_rows(),
            final(self).words().len() == old(self).words().len(),
            forall|i: int, j: int|
                #[trigger] final(self).spec_get(i, j) == reaches(
                    old(self).words(),
                    old(self).spec_row_bits(),
                    i,
                    j,
                ),
            forall|i: int, j: int|
                #[trigger] old(self).spec_get(i, j) ==> final(self).spec_get(i, j),
    {
        let ghost w0 = self.words();
        let ghost nb = self.spec_row_bits();
        let rows = self.num_rows();
        let mut words = self.rows_words(0, rows);
        proof {
            let rb = row_blocks(nb) as int;
            if self.row_bits > 0 {
                lemma_row_blocks_pos(nb);
                assert(self.spec_rows() as int * rb == self.words().len()) by (nonlinear_arith)
                    requires
                        rb > 0,
                        self.words().len() % (rb as nat) == 0,
                        self.spec_rows() == self.words().len() / (rb as nat),
                ;
            } else {
                assert(self.words().len() == 0);
            }
            assert(words@ =~= w0);
        }
        crate::submatrix::warshall(&mut words, self.row_bits);
        let len = words.len();
        proof {
            assert((len as int * 32) / 32 == len as int && (len as int * 32) % 32 == 0)
                by (nonlinear_arith)
            ;
        }
        self.bit_vec = bv_from_words(&words, len * 32);
    }

    /// Computes the reflexive closure of the binary relation represented by
    /// the matrix: sets exactly the diagonal bits `(i, i)` for `i` below both
    /// dimensions, leaving every other bit unchanged.
    pub fn reflexive_closure(&mut self)
        requires
            old(self).wf(),
        ensures
            final(self).wf(),
            final(self).spec_row_bits() == old(self).spec_row_bits(),
            final(self).spec_rows() == old(self).spec_rows(),
            forall|i: int, j: int| #![auto]
                final(self).spec_get(i, j) == (old(self).spec_get(i, j) || (i == j && 0 <= i < old(
                    self,
                ).spec_rows() && 0 <= i < old(self).spec_row_bits())),
    {
        let ghost w0 = self.words();
        let ghost nb = self.spec_row_bits();
        let ghost rows0 = self.spec_rows();
        let rows = self.num_rows();
        let row_bits = self.row_bits;
        let m = if row_bits < rows {
            row_bits
        } else {
            rows
        };
        let mut i: usize = 0;
        while i < m
            invariant
                i <= m,
                m <= rows,
                m <= row_bits,
                rows == rows0,
                self.wf(),
                self.spec_row_bits() == nb,
                nb == row_bits as nat,
                self.spec_rows() == rows0,
                mat_rows(w0, nb) == rows0,
                forall|a: int, b: int|
                    #![trigger mat_bit(self.words(), nb, a, b)]
                    #![trigger mat_bit(w0, nb, a, b)]
                    mat_bit(self.words(), nb, a, b) == (mat_bit(w0, nb, a, b) || (a == b && 0 <= a
                        < i)),
            decreases m - i,
        {
            let ghost before = self.words();
            self.set(i, i, true);
            proof {
                assert forall|a: int, b: int|
                    #![trigger mat_bit(self.words(), nb, a, b)]
                    #![trigger mat_bit(w0, nb, a, b)]
                    mat_bit(self.words(), nb, a, b) == (mat_bit(w0, nb, a, b) || (a == b && 0 <= a
                        < i + 1)) by {
                    assert(mat_bit(before, nb, a, b) == (mat_bit(w0, nb, a, b) || (a == b && 0 <= a
                        < i)));
                    assert(self.spec_get(a, b) == (if a == i && b == i {
                        true
                    } else {
                        mat_bit(before, nb, a, b)
                    }));
                }
            }
            i += 1;
        }
    }

    /// Sets the value of all bits, the row padding included.
    pub fn set_all(&mut self, enabled: bool)
        requires
            old(self).wf(),
        ensures
            final(self).wf(),
            final(self).spec_row_bits() == old(self).spec_row_bits(),
            final(self).spec_rows() == old(self).spec_rows(),
            final(self).words().len() == old(self).words().len(),
            forall|i: int, j: int| #![auto]
                final(self).spec_get(i, j) == (0 <= i < old(self).spec_rows() && 0 <= j < old(
                    self,
                ).spec_row_bits() && enabled),
    {
        let ghost nb = self.spec_row_bits();
        proof {
            assert((self.words().len() * 32) % 32 == 0) by (nonlinear_arith)
                requires
                    0 <= self.words().len(),
            ;
        }
        bv_fill(&mut self.bit_vec, enabled);
        proof {
            assert forall|i: int, j: int|
                self.spec_get(i, j) == (0 <= i < old(self).spec_rows() && 0 <= j < nb && enabled) by {
                if 0 <= i < self.spec_rows() && 0 <= j < nb {
                    lemma_bit_addr_parts(nb, i, j);
                    lemma_row_words_in_range(self.words(), nb, i);
                    let addr = bit_addr(nb, i, j);
                    assert(i * row_blocks(nb) + j / 32 < (i + 1) * row_blocks(nb))
                        by (nonlinear_arith)
                        requires
                            0 <= j as int / 32 < row_blocks(nb),
                    ;
                    lemma_fill_word_bit((addr % 32) as u32);
                }
            }
        }
    }
}

/// Applying the transitive closure twice equals applying it once: where
/// `m1` reads as reachability in `m0` and `m2` reads as reachability in
/// `m1` — the shapes `transitive_closure` leaves behind — `m2` reads
/// bit-for-bit as `m1`.
pub proof fn lemma_transitive_closure_idempotent(m0: BitMatrix, m1: BitMatrix, m2: BitMatrix)
    requires
        m1.spec_row_bits() == m0.spec_row_bits(),
        m2.spec_row_bits() == m0.spec_row_bits(),
        forall|i: int, j: int|
            #[trigger] m1.spec_get(i, j) == reaches(m0.words(), m0.spec_row_bits(), i, j),
        forall|i: int, j: int|
            #[trigger] m2.spec_get(i, j) == reaches(m1.words(), m1.spec_row_bits(), i, j),
    ensures
        forall|i: int, j: int| #[trigger] m2.spec_get(i, j) == m1.spec_get(i, j),
{
    let nb = m0.spec_row_bits();
    assert forall|i: int, j: int|
        #[trigger] mat_bit(m1.words(), nb, i, j) == reaches(m0.words(), nb, i, j) by {
        assert(m1.spec_get(i, j) == reaches(m0.words(), nb, i, j));
    }
    crate::reach::lemma_closure_idempotent(m0.words(), m1.words(), nb);
    assert forall|i: int, j: int| #[trigger] m2.spec_get(i, j) == m1.spec_get(i, j) by {
        assert(m2.spec_get(i, j) == reaches(m1.words(), nb, i, j));
        assert(reaches(m1.words(), nb, i, j) == reaches(m0.words(), nb, i, j));
        assert(m1.spec_get(i, j) == reaches(m0.words(), nb, i, j));
    }
}

/// Serialize-then-deserialize round trip: the structured form of a
/// well-formed matrix satisfies exactly the conditions under which
/// `from_parts` succeeds, and a matrix holding the same row width and words
/// reads bit-for-bit the same at every address.
pub proof fn lemma_parts_round_trip(m: BitMatrix, rebuilt: BitMatrix)
    requires
        m.wf(),
        rebuilt.spec_row_bits() == m.spec_row_bits(),
        rebuilt.words() == m.words(),
    ensures
        m.words().len() * 32 <= usize::MAX,
        m.spec_row_bits() == 0 ==> m.words().len() == 0,
        m.spec_row_bits() > 0 ==> m.words().len() % row_blocks(m.spec_row_bits()) == 0,
        forall|i: int, j: int| #[trigger] rebuilt.spec_get(i, j) == m.spec_get(i, j),
{
}

} // verus!
