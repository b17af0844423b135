//! Submatrix of bits: windows over a contiguous run of a matrix's rows.

use vstd::prelude::*;
use crate::bits::word_with_bit;
use crate::model::{
    dp_reach,
    lemma_bit_addr_parts,
    lemma_block_decomp,
    lemma_mat_with_bit,
    lemma_row_blocks_pos,
    lemma_row_words_in_range,
    lemma_sub_words_bits,
    mat_bit,
    mat_rows,
    mat_with_bit,
    reaches,
    row_blocks,
};
use crate::reach::{lemma_dp_iff_reaches, lemma_edge_reaches, lemma_reaches_range};
use crate::row::{copy_words, copy_words_range, BitSlice};
use crate::util::blocks_for;
use core::ops::Range;

verus! {

/// Packed rows are well-formed when they are a whole number of whole-word
/// rows; with a zero row width there are no rows at all.
pub open spec fn rows_wf(words: Seq<u32>, row_bits: nat) -> bool {
    if row_bits == 0 {
        words.len() == 0
    } else {
        words.len() % row_blocks(row_bits) == 0
    }
}

/// Reads the boolean at `(r, c)` of packed rows.
pub(crate) fn get_bit_words(words: &Vec<u32>, row_bits: usize, r: usize, c: usize) -> (res: bool)
    requires
        r < mat_rows(words@, row_bits as nat),
        c < row_bits,
    ensures
        res == mat_bit(words@, row_bits as nat, r as int, c as int),
{
    let rb = blocks_for(row_bits);
    proof {
        vstd::std_specs::vec::axiom_spec_len(words);
        lemma_row_blocks_pos(row_bits as nat);
        lemma_row_words_in_range(words@, row_bits as nat, r as int);
        lemma_bit_addr_parts(row_bits as nat, r as int, c as int);
        assert(r * rb + c as int / 32 < (r + 1) * rb) by (nonlinear_arith)
            requires
                0 <= c as int / 32 < rb,
        ;
    }
    let w = words[r * rb + c / 32];
    ((w >> ((c % 32) as u32)) & 1u32) == 1u32
}

/// Writes the boolean at `(r, c)` of packed rows.
pub(crate) fn set_bit_words(words: &mut Vec<u32>, row_bits: usize, r: usize, c: usize, b: bool)
    requires
        r < mat_rows(old(words)@, row_bits as nat),
        c < row_bits,
    ensures
        final(words)@ == mat_with_bit(old(words)@, row_bits as nat, r as int, c as int, b),
        final(words)@.len() == old(words)@.len(),
        forall|i: int, j: int| #![auto]
            mat_bit(final(words)@, row_bits as nat, i, j) == (if i == r && j == c {
                b
            } else {
                mat_bit(old(words)@, row_bits as nat, i, j)
            }),
{
    let rb = blocks_for(row_bits);
    proof {
        vstd::std_specs::vec::axiom_spec_len(words);
        lemma_row_blocks_pos(row_bits as nat);
        lemma_row_words_in_range(old(words)@, row_bits as nat, r as int);
        lemma_bit_addr_parts(row_bits as nat, r as int, c as int);
        assert(r * rb + c as int / 32 < (r + 1) * rb) by (nonlinear_arith)
            requires
                0 <= c as int / 32 < rb,
        ;
        lemma_mat_with_bit(old(words)@, row_bits as nat, r as int, c as int, b);
    }
    let block = r * rb + c / 32;
    let k: u32 = (c % 32) as u32;
    let w = words[block];
    let val: u32 = if b {
        w | (1u32 << k)
    } else {
        w & !(1u32 << k)
    };
    words[block] = val;
    proof {
        assert(val == word_with_bit(w, k, b));
        assert(final(words)@ =~= mat_with_bit(old(words)@, row_bits as nat, r as int, c as int, b));
    }
}

/// Immutable access to a range of a matrix's rows. It holds its own copy of
/// the rows' words, so it stays valid independently of its source.
#[derive(Debug)]
pub struct BitSubMatrix {
    slice: Vec<u32>,
    row_bits: usize,
}

/// Mutable access to a range of a matrix's rows. It owns its words: splitting
/// hands the two halves over by value, so no two views ever share storage.
#[derive(Debug)]
pub struct BitSubMatrixMut {
    slice: Vec<u32>,
    row_bits: usize,
}

/// An iterator over a sub-matrix's rows, yielded as row slices.
#[derive(Debug)]
pub struct SubMatrixIter {
    slice: Vec<u32>,
    row_bits: usize,
    next_row: usize,
}

impl BitSubMatrix {
    /// The words the view holds.
    pub closed spec fn spec_words(&self) -> Seq<u32> {
        self.slice@
    }

    /// The row width in bits.
    pub closed spec fn spec_row_bits(&self) -> nat {
        self.row_bits as nat
    }

    /// The number of rows.
    pub open spec fn spec_rows(&self) -> nat {
        mat_rows(self.spec_words(), self.spec_row_bits())
    }

    /// The boolean at `(r, c)`.
    pub open spec fn spec_get(&self, r: int, c: int) -> bool {
        mat_bit(self.spec_words(), self.spec_row_bits(), r, c)
    }

    /// Well-formed: whole rows of whole words.
    pub open spec fn wf(&self) -> bool {
        rows_wf(self.spec_words(), self.spec_row_bits())
    }

    /// Returns a new BitSubMatrix over the given whole-word rows.
    pub fn new(slice: Vec<u32>, row_bits: usize) -> (r: BitSubMatrix)
        requires
            rows_wf(slice@, row_bits as nat),
        ensures
            r.wf(),
            r.spec_words() == slice@,
            r.spec_row_bits() == row_bits,
    {
        BitSubMatrix { slice, row_bits }
    }

    /// Iterates over the matrix's rows in the form of row slices.
    pub fn iter(&self) -> (r: SubMatrixIter)
        requires
            self.wf(),
        ensures
            r.wf(),
            r.spec_words() == self.spec_words(),
            r.spec_row_bits() == self.spec_row_bits(),
            r.spec_next() == 0,
    {
        SubMatrixIter { slice: copy_words(&self.slice), row_bits: self.row_bits, next_row: 0 }
    }
}

impl SubMatrixIter {
    /// The words the iterator walks.
    pub closed spec fn spec_words(&self) -> Seq<u32> {
        self.slice@
    }

    /// The row width in bits.
    pub closed spec fn spec_row_bits(&self) -> nat {
        self.row_bits as nat
    }

    /// The number of rows.
    pub open spec fn spec_rows(&self) -> nat {
        mat_rows(self.spec_words(), self.spec_row_bits())
    }

    /// The next row to yield.
    pub closed spec fn spec_next(&self) -> nat {
        self.next_row as nat
    }

    /// Well-formed: whole rows of whole words.
    pub open spec fn wf(&self) -> bool {
        rows_wf(self.spec_words(), self.spec_row_bits())
    }

    /// The next row, as a slice of its words, or None past the last row. Each
    /// yielded row reads bit-for-bit as the matching row of the sub-matrix.
    pub fn next(&mut self) -> (r: Option<BitSlice>)
        requires
            old(self).wf(),
        ensures
            final(self).wf(),
            final(self).spec_words() == old(self).spec_words(),
            final(self).spec_row_bits() == old(self).spec_row_bits(),
            old(self).spec_next() < old(self).spec_rows() ==> {
                &&& final(self).spec_next() == old(self).spec_next() + 1
                &&& r matches Some(s) && s.spec_words() == old(self).spec_words().subrange(
                    old(self).spec_next() as int * row_blocks(old(self).spec_row_bits()) as int,
                    (old(self).spec_next() + 1) as int * row_blocks(old(self).spec_row_bits()) as int,
                ) && (forall|c: int|
                    0 <= c < old(self).spec_row_bits() ==> s.spec_get(c as nat) == #[trigger]
                    mat_bit(
                        old(self).spec_words(),
                        old(self).spec_row_bits(),
                        old(self).spec_next() as int,
                        c,
                    ))
            },
            old(self).spec_next() >= old(self).spec_rows() ==> r is None && final(self).spec_next()
                == old(self).spec_next(),
    {
        let rb = blocks_for(self.row_bits);
        let rows = if rb == 0 {
            0
        } else {
            self.slice.len() / rb
        };
        if self.next_row < rows {
            let ghost nb = self.spec_row_bits();
            let ghost next = self.next_row as int;
            proof {
                lemma_row_blocks_pos(nb);
                lemma_row_words_in_range(self.slice@, nb, next);
                assert(next * rb <= (next + 1) * rb && (next + 1) * rb == next * rb + rb)
                    by (nonlinear_arith)
                    requires
                        0 <= next,
                        0 <= rb,
                ;
            }
            let start = self.next_row * rb;
            let words = copy_words_range(&self.slice, start, start + rb);
            proof {
                lemma_sub_words_bits(self.slice@, nb, next, next + 1);
                assert forall|c: int| 0 <= c < nb implies crate::bits::seq_bit(words@, c as nat)
                    == mat_bit(self.slice@, nb, next, c) by {
                    assert(mat_bit(words@, nb, 0, c) == mat_bit(self.slice@, nb, next, c));
                    lemma_bit_addr_parts(nb, 0, c);
                    assert(crate::model::bit_addr(nb, 0, c) == c);
                    assert(mat_rows(words@, nb) == 1);
                }
            }
            self.next_row = self.next_row + 1;
            Some(BitSlice::new(words))
        } else {
            None
        }
    }
}

/// Sets each diagonal bit `(i, i)` for `i` below both the row count and the
/// row width, leaving every other bit unchanged.
pub(crate) fn reflexive_words(words: &mut Vec<u32>, row_bits: usize)
    requires
        rows_wf(old(words)@, row_bits as nat),
    ensures
        rows_wf(final(words)@, row_bits as nat),
        final(words)@.len() == old(words)@.len(),
        forall|i: int, j: int| #![auto]
            mat_bit(final(words)@, row_bits as nat, i, j) == (mat_bit(
                old(words)@,
                row_bits as nat,
                i,
                j,
            ) || (i == j && 0 <= i < mat_rows(old(words)@, row_bits as nat) && 0 <= i < row_bits)),
{
    let ghost w0 = words@;
    let ghost nb = row_bits as nat;
    let rb = blocks_for(row_bits);
    proof {
        if row_bits > 0 {
            lemma_row_blocks_pos(nb);
        }
    }
    let rows = if rb == 0 {
        0
    } else {
        words.len() / rb
    };
    let m = if row_bits < rows {
        row_bits
    } else {
        rows
    };
    proof {
        if row_bits == 0 {
            assert(mat_rows(w0, nb) == 0);
        }
    }
    let mut i: usize = 0;
    while i < m
        invariant
            i <= m,
            nb == row_bits as nat,
            rows == mat_rows(w0, nb),
            m <= rows,
            m <= row_bits,
            m == (if row_bits < mat_rows(w0, nb) {
                row_bits as nat
            } else {
                mat_rows(w0, nb)
            }),
            words@.len() == w0.len(),
            rows_wf(words@, nb),
            mat_rows(words@, nb) == mat_rows(w0, nb),
            forall|a: int, b: int|
                #![trigger mat_bit(words@, nb, a, b)]
                #![trigger mat_bit(w0, nb, a, b)]
                mat_bit(words@, nb, a, b) == (mat_bit(w0, nb, a, b) || (a == b && 0 <= a < i)),
        decreases m - i,
    {
        let ghost before = words@;
        set_bit_words(words, row_bits, i, i, true);
        proof {
            assert forall|a: int, b: int|
                #![trigger mat_bit(words@, nb, a, b)]
                #![trigger mat_bit(w0, nb, a, b)]
                mat_bit(words@, nb, a, b) == (mat_bit(w0, nb, a, b) || (a == b && 0 <= a < i
                    + 1)) by {
                assert(mat_bit(before, nb, a, b) == (mat_bit(w0, nb, a, b) || (a == b && 0 <= a
                    < i)));
                assert(mat_bit(words@, nb, a, b) == (if a == i && b == i {
                    true
                } else {
                    mat_bit(before, nb, a, b)
                }));
            }
        }
        i += 1;
    }
}

impl BitSubMatrixMut {
    /// The words the view owns.
    pub closed spec fn spec_words(&self) -> Seq<u32> {
        self.slice@
    }

    /// The row width in bits.
    pub closed spec fn spec_row_bits(&self) -> nat {
        self.row_bits as nat
    }

    /// The number of rows.
    pub open spec fn spec_rows(&self) -> nat {
        mat_rows(self.spec_words(), self.spec_row_bits())
    }

    /// The boolean at `(r, c)`.
    pub open spec fn spec_get(&self, r: int, c: int) -> bool {
        mat_bit(self.spec_words(), self.spec_row_bits(), r, c)
    }

    /// Well-formed: whole rows of whole words.
    pub open spec fn wf(&self) -> bool {
        rows_wf(self.spec_words(), self.spec_row_bits())
    }

    /// Returns a new BitSubMatrixMut over the given whole-word rows.
    pub fn new(slice: Vec<u32>, row_bits: usize) -> (r: BitSubMatrixMut)
        requires
            rows_wf(slice@, row_bits as nat),
        ensures
            r.wf(),
            r.spec_words() == slice@,
            r.spec_row_bits() == row_bits,
    {
        BitSubMatrixMut { slice, row_bits }
    }

    /// Returns the number of rows.
    pub fn num_rows(&self) -> (r: usize)
        requires
            self.wf(),
        ensures
            r == self.spec_rows(),
    {
        let rb = blocks_for(self.row_bits);
        proof {
            if self.row_bits > 0 {
                lemma_row_blocks_pos(self.row_bits as nat);
            }
        }
        if rb == 0 {
            0
        } else {
            self.slice.len() / rb
        }
    }

    /// Returns the boolean at `(row, col)`. The address must be in bounds.
    pub fn get(&self, row: usize, col: usize) -> (r: bool)
        requires
            self.wf(),
            row < self.spec_rows(),
            col < self.spec_row_bits(),
        ensures
            r == self.spec_get(row as int, col as int),
    {
        get_bit_words(&self.slice, self.row_bits, row, col)
    }

    /// Sets the value of a bit. The address must be in bounds.
    pub fn set(&mut self, row: usize, col: usize, enabled: bool)
        requires
            old(self).wf(),
            row < old(self).spec_rows(),
            col < old(self).spec_row_bits(),
        ensures
            final(self).wf(),
            final(self).spec_row_bits() == old(self).spec_row_bits(),
            final(self).spec_rows() == old(self).spec_rows(),
            final(self).spec_words() == mat_with_bit(
                old(self).spec_words(),
                old(self).spec_row_bits(),
                row as int,
                col as int,
                enabled,
            ),
            forall|i: int, j: int| #![auto]
                final(self).spec_get(i, j) == (if i == row && j == col {
                    enabled
                } else {
                    old(self).spec_get(i, j)
                }),
    {
        let row_bits = self.row_bits;
        set_bit_words(&mut self.slice, row_bits, row, col, enabled);
    }

    /// Returns a slice of the matrix's rows, as its own copy of their words.
    pub fn sub_matrix(&self, range: Range<usize>) -> (r: BitSubMatrix)
        requires
            self.wf(),
            range.start <= range.end,
            range.end <= self.spec_rows(),
        ensures
            r.wf(),
            r.spec_row_bits() == self.spec_row_bits(),
            r.spec_words() == self.spec_words().subrange(
                range.start as int * row_blocks(self.spec_row_bits()) as int,
                range.end as int * row_blocks(self.spec_row_bits()) as int,
            ),
            r.spec_rows() == range.end - range.start,
            forall|i: int, j: int|
                #[trigger] r.spec_get(i, j) == (0 <= i < range.end - range.start
                    && self.spec_get(range.start + i, j)),
    {
        let words = sub_words(&self.slice, self.row_bits, range.start, range.end);
        BitSubMatrix { slice: words, row_bits: self.row_bits }
    }

    /// Given a row index, returns a view of all rows above it and a view of
    /// that row and all rows below.
    pub fn split_at(&self, row: usize) -> (r: (BitSubMatrix, BitSubMatrix))
        requires
            self.wf(),
            row <= self.spec_rows(),
        ensures
            r.0.wf(),
            r.1.wf(),
            r.0.spec_row_bits() == self.spec_row_bits(),
            r.1.spec_row_bits() == self.spec_row_bits(),
            r.0.spec_rows() == row,
            r.1.spec_rows() == self.spec_rows() - row,
            forall|i: int, j: int|
                #[trigger] r.0.spec_get(i, j) == (0 <= i < row && self.spec_get(i, j)),
            forall|i: int, j: int|
                #[trigger] r.1.spec_get(i, j) == (0 <= i < self.spec_rows() - row && self.spec_get(
                    row + i,
                    j,
                )),
    {
        let rows = self.num_rows();
        (self.sub_matrix(0..row), self.sub_matrix(row..rows))
    }

    /// Given a row index, hands back two views that partition the rows: all
    /// rows above the index, and that row with all rows below. The two views
    /// own disjoint storage.
    pub fn split_at_mut(self, row: usize) -> (r: (BitSubMatrixMut, BitSubMatrixMut))
        requires
            self.wf(),
            row <= self.spec_rows(),
        ensures
            r.0.wf(),
            r.1.wf(),
            r.0.spec_row_bits() == self.spec_row_bits(),
            r.1.spec_row_bits() == self.spec_row_bits(),
            r.0.spec_words() + r.1.spec_words() == self.spec_words(),
            r.0.spec_rows() == row,
            r.1.spec_rows() == self.spec_rows() - row,
            forall|i: int, j: int|
                #[trigger] r.0.spec_get(i, j) == (0 <= i < row && self.spec_get(i, j)),
            forall|i: int, j: int|
                #[trigger] r.1.spec_get(i, j) == (0 <= i < self.spec_rows() - row && self.spec_get(
                    row + i,
                    j,
                )),
    {
        let BitSubMatrixMut { slice: mut first, row_bits } = self;
        let ghost w0 = first@;
        let ghost nb = row_bits as nat;
        let rb = blocks_for(row_bits);
        proof {
            lemma_sub_words_bits(w0, nb, 0, row as int);
            lemma_sub_words_bits(w0, nb, row as int, mat_rows(w0, nb) as int);
            if row_bits > 0 {
                lemma_row_blocks_pos(nb);
                if row > 0 {
                    lemma_row_words_in_range(w0, nb, row - 1);
                    assert((row - 1 + 1) * rb == row as int * rb);
                }
                assert(mat_rows(w0, nb) as int * rb == w0.len() as int) by (nonlinear_arith)
                    requires
                        rb > 0,
                        w0.len() % (rb as nat) == 0,
                        mat_rows(w0, nb) == w0.len() / (rb as nat),
                ;
                assert(((row as int) * rb) % (rb as int) == 0 && ((mat_rows(w0, nb) - row) as int
                    * rb) % (rb as int) == 0) by (nonlinear_arith)
                    requires
                        rb > 0,
                ;
            } else {
                assert(w0.len() == 0);
                assert(row as int * rb == 0) by (nonlinear_arith)
                    requires
                        rb == 0,
                ;
            }
        }
        proof {
            vstd::std_specs::vec::axiom_spec_len(&first);
        }
        let second = first.split_off(row * rb);
        proof {
            assert(first@ + second@ =~= w0);
        }
        (
            BitSubMatrixMut { slice: first, row_bits },
            BitSubMatrixMut { slice: second, row_bits },
        )
    }

    /// Computes the transitive closure of the binary relation represented by
    /// the matrix, using Warshall's algorithm. The view must be square:
    /// afterwards the bit at `(i, j)` is enabled exactly when a path of one
    /// or more edges led from `i` to `j`, and no enabled bit is cleared.
    pub fn transitive_closure(&mut self)
        requires
            old(self).wf(),
            old(self).spec_rows() == old(self).spec_row_bits(),
        ensures
            final(self).wf(),
            final(self).spec_row_bits() == old(self).spec_row_bits(),
            final(self).spec_rows() == old(self).spec_rows(),
            final(self).spec_words().len() == old(self).spec_words().len(),
            forall|i: int, j: int|
                #[trigger] final(self).spec_get(i, j) == reaches(
                    old(self).spec_words(),
                    old(self).spec_row_bits(),
                    i,
                    j,
                ),
            forall|i: int, j: int|
                #[trigger] old(self).spec_get(i, j) ==> final(self).spec_get(i, j),
    {
        let row_bits = self.row_bits;
        warshall(&mut self.slice, row_bits);
    }

    /// Computes the reflexive closure of the binary relation represented by
    /// the matrix: sets exactly the diagonal bits `(i, i)` for `i` below both
    /// dimensions, leaving every other bit unchanged.
    pub fn reflexive_closure(&mut self)
        requires
            old(self).wf(),
        ensures
            final(self).wf(),
            final(self).spec_row_bits() == old(self).spec_row_bits(),
            final(self).spec_rows() == old(self).spec_rows(),
            forall|i: int, j: int| #![auto]
                final(self).spec_get(i, j) == (old(self).spec_get(i, j) || (i == j && 0 <= i < old(
                    self,
                ).spec_rows() && 0 <= i < old(self).spec_row_bits())),
    {
        let row_bits = self.row_bits;
        reflexive_words(&mut self.slice, row_bits);
    }
}

/// Copies the words of rows `start .. end` out of packed rows.
pub(crate) fn sub_words(words: &Vec<u32>, row_bits: usize, start: usize, end: usize) -> (r: Vec<
    u32,
>)
    requires
        start <= end,
        end <= mat_rows(words@, row_bits as nat),
    ensures
        r@ == words@.subrange(
            start as int * row_blocks(row_bits as nat) as int,
            end as int * row_blocks(row_bits as nat) as int,
        ),
        rows_wf(r@, row_bits as nat),
        mat_rows(r@, row_bits as nat) == end - start,
        forall|i: int, j: int|
            #[trigger] mat_bit(r@, row_bits as nat, i, j) == (0 <= i < end - start && mat_bit(
                words@,
                row_bits as nat,
                start + i,
                j,
            )),
{
    let ghost nb = row_bits as nat;
    let rb = blocks_for(row_bits);
    proof {
        vstd::std_specs::vec::axiom_spec_len(words);
        lemma_sub_words_bits(words@, nb, start as int, end as int);
        if row_bits > 0 {
            lemma_row_blocks_pos(nb);
            if end > 0 {
                lemma_row_words_in_range(words@, nb, end - 1);
                assert((end - 1 + 1) * rb == end as int * rb);
            }
            assert(start as int * rb <= end as int * rb && ((end - start) as int * rb) % (
            rb as int) == 0) by (nonlinear_arith)
                requires
                    rb > 0,
                    0 <= start <= end,
            ;
        } else {
            assert(start as int * rb == 0 && end as int * rb == 0) by (nonlinear_arith)
                requires
                    rb == 0,
            ;
        }
    }
    copy_words_range(words, start * rb, end * rb)
}

/// Bitwise-ors the pivot row's words into row `r`'s words, leaving every
/// other row untouched.
fn or_row(words: &mut Vec<u32>, row_bits: usize, r: usize, pivot: usize)
    requires
        rows_wf(old(words)@, row_bits as nat),
        r < mat_rows(old(words)@, row_bits as nat),
        pivot < mat_rows(old(words)@, row_bits as nat),
        r != pivot,
    ensures
        final(words)@.len() == old(words)@.len(),
        rows_wf(final(words)@, row_bits as nat),
        mat_rows(final(words)@, row_bits as nat) == mat_rows(old(words)@, row_bits as nat),
        forall|i: int, j: int|
            i != r ==> #[trigger] mat_bit(final(words)@, row_bits as nat, i, j) == mat_bit(
                old(words)@,
                row_bits as nat,
                i,
                j,
            ),
        forall|j: int|
            #[trigger] mat_bit(final(words)@, row_bits as nat, r as int, j) == (mat_bit(
                old(words)@,
                row_bits as nat,
                r as int,
                j,
            ) || mat_bit(old(words)@, row_bits as nat, pivot as int, j)),
{
    let ghost w1 = old(words)@;
    let ghost nb = row_bits as nat;
    let rb = blocks_for(row_bits);
    let n = words.len();
    proof {
        lemma_row_blocks_pos(nb);
        lemma_row_words_in_range(w1, nb, r as int);
        lemma_row_words_in_range(w1, nb, pivot as int);
        if r < pivot {
            assert((r + 1) as int * rb <= pivot as int * rb) by (nonlinear_arith)
                requires
                    (r + 1) as int <= pivot as int,
                    rb > 0,
            ;
        } else {
            assert((pivot + 1) as int * rb <= r as int * rb) by (nonlinear_arith)
                requires
                    (pivot + 1) as int <= r as int,
                    rb > 0,
            ;
        }
        assert(r as int * rb + rb == (r + 1) as int * rb && pivot as int * rb + rb == (pivot
            + 1) as int * rb) by (nonlinear_arith)
        ;
    }
    let dst = r * rb;
    let src = pivot * rb;
    let mut k: usize = 0;
    while k < rb
        invariant
            k <= rb,
            nb == row_bits as nat,
            rb == row_blocks(nb),
            n == w1.len(),
            words@.len() == w1.len(),
            dst == r as int * rb,
            src == pivot as int * rb,
            dst + rb <= w1.len(),
            src + rb <= w1.len(),
            src + rb <= dst || dst + rb <= src,
            forall|x: int|
                0 <= x < w1.len() && !(dst <= x < dst + k) ==> #[trigger] words@[x] == w1[x],
            forall|x: int| 0 <= x < k ==> #[trigger] words@[dst + x] == (w1[dst + x] | w1[src + x]),
        decreases rb - k,
    {
        let a = words[dst + k];
        let b = words[src + k];
        proof {
            assert(words@[src + k] == w1[src + k]);
            assert(words@[dst + k] == w1[dst + k]);
        }
        words[dst + k] = a | b;
        k += 1;
        proof {
            assert forall|x: int| 0 <= x < k implies #[trigger] words@[dst + x] == (w1[dst + x]
                | w1[src + x]) by {}
        }
    }
    proof {
        assert forall|i: int, j: int| i != r implies #[trigger] mat_bit(words@, nb, i, j)
            == mat_bit(w1, nb, i, j) by {
            if 0 <= i < mat_rows(w1, nb) && 0 <= j < nb {
                lemma_bit_addr_parts(nb, i, j);
                lemma_row_words_in_range(w1, nb, i);
                let block = i * (rb as int) + j / 32;
                assert(i * rb <= block < (i + 1) * rb) by (nonlinear_arith)
                    requires
                        block == i * (rb as int) + j / 32,
                        0 <= j / 32 < rb,
                ;
                if dst <= block < dst + rb {
                    lemma_block_decomp(rb as int, i, j / 32, r as int, block - dst);
                    assert(false);
                }
                assert(words@[block] == w1[block]);
            }
        }
        assert forall|j: int|
            #[trigger] mat_bit(words@, nb, r as int, j) == (mat_bit(w1, nb, r as int, j)
                || mat_bit(w1, nb, pivot as int, j)) by {
            if 0 <= j < nb {
                lemma_bit_addr_parts(nb, r as int, j);
                lemma_bit_addr_parts(nb, pivot as int, j);
                let t = j / 32;
                assert(words@[dst + t] == (w1[dst + t] | w1[src + t]));
                crate::bits::lemma_word_or_bit(w1[dst + t], w1[src + t], (j % 32) as u32);
            }
        }
    }
}

/// Warshall's algorithm in place over packed square rows: afterwards, the bit
/// at `(i, j)` is enabled exactly when a path of one or more edges led from
/// `i` to `j` in the original relation. No enabled bit is ever cleared.
pub(crate) fn warshall(words: &mut Vec<u32>, row_bits: usize)
    requires
        rows_wf(old(words)@, row_bits as nat),
        mat_rows(old(words)@, row_bits as nat) == row_bits,
    ensures
        final(words)@.len() == old(words)@.len(),
        rows_wf(final(words)@, row_bits as nat),
        mat_rows(final(words)@, row_bits as nat) == mat_rows(old(words)@, row_bits as nat),
        forall|i: int, j: int|
            #[trigger] mat_bit(final(words)@, row_bits as nat, i, j) == reaches(
                old(words)@,
                row_bits as nat,
                i,
                j,
            ),
        forall|i: int, j: int|
            #[trigger] mat_bit(old(words)@, row_bits as nat, i, j) ==> mat_bit(
                final(words)@,
                row_bits as nat,
                i,
                j,
            ),
{
    let ghost w0 = words@;
    let ghost nb = row_bits as nat;
    let n = row_bits;
    let mut pos: usize = 0;
    while pos < n
        invariant
            pos <= n,
            nb == row_bits as nat,
            n == row_bits,
            rows_wf(w0, nb),
            mat_rows(w0, nb) == n,
            words@.len() == w0.len(),
            rows_wf(words@, nb),
            mat_rows(words@, nb) == n,
            forall|i: int, j: int|
                0 <= i < n && 0 <= j < nb ==> #[trigger] mat_bit(words@, nb, i, j) == dp_reach(
                    w0,
                    nb,
                    pos as nat,
                    i,
                    j,
                ),
        decreases n - pos,
    {
        let mut r: usize = 0;
        while r < n
            invariant
                r <= n,
                pos < n,
                nb == row_bits as nat,
                n == row_bits,
                rows_wf(w0, nb),
                mat_rows(w0, nb) == n,
                words@.len() == w0.len(),
                rows_wf(words@, nb),
                mat_rows(words@, nb) == n,
                forall|i: int, j: int|
                    0 <= i < n && 0 <= j < nb ==> #[trigger] mat_bit(words@, nb, i, j) == (if i < r
                        && i != pos {
                        dp_reach(w0, nb, (pos + 1) as nat, i, j)
                    } else {
                        dp_reach(w0, nb, pos as nat, i, j)
                    }),
            decreases n - r,
        {
            let ghost wr = words@;
            if r != pos {
                let has = get_bit_words(words, row_bits, r, pos);
                proof {
                    assert(has == dp_reach(w0, nb, pos as nat, r as int, pos as int));
                }
                if has {
                    or_row(words, row_bits, r, pos);
                    proof {
                        assert forall|i: int, j: int| 0 <= i < n && 0 <= j < nb implies #[trigger]
                        mat_bit(words@, nb, i, j) == (if i < r + 1 && i != pos {
                            dp_reach(w0, nb, (pos + 1) as nat, i, j)
                        } else {
                            dp_reach(w0, nb, pos as nat, i, j)
                        }) by {
                            if i == r {
                                assert(mat_bit(words@, nb, r as int, j) == (mat_bit(
                                    wr,
                                    nb,
                                    r as int,
                                    j,
                                ) || mat_bit(wr, nb, pos as int, j)));
                                assert(mat_bit(wr, nb, r as int, j) == dp_reach(
                                    w0,
                                    nb,
                                    pos as nat,
                                    r as int,
                                    j,
                                ));
                                assert(mat_bit(wr, nb, pos as int, j) == dp_reach(
                                    w0,
                                    nb,
                                    pos as nat,
                                    pos as int,
                                    j,
                                ));
                                assert(dp_reach(w0, nb, (pos + 1) as nat, r as int, j) == (
                                dp_reach(w0, nb, pos as nat, r as int, j) || (dp_reach(
                                    w0,
                                    nb,
                                    pos as nat,
                                    r as int,
                                    pos as int,
                                ) && dp_reach(w0, nb, pos as nat, pos as int, j))));
                            } else {
                                assert(mat_bit(words@, nb, i, j) == mat_bit(wr, nb, i, j));
                            }
                        }
                    }
                } else {
                    proof {
                        assert forall|i: int, j: int| 0 <= i < n && 0 <= j < nb implies #[trigger]
                        mat_bit(words@, nb, i, j) == (if i < r + 1 && i != pos {
                            dp_reach(w0, nb, (pos + 1) as nat, i, j)
                        } else {
                            dp_reach(w0, nb, pos as nat, i, j)
                        }) by {
                            if i == r {
                                assert(dp_reach(w0, nb, (pos + 1) as nat, r as int, j) == (
                                dp_reach(w0, nb, pos as nat, r as int, j) || (dp_reach(
                                    w0,
                                    nb,
                                    pos as nat,
                                    r as int,
                                    pos as int,
                                ) && dp_reach(w0, nb, pos as nat, pos as int, j))));
                            }
                        }
                    }
                }
            }
            r += 1;
        }
        proof {
            assert forall|i: int, j: int| 0 <= i < n && 0 <= j < nb implies #[trigger] mat_bit(
                words@,
                nb,
                i,
                j,
            ) == dp_reach(w0, nb, (pos + 1) as nat, i, j) by {
                if i == pos {
                    assert(dp_reach(w0, nb, (pos + 1) as nat, pos as int, j) == (dp_reach(
                        w0,
                        nb,
                        pos as nat,
                        pos as int,
                        j,
                    ) || (dp_reach(w0, nb, pos as nat, pos as int, pos as int) && dp_reach(
                        w0,
                        nb,
                        pos as nat,
                        pos as int,
                        j,
                    ))));
                }
            }
        }
        pos += 1;
    }
    proof {
        assert forall|i: int, j: int|
            #[trigger] mat_bit(words@, nb, i, j) == reaches(w0, nb, i, j) by {
            if 0 <= i < n && 0 <= j < nb {
                lemma_dp_iff_reaches(w0, nb, i, j);
            } else {
                if reaches(w0, nb, i, j) {
                    lemma_reaches_range(w0, nb, i, j);
                    assert(false);
                }
            }
        }
        assert forall|i: int, j: int| #[trigger] mat_bit(w0, nb, i, j) implies mat_bit(
            words@,
            nb,
            i,
            j,
        ) by {
            lemma_edge_reaches(w0, nb, i, j);
        }
    }
}

} // verus!
