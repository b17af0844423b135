//! The mathematical model of a packed matrix: row addressing, the boolean at
//! a `(row, column)` address, and reachability in the relation the bits encode.

use vstd::prelude::*;
use vstd::arithmetic::div_mod::{
    lemma_fundamental_div_mod,
    lemma_fundamental_div_mod_converse,
};
use crate::bits::{
    lemma_word_with_bit,
    lemma_word_with_bit_idempotent,
    seq_bit,
    word_with_bit,
};

verus! {

/// Number of storage words each row occupies: the row width rounded up to
/// whole words.
pub open spec fn row_blocks(row_bits: nat) -> nat {
    (row_bits + 31) / 32
}

/// Number of whole rows a word sequence holds; zero when rows are empty.
pub open spec fn mat_rows(words: Seq<u32>, row_bits: nat) -> nat {
    if row_bits == 0 {
        0
    } else {
        words.len() / row_blocks(row_bits)
    }
}

/// The index of the storage bit that addresses `(r, c)`: rows are padded to
/// whole words, so consecutive rows start 32 * row_blocks bits apart.
pub open spec fn bit_addr(row_bits: nat, r: int, c: int) -> int {
    r * (row_blocks(row_bits) * 32) + c
}

/// The boolean at `(r, c)`: false outside the row count or the row width.
pub open spec fn mat_bit(words: Seq<u32>, row_bits: nat, r: int, c: int) -> bool {
    &&& 0 <= r < mat_rows(words, row_bits)
    &&& 0 <= c < row_bits
    &&& seq_bit(words, bit_addr(row_bits, r, c) as nat)
}

/// The words after setting the bit at `(r, c)` to `b`.
pub open spec fn mat_with_bit(words: Seq<u32>, row_bits: nat, r: int, c: int, b: bool) -> Seq<
    u32,
>
    recommends
        0 <= r,
        0 <= c < row_bits,
{
    let block = r * row_blocks(row_bits) + c / 32;
    words.update(block, word_with_bit(words[block], (c % 32) as u32, b))
}

/// Each row occupies at least one word when the row width is positive, and
/// the row width fits within a row's words.
pub proof fn lemma_row_blocks_pos(row_bits: nat)
    requires
        row_bits > 0,
    ensures
        row_blocks(row_bits) > 0,
        row_bits <= row_blocks(row_bits) * 32,
{
    assert(row_blocks(row_bits) > 0 && row_bits <= row_blocks(row_bits) * 32)
        by (nonlinear_arith)
        requires
            row_bits > 0,
            row_blocks(row_bits) == (row_bits + 31) as nat / 32,
    ;
}

/// A row index below the row count addresses words inside the storage.
pub proof fn lemma_row_words_in_range(words: Seq<u32>, row_bits: nat, r: int)
    requires
        0 <= r < mat_rows(words, row_bits),
    ensures
        (r + 1) * row_blocks(row_bits) <= words.len(),
{
    let rb = row_blocks(row_bits) as int;
    lemma_row_blocks_pos(row_bits);
    assert((r + 1) * rb <= words.len()) by (nonlinear_arith)
        requires
            0 <= r,
            rb > 0,
            r < words.len() as int / rb,
    ;
}

/// The storage word and in-word offset a bit address decomposes into.
pub proof fn lemma_bit_addr_parts(row_bits: nat, r: int, c: int)
    requires
        0 <= r,
        0 <= c < row_blocks(row_bits) * 32,
    ensures
        bit_addr(row_bits, r, c) >= 0,
        bit_addr(row_bits, r, c) / 32 == r * row_blocks(row_bits) + c / 32,
        bit_addr(row_bits, r, c) % 32 == c % 32,
        0 <= c / 32 < row_blocks(row_bits),
{
    let rb = row_blocks(row_bits) as int;
    let addr = bit_addr(row_bits, r, c);
    lemma_fundamental_div_mod(c, 32);
    assert(c / 32 < rb) by (nonlinear_arith)
        requires
            0 <= c < rb * 32,
            c == 32 * (c / 32) + c % 32,
            0 <= c % 32 < 32,
    ;
    assert(addr == 32 * (r * rb + c / 32) + c % 32) by (nonlinear_arith)
        requires
            addr == r * (rb * 32) + c,
            c == 32 * (c / 32) + c % 32,
    ;
    assert(r * rb + c / 32 >= 0) by (nonlinear_arith)
        requires
            0 <= r,
            0 <= c / 32,
            rb > 0 || rb == 0,
            0 <= rb,
    ;
    lemma_fundamental_div_mod_converse(addr, 32, r * rb + c / 32, c % 32);
}

/// A word index inside a row determines the row and the offset uniquely.
pub proof fn lemma_block_decomp(rb: int, i1: int, t1: int, i2: int, t2: int)
    requires
        rb > 0,
        0 <= t1 < rb,
        0 <= t2 < rb,
        0 <= i1,
        0 <= i2,
        i1 * rb + t1 == i2 * rb + t2,
    ensures
        i1 == i2,
        t1 == t2,
{
    let x = i1 * rb + t1;
    lemma_fundamental_div_mod_converse(x, rb, i1, t1);
    lemma_fundamental_div_mod_converse(x, rb, i2, t2);
}

/// Setting the bit at `(r, c)` changes that boolean and no other. Together
/// with the meaning of a read, this is the set-then-get law: after
/// `set(r, c, b)`, the value read at `(r, c)` is `b`, and every other address
/// reads as before.
pub proof fn lemma_mat_with_bit(words: Seq<u32>, row_bits: nat, r: int, c: int, b: bool)
    requires
        0 <= r < mat_rows(words, row_bits),
        0 <= c < row_bits,
    ensures
        mat_with_bit(words, row_bits, r, c, b).len() == words.len(),
        forall|i: int, j: int| #![auto]
            mat_bit(mat_with_bit(words, row_bits, r, c, b), row_bits, i, j) == (if i == r && j == c {
                b
            } else {
                mat_bit(words, row_bits, i, j)
            }),
{
    let rb = row_blocks(row_bits) as int;
    let block = r * rb + c / 32;
    let new_words = mat_with_bit(words, row_bits, r, c, b);
    lemma_row_blocks_pos(row_bits);
    lemma_row_words_in_range(words, row_bits, r);
    lemma_bit_addr_parts(row_bits, r, c);
    assert(r * rb <= block < (r + 1) * rb) by (nonlinear_arith)
        requires
            block == r * rb + c / 32,
            0 <= c / 32 < rb,
    ;
    assert(new_words.len() == words.len());
    assert(mat_rows(new_words, row_bits) == mat_rows(words, row_bits));
    assert forall|i: int, j: int|
        mat_bit(new_words, row_bits, i, j) == (if i == r && j == c {
            b
        } else {
            mat_bit(words, row_bits, i, j)
        }) by {
        if 0 <= i < mat_rows(words, row_bits) && 0 <= j < row_bits {
            lemma_bit_addr_parts(row_bits, i, j);
            lemma_row_words_in_range(words, row_bits, i);
            let bi = i * rb + j / 32;
            assert(i * rb <= bi < (i + 1) * rb) by (nonlinear_arith)
                requires
                    bi == i * rb + j / 32,
                    0 <= j / 32 < rb,
            ;
            if bi == block {
                lemma_block_decomp(rb, i, j / 32, r, c / 32);
                lemma_word_with_bit(words[block], (c % 32) as u32, b, (j % 32) as u32);
                if j != c {
                    lemma_fundamental_div_mod(j, 32);
                    lemma_fundamental_div_mod(c, 32);
                }
            }
        }
    }
}

/// Setting a bit to the same value twice is the same as setting it once.
pub proof fn lemma_mat_with_bit_idempotent(words: Seq<u32>, row_bits: nat, r: int, c: int, b: bool)
    requires
        0 <= r < mat_rows(words, row_bits),
        0 <= c < row_bits,
    ensures
        mat_with_bit(mat_with_bit(words, row_bits, r, c, b), row_bits, r, c, b) == mat_with_bit(
            words,
            row_bits,
            r,
            c,
            b,
        ),
{
    let rb = row_blocks(row_bits) as int;
    let block = r * rb + c / 32;
    let w1 = mat_with_bit(words, row_bits, r, c, b);
    let w2 = mat_with_bit(w1, row_bits, r, c, b);
    lemma_row_blocks_pos(row_bits);
    lemma_row_words_in_range(words, row_bits, r);
    lemma_bit_addr_parts(row_bits, r, c);
    assert(r * rb <= block < (r + 1) * rb) by (nonlinear_arith)
        requires
            block == r * rb + c / 32,
            0 <= c / 32 < rb,
    ;
    lemma_word_with_bit_idempotent(words[block], (c % 32) as u32, b);
    assert(w2 =~= w1);
}

/// A contiguous run of rows, cut out at word granularity, reads the same bits
/// as the parent rows it was taken from, in the same order.
pub proof fn lemma_sub_words_bits(words: Seq<u32>, row_bits: nat, start: int, end: int)
    requires
        0 <= start <= end <= mat_rows(words, row_bits),
    ensures
        words.subrange(
            start * row_blocks(row_bits) as int,
            end * row_blocks(row_bits) as int,
        ).len() == (end - start) * row_blocks(row_bits) as int,
        mat_rows(
            words.subrange(
                start * row_blocks(row_bits) as int,
                end * row_blocks(row_bits) as int,
            ),
            row_bits,
        ) == end - start,
        forall|i: int, j: int|
            #[trigger] mat_bit(
                words.subrange(
                    start * row_blocks(row_bits) as int,
                    end * row_blocks(row_bits) as int,
                ),
                row_bits,
                i,
                j,
            ) == (0 <= i < end - start && mat_bit(words, row_bits, start + i, j)),
{
    let rb = row_blocks(row_bits) as int;
    if row_bits == 0 {
        assert(start == 0 && end == 0);
        assert(rb == 0);
        let sub = words.subrange(0, 0);
        assert(sub.len() == 0);
    } else {
        lemma_row_blocks_pos(row_bits);
        if end > 0 {
            lemma_row_words_in_range(words, row_bits, end - 1);
            assert((end - 1 + 1) * rb == end * rb);
        }
        assert(start * rb <= end * rb && end * rb - start * rb == (end - start) * rb)
            by (nonlinear_arith)
            requires
                0 <= start <= end,
                rb > 0,
        ;
        let sub = words.subrange(start * rb, end * rb);
        assert(sub.len() == (end - start) * rb);
        assert(((end - start) * rb) / rb == end - start && ((end - start) * rb) % rb == 0)
            by (nonlinear_arith)
            requires
                rb > 0,
                0 <= end - start,
        ;
        assert forall|i: int, j: int|
            mat_bit(sub, row_bits, i, j) == (0 <= i < end - start && mat_bit(
                words,
                row_bits,
                start + i,
                j,
            )) by {
            if 0 <= i < end - start && 0 <= j < row_bits {
                lemma_bit_addr_parts(row_bits, i, j);
                lemma_bit_addr_parts(row_bits, start + i, j);
                let bi = i * rb + j / 32;
                assert(i * rb <= bi < (i + 1) * rb && (i + 1) * rb <= (end - start) * rb && start
                    * rb + bi == (start + i) * rb + j / 32 && (start + i + 1) * rb <= end * rb)
                    by (nonlinear_arith)
                    requires
                        bi == i * rb + j / 32,
                        0 <= j / 32 < rb,
                        0 <= i < end - start,
                        0 <= start,
                        rb > 0,
                ;
                assert(sub[bi] == words[start * rb + bi]);
                assert(start + i < mat_rows(words, row_bits));
            }
        }
    }
}

/// Growing a matrix by whole rows and truncating it back to its original row
/// count restores the original storage exactly, so every row below the
/// original row count reads bit-for-bit as before the growth.
pub proof fn lemma_grow_then_truncate(words: Seq<u32>, row_bits: nat, extra: Seq<u32>)
    requires
        row_bits == 0 ==> words.len() == 0 && extra.len() == 0,
        row_bits > 0 ==> words.len() % row_blocks(row_bits) == 0,
        row_bits > 0 ==> extra.len() % row_blocks(row_bits) == 0,
    ensures
        ({
            let grown = words + extra;
            let back = if mat_rows(words, row_bits) < mat_rows(grown, row_bits) {
                grown.take(row_blocks(row_bits) as int * mat_rows(words, row_bits) as int)
            } else {
                grown
            };
            &&& back == words
            &&& forall|i: int, j: int| #![auto]
                0 <= i < mat_rows(words, row_bits) ==> mat_bit(back, row_bits, i, j) == mat_bit(
                    words,
                    row_bits,
                    i,
                    j,
                )
        }),
{
    let grown = words + extra;
    if row_bits == 0 {
        assert(grown =~= words);
    } else {
        let rb = row_blocks(row_bits) as int;
        lemma_row_blocks_pos(row_bits);
        let q1 = words.len() as int / rb;
        let q2 = extra.len() as int / rb;
        lemma_fundamental_div_mod(words.len() as int, rb);
        lemma_fundamental_div_mod(extra.len() as int, rb);
        assert(words.len() == rb * q1 && extra.len() == rb * q2);
        assert((q1 + q2) * rb == rb * q1 + rb * q2 && rb * q1 == q1 * rb) by (nonlinear_arith);
        assert(q2 >= 0) by (nonlinear_arith)
            requires
                rb > 0,
                extra.len() >= 0,
                rb * q2 == extra.len(),
        ;
        lemma_fundamental_div_mod_converse(grown.len() as int, rb, q1 + q2, 0);
        assert(mat_rows(words, row_bits) == q1);
        assert(mat_rows(grown, row_bits) == q1 + q2);
        if mat_rows(words, row_bits) < mat_rows(grown, row_bits) {
            assert(rb * mat_rows(words, row_bits) as int == words.len());
            assert(grown.take(words.len() as int) =~= words);
            assert(rb * q1 == q1 * rb);
        } else {
            assert(q2 == 0);
            assert(extra.len() == 0);
            assert(grown =~= words);
        }
    }
}

/// Step `k` of a vertex sequence: the bit from its vertex `k` to its vertex
/// `k + 1` is enabled.
pub open spec fn walk_edge(words: Seq<u32>, row_bits: nat, p: Seq<int>, k: int) -> bool {
    mat_bit(words, row_bits, p[k], p[k + 1])
}

/// A walk through the relation: two or more vertices, each consecutive pair an
/// enabled bit.
pub open spec fn is_walk(words: Seq<u32>, row_bits: nat, p: Seq<int>, i: int, j: int) -> bool {
    &&& p.len() >= 2
    &&& p[0] == i
    &&& p[p.len() - 1] == j
    &&& forall|k: int| 0 <= k < p.len() - 1 ==> #[trigger] walk_edge(words, row_bits, p, k)
}

/// `j` is reachable from `i` by a path of one or more edges.
pub open spec fn reaches(words: Seq<u32>, row_bits: nat, i: int, j: int) -> bool {
    exists|p: Seq<int>| is_walk(words, row_bits, p, i, j)
}

/// A walk all of whose intermediate vertices lie below `b`.
pub open spec fn is_walk_below(
    words: Seq<u32>,
    row_bits: nat,
    b: int,
    p: Seq<int>,
    i: int,
    j: int,
) -> bool {
    &&& is_walk(words, row_bits, p, i, j)
    &&& forall|k: int| 1 <= k < p.len() - 1 ==> #[trigger] p[k] < b
}

/// Reachability by a nonempty path whose intermediate vertices all lie below
/// `k`, written as the Warshall recurrence on the highest allowed pivot.
pub open spec fn dp_reach(words: Seq<u32>, row_bits: nat, k: nat, i: int, j: int) -> bool
    decreases k,
{
    if k == 0 {
        mat_bit(words, row_bits, i, j)
    } else {
        dp_reach(words, row_bits, (k - 1) as nat, i, j) || (dp_reach(
            words,
            row_bits,
            (k - 1) as nat,
            i,
            k - 1,
        ) && dp_reach(words, row_bits, (k - 1) as nat, k - 1, j))
    }
}

} // verus!
