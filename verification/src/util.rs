//! Arithmetic helpers for word addressing.

use vstd::prelude::*;

verus! {

/// True iff `a` is a power of two.
pub open spec fn is_pow2(a: nat) -> bool
    decreases a,
{
    if a == 0 {
        false
    } else if a == 1 {
        true
    } else {
        a % 2 == 0 && is_pow2(a / 2)
    }
}

/// `u` rounded up to the next multiple of `a`.
pub open spec fn spec_round_up(u: nat, a: nat) -> nat
    recommends
        a > 0,
{
    (((u + a - 1) / (a as int)) * (a as int)) as nat
}

/// Quotient and remainder in one call.
pub fn div_rem(num: usize, divisor: usize) -> (r: (usize, usize))
    requires
        divisor != 0,
    ensures
        r.0 == num / divisor,
        r.1 == num % divisor,
{
    (num / divisor, num % divisor)
}

/// Rounds `unrounded` up to the next multiple of `target_alignment`, which
/// must be a power of two.
pub fn round_up_to_next(unrounded: usize, target_alignment: usize) -> (r: usize)
    requires
        is_pow2(target_alignment as nat),
        unrounded + target_alignment - 1 <= usize::MAX,
    ensures
        r == spec_round_up(unrounded as nat, target_alignment as nat),
{
    proof {
        lemma_pow2_pos(target_alignment as nat);
    }
    if unrounded % target_alignment == 0 {
        proof {
            assert(unrounded as nat == ((unrounded + target_alignment - 1) as nat / (
            target_alignment as nat)) * (target_alignment as nat)) by (nonlinear_arith)
                requires
                    target_alignment > 0,
                    unrounded % target_alignment == 0,
            ;
        }
        unrounded
    } else {
        let q: usize = unrounded / target_alignment;
        proof {
            assert((q + 1) * (target_alignment as int) <= unrounded + target_alignment - 1 && (q
                + 1) * (target_alignment as int) == ((unrounded + target_alignment - 1) as int / (
            target_alignment as int)) * (target_alignment as int)) by (nonlinear_arith)
                requires
                    target_alignment > 0,
                    unrounded % target_alignment != 0,
                    q == unrounded as int / target_alignment as int,
            ;
        }
        (q + 1) * target_alignment
    }
}

/// The number of whole storage words that hold `row_bits` bits.
pub(crate) fn blocks_for(row_bits: usize) -> (r: usize)
    ensures
        r == crate::model::row_blocks(row_bits as nat),
{
    proof {
        vstd::arithmetic::div_mod::lemma_fundamental_div_mod(row_bits as int, 32);
        let q = row_bits as int / 32;
        let s = row_bits as int % 32;
        if s == 0 {
            vstd::arithmetic::div_mod::lemma_fundamental_div_mod_converse(
                row_bits + 31,
                32,
                q,
                31,
            );
        } else {
            vstd::arithmetic::div_mod::lemma_fundamental_div_mod_converse(
                row_bits + 31,
                32,
                q + 1,
                s - 1,
            );
        }
    }
    if row_bits % 32 == 0 {
        row_bits / 32
    } else {
        row_bits / 32 + 1
    }
}

/// A power of two is positive.
pub proof fn lemma_pow2_pos(a: nat)
    requires
        is_pow2(a),
    ensures
        a > 0,
{
}

} // verus!
