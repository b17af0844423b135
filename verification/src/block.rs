//! The building block of packed bit storage.

use vstd::prelude::*;

verus! {

/// The number of bits in a storage block.
pub const BITS: usize = 32;

/// The type of one storage block.
pub type Block = u32;

} // verus!
