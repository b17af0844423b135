//! Dense, bit-packed boolean matrices for binary relations, with row and
//! sub-matrix views and in-place transitive and reflexive closure.

pub mod bits;
pub mod block;
pub mod matrix;
pub mod model;
pub mod reach;
pub mod row;
pub mod storage;
pub mod submatrix;
pub mod util;

pub use matrix::BitMatrix;
