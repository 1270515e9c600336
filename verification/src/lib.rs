//! Decoding of Morton (Z-order) and Hilbert space-filling curve indices
//! into 2D grid coordinates, built from verified bit-level primitives.
//!
//! A curve index bit-interleaves two coordinate values, so the index type
//! must be exactly twice as wide as the coordinate type. That pairing is
//! fixed at compile time by the type aliases below, and every contract in
//! this crate is stated at those widths.

use vstd::prelude::*;

pub mod bits;
pub mod hilbert;
pub mod morton;

verus! {

/// Integer type suitable for counting number of bits
pub type NumBits = u32;

/// Index of a point on a space-filling curve
pub type CurveIdx = u16;

/// Coordinate of a point on a space-filling curve
pub type Coordinate = u8;

/// Coordinates of a 2D point on a space-filling curve (in x, y order)
pub type Coordinates2D = [u8; 2];

} // verus!
