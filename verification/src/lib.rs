//! A greedy line-breaking and justification engine for laying out
//! mixed-script text into a bounded rectangular region.
//!
//! All horizontal and vertical dimensions are integers in 26.6 fixed-point
//! units (64 units per point), the native unit of glyph shaping engines.
//! Conversion to and from floating-point points is the caller's concern.

pub mod chars;
pub mod color;
pub mod metrics;
pub mod region;
pub mod segment;
pub mod assemble;
pub mod emit;
pub mod layout;
pub mod laws;

use vstd::prelude::*;

verus! {

/// Upper bound on any single dimension (a coordinate, width, height,
/// line advance or glyph advance) in 26.6 units: 2^20 units is 16384 pt,
/// far beyond any page, and keeps all position arithmetic within `i64`.
pub const MAX_DIM: i64 = 0x10_0000;

/// Upper bound on the number of tokens in one layout call.
pub const MAX_BOXES: usize = 0x10_0000;

} // verus!
