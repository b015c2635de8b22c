//! A Penrose rhombus tiling generator.
//!
//! The engine works on a fixed-point plane: a coordinate of `1_000_000`
//! units stands for one geometric unit, so the classic `1e-5` closeness
//! tolerance of this kind of tiling code becomes an exact integer bound.
//! Every operation is specified exactly, down to the rounding of each
//! division, which makes the golden-ratio bookkeeping of the subdivision
//! and merging algorithms provable.

pub mod num;
pub mod config;
pub mod geometry;
pub mod seeds;
pub mod tiling;

pub use num::floor_div;
pub use num::isqrt;
pub use num::is_sqrt_floor;
pub use num::sqrt_floor;
