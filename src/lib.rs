//! One-dimensional tile windowing: which tiles of a uniform grid overlap a
//! scrolled viewport, and at what offset from the viewport's leading edge each
//! of them is drawn.
//!
//! All lengths are integers in a unit of the caller's choice (pixels, or a
//! fixed-point fraction of a pixel). Two windowers share the arithmetic of
//! [`geometry`]: [`iter_tiles`] over a finite sequence of tile values, and
//! [`iter_infinite_tiles`] over the unbounded grid of tile positions.
//! Positions are `i128`: a tile may lie before the display's leading edge or
//! past its far end by more than an `i64` or a `u64` holds.
pub mod finite;
pub mod geometry;
pub mod infinite;
pub mod laws;

pub use finite::iter_tiles;
pub use infinite::iter_infinite_tiles;
