//! Overlapping fixed-size windows ("shingles") over slices, over UTF-8 text
//! and over two-dimensional grids of rows, computed without copying the data.

pub mod grid;
pub mod hasher;
pub mod shingles;
pub mod shingles_2d;
pub mod text;

pub use hasher::ShingleHasher;
pub use shingles::{AsShingles, Shingles};
pub use shingles_2d::{AsShingles2D, Pos, Shingles2D};
