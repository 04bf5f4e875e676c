//! Bitboards: fixed-size grids of bits with pluggable memory layouts and a
//! hierarchical mask of non-empty words.
pub mod bits;
pub mod board;
pub mod bulk;
pub mod expand;
pub mod grid;
pub mod iter;
pub mod laws;
pub mod layout;
pub mod morphology;
pub mod ops;
pub mod query;
pub mod runs;
pub mod walk;

pub use board::BitBoard;
pub use iter::BitBoardIter;
pub use layout::{BitLayout, MortonLayout, RowMajorLayout};
