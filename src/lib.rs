//! A growth-only bitmap index that hands out dense slot numbers, recycles
//! freed ones and maps an ordinal position to the slot that holds it.
pub mod bits;
pub mod bit_index;
pub mod guarantees;

pub use bit_index::{BitIndex, BitIndexError};
