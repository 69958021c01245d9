//! Pattern-defeating quicksort over slices, with its ordering and permutation
//! guarantees proved, together with the plain-value parts of the font
//! longhand properties.

pub mod order;
pub mod range;
mod insertion;
mod heap;
mod blocks;
mod partition;
pub mod sort;
pub mod laws;
pub mod font_metrics;
pub mod longhands;
