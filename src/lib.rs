//! Counting the lattice cells an ant can reach when every cell it stands on
//! must keep the decimal digit sums of its coordinates within a budget.

pub mod digits;
pub mod tiling;
pub mod axis;
pub mod quadrant;
