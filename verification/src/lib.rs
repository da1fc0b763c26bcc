//! A solver for grid-based connection puzzles: given an R x C board and a
//! set of labelled terminal pairs, it finds vertex-disjoint simple paths,
//! one per pair, whose union covers every cell of the board exactly once,
//! or reports that no such cover exists.

pub mod grid;
pub mod propagate;
pub mod paths;
pub mod select;
pub mod solve;
pub mod parse;
pub mod digits;
