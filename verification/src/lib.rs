//! Global pairwise sequence alignment under a linear gap penalty, returning
//! every alignment path that achieves the optimal score.
//!
//! The dynamic-programming score matrix is held in an `ndarray::Array2`; the
//! recurrence that fills it, the enumeration of optimal paths, and the
//! traceback scoring of each path are verified against the mathematical
//! model in `model`.

pub mod grid;
pub mod model;
pub mod problem;
pub mod problem_set;
pub mod solution;
