//! The immutable result of a solve.

use crate::grid::ScoreMatrix;
use crate::model::Coordinates;
use vstd::prelude::*;

verus! {

/// The optimal score, every complete path that achieves it, and the full
/// score matrix (kept for diagnostics and rendering by a caller).
pub struct Solution {
    pub paths: Vec<Vec<Coordinates>>,
    pub score: i32,
    pub matrix: ScoreMatrix,
}

impl Solution {
    /// Assembles a solution. A solution holds at least one path.
    pub fn new(paths: Vec<Vec<Coordinates>>, score: i32, matrix: ScoreMatrix) -> (s: Solution)
        requires
            paths@.len() > 0,
        ensures
            s.paths == paths,
            s.score == score,
            s.matrix == matrix,
            s.paths@.len() > 0,
    {
        Solution { paths, score, matrix }
    }
}

} // verus!
