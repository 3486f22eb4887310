//! Named example problems: fixed sequences and scoring models.
//!
//! Symbols are nucleotide bytes: A = 65, C = 67, G = 71, T = 84.

use crate::problem::Problem;
use vstd::prelude::*;

verus! {

/// The worked example from Eddy's alignment primer:
/// match 5, mismatch -2, gap -6, X = "TTCATA", Y = "TGCTCGTA".
pub fn eddy() -> (p: Problem)
    ensures
        p.wf(),
        p.match_score() == 5,
        p.mismatch_penalty() == -2,
        p.gap_penalty() == -6,
        p.xs() == seq![84u8, 84u8, 67u8, 65u8, 84u8, 65u8],
        p.ys() == seq![84u8, 71u8, 67u8, 84u8, 67u8, 71u8, 84u8, 65u8],
{
    let mut x: Vec<u8> = Vec::new();
    x.push(84);
    x.push(84);
    x.push(67);
    x.push(65);
    x.push(84);
    x.push(65);
    let mut y: Vec<u8> = Vec::new();
    y.push(84);
    y.push(71);
    y.push(67);
    y.push(84);
    y.push(67);
    y.push(71);
    y.push(84);
    y.push(65);
    proof {
        assert(x@ =~= seq![84u8, 84u8, 67u8, 65u8, 84u8, 65u8]);
        assert(y@ =~= seq![84u8, 71u8, 67u8, 84u8, 67u8, 71u8, 84u8, 65u8]);
    }
    Problem::new(5, -2, -6, x, y).unwrap()
}

/// The lecture-slide example: match 3, mismatch -1, gap -3,
/// X = "GTAC", Y = "GATCA".
pub fn lec_17_slide19() -> (p: Problem)
    ensures
        p.wf(),
        p.match_score() == 3,
        p.mismatch_penalty() == -1,
        p.gap_penalty() == -3,
        p.xs() == seq![71u8, 84u8, 65u8, 67u8],
        p.ys() == seq![71u8, 65u8, 84u8, 67u8, 65u8],
{
    let mut x: Vec<u8> = Vec::new();
    x.push(71);
    x.push(84);
    x.push(65);
    x.push(67);
    let mut y: Vec<u8> = Vec::new();
    y.push(71);
    y.push(65);
    y.push(84);
    y.push(67);
    y.push(65);
    proof {
        assert(x@ =~= seq![71u8, 84u8, 65u8, 67u8]);
        assert(y@ =~= seq![71u8, 65u8, 84u8, 67u8, 65u8]);
    }
    Problem::new(3, -1, -3, x, y).unwrap()
}

/// In-class exercise (a): match 3, mismatch -1, gap -3,
/// X = "TCA", Y = "ATCG".
pub fn in_class_a() -> (p: Problem)
    ensures
        p.wf(),
        p.match_score() == 3,
        p.mismatch_penalty() == -1,
        p.gap_penalty() == -3,
        p.xs() == seq![84u8, 67u8, 65u8],
        p.ys() == seq![65u8, 84u8, 67u8, 71u8],
{
    let mut x: Vec<u8> = Vec::new();
    x.push(84);
    x.push(67);
    x.push(65);
    let mut y: Vec<u8> = Vec::new();
    y.push(65);
    y.push(84);
    y.push(67);
    y.push(71);
    proof {
        assert(x@ =~= seq![84u8, 67u8, 65u8]);
        assert(y@ =~= seq![65u8, 84u8, 67u8, 71u8]);
    }
    Problem::new(3, -1, -3, x, y).unwrap()
}

/// In-class exercise (b), gaps far cheaper than mismatches:
/// match 3, mismatch -10, gap -1, X = "TCA", Y = "ATCG".
pub fn in_class_b() -> (p: Problem)
    ensures
        p.wf(),
        p.match_score() == 3,
        p.mismatch_penalty() == -10,
        p.gap_penalty() == -1,
        p.xs() == seq![84u8, 67u8, 65u8],
        p.ys() == seq![65u8, 84u8, 67u8, 71u8],
{
    let mut x: Vec<u8> = Vec::new();
    x.push(84);
    x.push(67);
    x.push(65);
    let mut y: Vec<u8> = Vec::new();
    y.push(65);
    y.push(84);
    y.push(67);
    y.push(71);
    proof {
        assert(x@ =~= seq![84u8, 67u8, 65u8]);
        assert(y@ =~= seq![65u8, 84u8, 67u8, 71u8]);
    }
    Problem::new(3, -10, -1, x, y).unwrap()
}

/// In-class exercise (c): match 3, mismatch -1, gap -1,
/// X = "TCA", Y = "ATCG".
pub fn in_class_c() -> (p: Problem)
    ensures
        p.wf(),
        p.match_score() == 3,
        p.mismatch_penalty() == -1,
        p.gap_penalty() == -1,
        p.xs() == seq![84u8, 67u8, 65u8],
        p.ys() == seq![65u8, 84u8, 67u8, 71u8],
{
    let mut x: Vec<u8> = Vec::new();
    x.push(84);
    x.push(67);
    x.push(65);
    let mut y: Vec<u8> = Vec::new();
    y.push(65);
    y.push(84);
    y.push(67);
    y.push(71);
    proof {
        assert(x@ =~= seq![84u8, 67u8, 65u8]);
        assert(y@ =~= seq![65u8, 84u8, 67u8, 71u8]);
    }
    Problem::new(3, -1, -1, x, y).unwrap()
}

} // verus!
