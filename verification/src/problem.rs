//! The alignment engine: problem construction, the score matrix, the
//! enumeration of every optimal path, and traceback scoring.

use crate::grid::{grid_cells, grid_dims, ScoreMatrix};
use crate::model::{
    align_x, align_y, cell_score, fits_i32, is_complete_path, is_path, lemma_achieving_predecessor,
    lemma_boundary_fits, lemma_dims_fit, lemma_interior_sums_fit, lemma_is_path_take,
    lemma_path_monotonic, lemma_path_score_bound, lemma_path_score_le_cell,
    lemma_path_to_origin_is_singleton, lemma_score_mag_pos, max3, path_score, score_mag, step_ok,
    step_score, valid_scores, Coordinates, GAP,
};
use crate::solution::Solution;
use vstd::prelude::*;

verus! {

/// A sequence of symbols to align.
pub type Sequence = Vec<u8>;

/// Why a problem could not be constructed.
#[derive(Clone, Copy, Debug, PartialEq, Eq, Structural)]
pub enum ConfigError {
    /// The match score does not exceed the mismatch penalty.
    MatchNotAboveMismatch,
    /// The match score does not exceed the gap penalty.
    MatchNotAboveGap,
    /// Sequence X is empty.
    EmptySequenceX,
    /// Sequence Y is empty.
    EmptySequenceY,
}

/// A global alignment problem: the scoring model and the two sequences.
pub struct Problem {
    match_: i32,
    mismatch: i32,
    gap_extend: i32,
    seq_x: Sequence,
    seq_y: Sequence,
}

/// Some entry of `v` is exactly the path `q`.
pub open spec fn holds_path(v: Seq<Vec<Coordinates>>, q: Seq<Coordinates>) -> bool {
    exists|k: int| 0 <= k < v.len() && #[trigger] v[k]@ == q
}

/// The score of aligning symbol `x` with symbol `y`.
pub fn align_score(match_: i32, mismatch: i32, x: u8, y: u8) -> (r: i32)
    ensures
        r as int == if x == y {
            match_ as int
        } else {
            mismatch as int
        },
{
    if x == y {
        match_
    } else {
        mismatch
    }
}

impl Problem {
    /// The match score.
    pub closed spec fn match_score(&self) -> int {
        self.match_ as int
    }

    /// The mismatch penalty.
    pub closed spec fn mismatch_penalty(&self) -> int {
        self.mismatch as int
    }

    /// The linear gap penalty.
    pub closed spec fn gap_penalty(&self) -> int {
        self.gap_extend as int
    }

    /// The X sequence.
    pub closed spec fn xs(&self) -> Seq<u8> {
        self.seq_x@
    }

    /// The Y sequence.
    pub closed spec fn ys(&self) -> Seq<u8> {
        self.seq_y@
    }

    /// A well-formed problem: a valid scoring model, non-empty sequences,
    /// and scores that stay within `i32` over any alignment.
    pub open spec fn wf(&self) -> bool {
        &&& valid_scores(self.match_score(), self.mismatch_penalty(), self.gap_penalty())
        &&& self.xs().len() > 0
        &&& self.ys().len() > 0
        &&& fits_i32(
            self.match_score(),
            self.mismatch_penalty(),
            self.gap_penalty(),
            self.xs().len() as int,
            self.ys().len() as int,
        )
    }

    /// The model value of score-matrix cell (i, j) for this problem.
    pub open spec fn cell(&self, i: int, j: int) -> int {
        cell_score(
            self.match_score(),
            self.mismatch_penalty(),
            self.gap_penalty(),
            self.xs(),
            self.ys(),
            i,
            j,
        )
    }

    /// The model alignment score of a path for this problem.
    pub open spec fn score_of(&self, p: Seq<Coordinates>) -> int {
        path_score(
            self.match_score(),
            self.mismatch_penalty(),
            self.gap_penalty(),
            self.xs(),
            self.ys(),
            p,
        )
    }

    /// The score contributed by one step of a path, for this problem.
    pub open spec fn step_of(&self, a: Coordinates, b: Coordinates) -> int {
        step_score(
            self.match_score(),
            self.mismatch_penalty(),
            self.gap_penalty(),
            self.xs(),
            self.ys(),
            a,
            b,
        )
    }

    /// `p` is a path from the origin to cell (i, j) that realizes exactly
    /// that cell's score.
    pub open spec fn achieving_path_to(&self, p: Seq<Coordinates>, i: int, j: int) -> bool {
        &&& is_path(p)
        &&& p.last().0 == i
        &&& p.last().1 == j
        &&& self.score_of(p) == self.cell(i, j)
    }

    /// Every path in `v` is an achieving path to cell (i, j).
    pub open spec fn all_achieving_paths_to(&self, v: Seq<Vec<Coordinates>>, i: int, j: int) -> bool {
        forall|k: int| 0 <= k < v.len() ==> self.achieving_path_to(#[trigger] v[k]@, i, j)
    }

    /// Conversely, `v` holds every achieving path to cell (i, j).
    pub open spec fn holds_all_achieving_paths_to(
        &self,
        v: Seq<Vec<Coordinates>>,
        i: int,
        j: int,
    ) -> bool {
        forall|q: Seq<Coordinates>| #[trigger] self.achieving_path_to(q, i, j) ==> holds_path(v, q)
    }

    /// Validates the configuration and constructs the problem. Each
    /// condition is checked in order: the match score must exceed the
    /// mismatch penalty and the gap penalty, and both sequences must be
    /// non-empty.
    pub fn new(match_: i32, mismatch: i32, gap_extend: i32, seq_x: Sequence, seq_y: Sequence) -> (r:
        Result<Problem, ConfigError>)
        requires
            fits_i32(
                match_ as int,
                mismatch as int,
                gap_extend as int,
                seq_x@.len() as int,
                seq_y@.len() as int,
            ),
        ensures
            r is Ok <==> (match_ > mismatch && match_ > gap_extend && seq_x@.len() > 0
                && seq_y@.len() > 0),
            r matches Ok(p) ==> p.wf() && p.match_score() == match_ as int
                && p.mismatch_penalty() == mismatch as int && p.gap_penalty() == gap_extend as int
                && p.xs() == seq_x@ && p.ys() == seq_y@,
            r == Result::<Problem, ConfigError>::Err(ConfigError::MatchNotAboveMismatch) <==> match_
                <= mismatch,
            r == Result::<Problem, ConfigError>::Err(ConfigError::MatchNotAboveGap) <==> (match_
                > mismatch && match_ <= gap_extend),
            r == Result::<Problem, ConfigError>::Err(ConfigError::EmptySequenceX) <==> (match_
                > mismatch && match_ > gap_extend && seq_x@.len() == 0),
            r == Result::<Problem, ConfigError>::Err(ConfigError::EmptySequenceY) <==> (match_
                > mismatch && match_ > gap_extend && seq_x@.len() > 0 && seq_y@.len() == 0),
    {
        if match_ <= mismatch {
            Err(ConfigError::MatchNotAboveMismatch)
        } else if match_ <= gap_extend {
            Err(ConfigError::MatchNotAboveGap)
        } else if seq_x.len() == 0 {
            Err(ConfigError::EmptySequenceX)
        } else if seq_y.len() == 0 {
            Err(ConfigError::EmptySequenceY)
        } else {
            Ok(Problem { match_, mismatch, gap_extend, seq_x, seq_y })
        }
    }

    /// Builds the full dynamic-programming score matrix, of shape
    /// `(|X| + 1) x (|Y| + 1)`, in row-major order.
    pub fn matrix(&self) -> (g: ScoreMatrix)
        requires
            self.wf(),
        ensures
            grid_dims(g).0 == self.xs().len() + 1,
            grid_dims(g).1 == self.ys().len() + 1,
            forall|i: int, j: int|
                0 <= i <= self.xs().len() && 0 <= j <= self.ys().len()
                    ==> #[trigger] grid_cells(g)[(i, j)] == self.cell(i, j),
    {
        proof {
            lemma_dims_fit(
                self.match_score(),
                self.mismatch_penalty(),
                self.gap_penalty(),
                self.xs().len() as int,
                self.ys().len() as int,
            );
        }
        let m_len = self.seq_x.len() + 1;
        let n_len = self.seq_y.len() + 1;
        proof {
            assert((m_len as int) * (n_len as int) < 0x8000_0000_0000_0000) by (nonlinear_arith)
                requires
                    0 < m_len as int <= 0x8000_0000,
                    0 < n_len as int <= 0x8000_0000,
            ;
        }
        let mut g = ScoreMatrix::zeros(m_len, n_len);
        let mut i: usize = 0;
        while i < m_len
            invariant
                self.wf(),
                m_len == self.xs().len() + 1,
                n_len == self.ys().len() + 1,
                i <= m_len,
                grid_dims(g).0 == m_len,
                grid_dims(g).1 == n_len,
                forall|r: int, c: int|
                    0 <= r < i && 0 <= c < n_len ==> #[trigger] grid_cells(g)[(r, c)] == self.cell(
                        r,
                        c,
                    ),
            decreases m_len - i,
        {
            let mut j: usize = 0;
            while j < n_len
                invariant
                    self.wf(),
                    m_len == self.xs().len() + 1,
                    n_len == self.ys().len() + 1,
                    i < m_len,
                    j <= n_len,
                    grid_dims(g).0 == m_len,
                    grid_dims(g).1 == n_len,
                    forall|r: int, c: int|
                        0 <= r < i && 0 <= c < n_len ==> #[trigger] grid_cells(g)[(r, c)]
                            == self.cell(r, c),
                    forall|c: int|
                        0 <= c < j ==> #[trigger] grid_cells(g)[(i as int, c)] == self.cell(
                            i as int,
                            c,
                        ),
                decreases n_len - j,
            {
                proof {
                    lemma_boundary_fits(
                        self.match_score(),
                        self.mismatch_penalty(),
                        self.gap_penalty(),
                        self.xs().len() as int,
                        self.ys().len() as int,
                        i as int,
                        j as int,
                    );
                }
                if i == 0 && j == 0 {
                    g.set_cell(0, 0, 0);
                } else if i == 0 {
                    g.set_cell(0, j, self.gap_extend * (j as i32));
                } else if j == 0 {
                    g.set_cell(i, 0, self.gap_extend * (i as i32));
                } else {
                    proof {
                        lemma_interior_sums_fit(
                            self.match_score(),
                            self.mismatch_penalty(),
                            self.gap_penalty(),
                            self.xs(),
                            self.ys(),
                            i as int,
                            j as int,
                        );
                    }
                    let d = g.get_cell(i - 1, j - 1);
                    let u = g.get_cell(i - 1, j);
                    let l = g.get_cell(i, j - 1);
                    let sc = align_score(
                        self.match_,
                        self.mismatch,
                        self.seq_x[i - 1],
                        self.seq_y[j - 1],
                    );
                    let diag = d + sc;
                    let up = u + self.gap_extend;
                    let left = l + self.gap_extend;
                    let mut best = diag;
                    if up > best {
                        best = up;
                    }
                    if left > best {
                        best = left;
                    }
                    proof {
                        assert(best as int == max3(diag as int, up as int, left as int));
                    }
                    g.set_cell(i, j, best);
                }
                j += 1;
            }
            i += 1;
        }
        g
    }

    /// Appends, for every path in `sub` (each ending at the predecessor
    /// cell), that path extended by one step to `(i, j)`, onto `res`.
    #[verifier::loop_isolation(false)]
    fn extend_paths(
        &self,
        res: &mut Vec<Vec<Coordinates>>,
        sub: &Vec<Vec<Coordinates>>,
        pi: usize,
        pj: usize,
        i: usize,
        j: usize,
    )
        requires
            self.wf(),
            step_ok((pi, pj), (i, j)),
            i <= self.xs().len(),
            j <= self.ys().len(),
            self.all_achieving_paths_to(sub@, pi as int, pj as int),
            self.cell(pi as int, pj as int) + self.step_of((pi, pj), (i, j)) == self.cell(
                i as int,
                j as int,
            ),
            self.all_achieving_paths_to(old(res)@, i as int, j as int),
        ensures
            final(res)@.len() == old(res)@.len() + sub@.len(),
            self.all_achieving_paths_to(final(res)@, i as int, j as int),
            forall|k: int| 0 <= k < old(res)@.len() ==> #[trigger] final(res)@[k] == old(res)@[k],
            forall|k: int|
                old(res)@.len() <= k < final(res)@.len() ==> (#[trigger] final(res)@[k])@ == sub@[k
                    - old(res)@.len()]@.push((i, j)),
    {
        let ghost n0 = res@.len();
        let mut t: usize = 0;
        while t < sub.len()
            invariant
                self.wf(),
                step_ok((pi, pj), (i, j)),
                i <= self.xs().len(),
                j <= self.ys().len(),
                t <= sub@.len(),
                res@.len() == n0 + t,
                self.all_achieving_paths_to(sub@, pi as int, pj as int),
                self.cell(pi as int, pj as int) + self.step_of((pi, pj), (i, j)) == self.cell(
                    i as int,
                    j as int,
                ),
                self.all_achieving_paths_to(res@, i as int, j as int),
                forall|k: int| 0 <= k < n0 ==> #[trigger] res@[k] == old(res)@[k],
                forall|k: int|
                    n0 <= k < res@.len() ==> (#[trigger] res@[k])@ == sub@[k - n0]@.push((i, j)),
            decreases sub@.len() - t,
        {
            let src = &sub[t];
            let mut q: Vec<Coordinates> = Vec::new();
            let mut w: usize = 0;
            while w < src.len()
                invariant
                    w <= src@.len(),
                    q@ == src@.take(w as int),
                decreases src@.len() - w,
            {
                q.push(src[w]);
                proof {
                    assert(q@ =~= src@.take(w as int + 1));
                }
                w += 1;
            }
            proof {
                assert(q@ =~= src@);
            }
            q.push((i, j));
            proof {
                let s = sub@[t as int]@;
                assert(q@.drop_last() =~= s);
                assert(q@.last() == (i, j));
                assert(q@[q@.len() - 2] == s.last());
                assert forall|k: int| 0 <= k < q@.len() - 1 implies step_ok(
                    #[trigger] q@[k],
                    q@[k + 1],
                ) by {
                    if k < q@.len() - 2 {
                        assert(q@[k] == s[k]);
                        assert(q@[k + 1] == s[k + 1]);
                        assert(step_ok(s[k], s[k + 1]));
                    }
                }
                assert(is_path(q@));
                assert(self.score_of(q@) == self.score_of(s) + self.step_of((pi, pj), (i, j)));
                assert(self.achieving_path_to(q@, i as int, j as int));
                assert(q@ =~= s.push((i, j)));
            }
            res.push(q);
            t += 1;
        }
    }

    /// Enumerates every path from the origin to cell `(i, j)` that the
    /// predecessor relation of the score matrix admits; each realizes
    /// exactly the cell's score, and there is always at least one.
    fn paths_achieving(&self, g: &ScoreMatrix, i: usize, j: usize) -> (res: Vec<Vec<Coordinates>>)
        requires
            self.wf(),
            grid_dims(*g).0 == self.xs().len() + 1,
            grid_dims(*g).1 == self.ys().len() + 1,
            i <= self.xs().len(),
            j <= self.ys().len(),
            forall|r: int, c: int|
                0 <= r <= self.xs().len() && 0 <= c <= self.ys().len()
                    ==> #[trigger] grid_cells(*g)[(r, c)] == self.cell(r, c),
        ensures
            res@.len() > 0,
            self.all_achieving_paths_to(res@, i as int, j as int),
            self.holds_all_achieving_paths_to(res@, i as int, j as int),
        decreases i + j,
    {
        let mut res: Vec<Vec<Coordinates>> = Vec::new();
        if i == 0 && j == 0 {
            let mut p: Vec<Coordinates> = Vec::new();
            p.push((0, 0));
            proof {
                assert(is_path(p@));
                assert(self.score_of(p@) == 0);
                assert(self.achieving_path_to(p@, 0, 0));
            }
            res.push(p);
            proof {
                assert forall|q: Seq<Coordinates>| self.achieving_path_to(q, 0, 0) implies holds_path(
                    res@,
                    q,
                ) by {
                    lemma_path_to_origin_is_singleton(q);
                    assert(res@[0]@ == q);
                }
            }
            return res;
        }
        let ghost mut cond_d: bool = false;
        let ghost mut cond_u: bool = false;
        let ghost mut cond_l: bool = false;
        let ghost mut subs_d: Seq<Vec<Coordinates>> = Seq::empty();
        let ghost mut subs_u: Seq<Vec<Coordinates>> = Seq::empty();
        let ghost mut subs_l: Seq<Vec<Coordinates>> = Seq::empty();
        let ghost mut base_d: int = 0;
        let ghost mut base_u: int = 0;
        let ghost mut base_l: int = 0;
        let v = g.get_cell(i, j);
        if i >= 1 && j >= 1 {
            proof {
                lemma_interior_sums_fit(
                    self.match_score(),
                    self.mismatch_penalty(),
                    self.gap_penalty(),
                    self.xs(),
                    self.ys(),
                    i as int,
                    j as int,
                );
            }
            let d = g.get_cell(i - 1, j - 1);
            let sc = align_score(self.match_, self.mismatch, self.seq_x[i - 1], self.seq_y[j - 1]);
            proof {
                cond_d = (v == d + sc);
                assert(sc as int == self.step_of(((i - 1) as usize, (j - 1) as usize), (i, j)));
                assert(cond_d <==> self.cell(i as int, j as int) == self.cell(
                    i as int - 1,
                    j as int - 1,
                ) + self.step_of(((i - 1) as usize, (j - 1) as usize), (i, j)));
            }
            if v == d + sc {
                let sub = self.paths_achieving(g, i - 1, j - 1);
                proof {
                    subs_d = sub@;
                    base_d = res@.len() as int;
                }
                self.extend_paths(&mut res, &sub, i - 1, j - 1, i, j);
                proof {
                    assert(self.holds_all_achieving_paths_to(subs_d, i as int - 1, j as int - 1));
                    assert(base_d + subs_d.len() == res@.len());
                    assert(forall|k: int|
                        0 <= k < subs_d.len() ==> (#[trigger] res@[base_d + k])@ == subs_d[k]@.push(
                            (i, j),
                        ));
                }
            }
            let u = g.get_cell(i - 1, j);
            proof {
                cond_u = (v == u + self.gap_extend);
                assert(cond_u <==> self.cell(i as int, j as int) == self.cell(i as int - 1, j as int)
                    + self.step_of(((i - 1) as usize, j), (i, j)));
            }
            if v == u + self.gap_extend {
                let sub = self.paths_achieving(g, i - 1, j);
                proof {
                    subs_u = sub@;
                    base_u = res@.len() as int;
                }
                self.extend_paths(&mut res, &sub, i - 1, j, i, j);
                proof {
                    assert(self.holds_all_achieving_paths_to(subs_u, i as int - 1, j as int));
                    assert(base_u + subs_u.len() == res@.len());
                    assert(forall|k: int|
                        0 <= k < subs_u.len() ==> (#[trigger] res@[base_u + k])@ == subs_u[k]@.push(
                            (i, j),
                        ));
                }
            }
            let l = g.get_cell(i, j - 1);
            proof {
                cond_l = (v == l + self.gap_extend);
                assert(cond_l <==> self.cell(i as int, j as int) == self.cell(i as int, j as int - 1)
                    + self.step_of((i, (j - 1) as usize), (i, j)));
            }
            if v == l + self.gap_extend {
                let sub = self.paths_achieving(g, i, j - 1);
                proof {
                    subs_l = sub@;
                    base_l = res@.len() as int;
                }
                self.extend_paths(&mut res, &sub, i, j - 1, i, j);
                proof {
                    assert(self.holds_all_achieving_paths_to(subs_l, i as int, j as int - 1));
                    assert(base_l + subs_l.len() == res@.len());
                    assert(forall|k: int|
                        0 <= k < subs_l.len() ==> (#[trigger] res@[base_l + k])@ == subs_l[k]@.push(
                            (i, j),
                        ));
                }
            }
            proof {
                assert(self.cell(i as int, j as int) == max3(
                    self.cell(i as int - 1, j as int - 1) + (if self.xs()[i as int - 1]
                        == self.ys()[j as int - 1] {
                        self.match_score()
                    } else {
                        self.mismatch_penalty()
                    }),
                    self.cell(i as int - 1, j as int) + self.gap_penalty(),
                    self.cell(i as int, j as int - 1) + self.gap_penalty(),
                ));
            }
        } else if i >= 1 {
            proof {
                lemma_boundary_fits(
                    self.match_score(),
                    self.mismatch_penalty(),
                    self.gap_penalty(),
                    self.xs().len() as int,
                    self.ys().len() as int,
                    i as int,
                    0,
                );
                lemma_boundary_fits(
                    self.match_score(),
                    self.mismatch_penalty(),
                    self.gap_penalty(),
                    self.xs().len() as int,
                    self.ys().len() as int,
                    i as int - 1,
                    0,
                );
                assert(self.gap_penalty() * (i as int - 1) + self.gap_penalty() == self.gap_penalty()
                    * (i as int)) by (nonlinear_arith);
            }
            let u = g.get_cell(i - 1, 0);
            proof {
                cond_u = (v == u + self.gap_extend);
                assert(cond_u <==> self.cell(i as int, j as int) == self.cell(i as int - 1, j as int)
                    + self.step_of(((i - 1) as usize, j), (i, j)));
            }
            if v == u + self.gap_extend {
                let sub = self.paths_achieving(g, i - 1, 0);
                proof {
                    subs_u = sub@;
                    base_u = res@.len() as int;
                }
                self.extend_paths(&mut res, &sub, i - 1, 0, i, j);
                proof {
                    assert(self.holds_all_achieving_paths_to(subs_u, i as int - 1, j as int));
                    assert(base_u + subs_u.len() == res@.len());
                    assert(forall|k: int|
                        0 <= k < subs_u.len() ==> (#[trigger] res@[base_u + k])@ == subs_u[k]@.push(
                            (i, j),
                        ));
                }
            }
        } else {
            proof {
                lemma_boundary_fits(
                    self.match_score(),
                    self.mismatch_penalty(),
                    self.gap_penalty(),
                    self.xs().len() as int,
                    self.ys().len() as int,
                    0,
                    j as int,
                );
                lemma_boundary_fits(
                    self.match_score(),
                    self.mismatch_penalty(),
                    self.gap_penalty(),
                    self.xs().len() as int,
                    self.ys().len() as int,
                    0,
                    j as int - 1,
                );
                assert(self.gap_penalty() * (j as int - 1) + self.gap_penalty() == self.gap_penalty()
                    * (j as int)) by (nonlinear_arith);
            }
            let l = g.get_cell(0, j - 1);
            proof {
                cond_l = (v == l + self.gap_extend);
                assert(cond_l <==> self.cell(i as int, j as int) == self.cell(i as int, j as int - 1)
                    + self.step_of((i, (j - 1) as usize), (i, j)));
            }
            if v == l + self.gap_extend {
                let sub = self.paths_achieving(g, 0, j - 1);
                proof {
                    subs_l = sub@;
                    base_l = res@.len() as int;
                }
                self.extend_paths(&mut res, &sub, 0, j - 1, i, j);
                proof {
                    assert(self.holds_all_achieving_paths_to(subs_l, i as int, j as int - 1));
                    assert(base_l + subs_l.len() == res@.len());
                    assert(forall|k: int|
                        0 <= k < subs_l.len() ==> (#[trigger] res@[base_l + k])@ == subs_l[k]@.push(
                            (i, j),
                        ));
                }
            }
        }
        proof {
            assert forall|q: Seq<Coordinates>| self.achieving_path_to(
                q,
                i as int,
                j as int,
            ) implies holds_path(res@, q) by {
                if q.len() < 2 {
                    assert(q.last() == q[0]);
                    assert(false);
                } else {
                    lemma_achieving_predecessor(
                        self.match_score(),
                        self.mismatch_penalty(),
                        self.gap_penalty(),
                        self.xs(),
                        self.ys(),
                        q,
                    );
                    let t = q.drop_last();
                    let a = q[q.len() - 2];
                    assert(step_ok(a, q.last()));
                    assert(q.last().0 == i && q.last().1 == j);
                    assert(q.last() == (i, j));
                    assert(t.last() == a);
                    assert(self.achieving_path_to(t, a.0 as int, a.1 as int));
                    assert(self.cell(a.0 as int, a.1 as int) + self.step_of(a, (i, j))
                        == self.cell(i as int, j as int));
                    assert(q =~= t.push((i, j)));
                    if a.0 + 1 == i && a.1 + 1 == j {
                        assert(cond_d);
                        assert(holds_path(subs_d, t));
                        let kk = choose|kk: int| 0 <= kk < subs_d.len() && subs_d[kk]@ == t;
                        assert((res@[base_d + kk])@ == subs_d[kk]@.push((i, j)));
                        assert(res@[base_d + kk]@ == q);
                    } else if a.0 + 1 == i {
                        assert(cond_u);
                        assert(holds_path(subs_u, t));
                        let kk = choose|kk: int| 0 <= kk < subs_u.len() && subs_u[kk]@ == t;
                        assert((res@[base_u + kk])@ == subs_u[kk]@.push((i, j)));
                        assert(res@[base_u + kk]@ == q);
                    } else {
                        assert(cond_l);
                        assert(holds_path(subs_l, t));
                        let kk = choose|kk: int| 0 <= kk < subs_l.len() && subs_l[kk]@ == t;
                        assert((res@[base_l + kk])@ == subs_l[kk]@.push((i, j)));
                        assert(res@[base_l + kk]@ == q);
                    }
                }
            }
        }
        res
    }

    /// Recomputes the alignment score of a complete path by walking its
    /// steps: a diagonal step scores the aligned pair, any other step pays
    /// the gap penalty.
    pub fn traceback(&self, path: &Vec<Coordinates>) -> (score: i32)
        requires
            self.wf(),
            is_complete_path(path@, self.xs().len() as int, self.ys().len() as int),
        ensures
            score as int == self.score_of(path@),
    {
        proof {
            lemma_dims_fit(
                self.match_score(),
                self.mismatch_penalty(),
                self.gap_penalty(),
                self.xs().len() as int,
                self.ys().len() as int,
            );
        }
        let mut score: i32 = 0;
        let mut k: usize = 1;
        while k < path.len()
            invariant
                self.wf(),
                is_complete_path(path@, self.xs().len() as int, self.ys().len() as int),
                1 <= k <= path@.len(),
                score as int == self.score_of(path@.take(k as int)),
            decreases path@.len() - k,
        {
            let a = path[k - 1];
            let b = path[k];
            proof {
                assert(step_ok(path@[k as int - 1], path@[k as int]));
                lemma_path_monotonic(path@, k as int, path@.len() - 1);
                lemma_path_monotonic(path@, k as int - 1, path@.len() - 1);
                lemma_dims_fit(
                    self.match_score(),
                    self.mismatch_penalty(),
                    self.gap_penalty(),
                    self.xs().len() as int,
                    self.ys().len() as int,
                );
                lemma_is_path_take(path@, k as int + 1);
                lemma_path_score_bound(
                    self.match_score(),
                    self.mismatch_penalty(),
                    self.gap_penalty(),
                    self.xs(),
                    self.ys(),
                    path@.take(k as int + 1),
                );
                lemma_score_mag_pos(self.match_score(), self.mismatch_penalty(), self.gap_penalty());
                assert(path@.take(k as int + 1).drop_last() =~= path@.take(k as int));
                assert(path@.take(k as int + 1).last() == path@[k as int]);
                assert((path@[k as int].0 + path@[k as int].1) * score_mag(
                    self.match_score(),
                    self.mismatch_penalty(),
                    self.gap_penalty(),
                ) <= (self.xs().len() + self.ys().len()) * score_mag(
                    self.match_score(),
                    self.mismatch_penalty(),
                    self.gap_penalty(),
                )) by (nonlinear_arith)
                    requires
                        score_mag(self.match_score(), self.mismatch_penalty(), self.gap_penalty())
                            >= 0,
                        path@[k as int].0 + path@[k as int].1 <= self.xs().len() + self.ys().len(),
                ;
            }
            let step: i32 = if b.0 == a.0 + 1 && b.1 == a.1 + 1 {
                align_score(self.match_, self.mismatch, self.seq_x[a.0], self.seq_y[a.1])
            } else {
                self.gap_extend
            };
            score = score + step;
            k += 1;
        }
        proof {
            assert(path@.take(path@.len() as int) =~= path@);
        }
        score
    }

    /// Reconstructs the two gapped alignment rows of a complete path,
    /// walking it from the origin.
    pub fn reconstruct(&self, path: &Vec<Coordinates>) -> (rows: (Vec<u8>, Vec<u8>))
        requires
            self.wf(),
            is_complete_path(path@, self.xs().len() as int, self.ys().len() as int),
        ensures
            rows.0@ == align_x(self.xs(), path@),
            rows.1@ == align_y(self.ys(), path@),
    {
        proof {
            lemma_dims_fit(
                self.match_score(),
                self.mismatch_penalty(),
                self.gap_penalty(),
                self.xs().len() as int,
                self.ys().len() as int,
            );
        }
        let mut row_x: Vec<u8> = Vec::new();
        let mut row_y: Vec<u8> = Vec::new();
        let mut k: usize = 1;
        while k < path.len()
            invariant
                self.wf(),
                is_complete_path(path@, self.xs().len() as int, self.ys().len() as int),
                1 <= k <= path@.len(),
                row_x@ == align_x(self.xs(), path@.take(k as int)),
                row_y@ == align_y(self.ys(), path@.take(k as int)),
            decreases path@.len() - k,
        {
            let a = path[k - 1];
            let b = path[k];
            proof {
                assert(step_ok(path@[k as int - 1], path@[k as int]));
                lemma_path_monotonic(path@, k as int, path@.len() - 1);
                lemma_dims_fit(
                    self.match_score(),
                    self.mismatch_penalty(),
                    self.gap_penalty(),
                    self.xs().len() as int,
                    self.ys().len() as int,
                );
                assert(path@.take(k as int + 1).drop_last() =~= path@.take(k as int));
                assert(path@.take(k as int + 1).last() == path@[k as int]);
                assert(path@.take(k as int + 1)[path@.take(k as int + 1).len() - 2] == path@[k as int
                    - 1]);
            }
            if b.0 == a.0 + 1 {
                row_x.push(self.seq_x[a.0]);
            } else {
                row_x.push(GAP);
            }
            if b.1 == a.1 + 1 {
                row_y.push(self.seq_y[a.1]);
            } else {
                row_y.push(GAP);
            }
            k += 1;
        }
        proof {
            assert(path@.take(path@.len() as int) =~= path@);
        }
        (row_x, row_y)
    }

    /// Solves the problem: builds the matrix, enumerates the optimal paths,
    /// re-scores each by traceback, and assembles the solution. The
    /// solution's score is the matrix's terminal value and the maximum over
    /// all complete paths; the retained paths are complete, realize that
    /// score, include every complete path that does, and number at least
    /// one.
    pub fn solve(&self) -> (sol: Solution)
        requires
            self.wf(),
        ensures
            sol.paths@.len() > 0,
            sol.score as int == self.cell(self.xs().len() as int, self.ys().len() as int),
            forall|k: int|
                0 <= k < sol.paths@.len() ==> is_complete_path(
                    #[trigger] sol.paths@[k]@,
                    self.xs().len() as int,
                    self.ys().len() as int,
                ) && self.score_of(sol.paths@[k]@) == sol.score as int,
            forall|q: Seq<Coordinates>|
                is_complete_path(q, self.xs().len() as int, self.ys().len() as int)
                    ==> #[trigger] self.score_of(q) <= sol.score as int,
            forall|q: Seq<Coordinates>|
                is_complete_path(q, self.xs().len() as int, self.ys().len() as int)
                    && #[trigger] self.score_of(q) == sol.score as int ==> holds_path(
                    sol.paths@,
                    q,
                ),
            grid_dims(sol.matrix).0 == self.xs().len() + 1,
            grid_dims(sol.matrix).1 == self.ys().len() + 1,
            forall|i: int, j: int|
                0 <= i <= self.xs().len() && 0 <= j <= self.ys().len()
                    ==> #[trigger] grid_cells(sol.matrix)[(i, j)] == self.cell(i, j),
    {
        proof {
            lemma_dims_fit(
                self.match_score(),
                self.mismatch_penalty(),
                self.gap_penalty(),
                self.xs().len() as int,
                self.ys().len() as int,
            );
        }
        let g = self.matrix();
        let x_len = self.seq_x.len();
        let y_len = self.seq_y.len();
        let mut candidates = self.paths_achieving(&g, x_len, y_len);
        let top_score = g.get_cell(x_len, y_len);
        let ghost total = candidates@.len();
        let mut optimal: Vec<Vec<Coordinates>> = Vec::new();
        while candidates.len() > 0
            invariant
                self.wf(),
                top_score as int == self.cell(self.xs().len() as int, self.ys().len() as int),
                optimal@.len() + candidates@.len() == total,
                total > 0,
                self.all_achieving_paths_to(
                    candidates@,
                    self.xs().len() as int,
                    self.ys().len() as int,
                ),
                forall|k: int|
                    0 <= k < optimal@.len() ==> is_complete_path(
                        #[trigger] optimal@[k]@,
                        self.xs().len() as int,
                        self.ys().len() as int,
                    ) && self.score_of(optimal@[k]@) == top_score as int,
                forall|q: Seq<Coordinates>|
                    #[trigger] self.achieving_path_to(
                        q,
                        self.xs().len() as int,
                        self.ys().len() as int,
                    ) ==> holds_path(candidates@, q) || holds_path(optimal@, q),
            decreases candidates@.len(),
        {
            let ghost cand0 = candidates@;
            let ghost opt0 = optimal@;
            let p = candidates.pop().unwrap();
            let s = self.traceback(&p);
            if s == top_score {
                optimal.push(p);
            }
            proof {
                assert forall|q: Seq<Coordinates>|
                    #[trigger] self.achieving_path_to(
                        q,
                        self.xs().len() as int,
                        self.ys().len() as int,
                    ) implies holds_path(candidates@, q) || holds_path(optimal@, q) by {
                    if holds_path(cand0, q) {
                        let kk = choose|kk: int| 0 <= kk < cand0.len() && cand0[kk]@ == q;
                        if kk < cand0.len() - 1 {
                            assert(candidates@[kk]@ == q);
                        } else {
                            assert(optimal@[optimal@.len() - 1]@ == q);
                        }
                    } else {
                        let kk = choose|kk: int| 0 <= kk < opt0.len() && opt0[kk]@ == q;
                        assert(optimal@[kk]@ == q);
                    }
                }
            }
        }
        proof {
            assert forall|q: Seq<Coordinates>|
                is_complete_path(
                    q,
                    self.xs().len() as int,
                    self.ys().len() as int,
                ) implies #[trigger] self.score_of(q) <= top_score as int by {
                lemma_path_score_le_cell(
                    self.match_score(),
                    self.mismatch_penalty(),
                    self.gap_penalty(),
                    self.xs(),
                    self.ys(),
                    q,
                );
            }
            assert forall|q: Seq<Coordinates>|
                is_complete_path(q, self.xs().len() as int, self.ys().len() as int)
                    && #[trigger] self.score_of(q) == top_score as int implies holds_path(
                optimal@,
                q,
            ) by {
                assert(self.achieving_path_to(q, self.xs().len() as int, self.ys().len() as int));
                assert(!holds_path(candidates@, q));
            }
        }
        Solution::new(optimal, top_score, g)
    }
}

} // verus!
