//! Mathematical model of the alignment engine: the scoring recurrence, the
//! grid paths an alignment walks, the score of a path, and the gapped
//! strings a path reconstructs, with the laws that relate them.

use vstd::prelude::*;

verus! {

/// A cell of the score matrix: (row, column).
pub type Coordinates = (usize, usize);

/// The symbol emitted where an alignment places a gap: the byte of `'-'`.
pub const GAP: u8 = 45;

/// The absolute value of an integer.
pub open spec fn mag(x: int) -> int {
    if x < 0 {
        -x
    } else {
        x
    }
}

/// The largest of three integers.
pub open spec fn max3(a: int, b: int, c: int) -> int {
    if a >= b && a >= c {
        a
    } else if b >= c {
        b
    } else {
        c
    }
}

/// The largest magnitude among the three scoring parameters: one alignment
/// step changes a score by at most this much.
pub open spec fn score_mag(match_score: int, mismatch: int, gap: int) -> int {
    max3(mag(match_score), mag(mismatch), mag(gap))
}

/// A scoring model is valid when aligning two symbols is never worse than
/// gapping or mismatching them.
pub open spec fn valid_scores(match_score: int, mismatch: int, gap: int) -> bool {
    match_score > mismatch && match_score > gap
}

/// Every score the engine computes for sequences of these lengths stays
/// within `i32`: a score changes by at most `score_mag` per step, over at
/// most `xlen + ylen` steps.
pub open spec fn fits_i32(
    match_score: int,
    mismatch: int,
    gap: int,
    xlen: int,
    ylen: int,
) -> bool {
    (xlen + ylen) * score_mag(match_score, mismatch, gap) <= 0x7fff_ffff
}

/// The value of cell (i, j) of the dynamic-programming score matrix.
pub open spec fn cell_score(
    match_score: int,
    mismatch: int,
    gap: int,
    x: Seq<u8>,
    y: Seq<u8>,
    i: int,
    j: int,
) -> int
    decreases i + j, when 0 <= i && 0 <= j
{
    if i == 0 && j == 0 {
        0
    } else if i == 0 {
        gap * j
    } else if j == 0 {
        gap * i
    } else {
        let diag = cell_score(match_score, mismatch, gap, x, y, i - 1, j - 1) + (if x[i - 1] == y[j
            - 1] {
            match_score
        } else {
            mismatch
        });
        let up = cell_score(match_score, mismatch, gap, x, y, i - 1, j) + gap;
        let left = cell_score(match_score, mismatch, gap, x, y, i, j - 1) + gap;
        max3(diag, up, left)
    }
}

/// One alignment step: right (a gap in X), down (a gap in Y), or diagonal
/// (two symbols aligned).
pub open spec fn step_ok(a: Coordinates, b: Coordinates) -> bool {
    ||| (b.0 == a.0 && b.1 == a.1 + 1)
    ||| (b.0 == a.0 + 1 && b.1 == a.1)
    ||| (b.0 == a.0 + 1 && b.1 == a.1 + 1)
}

/// A path starts at the origin and moves only right, down, or diagonally.
pub open spec fn is_path(p: Seq<Coordinates>) -> bool {
    &&& p.len() > 0
    &&& p[0].0 == 0
    &&& p[0].1 == 0
    &&& forall|k: int| 0 <= k < p.len() - 1 ==> step_ok(#[trigger] p[k], p[k + 1])
}

/// A complete path ends at the terminal cell of the matrix.
pub open spec fn is_complete_path(p: Seq<Coordinates>, xlen: int, ylen: int) -> bool {
    &&& is_path(p)
    &&& p.last().0 == xlen
    &&& p.last().1 == ylen
}

/// The score contributed by the step from `a` to `b`: the match or mismatch
/// score for a diagonal step, the gap penalty otherwise.
pub open spec fn step_score(
    match_score: int,
    mismatch: int,
    gap: int,
    x: Seq<u8>,
    y: Seq<u8>,
    a: Coordinates,
    b: Coordinates,
) -> int {
    if b.0 == a.0 + 1 && b.1 == a.1 + 1 {
        if x[a.0 as int] == y[a.1 as int] {
            match_score
        } else {
            mismatch
        }
    } else {
        gap
    }
}

/// The alignment score of a path: the sum of its step scores.
pub open spec fn path_score(
    match_score: int,
    mismatch: int,
    gap: int,
    x: Seq<u8>,
    y: Seq<u8>,
    p: Seq<Coordinates>,
) -> int
    decreases p.len(),
{
    if p.len() <= 1 {
        0
    } else {
        path_score(match_score, mismatch, gap, x, y, p.drop_last()) + step_score(
            match_score,
            mismatch,
            gap,
            x,
            y,
            p[p.len() - 2],
            p[p.len() - 1],
        )
    }
}

/// The gapped X-row a path reconstructs: a down or diagonal step consumes
/// the next X symbol, a right step emits a gap.
pub open spec fn align_x(x: Seq<u8>, p: Seq<Coordinates>) -> Seq<u8>
    decreases p.len(),
{
    if p.len() <= 1 {
        Seq::empty()
    } else {
        let a = p[p.len() - 2];
        let b = p[p.len() - 1];
        align_x(x, p.drop_last()).push(
            if b.0 == a.0 + 1 {
                x[a.0 as int]
            } else {
                GAP
            },
        )
    }
}

/// The gapped Y-row a path reconstructs: a right or diagonal step consumes
/// the next Y symbol, a down step emits a gap.
pub open spec fn align_y(y: Seq<u8>, p: Seq<Coordinates>) -> Seq<u8>
    decreases p.len(),
{
    if p.len() <= 1 {
        Seq::empty()
    } else {
        let a = p[p.len() - 2];
        let b = p[p.len() - 1];
        align_y(y, p.drop_last()).push(
            if b.1 == a.1 + 1 {
                y[a.1 as int]
            } else {
                GAP
            },
        )
    }
}

/// The sequence with every gap symbol removed.
pub open spec fn ungap(s: Seq<u8>) -> Seq<u8>
    decreases s.len(),
{
    if s.len() == 0 {
        Seq::empty()
    } else if s.last() == GAP {
        ungap(s.drop_last())
    } else {
        ungap(s.drop_last()).push(s.last())
    }
}

/// A sequence over the alignment alphabet never contains the gap symbol.
pub open spec fn no_gap_symbol(s: Seq<u8>) -> bool {
    forall|k: int| 0 <= k < s.len() ==> s[k] != GAP
}

/// Matrix boundary law: the first row and the first column hold multiples
/// of the gap penalty.
pub proof fn lemma_matrix_boundary(
    match_score: int,
    mismatch: int,
    gap: int,
    x: Seq<u8>,
    y: Seq<u8>,
    i: int,
    j: int,
)
    requires
        0 <= i,
        0 <= j,
    ensures
        cell_score(match_score, mismatch, gap, x, y, 0, j) == gap * j,
        cell_score(match_score, mismatch, gap, x, y, i, 0) == gap * i,
{
}

/// Matrix recurrence law: every interior cell is the maximum of its
/// diagonal, upper, and left predecessors, each advanced by one step score.
pub proof fn lemma_matrix_recurrence(
    match_score: int,
    mismatch: int,
    gap: int,
    x: Seq<u8>,
    y: Seq<u8>,
    i: int,
    j: int,
)
    requires
        1 <= i,
        1 <= j,
    ensures
        cell_score(match_score, mismatch, gap, x, y, i, j) == max3(
            cell_score(match_score, mismatch, gap, x, y, i - 1, j - 1) + (if x[i - 1] == y[j - 1] {
                match_score
            } else {
                mismatch
            }),
            cell_score(match_score, mismatch, gap, x, y, i - 1, j) + gap,
            cell_score(match_score, mismatch, gap, x, y, i, j - 1) + gap,
        ),
{
}

/// A valid scoring model has a step magnitude of at least one.
pub proof fn lemma_score_mag_pos(match_score: int, mismatch: int, gap: int)
    requires
        valid_scores(match_score, mismatch, gap),
    ensures
        score_mag(match_score, mismatch, gap) >= 1,
{
}

/// No cell strays further from zero than one step magnitude per step it
/// took to reach it.
pub proof fn lemma_cell_score_bound(
    match_score: int,
    mismatch: int,
    gap: int,
    x: Seq<u8>,
    y: Seq<u8>,
    i: int,
    j: int,
)
    requires
        0 <= i,
        0 <= j,
    ensures
        mag(cell_score(match_score, mismatch, gap, x, y, i, j)) <= (i + j) * score_mag(
            match_score,
            mismatch,
            gap,
        ),
    decreases i + j,
{
    let a = score_mag(match_score, mismatch, gap);
    if i == 0 && j == 0 {
    } else if i == 0 {
        assert(-(a * j) <= gap * j <= a * j) by (nonlinear_arith)
            requires
                -a <= gap <= a,
                0 <= j,
        ;
        assert(a * j == (i + j) * a) by (nonlinear_arith)
            requires
                i == 0,
        ;
    } else if j == 0 {
        assert(-(a * i) <= gap * i <= a * i) by (nonlinear_arith)
            requires
                -a <= gap <= a,
                0 <= i,
        ;
        assert(a * i == (i + j) * a) by (nonlinear_arith)
            requires
                j == 0,
        ;
    } else {
        lemma_cell_score_bound(match_score, mismatch, gap, x, y, i - 1, j - 1);
        lemma_cell_score_bound(match_score, mismatch, gap, x, y, i - 1, j);
        lemma_cell_score_bound(match_score, mismatch, gap, x, y, i, j - 1);
        assert((i + j - 2) * a + a <= (i + j) * a && (i + j - 1) * a + a == (i + j) * a && (i + j)
            * a >= 0) by (nonlinear_arith)
            requires
                a >= 0,
                i + j >= 2,
        ;
    }
}

/// Both sequence lengths fit comfortably in `i32` once the instance fits.
pub proof fn lemma_dims_fit(match_score: int, mismatch: int, gap: int, xlen: int, ylen: int)
    requires
        valid_scores(match_score, mismatch, gap),
        fits_i32(match_score, mismatch, gap, xlen, ylen),
        0 <= xlen,
        0 <= ylen,
    ensures
        xlen + ylen <= 0x7fff_ffff,
{
    let a = score_mag(match_score, mismatch, gap);
    lemma_score_mag_pos(match_score, mismatch, gap);
    assert(xlen + ylen <= (xlen + ylen) * a) by (nonlinear_arith)
        requires
            a >= 1,
            0 <= xlen + ylen,
    ;
}

/// The three candidate sums an interior cell is the maximum of all stay
/// within the `i32` range.
pub proof fn lemma_interior_sums_fit(
    match_score: int,
    mismatch: int,
    gap: int,
    x: Seq<u8>,
    y: Seq<u8>,
    i: int,
    j: int,
)
    requires
        valid_scores(match_score, mismatch, gap),
        fits_i32(match_score, mismatch, gap, x.len() as int, y.len() as int),
        1 <= i <= x.len(),
        1 <= j <= y.len(),
    ensures
        -0x7fff_ffff <= cell_score(match_score, mismatch, gap, x, y, i - 1, j - 1) + (if x[i - 1]
            == y[j - 1] {
            match_score
        } else {
            mismatch
        }) <= 0x7fff_ffff,
        -0x7fff_ffff <= cell_score(match_score, mismatch, gap, x, y, i - 1, j) + gap
            <= 0x7fff_ffff,
        -0x7fff_ffff <= cell_score(match_score, mismatch, gap, x, y, i, j - 1) + gap
            <= 0x7fff_ffff,
{
    let a = score_mag(match_score, mismatch, gap);
    lemma_score_mag_pos(match_score, mismatch, gap);
    lemma_cell_score_bound(match_score, mismatch, gap, x, y, i - 1, j - 1);
    lemma_cell_score_bound(match_score, mismatch, gap, x, y, i - 1, j);
    lemma_cell_score_bound(match_score, mismatch, gap, x, y, i, j - 1);
    assert((i + j - 2) * a + a <= (x.len() + y.len()) * a && (i + j - 1) * a + a <= (x.len()
        + y.len()) * a) by (nonlinear_arith)
        requires
            a >= 0,
            2 <= i + j,
            i + j <= x.len() + y.len(),
    ;
}

/// The products that fill the boundary row and column stay within the
/// `i32` range.
pub proof fn lemma_boundary_fits(
    match_score: int,
    mismatch: int,
    gap: int,
    xlen: int,
    ylen: int,
    i: int,
    j: int,
)
    requires
        valid_scores(match_score, mismatch, gap),
        fits_i32(match_score, mismatch, gap, xlen, ylen),
        0 <= i <= xlen,
        0 <= j <= ylen,
    ensures
        -0x7fff_ffff <= gap * j <= 0x7fff_ffff,
        -0x7fff_ffff <= gap * i <= 0x7fff_ffff,
        i <= 0x7fff_ffff,
        j <= 0x7fff_ffff,
{
    let a = score_mag(match_score, mismatch, gap);
    lemma_score_mag_pos(match_score, mismatch, gap);
    lemma_dims_fit(match_score, mismatch, gap, xlen, ylen);
    assert(-((xlen + ylen) * a) <= gap * j <= (xlen + ylen) * a && -((xlen + ylen) * a) <= gap * i
        <= (xlen + ylen) * a) by (nonlinear_arith)
        requires
            -a <= gap <= a,
            a >= 1,
            0 <= i,
            0 <= j,
            i + j <= xlen + ylen,
    ;
}

/// Monotonicity law: along a path, rows and columns never decrease.
pub proof fn lemma_path_monotonic(p: Seq<Coordinates>, k: int, l: int)
    requires
        is_path(p),
        0 <= k <= l < p.len(),
    ensures
        p[k].0 <= p[l].0,
        p[k].1 <= p[l].1,
    decreases l - k,
{
    if k < l {
        lemma_path_monotonic(p, k, l - 1);
        assert(step_ok(p[l - 1], p[l]));
    }
}

/// A non-empty prefix of a path is a path.
pub proof fn lemma_is_path_take(p: Seq<Coordinates>, n: int)
    requires
        is_path(p),
        1 <= n <= p.len(),
    ensures
        is_path(p.take(n)),
{
    assert forall|k: int| 0 <= k < n - 1 implies #[trigger] step_ok(p.take(n)[k], p.take(n)[k + 1]) by {
        assert(step_ok(p[k], p[k + 1]));
    }
}

/// No path score strays further from zero than one step magnitude per row
/// and column its endpoint has advanced.
pub proof fn lemma_path_score_bound(
    match_score: int,
    mismatch: int,
    gap: int,
    x: Seq<u8>,
    y: Seq<u8>,
    p: Seq<Coordinates>,
)
    requires
        is_path(p),
    ensures
        mag(path_score(match_score, mismatch, gap, x, y, p)) <= (p.last().0 + p.last().1)
            * score_mag(match_score, mismatch, gap),
    decreases p.len(),
{
    let a = score_mag(match_score, mismatch, gap);
    if p.len() == 1 {
    } else {
        let q = p.drop_last();
        assert(q =~= p.take(p.len() - 1));
        lemma_is_path_take(p, p.len() - 1);
        lemma_path_score_bound(match_score, mismatch, gap, x, y, q);
        let u = q.last();
        let v = p.last();
        assert(step_ok(p[p.len() - 2], p[p.len() - 1]));
        assert((u.0 + u.1) * a + a <= (v.0 + v.1) * a) by (nonlinear_arith)
            requires
                a >= 0,
                u.0 + u.1 + 1 <= v.0 + v.1,
        ;
    }
}

/// One step never gains on the matrix: a predecessor's cell value advanced
/// by the step's score is at most the successor's cell value.
pub proof fn lemma_predecessor_step_le(
    match_score: int,
    mismatch: int,
    gap: int,
    x: Seq<u8>,
    y: Seq<u8>,
    a: Coordinates,
    b: Coordinates,
)
    requires
        step_ok(a, b),
        b.0 <= x.len(),
        b.1 <= y.len(),
    ensures
        cell_score(match_score, mismatch, gap, x, y, a.0 as int, a.1 as int) + step_score(
            match_score,
            mismatch,
            gap,
            x,
            y,
            a,
            b,
        ) <= cell_score(match_score, mismatch, gap, x, y, b.0 as int, b.1 as int),
{
    let bi = b.0 as int;
    let bj = b.1 as int;
    if b.0 == a.0 + 1 && b.1 == a.1 + 1 {
        lemma_matrix_recurrence(match_score, mismatch, gap, x, y, bi, bj);
    } else if b.0 == a.0 + 1 {
        if bj == 0 {
            lemma_matrix_boundary(match_score, mismatch, gap, x, y, bi - 1, 0);
            lemma_matrix_boundary(match_score, mismatch, gap, x, y, bi, 0);
            assert(gap * (bi - 1) + gap == gap * bi) by (nonlinear_arith);
        } else {
            lemma_matrix_recurrence(match_score, mismatch, gap, x, y, bi, bj);
        }
    } else {
        if bi == 0 {
            lemma_matrix_boundary(match_score, mismatch, gap, x, y, 0, bj - 1);
            lemma_matrix_boundary(match_score, mismatch, gap, x, y, 0, bj);
            assert(gap * (bj - 1) + gap == gap * bj) by (nonlinear_arith);
        } else {
            lemma_matrix_recurrence(match_score, mismatch, gap, x, y, bi, bj);
        }
    }
}

/// Optimality law: no path ending at a cell scores above that cell; in
/// particular, the terminal cell bounds the score of every complete path.
pub proof fn lemma_path_score_le_cell(
    match_score: int,
    mismatch: int,
    gap: int,
    x: Seq<u8>,
    y: Seq<u8>,
    p: Seq<Coordinates>,
)
    requires
        is_path(p),
        p.last().0 <= x.len(),
        p.last().1 <= y.len(),
    ensures
        path_score(match_score, mismatch, gap, x, y, p) <= cell_score(
            match_score,
            mismatch,
            gap,
            x,
            y,
            p.last().0 as int,
            p.last().1 as int,
        ),
    decreases p.len(),
{
    if p.len() > 1 {
        let q = p.drop_last();
        assert(q =~= p.take(p.len() - 1));
        lemma_is_path_take(p, p.len() - 1);
        assert(step_ok(p[p.len() - 2], p[p.len() - 1]));
        lemma_path_score_le_cell(match_score, mismatch, gap, x, y, q);
        lemma_predecessor_step_le(match_score, mismatch, gap, x, y, q.last(), p.last());
    }
}

/// The only path that ends at the origin is the one-cell path.
pub proof fn lemma_path_to_origin_is_singleton(p: Seq<Coordinates>)
    requires
        is_path(p),
        p.last().0 == 0,
        p.last().1 == 0,
    ensures
        p =~= seq![(0usize, 0usize)],
{
    if p.len() > 1 {
        assert(step_ok(p[0], p[1]));
        lemma_path_monotonic(p, 1, p.len() - 1);
    }
}

/// A path that realizes its endpoint's cell value does so through its
/// predecessor: the prefix realizes the predecessor's cell value, and the
/// final step advances that cell value exactly to the endpoint's.
pub proof fn lemma_achieving_predecessor(
    match_score: int,
    mismatch: int,
    gap: int,
    x: Seq<u8>,
    y: Seq<u8>,
    q: Seq<Coordinates>,
)
    requires
        is_path(q),
        q.len() >= 2,
        q.last().0 <= x.len(),
        q.last().1 <= y.len(),
        path_score(match_score, mismatch, gap, x, y, q) == cell_score(
            match_score,
            mismatch,
            gap,
            x,
            y,
            q.last().0 as int,
            q.last().1 as int,
        ),
    ensures
        is_path(q.drop_last()),
        path_score(match_score, mismatch, gap, x, y, q.drop_last()) == cell_score(
            match_score,
            mismatch,
            gap,
            x,
            y,
            q[q.len() - 2].0 as int,
            q[q.len() - 2].1 as int,
        ),
        cell_score(match_score, mismatch, gap, x, y, q[q.len() - 2].0 as int, q[q.len() - 2].1 as int)
            + step_score(match_score, mismatch, gap, x, y, q[q.len() - 2], q.last()) == cell_score(
            match_score,
            mismatch,
            gap,
            x,
            y,
            q.last().0 as int,
            q.last().1 as int,
        ),
{
    let t = q.drop_last();
    assert(t =~= q.take(q.len() - 1));
    lemma_is_path_take(q, q.len() - 1);
    assert(step_ok(q[q.len() - 2], q[q.len() - 1]));
    lemma_path_score_le_cell(match_score, mismatch, gap, x, y, t);
    lemma_predecessor_step_le(match_score, mismatch, gap, x, y, t.last(), q.last());
}

/// Ungapping the X-row a path prefix reconstructs yields exactly the X
/// symbols the prefix has consumed.
pub proof fn lemma_ungap_align_x(x: Seq<u8>, p: Seq<Coordinates>)
    requires
        is_path(p),
        p.last().0 <= x.len(),
        no_gap_symbol(x),
    ensures
        ungap(align_x(x, p)) == x.take(p.last().0 as int),
    decreases p.len(),
{
    if p.len() == 1 {
        assert(ungap(align_x(x, p)) =~= x.take(0));
    } else {
        let q = p.drop_last();
        assert(q =~= p.take(p.len() - 1));
        lemma_is_path_take(p, p.len() - 1);
        let a = q.last();
        let b = p.last();
        assert(step_ok(p[p.len() - 2], p[p.len() - 1]));
        lemma_ungap_align_x(x, q);
        if b.0 == a.0 + 1 {
            assert(x[a.0 as int] != GAP);
            assert(align_x(x, p) == align_x(x, q).push(x[a.0 as int]));
            assert(ungap(align_x(x, p)) == ungap(align_x(x, q)).push(x[a.0 as int])) by {
                assert(align_x(x, p).drop_last() =~= align_x(x, q));
            }
            assert(x.take(a.0 as int).push(x[a.0 as int]) =~= x.take(b.0 as int));
        } else {
            assert(align_x(x, p) == align_x(x, q).push(GAP));
            assert(ungap(align_x(x, p)) == ungap(align_x(x, q))) by {
                assert(align_x(x, p).drop_last() =~= align_x(x, q));
            }
        }
    }
}

/// Ungapping the Y-row a path prefix reconstructs yields exactly the Y
/// symbols the prefix has consumed.
pub proof fn lemma_ungap_align_y(y: Seq<u8>, p: Seq<Coordinates>)
    requires
        is_path(p),
        p.last().1 <= y.len(),
        no_gap_symbol(y),
    ensures
        ungap(align_y(y, p)) == y.take(p.last().1 as int),
    decreases p.len(),
{
    if p.len() == 1 {
        assert(ungap(align_y(y, p)) =~= y.take(0));
    } else {
        let q = p.drop_last();
        assert(q =~= p.take(p.len() - 1));
        lemma_is_path_take(p, p.len() - 1);
        let a = q.last();
        let b = p.last();
        assert(step_ok(p[p.len() - 2], p[p.len() - 1]));
        lemma_ungap_align_y(y, q);
        if b.1 == a.1 + 1 {
            assert(y[a.1 as int] != GAP);
            assert(align_y(y, p) == align_y(y, q).push(y[a.1 as int]));
            assert(ungap(align_y(y, p)) == ungap(align_y(y, q)).push(y[a.1 as int])) by {
                assert(align_y(y, p).drop_last() =~= align_y(y, q));
            }
            assert(y.take(a.1 as int).push(y[a.1 as int]) =~= y.take(b.1 as int));
        } else {
            assert(align_y(y, p) == align_y(y, q).push(GAP));
            assert(ungap(align_y(y, p)) == ungap(align_y(y, q))) by {
                assert(align_y(y, p).drop_last() =~= align_y(y, q));
            }
        }
    }
}

/// Reconstruction round-trip law: for a complete path over gap-free
/// sequences, stripping the gap symbols from either reconstructed row gives
/// back the original sequence.
pub proof fn lemma_reconstruction_round_trip(x: Seq<u8>, y: Seq<u8>, p: Seq<Coordinates>)
    requires
        is_complete_path(p, x.len() as int, y.len() as int),
        no_gap_symbol(x),
        no_gap_symbol(y),
    ensures
        ungap(align_x(x, p)) == x,
        ungap(align_y(y, p)) == y,
{
    lemma_ungap_align_x(x, p);
    lemma_ungap_align_y(y, p);
    assert(x.take(x.len() as int) =~= x);
    assert(y.take(y.len() as int) =~= y);
}

} // verus!
