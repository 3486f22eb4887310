use nwalign::grid::ScoreMatrix;
use nwalign::problem::{align_score, ConfigError, Problem};
use nwalign::problem_set;

fn check_matrix(m: &ScoreMatrix, expected: &[&[i32]]) {
    assert_eq!(m.rows(), expected.len());
    for (i, row) in expected.iter().enumerate() {
        assert_eq!(m.cols(), row.len());
        for (j, cell) in row.iter().enumerate() {
            assert_eq!(m.get(i, j), *cell, "cell ({}, {})", i, j);
        }
    }
}

#[test]
fn align_score_match() {
    assert_eq!(align_score(3, -1, b'A', b'A'), 3)
}

#[test]
fn align_score_mismatch() {
    assert_eq!(align_score(3, -1, b'A', b'G'), -1)
}

#[test]
fn eddy_matrix() {
    let m = problem_set::eddy().matrix();
    check_matrix(
        &m,
        &[
            &[0, -6, -12, -18, -24, -30, -36, -42, -48],
            &[-6, 5, -1, -7, -13, -19, -25, -31, -37],
            &[-12, -1, 3, -3, -2, -8, -14, -20, -26],
            &[-18, -7, -3, 8, 2, 3, -3, -9, -15],
            &[-24, -13, -9, 2, 6, 0, 1, -5, -4],
            &[-30, -19, -15, -4, 7, 4, -2, 6, 0],
            &[-36, -25, -21, -10, 1, 5, 2, 0, 11],
        ],
    );
}

#[test]
fn lec_17_slide_19_matrix() {
    let m = problem_set::lec_17_slide19().matrix();
    check_matrix(
        &m,
        &[
            &[0, -3, -6, -9, -12, -15],
            &[-3, 3, 0, -3, -6, -9],
            &[-6, 0, 2, 3, 0, -3],
            &[-9, -3, 3, 1, 2, 3],
            &[-12, -6, 0, 2, 4, 1],
        ],
    );
}

#[test]
fn in_class_a_matrix() {
    let m = problem_set::in_class_a().matrix();
    check_matrix(
        &m,
        &[
            &[0, -3, -6, -9, -12],
            &[-3, -1, 0, -3, -6],
            &[-6, -4, -2, 3, 0],
            &[-9, -3, -5, 0, 2],
        ],
    );
}

#[test]
fn in_class_b_matrix() {
    let m = problem_set::in_class_b().matrix();
    check_matrix(
        &m,
        &[
            &[0, -1, -2, -3, -4],
            &[-1, -2, 2, 1, 0],
            &[-2, -3, 1, 5, 4],
            &[-3, 1, 0, 4, 3],
        ],
    );
}

#[test]
fn in_class_c_matrix() {
    let m = problem_set::in_class_c().matrix();
    check_matrix(
        &m,
        &[
            &[0, -1, -2, -3, -4],
            &[-1, -1, 2, 1, 0],
            &[-2, -2, 1, 5, 4],
            &[-3, 1, 0, 4, 4],
        ],
    );
}

#[test]
fn eddy_optimal_path() {
    let soln = problem_set::eddy().solve();
    assert_eq!(
        soln.paths,
        vec![vec![
            (0, 0),
            (1, 1),
            (1, 2),
            (1, 3),
            (2, 4),
            (3, 5),
            (4, 6),
            (5, 7),
            (6, 8)
        ]]
    );
    assert_eq!(soln.score, 11);
}

#[test]
fn eddy_terminal_cell() {
    let m = problem_set::eddy().matrix();
    assert_eq!(m.get(6, 8), 11);
}

#[test]
fn lec_17_slide_19_terminal_cell() {
    let m = problem_set::lec_17_slide19().matrix();
    assert_eq!(m.get(4, 5), 1);
}

#[test]
fn gap_cheaper_than_mismatch_terminal_cell() {
    // Same sequences, but exercise (b) prefers gaps and exercise (c)
    // tolerates mismatches: the matrices differ.
    let b = problem_set::in_class_b().matrix();
    let c = problem_set::in_class_c().matrix();
    assert_eq!(b.get(3, 4), 3);
    assert_eq!(c.get(1, 1), -1);
    assert_ne!(b.get(1, 1), c.get(1, 1));
    assert_ne!(b.get(3, 4), c.get(3, 4));
}

#[test]
fn config_error_match_not_above_mismatch() {
    let r = Problem::new(1, 5, -1, b"TCA".to_vec(), b"ATCG".to_vec());
    assert_eq!(r.err(), Some(ConfigError::MatchNotAboveMismatch));
}

#[test]
fn config_error_match_not_above_gap() {
    let r = Problem::new(3, -1, 3, b"TCA".to_vec(), b"ATCG".to_vec());
    assert_eq!(r.err(), Some(ConfigError::MatchNotAboveGap));
}

#[test]
fn config_error_empty_sequence_x() {
    let r = Problem::new(1, -1, -1, Vec::new(), b"ATCG".to_vec());
    assert_eq!(r.err(), Some(ConfigError::EmptySequenceX));
}

#[test]
fn config_error_empty_sequence_y() {
    let r = Problem::new(1, -1, -1, b"TCA".to_vec(), Vec::new());
    assert_eq!(r.err(), Some(ConfigError::EmptySequenceY));
}

#[test]
fn matrix_boundary_is_gap_multiples() {
    let p = Problem::new(2, -2, -4, b"GGG".to_vec(), b"CC".to_vec()).unwrap();
    let m = p.matrix();
    for j in 0..m.cols() {
        assert_eq!(m.get(0, j), -4 * (j as i32));
    }
    for i in 0..m.rows() {
        assert_eq!(m.get(i, 0), -4 * (i as i32));
    }
}

#[test]
fn traceback_rescores_optimal_path() {
    let p = problem_set::eddy();
    let soln = p.solve();
    for path in &soln.paths {
        assert_eq!(p.traceback(path), 11);
    }
}

#[test]
fn reconstruction_round_trip() {
    let p = problem_set::eddy();
    let soln = p.solve();
    for path in &soln.paths {
        let (row_x, row_y) = p.reconstruct(path);
        assert_eq!(row_x.len(), row_y.len());
        let ungapped_x: Vec<u8> = row_x.iter().copied().filter(|&s| s != b'-').collect();
        let ungapped_y: Vec<u8> = row_y.iter().copied().filter(|&s| s != b'-').collect();
        assert_eq!(ungapped_x, b"TTCATA".to_vec());
        assert_eq!(ungapped_y, b"TGCTCGTA".to_vec());
    }
}

#[test]
fn solution_paths_complete_and_monotonic() {
    let soln = problem_set::in_class_b().solve();
    assert!(!soln.paths.is_empty());
    for path in &soln.paths {
        assert_eq!(path[0], (0, 0));
        assert_eq!(path[path.len() - 1], (3, 4));
        for w in path.windows(2) {
            let dr = w[1].0 - w[0].0;
            let dc = w[1].1 - w[0].1;
            assert!((dr, dc) == (0, 1) || (dr, dc) == (1, 0) || (dr, dc) == (1, 1));
        }
    }
}

#[test]
fn ties_yield_every_optimal_path() {
    // Aligning "A" with "AA" scores 0 two ways: gap first or match first.
    let p = Problem::new(1, -1, -1, b"A".to_vec(), b"AA".to_vec()).unwrap();
    let soln = p.solve();
    assert_eq!(soln.score, 0);
    assert_eq!(soln.paths.len(), 2);
    assert!(soln.paths.contains(&vec![(0, 0), (1, 1), (1, 2)]));
    assert!(soln.paths.contains(&vec![(0, 0), (0, 1), (1, 2)]));
}

#[test]
fn in_class_a_solution_scores() {
    let soln = problem_set::in_class_a().solve();
    assert_eq!(soln.score, 2);
    let p = problem_set::in_class_a();
    for path in &soln.paths {
        assert_eq!(p.traceback(path), 2);
    }
}
