use linsys::equation::Equation;
use linsys::matrix::{Matrix, SolveError, Transformation};
use linsys::rat::Rat;

fn rat_f64(r: &Rat) -> f64 {
    r.num as f64 / r.den as f64
}

fn build(lines: &[&str]) -> Matrix {
    let mut m = Matrix::new();
    for line in lines {
        m.add_equation(Equation::parse_from_string(line.to_string()).unwrap());
    }
    m
}

#[test]
fn end_to_end_two_by_two() {
    let mut m = build(&["x + 2y = -4", "8x + y = 9"]);
    assert_eq!(m.variables, vec!["x", "y"]);
    assert_eq!(rat_f64(&m.rows[0].coefficients[0]), 1.0);
    assert_eq!(rat_f64(&m.rows[0].coefficients[1]), 2.0);
    assert_eq!(rat_f64(&m.rows[0].constant), -4.0);
    assert_eq!(rat_f64(&m.rows[1].coefficients[0]), 8.0);
    assert_eq!(rat_f64(&m.rows[1].coefficients[1]), 1.0);
    assert_eq!(rat_f64(&m.rows[1].constant), 9.0);
    let (trace, solved) = m.gaussian_elimination().unwrap();
    let x = rat_f64(&solved.rows[0].constant);
    let y = rat_f64(&solved.rows[1].constant);
    assert!((x - 22.0 / 15.0).abs() < 1e-9);
    assert!((y + 41.0 / 15.0).abs() < 1e-9);
    // verify by substitution into the original equations
    assert!((x + 2.0 * y + 4.0).abs() < 1e-9);
    assert!((8.0 * x + y - 9.0).abs() < 1e-9);
    // the caller's system is untouched
    assert_eq!(rat_f64(&m.rows[0].constant), -4.0);
    assert_eq!(rat_f64(&m.rows[1].coefficients[0]), 8.0);
    assert!(trace.len() > 0);
}

#[test]
fn solves_three_by_three_exactly() {
    let mut m = build(&["x + y + z = 6", "2y + 5z = -4", "2x + 5y - z = 27"]);
    let (_trace, solved) = m.gaussian_elimination().unwrap();
    let x = rat_f64(&solved.rows[0].constant);
    let y = rat_f64(&solved.rows[1].constant);
    let z = rat_f64(&solved.rows[2].constant);
    assert!((x - 5.0).abs() < 1e-9);
    assert!((y - 3.0).abs() < 1e-9);
    assert!((z + 2.0).abs() < 1e-9);
    assert!((x + y + z - 6.0).abs() < 1e-9);
    assert!((2.0 * y + 5.0 * z + 4.0).abs() < 1e-9);
    assert!((2.0 * x + 5.0 * y - z - 27.0).abs() < 1e-9);
}

#[test]
fn swap_labels_use_positions_captured_at_record_time() {
    let mut m = build(&["x + 2y = -4", "8x + y = 9"]);
    let (trace, _solved) = m.gaussian_elimination().unwrap();
    // partial pivoting exchanges the rows first; the labels carry the slots
    // the rows occupied when the swap was recorded
    match &trace[0] {
        Transformation::Swap(a, b) => {
            assert_eq!(a.occupying_row, 0);
            assert_eq!(b.occupying_row, 1);
        },
        other => panic!("expected a swap first, got {:?}", other),
    }
    assert_eq!(trace[0].to_string(), "L0 <-> L1");
    // the elimination step names the pivot's and the target's slots as of
    // the moment of recording: the pivot now sits in slot 0
    assert_eq!(
        trace[1].to_string(),
        "L0 * 1/8 -> L0\nL1 + L0 -> L1\nL1 -> L1"
    );
    // then one back-substitution normalization per row, last row first
    assert_eq!(trace.len(), 4);
    assert_eq!(trace[2].to_string(), "L1 * 8/15 -> L1");
    assert_eq!(trace[3].to_string(), "L0 * 1/8 -> L0");
}

#[test]
fn swap_labels_are_slots_even_after_an_earlier_swap() {
    // step 0 swaps slots 0 and 2; step 1 swaps slots 1 and 2: the second
    // swap is labeled with the slots at record time, not with identities
    // carried along by the first swap
    let mut m = build(&["x + y + z = 6", "2x + z = 3", "4x - y + z = 7"]);
    let (trace, solved) = m.gaussian_elimination().unwrap();
    assert_eq!(trace[0].to_string(), "L0 <-> L2");
    match &trace[3] {
        Transformation::Swap(a, b) => {
            assert_eq!(a.occupying_row, 1);
            assert_eq!(b.occupying_row, 2);
        },
        other => panic!("expected the second swap, got {:?}", other),
    }
    assert_eq!(trace[3].to_string(), "L1 <-> L2");
    let x = rat_f64(&solved.rows[0].constant);
    let y = rat_f64(&solved.rows[1].constant);
    let z = rat_f64(&solved.rows[2].constant);
    assert!((x + y + z - 6.0).abs() < 1e-9);
    assert!((2.0 * x + z - 3.0).abs() < 1e-9);
    assert!((4.0 * x - y + z - 7.0).abs() < 1e-9);
    assert!((x - 7.0).abs() < 1e-9);
    assert!((y - 10.0).abs() < 1e-9);
    assert!((z + 11.0).abs() < 1e-9);
}

#[test]
fn solved_matrix_is_row_echelon_with_back_substituted_constants() {
    let mut m = build(&["x + 2y = -4", "8x + y = 9"]);
    let (_trace, solved) = m.gaussian_elimination().unwrap();
    // below the diagonal: assigned exactly zero
    assert_eq!(solved.rows[1].coefficients[0], Rat { num: 0, den: 1 });
    // the diagonal: assigned exactly one
    assert_eq!(solved.rows[0].coefficients[0], Rat { num: 1, den: 1 });
    assert_eq!(solved.rows[1].coefficients[1], Rat { num: 1, den: 1 });
    // above the diagonal: the forward-elimination value is kept (the pivot
    // row after the swap was [8, 1])
    assert_eq!(solved.rows[0].coefficients[1], Rat { num: 1, den: 1 });
}

#[test]
fn singular_when_a_pivot_column_is_all_zero() {
    let mut m = build(&["x + y = 1", "x + y = 2"]);
    assert_eq!(m.gaussian_elimination().unwrap_err(), SolveError::Singular { step: 1 });
    let mut m = build(&["0x + y = 1", "0x + 2y = 3"]);
    assert_eq!(m.gaussian_elimination().unwrap_err(), SolveError::Singular { step: 0 });
}

#[test]
fn non_square_system_is_rejected() {
    let mut m = build(&["x + y = 1"]);
    assert_eq!(m.gaussian_elimination().unwrap_err(), SolveError::NonSquare);
    let mut m = build(&["x = 1", "x = 2"]);
    assert_eq!(m.gaussian_elimination().unwrap_err(), SolveError::NonSquare);
}

#[test]
fn solved_matrix_has_unit_diagonal() {
    let mut m = build(&["2x + y = 3", "x - y = 0"]);
    let (_trace, solved) = m.gaussian_elimination().unwrap();
    assert_eq!(rat_f64(&solved.rows[0].coefficients[0]), 1.0);
    assert_eq!(rat_f64(&solved.rows[1].coefficients[1]), 1.0);
    let x = rat_f64(&solved.rows[0].constant);
    let y = rat_f64(&solved.rows[1].constant);
    assert!((x - 1.0).abs() < 1e-9);
    assert!((y - 1.0).abs() < 1e-9);
}

#[test]
fn check_solution_accepts_and_rejects() {
    let m = build(&["x + y = 2", "x - y = 0"]);
    let good = vec![Rat { num: 1, den: 1 }, Rat { num: 1, den: 1 }];
    assert_eq!(linsys::matrix::check_solution(&m, &good), Some(true));
    let bad = vec![Rat { num: 2, den: 1 }, Rat { num: 0, den: 1 }];
    assert_eq!(linsys::matrix::check_solution(&m, &bad), Some(false));
}
