use linsys::equation::Equation;
use linsys::matrix::Matrix;
use linsys::rat::Rat;

fn rat_f64(r: &Rat) -> f64 {
    r.num as f64 / r.den as f64
}

#[test]
fn test_matrix_add_equation() {
    let mut matrix = Matrix::new();
    matrix.add_equation(Equation::parse_from_string("2x + 3y - 4z = 5".to_string()).unwrap());
    matrix.add_equation(Equation::parse_from_string("3x + 4y - 5z = 6".to_string()).unwrap());
    println!("{}", matrix.to_string());
}

#[test]
fn rows_align_with_the_global_variable_order() {
    let mut m = Matrix::new();
    m.add_equation(Equation::parse_from_string("2x + 3y - 4z = 5".to_string()).unwrap());
    m.add_equation(Equation::parse_from_string("3z + 4y - 5x = 6".to_string()).unwrap());
    assert_eq!(m.variables, vec!["x", "y", "z"]);
    assert_eq!(m.rows.len(), 2);
    // the second row's coefficients are reordered to the global order
    assert_eq!(rat_f64(&m.rows[1].coefficients[0]), -5.0);
    assert_eq!(rat_f64(&m.rows[1].coefficients[1]), 4.0);
    assert_eq!(rat_f64(&m.rows[1].coefficients[2]), 3.0);
    assert_eq!(m.rows[0].occupying_row, 0);
    assert_eq!(m.rows[1].occupying_row, 1);
}

#[test]
fn later_variables_zero_pad_earlier_rows() {
    let mut m = Matrix::new();
    m.add_equation(Equation::parse_from_string("x = 1".to_string()).unwrap());
    m.add_equation(Equation::parse_from_string("x + y = 2".to_string()).unwrap());
    assert_eq!(m.variables, vec!["x", "y"]);
    assert_eq!(m.rows.len(), 2);
    assert_eq!(m.rows[0].coefficients.len(), 2);
    assert_eq!(rat_f64(&m.rows[0].coefficients[1]), 0.0);
    assert_eq!(rat_f64(&m.rows[1].coefficients[0]), 1.0);
    assert_eq!(rat_f64(&m.rows[1].coefficients[1]), 1.0);
}

#[test]
fn adjust_rows_pads_short_rows() {
    let mut m = Matrix::new();
    m.add_equation(Equation::parse_from_string("x = 1".to_string()).unwrap());
    m.variables.push("y".to_string());
    m.adjust_rows();
    assert_eq!(m.rows[0].coefficients.len(), 2);
    assert_eq!(rat_f64(&m.rows[0].coefficients[1]), 0.0);
}

#[test]
fn matrix_display_rounds_to_three_decimals() {
    let mut m = Matrix::new();
    m.add_equation(Equation::parse_from_string("x = 2.5".to_string()).unwrap());
    let expected = "x         K         \n\
                    1         2.5       \n";
    assert_eq!(m.to_string(), expected);
    let mut m = Matrix::new();
    m.add_equation(Equation::parse_from_string("x + 2y = -4".to_string()).unwrap());
    m.add_equation(Equation::parse_from_string("8x + y = 9".to_string()).unwrap());
    let (_trace, solved) = m.gaussian_elimination().unwrap();
    // 22/15 displays as 1.467 and -41/15 as -2.733; the stored values stay exact
    let expected = "x         y         K         \n\
                    1         1         1.467     \n\
                    0         1         -2.733    \n";
    assert_eq!(solved.to_string(), expected);
}

#[test]
fn matrix_display_is_tabular() {
    let mut m = Matrix::new();
    m.add_equation(Equation::parse_from_string("x = 1".to_string()).unwrap());
    m.add_equation(Equation::parse_from_string("x + y = 2".to_string()).unwrap());
    let expected = "x         y         K         \n\
                    1         0         1         \n\
                    1         1         2         \n";
    assert_eq!(m.to_string(), expected);
}
