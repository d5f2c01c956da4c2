use linsys::equation::{Equation, Operator, ParseError};
use linsys::rat::Rat;

fn rat_f64(r: &Rat) -> f64 {
    r.num as f64 / r.den as f64
}

#[test]
fn test_equation_parse_from_string() {
    let equation = Equation::parse_from_string("2x + 3y - 4z = 5".to_string()).unwrap();
    println!("{:?}", equation);
}

#[test]
fn parses_canonical_triple() {
    let eq = Equation::parse_from_string("2x + 3y - 4z = 5".to_string()).unwrap();
    assert_eq!(eq.variables, vec!["x", "y", "z"]);
    assert_eq!(eq.coefficients.len(), 3);
    assert_eq!(rat_f64(&eq.coefficients[0]), 2.0);
    assert_eq!(rat_f64(&eq.coefficients[1]), 3.0);
    assert_eq!(rat_f64(&eq.coefficients[2]), -4.0);
    assert_eq!(rat_f64(&eq.constant), 5.0);
}

#[test]
fn no_equals_sign_means_zero_constant() {
    let eq = Equation::parse_from_string("x + y".to_string()).unwrap();
    assert_eq!(eq.constant, Rat { num: 0, den: 1 });
    let eq = Equation::parse_from_string("2x - 7y".to_string()).unwrap();
    assert_eq!(rat_f64(&eq.constant), 0.0);
}

#[test]
fn numeric_side_becomes_constant_on_either_side() {
    let left = Equation::parse_from_string("5 = x".to_string()).unwrap();
    let right = Equation::parse_from_string("x = 5".to_string()).unwrap();
    assert_eq!(rat_f64(&left.constant), 5.0);
    assert_eq!(rat_f64(&right.constant), 5.0);
    let neg_left = Equation::parse_from_string("-4 = x + 2y".to_string()).unwrap();
    let neg_right = Equation::parse_from_string("x + 2y = -4".to_string()).unwrap();
    assert_eq!(rat_f64(&neg_left.constant), -4.0);
    assert_eq!(rat_f64(&neg_right.constant), -4.0);
}

#[test]
fn decimal_constant_is_exact() {
    let eq = Equation::parse_from_string("x = 2.5".to_string()).unwrap();
    assert_eq!(eq.constant, Rat { num: 25, den: 10 });
    assert_eq!(rat_f64(&eq.constant), 2.5);
}

#[test]
fn implicit_coefficient_is_one() {
    let eq = Equation::parse_from_string("x + y = 3".to_string()).unwrap();
    assert_eq!(rat_f64(&eq.coefficients[0]), 1.0);
    assert_eq!(rat_f64(&eq.coefficients[1]), 1.0);
}

#[test]
fn leading_minus_negates_implicit_coefficient() {
    let eq = Equation::parse_from_string("-x = 3".to_string()).unwrap();
    assert_eq!(eq.variables, vec!["x"]);
    assert_eq!(rat_f64(&eq.coefficients[0]), -1.0);
    assert_eq!(rat_f64(&eq.constant), 3.0);
}

#[test]
fn repeated_variable_accumulates() {
    let eq = Equation::parse_from_string("2x + 3x = 5".to_string()).unwrap();
    assert_eq!(eq.variables, vec!["x"]);
    assert_eq!(eq.coefficients.len(), 1);
    assert_eq!(rat_f64(&eq.coefficients[0]), 5.0);
    assert_eq!(rat_f64(&eq.constant), 5.0);
}

#[test]
fn constant_terms_fold_across_the_equation() {
    // x + 5 = 3 moves the 5 to the right-hand side
    let eq = Equation::parse_from_string("x + 5 = 3".to_string()).unwrap();
    assert_eq!(rat_f64(&eq.constant), -2.0);
    // x - 5 = 3 adds it instead
    let eq = Equation::parse_from_string("x - 5 = 3".to_string()).unwrap();
    assert_eq!(rat_f64(&eq.constant), 8.0);
}

#[test]
fn malformed_coefficient_is_reported_with_its_segment() {
    let r = Equation::parse_from_string("xy = 5".to_string());
    assert_eq!(r.unwrap_err(), ParseError::MalformedCoefficient { segment: 0 });
    let r = Equation::parse_from_string("x + zw = 5".to_string());
    assert_eq!(r.unwrap_err(), ParseError::MalformedCoefficient { segment: 1 });
}

#[test]
fn out_of_range_coefficients_are_rejected() {
    // the accumulated coefficient reduces to roughly 10^34, far past the
    // representable range
    let r = Equation::parse_from_string(
        "0.00000000000000001x + 99999999999999999x = 1".to_string(),
    );
    assert_eq!(r.unwrap_err(), ParseError::OutOfRange);
}

#[test]
fn operator_symbols() {
    assert_eq!(Operator::Add.to_string(), "+");
    assert_eq!(Operator::Subtract.to_string(), "-");
}

#[test]
fn equation_display_text() {
    let eq = Equation::parse_from_string("2x + 3y = 4".to_string()).unwrap();
    assert_eq!(eq.to_string(), "2x 3y [] = 4");
    let eq = Equation::parse_from_string("x = 2.5".to_string()).unwrap();
    assert_eq!(eq.to_string(), "1x [] = 25/10");
}

#[test]
fn rational_arithmetic_is_exact() {
    let a = Rat { num: 1, den: 2 };
    let b = Rat { num: 1, den: 3 };
    let s = a.checked_add(&b).unwrap();
    assert_eq!(s, Rat { num: 5, den: 6 });
    let p = a.checked_mul(&b).unwrap();
    assert_eq!(p, Rat { num: 1, den: 6 });
    let q = a.checked_div(&b).unwrap();
    assert_eq!(rat_f64(&q), 1.5);
    let d = a.checked_sub(&b).unwrap();
    assert_eq!(d, Rat { num: 1, den: 6 });
    assert!(Rat { num: -3, den: 2 }.abs_gt(&Rat { num: 1, den: 1 }));
    assert!(Rat { num: 2, den: 4 }.eq_frac(&Rat { num: 1, den: 2 }));
}
