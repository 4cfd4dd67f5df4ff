use solver::{
    canonical_form, check_degree, extract_coefficients, reduce, reduced_form, remove_whitespace,
};
use solver::{classify, EquationError, Polynomial, Side, Sign, SolutionKind, TermPosition};

fn squeeze(input: &str) -> String {
    let mut s = String::from(input);
    remove_whitespace(&mut s);
    s
}

fn listing(p: &Polynomial) -> Vec<(u64, String)> {
    p.powers().into_iter().map(|k| (k, p.coefficient(k).unwrap().to_text())).collect()
}

fn item(power: u64, text: &str) -> (u64, String) {
    (power, String::from(text))
}

fn float(p: &Polynomial, power: u64) -> f64 {
    p.coefficient_or_zero(power).to_text().parse().unwrap()
}

fn sign(x: f64) -> Sign {
    if x < 0.0 {
        Sign::Negative
    } else if x == 0.0 {
        Sign::Zero
    } else {
        Sign::Positive
    }
}

fn kind(p: &Polynomial) -> SolutionKind {
    let (a, b, c) = (float(p, 2), float(p, 1), float(p, 0));
    classify(a == 0.0, b == 0.0, c == 0.0, sign(b * b - 4.0 * a * c))
}

#[test]
fn the_sample_equation_reduces_to_its_canonical_form() {
    let p = reduce(squeeze("5 * X^0 + 4 * X^1 - 9.3 * X^2 = 1 * X^0")).unwrap();
    assert_eq!(listing(&p), vec![item(0, "4"), item(1, "4"), item(2, "-9.3")]);
    assert_eq!(reduced_form(&p), "4*X^0 + 4*X^1 - 9.3*X^2 = 0");
    assert_eq!(p.degree(), Some(2));
    assert_eq!(check_degree(&p), Ok(2));
    let (a, b, c) = (float(&p, 2), float(&p, 1), float(&p, 0));
    let delta = b * b - 4.0 * a * c;
    assert!((delta - 164.8).abs() < 1e-9);
    assert_eq!(kind(&p), SolutionKind::TwoRoots);
    let first = (-b + delta.sqrt()) / (2.0 * a);
    let second = (-b - delta.sqrt()) / (2.0 * a);
    assert!(first != second);
    assert!((first - -0.475131).abs() < 1e-6);
    assert!((second - 0.905239).abs() < 1e-6);
    assert!((a * first * first + b * first + c).abs() < 1e-9);
    assert!((a * second * second + b * second + c).abs() < 1e-9);
}

#[test]
fn a_quadratic_term_with_coefficient_zero_leaves_a_linear_equation() {
    let p = reduce(squeeze("8 * X^0 - 6 * X^1 + 0 * X^2 = 3 * X^0")).unwrap();
    assert_eq!(listing(&p), vec![item(0, "5"), item(1, "-6"), item(2, "0")]);
    assert_eq!(reduced_form(&p), "5*X^0 - 6*X^1 + 0*X^2 = 0");
    assert_eq!(kind(&p), SolutionKind::Linear);
    let x = -float(&p, 0) / float(&p, 1);
    assert!((x - 5.0 / 6.0).abs() < 1e-12);
}

#[test]
fn zero_equals_zero_holds_for_all_reals() {
    let p = reduce(squeeze("0*X^0=0*X^0")).unwrap();
    assert_eq!(listing(&p), vec![item(0, "0")]);
    assert_eq!(kind(&p), SolutionKind::AllReals);
}

#[test]
fn one_equals_zero_has_no_solution() {
    let p = reduce(squeeze("1*X^0=0*X^0")).unwrap();
    assert_eq!(listing(&p), vec![item(0, "1")]);
    assert_eq!(float(&p, 2), 0.0);
    assert_eq!(float(&p, 1), 0.0);
    assert_eq!(float(&p, 0), 1.0);
    assert_eq!(kind(&p), SolutionKind::NoSolution);
}

#[test]
fn two_x_equals_zero_has_the_solution_zero() {
    let p = reduce(squeeze("2*X^1=0*X^0")).unwrap();
    assert_eq!(listing(&p), vec![item(0, "-0"), item(1, "2")]);
    assert_eq!(kind(&p), SolutionKind::Linear);
    let x = -float(&p, 0) / float(&p, 1);
    assert_eq!(x, 0.0);
}

#[test]
fn a_degree_above_two_is_too_high() {
    assert_eq!(reduce(squeeze("1*X^0+1*X^3=0*X^0")).err(), Some(EquationError::DegreeTooHigh));
    assert_eq!(reduce(squeeze("1*X^0=1*X^3")).err(), Some(EquationError::DegreeTooHigh));
    assert_eq!(reduce(squeeze("0*X^3=0*X^0")).err(), Some(EquationError::DegreeTooHigh));
    assert_eq!(reduce(squeeze("1*X^3=1*X^3")).err(), Some(EquationError::DegreeTooHigh));
    assert_eq!(
        reduce(squeeze("1*X^18446744073709551615=0*X^0")).err(),
        Some(EquationError::DegreeTooHigh)
    );
    let p = canonical_form("1*X^0+1*X^3=0*X^0").unwrap();
    assert_eq!(p.degree(), Some(3));
    assert_eq!(check_degree(&p), Err(EquationError::DegreeTooHigh));
    assert_eq!(reduced_form(&p), "1*X^0 + 1*X^3 = 0");
}

#[test]
fn a_repeated_power_within_one_side_is_rejected() {
    assert_eq!(reduce(squeeze("1*X^1+2*X^1=0*X^0")).err(), Some(EquationError::DuplicatePower));
    assert_eq!(reduce(squeeze("0*X^0=1*X^1+2*X^1")).err(), Some(EquationError::DuplicatePower));
    assert!(reduce(squeeze("1*X^1=2*X^1")).is_ok());
}

#[test]
fn a_malformed_term_names_its_side_and_position() {
    let bad = |side, position| Some(EquationError::MalformedTerm { side, position });
    assert_eq!(reduce(squeeze("1*X^0 junk = 0*X^0")).err(), bad(Side::Left, TermPosition::Later));
    assert_eq!(reduce(squeeze("42 = 0*X^0")).err(), bad(Side::Left, TermPosition::First));
    assert_eq!(reduce(squeeze("0*X^0 = 42")).err(), bad(Side::Right, TermPosition::First));
    assert_eq!(reduce(squeeze("0*X^0 = 1*X^1 2*X^2")).err(), bad(Side::Right, TermPosition::Later));
    assert_eq!(reduce(squeeze("1*X^1 = 0")).err(), bad(Side::Right, TermPosition::First));
    assert_eq!(reduce(squeeze("x = y")).err(), bad(Side::Left, TermPosition::First));
}

#[test]
fn the_left_side_fails_before_the_right_side() {
    let bad = |side, position| Some(EquationError::MalformedTerm { side, position });
    assert_eq!(reduce(squeeze("junk = 1*X^1+2*X^1")).err(), bad(Side::Left, TermPosition::First));
    assert_eq!(reduce(squeeze("1*X^1+2*X^1 = junk")).err(), Some(EquationError::DuplicatePower));
}

#[test]
fn a_missing_separator_is_reported() {
    assert_eq!(reduce(squeeze("5 * X^0")).err(), Some(EquationError::MissingSeparator));
    assert_eq!(reduce(squeeze("")).err(), Some(EquationError::MissingSeparator));
    assert_eq!(reduce(squeeze("junk")).err(), Some(EquationError::MissingSeparator));
    assert_eq!(canonical_form("5*X^0").err(), Some(EquationError::MissingSeparator));
}

#[test]
fn a_second_separator_makes_the_right_side_malformed() {
    let bad = |side, position| Some(EquationError::MalformedTerm { side, position });
    assert_eq!(reduce(squeeze("1*X^0 = 2*X^0 = 3*X^0")).err(), bad(Side::Right, TermPosition::Later));
    assert_eq!(reduce(squeeze("1*X^0 == 2*X^0")).err(), bad(Side::Right, TermPosition::First));
    assert_eq!(reduce(squeeze("==")).err(), bad(Side::Right, TermPosition::First));
}

#[test]
fn an_equation_without_any_term_is_empty() {
    assert_eq!(reduce(squeeze("=")).err(), Some(EquationError::EmptyExpression));
    assert_eq!(reduce(squeeze("  =  ")).err(), Some(EquationError::EmptyExpression));
    let p = canonical_form("=").unwrap();
    assert!(p.is_empty());
    assert_eq!(check_degree(&p), Err(EquationError::EmptyExpression));
}

#[test]
fn one_empty_side_is_legal() {
    let p = reduce(squeeze("= 0 * X^0")).unwrap();
    assert_eq!(listing(&p), vec![item(0, "-0")]);
    assert_eq!(kind(&p), SolutionKind::AllReals);
    let p = reduce(squeeze("1*X^1 + 2*X^0 =")).unwrap();
    assert_eq!(listing(&p), vec![item(0, "2"), item(1, "1")]);
}

#[test]
fn reduce_removes_white_space_itself() {
    let p = reduce(String::from(" 5 * X^0 +\t4 * X^1 - 9.3 * X^2 = 1 * X^0\n")).unwrap();
    assert_eq!(listing(&p), vec![item(0, "4"), item(1, "4"), item(2, "-9.3")]);
    let q = canonical_form("1 * X ^ 2 = 1 . 5 * X ^ 1").unwrap();
    assert_eq!(listing(&q), vec![item(1, "-1.5"), item(2, "1")]);
    assert_eq!(
        extract_coefficients("1 * X^2").err(),
        Some(solver::TermError::Malformed(TermPosition::First))
    );
}

#[test]
fn check_degree_gives_the_degree_up_to_two() {
    assert_eq!(check_degree(&extract_coefficients("7*X^0").unwrap()), Ok(0));
    assert_eq!(check_degree(&extract_coefficients("7*X^1").unwrap()), Ok(1));
    assert_eq!(check_degree(&extract_coefficients("0*X^2").unwrap()), Ok(2));
    assert_eq!(
        check_degree(&extract_coefficients("7*X^3").unwrap()),
        Err(EquationError::DegreeTooHigh)
    );
    assert_eq!(check_degree(&Polynomial::new()), Err(EquationError::EmptyExpression));
}

#[test]
fn the_error_of_a_side_carries_the_side() {
    assert_eq!(
        EquationError::of_side(Side::Right, solver::TermError::Malformed(TermPosition::Later)),
        EquationError::MalformedTerm { side: Side::Right, position: TermPosition::Later }
    );
    assert_eq!(
        EquationError::of_side(Side::Left, solver::TermError::DuplicatePower),
        EquationError::DuplicatePower
    );
}

#[test]
fn reducing_both_ways_negates_every_coefficient() {
    let forward = reduce(squeeze("5 * X^0 + 4 * X^1 = 1 * X^0 - 9.3 * X^2")).unwrap();
    let backward = reduce(squeeze("1 * X^0 - 9.3 * X^2 = 5 * X^0 + 4 * X^1")).unwrap();
    assert_eq!(listing(&forward), vec![item(0, "4"), item(1, "4"), item(2, "9.3")]);
    assert_eq!(listing(&backward), vec![item(0, "-4"), item(1, "-4"), item(2, "-9.3")]);
}

#[test]
fn a_zero_discriminant_gives_one_double_root() {
    let p = reduce(squeeze("1 * X^2 + 2 * X^1 + 1 * X^0 = 0 * X^0")).unwrap();
    assert_eq!(reduced_form(&p), "1*X^0 + 2*X^1 + 1*X^2 = 0");
    let (a, b, c) = (float(&p, 2), float(&p, 1), float(&p, 0));
    assert_eq!(b * b - 4.0 * a * c, 0.0);
    assert_eq!(kind(&p), SolutionKind::DoubleRoot);
    assert_eq!(-b / (2.0 * a), -1.0);
}

#[test]
fn a_negative_discriminant_gives_no_real_root() {
    let p = reduce(squeeze("1 * X^2 + 1 * X^0 = 0 * X^0")).unwrap();
    let (a, b, c) = (float(&p, 2), float(&p, 1), float(&p, 0));
    assert_eq!(b * b - 4.0 * a * c, -4.0);
    assert_eq!(kind(&p), SolutionKind::NoRealRoot);
}

#[test]
fn two_roots_come_in_the_order_of_the_formula() {
    let p = reduce(squeeze("1 * X^2 - 3 * X^1 + 2 * X^0 = 0 * X^0")).unwrap();
    let (a, b, c) = (float(&p, 2), float(&p, 1), float(&p, 0));
    let delta = b * b - 4.0 * a * c;
    assert_eq!(delta, 1.0);
    assert_eq!(kind(&p), SolutionKind::TwoRoots);
    assert_eq!((-b + delta.sqrt()) / (2.0 * a), 2.0);
    assert_eq!((-b - delta.sqrt()) / (2.0 * a), 1.0);
    let q = reduce(squeeze("0 * X^0 = 1 * X^2 - 3 * X^1 + 2 * X^0")).unwrap();
    let (a, b, c) = (float(&q, 2), float(&q, 1), float(&q, 0));
    let delta = b * b - 4.0 * a * c;
    assert_eq!(kind(&q), SolutionKind::TwoRoots);
    assert_eq!((-b + delta.sqrt()) / (2.0 * a), 1.0);
    assert_eq!((-b - delta.sqrt()) / (2.0 * a), 2.0);
}

#[test]
fn both_roots_of_a_positive_discriminant_satisfy_the_equation() {
    let equations = [
        "5 * X^0 + 4 * X^1 - 9.3 * X^2 = 1 * X^0",
        "1 * X^2 - 3 * X^1 + 2 * X^0 = 0 * X^0",
        "0.5 * X^2 + 7.25 * X^1 = 12 * X^0",
        "-2 * X^2 + 0.01 * X^1 + 300 * X^0 = 0 * X^0",
        "1 * X^2 = 2 * X^0",
    ];
    for equation in equations.iter() {
        let p = reduce(squeeze(equation)).unwrap();
        let (a, b, c) = (float(&p, 2), float(&p, 1), float(&p, 0));
        let delta = b * b - 4.0 * a * c;
        assert!(a != 0.0 && delta > 0.0, "{}", equation);
        assert_eq!(kind(&p), SolutionKind::TwoRoots);
        for x in [(-b + delta.sqrt()) / (2.0 * a), (-b - delta.sqrt()) / (2.0 * a)] {
            let scale = (a * x * x).abs() + (b * x).abs() + c.abs();
            assert!((a * x * x + b * x + c).abs() <= 1e-12 * scale, "{} {}", equation, x);
        }
    }
}
