use solver::{classify, Sign, SolutionKind};

#[test]
fn all_coefficients_zero_means_all_reals() {
    for d in [Sign::Negative, Sign::Zero, Sign::Positive] {
        assert_eq!(classify(true, true, true, d), SolutionKind::AllReals);
    }
}

#[test]
fn a_lone_constant_means_no_solution() {
    for d in [Sign::Negative, Sign::Zero, Sign::Positive] {
        assert_eq!(classify(true, true, false, d), SolutionKind::NoSolution);
    }
}

#[test]
fn a_linear_term_means_one_solution() {
    for d in [Sign::Negative, Sign::Zero, Sign::Positive] {
        assert_eq!(classify(true, false, true, d), SolutionKind::Linear);
        assert_eq!(classify(true, false, false, d), SolutionKind::Linear);
    }
}

#[test]
fn a_quadratic_term_goes_by_the_discriminant() {
    for b in [false, true] {
        for c in [false, true] {
            assert_eq!(classify(false, b, c, Sign::Negative), SolutionKind::NoRealRoot);
            assert_eq!(classify(false, b, c, Sign::Zero), SolutionKind::DoubleRoot);
            assert_eq!(classify(false, b, c, Sign::Positive), SolutionKind::TwoRoots);
        }
    }
}
