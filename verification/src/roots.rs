//! The branch by which an equation of degree two or less is solved.

use vstd::prelude::*;

verus! {

/// Sign of a real quantity.
#[derive(Clone, Copy, Debug, PartialEq, Eq, Structural)]
pub enum Sign {
    Negative,
    Zero,
    Positive,
}

/// Shape of the solution set of `a·X² + b·X + c = 0`.
#[derive(Clone, Copy, Debug, PartialEq, Eq, Structural)]
pub enum SolutionKind {
    /// Every coefficient is zero: every real number is a solution.
    AllReals,
    /// A non-zero constant equals zero: there is no solution.
    NoSolution,
    /// Degree one: the single solution `-c / b`.
    Linear,
    /// Degree two with a negative discriminant: no real solution.
    NoRealRoot,
    /// Degree two with a zero discriminant: the single solution `-b / (2a)`.
    DoubleRoot,
    /// Degree two with a positive discriminant: the two solutions
    /// `(-b + √Δ) / (2a)` and `(-b - √Δ) / (2a)`, in that order.
    TwoRoots,
}

/// The solution shape as a function of which coefficients vanish and of the
/// sign of the discriminant `b² − 4ac`.
pub open spec fn solution_kind(
    a_is_zero: bool,
    b_is_zero: bool,
    c_is_zero: bool,
    discriminant: Sign,
) -> SolutionKind {
    if a_is_zero {
        if b_is_zero {
            if c_is_zero {
                SolutionKind::AllReals
            } else {
                SolutionKind::NoSolution
            }
        } else {
            SolutionKind::Linear
        }
    } else {
        match discriminant {
            Sign::Negative => SolutionKind::NoRealRoot,
            Sign::Zero => SolutionKind::DoubleRoot,
            Sign::Positive => SolutionKind::TwoRoots,
        }
    }
}

/// Selects the branch of the solver from exact zero tests on the three
/// coefficients and the sign of the discriminant.
pub fn classify(
    a_is_zero: bool,
    b_is_zero: bool,
    c_is_zero: bool,
    discriminant: Sign,
) -> (kind: SolutionKind)
    ensures
        kind == solution_kind(a_is_zero, b_is_zero, c_is_zero, discriminant),
{
    if a_is_zero {
        if b_is_zero {
            if c_is_zero {
                SolutionKind::AllReals
            } else {
                SolutionKind::NoSolution
            }
        } else {
            SolutionKind::Linear
        }
    } else {
        match discriminant {
            Sign::Negative => SolutionKind::NoRealRoot,
            Sign::Zero => SolutionKind::DoubleRoot,
            Sign::Positive => SolutionKind::TwoRoots,
        }
    }
}

} // verus!
