//! Why an equation is not read or not reduced.

use vstd::prelude::*;

verus! {

/// One side of an equation.
#[derive(Clone, Copy, Debug, PartialEq, Eq, Structural)]
pub enum Side {
    Left,
    Right,
}

/// Where in a side no term could be read.
#[derive(Clone, Copy, Debug, PartialEq, Eq, Structural)]
pub enum TermPosition {
    /// At the start of the side.
    First,
    /// After at least one term.
    Later,
}

/// Why a side is not a sum of terms.
#[derive(Clone, Copy, Debug, PartialEq, Eq, Structural)]
pub enum TermError {
    /// No term stands at a place where the side has not ended.
    Malformed(TermPosition),
    /// A power that the side has already given a coefficient occurs again.
    DuplicatePower,
}

/// Why an equation cannot be brought to its canonical form and solved.
#[derive(Clone, Copy, Debug, PartialEq, Eq, Structural)]
pub enum EquationError {
    /// The input holds no `=`.
    MissingSeparator,
    /// No term stands at a place where a side has not ended.
    MalformedTerm { side: Side, position: TermPosition },
    /// One side gives the same power a coefficient twice.
    DuplicatePower,
    /// Neither side has a term.
    EmptyExpression,
    /// The canonical polynomial has an entry for a power above two.
    DegreeTooHigh,
}

/// The error of an equation whose side `side` failed with `e`.
pub open spec fn side_error(side: Side, e: TermError) -> EquationError {
    match e {
        TermError::Malformed(position) => EquationError::MalformedTerm { side, position },
        TermError::DuplicatePower => EquationError::DuplicatePower,
    }
}

impl EquationError {
    /// The error of an equation whose side `side` failed with `e`.
    pub fn of_side(side: Side, e: TermError) -> (r: EquationError)
        ensures
            r == side_error(side, e),
    {
        match e {
            TermError::Malformed(position) => EquationError::MalformedTerm { side, position },
            TermError::DuplicatePower => EquationError::DuplicatePower,
        }
    }
}

} // verus!
