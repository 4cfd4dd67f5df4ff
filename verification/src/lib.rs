//! Polynomial equations of degree two or less in one indeterminate:
//! reading an equation such as `5 * X^0 + 4 * X^1 - 9.3 * X^2 = 1 * X^0`,
//! reducing it to the canonical polynomial that equals zero, with exact
//! decimal coefficients, writing that form, and selecting the branch by
//! which the equation is solved.

use vstd::prelude::*;

pub mod decimal;
pub mod digits;
pub mod equation;
pub mod error;
pub mod format;
pub mod laws;
pub mod magnitude;
pub mod parser;
pub mod polynomial;
pub mod reading;
pub mod roots;
pub mod text;

pub use crate::decimal::Decimal;
pub use crate::equation::{canonical_form, check_degree, reduce, split_equation};
pub use crate::error::{EquationError, Side, TermError, TermPosition};
pub use crate::format::reduced_form;
pub use crate::parser::extract_coefficients;
pub use crate::polynomial::Polynomial;
pub use crate::roots::{classify, Sign, SolutionKind};
pub use crate::text::remove_whitespace;

verus! {

} // verus!
