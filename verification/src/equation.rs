//! From an equation to its canonical polynomial: the two sides, their
//! difference, and the degree that can be solved.

use vstd::prelude::*;
use crate::error::{side_error, EquationError, Side};
use crate::parser::{extract_coefficients, terms_of};
use crate::polynomial::{is_degree, is_reduction, Polynomial, PolynomialModel};
use crate::text::{chars_of, squeezed, string_of, without_whitespace};

verus! {

/// `left` and `right` are the two sides of `s`: what stands before its
/// first `=` and what stands behind it.
pub open spec fn is_split(s: Seq<char>, left: Seq<char>, right: Seq<char>) -> bool {
    s == left + seq!['='] + right && !left.contains('=')
}

/// Whether `p` has an entry for a power above two.
pub open spec fn exceeds_two(p: PolynomialModel) -> bool {
    exists|k: u64| p.contains_key(k) && k > 2
}

/// The result of a computation with the polynomial replaced by its model.
pub open spec fn outcome(r: Result<Polynomial, EquationError>) -> Result<
    PolynomialModel,
    EquationError,
> {
    match r {
        Ok(p) => Ok(p@),
        Err(e) => Err(e),
    }
}

/// `r` is what bringing `left = right` to its canonical form gives: the
/// error of the left side, else the error of the right side, else the left
/// polynomial less the right one.
pub open spec fn is_canonical(
    r: Result<PolynomialModel, EquationError>,
    left: Seq<char>,
    right: Seq<char>,
) -> bool {
    match terms_of(left) {
        Err(e) => r == Err::<PolynomialModel, EquationError>(side_error(Side::Left, e)),
        Ok(a) => match terms_of(right) {
            Err(e) => r == Err::<PolynomialModel, EquationError>(side_error(Side::Right, e)),
            Ok(b) => r matches Ok(p) && is_reduction(p, a, b),
        },
    }
}

/// `r` is what the degree check makes of the canonical polynomial `p`:
/// `p` itself where it has an entry and none above the power two.
pub open spec fn is_checked(
    r: Result<PolynomialModel, EquationError>,
    p: PolynomialModel,
) -> bool {
    if forall|k: u64| !p.contains_key(k) {
        r == Err::<PolynomialModel, EquationError>(EquationError::EmptyExpression)
    } else if exceeds_two(p) {
        r == Err::<PolynomialModel, EquationError>(EquationError::DegreeTooHigh)
    } else {
        r == Ok::<PolynomialModel, EquationError>(p)
    }
}

/// `r` is what reducing `left = right` gives: the error of a side, or the
/// canonical polynomial after the degree check.
pub open spec fn is_reduced(
    r: Result<PolynomialModel, EquationError>,
    left: Seq<char>,
    right: Seq<char>,
) -> bool {
    match (terms_of(left), terms_of(right)) {
        (Ok(a), Ok(b)) => exists|p: PolynomialModel| is_reduction(p, a, b) && is_checked(r, p),
        _ => is_canonical(r, left, right),
    }
}

/// A sequence has its two sides in one way only.
pub proof fn lemma_split_unique(
    s: Seq<char>,
    l1: Seq<char>,
    r1: Seq<char>,
    l2: Seq<char>,
    r2: Seq<char>,
)
    requires
        is_split(s, l1, r1),
        is_split(s, l2, r2),
    ensures
        l1 == l2,
        r1 == r2,
{
    let a = l1.len() as int;
    let b = l2.len() as int;
    assert(s[a] == '=');
    assert(s[b] == '=');
    if a < b {
        assert(l2[a] == s[a]);
        assert(l2.contains('='));
    }
    if b < a {
        assert(l1[b] == s[b]);
        assert(l1.contains('='));
    }
    assert(l1 =~= s.take(a));
    assert(l2 =~= s.take(b));
    assert(r1 =~= s.skip(a + 1));
    assert(r2 =~= s.skip(b + 1));
}

/// The characters of `v` from position `from` up to position `to`.
fn part(v: &Vec<char>, from: usize, to: usize) -> (r: Vec<char>)
    requires
        from <= to <= v.len(),
    ensures
        r@ == v@.subrange(from as int, to as int),
{
    let mut r: Vec<char> = Vec::new();
    let mut i = from;
    while i < to
        invariant
            from <= i <= to,
            to <= v.len(),
            r@ == v@.subrange(from as int, i as int),
        decreases to - i,
    {
        r.push(v[i]);
        i += 1;
        assert(r@ =~= v@.subrange(from as int, i as int));
    }
    r
}

/// Splits an equation into its left and its right side: removes all white
/// space, then cuts at the first `=`. Fails with `MissingSeparator` exactly
/// when there is no `=`. Where there is more than one, the right side holds
/// the others, and is no sum of terms.
pub fn split_equation(expression: &str) -> (r: Result<(String, String), EquationError>)
    ensures
        match r {
            Ok((left, right)) => is_split(without_whitespace(expression@), left@, right@),
            Err(e) => e == EquationError::MissingSeparator && !without_whitespace(
                expression@,
            ).contains('='),
        },
{
    let s = squeezed(&chars_of(expression));
    let n = s.len();
    let mut i: usize = 0;
    while i < n && s[i] != '='
        invariant
            n == s.len(),
            i <= n,
            forall|j: int| 0 <= j < i ==> s[j] != '=',
        decreases n - i,
    {
        i += 1;
    }
    if i == n {
        assert(!s@.contains('='));
        return Err(EquationError::MissingSeparator);
    }
    let left = string_of(&part(&s, 0, i));
    let right = string_of(&part(&s, i + 1, n));
    proof {
        assert(s@ =~= left@ + seq!['='] + right@);
        if left@.contains('=') {
            let j = choose|j: int| 0 <= j < left@.len() && left@[j] == '=';
            assert(s[j] == '=');
        }
    }
    Ok((left, right))
}

/// Brings an equation to its canonical form: the polynomial of its left
/// side less that of its right side, the sides being those of the input
/// without its white space. Fails with `MissingSeparator` where there is no
/// `=`, else with the error of the left side, else with that of the right
/// side.
pub fn canonical_form(expression: &str) -> (r: Result<Polynomial, EquationError>)
    ensures
        !without_whitespace(expression@).contains('=') ==> outcome(r) == Err::<
            PolynomialModel,
            EquationError,
        >(EquationError::MissingSeparator),
        forall|left: Seq<char>, right: Seq<char>| #[trigger]
            is_split(without_whitespace(expression@), left, right) ==> is_canonical(
                outcome(r),
                left,
                right,
            ),
{
    let ghost t = without_whitespace(expression@);
    let (left, right) = match split_equation(expression) {
        Ok(sides) => sides,
        Err(e) => {
            assert forall|l: Seq<char>, rt: Seq<char>| #[trigger]
                is_split(t, l, rt) implies false by {
                assert(t[l.len() as int] == '=');
            }
            return Err(e);
        },
    };
    proof {
        assert(t[left@.len() as int] == '=');
        assert forall|l: Seq<char>, rt: Seq<char>| #[trigger] is_split(t, l, rt) implies l == left@
            && rt == right@ by {
            lemma_split_unique(t, l, rt, left@, right@);
        }
    }
    let a = match extract_coefficients(left.as_str()) {
        Ok(a) => a,
        Err(e) => {
            return Err(EquationError::of_side(Side::Left, e));
        },
    };
    let b = match extract_coefficients(right.as_str()) {
        Ok(b) => b,
        Err(e) => {
            return Err(EquationError::of_side(Side::Right, e));
        },
    };
    Ok(a.subtract(&b))
}

/// The degree of a canonical polynomial that can be solved: at most two.
/// Fails with `EmptyExpression` where the polynomial has no entry, and with
/// `DegreeTooHigh` where it has one for a power above two.
pub fn check_degree(p: &Polynomial) -> (r: Result<u64, EquationError>)
    ensures
        match r {
            Ok(d) => is_degree(Some(d), p@) && d <= 2,
            Err(e) => if e == EquationError::EmptyExpression {
                forall|k: u64| !p@.contains_key(k)
            } else {
                e == EquationError::DegreeTooHigh && exceeds_two(p@)
            },
        },
{
    match p.degree() {
        None => Err(EquationError::EmptyExpression),
        Some(d) => {
            if d > 2 {
                Err(EquationError::DegreeTooHigh)
            } else {
                Ok(d)
            }
        },
    }
}

/// Reduces an equation to the canonical polynomial that equals zero, and
/// checks that it can be solved. Fails as `canonical_form` does, else with
/// `EmptyExpression` where neither side has a term, else with
/// `DegreeTooHigh` where a power above two has an entry.
pub fn reduce(expression: String) -> (r: Result<Polynomial, EquationError>)
    ensures
        !without_whitespace(expression@).contains('=') ==> outcome(r) == Err::<
            PolynomialModel,
            EquationError,
        >(EquationError::MissingSeparator),
        forall|left: Seq<char>, right: Seq<char>| #[trigger]
            is_split(without_whitespace(expression@), left, right) ==> is_reduced(
                outcome(r),
                left,
                right,
            ),
{
    let ghost t = without_whitespace(expression@);
    let p = match canonical_form(expression.as_str()) {
        Ok(p) => p,
        Err(e) => {
            return Err(e);
        },
    };
    let checked = check_degree(&p);
    let ghost pm = p@;
    let r = match checked {
        Ok(_) => Ok(p),
        Err(e) => Err(e),
    };
    proof {
        assert(checked is Ok ==> pm.contains_key(checked->Ok_0) && !exceeds_two(pm));
        assert(is_checked(outcome(r), pm));
        assert forall|left: Seq<char>, right: Seq<char>| #[trigger]
            is_split(t, left, right) implies is_reduced(outcome(r), left, right) by {
            assert(is_canonical(Ok(pm), left, right));
            let a = terms_of(left)->Ok_0;
            let b = terms_of(right)->Ok_0;
            assert(is_reduction(pm, a, b) && is_checked(outcome(r), pm));
        }
    }
    r
}

} // verus!
