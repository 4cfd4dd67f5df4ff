//! What holds of reading, writing and reducing, whatever the input.

use vstd::prelude::*;
use crate::decimal::{lemma_difference_unique, DecimalModel};
use crate::equation::{exceeds_two, is_canonical, is_checked, is_reduced, is_split};
use crate::error::{EquationError, TermError, TermPosition};
use crate::format::{polynomial_text, reduced_text, term_text};
use crate::parser::{is_digit, lemma_term_bounds, term_at, terms_from, terms_of};
use crate::polynomial::{is_reduction, polynomial_wf, PolynomialModel};
use crate::reading::{
    below, lemma_end_compact, lemma_read_back_below, lemma_term_read_back, lemma_term_stable,
    lemma_terms_have_no_separator, lemma_terms_stable, lemma_without_whitespace_concat,
    lemma_zero_is_no_term,
};
use crate::text::without_whitespace;

verus! {

/// Parsing is a left inverse of formatting: the terms of a polynomial, as
/// the canonical form writes them before ` = 0`, are read back, once white
/// space is removed, as the same polynomial.
pub proof fn parsing_inverts_formatting(p: PolynomialModel)
    requires
        polynomial_wf(p),
    ensures
        terms_of(without_whitespace(polynomial_text(p))) == Ok::<PolynomialModel, TermError>(p),
{
    lemma_read_back_below(p, 0x1_0000_0000_0000_0000);
    assert(below(p, 0x1_0000_0000_0000_0000) =~= p);
}

/// The two sides of a canonical form, once white space is removed: the
/// left side is the text of the terms, which reads back as the polynomial;
/// the right side is `0`, which is a number and no term.
pub proof fn canonical_form_sides(p: PolynomialModel)
    requires
        polynomial_wf(p),
    ensures
        is_split(
            without_whitespace(reduced_text(p)),
            without_whitespace(polynomial_text(p)),
            seq!['0'],
        ),
        terms_of(without_whitespace(polynomial_text(p))) == Ok::<PolynomialModel, TermError>(p),
        terms_of(seq!['0']) == Err::<PolynomialModel, TermError>(
            TermError::Malformed(TermPosition::First),
        ),
{
    let left = without_whitespace(polynomial_text(p));
    parsing_inverts_formatting(p);
    lemma_zero_is_no_term();
    assert(!left.contains('=')) by {
        lemma_terms_have_no_separator(left, 0, Map::empty());
    }
    assert(without_whitespace(reduced_text(p)) == left + seq!['=', '0']) by {
        lemma_without_whitespace_concat(polynomial_text(p), seq![' ', '=', ' ', '0']);
        lemma_end_compact();
    }
    assert(left + seq!['=', '0'] =~= left + seq!['='] + seq!['0']);
}

/// Reducing is antisymmetric: `left − right` and `right − left` have
/// entries for the same powers, and the two coefficients of each power are
/// the negatives of one another, that is, numerals of the same scale with
/// opposite mantissas.
pub proof fn reduction_is_antisymmetric(
    forward: PolynomialModel,
    backward: PolynomialModel,
    left: PolynomialModel,
    right: PolynomialModel,
)
    requires
        is_reduction(forward, left, right),
        is_reduction(backward, right, left),
    ensures
        forall|k: u64| forward.contains_key(k) <==> backward.contains_key(k),
        forall|k: u64| #[trigger]
            forward.contains_key(k) ==> forward[k].scale == backward[k].scale
                && forward[k].mantissa() == -backward[k].mantissa(),
{
    assert forall|k: u64| forward.contains_key(k) <==> backward.contains_key(k) by {
        assert(forward.contains_key(k) <==> left.contains_key(k) || right.contains_key(k));
        assert(backward.contains_key(k) <==> left.contains_key(k) || right.contains_key(k));
    }
    assert forall|k: u64| #[trigger] forward.contains_key(k) implies forward[k].scale
        == backward[k].scale && forward[k].mantissa() == -backward[k].mantissa() by {
        let f = forward[k];
        let b = backward[k];
        assert(left.contains_key(k) || right.contains_key(k));
    }
}

/// Reducing has one result: the polynomial `left − right` is determined,
/// entry by entry and digit by digit.
pub proof fn reduction_is_determined(
    first: PolynomialModel,
    second: PolynomialModel,
    left: PolynomialModel,
    right: PolynomialModel,
)
    requires
        is_reduction(first, left, right),
        is_reduction(second, left, right),
    ensures
        first == second,
{
    assert forall|k: u64| first.contains_key(k) <==> second.contains_key(k) by {
        assert(first.contains_key(k) <==> left.contains_key(k) || right.contains_key(k));
        assert(second.contains_key(k) <==> left.contains_key(k) || right.contains_key(k));
    }
    assert forall|k: u64| first.contains_key(k) implies first[k] == second[k] by {
        assert(left.contains_key(k) || right.contains_key(k));
        if left.contains_key(k) && right.contains_key(k) {
            lemma_difference_unique(first[k], second[k], left[k], right[k]);
        }
    }
    assert(first =~= second);
}

/// An equation with more than one `=` is never reduced: what stands behind
/// the first `=` is no sum of terms, so the result is the error of a side.
pub proof fn second_separator_is_rejected(
    r: Result<PolynomialModel, EquationError>,
    left: Seq<char>,
    right: Seq<char>,
)
    requires
        right.contains('='),
        is_canonical(r, left, right) || is_reduced(r, left, right),
    ensures
        r is Err,
        r->Err_0 is MalformedTerm || r->Err_0 is DuplicatePower,
{
    if terms_of(right) is Ok {
        lemma_terms_have_no_separator(right, 0, Map::empty());
        let at = choose|at: int| 0 <= at < right.len() && right[at] == '=';
        assert(right[at] != '=');
    }
}

/// A power above two on either side makes the degree too high: an equation
/// whose sides are both sums of terms, one of them with an entry for a power
/// above two, is reduced to `DegreeTooHigh`, whatever the coefficients.
pub proof fn power_above_two_is_rejected(
    r: Result<PolynomialModel, EquationError>,
    left: Seq<char>,
    right: Seq<char>,
    power: u64,
)
    requires
        is_reduced(r, left, right),
        terms_of(left) is Ok,
        terms_of(right) is Ok,
        terms_of(left)->Ok_0.contains_key(power) || terms_of(right)->Ok_0.contains_key(power),
        power > 2,
    ensures
        r == Err::<PolynomialModel, EquationError>(EquationError::DegreeTooHigh),
{
    let a = terms_of(left)->Ok_0;
    let b = terms_of(right)->Ok_0;
    let p = choose|p: PolynomialModel| is_reduction(p, a, b) && is_checked(r, p);
    assert(p.contains_key(power));
}

/// What is reduced can be solved: the polynomial of a reduced equation has
/// an entry, and none for a power above two.
pub proof fn reduced_is_solvable(
    r: Result<PolynomialModel, EquationError>,
    left: Seq<char>,
    right: Seq<char>,
)
    requires
        is_reduced(r, left, right),
        r is Ok,
    ensures
        exists|k: u64| (#[trigger] r->Ok_0.contains_key(k)),
        forall|k: u64| (#[trigger] r->Ok_0.contains_key(k)) ==> k <= 2,
{
    let a = terms_of(left)->Ok_0;
    let b = terms_of(right)->Ok_0;
    let p = choose|p: PolynomialModel| is_reduction(p, a, b) && is_checked(r, p);
    assert(r->Ok_0 == p);
    assert(!(forall|k: u64| !p.contains_key(k)));
    assert forall|k: u64| #[trigger] p.contains_key(k) implies k <= 2 by {
        assert(!exceeds_two(p));
    }
}

/// A power may occur once on a side: a term for a power that the side has
/// given a coefficient before makes it fail with `DuplicatePower`, whatever
/// follows the term, as long as a digit that follows does not lengthen its
/// power.
pub proof fn repeated_power_is_rejected(
    s: Seq<char>,
    sign: Seq<char>,
    c: DecimalModel,
    power: u64,
    rest: Seq<char>,
)
    requires
        c.wf(),
        terms_of(s) is Ok,
        terms_of(s)->Ok_0.contains_key(power),
        sign == seq!['+'] || sign == seq!['-'],
        rest.len() == 0 || !is_digit(rest[0]),
    ensures
        terms_of(s + sign + term_text(c, power) + rest) == Err::<PolynomialModel, TermError>(
            TermError::DuplicatePower,
        ),
{
    let read = terms_of(s)->Ok_0;
    let term = term_text(c, power);
    let f = s + sign + term;
    let g = f + rest;
    let i = s.len() as int;
    assert(g =~= s + (sign + term + rest));
    assert(terms_from(g, 0, Map::empty()) == terms_from(g, i, read)) by {
        assert((sign + term + rest)[0] == sign[0]);
        lemma_terms_stable(s, sign + term + rest, 0, Map::empty(), read);
    }
    assert(s.len() > 0);
    lemma_term_read_back(s, sign, c, power);
    lemma_term_stable(f, rest, i, true);
    lemma_term_bounds(g, i, true);
}

/// What follows a sum of terms starts with a sign or lengthens the last
/// power: a side that goes on with any other character fails with
/// `Malformed` at a later term.
pub proof fn unsigned_continuation_is_malformed(s: Seq<char>, rest: Seq<char>)
    requires
        s.len() > 0,
        terms_of(s) is Ok,
        rest.len() > 0,
        !is_digit(rest[0]),
        rest[0] != '+',
        rest[0] != '-',
    ensures
        terms_of(s + rest) == Err::<PolynomialModel, TermError>(
            TermError::Malformed(TermPosition::Later),
        ),
{
    let read = terms_of(s)->Ok_0;
    let g = s + rest;
    let i = s.len() as int;
    lemma_terms_stable(s, rest, 0, Map::empty(), read);
    assert(g[i] == rest[0]);
    assert(term_at(g, i, true) is None) by {
        reveal(term_at);
    }
}

} // verus!
