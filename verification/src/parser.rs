//! The grammar of a side of an equation, and the reader that follows it.

use vstd::prelude::*;
use crate::decimal::{Decimal, DecimalModel};
use crate::digits::{all_digits, digits_value, lemma_value_push};
use crate::error::{TermError, TermPosition};
use crate::polynomial::{Polynomial, PolynomialModel};
use crate::text::chars_of;

verus! {

/// Whether `c` is one of the ten decimal digits `0` to `9`.
pub open spec fn is_digit(c: char) -> bool {
    48 <= c as u32 <= 57
}

/// The digit that the character `c` writes.
pub open spec fn digit_of(c: char) -> u8 {
    (c as u32 - 48) as u8
}

/// The digits that the characters of `s` write.
pub open spec fn digits_of(s: Seq<char>) -> Seq<u8> {
    s.map_values(|c: char| digit_of(c))
}

/// The number of digits that stand in `s` from position `i` on without
/// interruption.
pub open spec fn digit_run(s: Seq<char>, i: int) -> nat
    decreases s.len() - i,
{
    if 0 <= i < s.len() && is_digit(s[i]) {
        1 + digit_run(s, i + 1)
    } else {
        0
    }
}

/// A term read from a side: its coefficient, its power, and the position
/// behind its last character.
pub struct TermMatch {
    pub coefficient: DecimalModel,
    pub power: u64,
    pub end: int,
}

/// The term that stands in `s` at position `i`, if one does:
/// an optional sign (`+` or `-`), which `sign_required` makes mandatory; one
/// or more digits; optionally a point and any number of digits; the three
/// characters `*X^`; and one or more digits that write a power below 2^64.
/// Each run of digits is taken as far as it goes.
#[verifier::opaque]
pub open spec fn term_at(s: Seq<char>, i: int, sign_required: bool) -> Option<TermMatch> {
    let signed = 0 <= i < s.len() && (s[i] == '+' || s[i] == '-');
    let j = if signed {
        i + 1
    } else {
        i
    };
    let k = j + digit_run(s, j);
    let dotted = k < s.len() && s[k] == '.';
    let m = if dotted {
        k + 1 + digit_run(s, k + 1)
    } else {
        k
    };
    let q = m + 3;
    let e = q + digit_run(s, q);
    let power = digits_value(digits_of(s.subrange(q, e)));
    if (sign_required && !signed) || k == j || q > s.len() || s[m] != '*' || s[m + 1] != 'X' || s[m
        + 2] != '^' || e == q || power > u64::MAX {
        None
    } else {
        Some(
            TermMatch {
                coefficient: DecimalModel {
                    negative: signed && s[i] == '-',
                    digits: if dotted {
                        digits_of(s.subrange(j, k)) + digits_of(s.subrange(k + 1, m))
                    } else {
                        digits_of(s.subrange(j, k))
                    },
                    scale: if dotted {
                        (m - k - 1) as nat
                    } else {
                        0
                    },
                },
                power: power as u64,
                end: e,
            },
        )
    }
}

/// What reading terms from position `i` of `s` to its end gives, `seen`
/// holding the terms read before `i`. Only the term at position 0 may
/// lack its sign. The first place without a term, or the first power
/// that occurs a second time, ends the reading with its error.
pub open spec fn terms_from(s: Seq<char>, i: int, seen: PolynomialModel) -> Result<
    PolynomialModel,
    TermError,
>
    decreases s.len() - i,
    via terms_from_ends
{
    if i >= s.len() {
        Ok(seen)
    } else {
        match term_at(s, i, i != 0) {
            None => Err(
                TermError::Malformed(
                    if i == 0 {
                        TermPosition::First
                    } else {
                        TermPosition::Later
                    },
                ),
            ),
            Some(t) => if seen.contains_key(t.power) {
                Err(TermError::DuplicatePower)
            } else {
                terms_from(s, t.end, seen.insert(t.power, t.coefficient))
            },
        }
    }
}

#[via_fn]
proof fn terms_from_ends(s: Seq<char>, i: int, seen: PolynomialModel) {
    lemma_term_bounds(s, i, i != 0);
}

/// A run of digits ends within the sequence.
pub proof fn lemma_run_bounds(s: Seq<char>, i: int)
    requires
        0 <= i,
    ensures
        i + digit_run(s, i) <= s.len() || digit_run(s, i) == 0,
    decreases s.len() - i,
{
    if 0 <= i < s.len() && is_digit(s[i]) {
        lemma_run_bounds(s, i + 1);
    }
}

/// A term is not empty and ends within the sequence.
pub proof fn lemma_term_bounds(s: Seq<char>, i: int, sign_required: bool)
    ensures
        term_at(s, i, sign_required) matches Some(t) ==> 0 <= i < t.end <= s.len(),
{
    reveal(term_at);
    if term_at(s, i, sign_required) is Some {
        let signed = 0 <= i < s.len() && (s[i] == '+' || s[i] == '-');
        let j = if signed {
            i + 1
        } else {
            i
        };
        let k = j + digit_run(s, j);
        assert(0 <= j);
        let dotted = k < s.len() && s[k] == '.';
        let m = if dotted {
            k + 1 + digit_run(s, k + 1)
        } else {
            k
        };
        lemma_run_bounds(s, m + 3);
    }
}

/// The polynomial that the side `s` writes, or why it writes none. The
/// empty side writes the polynomial without entries.
pub open spec fn terms_of(s: Seq<char>) -> Result<PolynomialModel, TermError> {
    terms_from(s, 0, Map::empty())
}

/// Whether `c` is a decimal digit.
pub fn is_digit_char(c: char) -> (r: bool)
    ensures
        r == is_digit(c),
{
    let u = c as u32;
    48 <= u && u <= 57
}

/// Reads the digits that stand in `s` from `start` on and appends them to
/// `digits`; returns the position behind the last of them.
fn scan_digits(s: &Vec<char>, start: usize, digits: &mut Vec<u8>) -> (end: usize)
    requires
        start <= s.len(),
    ensures
        end == start + digit_run(s@, start as int),
        end <= s.len(),
        final(digits)@ == old(digits)@ + digits_of(s@.subrange(start as int, end as int)),
        all_digits(old(digits)@) ==> all_digits(final(digits)@),
{
    let n = s.len();
    let mut i = start;
    assert(digits@ =~= old(digits)@ + digits_of(s@.subrange(start as int, i as int)));
    while i < n && is_digit_char(s[i])
        invariant
            n == s.len(),
            start <= i <= n,
            digit_run(s@, start as int) == (i - start) + digit_run(s@, i as int),
            digits@ == old(digits)@ + digits_of(s@.subrange(start as int, i as int)),
            all_digits(old(digits)@) ==> all_digits(digits@),
        decreases n - i,
    {
        let d = (s[i] as u32 - 48) as u8;
        digits.push(d);
        i += 1;
        assert(digits@ =~= old(digits)@ + digits_of(s@.subrange(start as int, i as int)));
    }
    i
}

/// Reads the digits that stand in `s` from `start` on as one number; returns
/// the position behind the last of them, and the number if it is below 2^64.
fn scan_power(s: &Vec<char>, start: usize) -> (r: (usize, Option<u64>))
    requires
        start <= s.len(),
    ensures
        r.0 == start + digit_run(s@, start as int),
        r.0 <= s.len(),
        match r.1 {
            Some(p) => p == digits_value(digits_of(s@.subrange(start as int, r.0 as int))),
            None => digits_value(digits_of(s@.subrange(start as int, r.0 as int))) > u64::MAX,
        },
{
    let n = s.len();
    let mut i = start;
    let mut value: Option<u64> = Some(0);
    assert(digits_of(s@.subrange(start as int, i as int)) =~= Seq::<u8>::empty());
    while i < n && is_digit_char(s[i])
        invariant
            n == s.len(),
            start <= i <= n,
            digit_run(s@, start as int) == (i - start) + digit_run(s@, i as int),
            match value {
                Some(p) => p == digits_value(digits_of(s@.subrange(start as int, i as int))),
                None => digits_value(digits_of(s@.subrange(start as int, i as int))) > u64::MAX,
            },
        decreases n - i,
    {
        let d = (s[i] as u32 - 48) as u8;
        proof {
            let before = digits_of(s@.subrange(start as int, i as int));
            assert(digits_of(s@.subrange(start as int, i + 1)) =~= before.push(d));
            lemma_value_push(before, d);
        }
        value = match value {
            Some(p) => {
                if p > (u64::MAX - d as u64) / 10 {
                    None
                } else {
                    Some(p * 10 + d as u64)
                }
            },
            None => None,
        };
        i += 1;
    }
    (i, value)
}

/// Reads the term at position `i` of `s`: its coefficient, its power and
/// the position behind it; `None` where no term stands there.
pub fn scan_term(s: &Vec<char>, i: usize, sign_required: bool) -> (r: Option<(Decimal, u64, usize)>)
    ensures
        match r {
            None => term_at(s@, i as int, sign_required) is None,
            Some((c, p, e)) => term_at(s@, i as int, sign_required) == Some(
                TermMatch { coefficient: c@, power: p, end: e as int },
            ) && i < e <= s.len(),
        },
{
    reveal(term_at);
    let n = s.len();
    if i > n {
        return None;
    }
    let signed = i < n && (s[i] == '+' || s[i] == '-');
    if sign_required && !signed {
        return None;
    }
    let negative = signed && s[i] == '-';
    let j = if signed { i + 1 } else { i };
    let mut digits: Vec<u8> = Vec::new();
    let k = scan_digits(s, j, &mut digits);
    if k == j {
        return None;
    }
    let dotted = k < n && s[k] == '.';
    let ghost whole = digits@;
    let m = if dotted { scan_digits(s, k + 1, &mut digits) } else { k };
    if n - m < 3 {
        return None;
    }
    if s[m] != '*' || s[m + 1] != 'X' || s[m + 2] != '^' {
        return None;
    }
    let q = m + 3;
    let (e, power) = scan_power(s, q);
    if e == q {
        return None;
    }
    match power {
        None => None,
        Some(p) => {
            let scale = if dotted { m - k - 1 } else { 0 };
            assert(whole =~= digits_of(s@.subrange(j as int, k as int)));
            let c = Decimal::new(negative, digits, scale);
            Some((c, p, e))
        },
    }
}

/// Reads one side of an equation, from which all white space has been
/// removed, as a sum of terms. Going from the left, it fails with
/// `Malformed` at the first place before the end of the side where no term
/// stands, and with `DuplicatePower` at the first term whose power has
/// been given a coefficient before.
pub fn extract_coefficients(expression: &str) -> (r: Result<Polynomial, TermError>)
    ensures
        match r {
            Ok(p) => terms_of(expression@) == Ok::<PolynomialModel, TermError>(p@),
            Err(e) => terms_of(expression@) == Err::<PolynomialModel, TermError>(e),
        },
{
    let s = chars_of(expression);
    let n = s.len();
    let mut p = Polynomial::new();
    let mut i: usize = 0;
    while i < n
        invariant
            n == s.len(),
            i <= n,
            s@ == expression@,
            terms_of(s@) == terms_from(s@, i as int, p@),
        decreases n - i,
    {
        match scan_term(&s, i, i != 0) {
            None => {
                if i == 0 {
                    return Err(TermError::Malformed(TermPosition::First));
                } else {
                    return Err(TermError::Malformed(TermPosition::Later));
                }
            },
            Some((coefficient, power, end)) => {
                if !p.insert(power, coefficient) {
                    return Err(TermError::DuplicatePower);
                }
                i = end;
            },
        }
    }
    Ok(p)
}

} // verus!
