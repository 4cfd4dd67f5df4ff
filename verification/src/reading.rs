//! Lemmas on reading terms: what the grammar makes of text that is written
//! term by term.

use vstd::prelude::*;
use crate::decimal::{digit_char, digit_chars, DecimalModel};
use crate::digits::{all_digits, digits_value, lemma_value_push, lemma_value_single};
use crate::error::{TermError, TermPosition};
use crate::format::{power_text, sign_text, term_text, terms_text};
use crate::parser::{
    digit_run, digits_of, is_digit, lemma_run_bounds, lemma_term_bounds, term_at, terms_from,
    terms_of, TermMatch,
};
use crate::polynomial::{polynomial_wf, PolynomialModel};
use crate::text::{is_whitespace, visible, without_whitespace};

verus! {

/// A run of digits is as long as the block of digits that it starts.
pub proof fn lemma_run_of_block(s: Seq<char>, j: int, n: nat)
    requires
        0 <= j,
        j + n <= s.len(),
        forall|t: int| j <= t < j + n ==> is_digit(#[trigger] s[t]),
        j + n == s.len() || !is_digit(s[j + n]),
    ensures
        digit_run(s, j) == n,
    decreases n,
{
    if n > 0 {
        lemma_run_of_block(s, j + 1, (n - 1) as nat);
    }
}

/// Every character of a run of digits is a digit.
pub proof fn lemma_run_is_digits(s: Seq<char>, j: int, t: int)
    requires
        0 <= j <= t < j + digit_run(s, j),
    ensures
        t < s.len(),
        is_digit(s[t]),
    decreases t - j,
{
    if t > j {
        lemma_run_is_digits(s, j + 1, t);
    }
}

/// What follows a sequence does not change its runs of digits, unless it
/// starts with a digit itself.
pub proof fn lemma_run_stable(s: Seq<char>, x: Seq<char>, j: int)
    requires
        0 <= j <= s.len(),
        x.len() == 0 || !is_digit(x[0]),
    ensures
        digit_run(s + x, j) == digit_run(s, j),
    decreases s.len() - j,
{
    if j < s.len() {
        assert((s + x)[j] == s[j]);
        if is_digit(s[j]) {
            lemma_run_stable(s, x, j + 1);
        }
    } else if x.len() > 0 {
        assert((s + x)[j] == x[0]);
    }
}

/// What follows a sequence does not change the terms that stand in it,
/// unless it starts with a digit.
pub proof fn lemma_term_stable(s: Seq<char>, x: Seq<char>, i: int, sign_required: bool)
    requires
        term_at(s, i, sign_required) is Some,
        x.len() == 0 || !is_digit(x[0]),
    ensures
        term_at(s + x, i, sign_required) == term_at(s, i, sign_required),
{
    reveal(term_at);
    let f = s + x;
    lemma_term_bounds(s, i, sign_required);
    assert(forall|t: int| 0 <= t < s.len() ==> f[t] == s[t]);
    let signed = 0 <= i < s.len() && (s[i] == '+' || s[i] == '-');
    let j = if signed {
        i + 1
    } else {
        i
    };
    lemma_run_stable(s, x, j);
    lemma_run_bounds(s, j);
    let k = j + digit_run(s, j);
    let dotted = k < s.len() && s[k] == '.';
    assert(k < s.len());
    if dotted {
        lemma_run_stable(s, x, k + 1);
        lemma_run_bounds(s, k + 1);
    }
    let m = if dotted {
        k + 1 + digit_run(s, k + 1)
    } else {
        k
    };
    let q = m + 3;
    lemma_run_stable(s, x, q);
    lemma_run_bounds(s, q);
    let e = q + digit_run(s, q);
    assert(f.subrange(q, e) =~= s.subrange(q, e));
    assert(f.subrange(j, k) =~= s.subrange(j, k));
    if dotted {
        assert(f.subrange(k + 1, m) =~= s.subrange(k + 1, m));
    }
}

/// Terms that are read to the end of a sequence are read in the same way
/// when more follows that does not start with a digit.
pub proof fn lemma_terms_stable(
    s: Seq<char>,
    x: Seq<char>,
    i: int,
    seen: PolynomialModel,
    read: PolynomialModel,
)
    requires
        0 <= i <= s.len(),
        terms_from(s, i, seen) == Ok::<PolynomialModel, TermError>(read),
        x.len() == 0 || !is_digit(x[0]),
    ensures
        terms_from(s + x, i, seen) == terms_from(s + x, s.len() as int, read),
    decreases s.len() - i,
{
    if i < s.len() {
        let t = term_at(s, i, i != 0)->Some_0;
        lemma_term_stable(s, x, i, i != 0);
        lemma_term_bounds(s, i, i != 0);
        lemma_terms_stable(s, x, t.end, seen.insert(t.power, t.coefficient), read);
    }
}

/// The characters of digits are digits, and write those digits.
pub proof fn lemma_digit_chars(ds: Seq<u8>)
    requires
        all_digits(ds),
    ensures
        digit_chars(ds).len() == ds.len(),
        forall|t: int| 0 <= t < ds.len() ==> is_digit(#[trigger] digit_chars(ds)[t]),
        digits_of(digit_chars(ds)) == ds,
{
    assert forall|t: int| 0 <= t < ds.len() implies is_digit(#[trigger] digit_chars(ds)[t]) by {
        assert(ds[t] <= 9);
    }
    assert forall|t: int| 0 <= t < ds.len() implies digits_of(digit_chars(ds))[t] == ds[t] by {
        assert(ds[t] <= 9);
    }
    assert(digits_of(digit_chars(ds)) =~= ds);
}

/// The numeral of a power consists of digits and writes that power.
pub proof fn lemma_power_text(n: nat)
    ensures
        power_text(n).len() > 0,
        forall|t: int| 0 <= t < power_text(n).len() ==> is_digit(#[trigger] power_text(n)[t]),
        digits_value(digits_of(power_text(n))) == n,
    decreases n,
{
    let d = (n % 10) as u8;
    if n < 10 {
        assert(digits_of(power_text(n)) =~= seq![d]);
        lemma_value_single(d);
    } else {
        lemma_power_text(n / 10);
        let before = power_text(n / 10);
        assert(digits_of(before.push(digit_char(d))) =~= digits_of(before).push(d));
        lemma_value_push(digits_of(before), d);
    }
}

/// A term is read from a sequence that holds, in this order: a sign where
/// `signed` says so, the digits `whole`, a point and the digits `part` where
/// `dotted` says so, the characters `*X^`, and the digits `numeral`, behind
/// which the sequence ends.
pub proof fn lemma_term_from_layout(
    f: Seq<char>,
    i: int,
    sign_required: bool,
    signed: bool,
    negative: bool,
    whole: Seq<char>,
    dotted: bool,
    part: Seq<char>,
    numeral: Seq<char>,
)
    requires
        0 <= i,
        sign_required ==> signed,
        negative ==> signed,
        signed ==> i < f.len() && f[i] == (if negative {
            '-'
        } else {
            '+'
        }),
        whole.len() > 0,
        numeral.len() > 0,
        !dotted ==> part.len() == 0,
        forall|t: int| 0 <= t < whole.len() ==> is_digit(#[trigger] whole[t]),
        forall|t: int| 0 <= t < part.len() ==> is_digit(#[trigger] part[t]),
        forall|t: int| 0 <= t < numeral.len() ==> is_digit(#[trigger] numeral[t]),
        digits_value(digits_of(numeral)) <= u64::MAX,
        ({
            let j = if signed {
                i + 1
            } else {
                i
            };
            let k = j + whole.len();
            let m = if dotted {
                k + 1 + part.len()
            } else {
                k
            };
            &&& f.len() == m + 3 + numeral.len()
            &&& f.subrange(j, k) == whole
            &&& dotted ==> f[k] == '.' && f.subrange(k + 1, m) == part
            &&& f[m] == '*'
            &&& f[m + 1] == 'X'
            &&& f[m + 2] == '^'
            &&& f.subrange(m + 3, f.len() as int) == numeral
        }),
    ensures
        term_at(f, i, sign_required) == Some(
            TermMatch {
                coefficient: DecimalModel {
                    negative,
                    digits: digits_of(whole) + digits_of(part),
                    scale: part.len(),
                },
                power: digits_value(digits_of(numeral)) as u64,
                end: f.len() as int,
            },
        ),
{
    reveal(term_at);
    let j = if signed {
        i + 1
    } else {
        i
    };
    let k = j + whole.len();
    let m = if dotted {
        k + 1 + part.len()
    } else {
        k
    };
    let q = m + 3;
    assert forall|t: int| j <= t < k implies is_digit(#[trigger] f[t]) by {
        assert(f[t] == f.subrange(j, k)[t - j]);
    }
    assert(is_digit(f[j]));
    assert(!signed ==> !(f[i] == '+' || f[i] == '-'));
    lemma_run_of_block(f, j, whole.len());
    if dotted {
        assert forall|t: int| k + 1 <= t < m implies is_digit(#[trigger] f[t]) by {
            assert(f[t] == f.subrange(k + 1, m)[t - k - 1]);
        }
        lemma_run_of_block(f, k + 1, part.len());
    } else {
        assert(digits_of(whole) + digits_of(part) =~= digits_of(whole));
    }
    assert forall|t: int| q <= t < f.len() implies is_digit(#[trigger] f[t]) by {
        assert(f[t] == f.subrange(q, f.len() as int)[t - q]);
    }
    lemma_run_of_block(f, q, numeral.len());
}

/// The middle one of three sequences written in a row.
pub proof fn lemma_middle(a: Seq<char>, b: Seq<char>, c: Seq<char>)
    ensures
        (a + b + c).len() == a.len() + b.len() + c.len(),
        (a + b + c).subrange(a.len() as int, (a.len() + b.len()) as int) == b,
{
    assert((a + b + c).subrange(a.len() as int, (a.len() + b.len()) as int) =~= b);
}

/// The text of a term, laid out in its parts.
pub open spec fn term_parts(
    whole: Seq<char>,
    dotted: bool,
    part: Seq<char>,
    numeral: Seq<char>,
) -> Seq<char> {
    whole + (if dotted {
        seq!['.'] + part
    } else {
        Seq::empty()
    }) + seq!['*', 'X', '^'] + numeral
}

/// A term is read from the end of a sequence that holds its parts there.
pub proof fn lemma_term_from_parts(
    before: Seq<char>,
    sign: Seq<char>,
    whole: Seq<char>,
    dotted: bool,
    part: Seq<char>,
    numeral: Seq<char>,
)
    requires
        sign.len() == 0 || sign == seq!['+'] || sign == seq!['-'],
        before.len() > 0 ==> sign.len() == 1,
        whole.len() > 0,
        numeral.len() > 0,
        !dotted ==> part.len() == 0,
        forall|t: int| 0 <= t < whole.len() ==> is_digit(#[trigger] whole[t]),
        forall|t: int| 0 <= t < part.len() ==> is_digit(#[trigger] part[t]),
        forall|t: int| 0 <= t < numeral.len() ==> is_digit(#[trigger] numeral[t]),
        digits_value(digits_of(numeral)) <= u64::MAX,
    ensures
        term_at(
            before + sign + term_parts(whole, dotted, part, numeral),
            before.len() as int,
            before.len() != 0,
        ) == Some(
            TermMatch {
                coefficient: DecimalModel {
                    negative: sign == seq!['-'],
                    digits: digits_of(whole) + digits_of(part),
                    scale: part.len(),
                },
                power: digits_value(digits_of(numeral)) as u64,
                end: (before + sign + term_parts(whole, dotted, part, numeral)).len() as int,
            },
        ),
{
    let f = before + sign + term_parts(whole, dotted, part, numeral);
    let point = if dotted {
        seq!['.'] + part
    } else {
        Seq::<char>::empty()
    };
    let star = seq!['*', 'X', '^'];
    let i = before.len() as int;
    let j = i + sign.len();
    let k = j + whole.len();
    let m = k + point.len();
    assert(f.len() == m + 3 + numeral.len() && f.subrange(j, k) == whole) by {
        assert(f =~= (before + sign) + whole + (point + star + numeral));
        lemma_middle(before + sign, whole, point + star + numeral);
    }
    assert(dotted ==> f[k] == '.' && f.subrange(k + 1, m) == part) by {
        if dotted {
            assert(f =~= (before + sign + whole + seq!['.']) + part + (star + numeral));
            lemma_middle(before + sign + whole + seq!['.'], part, star + numeral);
            assert(f =~= (before + sign + whole) + seq!['.'] + (part + star + numeral));
            lemma_middle(before + sign + whole, seq!['.'], part + star + numeral);
            assert(f[k] == f.subrange(k, k + 1)[0]);
        }
    }
    assert(f[m] == '*' && f[m + 1] == 'X' && f[m + 2] == '^') by {
        assert(f =~= (before + sign + whole + point) + star + numeral);
        lemma_middle(before + sign + whole + point, star, numeral);
        assert(f[m] == f.subrange(m, m + 3)[0]);
        assert(f[m + 1] == f.subrange(m, m + 3)[1]);
        assert(f[m + 2] == f.subrange(m, m + 3)[2]);
    }
    assert(f.subrange(m + 3, f.len() as int) == numeral) by {
        assert(f =~= (before + sign + whole + point + star) + numeral + Seq::<char>::empty());
        lemma_middle(before + sign + whole + point + star, numeral, Seq::<char>::empty());
    }
    assert(sign.len() == 1 ==> f[i] == sign[0]) by {
        if sign.len() == 1 {
            assert(f =~= before + sign + term_parts(whole, dotted, part, numeral));
            lemma_middle(before, sign, term_parts(whole, dotted, part, numeral));
            assert(f[i] == f.subrange(i, i + 1)[0]);
        }
    }
    lemma_term_from_layout(
        f,
        i,
        before.len() != 0,
        sign.len() == 1,
        sign == seq!['-'],
        whole,
        dotted,
        part,
        numeral,
    );
}

/// A term that is written at the end of a sequence, behind a sign
/// wherever it is not the first term, is read back as it was written.
pub proof fn lemma_term_read_back(s: Seq<char>, sign: Seq<char>, c: DecimalModel, power: u64)
    requires
        c.wf(),
        sign.len() == 0 || sign == seq!['+'] || sign == seq!['-'],
        s.len() > 0 ==> sign.len() == 1,
    ensures
        term_at(s + sign + term_text(c, power), s.len() as int, s.len() != 0) == Some(
            TermMatch {
                coefficient: DecimalModel {
                    negative: sign == seq!['-'],
                    digits: c.digits,
                    scale: c.scale,
                },
                power,
                end: (s + sign + term_text(c, power)).len() as int,
            },
        ),
{
    let whole_len = (c.digits.len() - c.scale) as int;
    let whole = c.digits.take(whole_len);
    let part = c.digits.skip(whole_len);
    let numeral = power_text(power as nat);
    let dotted = c.scale > 0;
    lemma_digit_chars(whole);
    lemma_digit_chars(part);
    lemma_power_text(power as nat);
    assert(term_text(c, power) == term_parts(
        digit_chars(whole),
        dotted,
        digit_chars(part),
        numeral,
    )) by {
        if dotted {
        } else {
            assert(whole =~= c.digits);
            assert(digit_chars(whole) + Seq::<char>::empty() =~= digit_chars(whole));
        }
    }
    assert(c.digits =~= whole + part);
    lemma_term_from_parts(s, sign, digit_chars(whole), dotted, digit_chars(part), numeral);
}

/// Removing white space from two sequences in a row is removing it from
/// each.
pub proof fn lemma_without_whitespace_concat(a: Seq<char>, b: Seq<char>)
    ensures
        without_whitespace(a + b) == without_whitespace(a) + without_whitespace(b),
{
    Seq::<char>::filter_distributes_over_add(a, b, visible());
}

/// A sequence without white space stays as it is.
pub proof fn lemma_without_whitespace_same(s: Seq<char>)
    requires
        forall|t: int| 0 <= t < s.len() ==> !is_whitespace(#[trigger] s[t]),
    ensures
        without_whitespace(s) == s,
    decreases s.len(),
{
    reveal(Seq::filter);
    if s.len() > 0 {
        lemma_without_whitespace_same(s.drop_last());
        assert(s =~= s.drop_last().push(s.last()));
    }
}

/// The text of a term holds no white space and is not empty.
pub proof fn lemma_term_text_compact(c: DecimalModel, power: u64)
    requires
        c.wf(),
    ensures
        without_whitespace(term_text(c, power)) == term_text(c, power),
        term_text(c, power).len() > 0,
{
    let whole_len = (c.digits.len() - c.scale) as int;
    let whole = c.digits.take(whole_len);
    let part = c.digits.skip(whole_len);
    lemma_digit_chars(c.digits);
    lemma_digit_chars(whole);
    lemma_digit_chars(part);
    lemma_power_text(power as nat);
    let numeral = power_text(power as nat);
    let text = term_text(c, power);
    let head = c.unsigned_text();
    assert forall|t: int| 0 <= t < head.len() implies !is_whitespace(#[trigger] head[t]) by {
        if c.scale == 0 {
            assert(is_digit(digit_chars(c.digits)[t]));
        } else if t < whole_len {
            assert(head[t] == digit_chars(whole)[t]);
            assert(is_digit(digit_chars(whole)[t]));
        } else if t > whole_len {
            assert(head[t] == digit_chars(part)[t - whole_len - 1]);
            assert(is_digit(digit_chars(part)[t - whole_len - 1]));
        } else {
            assert(head[t] == '.');
        }
    }
    assert forall|t: int| 0 <= t < text.len() implies !is_whitespace(#[trigger] text[t]) by {
        if t < head.len() {
            assert(text[t] == head[t]);
        } else if t >= head.len() + 3 {
            assert(text[t] == numeral[t - head.len() - 3]);
            assert(is_digit(numeral[t - head.len() - 3]));
        } else {
            assert(text[t] == seq!['*', 'X', '^'][t - head.len()]);
        }
    }
    lemma_without_whitespace_same(text);
}

/// Without its white space, what stands before a term is at most its sign.
pub proof fn lemma_sign_text_compact(first: bool, negative: bool)
    ensures
        without_whitespace(sign_text(first, negative)) == if negative {
            seq!['-']
        } else if first {
            Seq::<char>::empty()
        } else {
            seq!['+']
        },
{
    reveal_with_fuel(Seq::filter, 4);
    let t = sign_text(first, negative);
    if first {
        if negative {
            assert(t.drop_last() =~= seq!['-']);
            assert(t.drop_last().drop_last() =~= Seq::<char>::empty());
            assert(without_whitespace(t) =~= seq!['-']);
        } else {
            assert(without_whitespace(t) =~= Seq::<char>::empty());
        }
    } else {
        let mid = if negative {
            '-'
        } else {
            '+'
        };
        assert(t.drop_last() =~= seq![' ', mid]);
        assert(t.drop_last().drop_last() =~= seq![' ']);
        assert(t.drop_last().drop_last().drop_last() =~= Seq::<char>::empty());
        assert(without_whitespace(t) =~= seq![mid]);
    }
}

/// A term that is written behind a side, with a sign wherever the side
/// is not empty, is read as one more term of the side.
pub proof fn lemma_append_term(
    s: Seq<char>,
    read: PolynomialModel,
    sign: Seq<char>,
    c: DecimalModel,
    power: u64,
)
    requires
        c.wf(),
        !read.contains_key(power),
        terms_of(s) == Ok::<PolynomialModel, TermError>(read),
        sign.len() == 0 || sign == seq!['+'] || sign == seq!['-'],
        s.len() > 0 ==> sign.len() == 1,
    ensures
        terms_of(s + sign + term_text(c, power)) == Ok::<PolynomialModel, TermError>(
            read.insert(
                power,
                DecimalModel { negative: sign == seq!['-'], digits: c.digits, scale: c.scale },
            ),
        ),
{
    let term = term_text(c, power);
    let f = s + sign + term;
    let x = sign + term;
    let i = s.len() as int;
    let entry = DecimalModel { negative: sign == seq!['-'], digits: c.digits, scale: c.scale };
    assert(f =~= s + x);
    assert(terms_from(f, 0, Map::empty()) == terms_from(f, i, read)) by {
        if s.len() == 0 {
            assert(read == Map::<u64, DecimalModel>::empty());
        } else {
            assert(x[0] == sign[0]);
            lemma_terms_stable(s, x, 0, Map::empty(), read);
        }
    }
    lemma_term_read_back(s, sign, c, power);
    let t = TermMatch { coefficient: entry, power, end: f.len() as int };
    assert(term_at(f, i, i != 0) == Some(t));
    assert(i < f.len()) by {
        lemma_term_bounds(f, i, i != 0);
    }
    assert(terms_from(f, f.len() as int, read.insert(power, entry)) == Ok::<
        PolynomialModel,
        TermError,
    >(read.insert(power, entry)));
    assert(terms_from(f, i, read) == terms_from(f, t.end, read.insert(t.power, t.coefficient)));
}

/// No character of a term is `=`.
pub proof fn lemma_term_has_no_separator(s: Seq<char>, i: int, sign_required: bool, at: int)
    requires
        term_at(s, i, sign_required) is Some,
        i <= at < term_at(s, i, sign_required)->Some_0.end,
    ensures
        0 <= at < s.len(),
        s[at] != '=',
{
    reveal(term_at);
    lemma_term_bounds(s, i, sign_required);
    let signed = 0 <= i < s.len() && (s[i] == '+' || s[i] == '-');
    let j = if signed {
        i + 1
    } else {
        i
    };
    let k = j + digit_run(s, j);
    let dotted = k < s.len() && s[k] == '.';
    let m = if dotted {
        k + 1 + digit_run(s, k + 1)
    } else {
        k
    };
    let q = m + 3;
    if j <= at < k {
        lemma_run_is_digits(s, j, at);
    } else if dotted && k < at < m {
        lemma_run_is_digits(s, k + 1, at);
    } else if q <= at {
        lemma_run_is_digits(s, q, at);
    }
}

/// A side that is a sum of terms holds no `=`.
pub proof fn lemma_terms_have_no_separator(s: Seq<char>, i: int, seen: PolynomialModel)
    requires
        0 <= i,
        terms_from(s, i, seen) is Ok,
    ensures
        forall|at: int| i <= at < s.len() ==> s[at] != '=',
    decreases s.len() - i,
{
    if i < s.len() {
        let t = term_at(s, i, i != 0)->Some_0;
        lemma_term_bounds(s, i, i != 0);
        lemma_terms_have_no_separator(s, t.end, seen.insert(t.power, t.coefficient));
        assert forall|at: int| i <= at < s.len() implies s[at] != '=' by {
            if at < t.end {
                lemma_term_has_no_separator(s, i, i != 0, at);
            }
        }
    }
}

/// Without its white space, the end of a canonical form is `=0`.
pub proof fn lemma_end_compact()
    ensures
        without_whitespace(seq![' ', '=', ' ', '0']) == seq!['=', '0'],
{
    reveal_with_fuel(Seq::filter, 5);
    let end = seq![' ', '=', ' ', '0'];
    assert(end.drop_last() =~= seq![' ', '=', ' ']);
    assert(end.drop_last().drop_last() =~= seq![' ', '=']);
    assert(end.drop_last().drop_last().drop_last() =~= seq![' ']);
    assert(end.drop_last().drop_last().drop_last().drop_last() =~= Seq::<char>::empty());
    assert(without_whitespace(end) =~= seq!['=', '0']);
}

/// The side `0` is a number and no term.
pub proof fn lemma_zero_is_no_term()
    ensures
        terms_of(seq!['0']) == Err::<PolynomialModel, TermError>(
            TermError::Malformed(TermPosition::First),
        ),
{
    let s = seq!['0'];
    assert(term_at(s, 0, false) is None) by {
        reveal(term_at);
        reveal_with_fuel(digit_run, 3);
        assert(digit_run(s, 0) == 1);
    }
}

/// The entries of `p` with a power below `bound`.
pub open spec fn below(p: PolynomialModel, bound: nat) -> PolynomialModel {
    Map::new(|k: u64| p.contains_key(k) && k < bound, |k: u64| p[k])
}

/// One more term behind text that is read back is read back as well.
pub proof fn lemma_read_back_step(
    before: Seq<char>,
    read: PolynomialModel,
    c: DecimalModel,
    power: u64,
)
    requires
        c.wf(),
        !read.contains_key(power),
        terms_of(without_whitespace(before)) == Ok::<PolynomialModel, TermError>(read),
        before.len() == 0 <==> without_whitespace(before).len() == 0,
    ensures
        ({
            let text = before + sign_text(before.len() == 0, c.negative) + term_text(c, power);
            &&& terms_of(without_whitespace(text)) == Ok::<PolynomialModel, TermError>(
                read.insert(power, c),
            )
            &&& without_whitespace(text).len() > 0
        }),
{
    let first = before.len() == 0;
    let joint = sign_text(first, c.negative);
    let term = term_text(c, power);
    let s = without_whitespace(before);
    let sign = without_whitespace(joint);
    assert(without_whitespace(before + joint + term) == s + sign + term) by {
        lemma_without_whitespace_concat(before + joint, term);
        lemma_without_whitespace_concat(before, joint);
        lemma_term_text_compact(c, power);
    }
    lemma_term_text_compact(c, power);
    lemma_sign_text_compact(first, c.negative);
    lemma_append_term(s, read, sign, c, power);
    assert(c == DecimalModel { negative: sign == seq!['-'], digits: c.digits, scale: c.scale }) by {
        if c.negative {
            assert(sign[0] == '-');
        } else if !first {
            assert(sign[0] == '+');
        }
    }
}

/// Reading the text of the terms below a bound gives those terms back.
pub proof fn lemma_read_back_below(p: PolynomialModel, bound: nat)
    requires
        polynomial_wf(p),
    ensures
        terms_of(without_whitespace(terms_text(p, bound))) == Ok::<PolynomialModel, TermError>(
            below(p, bound),
        ),
        terms_text(p, bound).len() == 0 <==> without_whitespace(terms_text(p, bound)).len() == 0,
    decreases bound,
{
    if bound == 0 {
        assert(below(p, bound) =~= Map::empty());
        assert(without_whitespace(Seq::<char>::empty()) =~= Seq::<char>::empty()) by {
            reveal(Seq::filter);
        }
    } else {
        let k = (bound - 1) as nat;
        lemma_read_back_below(p, k);
        if k <= u64::MAX && p.contains_key(k as u64) {
            lemma_read_back_step(terms_text(p, k), below(p, k), p[k as u64], k as u64);
            assert(below(p, k).insert(k as u64, p[k as u64]) =~= below(p, bound));
            lemma_term_text_compact(p[k as u64], k as u64);
        } else {
            assert(below(p, bound) =~= below(p, k));
        }
    }
}

} // verus!
