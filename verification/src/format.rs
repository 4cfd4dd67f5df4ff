//! The canonical form of an equation as text.

use vstd::prelude::*;
use crate::decimal::{digit_char, digit_to_char, Decimal, DecimalModel};
use crate::polynomial::{lists_powers, Polynomial, PolynomialModel};
use crate::text::string_of;

verus! {

/// The decimal numeral of `n`, without leading zeros.
pub open spec fn power_text(n: nat) -> Seq<char>
    decreases n,
{
    if n < 10 {
        seq![digit_char(n as u8)]
    } else {
        power_text(n / 10).push(digit_char((n % 10) as u8))
    }
}

/// One term: the coefficient without its sign, `*X^`, and the power.
pub open spec fn term_text(c: DecimalModel, power: u64) -> Seq<char> {
    c.unsigned_text() + seq!['*', 'X', '^'] + power_text(power as nat)
}

/// What stands before a term: its sign, set off by spaces, but nothing
/// before a first term that is not negative.
pub open spec fn sign_text(first: bool, negative: bool) -> Seq<char> {
    if first {
        if negative {
            seq!['-', ' ']
        } else {
            Seq::empty()
        }
    } else if negative {
        seq![' ', '-', ' ']
    } else {
        seq![' ', '+', ' ']
    }
}

/// The terms of `p` with a power below `bound`, in ascending order of
/// their powers.
pub open spec fn terms_text(p: PolynomialModel, bound: nat) -> Seq<char>
    decreases bound,
{
    if bound == 0 {
        Seq::empty()
    } else {
        let k = (bound - 1) as nat;
        let before = terms_text(p, k);
        if k <= u64::MAX && p.contains_key(k as u64) {
            before + sign_text(before.len() == 0, p[k as u64].negative) + term_text(
                p[k as u64],
                k as u64,
            )
        } else {
            before
        }
    }
}

/// All terms of `p`, in ascending order of their powers.
pub open spec fn polynomial_text(p: PolynomialModel) -> Seq<char> {
    terms_text(p, 0x1_0000_0000_0000_0000)
}

/// The canonical form of the equation `p = 0`.
pub open spec fn reduced_text(p: PolynomialModel) -> Seq<char> {
    polynomial_text(p) + seq![' ', '=', ' ', '0']
}

/// Powers without an entry add nothing to the text.
pub proof fn lemma_terms_text_gap(p: PolynomialModel, low: nat, high: nat)
    requires
        low <= high,
        forall|k: u64| low <= k < high ==> !p.contains_key(k),
    ensures
        terms_text(p, high) == terms_text(p, low),
    decreases high - low,
{
    if low < high {
        lemma_terms_text_gap(p, low, (high - 1) as nat);
        let k = (high - 1) as nat;
        if k <= u64::MAX {
            assert(!p.contains_key(k as u64));
        }
    }
}

/// Appends the characters of `more` to `out`.
fn append_chars(out: &mut Vec<char>, more: &Vec<char>)
    ensures
        final(out)@ == old(out)@ + more@,
{
    let n = more.len();
    let mut i: usize = 0;
    assert(out@ =~= old(out)@ + more@.take(0));
    while i < n
        invariant
            n == more.len(),
            i <= n,
            out@ == old(out)@ + more@.take(i as int),
        decreases n - i,
    {
        out.push(more[i]);
        i += 1;
        assert(out@ =~= old(out)@ + more@.take(i as int));
    }
    assert(more@.take(n as int) =~= more@);
}

/// Appends the decimal numeral of `n` to `out`.
fn append_power(out: &mut Vec<char>, n: u64)
    ensures
        final(out)@ == old(out)@ + power_text(n as nat),
    decreases n,
{
    if n >= 10 {
        append_power(out, n / 10);
    }
    out.push(digit_to_char((n % 10) as u8));
    assert(out@ =~= old(out)@ + power_text(n as nat));
}

impl Decimal {
    /// The numeral as text: `-` if it is negative, the digits of the integer
    /// part and, if there are fractional digits, a point and those digits.
    pub fn to_text(&self) -> (s: String)
        ensures
            s@ == self@.text(),
    {
        let mut out: Vec<char> = Vec::new();
        if self.is_negative() {
            out.push('-');
        }
        append_chars(&mut out, &self.unsigned_chars());
        assert(out@ =~= self@.text());
        string_of(&out)
    }
}

/// The characters of all terms of `p`, in ascending order of their powers.
pub fn polynomial_chars(p: &Polynomial) -> (out: Vec<char>)
    ensures
        out@ == polynomial_text(p@),
{
    let powers = p.powers();
    let n = powers.len();
    let mut out: Vec<char> = Vec::new();
    let mut i: usize = 0;
    let ghost mut bound: nat = 0;
    while i < n
        invariant
            n == powers.len(),
            i <= n,
            lists_powers(powers@, p@),
            bound == if i == 0 {
                0
            } else {
                powers[i - 1] + 1
            },
            out@ == terms_text(p@, bound),
        decreases n - i,
    {
        let k = powers[i];
        proof {
            assert(powers@.contains(k));
            assert forall|q: u64| bound <= q < k implies !p@.contains_key(q) by {
                if p@.contains_key(q) {
                    assert(powers@.contains(q));
                    let j = choose|j: int| 0 <= j < powers@.len() && powers@[j] == q;
                    if j < i {
                        assert(j < i - 1 ==> powers@[j] < powers@[i - 1]);
                    } else {
                        assert(i < j ==> powers@[i as int] < powers@[j]);
                    }
                }
            }
            if i > 0 {
                assert(powers@[i - 1] < powers@[i as int]);
            }
            lemma_terms_text_gap(p@, bound, k as nat);
        }
        match p.coefficient(k) {
            Some(c) => {
                let ghost before = out@;
                if out.len() == 0 {
                    if c.is_negative() {
                        out.push('-');
                        out.push(' ');
                    }
                } else {
                    out.push(' ');
                    if c.is_negative() {
                        out.push('-');
                    } else {
                        out.push('+');
                    }
                    out.push(' ');
                }
                assert(out@ =~= before + sign_text(before.len() == 0, c@.negative));
                append_chars(&mut out, &c.unsigned_chars());
                out.push('*');
                out.push('X');
                out.push('^');
                append_power(&mut out, k);
                assert(out@ =~= before + sign_text(before.len() == 0, c@.negative) + term_text(
                    c@,
                    k,
                ));
            },
            None => {},
        }
        proof {
            bound = (k + 1) as nat;
        }
        i += 1;
    }
    proof {
        assert forall|q: u64| bound <= q < 0x1_0000_0000_0000_0000 implies !p@.contains_key(q) by {
            if p@.contains_key(q) {
                assert(powers@.contains(q));
                let j = choose|j: int| 0 <= j < powers@.len() && powers@[j] == q;
                assert(j < n - 1 ==> powers@[j] < powers@[n - 1]);
            }
        }
        lemma_terms_text_gap(p@, bound, 0x1_0000_0000_0000_0000);
    }
    out
}

/// The canonical form of the equation `p = 0`: the terms in ascending order
/// of their powers, each sign set off by spaces, then ` = 0`.
pub fn reduced_form(p: &Polynomial) -> (s: String)
    ensures
        s@ == reduced_text(p@),
{
    let mut out = polynomial_chars(p);
    out.push(' ');
    out.push('=');
    out.push(' ');
    out.push('0');
    assert(out@ =~= reduced_text(p@));
    string_of(&out)
}

} // verus!
