//! Exact signed decimal numerals of any length, and their difference.

use vstd::prelude::*;
use crate::digits::{
    all_digits, digits_value, lemma_pow10_monotonic, lemma_pow10_positive, lemma_value_bound,
    lemma_value_concat, lemma_value_injective, lemma_value_leading, lemma_value_push, pow10,
};
use crate::magnitude::{
    difference_aligned, lemma_padded_value, order_aligned, padded, sum_aligned, trimmed,
};
use crate::roots::Sign;

verus! {

/// The character that writes the digit `d`.
pub open spec fn digit_char(d: u8) -> char {
    (d + 48) as char
}

/// The characters that write the digits of `s`, in order.
pub open spec fn digit_chars(s: Seq<u8>) -> Seq<char> {
    s.map_values(|d: u8| digit_char(d))
}

/// The larger of two naturals.
pub open spec fn larger(a: nat, b: nat) -> nat {
    if a >= b {
        a
    } else {
        b
    }
}

/// A signed decimal numeral: the digits of its magnitude, most significant
/// first, the last `scale` of them behind the decimal point. It stands for
/// the real number `mantissa() / 10^scale`.
pub struct DecimalModel {
    pub negative: bool,
    pub digits: Seq<u8>,
    pub scale: nat,
}

impl DecimalModel {
    /// Only digits, and at least one of them before the decimal point.
    pub open spec fn wf(self) -> bool {
        all_digits(self.digits) && self.digits.len() > self.scale
    }

    /// The digits read as one natural number.
    pub open spec fn magnitude(self) -> nat {
        digits_value(self.digits)
    }

    /// The magnitude with the sign applied.
    pub open spec fn mantissa(self) -> int {
        if self.negative {
            -(self.magnitude() as int)
        } else {
            self.magnitude() as int
        }
    }

    /// The mantissa that the same number has at the scale `s`, which is at
    /// least the numeral's own.
    pub open spec fn scaled(self, s: nat) -> int {
        self.mantissa() * pow10((s - self.scale) as nat)
    }

    /// No zero stands before the first digit of the integer part
    /// unless it is that part's only digit.
    pub open spec fn is_trimmed(self) -> bool {
        self.digits.len() == self.scale + 1 || self.digits[0] != 0
    }

    /// The same numeral with the opposite sign.
    pub open spec fn negated(self) -> DecimalModel {
        DecimalModel { negative: !self.negative, digits: self.digits, scale: self.scale }
    }

    /// The numeral without its sign: the integer digits, then, if there are
    /// fractional digits, a point and those digits.
    pub open spec fn unsigned_text(self) -> Seq<char> {
        let whole = self.digits.len() - self.scale;
        if self.scale == 0 {
            digit_chars(self.digits)
        } else {
            digit_chars(self.digits.take(whole)) + seq!['.'] + digit_chars(self.digits.skip(whole))
        }
    }

    /// The numeral as text, with `-` in front if it is negative.
    pub open spec fn text(self) -> Seq<char> {
        if self.negative {
            seq!['-'] + self.unsigned_text()
        } else {
            self.unsigned_text()
        }
    }
}

/// The numeral `0`.
pub open spec fn zero_model() -> DecimalModel {
    DecimalModel { negative: false, digits: seq![0u8], scale: 0 }
}

/// `r` is the numeral of `a − b`: exact, at the larger of the two scales,
/// without superfluous leading zeros. A zero result is negative only for a
/// negative zero less a non-negative zero.
pub open spec fn is_difference(r: DecimalModel, a: DecimalModel, b: DecimalModel) -> bool {
    let s = larger(a.scale, b.scale);
    &&& r.wf()
    &&& r.is_trimmed()
    &&& r.scale == s
    &&& r.mantissa() == a.scaled(s) - b.scaled(s)
    &&& r.negative == (r.mantissa() < 0 || (r.mantissa() == 0 && a.negative && !b.negative))
}

/// A numeral is the difference of two others if, at the larger of their
/// scales, its sign and magnitude are those of the difference of their
/// mantissas `x` and `y`, taken by magnitude and sign.
pub proof fn lemma_difference(r: DecimalModel, a: DecimalModel, b: DecimalModel, x: nat, y: nat)
    requires
        r.wf(),
        r.is_trimmed(),
        r.scale == larger(a.scale, b.scale),
        x == a.magnitude() * pow10((r.scale - a.scale) as nat),
        y == b.magnitude() * pow10((r.scale - b.scale) as nat),
        a.negative != b.negative ==> r.negative == a.negative && r.magnitude() == x + y,
        a.negative == b.negative && x == y ==> !r.negative && r.magnitude() == 0,
        a.negative == b.negative && x > y ==> r.negative == a.negative && r.magnitude() == x - y,
        a.negative == b.negative && x < y ==> r.negative != a.negative && r.magnitude() == y - x,
    ensures
        is_difference(r, a, b),
{
    let s = r.scale;
    let pa = pow10((s - a.scale) as nat) as int;
    let pb = pow10((s - b.scale) as nat) as int;
    let ma = a.magnitude() as int;
    let mb = b.magnitude() as int;
    assert(a.scaled(s) == if a.negative {
        -(x as int)
    } else {
        x as int
    }) by {
        assert((-ma) * pa == -(ma * pa)) by (nonlinear_arith);
    }
    assert(b.scaled(s) == if b.negative {
        -(y as int)
    } else {
        y as int
    }) by {
        assert((-mb) * pb == -(mb * pb)) by (nonlinear_arith);
    }
}

/// The difference of two numerals is one numeral only.
pub proof fn lemma_difference_unique(
    r1: DecimalModel,
    r2: DecimalModel,
    a: DecimalModel,
    b: DecimalModel,
)
    requires
        is_difference(r1, a, b),
        is_difference(r2, a, b),
    ensures
        r1 == r2,
{
    assert(r1.magnitude() == r2.magnitude());
    if r1.digits.len() < r2.digits.len() {
        lemma_value_leading(r2.digits);
        lemma_value_bound(r1.digits);
        lemma_pow10_monotonic(r1.digits.len(), (r2.digits.len() - 1) as nat);
    } else if r2.digits.len() < r1.digits.len() {
        lemma_value_leading(r1.digits);
        lemma_value_bound(r2.digits);
        lemma_pow10_monotonic(r2.digits.len(), (r1.digits.len() - 1) as nat);
    } else {
        lemma_value_injective(r1.digits, r2.digits);
    }
}

/// An exact signed decimal number of any length.
#[derive(Debug)]
pub struct Decimal {
    negative: bool,
    digits: Vec<u8>,
    scale: usize,
}

impl View for Decimal {
    type V = DecimalModel;

    closed spec fn view(&self) -> DecimalModel {
        DecimalModel { negative: self.negative, digits: self.digits@, scale: self.scale as nat }
    }
}

impl Clone for Decimal {
    fn clone(&self) -> (r: Self)
        ensures
            r@ == self@,
    {
        proof {
            use_type_invariant(self);
        }
        let digits = self.digits.clone();
        assert(digits@ =~= self.digits@);
        Decimal { negative: self.negative, digits, scale: self.scale }
    }
}

impl Decimal {
    /// Every number of this type is a well-formed numeral.
    #[verifier::type_invariant]
    pub open spec fn valid(&self) -> bool {
        self@.wf()
    }

    /// The numeral with the given sign and digits, the last `scale` of them
    /// fractional; `None` unless all of `digits` are at most 9 and more than
    /// `scale` in number.
    pub fn from_parts(negative: bool, digits: Vec<u8>, scale: usize) -> (r: Option<Decimal>)
        ensures
            r is Some <==> all_digits(digits@) && digits.len() > scale,
            r matches Some(d) ==> d@ == (DecimalModel {
                negative,
                digits: digits@,
                scale: scale as nat,
            }),
    {
        if digits.len() <= scale {
            return None;
        }
        let n = digits.len();
        let mut i: usize = 0;
        while i < n
            invariant
                n == digits.len(),
                i <= n,
                forall|j: int| 0 <= j < i ==> #[trigger] digits[j] <= 9,
            decreases n - i,
        {
            if digits[i] > 9 {
                return None;
            }
            i += 1;
        }
        Some(Decimal { negative, digits, scale })
    }

    /// The numeral from parts known to be well formed.
    pub(crate) fn new(negative: bool, digits: Vec<u8>, scale: usize) -> (r: Decimal)
        requires
            all_digits(digits@),
            digits.len() > scale,
        ensures
            r@ == (DecimalModel { negative, digits: digits@, scale: scale as nat }),
    {
        Decimal { negative, digits, scale }
    }

    /// The numeral `0`.
    pub fn zero() -> (r: Decimal)
        ensures
            r@ == zero_model(),
    {
        let mut digits: Vec<u8> = Vec::new();
        digits.push(0);
        assert(digits@ =~= seq![0u8]);
        Decimal { negative: false, digits, scale: 0 }
    }

    /// Whether the numeral carries a minus sign.
    pub fn is_negative(&self) -> (r: bool)
        ensures
            r == self@.negative,
    {
        self.negative
    }

    /// The number of digits behind the decimal point.
    pub fn scale(&self) -> (r: usize)
        ensures
            r == self@.scale,
    {
        self.scale
    }

    /// The digits of the magnitude, most significant first.
    pub fn digits(&self) -> (r: &Vec<u8>)
        ensures
            r@ == self@.digits,
    {
        &self.digits
    }

    /// Whether the number is zero, of either sign.
    pub fn is_zero(&self) -> (r: bool)
        ensures
            r == (self@.mantissa() == 0),
    {
        proof {
            use_type_invariant(self);
        }
        let n = self.digits.len();
        let mut i: usize = 0;
        while i < n
            invariant
                n == self.digits.len(),
                i <= n,
                all_digits(self.digits@),
                digits_value(self.digits@.take(i as int)) == 0,
            decreases n - i,
        {
            proof {
                assert(self.digits@.take(i + 1) =~= self.digits@.take(i as int).push(
                    self.digits@[i as int],
                ));
                lemma_value_push(
                    self.digits@.take(i as int),
                    self.digits@[i as int],
                );
            }
            if self.digits[i] != 0 {
                proof {
                    let pre = self.digits@.take(i + 1);
                    let post = self.digits@.skip(i + 1);
                    assert(self.digits@ =~= pre + post);
                    lemma_value_concat(pre, post);
                    lemma_pow10_positive(post.len());
                    assert(digits_value(pre) * pow10(post.len()) > 0) by (nonlinear_arith)
                        requires
                            digits_value(pre) > 0,
                            pow10(post.len()) > 0,
                    ;
                }
                return false;
            }
            i += 1;
        }
        assert(self.digits@.take(n as int) =~= self.digits@);
        true
    }

    /// The same number with the opposite sign.
    pub fn negate(&self) -> (r: Decimal)
        ensures
            r@ == self@.negated(),
    {
        proof {
            use_type_invariant(self);
        }
        let digits = self.digits.clone();
        assert(digits@ =~= self.digits@);
        Decimal { negative: !self.negative, digits, scale: self.scale }
    }

    /// The exact difference `self − other`.
    pub fn subtract(&self, other: &Decimal) -> (r: Decimal)
        ensures
            is_difference(r@, self@, other@),
    {
        proof {
            use_type_invariant(self);
            use_type_invariant(other);
        }
        let sa = self.scale;
        let sb = other.scale;
        let s = if sa >= sb { sa } else { sb };
        let wa = self.digits.len() - sa;
        let wb = other.digits.len() - sb;
        let w = if wa >= wb { wa } else { wb };
        let a = padded(&self.digits, w - wa, s - sa);
        let b = padded(&other.digits, w - wb, s - sb);
        proof {
            lemma_padded_value(self.digits@, (w - wa) as nat, (s - sa) as nat);
            lemma_padded_value(other.digits@, (w - wb) as nat, (s - sb) as nat);
        }
        let negative: bool;
        let sum: Vec<u8>;
        if self.negative != other.negative {
            negative = self.negative;
            sum = sum_aligned(&a, &b);
        } else {
            match order_aligned(&a, &b) {
                Sign::Zero => {
                    negative = false;
                    sum = difference_aligned(&a, &b);
                },
                Sign::Positive => {
                    negative = self.negative;
                    sum = difference_aligned(&a, &b);
                },
                Sign::Negative => {
                    negative = !self.negative;
                    sum = difference_aligned(&b, &a);
                },
            }
        }
        let digits = trimmed(&sum, s + 1);
        let r = Decimal { negative, digits, scale: s };
        proof {
            lemma_difference(r@, self@, other@, digits_value(a@), digits_value(b@));
        }
        r
    }

    /// The characters of the numeral without its sign.
    pub fn unsigned_chars(&self) -> (r: Vec<char>)
        ensures
            r@ == self@.unsigned_text(),
    {
        proof {
            use_type_invariant(self);
        }
        let n = self.digits.len();
        let whole = n - self.scale;
        let mut r: Vec<char> = Vec::new();
        let mut i: usize = 0;
        while i < whole
            invariant
                n == self.digits.len(),
                whole <= n,
                i <= whole,
                all_digits(self.digits@),
                r@ == digit_chars(self.digits@.take(i as int)),
            decreases whole - i,
        {
            r.push(digit_to_char(self.digits[i]));
            i += 1;
            assert(r@ =~= digit_chars(self.digits@.take(i as int)));
        }
        if self.scale > 0 {
            r.push('.');
            let ghost head = r@;
            while i < n
                invariant
                    n == self.digits.len(),
                    whole <= i <= n,
                    all_digits(self.digits@),
                    r@ == head + digit_chars(self.digits@.subrange(whole as int, i as int)),
                decreases n - i,
            {
                r.push(digit_to_char(self.digits[i]));
                i += 1;
                assert(r@ =~= head + digit_chars(self.digits@.subrange(whole as int, i as int)));
            }
            assert(self.digits@.subrange(whole as int, n as int) =~= self.digits@.skip(
                whole as int,
            ));
        } else {
            assert(self.digits@.take(whole as int) =~= self.digits@);
        }
        r
    }
}

/// The character of one digit.
pub(crate) fn digit_to_char(d: u8) -> (c: char)
    requires
        d <= 9,
    ensures
        c == digit_char(d),
{
    (d + 48) as char
}

} // verus!
