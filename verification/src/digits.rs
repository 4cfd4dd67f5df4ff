//! Sequences of decimal digits and the numbers that they write.

use vstd::prelude::*;

verus! {

/// Ten to the power `n`.
pub open spec fn pow10(n: nat) -> nat
    decreases n,
{
    if n == 0 {
        1
    } else {
        10 * pow10((n - 1) as nat)
    }
}

/// Every entry of `s` is a decimal digit.
pub open spec fn all_digits(s: Seq<u8>) -> bool {
    forall|i: int| 0 <= i < s.len() ==> #[trigger] s[i] <= 9
}

/// The natural number that `s` writes in base ten, most significant digit
/// first. The empty sequence writes zero.
pub open spec fn digits_value(s: Seq<u8>) -> nat
    decreases s.len(),
{
    if s.len() == 0 {
        0
    } else {
        10 * digits_value(s.drop_last()) + s.last() as nat
    }
}

/// `n` zero digits.
pub open spec fn zeros(n: nat) -> Seq<u8> {
    Seq::new(n, |i: int| 0u8)
}

/// A power of ten is positive.
pub proof fn lemma_pow10_positive(n: nat)
    ensures
        pow10(n) > 0,
    decreases n,
{
    if n > 0 {
        lemma_pow10_positive((n - 1) as nat);
    }
}

/// Powers of ten grow with the exponent.
pub proof fn lemma_pow10_monotonic(a: nat, b: nat)
    requires
        a <= b,
    ensures
        pow10(a) <= pow10(b),
    decreases b,
{
    if a < b {
        lemma_pow10_monotonic(a, (b - 1) as nat);
    }
}

/// One digit writes itself.
pub proof fn lemma_value_single(d: u8)
    ensures
        digits_value(seq![d]) == d as nat,
{
    let s = seq![d];
    assert(s.drop_last().len() == 0);
    assert(digits_value(s.drop_last()) == 0);
}

/// One more digit behind a number multiplies it by ten and adds the digit.
pub proof fn lemma_value_push(s: Seq<u8>, d: u8)
    ensures
        digits_value(s.push(d)) == 10 * digits_value(s) + d as nat,
{
    assert(s.push(d).drop_last() =~= s);
}

/// Writing `b` after `a` shifts `a` left by the length of `b`.
pub proof fn lemma_value_concat(a: Seq<u8>, b: Seq<u8>)
    ensures
        digits_value(a + b) == digits_value(a) * pow10(b.len()) + digits_value(b),
    decreases b.len(),
{
    if b.len() == 0 {
        assert(a + b =~= a);
        assert(digits_value(a) * 1 == digits_value(a)) by (nonlinear_arith);
    } else {
        let b0 = b.drop_last();
        lemma_value_concat(a, b0);
        assert((a + b).drop_last() =~= a + b0);
        assert((a + b).last() == b.last());
        let va = digits_value(a) as int;
        let p = pow10(b0.len()) as int;
        let vb0 = digits_value(b0) as int;
        assert(pow10(b.len()) == 10 * pow10(b0.len()));
        assert(10 * (va * p + vb0) == va * (10 * p) + 10 * vb0) by (nonlinear_arith);
    }
}

/// Zeros alone write zero.
pub proof fn lemma_value_zeros(n: nat)
    ensures
        digits_value(zeros(n)) == 0,
        all_digits(zeros(n)),
    decreases n,
{
    if n > 0 {
        lemma_value_zeros((n - 1) as nat);
        assert(zeros(n).drop_last() =~= zeros((n - 1) as nat));
    }
}

/// A number written with `n` digits is below ten to the `n`.
pub proof fn lemma_value_bound(s: Seq<u8>)
    requires
        all_digits(s),
    ensures
        digits_value(s) < pow10(s.len()),
    decreases s.len(),
{
    if s.len() > 0 {
        lemma_value_bound(s.drop_last());
    }
}

/// The value of a suffix, one digit at a time.
pub proof fn lemma_value_skip(s: Seq<u8>, i: int)
    requires
        0 <= i < s.len(),
    ensures
        digits_value(s.skip(i)) == s[i] as nat * pow10((s.len() - i - 1) as nat) + digits_value(
            s.skip(i + 1),
        ),
{
    assert(s.skip(i) =~= seq![s[i]] + s.skip(i + 1));
    lemma_value_concat(seq![s[i]], s.skip(i + 1));
    lemma_value_single(s[i]);
}

/// A number whose first digit is not zero is at least the power of ten of
/// its other digits.
pub proof fn lemma_value_leading(s: Seq<u8>)
    requires
        s.len() > 0,
        s[0] != 0,
    ensures
        digits_value(s) >= pow10((s.len() - 1) as nat),
{
    lemma_value_skip(s, 0);
    assert(s.skip(0) =~= s);
    let p = pow10((s.len() - 1) as nat) as int;
    let d = s[0] as int;
    assert(d * p >= p) by (nonlinear_arith)
        requires
            d >= 1,
            p >= 0,
    ;
}

/// Two numbers of equally many digits that are equal are written alike.
pub proof fn lemma_value_injective(a: Seq<u8>, b: Seq<u8>)
    requires
        all_digits(a),
        all_digits(b),
        a.len() == b.len(),
        digits_value(a) == digits_value(b),
    ensures
        a == b,
    decreases a.len(),
{
    if a.len() > 0 {
        assert(a.last() <= 9 && b.last() <= 9);
        lemma_value_injective(a.drop_last(), b.drop_last());
        assert(a =~= a.drop_last().push(a.last()));
        assert(b =~= b.drop_last().push(b.last()));
    } else {
        assert(a =~= b);
    }
}

} // verus!
