//! Arithmetic on numbers written as vectors of decimal digits.

use vstd::prelude::*;
use crate::digits::{
    all_digits, digits_value, lemma_value_bound, lemma_value_concat, lemma_value_single,
    lemma_value_skip, lemma_value_zeros, pow10, zeros,
};
use crate::roots::Sign;

verus! {

/// A copy of `v` in the opposite order.
pub(crate) fn reversed(v: &Vec<u8>) -> (r: Vec<u8>)
    ensures
        r@ == v@.reverse(),
{
    let n = v.len();
    let mut r: Vec<u8> = Vec::new();
    let mut k: usize = 0;
    while k < n
        invariant
            n == v.len(),
            k <= n,
            r.len() == k,
            forall|j: int| 0 <= j < k ==> r[j] == v[n - 1 - j],
        decreases n - k,
    {
        r.push(v[n - 1 - k]);
        k += 1;
    }
    assert(r@ =~= v@.reverse());
    r
}

/// `digits` with `lead` zeros written before it and `trail` zeros after it.
pub(crate) fn padded(digits: &Vec<u8>, lead: usize, trail: usize) -> (r: Vec<u8>)
    ensures
        r@ == zeros(lead as nat) + digits@ + zeros(trail as nat),
{
    let mut r: Vec<u8> = Vec::new();
    let mut k: usize = 0;
    while k < lead
        invariant
            k <= lead,
            r@ == zeros(k as nat),
        decreases lead - k,
    {
        r.push(0);
        k += 1;
        assert(r@ =~= zeros(k as nat));
    }
    let n = digits.len();
    let mut i: usize = 0;
    while i < n
        invariant
            n == digits.len(),
            i <= n,
            r@ == zeros(lead as nat) + digits@.take(i as int),
        decreases n - i,
    {
        r.push(digits[i]);
        i += 1;
        assert(r@ =~= zeros(lead as nat) + digits@.take(i as int));
    }
    assert(digits@.take(n as int) =~= digits@);
    let mut t: usize = 0;
    while t < trail
        invariant
            t <= trail,
            r@ == zeros(lead as nat) + digits@ + zeros(t as nat),
        decreases trail - t,
    {
        r.push(0);
        t += 1;
        assert(r@ =~= zeros(lead as nat) + digits@ + zeros(t as nat));
    }
    r
}

/// Padding with zeros in front changes nothing; each zero behind multiplies
/// by ten.
pub proof fn lemma_padded_value(digits: Seq<u8>, lead: nat, trail: nat)
    requires
        all_digits(digits),
    ensures
        all_digits(zeros(lead) + digits + zeros(trail)),
        digits_value(zeros(lead) + digits + zeros(trail)) == digits_value(digits) * pow10(trail),
{
    lemma_value_zeros(lead);
    lemma_value_zeros(trail);
    lemma_value_concat(zeros(lead), digits);
    lemma_value_concat(zeros(lead) + digits, zeros(trail));
    assert(0 * pow10(digits.len()) == 0) by (nonlinear_arith);
}

/// The sum of two numbers written with the same number of digits, written
/// with one digit more.
pub(crate) fn sum_aligned(a: &Vec<u8>, b: &Vec<u8>) -> (r: Vec<u8>)
    requires
        a.len() == b.len(),
        all_digits(a@),
        all_digits(b@),
    ensures
        r.len() == a.len() + 1,
        all_digits(r@),
        digits_value(r@) == digits_value(a@) + digits_value(b@),
{
    let n = a.len();
    let mut rev: Vec<u8> = Vec::new();
    let mut carry: u8 = 0;
    let mut k: usize = 0;
    while k < n
        invariant
            n == a.len(),
            n == b.len(),
            k <= n,
            carry <= 1,
            all_digits(a@),
            all_digits(b@),
            all_digits(rev@),
            rev.len() == k,
            digits_value(rev@.reverse()) + carry * pow10(k as nat) == digits_value(
                a@.skip(n - k),
            ) + digits_value(b@.skip(n - k)),
        decreases n - k,
    {
        let i = n - 1 - k;
        let t: u8 = a[i] + b[i] + carry;
        let d: u8 = if t >= 10 { t - 10 } else { t };
        let c: u8 = if t >= 10 { 1 } else { 0 };
        proof {
            let p = pow10(k as nat) as int;
            lemma_value_skip(a@, i as int);
            lemma_value_skip(b@, i as int);
            assert(rev@.push(d).reverse() =~= seq![d] + rev@.reverse());
            lemma_value_concat(seq![d], rev@.reverse());
            lemma_value_single(d);
            let x = a[i as int] as int;
            let y = b[i as int] as int;
            assert(d + 10 * c == x + y + carry);
            assert(pow10((k + 1) as nat) == 10 * p);
            assert(d * p + c * (10 * p) + carry * p == (d + 10 * c) * p + carry * p)
                by (nonlinear_arith);
            assert((x + y + carry) * p == x * p + y * p + carry * p) by (nonlinear_arith);
        }
        rev.push(d);
        carry = c;
        k += 1;
    }
    proof {
        assert(rev@.push(carry).reverse() =~= seq![carry] + rev@.reverse());
        lemma_value_concat(seq![carry], rev@.reverse());
        lemma_value_single(carry);
        assert(a@.skip(0) =~= a@);
        assert(b@.skip(0) =~= b@);
    }
    rev.push(carry);
    let r = reversed(&rev);
    assert(all_digits(r@));
    r
}

/// The difference of two numbers written with the same number of digits,
/// the first at least as large as the second.
pub(crate) fn difference_aligned(a: &Vec<u8>, b: &Vec<u8>) -> (r: Vec<u8>)
    requires
        a.len() == b.len(),
        all_digits(a@),
        all_digits(b@),
        digits_value(a@) >= digits_value(b@),
    ensures
        r.len() == a.len(),
        all_digits(r@),
        digits_value(r@) == digits_value(a@) - digits_value(b@),
{
    let n = a.len();
    let mut rev: Vec<u8> = Vec::new();
    let mut borrow: u8 = 0;
    let mut k: usize = 0;
    while k < n
        invariant
            n == a.len(),
            n == b.len(),
            k <= n,
            borrow <= 1,
            all_digits(a@),
            all_digits(b@),
            all_digits(rev@),
            rev.len() == k,
            digits_value(rev@.reverse()) - borrow * pow10(k as nat) == digits_value(
                a@.skip(n - k),
            ) - digits_value(b@.skip(n - k)),
        decreases n - k,
    {
        let i = n - 1 - k;
        let x: u8 = a[i];
        let y: u8 = b[i] + borrow;
        let d: u8 = if x >= y { x - y } else { x + 10 - y };
        let c: u8 = if x >= y { 0 } else { 1 };
        proof {
            let p = pow10(k as nat) as int;
            lemma_value_skip(a@, i as int);
            lemma_value_skip(b@, i as int);
            assert(rev@.push(d).reverse() =~= seq![d] + rev@.reverse());
            lemma_value_concat(seq![d], rev@.reverse());
            lemma_value_single(d);
            let bi = b[i as int] as int;
            assert(d - 10 * c == x - bi - borrow);
            assert(pow10((k + 1) as nat) == 10 * p);
            assert(d * p - c * (10 * p) == (d - 10 * c) * p) by (nonlinear_arith);
            assert((x - bi - borrow) * p == x * p - bi * p - borrow * p) by (nonlinear_arith);
        }
        rev.push(d);
        borrow = c;
        k += 1;
    }
    let r = reversed(&rev);
    proof {
        assert(a@.skip(0) =~= a@);
        assert(b@.skip(0) =~= b@);
        assert(all_digits(r@));
        lemma_value_bound(r@);
        let p = pow10(n as nat) as int;
        let c = borrow as int;
        assert(digits_value(r@) - c * p == digits_value(a@) - digits_value(b@));
        assert(c * p == if c == 0 { 0 } else { p }) by (nonlinear_arith)
            requires
                c == 0 || c == 1,
        ;
    }
    r
}

/// The sign of the first number less the second, both written with the
/// same number of digits.
pub(crate) fn order_aligned(a: &Vec<u8>, b: &Vec<u8>) -> (s: Sign)
    requires
        a.len() == b.len(),
        all_digits(a@),
        all_digits(b@),
    ensures
        s == Sign::Negative <==> digits_value(a@) < digits_value(b@),
        s == Sign::Zero <==> digits_value(a@) == digits_value(b@),
        s == Sign::Positive <==> digits_value(a@) > digits_value(b@),
{
    let n = a.len();
    let mut i: usize = 0;
    while i < n
        invariant
            n == a.len(),
            n == b.len(),
            i <= n,
            all_digits(a@),
            all_digits(b@),
            a@.take(i as int) == b@.take(i as int),
        decreases n - i,
    {
        if a[i] != b[i] {
            proof {
                let pre = a@.take(i as int);
                assert(a@ =~= pre + a@.skip(i as int));
                assert(b@ =~= pre + b@.skip(i as int));
                lemma_value_concat(pre, a@.skip(i as int));
                lemma_value_concat(pre, b@.skip(i as int));
                lemma_value_skip(a@, i as int);
                lemma_value_skip(b@, i as int);
                lemma_value_bound(a@.skip(i + 1));
                lemma_value_bound(b@.skip(i + 1));
                let p = pow10((n - i - 1) as nat) as int;
                let x = a[i as int] as int;
                let y = b[i as int] as int;
                if x < y {
                    assert(x * p + p <= y * p) by (nonlinear_arith)
                        requires
                            x + 1 <= y,
                            p >= 0,
                    ;
                } else {
                    assert(y * p + p <= x * p) by (nonlinear_arith)
                        requires
                            y + 1 <= x,
                            p >= 0,
                    ;
                }
            }
            if a[i] < b[i] {
                return Sign::Negative;
            } else {
                return Sign::Positive;
            }
        }
        i += 1;
        assert(a@.take(i as int) =~= a@.take(i - 1).push(a[i - 1]));
        assert(b@.take(i as int) =~= b@.take(i - 1).push(b[i - 1]));
    }
    assert(a@ =~= a@.take(n as int));
    assert(b@ =~= b@.take(n as int));
    Sign::Zero
}

/// `v` without its leading zeros, as far as `keep` digits remain.
pub(crate) fn trimmed(v: &Vec<u8>, keep: usize) -> (r: Vec<u8>)
    requires
        1 <= keep <= v.len(),
        all_digits(v@),
    ensures
        all_digits(r@),
        keep <= r.len() <= v.len(),
        r@ == v@.skip(v.len() - r.len()),
        digits_value(r@) == digits_value(v@),
        r.len() == keep || r[0] != 0,
{
    let n = v.len();
    let mut z: usize = 0;
    assert(v@.skip(0) =~= v@);
    while n - z > keep && v[z] == 0
        invariant
            n == v.len(),
            z <= n - keep,
            keep >= 1,
            digits_value(v@.skip(z as int)) == digits_value(v@),
        decreases n - z,
    {
        proof {
            lemma_value_skip(v@, z as int);
            assert(0 * pow10((n - z - 1) as nat) == 0) by (nonlinear_arith);
        }
        z += 1;
    }
    let mut r: Vec<u8> = Vec::new();
    let mut i: usize = z;
    while i < n
        invariant
            n == v.len(),
            z <= i <= n,
            r@ == v@.subrange(z as int, i as int),
        decreases n - i,
    {
        r.push(v[i]);
        i += 1;
        assert(r@ =~= v@.subrange(z as int, i as int));
    }
    assert(r@ =~= v@.skip(z as int));
    r
}

} // verus!
