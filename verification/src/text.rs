//! Characters and strings: white space, and conversions between `str`,
//! `String` and vectors of characters.

use vstd::prelude::*;

verus! {

/// Whether `c` is white space: a character with the Unicode property
/// `White_Space`.
pub open spec fn is_whitespace(c: char) -> bool {
    let u = c as u32;
    ||| 0x09 <= u <= 0x0D
    ||| u == 0x20
    ||| u == 0x85
    ||| u == 0xA0
    ||| u == 0x1680
    ||| 0x2000 <= u <= 0x200A
    ||| u == 0x2028
    ||| u == 0x2029
    ||| u == 0x202F
    ||| u == 0x205F
    ||| u == 0x3000
}

/// The test that white space fails.
pub open spec fn visible() -> spec_fn(char) -> bool {
    |c: char| !is_whitespace(c)
}

/// `s` without its white space.
pub open spec fn without_whitespace(s: Seq<char>) -> Seq<char> {
    s.filter(visible())
}

/// Whether `c` is white space.
pub fn is_whitespace_char(c: char) -> (r: bool)
    ensures
        r == is_whitespace(c),
{
    let u = c as u32;
    (0x09 <= u && u <= 0x0D) || u == 0x20 || u == 0x85 || u == 0xA0 || u == 0x1680 || (0x2000 <= u
        && u <= 0x200A) || u == 0x2028 || u == 0x2029 || u == 0x202F || u == 0x205F || u == 0x3000
}

/// The characters of `s`, in order.
pub fn chars_of(s: &str) -> (v: Vec<char>)
    ensures
        v@ == s@,
{
    let mut v: Vec<char> = Vec::new();
    for c in it: s.chars()
        invariant
            v@ == it.seq().take(it.index()),
    {
        v.push(c);
    }
    v
}

/// `String::push` of the standard library: appends one character to the end
/// of the string and leaves the rest as it was.
#[verifier::external_body]
fn push_char(s: &mut String, c: char)
    ensures
        final(s)@ == old(s)@.push(c),
{
    s.push(c)
}

/// The string made of the characters of `v`, in order.
pub fn string_of(v: &Vec<char>) -> (s: String)
    ensures
        s@ == v@,
{
    let mut s = String::new();
    let n = v.len();
    let mut i: usize = 0;
    while i < n
        invariant
            n == v.len(),
            i <= n,
            s@ == v@.take(i as int),
        decreases n - i,
    {
        push_char(&mut s, v[i]);
        i += 1;
        assert(s@ =~= v@.take(i as int));
    }
    assert(v@.take(n as int) =~= v@);
    s
}

/// Removes every white-space character from `s` and keeps the others in
/// their order.
pub fn remove_whitespace(s: &mut String)
    ensures
        final(s)@ == without_whitespace(old(s)@),
{
    let kept = squeezed(&chars_of(s.as_str()));
    *s = string_of(&kept);
}

/// The characters of `v` that are not white space, in their order.
pub fn squeezed(v: &Vec<char>) -> (r: Vec<char>)
    ensures
        r@ == without_whitespace(v@),
{
    let mut r: Vec<char> = Vec::new();
    let n = v.len();
    let mut i: usize = 0;
    assert(v@.take(0) =~= Seq::<char>::empty());
    reveal(Seq::filter);
    while i < n
        invariant
            n == v.len(),
            i <= n,
            r@ == without_whitespace(v@.take(i as int)),
        decreases n - i,
    {
        proof {
            reveal(Seq::filter);
            assert(v@.take(i + 1).drop_last() =~= v@.take(i as int));
        }
        if !is_whitespace_char(v[i]) {
            r.push(v[i]);
        }
        i += 1;
    }
    assert(v@.take(n as int) =~= v@);
    r
}

} // verus!
