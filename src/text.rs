//! Small bridges to std's string handling that vstd leaves unspecified.

use vstd::prelude::*;

verus! {

/// Relies on `str::chars` collected into a `Vec`: the characters of `s`, in order.
#[verifier::external_body]
pub(crate) fn char_vec(s: &str) -> (r: Vec<char>)
    ensures
        r@ == s@,
{
    s.chars().collect()
}

/// Relies on `String::push`: appends one character.
#[verifier::external_body]
pub(crate) fn push_char(s: &mut String, c: char)
    ensures
        final(s)@ == old(s)@.push(c),
{
    s.push(c);
}

/// Appends every character of `t` to `s`.
pub(crate) fn push_chars(s: &mut String, t: &Vec<char>)
    ensures
        final(s)@ == old(s)@ + t@,
{
    let mut i: usize = 0;
    while i < t.len()
        invariant
            i <= t@.len(),
            s@ == old(s)@ + t@.subrange(0, i as int),
        decreases t@.len() - i,
    {
        push_char(s, t[i]);
        i = i + 1;
        assert(t@.subrange(0, i as int) == t@.subrange(0, i - 1).push(t@[i - 1]));
    }
    assert(t@.subrange(0, t@.len() as int) == t@);
}

/// Appends every character of `t` to `s`.
pub(crate) fn push_str(s: &mut String, t: &str)
    ensures
        final(s)@ == old(s)@ + t@,
{
    let cs = char_vec(t);
    push_chars(s, &cs);
}

/// A `String` holding exactly the characters of `t`.
pub(crate) fn string_of(t: &Vec<char>) -> (r: String)
    ensures
        r@ == t@,
{
    let mut s = String::new();
    push_chars(&mut s, t);
    assert(s@ == Seq::<char>::empty() + t@);
    s
}

} // verus!
