//! Fixed-width hexadecimal and decimal text for block names.

use vstd::prelude::*;
use crate::text::push_char;

verus! {

/// The lowercase hexadecimal digit of `v` (below 16).
pub open spec fn hex_digit(v: int) -> char {
    if v == 0 { '0' } else if v == 1 { '1' } else if v == 2 { '2' } else if v == 3 { '3' }
    else if v == 4 { '4' } else if v == 5 { '5' } else if v == 6 { '6' } else if v == 7 { '7' }
    else if v == 8 { '8' } else if v == 9 { '9' } else if v == 10 { 'a' } else if v == 11 { 'b' }
    else if v == 12 { 'c' } else if v == 13 { 'd' } else if v == 14 { 'e' } else { 'f' }
}

/// The decimal digit of `v` (below 10).
pub open spec fn dec_digit(v: int) -> char {
    if v == 0 { '0' } else if v == 1 { '1' } else if v == 2 { '2' } else if v == 3 { '3' }
    else if v == 4 { '4' } else if v == 5 { '5' } else if v == 6 { '6' } else if v == 7 { '7' }
    else if v == 8 { '8' } else { '9' }
}

/// The last `k` hexadecimal digits of `x`, most significant first.
pub open spec fn hex_fixed(x: nat, k: nat) -> Seq<char>
    decreases k,
{
    if k == 0 {
        seq![]
    } else {
        hex_fixed(x / 16, (k - 1) as nat).push(hex_digit((x % 16) as int))
    }
}

/// The 32-digit zero-padded lowercase hexadecimal form of a fingerprint.
pub open spec fn hex32(x: u128) -> Seq<char> {
    hex_fixed(x as nat, 32)
}

/// The decimal form of `n`, without leading zeros.
pub open spec fn decimal(n: nat) -> Seq<char>
    decreases n,
{
    if n < 10 {
        seq![dec_digit(n as int)]
    } else {
        decimal(n / 10).push(dec_digit((n % 10) as int))
    }
}

/// A character `0` to `9`.
pub open spec fn is_digit(c: char) -> bool {
    '0' <= c && c <= '9'
}

/// The value of a decimal digit character.
pub open spec fn digit_value(c: char) -> nat {
    (c as u32 - '0' as u32) as nat
}

/// The value of a string of decimal digits.
pub open spec fn digits_value(s: Seq<char>) -> nat
    decreases s.len(),
{
    if s.len() == 0 {
        0
    } else {
        digits_value(s.drop_last()) * 10 + digit_value(s.last())
    }
}

/// Every character of `s` is a decimal digit.
pub open spec fn all_digits(s: Seq<char>) -> bool {
    forall|i: int| 0 <= i < s.len() ==> is_digit(#[trigger] s[i])
}

/// The collision index that `s` spells in canonical decimal, if it spells
/// one: digits only, no leading zero, at least 1 and at most `u32::MAX`.
pub open spec fn parse_index(s: Seq<char>) -> Option<u32> {
    if s.len() > 0 && all_digits(s) && s[0] != '0' && 1 <= digits_value(s) <= u32::MAX {
        Some(digits_value(s) as u32)
    } else {
        None
    }
}

pub proof fn lemma_hex_fixed_len(x: nat, k: nat)
    ensures
        hex_fixed(x, k).len() == k,
    decreases k,
{
    if k > 0 {
        lemma_hex_fixed_len(x / 16, (k - 1) as nat);
    }
}

fn hex_digit_char(v: u128) -> (c: char)
    requires
        v < 16,
    ensures
        c == hex_digit(v as int),
{
    if v == 0 { '0' } else if v == 1 { '1' } else if v == 2 { '2' } else if v == 3 { '3' }
    else if v == 4 { '4' } else if v == 5 { '5' } else if v == 6 { '6' } else if v == 7 { '7' }
    else if v == 8 { '8' } else if v == 9 { '9' } else if v == 10 { 'a' } else if v == 11 { 'b' }
    else if v == 12 { 'c' } else if v == 13 { 'd' } else if v == 14 { 'e' } else { 'f' }
}

fn dec_digit_char(v: u32) -> (c: char)
    requires
        v < 10,
    ensures
        c == dec_digit(v as int),
{
    if v == 0 { '0' } else if v == 1 { '1' } else if v == 2 { '2' } else if v == 3 { '3' }
    else if v == 4 { '4' } else if v == 5 { '5' } else if v == 6 { '6' } else if v == 7 { '7' }
    else if v == 8 { '8' } else { '9' }
}

/// Appends the last `k` hexadecimal digits of `x`.
pub(crate) fn push_hex(s: &mut String, x: u128, k: u32)
    ensures
        final(s)@ == old(s)@ + hex_fixed(x as nat, k as nat),
    decreases k,
{
    if k > 0 {
        push_hex(s, x / 16, k - 1);
        push_char(s, hex_digit_char(x % 16));
        assert(final(s)@ =~= old(s)@ + hex_fixed(x as nat, k as nat));
    } else {
        assert(final(s)@ =~= old(s)@ + hex_fixed(x as nat, k as nat));
    }
}

/// Appends the decimal form of `n`.
pub(crate) fn push_decimal(s: &mut String, n: u32)
    ensures
        final(s)@ == old(s)@ + decimal(n as nat),
    decreases n,
{
    if n < 10 {
        push_char(s, dec_digit_char(n));
        assert(final(s)@ =~= old(s)@ + decimal(n as nat));
    } else {
        push_decimal(s, n / 10);
        push_char(s, dec_digit_char(n % 10));
        assert(final(s)@ =~= old(s)@ + decimal(n as nat));
    }
}

/// The 32-digit lowercase hexadecimal form of a fingerprint.
pub fn fingerprint_hex(xxh3: u128) -> (r: String)
    ensures
        r@ == hex32(xxh3),
        r@.len() == 32,
{
    let mut s = String::new();
    push_hex(&mut s, xxh3, 32);
    proof {
        lemma_hex_fixed_len(xxh3 as nat, 32);
        assert(s@ =~= hex32(xxh3));
    }
    s
}

proof fn lemma_digits_value_grows(s: Seq<char>, j: int)
    requires
        0 <= j <= s.len(),
        all_digits(s),
    ensures
        digits_value(s.subrange(0, j)) <= digits_value(s),
    decreases s.len(),
{
    if j < s.len() {
        let t = s.drop_last();
        assert(all_digits(t)) by {
            assert forall|i: int| 0 <= i < t.len() implies is_digit(#[trigger] t[i]) by {
                assert(t[i] == s[i]);
            }
        }
        lemma_digits_value_grows(t, j);
        assert(t.subrange(0, j) == s.subrange(0, j));
    } else {
        assert(s.subrange(0, j) == s);
    }
}

/// Reads `cs[start..]` as a collision index in canonical decimal.
pub(crate) fn parse_index_from(cs: &Vec<char>, start: usize) -> (r: Option<u32>)
    requires
        start <= cs@.len(),
    ensures
        r == parse_index(cs@.subrange(start as int, cs@.len() as int)),
{
    let ghost t = cs@.subrange(start as int, cs@.len() as int);
    if start == cs.len() {
        return None;
    }
    if cs[start] == '0' {
        assert(t[0] == '0');
        return None;
    }
    let mut acc: u64 = 0;
    let mut i: usize = start;
    while i < cs.len()
        invariant
            start <= i <= cs@.len(),
            t == cs@.subrange(start as int, cs@.len() as int),
            t.len() > 0,
            all_digits(cs@.subrange(start as int, i as int)),
            acc == digits_value(cs@.subrange(start as int, i as int)),
            acc <= u32::MAX,
        decreases cs@.len() - i,
    {
        let c = cs[i];
        if !('0' <= c && c <= '9') {
            assert(t[i - start] == c);
            return None;
        }
        let d = (c as u32 - '0' as u32) as u64;
        let ghost p = cs@.subrange(start as int, i + 1);
        assert(p.drop_last() == cs@.subrange(start as int, i as int));
        assert(p.last() == c);
        assert(all_digits(p)) by {
            assert forall|k: int| 0 <= k < p.len() implies is_digit(#[trigger] p[k]) by {
                if k < p.len() - 1 {
                    assert(p[k] == cs@.subrange(start as int, i as int)[k]);
                }
            }
        }
        let next = acc * 10 + d;
        if next > 4294967295 {
            proof {
                if all_digits(t) {
                    assert(t.subrange(0, i + 1 - start) == p);
                    lemma_digits_value_grows(t, i + 1 - start);
                }
            }
            return None;
        }
        acc = next;
        i = i + 1;
    }
    assert(cs@.subrange(start as int, i as int) == t);
    assert(t[0] == cs@[start as int]);
    if acc == 0 {
        return None;
    }
    Some(acc as u32)
}

} // verus!
