//! Name validation, path splitting and the minting of content IDs.

use vstd::prelude::*;
use crate::error::MetadataError;
use crate::text::{char_vec, push_char, string_of};

verus! {

/// Number of characters in a content ID.
pub const CID_LENGTH: usize = 5;

/// Size of the content-ID alphabet `[A-Za-z0-9]`.
pub const CHARSET_LEN: usize = 62;

/// Whether `c` is a Unicode letter or number (general category L or N).
pub uninterp spec fn letter_or_number(c: char) -> bool;

/// The punctuation that names may hold besides letters and numbers.
pub open spec fn is_name_punct(c: char) -> bool {
    c == '_' || c == '-' || c == '.' || c == '@' || c == '~' || c == '(' || c == ')' || c == '['
        || c == ']'
}

/// `s` is one or more characters, each a letter, a number or allowed punctuation.
pub open spec fn safe_chars(s: Seq<char>) -> bool {
    s.len() > 0 && forall|i: int| 0 <= i < s.len() ==> letter_or_number(#[trigger] s[i]) || is_name_punct(s[i])
}

/// `s` holds two dots in a row.
pub open spec fn has_double_dot(s: Seq<char>) -> bool {
    exists|i: int| 0 <= i < s.len() - 1 && #[trigger] s[i] == '.' && s[i + 1] == '.'
}

/// A name that may stand as one component of a virtual path.
pub open spec fn component_ok(s: Seq<char>) -> bool {
    &&& s.len() > 0
    &&& safe_chars(s)
    &&& s.last() != '.'
    &&& !has_double_dot(s)
}

/// `e` is the error that rejecting the name `s` reports.
pub open spec fn rejection_of(s: Seq<char>, e: MetadataError) -> bool {
    if s.len() == 0 {
        e is EmptyPathComponent
    } else {
        e matches MetadataError::InvalidPathComponent(m) && m@ == s
    }
}

/// An ASCII letter or digit.
pub open spec fn is_ascii_alnum(c: char) -> bool {
    ('A' <= c && c <= 'Z') || ('a' <= c && c <= 'z') || ('0' <= c && c <= '9')
}

/// Relies on `regex::Regex::is_match` with the anchored pattern
/// `^[\p{L}\p{N}_\-\.\@\~\(\)\[\]]+$`: true exactly when every character is a
/// letter, a number or one of the listed punctuation marks, and there is at
/// least one. Neither `/` (punctuation) nor NUL (a control) is in the class;
/// ASCII letters (category L) and digits (category Nd) are.
#[verifier::external_body]
fn matches_safe_name(name: &str) -> (r: bool)
    ensures
        r == (name@.len() > 0 && forall|i: int|
            0 <= i < name@.len() ==> letter_or_number(#[trigger] name@[i]) || is_name_punct(
                name@[i],
            )),
        r ==> forall|i: int| 0 <= i < name@.len() ==> #[trigger] name@[i] != '/' && name@[i] != '\0',
        (name@.len() > 0 && forall|i: int|
            0 <= i < name@.len() ==> is_ascii_alnum(#[trigger] name@[i]) || is_name_punct(name@[i]))
            ==> r,
{
    match regex::Regex::new(r"^[\p{L}\p{N}_\-\.\@\~\(\)\[\]]+$") {
        Ok(re) => re.is_match(name),
        Err(_) => false,
    }
}

/// The rules on a name once it is known whether its characters are all
/// allowed (`safe`): not empty, allowed characters, no trailing dot and no
/// two dots in a row.
pub open spec fn component_ok_given(s: Seq<char>, safe: bool) -> bool {
    &&& s.len() > 0
    &&& safe
    &&& s.last() != '.'
    &&& !has_double_dot(s)
}

/// Checks one name of a file or directory, given whether every character
/// of it is a letter, a number or allowed punctuation.
pub fn check_component(name: &str, safe: bool) -> (r: Result<(), MetadataError>)
    ensures
        r is Ok <==> component_ok_given(name@, safe),
        r matches Err(e) ==> rejection_of(name@, e),
{
    if name.is_empty() {
        return Err(MetadataError::EmptyPathComponent);
    }
    if !safe {
        return Err(MetadataError::InvalidPathComponent(name.to_owned()));
    }
    let cs = char_vec(name);
    let n = cs.len();
    if cs[n - 1] == '.' {
        return Err(MetadataError::InvalidPathComponent(name.to_owned()));
    }
    let mut i: usize = 0;
    while i + 1 < n
        invariant
            cs@ == name@,
            n == cs@.len(),
            n > 0,
            i < n,
            forall|j: int| 0 <= j < i ==> !(#[trigger] cs@[j] == '.' && cs@[j + 1] == '.'),
        decreases n - i,
    {
        if cs[i] == '.' && cs[i + 1] == '.' {
            return Err(MetadataError::InvalidPathComponent(name.to_owned()));
        }
        i = i + 1;
    }
    Ok(())
}

/// Checks one name of a file or directory.
pub fn validate_component(name: &str) -> (r: Result<(), MetadataError>)
    ensures
        r is Ok <==> component_ok(name@),
        r matches Err(e) ==> rejection_of(name@, e),
        r is Ok ==> forall|i: int| 0 <= i < name@.len() ==> #[trigger] name@[i] != '/' && name@[i] != '\0',
{
    let safe = matches_safe_name(name);
    check_component(name, safe)
}

/// The components of a path: the maximal runs of characters other than `/`,
/// in order, the pending run `cur` continuing into `s`.
pub open spec fn split_from(s: Seq<char>, cur: Seq<char>) -> Seq<Seq<char>>
    decreases s.len(),
{
    if s.len() == 0 {
        if cur.len() == 0 {
            seq![]
        } else {
            seq![cur]
        }
    } else if s[0] == '/' {
        let rest = split_from(s.drop_first(), seq![]);
        if cur.len() == 0 {
            rest
        } else {
            seq![cur] + rest
        }
    } else {
        split_from(s.drop_first(), cur.push(s[0]))
    }
}

/// The non-empty components of a slash-separated path.
pub open spec fn path_components(s: Seq<char>) -> Seq<Seq<char>> {
    split_from(s, seq![])
}

/// Relies on `unicode_segmentation::UnicodeSegmentation::graphemes`, whose
/// clusters are consecutive slices covering the string: joined, they give the
/// string back.
#[verifier::external_body]
fn joined_graphemes(s: &str) -> (r: String)
    ensures
        r@ == s@,
{
    unicode_segmentation::UnicodeSegmentation::graphemes(s, true).collect()
}

proof fn lemma_split_step(s: Seq<char>, i: int, cur: Seq<char>)
    requires
        0 <= i < s.len(),
    ensures
        split_from(s.subrange(i, s.len() as int), cur) == if s[i] == '/' {
            let rest = split_from(s.subrange(i + 1, s.len() as int), seq![]);
            if cur.len() == 0 {
                rest
            } else {
                seq![cur] + rest
            }
        } else {
            split_from(s.subrange(i + 1, s.len() as int), cur.push(s[i]))
        },
{
    let t = s.subrange(i, s.len() as int);
    assert(t.drop_first() == s.subrange(i + 1, s.len() as int));
    assert(t[0] == s[i]);
}

/// Splits a virtual path on `/`, dropping empty components, and checks each one.
pub fn validate_and_split_path(path: &str) -> (r: Result<Vec<String>, MetadataError>)
    ensures
        r is Ok <==> forall|k: int|
            0 <= k < path_components(path@).len() ==> component_ok(
                #[trigger] path_components(path@)[k],
            ),
        r matches Ok(v) ==> v@.map_values(|x: String| x@) == path_components(path@),
        r matches Err(e) ==> exists|k: int|
            0 <= k < path_components(path@).len() && !component_ok(
                #[trigger] path_components(path@)[k],
            ) && (forall|j: int| 0 <= j < k ==> component_ok(path_components(path@)[j]))
                && rejection_of(path_components(path@)[k], e),
{
    let joined = joined_graphemes(path);
    let cs = char_vec(joined.as_str());
    let ghost s = path@;
    let mut parts: Vec<String> = Vec::new();
    let mut cur: Vec<char> = Vec::new();
    let mut i: usize = 0;
    assert(s.subrange(0, s.len() as int) == s);
    assert(parts@.map_values(|x: String| x@) == Seq::<Seq<char>>::empty());
    assert(cur@ == Seq::<char>::empty());
    while i < cs.len()
        invariant
            cs@ == s,
            s == path@,
            i <= s.len(),
            path_components(s) == parts@.map_values(|x: String| x@) + split_from(
                s.subrange(i as int, s.len() as int),
                cur@,
            ),
        decreases s.len() - i,
    {
        proof {
            lemma_split_step(s, i as int, cur@);
        }
        let c = cs[i];
        if c == '/' {
            if cur.len() > 0 {
                let part = string_of(&cur);
                let ghost before = parts@;
                parts.push(part);
                assert(parts@.map_values(|x: String| x@) == before.map_values(|x: String| x@).push(
                    cur@,
                ));
                assert(seq![cur@] + split_from(s.subrange(i + 1, s.len() as int), seq![])
                    == seq![cur@].add(split_from(s.subrange(i + 1, s.len() as int), seq![])));
            }
            cur = Vec::new();
            assert(cur@ == Seq::<char>::empty());
        } else {
            cur.push(c);
        }
        i = i + 1;
    }
    let ghost tail = s.subrange(i as int, s.len() as int);
    assert(tail.len() == 0);
    if cur.len() > 0 {
        let part = string_of(&cur);
        let ghost before = parts@;
        parts.push(part);
        assert(parts@.map_values(|x: String| x@) == before.map_values(|x: String| x@).push(cur@));
    }
    assert(parts@.map_values(|x: String| x@) == path_components(s));
    let mut k: usize = 0;
    while k < parts.len()
        invariant
            parts@.map_values(|x: String| x@) == path_components(s),
            s == path@,
            k <= parts@.len(),
            forall|j: int| 0 <= j < k ==> component_ok(#[trigger] path_components(s)[j]),
        decreases parts@.len() - k,
    {
        assert(parts@.map_values(|x: String| x@)[k as int] == parts@[k as int]@);
        match validate_component(parts[k].as_str()) {
            Ok(()) => {},
            Err(e) => {
                return Err(e);
            },
        }
        k = k + 1;
    }
    Ok(parts)
}

/// Relies on `rand::rng` and `rand::Rng::random_range`: a value drawn from
/// `0..n`, which is never empty here.
#[verifier::external_body]
fn random_below(n: usize) -> (r: usize)
    requires
        n > 0,
    ensures
        r < n,
{
    rand::Rng::random_range(&mut rand::rng(), 0..n)
}

/// The content-ID alphabet: `A` to `Z`, then `a` to `z`, then `0` to `9`.
pub open spec fn cid_alphabet() -> Seq<char> {
    seq![
        'A', 'B', 'C', 'D', 'E', 'F', 'G', 'H', 'I', 'J', 'K', 'L', 'M', 'N', 'O', 'P', 'Q', 'R',
        'S', 'T', 'U', 'V', 'W', 'X', 'Y', 'Z', 'a', 'b', 'c', 'd', 'e', 'f', 'g', 'h', 'i', 'j',
        'k', 'l', 'm', 'n', 'o', 'p', 'q', 'r', 's', 't', 'u', 'v', 'w', 'x', 'y', 'z', '0', '1',
        '2', '3', '4', '5', '6', '7', '8', '9',
    ]
}

/// A character of the content-ID alphabet.
pub open spec fn is_cid_char(c: char) -> bool {
    cid_alphabet().contains(c)
}

/// The content ID spelled by five draws from `0..62`, each picking a symbol
/// of the alphabet.
pub fn cid_from_draws(d: &Vec<usize>) -> (r: String)
    requires
        d@.len() == CID_LENGTH,
        forall|k: int| 0 <= k < CID_LENGTH ==> #[trigger] d@[k] < CHARSET_LEN,
    ensures
        r@ == d@.map_values(|i: usize| cid_alphabet()[i as int]),
{
    let alphabet: Vec<char> = vec![
        'A', 'B', 'C', 'D', 'E', 'F', 'G', 'H', 'I', 'J', 'K', 'L', 'M', 'N', 'O', 'P', 'Q', 'R',
        'S', 'T', 'U', 'V', 'W', 'X', 'Y', 'Z', 'a', 'b', 'c', 'd', 'e', 'f', 'g', 'h', 'i', 'j',
        'k', 'l', 'm', 'n', 'o', 'p', 'q', 'r', 's', 't', 'u', 'v', 'w', 'x', 'y', 'z', '0', '1',
        '2', '3', '4', '5', '6', '7', '8', '9',
    ];
    assert(alphabet@ == cid_alphabet());
    let mut s = String::new();
    let mut k: usize = 0;
    while k < d.len()
        invariant
            alphabet@ == cid_alphabet(),
            alphabet@.len() == CHARSET_LEN,
            d@.len() == CID_LENGTH,
            forall|j: int| 0 <= j < CID_LENGTH ==> #[trigger] d@[j] < CHARSET_LEN,
            k <= d@.len(),
            s@ == d@.subrange(0, k as int).map_values(|i: usize| cid_alphabet()[i as int]),
        decreases d@.len() - k,
    {
        let c = alphabet[d[k]];
        push_char(&mut s, c);
        k = k + 1;
        assert(s@ =~= d@.subrange(0, k as int).map_values(|i: usize| cid_alphabet()[i as int]));
    }
    assert(d@.subrange(0, k as int) =~= d@);
    s
}

/// A random five-character content ID over `[A-Za-z0-9]`.
pub fn generate_cid() -> (r: String)
    ensures
        r@.len() == CID_LENGTH,
        forall|i: int| 0 <= i < r@.len() ==> is_cid_char(#[trigger] r@[i]),
{
    let mut d: Vec<usize> = Vec::new();
    let mut i: usize = 0;
    while i < CID_LENGTH
        invariant
            i <= CID_LENGTH,
            d@.len() == i,
            forall|k: int| 0 <= k < d@.len() ==> #[trigger] d@[k] < CHARSET_LEN,
        decreases CID_LENGTH - i,
    {
        d.push(random_below(CHARSET_LEN));
        i = i + 1;
    }
    let r = cid_from_draws(&d);
    assert forall|i: int| 0 <= i < r@.len() implies is_cid_char(#[trigger] r@[i]) by {
        assert(r@[i] == cid_alphabet()[d@[i] as int]);
        assert(0 <= d@[i] < cid_alphabet().len());
    }
    r
}

} // verus!
