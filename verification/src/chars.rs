//! Character classes used by the tokenizer and the word normalizer, and small
//! helpers for moving between `&str`, `Vec<char>` and `String`.

use vstd::prelude::*;

verus! {

/// Word characters: ASCII letters, digits and underscore. This is the
/// character class that delimits word matches.
pub open spec fn is_word_char(c: char) -> bool {
    (97 <= c as u32 && c as u32 <= 122)  // a-z
    || (65 <= c as u32 && c as u32 <= 90)  // A-Z
    || (48 <= c as u32 && c as u32 <= 57)  // 0-9
    || c as u32 == 95  // _
}

/// Characters that may join two word runs inside one token: `.`, `-`, `'`.
pub open spec fn is_joiner(c: char) -> bool {
    c as u32 == 46 || c as u32 == 45 || c as u32 == 39
}

pub open spec fn is_ascii_lower(c: char) -> bool {
    97 <= c as u32 && c as u32 <= 122
}

pub open spec fn is_ascii_upper(c: char) -> bool {
    65 <= c as u32 && c as u32 <= 90
}

/// The characters kept by normalization: ASCII letters only.
pub open spec fn is_ascii_alpha(c: char) -> bool {
    is_ascii_lower(c) || is_ascii_upper(c)
}

/// ASCII lowercasing of one character; everything but A-Z is unchanged.
pub open spec fn lower_char(c: char) -> char {
    if is_ascii_upper(c) {
        ((c as u32 + 32) as u8) as char
    } else {
        c
    }
}

/// Characters accepted inside a URL after the scheme.
pub open spec fn is_url_char(c: char) -> bool {
    is_word_char(c) || c as u32 == 45  // -
    || c as u32 == 64  // @
    || c as u32 == 58  // :
    || c as u32 == 37  // %
    || c as u32 == 46  // .
    || c as u32 == 43  // +
    || c as u32 == 126  // ~
    || c as u32 == 35  // #
    || c as u32 == 61  // =
    || c as u32 == 40  // (
    || c as u32 == 41  // )
    || c as u32 == 63  // ?
    || c as u32 == 38  // &
    || c as u32 == 47  // /
}

/// Whitespace, as trimming understands it (the Unicode White_Space set).
pub open spec fn is_space_char(c: char) -> bool {
    (9 <= c as u32 && c as u32 <= 13) || c as u32 == 32 || c as u32 == 0x85 || c as u32 == 0xA0
        || c as u32 == 0x1680 || (0x2000 <= c as u32 && c as u32 <= 0x200A) || c as u32 == 0x2028
        || c as u32 == 0x2029 || c as u32 == 0x202F || c as u32 == 0x205F || c as u32 == 0x3000
}

pub fn word_char(c: char) -> (r: bool)
    ensures
        r == is_word_char(c),
{
    let u = c as u32;
    (97 <= u && u <= 122) || (65 <= u && u <= 90) || (48 <= u && u <= 57) || u == 95
}

pub fn joiner_char(c: char) -> (r: bool)
    ensures
        r == is_joiner(c),
{
    let u = c as u32;
    u == 46 || u == 45 || u == 39
}

pub fn ascii_alpha(c: char) -> (r: bool)
    ensures
        r == is_ascii_alpha(c),
{
    let u = c as u32;
    (97 <= u && u <= 122) || (65 <= u && u <= 90)
}

pub fn to_lower(c: char) -> (r: char)
    ensures
        r == lower_char(c),
{
    let u = c as u32;
    if 65 <= u && u <= 90 {
        ((u + 32) as u8) as char
    } else {
        c
    }
}

pub fn url_char(c: char) -> (r: bool)
    ensures
        r == is_url_char(c),
{
    let u = c as u32;
    word_char(c) || u == 45 || u == 64 || u == 58 || u == 37 || u == 46 || u == 43 || u == 126
        || u == 35 || u == 61 || u == 40 || u == 41 || u == 63 || u == 38 || u == 47
}

pub fn space_char(c: char) -> (r: bool)
    ensures
        r == is_space_char(c),
{
    let u = c as u32;
    (9 <= u && u <= 13) || u == 32 || u == 0x85 || u == 0xA0 || u == 0x1680 || (0x2000 <= u && u
        <= 0x200A) || u == 0x2028 || u == 0x2029 || u == 0x202F || u == 0x205F || u == 0x3000
}

/// The characters of a string, in order, as a vector.
pub fn chars_of(s: &str) -> (v: Vec<char>)
    ensures
        v@ == s@,
{
    let n = s.unicode_len();
    let mut v: Vec<char> = Vec::new();
    let mut i: usize = 0;
    while i < n
        invariant
            n == s@.len(),
            i <= n,
            v@ == s@.subrange(0, i as int),
        decreases n - i,
    {
        v.push(s.get_char(i));
        i = i + 1;
        proof {
            assert(v@ =~= s@.subrange(0, i as int));
        }
    }
    proof {
        assert(v@ =~= s@);
    }
    v
}

/// Relies on `String`'s `FromIterator<char>` impl: collecting characters
/// yields the string with exactly those characters in order.
#[verifier::external_body]
pub fn string_from_chars(v: &Vec<char>) -> (s: String)
    ensures
        s@ == v@,
{
    v.iter().collect()
}

} // verus!
