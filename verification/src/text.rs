//! Character classes, character sequences and ASCII case folding.

use vstd::prelude::*;

verus! {

/// The Unicode `White_Space` property: the characters for which
/// `char::is_whitespace` holds.
pub open spec fn is_white_space(c: char) -> bool {
    ||| c == ' '
    ||| ('\t' <= c && c <= '\r')
    ||| c == '\u{85}'
    ||| c == '\u{a0}'
    ||| c == '\u{1680}'
    ||| ('\u{2000}' <= c && c <= '\u{200a}')
    ||| c == '\u{2028}'
    ||| c == '\u{2029}'
    ||| c == '\u{202f}'
    ||| c == '\u{205f}'
    ||| c == '\u{3000}'
}

/// Whether `c` is an ASCII character.
pub open spec fn is_ascii_char(c: char) -> bool {
    (c as u32) < 128
}

/// What `char::is_alphabetic` returns for `c` (the Unicode `Alphabetic`
/// property); the contracts use it for characters that are neither ASCII
/// nor white space.
pub uninterp spec fn alphabetic_class(c: char) -> bool;

/// What `char::is_numeric` returns for `c` (general categories `Nd`, `Nl`
/// and `No`); the contracts use it for characters that are neither ASCII nor
/// white space.
pub uninterp spec fn numeric_class(c: char) -> bool;

/// Letters outside ASCII whose whole blocks are letters (Unicode general
/// category `L`, so `Alphabetic` and not numeric): the letters of Latin-1,
/// the Greek and Cyrillic base alphabets, Hebrew and Arabic letters,
/// Hiragana and Katakana, CJK unified ideographs (with extension A) and
/// Hangul syllables.
pub open spec fn is_common_letter(c: char) -> bool {
    ||| ('\u{c0}' <= c && c <= '\u{d6}')
    ||| ('\u{d8}' <= c && c <= '\u{f6}')
    ||| ('\u{f8}' <= c && c <= '\u{ff}')
    ||| ('\u{391}' <= c && c <= '\u{3a1}')
    ||| ('\u{3a3}' <= c && c <= '\u{3a9}')
    ||| ('\u{3b1}' <= c && c <= '\u{3c9}')
    ||| ('\u{410}' <= c && c <= '\u{44f}')
    ||| ('\u{5d0}' <= c && c <= '\u{5ea}')
    ||| ('\u{621}' <= c && c <= '\u{63a}')
    ||| ('\u{3041}' <= c && c <= '\u{3096}')
    ||| ('\u{30a1}' <= c && c <= '\u{30fa}')
    ||| ('\u{3400}' <= c && c <= '\u{4dbf}')
    ||| ('\u{4e00}' <= c && c <= '\u{9fff}')
    ||| ('\u{ac00}' <= c && c <= '\u{d7a3}')
}

/// An alphabetic character: among ASCII characters the letters `A`-`Z` and
/// `a`-`z`; no white-space character; every common letter; otherwise as
/// `char::is_alphabetic`.
pub open spec fn is_alphabetic_char(c: char) -> bool {
    if is_ascii_char(c) {
        ('A' <= c && c <= 'Z') || ('a' <= c && c <= 'z')
    } else if is_white_space(c) {
        false
    } else if is_common_letter(c) {
        true
    } else {
        alphabetic_class(c)
    }
}

/// A numeric character: among ASCII characters the digits `0`-`9`; no
/// white-space character and no common letter; otherwise as
/// `char::is_numeric`.
pub open spec fn is_numeric_char(c: char) -> bool {
    if is_ascii_char(c) {
        '0' <= c && c <= '9'
    } else if is_white_space(c) {
        false
    } else if is_common_letter(c) {
        false
    } else {
        numeric_class(c)
    }
}

/// The views of a sequence of strings.
pub open spec fn string_views(v: Seq<String>) -> Seq<Seq<char>> {
    v.map_values(|x: String| x@)
}

/// A character that may stand in a token: alphabetic or numeric.
pub open spec fn is_word_char(c: char) -> bool {
    is_alphabetic_char(c) || is_numeric_char(c)
}

/// Whether `c` is white space: the Unicode `White_Space` property, which
/// `char::is_whitespace` tests.
pub(crate) fn char_is_whitespace(c: char) -> (b: bool)
    ensures
        b == is_white_space(c),
{
    c == ' ' || ('\t' <= c && c <= '\r') || c == '\u{85}' || c == '\u{a0}' || c == '\u{1680}' || (
    '\u{2000}' <= c && c <= '\u{200a}') || c == '\u{2028}' || c == '\u{2029}' || c == '\u{202f}'
        || c == '\u{205f}' || c == '\u{3000}'
}

/// Calls `char::is_alphabetic` (the Unicode `Alphabetic` property). The
/// contract states the ASCII cases (only the letters `A`-`Z` and `a`-`z`),
/// that no white-space character is alphabetic, that the letters of the
/// blocks in `is_common_letter` are, and names the result for every other
/// character `alphabetic_class(c)`.
#[verifier::external_body]
pub(crate) fn char_is_alphabetic(c: char) -> (b: bool)
    ensures
        is_ascii_char(c) ==> b == (('A' <= c && c <= 'Z') || ('a' <= c && c <= 'z')),
        is_white_space(c) ==> !b,
        is_common_letter(c) ==> b,
        !is_ascii_char(c) && !is_white_space(c) ==> b == alphabetic_class(c),
{
    c.is_alphabetic()
}

/// Calls `char::is_numeric` (general categories `Nd`, `Nl`, `No`). The
/// contract states the ASCII cases (only the digits `0`-`9`), that no
/// white-space character and no letter of the blocks in `is_common_letter`
/// is numeric, and names the result for every other character
/// `numeric_class(c)`.
#[verifier::external_body]
pub(crate) fn char_is_numeric(c: char) -> (b: bool)
    ensures
        is_ascii_char(c) ==> b == ('0' <= c && c <= '9'),
        is_white_space(c) ==> !b,
        is_common_letter(c) ==> !b,
        !is_ascii_char(c) && !is_white_space(c) ==> b == numeric_class(c),
{
    c.is_numeric()
}

/// Whether `c` is alphabetic or numeric, which is what
/// `char::is_alphanumeric` tests.
pub(crate) fn char_is_alphanumeric(c: char) -> (b: bool)
    ensures
        b == is_word_char(c),
{
    char_is_alphabetic(c) || char_is_numeric(c)
}

/// ASCII lower case of one character: `'A'..='Z'` become `'a'..='z'`,
/// every other character stays as it is.
pub open spec fn ascii_lower(c: char) -> char {
    if 'A' <= c && c <= 'Z' {
        ((c as u32) + 32) as char
    } else {
        c
    }
}

/// ASCII lower case of a character sequence, character by character.
pub open spec fn ascii_lower_seq(s: Seq<char>) -> Seq<char> {
    s.map_values(|c: char| ascii_lower(c))
}

/// Folding to ASCII lower case keeps the length, leaves no ASCII upper-case
/// letter behind, and folding twice is folding once.
pub proof fn lemma_ascii_lower_idempotent(s: Seq<char>)
    ensures
        ascii_lower_seq(s).len() == s.len(),
        forall|i: int|
            0 <= i < s.len() ==> !('A' <= #[trigger] ascii_lower_seq(s)[i] && ascii_lower_seq(s)[i]
                <= 'Z'),
        ascii_lower_seq(ascii_lower_seq(s)) == ascii_lower_seq(s),
{
    assert(ascii_lower_seq(ascii_lower_seq(s)) =~= ascii_lower_seq(s));
}

/// ASCII lower case of one character, as `char::to_ascii_lowercase` gives it.
fn char_to_ascii_lowercase(c: char) -> (r: char)
    ensures
        r == ascii_lower(c),
{
    if 'A' <= c && c <= 'Z' {
        let b = c as u8;
        ((b + 32) as char)
    } else {
        c
    }
}

/// Calls `String::push`, which appends one character.
#[verifier::external_body]
fn string_push(s: &mut String, c: char)
    ensures
        final(s)@ == old(s)@.push(c),
{
    s.push(c)
}

/// The characters of `s`, in order.
pub fn chars_of(s: &str) -> (v: Vec<char>)
    ensures
        v@ == s@,
{
    let mut v: Vec<char> = Vec::new();
    for c in it: s.chars()
        invariant
            v@ == it.seq().take(it.index() as int),
    {
        v.push(c);
    }
    v
}

/// The string made of the characters of `cs`, in order.
pub fn string_from_chars(cs: &[char]) -> (s: String)
    ensures
        s@ == cs@,
{
    let mut s = String::new();
    let n = cs.len();
    for i in 0..n
        invariant
            n == cs@.len(),
            s@ == cs@.take(i as int),
    {
        string_push(&mut s, cs[i]);
        assert(cs@.take(i + 1) == cs@.take(i as int).push(cs@[i as int]));
    }
    assert(cs@.take(n as int) == cs@);
    s
}

/// ASCII lower case of `s`, as `str::to_ascii_lowercase` gives it.
pub fn to_ascii_lowercase(s: &str) -> (r: String)
    ensures
        r@ == ascii_lower_seq(s@),
{
    let mut r = String::new();
    for c in it: s.chars()
        invariant
            r@ == ascii_lower_seq(it.seq().take(it.index() as int)),
    {
        let l = char_to_ascii_lowercase(c);
        string_push(&mut r, l);
    }
    r
}

/// Whether `needle` occurs in `hay` as a contiguous piece.
pub open spec fn contains_text(hay: Seq<char>, needle: Seq<char>) -> bool {
    exists|i: int|
        0 <= i && i + needle.len() <= hay.len() && #[trigger] hay.subrange(i, i + needle.len())
            == needle
}

/// Whether `a` and `b` hold the same characters.
pub fn text_equals(a: &[char], b: &[char]) -> (res: bool)
    ensures
        res == (a@ == b@),
{
    if a.len() != b.len() {
        return false;
    }
    let n = a.len();
    for i in 0..n
        invariant
            n == a@.len(),
            n == b@.len(),
            forall|j: int| 0 <= j < i ==> a@[j] == b@[j],
    {
        if a[i] != b[i] {
            return false;
        }
    }
    assert(a@ =~= b@);
    true
}

/// Whether `needle` occurs at position `at` of `hay`.
fn occurs_at(hay: &[char], needle: &[char], at: usize) -> (res: bool)
    requires
        at + needle@.len() <= hay@.len(),
    ensures
        res == (hay@.subrange(at as int, at + needle@.len()) == needle@),
{
    let n = needle.len();
    for j in 0..n
        invariant
            n == needle@.len(),
            at + n <= hay.len(),
            forall|k: int| 0 <= k < j ==> hay@[at + k] == needle@[k],
    {
        if hay[at + j] != needle[j] {
            assert(hay@.subrange(at as int, at + n)[j as int] != needle@[j as int]);
            return false;
        }
    }
    assert(hay@.subrange(at as int, at + n) =~= needle@);
    true
}

/// Whether `needle` occurs in `hay` as a contiguous piece.
pub fn text_contains(hay: &[char], needle: &[char]) -> (res: bool)
    ensures
        res == contains_text(hay@, needle@),
{
    if needle.len() > hay.len() {
        return false;
    }
    if needle.len() == 0 {
        assert(hay@.subrange(0int, 0int + needle@.len()) =~= needle@);
        return true;
    }
    let last = hay.len() - needle.len();
    let mut i: usize = 0;
    while i <= last
        invariant
            last + needle@.len() == hay@.len(),
            needle@.len() > 0,
            last < hay.len(),
            forall|k: int|
                0 <= k < i ==> #[trigger] hay@.subrange(k, k + needle@.len()) != needle@,
        decreases last + 1 - i,
    {
        if occurs_at(hay, needle, i) {
            return true;
        }
        i += 1;
    }
    false
}

/// `s` without its last character when that character is `c`.
pub open spec fn without_last(s: Seq<char>, c: char) -> Seq<char> {
    if s.len() > 0 && s.last() == c {
        s.drop_last()
    } else {
        s
    }
}

/// A line as typed: without one final `\n`, and then without one final `\r`.
pub fn trim_line_ending(line: &str) -> (res: String)
    ensures
        res@ == without_last(without_last(line@, '\n'), '\r'),
{
    let cs = chars_of(line);
    let mut n = cs.len();
    if n > 0 && cs[n - 1] == '\n' {
        n = n - 1;
    }
    let ghost after_newline = cs@.subrange(0, n as int);
    assert(after_newline == without_last(line@, '\n'));
    if n > 0 && cs[n - 1] == '\r' {
        n = n - 1;
    }
    let kept = &cs.as_slice()[0..n];
    string_from_chars(kept)
}

} // verus!
