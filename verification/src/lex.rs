//! The lexer: splits a character sequence into word tokens (a letter followed
//! by letters and digits) and number tokens (a run of digits); everything
//! else separates tokens.

pub mod parse;

use vstd::prelude::*;
use crate::text::{
    is_alphabetic_char, char_is_alphabetic, char_is_alphanumeric, char_is_numeric,
    char_is_whitespace, contains_text, is_common_letter, is_word_char, is_numeric_char,
    is_white_space,
};

verus! {

/// The classes of characters that the lexer skips over or collects.
pub enum CharClass {
    /// `char::is_whitespace`
    Whitespace,
    /// neither alphabetic nor numeric
    Separator,
    /// alphabetic or numeric: the body of a word token
    Word,
    /// numeric: the body of a number token
    Digit,
}

/// Whether `c` belongs to class `k`.
pub open spec fn in_class(c: char, k: CharClass) -> bool {
    match k {
        CharClass::Whitespace => is_white_space(c),
        CharClass::Separator => !is_word_char(c),
        CharClass::Word => is_word_char(c),
        CharClass::Digit => is_numeric_char(c),
    }
}

/// The end of the longest run of class-`k` characters of `s` that starts at `i`.
pub open spec fn run_end(s: Seq<char>, i: int, k: CharClass) -> int
    decreases s.len() - i,
{
    if 0 <= i < s.len() && in_class(s[i], k) {
        run_end(s, i + 1, k)
    } else {
        i
    }
}

/// Where the next token of `s` starts: after the leading whitespace, then the
/// leading separators.
pub open spec fn token_start(s: Seq<char>) -> int {
    run_end(s, run_end(s, 0, CharClass::Whitespace), CharClass::Separator)
}

/// Where a token that starts at `start` ends: a word token runs over letters
/// and digits, a number token over digits.
pub open spec fn token_end(s: Seq<char>, start: int) -> int {
    if is_alphabetic_char(s[start]) {
        run_end(s, start + 1, CharClass::Word)
    } else {
        run_end(s, start + 1, CharClass::Digit)
    }
}

/// The next token of `s` and what remains of `s` after it, or `None` when
/// `s` holds no more token.
pub open spec fn next_token_of(s: Seq<char>) -> Option<(Seq<char>, Seq<char>)> {
    let a = token_start(s);
    if a < s.len() {
        let e = token_end(s, a);
        Some((s.subrange(a, e), s.subrange(e, s.len() as int)))
    } else {
        None
    }
}

/// Bounds of a run: it starts at `i`, stays within `s`, holds only class-`k`
/// characters, and stops at the end of `s` or at a character outside `k`.
pub proof fn lemma_run_end(s: Seq<char>, i: int, k: CharClass)
    requires
        0 <= i <= s.len(),
    ensures
        i <= run_end(s, i, k) <= s.len(),
        forall|j: int| i <= j < run_end(s, i, k) ==> in_class(#[trigger] s[j], k),
        run_end(s, i, k) < s.len() ==> !in_class(s[run_end(s, i, k)], k),
    decreases s.len() - i,
{
    if i < s.len() && in_class(s[i], k) {
        lemma_run_end(s, i + 1, k);
    }
}

/// The next token, when there is one, is not empty and leaves less behind.
pub proof fn lemma_next_token_shrinks(s: Seq<char>)
    ensures
        0 <= token_start(s) <= s.len(),
        next_token_of(s) matches Some((t, rest)) ==> {
            &&& token_start(s) < token_end(s, token_start(s)) <= s.len()
            &&& t.len() > 0
            &&& rest.len() < s.len()
        },
        next_token_of(s) is None ==> token_start(s) == s.len(),
{
    lemma_run_end(s, 0, CharClass::Whitespace);
    lemma_run_end(s, run_end(s, 0, CharClass::Whitespace), CharClass::Separator);
    let a = token_start(s);
    if a < s.len() {
        lemma_run_end(s, a + 1, CharClass::Word);
        lemma_run_end(s, a + 1, CharClass::Digit);
    }
}

/// All tokens of `s`, in order.
pub open spec fn tokens(s: Seq<char>) -> Seq<Seq<char>>
    decreases s.len(),
{
    match next_token_of(s) {
        Some((t, rest)) => {
            proof {
                lemma_next_token_shrinks(s);
            }
            seq![t] + tokens(rest)
        },
        None => Seq::empty(),
    }
}

/// There are never more tokens than characters.
pub proof fn lemma_tokens_len(s: Seq<char>)
    ensures
        tokens(s).len() <= s.len(),
    decreases s.len(),
{
    lemma_next_token_shrinks(s);
    if let Some((t, rest)) = next_token_of(s) {
        lemma_tokens_len(rest);
    }
}

/// Every token is a non-empty piece of the text made of letters and digits:
/// a word starts with a letter, a number holds digits only.
pub proof fn lemma_tokens_are_words(s: Seq<char>)
    ensures
        forall|i: int|
            0 <= i < tokens(s).len() ==> {
                let t = #[trigger] tokens(s)[i];
                &&& t.len() > 0
                &&& contains_text(s, t)
                &&& forall|j: int| 0 <= j < t.len() ==> is_word_char(#[trigger] t[j])
                &&& is_alphabetic_char(t[0]) || forall|j: int|
                    0 <= j < t.len() ==> is_numeric_char(#[trigger] t[j])
            },
    decreases s.len(),
{
    lemma_next_token_shrinks(s);
    if let Some((t, rest)) = next_token_of(s) {
        let a = token_start(s);
        let e = token_end(s, a);
        let w = run_end(s, 0, CharClass::Whitespace);
        lemma_run_end(s, 0, CharClass::Whitespace);
        lemma_run_end(s, w, CharClass::Separator);
        lemma_run_end(s, a + 1, CharClass::Word);
        lemma_run_end(s, a + 1, CharClass::Digit);
        lemma_tokens_are_words(rest);
        assert(is_word_char(s[a]));
        assert(s.subrange(a, a + t.len()) == t);
        assert forall|i: int| 0 <= i < tokens(s).len() implies {
            let x = #[trigger] tokens(s)[i];
            &&& x.len() > 0
            &&& contains_text(s, x)
            &&& forall|j: int| 0 <= j < x.len() ==> is_word_char(#[trigger] x[j])
            &&& is_alphabetic_char(x[0]) || forall|j: int|
                0 <= j < x.len() ==> is_numeric_char(#[trigger] x[j])
        } by {
            if i == 0 {
                assert(tokens(s)[0] == t);
                assert forall|j: int| 0 <= j < t.len() implies is_word_char(#[trigger] t[j]) by {
                    assert(t[j] == s[a + j]);
                    if j > 0 {
                        assert(in_class(s[a + j], CharClass::Word) || in_class(
                            s[a + j],
                            CharClass::Digit,
                        ));
                    }
                }
                if !is_alphabetic_char(t[0]) {
                    assert forall|j: int| 0 <= j < t.len() implies is_numeric_char(#[trigger] t[j]) by {
                        assert(t[j] == s[a + j]);
                        if j > 0 {
                            assert(in_class(s[a + j], CharClass::Digit));
                        }
                    }
                }
            } else {
                let x = tokens(rest)[i - 1];
                assert(tokens(s)[i] == x);
                let k = choose|k: int|
                    0 <= k && k + x.len() <= rest.len() && #[trigger] rest.subrange(k, k + x.len())
                        == x;
                assert(s.subrange(e + k, e + k + x.len()) == rest.subrange(k, k + x.len()));
            }
        }
    }
}

/// A text that holds no letter and no digit has no token.
pub proof fn lemma_no_word_chars_no_tokens(s: Seq<char>)
    requires
        forall|i: int| 0 <= i < s.len() ==> !is_word_char(#[trigger] s[i]),
    ensures
        tokens(s) == Seq::<Seq<char>>::empty(),
{
    lemma_next_token_shrinks(s);
    if next_token_of(s) is Some {
        let w = run_end(s, 0, CharClass::Whitespace);
        lemma_run_end(s, 0, CharClass::Whitespace);
        lemma_run_end(s, w, CharClass::Separator);
        assert(!in_class(s[token_start(s)], CharClass::Separator));
    }
}

/// Once the text is used up the lexer yields nothing more, however often it
/// is asked.
pub proof fn lemma_exhausted_lexer_stays_exhausted()
    ensures
        next_token_of(Seq::<char>::empty()) is None,
        tokens(Seq::<char>::empty()) == Seq::<Seq<char>>::empty(),
{
}

/// No white-space character is a letter or a digit.
pub proof fn lemma_white_space_not_word(c: char)
    ensures
        is_white_space(c) ==> !is_word_char(c),
{
}

/// The letters and digits of `s`, in order.
pub open spec fn word_chars(s: Seq<char>) -> Seq<char>
    decreases s.len(),
{
    if s.len() == 0 {
        Seq::empty()
    } else {
        word_chars(s.drop_last()) + if is_word_char(s.last()) {
            seq![s.last()]
        } else {
            Seq::empty()
        }
    }
}

/// The tokens of `ts` written one after the other.
pub open spec fn concat_tokens(ts: Seq<Seq<char>>) -> Seq<char>
    decreases ts.len(),
{
    if ts.len() == 0 {
        Seq::empty()
    } else {
        ts[0] + concat_tokens(ts.drop_first())
    }
}

proof fn lemma_word_chars_add(x: Seq<char>, y: Seq<char>)
    ensures
        word_chars(x + y) == word_chars(x) + word_chars(y),
    decreases y.len(),
{
    if y.len() == 0 {
        assert(x + y == x);
    } else {
        lemma_word_chars_add(x, y.drop_last());
        assert((x + y).drop_last() == x + y.drop_last());
        assert((x + y).last() == y.last());
    }
}

proof fn lemma_word_chars_of_run(s: Seq<char>, all_word: bool)
    requires
        forall|j: int| 0 <= j < s.len() ==> is_word_char(#[trigger] s[j]) == all_word,
    ensures
        word_chars(s) == if all_word {
            s
        } else {
            Seq::empty()
        },
    decreases s.len(),
{
    if s.len() > 0 {
        lemma_word_chars_of_run(s.drop_last(), all_word);
        assert(s.last() == s[s.len() - 1]);
        assert(s.drop_last().push(s.last()) == s);
    }
}

/// Together the tokens of a text are exactly its letters and digits, in
/// order: each lands in exactly one token and nothing else does.
pub proof fn lemma_tokens_are_word_chars(s: Seq<char>)
    ensures
        concat_tokens(tokens(s)) == word_chars(s),
    decreases s.len(),
{
    lemma_next_token_shrinks(s);
    let w = run_end(s, 0, CharClass::Whitespace);
    lemma_run_end(s, 0, CharClass::Whitespace);
    lemma_run_end(s, w, CharClass::Separator);
    let a = token_start(s);
    assert forall|j: int| 0 <= j < a implies !is_word_char(#[trigger] s[j]) by {
        if j < w {
            assert(in_class(s[j], CharClass::Whitespace));
            lemma_white_space_not_word(s[j]);
        } else {
            assert(in_class(s[j], CharClass::Separator));
        }
    }
    let head = s.subrange(0, a);
    lemma_word_chars_of_run(head, false);
    match next_token_of(s) {
        Some((t, rest)) => {
            let e = token_end(s, a);
            lemma_run_end(s, a + 1, CharClass::Word);
            lemma_run_end(s, a + 1, CharClass::Digit);
            lemma_tokens_are_words(s);
            assert(tokens(s)[0] == t);
            assert forall|j: int| 0 <= j < t.len() implies is_word_char(#[trigger] t[j]) == true by {
                let x = tokens(s)[0];
                assert(is_word_char(x[j]));
            }
            lemma_word_chars_of_run(t, true);
            lemma_tokens_are_word_chars(rest);
            assert(s == head + t + rest);
            lemma_word_chars_add(head + t, rest);
            lemma_word_chars_add(head, t);
            let ts = tokens(s);
            assert(ts == seq![t] + tokens(rest));
            assert(ts.drop_first() == tokens(rest));
        },
        None => {
            assert(head == s);
        },
    }
}

/// A token as the lexer makes it: not empty, letters and digits only, and
/// either starting with a letter or made of digits only.
pub open spec fn is_token(t: Seq<char>) -> bool {
    &&& t.len() > 0
    &&& forall|j: int| 0 <= j < t.len() ==> is_word_char(#[trigger] t[j])
    &&& is_alphabetic_char(t[0]) || forall|j: int| 0 <= j < t.len() ==> is_numeric_char(#[trigger] t[j])
}

/// Tokens written one after the other, separated by single spaces.
pub open spec fn joined(ts: Seq<Seq<char>>) -> Seq<char>
    decreases ts.len(),
{
    if ts.len() == 0 {
        Seq::empty()
    } else if ts.len() == 1 {
        ts[0]
    } else {
        ts[0] + seq![' '] + joined(ts.drop_first())
    }
}

proof fn lemma_run_end_exact(s: Seq<char>, i: int, j: int, k: CharClass)
    requires
        0 <= i <= j <= s.len(),
        forall|m: int| i <= m < j ==> in_class(#[trigger] s[m], k),
        j == s.len() || !in_class(s[j], k),
    ensures
        run_end(s, i, k) == j,
    decreases j - i,
{
    if i < j {
        lemma_run_end_exact(s, i + 1, j, k);
    }
}

/// A token followed by the end of the text or by a space is read as that
/// token, and the lexer goes on after it.
proof fn lemma_next_token_of_token(t: Seq<char>, r: Seq<char>)
    requires
        is_token(t),
        r.len() == 0 || r[0] == ' ',
    ensures
        next_token_of(t + r) == Some((t, r)),
{
    let s = t + r;
    let n = t.len() as int;
    assert(s[0] == t[0]);
    assert(is_word_char(t[0]));
    lemma_white_space_not_word(t[0]);
    lemma_run_end_exact(s, 0, 0, CharClass::Whitespace);
    lemma_run_end_exact(s, 0, 0, CharClass::Separator);
    assert(token_start(s) == 0);
    if is_alphabetic_char(t[0]) {
        assert forall|m: int| 1 <= m < n implies in_class(#[trigger] s[m], CharClass::Word) by {
            assert(s[m] == t[m]);
        }
        if r.len() > 0 {
            assert(s[n] == ' ');
        }
        lemma_run_end_exact(s, 1, n, CharClass::Word);
    } else {
        assert forall|m: int| 1 <= m < n implies in_class(#[trigger] s[m], CharClass::Digit) by {
            assert(s[m] == t[m]);
        }
        if r.len() > 0 {
            assert(s[n] == ' ');
        }
        lemma_run_end_exact(s, 1, n, CharClass::Digit);
    }
    assert(token_end(s, 0) == n);
    assert(s.subrange(0, n) == t);
    assert(s.subrange(n, s.len() as int) == r);
}

/// A leading space changes no token.
proof fn lemma_tokens_skip_space(x: Seq<char>)
    ensures
        tokens(seq![' '] + x) == tokens(x),
{
    let s = seq![' '] + x;
    assert(s.subrange(1, s.len() as int) == x);
    lemma_run_end_shift(s, 1, 0, CharClass::Whitespace);
    let wx = run_end(x, 0, CharClass::Whitespace);
    assert(run_end(s, 0, CharClass::Whitespace) == run_end(s, 1, CharClass::Whitespace));
    lemma_run_end(x, 0, CharClass::Whitespace);
    lemma_run_end_shift(s, 1, wx, CharClass::Separator);
    lemma_next_token_shrinks(x);
    lemma_next_token_shrinks(s);
    let ax = token_start(x);
    assert(token_start(s) == ax + 1);
    if ax < x.len() {
        assert(s[ax + 1] == x[ax]);
        lemma_run_end_shift(s, 1, ax + 1, CharClass::Word);
        lemma_run_end_shift(s, 1, ax + 1, CharClass::Digit);
        assert(token_end(s, ax + 1) == token_end(x, ax) + 1);
        let ex = token_end(x, ax);
        assert(s.subrange(ax + 1, ex + 1) == x.subrange(ax, ex));
        assert(s.subrange(ex + 1, s.len() as int) == x.subrange(ex, x.len() as int));
        assert(next_token_of(s) == next_token_of(x));
    }
}

/// Reading tokens written out with single spaces between them gives them back.
pub proof fn lemma_tokens_of_joined(ts: Seq<Seq<char>>)
    requires
        forall|i: int| 0 <= i < ts.len() ==> is_token(#[trigger] ts[i]),
    ensures
        tokens(joined(ts)) == ts,
    decreases ts.len(),
{
    if ts.len() == 0 {
        assert(tokens(Seq::<char>::empty()) == Seq::<Seq<char>>::empty());
    } else if ts.len() == 1 {
        assert(is_token(ts[0]));
        lemma_next_token_of_token(ts[0], Seq::empty());
        assert(ts[0] + Seq::<char>::empty() == ts[0]);
        assert(tokens(ts[0]) == seq![ts[0]] + tokens(Seq::<char>::empty()));
        assert(tokens(ts[0]) =~= ts);
    } else {
        let rest = ts.drop_first();
        assert forall|i: int| 0 <= i < rest.len() implies is_token(#[trigger] rest[i]) by {
            assert(rest[i] == ts[i + 1]);
        }
        lemma_tokens_of_joined(rest);
        assert(is_token(ts[0]));
        let r = seq![' '] + joined(rest);
        assert(joined(ts) == ts[0] + r);
        lemma_next_token_of_token(ts[0], r);
        lemma_tokens_skip_space(joined(rest));
        assert(tokens(joined(ts)) == seq![ts[0]] + tokens(r));
        assert(tokens(joined(ts)) =~= ts);
    }
}

/// Words of letters, including the letters of other scripts listed in
/// `is_common_letter` (such as CJK ideographs, Hangul, Hiragana, Katakana,
/// Hebrew, Arabic, Greek and Cyrillic), written with single spaces between
/// them, are read back as exactly those words.
pub proof fn lemma_letter_words_are_tokens(ws: Seq<Seq<char>>)
    requires
        forall|i: int|
            0 <= i < ws.len() ==> (#[trigger] ws[i]).len() > 0 && forall|j: int|
                0 <= j < ws[i].len() ==> (is_common_letter(#[trigger] ws[i][j]) || ('a' <= ws[i][j]
                    && ws[i][j] <= 'z') || ('A' <= ws[i][j] && ws[i][j] <= 'Z')),
    ensures
        tokens(joined(ws)) == ws,
{
    assert forall|i: int| 0 <= i < ws.len() implies is_token(#[trigger] ws[i]) by {
        let w = ws[i];
        assert forall|j: int| 0 <= j < w.len() implies is_word_char(#[trigger] w[j]) by {
            assert(is_common_letter(w[j]) || ('a' <= w[j] && w[j] <= 'z') || ('A' <= w[j] && w[j] <= 'Z'));
        }
        assert(is_common_letter(w[0]) || ('a' <= w[0] && w[0] <= 'z') || ('A' <= w[0] && w[0] <= 'Z'));
    }
    lemma_tokens_of_joined(ws);
}

/// Every token the lexer reads is a token in the sense of `is_token`.
pub proof fn lemma_tokens_are_tokens(s: Seq<char>)
    ensures
        forall|i: int| 0 <= i < tokens(s).len() ==> is_token(#[trigger] tokens(s)[i]),
{
    lemma_tokens_are_words(s);
    assert forall|i: int| 0 <= i < tokens(s).len() implies is_token(#[trigger] tokens(s)[i]) by {
        let t = tokens(s)[i];
        assert(t.len() > 0);
        assert(forall|j: int| 0 <= j < t.len() ==> is_word_char(#[trigger] t[j]));
    }
}

/// A lexer over a borrowed character slice; its view is what is left to lex.
pub struct Lexer<'a> {
    content: &'a [char],
}

impl<'a> View for Lexer<'a> {
    type V = Seq<char>;

    closed spec fn view(&self) -> Seq<char> {
        self.content@
    }
}

impl<'a> Lexer<'a> {
    /// A lexer over all of `content`.
    pub fn new(content: &'a [char]) -> (l: Lexer<'a>)
        ensures
            l@ == content@,
    {
        Self { content }
    }

    /// Drops the leading whitespace.
    fn skip_whitespace(&mut self)
        ensures
            final(self)@ == old(self)@.subrange(
                run_end(old(self)@, 0, CharClass::Whitespace),
                old(self)@.len() as int,
            ),
    {
        let ghost s = self@;
        let ghost mut k: int = 0;
        while self.content.len() > 0 && char_is_whitespace(self.content[0])
            invariant
                0 <= k <= s.len(),
                self@ == s.subrange(k, s.len() as int),
                run_end(s, k, CharClass::Whitespace) == run_end(s, 0, CharClass::Whitespace),
            decreases self@.len(),
        {
            let c = self.content;
            self.content = &c[1..c.len()];
            proof {
                k = k + 1;
            }
        }
    }

    /// Drops the leading characters that are neither alphabetic nor numeric.
    fn skip_junk(&mut self)
        ensures
            final(self)@ == old(self)@.subrange(
                run_end(old(self)@, 0, CharClass::Separator),
                old(self)@.len() as int,
            ),
    {
        let ghost s = self@;
        let ghost mut k: int = 0;
        while self.content.len() > 0 && (!char_is_alphabetic(self.content[0])
            && !char_is_numeric(self.content[0]))
            invariant
                0 <= k <= s.len(),
                self@ == s.subrange(k, s.len() as int),
                run_end(s, k, CharClass::Separator) == run_end(s, 0, CharClass::Separator),
            decreases self@.len(),
        {
            let c = self.content;
            self.content = &c[1..c.len()];
            proof {
                k = k + 1;
            }
        }
    }

    /// Returns the next token and moves past it, or `None` when no token is left
    /// (and then nothing is left).
    pub fn next_token(&mut self) -> (res: Option<&'a [char]>)
        ensures
            match next_token_of(old(self)@) {
                Some((t, rest)) => res matches Some(tok) && tok@ == t && final(self)@ == rest,
                None => res is None && final(self)@ == Seq::<char>::empty(),
            },
            res is Some ==> final(self)@.len() < old(self)@.len(),
    {
        let ghost s = self@;
        proof {
            lemma_next_token_shrinks(s);
            lemma_run_end(s, 0, CharClass::Whitespace);
        }
        self.skip_whitespace();
        let ghost w = run_end(s, 0, CharClass::Whitespace);
        assert(self@.len() == s.len() - w);
        proof {
            lemma_run_end(s, w, CharClass::Separator);
            lemma_run_end(self@, 0, CharClass::Separator);
            lemma_run_end_shift(s, w, 0, CharClass::Separator);
        }
        self.skip_junk();
        let ghost a = token_start(s);
        assert(self@ == s.subrange(a, s.len() as int));
        if self.content.len() == 0 {
            return None;
        }
        let c = self.content;
        let n = c.len();
        if char_is_alphabetic(c[0]) {
            let mut i: usize = 1;
            while i < n && char_is_alphanumeric(c[i])
                invariant
                    1 <= i <= n,
                    n == c@.len(),
                    c@ == s.subrange(a, s.len() as int),
                    0 <= a < s.len(),
                    run_end(s, a + i, CharClass::Word) == run_end(s, a + 1, CharClass::Word),
                decreases n - i,
            {
                i += 1;
            }
            let token = &c[0..i];
            self.content = &c[i..n];
            Some(token)
        } else {
            let mut i: usize = 1;
            while i < n && char_is_numeric(c[i])
                invariant
                    1 <= i <= n,
                    n == c@.len(),
                    c@ == s.subrange(a, s.len() as int),
                    0 <= a < s.len(),
                    run_end(s, a + i, CharClass::Digit) == run_end(s, a + 1, CharClass::Digit),
                decreases n - i,
            {
                i += 1;
            }
            let token = &c[0..i];
            self.content = &c[i..n];
            Some(token)
        }
    }
}

/// A run over a suffix of `s` ends where the same run over `s` ends, shifted.
pub proof fn lemma_run_end_shift(s: Seq<char>, off: int, i: int, k: CharClass)
    requires
        0 <= off <= s.len(),
        0 <= i <= s.len() - off,
    ensures
        run_end(s.subrange(off, s.len() as int), i, k) + off == run_end(s, i + off, k),
    decreases s.len() - off - i,
{
    if i < s.len() - off && in_class(s[i + off], k) {
        lemma_run_end_shift(s, off, i + 1, k);
    }
}

} // verus!
