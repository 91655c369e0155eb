use docsearch::lex::parse::parse_string;
use docsearch::lex::Lexer;
use docsearch::parse::tokenize_string;

fn all_tokens(text: &str) -> Vec<String> {
    let chars: Vec<char> = text.chars().collect();
    let mut lexer = Lexer::new(&chars);
    let mut out = Vec::new();
    while let Some(token) = lexer.next_token() {
        out.push(token.iter().collect::<String>());
    }
    out
}

#[test]
fn lexer_splits_words_and_numbers() {
    assert_eq!(
        all_tokens("Hello, world 42abc x1y2"),
        vec!["Hello", "world", "42", "abc", "x1y2"]
    );
}

#[test]
fn lexer_skips_leading_junk_and_whitespace() {
    assert_eq!(all_tokens("  \t\n--==glTexImage2D(...)"), vec!["glTexImage2D"]);
}

#[test]
fn lexer_number_stops_at_letter() {
    assert_eq!(all_tokens("3d 10.5"), vec!["3", "d", "10", "5"]);
}

#[test]
fn lexer_on_text_without_letters_yields_nothing() {
    assert!(all_tokens("  ,.;:!? -- ").is_empty());
    assert!(all_tokens("").is_empty());
}

#[test]
fn lexer_stays_exhausted() {
    let chars: Vec<char> = "one".chars().collect();
    let mut lexer = Lexer::new(&chars);
    assert_eq!(lexer.next_token().map(|t| t.iter().collect::<String>()), Some("one".to_string()));
    assert!(lexer.next_token().is_none());
    assert!(lexer.next_token().is_none());
}

#[test]
fn lexer_handles_unicode_letters() {
    assert_eq!(all_tokens("café über_naïve"), vec!["café", "über", "naïve"]);
}

#[test]
fn tokenize_string_keeps_case_when_asked() {
    assert_eq!(tokenize_string("Foo BAR baz", false), vec!["Foo", "BAR", "baz"]);
}

#[test]
fn tokenize_string_folds_ascii_case() {
    assert_eq!(tokenize_string("Foo BAR baz", true), vec!["foo", "bar", "baz"]);
    assert_eq!(tokenize_string("ÜBER Größe", true), vec!["Über", "größe"]);
}

#[test]
fn parse_string_matches_tokenize_string() {
    assert_eq!(parse_string("glBindBuffer target", true), vec!["glbindbuffer", "target"]);
    assert_eq!(parse_string("x, y", false), tokenize_string("x, y", false));
}

#[test]
fn tokens_together_are_the_letters_and_digits() {
    for text in ["a-b c1", "  Hello, wörld 42abc\u{a0}x\u{3000}y ", "...", "3d 10.5"] {
        let joined: String = tokenize_string(text, false).concat();
        let letters: String = text.chars().filter(|c| c.is_alphanumeric()).collect();
        assert_eq!(joined, letters);
    }
}

#[test]
fn retokenizing_joined_tokens_gives_them_back() {
    for lowercase in [false, true] {
        let r = tokenize_string("GL_TEXTURE_2D binds 3d Über-textures, x1", lowercase);
        assert_eq!(tokenize_string(&r.join(" "), lowercase), r);
    }
}

#[test]
fn folding_before_or_after_splitting_agrees() {
    let q = "GLbind Buffer_DATA 42X ÜBER";
    assert_eq!(tokenize_string(q, true), tokenize_string(&q.to_ascii_lowercase(), false));
    let folded: Vec<String> =
        tokenize_string(q, false).iter().map(|w| w.to_ascii_lowercase()).collect();
    assert_eq!(tokenize_string(q, true), folded);
}

#[test]
fn folding_merges_case_variant_counts() {
    let text = "Foo foo FOO bar Bar";
    let plain = docsearch::hash::hash_document(text);
    let folded = docsearch::hash::hash_document(&docsearch::text::to_ascii_lowercase(text));
    assert_eq!(folded.count("foo"), plain.count("Foo") + plain.count("foo") + plain.count("FOO"));
    assert_eq!(folded.count("bar"), 2);
    assert_eq!(folded.total_words(), plain.total_words());
}
