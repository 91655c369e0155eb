use docsearch::text::{
    chars_of, string_from_chars, text_contains, text_equals, to_ascii_lowercase, trim_line_ending,
};

#[test]
fn ascii_lowercase_folds_only_ascii_letters() {
    assert_eq!(to_ascii_lowercase("HeLLo WORLD 42 ÄÖ"), "hello world 42 ÄÖ");
}

#[test]
fn ascii_lowercase_is_idempotent() {
    let once = to_ascii_lowercase("MiXeD CaSe");
    assert_eq!(to_ascii_lowercase(&once), once);
}

#[test]
fn chars_round_trip() {
    let cs = chars_of("añb");
    assert_eq!(cs, vec!['a', 'ñ', 'b']);
    assert_eq!(string_from_chars(&cs), "añb");
}

#[test]
fn text_search() {
    let hay = chars_of("docs.gl/.github");
    assert!(text_contains(&hay, &chars_of("git")));
    assert!(!text_contains(&hay, &chars_of("gits")));
    assert!(text_contains(&hay, &chars_of("")));
    assert!(text_equals(&chars_of("abc"), &chars_of("abc")));
    assert!(!text_equals(&chars_of("abc"), &chars_of("abd")));
    assert!(!text_equals(&chars_of("abc"), &chars_of("ab")));
}

#[test]
fn line_endings_are_trimmed_once() {
    assert_eq!(trim_line_ending("query\r\n"), "query");
    assert_eq!(trim_line_ending("query\n"), "query");
    assert_eq!(trim_line_ending("query\r"), "query");
    assert_eq!(trim_line_ending("query\n\n"), "query\n");
    assert_eq!(trim_line_ending("query\n\r"), "query\n");
    assert_eq!(trim_line_ending(""), "");
}
