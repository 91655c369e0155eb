use docsearch::hash::{hash_document, sort_by_count_descending, TermCounts};
use docsearch::lex::parse::get_string_from_xhtml_file;
use docsearch::parse::{
    contents_for_extension, document_text_from_events, get_contents_from_file,
    get_contents_from_xhtml_file, get_local_directories, is_supported_file, is_xhtml_extension,
    xml_is_well_formed, XmlEventKind,
};

const PAGE: &[u8] = b"<html><body><p>Hello</p><p>World <b>GL</b></p></body></html>";

#[test]
fn xhtml_text_joins_character_data() {
    assert_eq!(get_contents_from_xhtml_file(PAGE, false), Some("Hello World  GL ".to_string()));
    assert_eq!(get_contents_from_xhtml_file(PAGE, true), Some("hello world  gl ".to_string()));
}

#[test]
fn well_formedness() {
    assert!(xml_is_well_formed(PAGE));
    assert!(!xml_is_well_formed(b"<html><p>open"));
    assert!(!xml_is_well_formed(b"<a></b>"));
}

#[test]
fn malformed_documents_have_no_contents() {
    assert_eq!(get_contents_from_file("a/b.txt", b"<a></b>", false), None);
}

#[test]
fn string_from_xhtml_file_matches_contents() {
    assert_eq!(Some(get_string_from_xhtml_file(PAGE, true)), get_contents_from_xhtml_file(PAGE, true));
}

#[test]
fn only_character_events_carry_document_text() {
    let events = vec![
        (XmlEventKind::StartDocument, None),
        (XmlEventKind::Characters, Some("A".to_string())),
        (XmlEventKind::Whitespace, Some("  ".to_string())),
        (XmlEventKind::Comment, Some("note".to_string())),
        (XmlEventKind::CData, Some("raw".to_string())),
        (XmlEventKind::StartElement, None),
        (XmlEventKind::Characters, Some("b".to_string())),
        (XmlEventKind::EndDocument, None),
    ];
    assert_eq!(document_text_from_events(&events, false), "A b ");
    assert_eq!(document_text_from_events(&events, true), "a b ");
    assert_eq!(document_text_from_events(&vec![], true), "");
}

#[test]
fn comments_and_cdata_are_not_document_text() {
    let page = b"<?xml version=\"1.0\"?><html><!-- hidden --><p>Shown<![CDATA[raw]]></p></html>";
    assert_eq!(get_contents_from_xhtml_file(page, false), Some("Shown ".to_string()));
}

#[test]
fn extensions() {
    assert!(is_xhtml_extension(&Some("xhtml".to_string())));
    assert!(!is_xhtml_extension(&Some("html".to_string())));
    assert!(!is_xhtml_extension(&None));
    assert!(is_supported_file("docs.gl/gl4/glBindBuffer.xhtml"));
    assert!(!is_supported_file("docs.gl/index.html"));
    assert!(!is_supported_file("xhtml"));
    assert!(!is_supported_file("docs.gl/.xhtml"));
    assert!(!is_supported_file(".xhtml"));
    assert!(!is_supported_file("page.XHTML"));
    assert!(is_supported_file("docs.gl/..xhtml"));
    assert!(is_supported_file("docs.gl\\gl4\\glBindBuffer.xhtml"));
    assert!(is_supported_file("a\\b.xhtml"));
    assert!(is_supported_file("docs.gl/gl4.xhtml/"));
    assert!(is_supported_file("docs.gl/gl4.xhtml//"));
}

#[test]
fn contents_only_for_xhtml_files() {
    assert_eq!(
        get_contents_from_file("a/b.xhtml", PAGE, true),
        Some("hello world  gl ".to_string())
    );
    assert_eq!(get_contents_from_file("a/b.html", PAGE, true), None);
    assert_eq!(get_contents_from_file("notes.txt", PAGE, true), None);
    assert_eq!(
        get_contents_from_file("docs\\b.xhtml", PAGE, true),
        Some("hello world  gl ".to_string())
    );
    assert_eq!(get_contents_from_file("Makefile", PAGE, false), None);
    assert_eq!(get_contents_from_file(".xhtml", PAGE, false), None);
    assert_eq!(get_contents_from_file("page.XHTML", PAGE, false), None);
    assert_eq!(contents_for_extension(&None, PAGE, true), None);
    assert_eq!(
        contents_for_extension(&Some("xhtml".to_string()), PAGE, false),
        Some("Hello World  GL ".to_string())
    );
}

#[test]
fn local_directories_leave_out_git() {
    let subdirs = vec![
        "docs.gl/gl4".to_string(),
        "docs.gl/.git".to_string(),
        "docs.gl/.git/objects".to_string(),
        "docs.gl/es3".to_string(),
        "docs.gl/legit".to_string(),
    ];
    assert_eq!(
        get_local_directories("docs.gl", &subdirs),
        vec!["docs.gl", "docs.gl/gl4", "docs.gl/es3"]
    );
    assert_eq!(get_local_directories("git-repo", &vec![]), vec!["git-repo"]);
}

#[test]
fn hash_document_counts_tokens() {
    let counts = hash_document("a b a, c! a 7");
    assert_eq!(counts.count("a"), 3);
    assert_eq!(counts.count("b"), 1);
    assert_eq!(counts.count("7"), 1);
    assert_eq!(counts.count("z"), 0);
    assert!(counts.contains("c"));
    assert!(!counts.contains("A"));
    assert_eq!(counts.total_words(), 6);
    assert_eq!(counts.len(), 4);
}

#[test]
fn hash_document_of_empty_text() {
    let counts = hash_document(" ... ");
    assert_eq!(counts.total_words(), 0);
    assert_eq!(counts.len(), 0);
    assert!(counts.entries().is_empty());
}

#[test]
fn term_counts_by_hand() {
    let mut counts = TermCounts::new();
    counts.add("x".to_string());
    counts.add("y".to_string());
    counts.add("x".to_string());
    assert_eq!(counts.count("x"), 2);
    assert_eq!(counts.total_words(), 3);
    assert_eq!(counts.entries(), vec![("x".to_string(), 2), ("y".to_string(), 1)]);
}

#[test]
fn entries_sorted_by_count() {
    let counts = hash_document("b a c a c a");
    let sorted = sort_by_count_descending(&counts.entries());
    assert_eq!(sorted[0], ("a".to_string(), 3));
    assert_eq!(sorted[1], ("c".to_string(), 2));
    assert_eq!(sorted[2], ("b".to_string(), 1));
}

#[test]
fn sorting_keeps_every_entry() {
    let entries = vec![
        ("p".to_string(), 1),
        ("q".to_string(), 5),
        ("r".to_string(), 1),
        ("s".to_string(), 3),
    ];
    let sorted = sort_by_count_descending(&entries);
    assert_eq!(sorted.len(), 4);
    let counts: Vec<u32> = sorted.iter().map(|e| e.1).collect();
    assert_eq!(counts, vec![5, 3, 1, 1]);
    for e in &entries {
        assert!(sorted.contains(e));
    }
}

#[test]
fn document_terms_are_the_query_tokens_of_its_text() {
    let text = "glBindBuffer binds a buffer; glBindBuffer 2";
    let counts = hash_document(text);
    let tokens = docsearch::parse::tokenize_string(text, false);
    for t in &tokens {
        assert!(counts.contains(t));
    }
    for (term, _) in counts.entries() {
        assert!(tokens.contains(&term));
    }
    assert_eq!(counts.total_words() as usize, tokens.len());
}

#[test]
fn supported_files_have_the_extension_in_their_path() {
    assert!(is_supported_file("a/b.tar.xhtml"));
    assert!(!is_supported_file("a/b.xhtml.gz"));
    assert!(!is_supported_file("noextension"));
}

#[test]
fn document_without_character_data_has_empty_text() {
    assert_eq!(get_contents_from_xhtml_file(b"<html><br/><!-- c --></html>", false), Some(String::new()));
    let text = get_contents_from_xhtml_file(b"<r><p>A</p><q>B</q></r>", true).unwrap();
    assert!(text.ends_with(' '));
}

#[test]
fn folded_counts_sum_the_case_variants() {
    let text = "Texture TEXTURE texture Tex tex";
    let plain = hash_document(text);
    let folded = hash_document(&docsearch::text::to_ascii_lowercase(text));
    let mut sum = 0;
    for (term, count) in plain.entries() {
        if term.to_ascii_lowercase() == "texture" {
            sum += count;
        }
    }
    assert_eq!(folded.count("texture"), sum);
    assert_eq!(folded.count("tex"), plain.count("Tex") + plain.count("tex"));
}
