//! Turning documents and queries into text and tokens.

use vstd::prelude::*;
use crate::engine::count_in;
use crate::hash::{
    lemma_occurrences_absent, lemma_occurrences_bound, lemma_token_counts, occurrences, token_counts,
};
use crate::lex::{
    in_class, is_token, joined, lemma_next_token_shrinks, lemma_tokens_are_tokens,
    lemma_tokens_of_joined, next_token_of, run_end, token_end, token_start, tokens, CharClass,
    Lexer,
};
use vstd::string::StringExecFns;
use xml::reader::XmlEvent;
use crate::text::{
    ascii_lower, is_alphabetic_char, is_numeric_char, is_white_space, is_word_char,
    lemma_ascii_lower_idempotent,
    ascii_lower_seq, chars_of, contains_text, string_from_chars, string_views, text_contains,
    text_equals, to_ascii_lowercase,
};

verus! {

/// Each token in ASCII lower case.
pub open spec fn lower_tokens(ts: Seq<Seq<char>>) -> Seq<Seq<char>> {
    ts.map_values(|t: Seq<char>| ascii_lower_seq(t))
}

/// The tokens of `s`, folded to ASCII lower case when `lowercase` holds.
pub open spec fn query_tokens(s: Seq<char>, lowercase: bool) -> Seq<Seq<char>> {
    if lowercase {
        lower_tokens(tokens(s))
    } else {
        tokens(s)
    }
}

/// Splits `query` into its tokens, each folded to ASCII lower case when
/// `lowercase` holds.
pub fn tokenize_string(query: &str, lowercase: bool) -> (res: Vec<String>)
    ensures
        string_views(res@) == query_tokens(query@, lowercase),
{
    let content = chars_of(query);
    let mut lexer = Lexer::new(content.as_slice());
    let mut final_query: Vec<String> = Vec::new();
    loop
        invariant
            string_views(final_query@) + query_tokens(lexer@, lowercase) == query_tokens(
                query@,
                lowercase,
            ),
        ensures
            string_views(final_query@) == query_tokens(query@, lowercase),
        decreases lexer@.len(),
    {
        let ghost before = lexer@;
        match lexer.next_token() {
            None => {
                assert(tokens(before) == Seq::<Seq<char>>::empty());
                assert(query_tokens(before, lowercase) == Seq::<Seq<char>>::empty());
                assert(string_views(final_query@) + query_tokens(before, lowercase)
                    == string_views(final_query@));
                break ;
            },
            Some(token) => {
                let ghost prev = final_query@;
                let word = string_from_chars(token);
                if lowercase {
                    final_query.push(to_ascii_lowercase(word.as_str()));
                } else {
                    final_query.push(word);
                }
                assert(tokens(before) == seq![token@] + tokens(lexer@));
                assert(query_tokens(before, lowercase) == seq![string_views(final_query@).last()]
                    + query_tokens(lexer@, lowercase));
                assert(string_views(final_query@) == string_views(prev).push(
                    string_views(final_query@).last(),
                ));
                assert(string_views(final_query@) + query_tokens(lexer@, lowercase) == string_views(
                    prev,
                ) + query_tokens(before, lowercase));
            },
        }
    }
    final_query
}

/// The kinds of event that `xml::EventReader` yields.
pub enum XmlEventKind {
    StartDocument,
    EndDocument,
    ProcessingInstruction,
    StartElement,
    EndElement,
    CData,
    Comment,
    Characters,
    Whitespace,
}

/// An XML event as the contracts see it: its kind, and its text for the
/// kinds that carry one (`CData`, `Comment`, `Characters`, `Whitespace`).
pub type XmlEventView = (XmlEventKind, Option<Seq<char>>);

/// What `xml::EventReader` yields on `bytes`: its events in order, each as
/// its kind and its text; or `None` when the reader reports an error.
pub uninterp spec fn xml_events(bytes: Seq<u8>) -> Option<Seq<XmlEventView>>;

/// The views of a sequence of events.
pub open spec fn event_views(v: Seq<(XmlEventKind, Option<String>)>) -> Seq<XmlEventView> {
    v.map_values(|e: (XmlEventKind, Option<String>)| (e.0, match e.1 {
        Some(s) => Some(s@),
        None => None,
    }))
}

/// Whether events of kind `k` carry a text.
pub open spec fn carries_text(k: XmlEventKind) -> bool {
    k is CData || k is Comment || k is Characters || k is Whitespace
}

/// Each event carries a text exactly when its kind does.
pub open spec fn well_shaped_events(evs: Seq<XmlEventView>) -> bool {
    forall|i: int| 0 <= i < evs.len() ==> ((#[trigger] evs[i]).1 is Some <==> carries_text(evs[i].0))
}

/// Whether some event is character data.
pub open spec fn has_character_data(evs: Seq<XmlEventView>) -> bool {
    exists|i: int| 0 <= i < evs.len() && (#[trigger] evs[i]).0 is Characters
}

#[verifier::external_type_specification]
#[verifier::external_body]
pub struct ExXmlReaderError(xml::reader::Error);

/// Runs `xml::EventReader` over `bytes` to the end of the document and maps
/// each event, variant by variant, to its kind and the text it carries; the
/// first error the reader reports is returned. The contract claims only that
/// the outcome is a function of `bytes`, named `xml_events`.
#[verifier::external_body]
pub(crate) fn read_xml_events(bytes: &[u8]) -> (res: Result<Vec<(XmlEventKind, Option<String>)>, xml::reader::Error>)
    ensures
        match res {
            Ok(events) => xml_events(bytes@) == Some(event_views(events@)) && well_shaped_events(
                event_views(events@),
            ),
            Err(_) => xml_events(bytes@) is None,
        },
{
    let mut events = Vec::new();
    for event in xml::EventReader::new(bytes) {
        events.push(match event? {
            XmlEvent::StartDocument { .. } => (XmlEventKind::StartDocument, None),
            XmlEvent::EndDocument => (XmlEventKind::EndDocument, None),
            XmlEvent::ProcessingInstruction { .. } => (XmlEventKind::ProcessingInstruction, None),
            XmlEvent::StartElement { .. } => (XmlEventKind::StartElement, None),
            XmlEvent::EndElement { .. } => (XmlEventKind::EndElement, None),
            XmlEvent::CData(text) => (XmlEventKind::CData, Some(text)),
            XmlEvent::Comment(text) => (XmlEventKind::Comment, Some(text)),
            XmlEvent::Characters(text) => (XmlEventKind::Characters, Some(text)),
            XmlEvent::Whitespace(text) => (XmlEventKind::Whitespace, Some(text)),
        });
    }
    Ok(events)
}

/// Whether the XML reader reads `bytes` to the end without an error.
pub open spec fn xml_well_formed(bytes: Seq<u8>) -> bool {
    xml_events(bytes) is Some
}

/// The text that one event adds to a document: the text of a `Characters`
/// event followed by one space; nothing for any other event.
pub open spec fn event_text(e: XmlEventView) -> Seq<char> {
    match e {
        (XmlEventKind::Characters, Some(t)) => t.push(' '),
        _ => Seq::empty(),
    }
}

/// The text of a document: what each of its events adds, in order.
pub open spec fn document_text(events: Seq<XmlEventView>) -> Seq<char>
    decreases events.len(),
{
    if events.len() == 0 {
        Seq::empty()
    } else {
        document_text(events.drop_last()) + event_text(events.last())
    }
}

/// The text of a document made of two parts is the text of the first part
/// followed by the text of the second.
pub proof fn lemma_document_text_concat(a: Seq<XmlEventView>, b: Seq<XmlEventView>)
    ensures
        document_text(a + b) == document_text(a) + document_text(b),
    decreases b.len(),
{
    if b.len() == 0 {
        assert(a + b == a);
    } else {
        lemma_document_text_concat(a, b.drop_last());
        assert((a + b).drop_last() == a + b.drop_last());
        assert((a + b).last() == b.last());
    }
}

/// A `Characters` event contributes its text unchanged, followed by one
/// space; every other event contributes nothing. With the law above, the
/// text of a document is the texts of its `Characters` events in order,
/// each followed by a space.
pub proof fn lemma_document_text_of_one_event(e: XmlEventView, t: Seq<char>)
    ensures
        document_text(seq![(XmlEventKind::Characters, Some(t))]) == t + seq![' '],
        !(e.0 is Characters) ==> document_text(seq![e]) == Seq::<char>::empty(),
{
    let one: Seq<XmlEventView> = seq![(XmlEventKind::Characters, Some(t))];
    assert(one.drop_last() =~= Seq::<XmlEventView>::empty());
    assert(one.last() == (XmlEventKind::Characters, Some(t)));
    assert(document_text(Seq::<XmlEventView>::empty()) == Seq::<char>::empty());
    assert(event_text(one.last()) == t.push(' '));
    assert(document_text(one) == document_text(one.drop_last()) + event_text(one.last()));
    assert(Seq::<char>::empty() + t.push(' ') =~= t + seq![' ']);
    let other: Seq<XmlEventView> = seq![e];
    assert(other.drop_last() =~= Seq::<XmlEventView>::empty());
    assert(other.last() == e);
    if !(e.0 is Characters) {
        assert(event_text(e) == Seq::<char>::empty());
        assert(document_text(other) == document_text(other.drop_last()) + event_text(other.last()));
        assert(Seq::<char>::empty() + Seq::<char>::empty() =~= Seq::<char>::empty());
    }
}

/// The text of a document is empty exactly when no event is character data,
/// and otherwise ends with a space.
pub proof fn lemma_document_text_shape(evs: Seq<XmlEventView>)
    requires
        well_shaped_events(evs),
    ensures
        document_text(evs).len() == 0 <==> !has_character_data(evs),
        document_text(evs).len() > 0 ==> document_text(evs).last() == ' ',
    decreases evs.len(),
{
    if evs.len() > 0 {
        let init = evs.drop_last();
        assert forall|i: int| 0 <= i < init.len() implies ((#[trigger] init[i]).1 is Some
            <==> carries_text(init[i].0)) by {
            assert(init[i] == evs[i]);
        }
        lemma_document_text_shape(init);
        let last = evs.last();
        assert(last == evs[evs.len() - 1]);
        if has_character_data(evs) && !(last.0 is Characters) {
            let i = choose|i: int| 0 <= i < evs.len() && (#[trigger] evs[i]).0 is Characters;
            assert(init[i] == evs[i]);
        }
        if has_character_data(init) {
            let i = choose|i: int| 0 <= i < init.len() && (#[trigger] init[i]).0 is Characters;
            assert(evs[i] == init[i]);
        }
    }
}

/// Folding to lower case keeps a text's length, its final space, and
/// leaves no ASCII upper-case letter.
pub proof fn lemma_folded_text_shape(events: Seq<XmlEventView>, lowercase: bool)
    ensures
        folded_text(events, lowercase).len() == document_text(events).len(),
        document_text(events).len() > 0 && document_text(events).last() == ' ' ==> folded_text(
            events,
            lowercase,
        ).last() == ' ',
        lowercase ==> forall|i: int|
            0 <= i < folded_text(events, lowercase).len() ==> !('A' <= #[trigger] folded_text(
                events,
                lowercase,
            )[i] && folded_text(events, lowercase)[i] <= 'Z'),
{
    lemma_ascii_lower_idempotent(document_text(events));
}

/// The text of a document, folded to ASCII lower case when `lowercase` holds.
pub open spec fn folded_text(events: Seq<XmlEventView>, lowercase: bool) -> Seq<char> {
    if lowercase {
        ascii_lower_seq(document_text(events))
    } else {
        document_text(events)
    }
}

/// The text of the well-formed XHTML document `bytes`.
pub open spec fn xhtml_text(bytes: Seq<u8>, lowercase: bool) -> Seq<char> {
    folded_text(xml_events(bytes).unwrap(), lowercase)
}

/// Joins the character data of an XML event stream: the text of each
/// `Characters` event followed by a space, folded to ASCII lower case when
/// `lowercase` holds.
pub fn document_text_from_events(events: &Vec<(XmlEventKind, Option<String>)>, lowercase: bool) -> (res: String)
    ensures
        res@ == folded_text(event_views(events@), lowercase),
{
    let mut content = String::new();
    let n = events.len();
    for i in 0..n
        invariant
            n == events@.len(),
            content@ == document_text(event_views(events@).take(i as int)),
    {
        proof {
            let evs = event_views(events@);
            assert(evs.take(i + 1).drop_last() == evs.take(i as int));
            assert(evs.take(i + 1).last() == evs[i as int]);
        }
        match &events[i] {
            (XmlEventKind::Characters, Some(text)) => {
                content.append(text.as_str());
                proof {
                    reveal_strlit(" ");
                }
                content.append(" ");
                assert(content@ == document_text(event_views(events@).take(i as int)) + text@.push(
                    ' ',
                ));
            },
            _ => {
                assert(event_text(event_views(events@)[i as int]) == Seq::<char>::empty());
                assert(content@ == document_text(event_views(events@).take(i as int)) + Seq::<
                    char,
                >::empty());
            },
        }
    }
    assert(event_views(events@).take(n as int) == event_views(events@));
    if lowercase {
        to_ascii_lowercase(content.as_str())
    } else {
        content
    }
}

/// Whether the XML reader reads `bytes` to the end without an error.
pub fn xml_is_well_formed(bytes: &[u8]) -> (res: bool)
    ensures
        res == xml_well_formed(bytes@),
{
    read_xml_events(bytes).is_ok()
}

/// The text of the well-formed XHTML document `bytes`.
pub fn get_contents_from_xhtml_file(bytes: &[u8], lowercase: bool) -> (res: Option<String>)
    requires
        xml_well_formed(bytes@),
    ensures
        res matches Some(s) && s@ == xhtml_text(bytes@, lowercase),
        res matches Some(s) && (s@.len() == 0 <==> !has_character_data(xml_events(bytes@).unwrap())),
        res matches Some(s) && (s@.len() > 0 ==> s@.last() == ' '),
        res matches Some(s) && (lowercase ==> forall|i: int|
            0 <= i < s@.len() ==> !('A' <= #[trigger] s@[i] && s@[i] <= 'Z')),
{
    Some(crate::lex::parse::get_string_from_xhtml_file(bytes, lowercase))
}

/// What may follow the file name in a path: nothing, or a separator and
/// then only separators and `.` components.
pub open spec fn extension_tail(t: Seq<char>) -> bool {
    t.len() == 0 || {
        &&& (t[0] == '/' || t[0] == '\\')
        &&& forall|j: int| 0 <= j < t.len() ==> (#[trigger] t[j] == '/' || t[j] == '\\' || t[j] == '.')
        &&& forall|j: int| 0 <= j < t.len() - 1 ==> !(#[trigger] t[j] == '.' && t[j + 1] == '.')
    }
}

/// The part of a file name that follows its final `.` is `e`: a `.` and
/// `e` stand in `p` after some character (other than `/` unless the path
/// holds a `\`), and after them come only what may follow a file name.
pub open spec fn has_extension(p: Seq<char>, e: Seq<char>) -> bool {
    exists|i: int|
        1 <= i && i + 1 + e.len() <= p.len() && (p[i - 1] != '/' || p.contains('\\'))
            && #[trigger] p.subrange(i, i + 1 + e.len()) == seq!['.'] + e && extension_tail(
            p.subrange(i + 1 + e.len(), p.len() as int),
        )
}

/// `p` without the `/` characters it ends with.
pub open spec fn without_trailing_slashes(p: Seq<char>) -> Seq<char>
    decreases p.len(),
{
    if p.len() > 0 && p.last() == '/' {
        without_trailing_slashes(p.drop_last())
    } else {
        p
    }
}

/// A character that separates path components on some platform.
pub open spec fn is_separator_char(c: char) -> bool {
    c == '/' || c == '\\'
}

/// A path whose extension is `xhtml` on every platform: apart from the `/`
/// characters it may end with, it ends in `.xhtml` after a character that
/// is none of `/`, `\` and `:`; it holds no `:` (no drive or other prefix),
/// and it does not start with two separators (no network or verbatim
/// prefix).
pub open spec fn plain_xhtml_path(p: Seq<char>) -> bool {
    let b = without_trailing_slashes(p);
    &&& b.len() > 6
    &&& b.subrange(b.len() - 6, b.len() as int) == ".xhtml"@
    &&& b[b.len() - 7] != '/' && b[b.len() - 7] != '\\' && b[b.len() - 7] != ':'
    &&& !p.contains(':')
    &&& !(is_separator_char(p[0]) && is_separator_char(p[1]))
}

proof fn lemma_without_trailing_slashes(p: Seq<char>)
    ensures
        without_trailing_slashes(p).len() <= p.len(),
        without_trailing_slashes(p) == p.subrange(0, without_trailing_slashes(p).len() as int),
        forall|j: int|
            without_trailing_slashes(p).len() <= j < p.len() ==> #[trigger] p[j] == '/',
    decreases p.len(),
{
    if p.len() > 0 && p.last() == '/' {
        lemma_without_trailing_slashes(p.drop_last());
        let b = without_trailing_slashes(p.drop_last());
        assert(p.drop_last().subrange(0, b.len() as int) == p.subrange(0, b.len() as int));
        assert forall|j: int| b.len() <= j < p.len() implies #[trigger] p[j] == '/' by {
            if j < p.len() - 1 {
                assert(p.drop_last()[j] == p[j]);
            }
        }
    } else {
        assert(p.subrange(0, p.len() as int) == p);
    }
}

/// Every plain `.xhtml` path has the extension `xhtml` in the sense of
/// `has_extension`, so the two clauses of `file_extension` agree.
pub proof fn lemma_plain_path_has_extension(p: Seq<char>)
    requires
        plain_xhtml_path(p),
    ensures
        has_extension(p, "xhtml"@),
{
    lemma_without_trailing_slashes(p);
    let b = without_trailing_slashes(p);
    let i = b.len() - 6;
    reveal_strlit(".xhtml");
    reveal_strlit("xhtml");
    assert(seq!['.'] + "xhtml"@ =~= ".xhtml"@);
    assert(p.subrange(i, i + 6) == b.subrange(i, i + 6));
    assert(p[i - 1] == b[i - 1]);
    let t = p.subrange(b.len() as int, p.len() as int);
    assert forall|j: int| 0 <= j < t.len() implies (#[trigger] t[j] == '/' || t[j] == '\\' || t[j]
        == '.') by {
        assert(t[j] == p[b.len() + j]);
    }
    assert forall|j: int| 0 <= j < t.len() - 1 implies !(#[trigger] t[j] == '.' && t[j + 1] == '.') by {
        assert(t[j] == p[b.len() + j]);
    }
    if t.len() > 0 {
        assert(t[0] == p[b.len() as int]);
    }
    assert(extension_tail(t));
    assert(p.subrange(i, i + 1 + "xhtml"@.len()) == seq!['.'] + "xhtml"@);
}

/// Calls `std::path::Path::extension` on `path`. Its documentation gives the
/// extension as the part of the file name (the final component of the path)
/// after the final `.`, when the file name has a non-empty part before that
/// `.`; the file name ends where the path ends or at a separator. Which
/// characters separate components depends on the platform (`/` everywhere,
/// also `\` and prefixes such as `C:`, `//server/share` or `\\?\` on
/// Windows), so the result is stated as far as it holds on every platform:
/// for a path that `plain_xhtml_path` accepts, the extension is `xhtml`.
#[verifier::external_body]
fn file_extension(path: &str) -> (ext: Option<String>)
    ensures
        ext matches Some(e) ==> !e@.contains('.') && has_extension(path@, e@),
        plain_xhtml_path(path@) ==> ext is Some,
        plain_xhtml_path(path@) ==> ext.unwrap()@ == "xhtml"@,
{
    match std::path::Path::new(path).extension() {
        Some(e) => Some(e.to_string_lossy().into_owned()),
        None => None,
    }
}

/// Whether an extension is the one of the documents this library indexes.
pub fn is_xhtml_extension(extension: &Option<String>) -> (res: bool)
    ensures
        res == (extension matches Some(e) && e@ == "xhtml"@),
{
    match extension {
        Some(e) => {
            let cs = chars_of(e.as_str());
            let wanted = chars_of("xhtml");
            text_equals(cs.as_slice(), wanted.as_slice())
        },
        None => false,
    }
}

/// Whether the file at `path` is one this library indexes (an `.xhtml` file).
pub fn is_supported_file(path: &str) -> (res: bool)
    ensures
        res ==> has_extension(path@, "xhtml"@),
        plain_xhtml_path(path@) ==> res,
{
    is_xhtml_extension(&file_extension(path))
}

/// The contents of a file with the given extension and bytes: the text of
/// the XHTML document for an `xhtml` extension, and `None` for any other
/// extension.
pub fn contents_for_extension(extension: &Option<String>, bytes: &[u8], lowercase: bool) -> (res:
    Option<String>)
    requires
        (extension matches Some(e) && e@ == "xhtml"@) ==> xml_well_formed(bytes@),
    ensures
        (extension matches Some(e) && e@ == "xhtml"@) ==> (res matches Some(s) && s@ == xhtml_text(
            bytes@,
            lowercase,
        )),
        !(extension matches Some(e) && e@ == "xhtml"@) ==> res is None,
{
    if is_xhtml_extension(extension) {
        get_contents_from_xhtml_file(bytes, lowercase)
    } else {
        None
    }
}

/// The contents of the file at `file_path`, whose bytes are `bytes`: its
/// text when it is an XHTML file, `None` when it is not one. The bytes of a
/// file that may be an XHTML file must be a well-formed XML document.
pub fn get_contents_from_file(file_path: &str, bytes: &[u8], lowercase: bool) -> (res: Option<
    String,
>)
    requires
        has_extension(file_path@, "xhtml"@) ==> xml_well_formed(bytes@),
    ensures
        res matches Some(s) ==> has_extension(file_path@, "xhtml"@) && s@ == xhtml_text(
            bytes@,
            lowercase,
        ),
        plain_xhtml_path(file_path@) ==> (res matches Some(s) && s@ == xhtml_text(
            bytes@,
            lowercase,
        )),
        !has_extension(file_path@, "xhtml"@) ==> res is None,
{
    let ext = file_extension(file_path);
    contents_for_extension(&ext, bytes, lowercase)
}

/// The directories that are listed: those whose path does not contain `git`.
pub open spec fn listed_directories(paths: Seq<Seq<char>>) -> Seq<Seq<char>>
    decreases paths.len(),
{
    if paths.len() == 0 {
        Seq::empty()
    } else if contains_text(paths.last(), "git"@) {
        listed_directories(paths.drop_last())
    } else {
        listed_directories(paths.drop_last()).push(paths.last())
    }
}

/// The listed directories are those of `paths` whose path does not contain
/// `git`, each of them.
pub proof fn lemma_listed_directories(paths: Seq<Seq<char>>)
    ensures
        forall|p: Seq<char>| #[trigger] listed_directories(paths).contains(p) <==> (paths.contains(p)
            && !contains_text(p, "git"@)),
    decreases paths.len(),
{
    if paths.len() > 0 {
        let init = paths.drop_last();
        lemma_listed_directories(init);
        assert forall|p: Seq<char>| #[trigger] listed_directories(paths).contains(p) <==> (
        paths.contains(p) && !contains_text(p, "git"@)) by {
            if paths.contains(p) && p != paths.last() {
                let j = choose|j: int| 0 <= j < paths.len() && paths[j] == p;
                assert(init[j] == p);
            }
            if init.contains(p) {
                let j = choose|j: int| 0 <= j < init.len() && init[j] == p;
                assert(paths[j] == p);
            }
            if p == paths.last() {
                assert(paths[paths.len() - 1] == p);
            }
            let l = listed_directories(init);
            if !contains_text(paths.last(), "git"@) {
                assert(l.push(paths.last())[l.len() as int] == paths.last());
                if l.contains(p) {
                    let j = choose|j: int| 0 <= j < l.len() && l[j] == p;
                    assert(l.push(paths.last())[j] == p);
                }
                if l.push(paths.last()).contains(p) && p != paths.last() {
                    let j = choose|j: int| 0 <= j < l.len() + 1 && l.push(paths.last())[j] == p;
                    assert(l[j] == p);
                }
            }
        }
    }
}

/// ASCII folding keeps every character class the lexer looks at.
proof fn lemma_ascii_lower_keeps_classes(c: char)
    ensures
        is_white_space(ascii_lower(c)) == is_white_space(c),
        is_alphabetic_char(ascii_lower(c)) == is_alphabetic_char(c),
        is_numeric_char(ascii_lower(c)) == is_numeric_char(c),
        is_word_char(ascii_lower(c)) == is_word_char(c),
        forall|k: CharClass| in_class(ascii_lower(c), k) == in_class(c, k),
{
}

proof fn lemma_run_end_lower(s: Seq<char>, i: int, k: CharClass)
    ensures
        run_end(ascii_lower_seq(s), i, k) == run_end(s, i, k),
    decreases s.len() - i,
{
    if 0 <= i < s.len() {
        lemma_ascii_lower_keeps_classes(s[i]);
        assert(ascii_lower_seq(s)[i] == ascii_lower(s[i]));
        lemma_run_end_lower(s, i + 1, k);
    }
}

/// Folding a text to ASCII lower case never moves a token boundary: the
/// tokens of the folded text are the folded tokens of the text.
pub proof fn lemma_tokens_of_lowered(s: Seq<char>)
    ensures
        tokens(ascii_lower_seq(s)) == lower_tokens(tokens(s)),
    decreases s.len(),
{
    let l = ascii_lower_seq(s);
    lemma_run_end_lower(s, 0, CharClass::Whitespace);
    let w = run_end(s, 0, CharClass::Whitespace);
    lemma_run_end_lower(s, w, CharClass::Separator);
    let a = token_start(s);
    assert(token_start(l) == a);
    lemma_next_token_shrinks(s);
    if a < s.len() {
        lemma_ascii_lower_keeps_classes(s[a]);
        assert(l[a] == ascii_lower(s[a]));
        lemma_run_end_lower(s, a + 1, CharClass::Word);
        lemma_run_end_lower(s, a + 1, CharClass::Digit);
        let e = token_end(s, a);
        assert(token_end(l, a) == e);
        let t = s.subrange(a, e);
        let rest = s.subrange(e, s.len() as int);
        assert(l.subrange(a, e) == ascii_lower_seq(t));
        assert(l.subrange(e, l.len() as int) == ascii_lower_seq(rest));
        lemma_tokens_of_lowered(rest);
        assert(tokens(s) == seq![t] + tokens(rest));
        assert(tokens(l) == seq![ascii_lower_seq(t)] + tokens(ascii_lower_seq(rest)));
        assert(lower_tokens(tokens(s)) =~= seq![ascii_lower_seq(t)] + lower_tokens(tokens(rest)));
    } else {
        assert(next_token_of(l) is None);
        assert(lower_tokens(tokens(s)) =~= Seq::<Seq<char>>::empty());
    }
}

/// Folding a query to lower case before splitting it or splitting it first
/// and folding each token gives the same tokens.
pub proof fn lemma_fold_before_or_after(s: Seq<char>)
    ensures
        query_tokens(s, true) == query_tokens(ascii_lower_seq(s), false),
{
    lemma_tokens_of_lowered(s);
}

/// Folding a token keeps it a token.
proof fn lemma_lower_token(t: Seq<char>)
    requires
        is_token(t),
    ensures
        is_token(ascii_lower_seq(t)),
{
    let l = ascii_lower_seq(t);
    assert forall|j: int| 0 <= j < l.len() implies is_word_char(#[trigger] l[j]) by {
        lemma_ascii_lower_keeps_classes(t[j]);
        assert(is_word_char(t[j]));
    }
    lemma_ascii_lower_keeps_classes(t[0]);
    if !is_alphabetic_char(t[0]) {
        assert forall|j: int| 0 <= j < l.len() implies is_numeric_char(#[trigger] l[j]) by {
            lemma_ascii_lower_keeps_classes(t[j]);
            assert(is_numeric_char(t[j]));
        }
    }
}

/// Splitting the tokens of a query again, written out with single spaces
/// between them, gives them back unchanged.
pub proof fn lemma_retokenize_joined(s: Seq<char>, lowercase: bool)
    ensures
        query_tokens(joined(query_tokens(s, lowercase)), lowercase) == query_tokens(s, lowercase),
{
    let ts = tokens(s);
    lemma_tokens_are_tokens(s);
    if lowercase {
        let lts = lower_tokens(ts);
        assert forall|i: int| 0 <= i < lts.len() implies is_token(#[trigger] lts[i]) by {
            lemma_lower_token(ts[i]);
        }
        lemma_tokens_of_joined(lts);
        assert forall|i: int| 0 <= i < lts.len() implies #[trigger] ascii_lower_seq(lts[i]) == lts[i] by {
            lemma_ascii_lower_idempotent(ts[i]);
        }
        assert(lower_tokens(lts) =~= lts);
    } else {
        lemma_tokens_of_joined(ts);
    }
}

/// How many tokens of `ts` fold to `k`.
pub open spec fn folded_occurrences(ts: Seq<Seq<char>>, k: Seq<char>) -> nat
    decreases ts.len(),
{
    if ts.len() == 0 {
        0
    } else {
        folded_occurrences(ts.drop_last(), k) + if ascii_lower_seq(ts.last()) == k {
            1nat
        } else {
            0nat
        }
    }
}

proof fn lemma_occurrences_of_lowered(ts: Seq<Seq<char>>, k: Seq<char>)
    ensures
        occurrences(lower_tokens(ts), k) == folded_occurrences(ts, k),
        forall|k2: Seq<char>| ascii_lower_seq(k2) == k ==> occurrences(ts, k2) <= folded_occurrences(ts, k),
    decreases ts.len(),
{
    if ts.len() > 0 {
        lemma_occurrences_of_lowered(ts.drop_last(), k);
        assert(lower_tokens(ts).drop_last() =~= lower_tokens(ts.drop_last()));
        assert(lower_tokens(ts).last() == ascii_lower_seq(ts.last()));
    }
}

/// Folding a text to lower case only merges the counts of case variants:
/// the folded text counts a term as often as the text has tokens that fold
/// to it, so at least as often as any one of those variants.
pub proof fn lemma_folding_merges_counts(s: Seq<char>, k: Seq<char>)
    requires
        s.len() <= u32::MAX,
    ensures
        token_counts(tokens(ascii_lower_seq(s))).contains_key(k) ==> token_counts(
            tokens(ascii_lower_seq(s)),
        )[k] == folded_occurrences(tokens(s), k),
        forall|k2: Seq<char>|
            ascii_lower_seq(k2) == k && #[trigger] token_counts(tokens(s)).contains_key(k2)
                ==> token_counts(tokens(ascii_lower_seq(s))).contains_key(k)
                && token_counts(tokens(s))[k2] <= token_counts(tokens(ascii_lower_seq(s)))[k],
{
    let ts = tokens(s);
    let ls = ascii_lower_seq(s);
    lemma_tokens_of_lowered(s);
    crate::lex::lemma_tokens_len(s);
    crate::lex::lemma_tokens_len(ls);
    lemma_occurrences_of_lowered(ts, k);
    lemma_occurrences_bound(tokens(ls), k);
    assert forall|k2: Seq<char>|
        ascii_lower_seq(k2) == k && #[trigger] token_counts(ts).contains_key(k2) implies token_counts(
            tokens(ls),
        ).contains_key(k) && token_counts(ts)[k2] <= token_counts(tokens(ls))[k] by {
        let j = choose|j: int| 0 <= j < ts.len() && ts[j] == k2;
        assert(lower_tokens(ts)[j] == k);
        assert(tokens(ls).contains(k));
        lemma_occurrences_bound(ts, k2);
    }
}

/// The distinct tokens of `ts`, in the order of their first occurrence.
pub open spec fn distinct_tokens(ts: Seq<Seq<char>>) -> Seq<Seq<char>>
    decreases ts.len(),
{
    if ts.len() == 0 {
        Seq::empty()
    } else if distinct_tokens(ts.drop_last()).contains(ts.last()) {
        distinct_tokens(ts.drop_last())
    } else {
        distinct_tokens(ts.drop_last()).push(ts.last())
    }
}

proof fn lemma_distinct_tokens(ts: Seq<Seq<char>>)
    ensures
        distinct_tokens(ts).no_duplicates(),
        forall|t: Seq<char>| #[trigger] distinct_tokens(ts).contains(t) <==> ts.contains(t),
    decreases ts.len(),
{
    if ts.len() > 0 {
        let init = ts.drop_last();
        let x = ts.last();
        lemma_distinct_tokens(init);
        let d = distinct_tokens(init);
        assert(x == ts[ts.len() - 1]);
        assert forall|t: Seq<char>| #[trigger] distinct_tokens(ts).contains(t) <==> ts.contains(t) by {
            if ts.contains(t) && t != x {
                let j = choose|j: int| 0 <= j < ts.len() && ts[j] == t;
                assert(init[j] == t);
            }
            if init.contains(t) {
                let j = choose|j: int| 0 <= j < init.len() && init[j] == t;
                assert(ts[j] == t);
            }
            if !d.contains(x) {
                let dd = d.push(x);
                assert(dd[d.len() as int] == x);
                if d.contains(t) {
                    let j = choose|j: int| 0 <= j < d.len() && d[j] == t;
                    assert(dd[j] == t);
                }
                if dd.contains(t) && t != x {
                    let j = choose|j: int| 0 <= j < dd.len() && dd[j] == t;
                    assert(d[j] == t);
                }
            }
        }
        if !d.contains(x) {
            let dd = d.push(x);
            assert forall|a: int, b: int| 0 <= a < dd.len() && 0 <= b < dd.len() && a != b implies dd[a]
                != dd[b] by {
                if a < d.len() && b < d.len() {
                    assert(dd[a] == d[a] && dd[b] == d[b]);
                } else if a < d.len() {
                    assert(dd[a] == d[a]);
                } else {
                    assert(dd[b] == d[b]);
                }
            }
        }
    }
}

/// The sum of the counts that `m` gives the keys of `keys` that fold to `k`.
pub open spec fn variant_count_sum(keys: Seq<Seq<char>>, m: Map<Seq<char>, u32>, k: Seq<char>) -> int
    decreases keys.len(),
{
    if keys.len() == 0 {
        0
    } else {
        variant_count_sum(keys.drop_last(), m, k) + if ascii_lower_seq(keys.last()) == k {
            m[keys.last()] as int
        } else {
            0
        }
    }
}

/// The number of occurrences in `ts` of the keys of `keys` that fold to `k`.
spec fn variant_occurrence_sum(keys: Seq<Seq<char>>, ts: Seq<Seq<char>>, k: Seq<char>) -> int
    decreases keys.len(),
{
    if keys.len() == 0 {
        0
    } else {
        variant_occurrence_sum(keys.drop_last(), ts, k) + if ascii_lower_seq(keys.last()) == k {
            occurrences(ts, keys.last()) as int
        } else {
            0
        }
    }
}

proof fn lemma_variant_sums_agree(keys: Seq<Seq<char>>, ts: Seq<Seq<char>>, k: Seq<char>)
    requires
        ts.len() <= u32::MAX,
        forall|t: Seq<char>| keys.contains(t) ==> ts.contains(t),
    ensures
        variant_count_sum(keys, token_counts(ts), k) == variant_occurrence_sum(keys, ts, k),
    decreases keys.len(),
{
    if keys.len() > 0 {
        let init = keys.drop_last();
        assert forall|t: Seq<char>| init.contains(t) implies ts.contains(t) by {
            let j = choose|j: int| 0 <= j < init.len() && init[j] == t;
            assert(keys[j] == t);
        }
        lemma_variant_sums_agree(init, ts, k);
        assert(keys[keys.len() - 1] == keys.last());
        assert(ts.contains(keys.last()));
        lemma_occurrences_bound(ts, keys.last());
    }
}

proof fn lemma_variant_sum_push(keys: Seq<Seq<char>>, init: Seq<Seq<char>>, x: Seq<char>, k: Seq<char>)
    requires
        keys.no_duplicates(),
    ensures
        variant_occurrence_sum(keys, init.push(x), k) == variant_occurrence_sum(keys, init, k) + if keys.contains(x)
            && ascii_lower_seq(x) == k {
            1int
        } else {
            0int
        },
    decreases keys.len(),
{
    let ts = init.push(x);
    assert(ts.drop_last() == init);
    assert(ts.last() == x);
    if keys.len() > 0 {
        let rest = keys.drop_last();
        let kl = keys.last();
        assert(kl == keys[keys.len() - 1]);
        assert(rest.no_duplicates()) by {
            assert forall|a: int, b: int| 0 <= a < rest.len() && 0 <= b < rest.len() && a != b
                implies rest[a] != rest[b] by {
                assert(rest[a] == keys[a] && rest[b] == keys[b]);
            }
        }
        lemma_variant_sum_push(rest, init, x, k);
        assert(keys.contains(x) <==> (rest.contains(x) || kl == x)) by {
            if keys.contains(x) && kl != x {
                let j = choose|j: int| 0 <= j < keys.len() && keys[j] == x;
                assert(rest[j] == x);
            }
            if rest.contains(x) {
                let j = choose|j: int| 0 <= j < rest.len() && rest[j] == x;
                assert(keys[j] == x);
            }
        }
        if kl == x {
            assert(!rest.contains(x)) by {
                if rest.contains(x) {
                    let j = choose|j: int| 0 <= j < rest.len() && rest[j] == x;
                    assert(keys[j] == keys[keys.len() - 1]);
                }
            }
        }
    }
}

proof fn lemma_variant_sum_is_folded(ts: Seq<Seq<char>>, k: Seq<char>)
    ensures
        variant_occurrence_sum(distinct_tokens(ts), ts, k) == folded_occurrences(ts, k),
    decreases ts.len(),
{
    if ts.len() > 0 {
        let init = ts.drop_last();
        let x = ts.last();
        assert(init.push(x) == ts);
        let d = distinct_tokens(init);
        lemma_distinct_tokens(init);
        lemma_variant_sum_is_folded(init, k);
        lemma_variant_sum_push(d, init, x, k);
        if !d.contains(x) {
            let dd = d.push(x);
            assert(dd.drop_last() == d);
            assert(dd.last() == x);
            lemma_occurrences_absent(init, x);
            assert(occurrences(ts, x) == 1);
        }
    }
}

/// Folding a text to lower case only merges the counts of case variants:
/// the count of a term in the folded text is the sum of the counts, in the
/// text itself, of all its distinct terms that fold to it.
pub proof fn lemma_folded_count_is_sum_of_variants(s: Seq<char>, k: Seq<char>)
    requires
        s.len() <= u32::MAX,
    ensures
        distinct_tokens(tokens(s)).no_duplicates(),
        forall|t: Seq<char>|
            #[trigger] distinct_tokens(tokens(s)).contains(t) <==> token_counts(tokens(s)).contains_key(t),
        count_in(token_counts(tokens(ascii_lower_seq(s))), k) == variant_count_sum(
            distinct_tokens(tokens(s)),
            token_counts(tokens(s)),
            k,
        ),
{
    let ts = tokens(s);
    let ls = ascii_lower_seq(s);
    crate::lex::lemma_tokens_len(s);
    crate::lex::lemma_tokens_len(ls);
    lemma_distinct_tokens(ts);
    lemma_token_counts(ts);
    lemma_variant_sums_agree(distinct_tokens(ts), ts, k);
    lemma_variant_sum_is_folded(ts, k);
    lemma_tokens_of_lowered(s);
    lemma_occurrences_of_lowered(ts, k);
    lemma_occurrences_bound(tokens(ls), k);
    if !tokens(ls).contains(k) {
        lemma_occurrences_absent(tokens(ls), k);
    }
}

/// Folding a query's tokens to lower case is folding each of its unfolded
/// tokens.
pub proof fn lemma_lowercase_query_tokens(s: Seq<char>)
    ensures
        query_tokens(s, true) == lower_tokens(query_tokens(s, false)),
        query_tokens(s, true).len() == tokens(s).len(),
{
}

/// The terms a text is counted under are exactly the tokens that splitting
/// the same text as a query (without case folding) gives.
pub proof fn lemma_document_terms_are_query_tokens(s: Seq<char>)
    ensures
        forall|t: Seq<char>| #[trigger] token_counts(tokens(s)).contains_key(t) <==> query_tokens(
            s,
            false,
        ).contains(t),
{
    lemma_token_counts(tokens(s));
}

/// The directories to offer under `dir`: `dir` itself, then each of its
/// subdirectories (as a walk below `dir` lists them) whose path does not
/// contain `git`.
pub fn get_local_directories(dir: &str, subdirectories: &Vec<String>) -> (res: Vec<String>)
    ensures
        string_views(res@) == seq![dir@] + listed_directories(string_views(subdirectories@)),
{
    let mut dirs: Vec<String> = Vec::new();
    dirs.push(dir.to_owned());
    let git = chars_of("git");
    let n = subdirectories.len();
    for i in 0..n
        invariant
            n == subdirectories@.len(),
            git@ == "git"@,
            string_views(dirs@) == seq![dir@] + listed_directories(
                string_views(subdirectories@).take(i as int),
            ),
    {
        let ghost ps = string_views(subdirectories@);
        assert(ps.take(i + 1).drop_last() == ps.take(i as int));
        assert(ps.take(i + 1).last() == ps[i as int]);
        let path = chars_of(subdirectories[i].as_str());
        if !text_contains(path.as_slice(), git.as_slice()) {
            dirs.push(subdirectories[i].clone());
            assert(string_views(dirs@) == (seq![dir@] + listed_directories(ps.take(i as int))).push(
                ps[i as int],
            ));
        }
    }
    assert(string_views(subdirectories@).take(n as int) == string_views(subdirectories@));
    dirs
}

} // verus!
