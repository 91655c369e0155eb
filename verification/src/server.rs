//! The decisions of the HTTP front end: which answer a request gets, the
//! JSON bodies it is answered with, and when the index must be rebuilt.

use vstd::prelude::*;
use vstd::string::StringExecFns;
use crate::parse::{query_tokens, tokenize_string};
use crate::text::{chars_of, string_from_chars, string_views, text_equals};

verus! {

/// The request methods the server tells apart.
pub enum HttpMethod {
    Get,
    Post,
    Other,
}

/// The content types the server answers with.
pub enum ContentType {
    Html,
    Javascript,
    Css,
    Json,
}

/// The value of the `Content-Type` header for a content type.
pub open spec fn content_type_header(c: ContentType) -> Seq<char> {
    match c {
        ContentType::Html => "text/html; charset=utf-8"@,
        ContentType::Javascript => "text/javascript; charset=utf-8"@,
        ContentType::Css => "text/css; charset=utf-8"@,
        ContentType::Json => "application/json; charset=utf-8"@,
    }
}

impl ContentType {
    /// The value of the `Content-Type` header.
    pub fn header_value(&self) -> (res: &'static str)
        ensures
            res@ == content_type_header(*self),
    {
        match self {
            ContentType::Html => "text/html; charset=utf-8",
            ContentType::Javascript => "text/javascript; charset=utf-8",
            ContentType::Css => "text/css; charset=utf-8",
            ContentType::Json => "application/json; charset=utf-8",
        }
    }
}

/// What the server does with a request.
pub enum Route {
    /// Answer with the contents of the file at `path`.
    File { path: String, content_type: ContentType },
    /// Read a message naming the directory to index, answer with the home
    /// page, then index that directory.
    ChangeDirectory,
    /// Read a message holding a query and answer with the ranked paths.
    Query,
    /// Answer with the directory that is indexed.
    CurrentDirectory,
    /// Answer with the directories that can be indexed.
    AllDirectories,
}

/// The file of the home page.
pub open spec fn home_page_path() -> Seq<char> {
    "src/home.html"@
}

/// The file of the home page, which answers every request the server does
/// not otherwise know.
pub fn home_page() -> (res: &'static str)
    ensures
        res@ == home_page_path(),
{
    "src/home.html"
}

/// Whether `r` answers with the file at `p`, of content type `c`.
pub open spec fn is_file_route(r: Route, p: Seq<char>, c: ContentType) -> bool {
    r matches Route::File { path, content_type } && path@ == p && content_type == c
}

/// The document that a `/?doc=...` URL names: what follows its first six
/// characters.
pub open spec fn document_of_url(url: Seq<char>) -> Seq<char> {
    if url.len() >= 6 {
        url.subrange(6, url.len() as int)
    } else {
        Seq::empty()
    }
}

/// The route of a request with method `m` for `url`.
pub open spec fn routes_to(r: Route, m: HttpMethod, url: Seq<char>) -> bool {
    if url.len() >= 2 && url.subrange(0, 2) == "/?"@ {
        if m is Get {
            is_file_route(r, document_of_url(url), ContentType::Html)
        } else {
            is_file_route(r, home_page_path(), ContentType::Html)
        }
    } else if m is Post && url == "/api/change-dir"@ {
        r is ChangeDirectory
    } else if m is Post && url == "/api/query"@ {
        r is Query
    } else if m is Get && url == "/api/current-dir"@ {
        r is CurrentDirectory
    } else if m is Get && url == "/api/all-dirs"@ {
        r is AllDirectories
    } else if m is Get && url == "/index.js"@ {
        is_file_route(r, "src/index.js"@, ContentType::Javascript)
    } else if m is Get && url == "/style.css"@ {
        is_file_route(r, "src/style.css"@, ContentType::Css)
    } else {
        is_file_route(r, home_page_path(), ContentType::Html)
    }
}

fn is_literal(url: &[char], literal: &str) -> (res: bool)
    ensures
        res == (url@ == literal@),
{
    let l = chars_of(literal);
    text_equals(url, l.as_slice())
}

fn file_route(path: &str, content_type: ContentType) -> (res: Route)
    ensures
        is_file_route(res, path@, content_type),
{
    Route::File { path: path.to_owned(), content_type }
}

/// Decides what to do with a request with method `method` for `url`.
pub fn route(method: HttpMethod, url: &str) -> (res: Route)
    ensures
        routes_to(res, method, url@),
{
    let u = chars_of(url);
    let n = u.len();
    if n >= 2 && is_literal(&u[0..2], "/?") {
        return match method {
            HttpMethod::Get => {
                let doc = if n >= 6 {
                    string_from_chars(&u[6..n])
                } else {
                    String::new()
                };
                Route::File { path: doc, content_type: ContentType::Html }
            },
            _ => file_route(home_page(), ContentType::Html),
        };
    }
    let u = u.as_slice();
    match method {
        HttpMethod::Post => {
            if is_literal(u, "/api/change-dir") {
                Route::ChangeDirectory
            } else if is_literal(u, "/api/query") {
                Route::Query
            } else {
                file_route(home_page(), ContentType::Html)
            }
        },
        HttpMethod::Get => {
            if is_literal(u, "/api/current-dir") {
                Route::CurrentDirectory
            } else if is_literal(u, "/api/all-dirs") {
                Route::AllDirectories
            } else if is_literal(u, "/index.js") {
                file_route("src/index.js", ContentType::Javascript)
            } else if is_literal(u, "/style.css") {
                file_route("src/style.css", ContentType::Css)
            } else {
                file_route(home_page(), ContentType::Html)
            }
        },
        HttpMethod::Other => file_route(home_page(), ContentType::Html),
    }
}

/// The JSON body that carries one message.
pub open spec fn message_body(message: Seq<char>) -> Seq<char> {
    "{\"message\" : \""@ + message + "\"}"@
}

/// Wraps `message` in a JSON object under the key `message`, as it is
/// (quotes and backslashes in it are not escaped).
pub fn message_json(message: &str) -> (res: String)
    ensures
        res@ == message_body(message@),
{
    let mut json = String::from_str("{\"message\" : \"");
    json.append(message);
    json.append("\"}");
    json
}

/// A string between double quotes.
pub open spec fn quoted(s: Seq<char>) -> Seq<char> {
    seq!['"'] + s + seq!['"']
}

/// Each item between double quotes and followed by a comma.
pub open spec fn quoted_with_commas(items: Seq<Seq<char>>) -> Seq<char>
    decreases items.len(),
{
    if items.len() == 0 {
        Seq::empty()
    } else {
        quoted_with_commas(items.drop_last()) + quoted(items.last()) + seq![',']
    }
}

/// The JSON body that carries a non-empty list of paths.
pub open spec fn paths_body(items: Seq<Seq<char>>) -> Seq<char> {
    "{\"paths\" : ["@ + quoted_with_commas(items.drop_last()) + quoted(items.last()) + "]}"@
}

/// Wraps a non-empty list of paths in a JSON object under the key `paths`,
/// each path as it is (quotes and backslashes in it are not escaped).
pub fn paths_json(results: &Vec<String>) -> (res: String)
    requires
        results@.len() > 0,
    ensures
        res@ == paths_body(string_views(results@)),
{
    let ghost items = string_views(results@);
    let mut json = String::from_str("{\"paths\" : [");
    let last = results.len() - 1;
    proof {
        reveal_strlit("\"");
        reveal_strlit("\",");
    }
    for i in 0..last
        invariant
            last == results@.len() - 1,
            items == string_views(results@),
            "\""@ == seq!['"'],
            "\","@ == seq!['"', ','],
            json@ == "{\"paths\" : ["@ + quoted_with_commas(items.take(i as int)),
    {
        let ghost before = json@;
        json.append("\"");
        json.append(results[i].as_str());
        json.append("\",");
        assert(items.take(i + 1).drop_last() == items.take(i as int));
        assert(items.take(i + 1).last() == items[i as int]);
        assert(json@ == before + (quoted(items[i as int]) + seq![',']));
    }
    let ghost before = json@;
    json.append("\"");
    json.append(results[last].as_str());
    json.append("\"]}");
    proof {
        reveal_strlit("\"]}");
        reveal_strlit("]}");
        assert(items.drop_last() == items.take(last as int));
        assert(items.last() == items[last as int]);
        assert("\"]}"@ == seq!['"'] + "]}"@);
    }
    json
}

/// The text a query message is searched for: the message, or `"a"` when it
/// is empty.
pub open spec fn query_text(message: Seq<char>) -> Seq<char> {
    if message.len() == 0 {
        "a"@
    } else {
        message
    }
}

/// A non-empty message is searched for as it is; only the empty message is
/// replaced, by `"a"`.
pub proof fn lemma_query_text(m: Seq<char>)
    ensures
        m.len() > 0 ==> query_text(m) == m,
        m.len() == 0 ==> query_text(m) == "a"@,
{
}

/// The lower-case terms that a query message is searched for.
pub fn query_terms(message: &str) -> (res: Vec<String>)
    ensures
        string_views(res@) == query_tokens(query_text(message@), true),
        message@.len() > 0 ==> string_views(res@) == query_tokens(message@, true),
        message@.len() == 0 ==> string_views(res@) == query_tokens("a"@, true),
{
    if message.is_empty() {
        tokenize_string("a", true)
    } else {
        tokenize_string(message, true)
    }
}

/// Whether a directory change request asks for another directory than the
/// one indexed, so that the index must be rebuilt.
pub fn directory_changed(current: &str, requested: &str) -> (res: bool)
    ensures
        res == (current@ != requested@),
{
    let c = chars_of(current);
    let r = chars_of(requested);
    !text_equals(c.as_slice(), r.as_slice())
}

} // verus!
