use docsearch::server::{
    directory_changed, message_json, paths_json, query_terms, route, ContentType, HttpMethod,
    Route,
};

fn file_of(r: &Route) -> Option<(String, &'static str)> {
    match r {
        Route::File { path, content_type } => Some((path.clone(), content_type.header_value())),
        _ => None,
    }
}

#[test]
fn document_urls_serve_the_named_file() {
    let r = route(HttpMethod::Get, "/?doc=docs.gl/gl4/glBindBuffer.xhtml");
    assert_eq!(
        file_of(&r),
        Some(("docs.gl/gl4/glBindBuffer.xhtml".to_string(), "text/html; charset=utf-8"))
    );
    assert_eq!(file_of(&route(HttpMethod::Get, "/?x")), Some((String::new(), "text/html; charset=utf-8")));
    assert_eq!(
        file_of(&route(HttpMethod::Post, "/?doc=a")),
        Some(("src/home.html".to_string(), "text/html; charset=utf-8"))
    );
}

#[test]
fn api_routes() {
    assert!(matches!(route(HttpMethod::Post, "/api/change-dir"), Route::ChangeDirectory));
    assert!(matches!(route(HttpMethod::Post, "/api/query"), Route::Query));
    assert!(matches!(route(HttpMethod::Get, "/api/current-dir"), Route::CurrentDirectory));
    assert!(matches!(route(HttpMethod::Get, "/api/all-dirs"), Route::AllDirectories));
    assert_eq!(
        file_of(&route(HttpMethod::Get, "/api/query")),
        Some(("src/home.html".to_string(), "text/html; charset=utf-8"))
    );
}

#[test]
fn static_files() {
    assert_eq!(
        file_of(&route(HttpMethod::Get, "/index.js")),
        Some(("src/index.js".to_string(), "text/javascript; charset=utf-8"))
    );
    assert_eq!(
        file_of(&route(HttpMethod::Get, "/style.css")),
        Some(("src/style.css".to_string(), "text/css; charset=utf-8"))
    );
    for url in ["/", "/index", "/nowhere"] {
        assert_eq!(
            file_of(&route(HttpMethod::Get, url)),
            Some(("src/home.html".to_string(), "text/html; charset=utf-8"))
        );
    }
    assert_eq!(
        file_of(&route(HttpMethod::Other, "/index.js")),
        Some(("src/home.html".to_string(), "text/html; charset=utf-8"))
    );
}

#[test]
fn content_types() {
    assert_eq!(ContentType::Json.header_value(), "application/json; charset=utf-8");
    assert_eq!(ContentType::Html.header_value(), "text/html; charset=utf-8");
}

#[test]
fn json_bodies() {
    assert_eq!(message_json("docs.gl"), "{\"message\" : \"docs.gl\"}");
    assert_eq!(message_json(""), "{\"message\" : \"\"}");
    assert_eq!(paths_json(&vec!["a".to_string()]), "{\"paths\" : [\"a\"]}");
    assert_eq!(
        paths_json(&vec!["a".to_string(), "b c".to_string(), "d".to_string()]),
        "{\"paths\" : [\"a\",\"b c\",\"d\"]}"
    );
}

#[test]
fn query_messages() {
    assert_eq!(query_terms(""), vec!["a"]);
    assert_eq!(query_terms("glBind BUFFER"), vec!["glbind", "buffer"]);
    assert!(query_terms("...").is_empty());
}

#[test]
fn directory_changes() {
    assert!(directory_changed("docs.gl", "docs.gl/gl4"));
    assert!(!directory_changed("docs.gl", "docs.gl"));
}
