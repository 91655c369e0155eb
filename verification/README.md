# docsearch

A small full-text search engine over XHTML documentation (such as docs.gl),
with an HTTP front end.

- `src/` is the verified library:
  - `text`: character classes, ASCII case folding, character sequences;
  - `lex`: the lexer (word and number tokens) and its laws; `lex::parse`
    holds the query and document entry points;
  - `parse`: document text from an XML event stream, file extensions,
    query tokenization, the list of directories offered;
  - `hash`: per-document term counts;
  - `engine`: the index of documents and the integer statistics of a query;
  - `server`: routing of requests, JSON bodies, query normalisation.
- `app/` is the program: directory walks, file reads, the TF-IDF ranking in
  floating point, and the HTTP loop (tiny_http, serde_json).
- `tests/` exercise the library on concrete values.
