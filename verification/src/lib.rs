//! A small full-text search engine over XHTML documentation: a lexer that
//! splits text into word and number tokens, per-document term counts, an
//! index of documents, and the decisions of the HTTP front end.

pub mod text;
pub mod lex;
pub mod parse;
pub mod hash;
pub mod engine;
pub mod server;
