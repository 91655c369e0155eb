use docsearch::engine::{hash_all_documents, query_statistics, DocumentIndex};
use docsearch::hash::hash_document;

fn sample() -> DocumentIndex {
    hash_all_documents(&vec![
        ("one.xhtml".to_string(), "buffer data buffer".to_string()),
        ("two.xhtml".to_string(), "texture data".to_string()),
        ("three.xhtml".to_string(), "shader".to_string()),
    ])
}

#[test]
fn index_holds_each_document() {
    let index = sample();
    assert_eq!(index.len(), 3);
    assert_eq!(index.paths(), vec!["one.xhtml", "two.xhtml", "three.xhtml"]);
    assert_eq!(index.get("two.xhtml").map(|c| c.count("texture")), Some(1));
    assert!(index.get("four.xhtml").is_none());
}

#[test]
fn document_frequency_counts_documents() {
    let index = sample();
    assert_eq!(index.document_frequency("data"), 2);
    assert_eq!(index.document_frequency("buffer"), 1);
    assert_eq!(index.document_frequency("missing"), 0);
}

#[test]
fn insert_replaces_a_document_with_the_same_path() {
    let mut index = sample();
    index.insert("two.xhtml".to_string(), hash_document("shader shader"));
    assert_eq!(index.len(), 3);
    assert_eq!(index.paths(), vec!["one.xhtml", "two.xhtml", "three.xhtml"]);
    assert_eq!(index.get("two.xhtml").map(|c| c.count("shader")), Some(2));
    assert_eq!(index.get("two.xhtml").map(|c| c.count("texture")), Some(0));
    assert_eq!(index.document_frequency("shader"), 2);
    index.insert("four.xhtml".to_string(), hash_document("x"));
    assert_eq!(index.len(), 4);
}

#[test]
fn duplicate_paths_keep_the_last_contents() {
    let index = hash_all_documents(&vec![
        ("a".to_string(), "first".to_string()),
        ("a".to_string(), "second".to_string()),
    ]);
    assert_eq!(index.len(), 1);
    assert_eq!(index.get("a").map(|c| c.count("second")), Some(1));
    assert_eq!(index.get("a").map(|c| c.count("first")), Some(0));
}

#[test]
fn statistics_of_a_query() {
    let index = sample();
    let query = vec!["buffer".to_string(), "data".to_string(), "nothing".to_string()];
    let stats = query_statistics(&query, &index);
    assert_eq!(stats.document_count, 3);
    assert_eq!(stats.idf_divisors, vec![1, 2, 1]);
    assert_eq!(stats.documents.len(), 3);
    assert_eq!(stats.documents[0].path, "one.xhtml");
    assert_eq!(stats.documents[0].total_words, 3);
    assert_eq!(stats.documents[0].term_counts, vec![2, 1, 0]);
    assert_eq!(stats.documents[1].term_counts, vec![0, 1, 0]);
    assert_eq!(stats.documents[2].total_words, 1);
    assert_eq!(stats.documents[2].term_counts, vec![0, 0, 0]);
}

#[test]
fn statistics_of_an_empty_index() {
    let stats = query_statistics(&vec!["a".to_string()], &DocumentIndex::new());
    assert_eq!(stats.document_count, 0);
    assert_eq!(stats.idf_divisors, vec![1]);
    assert!(stats.documents.is_empty());
}
