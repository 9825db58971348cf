use searchfs::doctable::DocTable;
use searchfs::memindex::InvertedIndex;
use searchfs::query::QueryProcessor;

fn build_test_engine() -> (DocTable, InvertedIndex) {
    let mut doctable = DocTable::new();
    let mut index = InvertedIndex::new();

    let doc1 = doctable.add_document("a.txt".to_string());
    index.add_document_tokens(
        doc1,
        vec![
            ("rust".to_string(), 0),
            ("memory".to_string(), 1),
            ("safety".to_string(), 2),
        ],
    );

    let doc2 = doctable.add_document("b.txt".to_string());
    index.add_document_tokens(
        doc2,
        vec![
            ("rust".to_string(), 0),
            ("distributed".to_string(), 1),
            ("system".to_string(), 2),
        ],
    );

    let doc3 = doctable.add_document("c.txt".to_string());
    index.add_document_tokens(
        doc3,
        vec![("python".to_string(), 0), ("memory".to_string(), 1)],
    );

    (doctable, index)
}

#[test]
fn single_term_query_returns_matching_docs() {
    let (doctable, index) = build_test_engine();
    let qp = QueryProcessor::new(&index, &doctable);

    let results = qp.match_all("rust");

    let paths: Vec<_> = results.iter().map(|r| r.path.as_str()).collect();

    assert_eq!(paths, vec!["a.txt", "b.txt"]);
}

#[test]
fn unknown_term_returns_empty_results() {
    let (doctable, index) = build_test_engine();
    let qp = QueryProcessor::new(&index, &doctable);

    let results = qp.match_all("golang");

    assert!(results.is_empty());
}

#[test]
fn empty_query_returns_empty_results() {
    let (doctable, index) = build_test_engine();
    let qp = QueryProcessor::new(&index, &doctable);

    let results = qp.match_all("!!!");

    assert!(results.is_empty());
}

#[test]
fn query_is_normalized_for_any_mode() {
    let (doctable, index) = build_test_engine();
    let qp = QueryProcessor::new(&index, &doctable);

    let results = qp.match_any("Rust!!! MEMORY");

    let paths: Vec<_> = results.iter().map(|r| r.path.as_str()).collect();

    assert_eq!(paths, vec!["a.txt", "b.txt", "c.txt"]);
}

#[test]
fn multi_term_query_returns_union_of_matching_docs() {
    let (doctable, index) = build_test_engine();
    let qp = QueryProcessor::new(&index, &doctable);

    let results = qp.match_any("rust memory");

    let paths: Vec<_> = results.iter().map(|r| r.path.as_str()).collect();

    assert_eq!(paths, vec!["a.txt", "b.txt", "c.txt"]);
}

#[test]
fn phrase_query_matches_adjacent_terms() {
    let (doctable, index) = build_test_engine();
    let qp = QueryProcessor::new(&index, &doctable);

    let results = qp.match_phrase("rust memory safety");

    assert_eq!(results.len(), 1);
    assert_eq!(results[0].path, "a.txt");
    assert_eq!(results[0].count as f64, 1.0);
}

#[test]
fn phrase_query_rejects_non_adjacent_terms() {
    let (doctable, index) = build_test_engine();
    let qp = QueryProcessor::new(&index, &doctable);

    let results = qp.match_phrase("rust safety");

    assert!(results.is_empty());
}
