use searchfs::crawler::is_indexable_file;
use searchfs::doctable::DocTable;
use searchfs::memindex::InvertedIndex;
use searchfs::parser::{clean_project_gutenberg, tokenize};

#[test]
fn indexable_file_extensions_are_accepted() {
    assert!(is_indexable_file("a.txt"));
    assert!(is_indexable_file("a.html"));
    assert!(is_indexable_file("main.rs"));
    assert!(is_indexable_file("README.md"));
}

#[test]
fn binary_file_extensions_are_rejected() {
    assert!(!is_indexable_file("a.o"));
    assert!(!is_indexable_file("a.a"));
    assert!(!is_indexable_file("a.pdf"));
    assert!(!is_indexable_file("a.gz"));
}

#[test]
fn removes_gutenberg_header_and_footer() {
    let text = "\
header stuff
*** START OF THE PROJECT GUTENBERG EBOOK TEST ***
real body
*** END OF THE PROJECT GUTENBERG EBOOK TEST ***
footer stuff";

    let cleaned = clean_project_gutenberg(text);

    assert!(cleaned.contains("real body"));
    assert!(!cleaned.contains("header stuff"));
    assert!(!cleaned.contains("footer stuff"));
}

#[test]
fn leaves_normal_text_unchanged() {
    let text = "just normal text";

    assert_eq!(clean_project_gutenberg(text), text);
}

#[test]
fn tokenize_simple_words() {
    let tokens = tokenize("hello world");

    assert_eq!(
        tokens,
        vec![("hello".to_string(), 0), ("world".to_string(), 1),]
    );
}

#[test]
fn tokenize_lowercases_words() {
    let tokens = tokenize("Rust RUST rust");

    assert_eq!(
        tokens,
        vec![
            ("rust".to_string(), 0),
            ("rust".to_string(), 1),
            ("rust".to_string(), 2),
        ]
    );
}

#[test]
fn tokenize_removes_punctuation() {
    let tokens = tokenize("hello, world!");

    assert_eq!(
        tokens,
        vec![("hello".to_string(), 0), ("world".to_string(), 1),]
    );
}

#[test]
fn tokenize_skips_empty_tokens() {
    let tokens = tokenize("!!! hello ???");

    assert_eq!(tokens, vec![("hello".to_string(), 1),]);
}

#[test]
fn add_document_returns_new_id() {
    let mut table = DocTable::new();

    let id = table.add_document("a.txt".to_string());

    assert_eq!(id, 1);
    assert_eq!(table.get_path(id), Some("a.txt"));
}

#[test]
fn add_same_document_returns_same_id() {
    let mut table = DocTable::new();

    let id1 = table.add_document("a.txt".to_string());
    let id2 = table.add_document("a.txt".to_string());

    assert_eq!(id1, id2);
}

#[test]
fn different_documents_get_different_ids() {
    let mut table = DocTable::new();

    let id1 = table.add_document("a.txt".to_string());
    let id2 = table.add_document("b.txt".to_string());

    assert_ne!(id1, id2);
    assert_eq!(table.get_path(id1), Some("a.txt"));
    assert_eq!(table.get_path(id2), Some("b.txt"));
}

#[test]
fn unknown_doc_id_returns_none() {
    let table = DocTable::new();

    assert_eq!(table.get_path(999), None);
}

#[test]
fn new_index_has_no_terms() {
    let index = InvertedIndex::new();

    assert!(index.lookup("rust").is_none());
}

#[test]
fn add_single_document_token() {
    let mut index = InvertedIndex::new();

    index.add_document_tokens(1, vec![("rust".to_string(), 0)]);

    let postings = index.lookup("rust").unwrap();

    assert_eq!(postings.get(&1), Some(&vec![0]));
}

#[test]
fn add_multiple_positions_for_same_word() {
    let mut index = InvertedIndex::new();

    index.add_document_tokens(
        1,
        vec![
            ("rust".to_string(), 0),
            ("rust".to_string(), 3),
            ("rust".to_string(), 7),
        ],
    );

    let postings = index.lookup("rust").unwrap();

    assert_eq!(postings.get(&1), Some(&vec![0, 3, 7]));
}

#[test]
fn same_word_in_multiple_documents() {
    let mut index = InvertedIndex::new();

    index.add_document_tokens(1, vec![("rust".to_string(), 0)]);

    index.add_document_tokens(2, vec![("rust".to_string(), 4)]);

    let postings = index.lookup("rust").unwrap();

    assert_eq!(postings.get(&1), Some(&vec![0]));
    assert_eq!(postings.get(&2), Some(&vec![4]));
}

#[test]
fn different_words_are_indexed_separately() {
    let mut index = InvertedIndex::new();

    index.add_document_tokens(1, vec![("rust".to_string(), 0), ("memory".to_string(), 1)]);

    assert!(index.lookup("rust").is_some());
    assert!(index.lookup("memory").is_some());
    assert!(index.lookup("python").is_none());
}

#[test]
fn stats_counts_terms_postings_and_positions() {
    let mut index = InvertedIndex::new();

    index.add_document_tokens(
        1,
        vec![
            ("rust".to_string(), 0),
            ("rust".to_string(), 1),
            ("memory".to_string(), 2),
        ],
    );

    index.add_document_tokens(2, vec![("rust".to_string(), 0), ("system".to_string(), 1)]);

    let stats = index.stats();

    assert_eq!(stats.terms, 3);
    assert_eq!(stats.postings, 4);
    assert_eq!(stats.total_positions, 5);
}
