use searchfs::codec::CompressedPostingCodec;
use searchfs::doctable::DocTable;
use searchfs::format::Segment;
use searchfs::memindex::InvertedIndex;
use searchfs::planner::QueryPlan;
use searchfs::reader::{SegmentReader, SegmentReaderCache};
use searchfs::repl::ReplStats;
use searchfs::searcher::SegmentSearcher;
use searchfs::store::{build_segment_files, segment_data};

fn open_reader(segment: &Segment) -> SegmentReader<CompressedPostingCodec> {
    let files = build_segment_files(segment, &CompressedPostingCodec).unwrap();
    let data = segment_data(
        segment.id.clone(),
        files.docs,
        files.terms,
        files.postings,
        files.meta,
        files.docmeta,
    );
    SegmentReader::new(data, CompressedPostingCodec)
}

fn lookup_segment() -> Segment {
    let mut index = InvertedIndex::new();
    index.add_document_tokens(
        1,
        vec![
            ("rust".to_string(), 0),
            ("rust".to_string(), 2),
            ("memory".to_string(), 1),
        ],
    );
    let mut doctable = DocTable::new();
    doctable.add_document("a.txt".to_string());
    Segment {
        id: "seg_000001".to_string(),
        doctable,
        index,
    }
}

#[test]
fn segment_segment_reader_lookup_reads_single_term_postings() {
    let segment = lookup_segment();
    let reader = open_reader(&segment);
    let postings = reader.lookup("rust").unwrap().unwrap();
    assert_eq!(postings.get(&1), Some(&vec![0, 2]));
    assert_eq!(reader.lookup("missing").unwrap(), None);
}

#[test]
fn reader_segment_reader_lookup_reads_single_term_postings() {
    let segment = lookup_segment();
    let reader = open_reader(&segment);
    let postings = reader.lookup("rust").unwrap().unwrap();
    assert_eq!(postings.get(&1), Some(&vec![0, 2]));
    assert_eq!(reader.lookup("missing").unwrap(), None);
}

fn cache_segment() -> Segment {
    let mut doctable = DocTable::new();
    let doc_id = doctable.add_document("a.txt".to_string());
    let mut index = InvertedIndex::new();
    index.add_document_tokens(doc_id, vec![("rust".to_string(), 0)]);
    Segment {
        id: "seg_000001".to_string(),
        doctable,
        index,
    }
}

#[test]
fn segment_segment_reader_cache_opens_all_segments() {
    let segment = cache_segment();
    let cache = SegmentReaderCache::new(vec![open_reader(&segment)]);
    assert_eq!(cache.readers().len(), 1);
    assert_eq!(cache.readers()[0].id(), "seg_000001");
}

#[test]
fn reader_segment_reader_cache_opens_all_segments() {
    let segment = cache_segment();
    let cache = SegmentReaderCache::new(vec![open_reader(&segment)]);
    assert_eq!(cache.readers().len(), 1);
    assert_eq!(cache.readers()[0].id(), "seg_000001");
}

fn all_segment() -> Segment {
    let mut doctable = DocTable::new();
    let doc1 = doctable.add_document("a.txt".to_string());
    let doc2 = doctable.add_document("b.txt".to_string());
    let mut index = InvertedIndex::new();
    index.add_document_tokens(
        doc1,
        vec![("rust".to_string(), 0), ("memory".to_string(), 1)],
    );
    index.add_document_tokens(doc2, vec![("rust".to_string(), 0)]);
    Segment {
        id: "seg_000001".to_string(),
        doctable,
        index,
    }
}

#[test]
fn segment_search_reader_all_matches_docs_with_all_terms() {
    let reader = open_reader(&all_segment());
    let (_, results) = SegmentSearcher::new(&reader)
        .match_all(&["rust".to_string(), "memory".to_string()])
        .unwrap();
    assert_eq!(results.len(), 1);
    assert_eq!(results[0].path, "a.txt");
}

#[test]
fn search_search_reader_all_matches_docs_with_all_terms() {
    let reader = open_reader(&all_segment());
    let (_, results) = SegmentSearcher::new(&reader)
        .match_all(&["rust".to_string(), "memory".to_string()])
        .unwrap();
    assert_eq!(results.len(), 1);
    assert_eq!(results[0].path, "a.txt");
}

#[test]
fn search_reader_any_returns_docs_with_any_term() {
    let mut doctable = DocTable::new();
    let doc1 = doctable.add_document("a.txt".to_string());
    let doc2 = doctable.add_document("b.txt".to_string());
    let doc3 = doctable.add_document("c.txt".to_string());

    let mut index = InvertedIndex::new();

    index.add_document_tokens(
        doc1,
        vec![("rust".to_string(), 0), ("memory".to_string(), 1)],
    );

    index.add_document_tokens(doc2, vec![("rust".to_string(), 0), ("rust".to_string(), 1)]);

    index.add_document_tokens(doc3, vec![("python".to_string(), 0)]);

    let segment = Segment {
        id: "seg_000001".to_string(),
        doctable,
        index,
    };

    let reader = open_reader(&segment);

    let terms = vec!["memory".to_string(), "python".to_string()];
    let results = SegmentSearcher::new(&reader).match_any(&terms).unwrap();

    let mut paths: Vec<_> = results.iter().map(|r| r.path.as_str()).collect();
    paths.sort();

    assert_eq!(paths, vec!["a.txt", "c.txt"]);
}

fn phrase_segment() -> Segment {
    let mut doctable = DocTable::new();
    let doc1 = doctable.add_document("a.txt".to_string());
    let doc2 = doctable.add_document("b.txt".to_string());
    let mut index = InvertedIndex::new();
    index.add_document_tokens(
        doc1,
        vec![
            ("white".to_string(), 0),
            ("whale".to_string(), 1),
            ("white".to_string(), 4),
            ("whale".to_string(), 5),
        ],
    );
    index.add_document_tokens(
        doc2,
        vec![
            ("white".to_string(), 0),
            ("rust".to_string(), 1),
            ("whale".to_string(), 2),
        ],
    );
    Segment {
        id: "seg_000001".to_string(),
        doctable,
        index,
    }
}

#[test]
fn segment_search_reader_phrase_matches_adjacent_terms() {
    let reader = open_reader(&phrase_segment());
    let terms = vec!["white".to_string(), "whale".to_string()];
    let results = SegmentSearcher::new(&reader).match_phrase(&terms).unwrap();
    assert_eq!(results.len(), 1);
    assert_eq!(results[0].path, "a.txt");
    assert_eq!(results[0].count as f64, 2.0);
}

#[test]
fn search_search_reader_phrase_matches_adjacent_terms() {
    let reader = open_reader(&phrase_segment());
    let terms = vec!["white".to_string(), "whale".to_string()];
    let results = SegmentSearcher::new(&reader).match_phrase(&terms).unwrap();
    assert_eq!(results.len(), 1);
    assert_eq!(results[0].path, "a.txt");
    assert_eq!(results[0].count as f64, 2.0);
}

#[test]
fn query_plan_orders_terms_by_document_frequency() {
    let mut doctable = DocTable::new();
    let doc1 = doctable.add_document("a.txt".to_string());
    let doc2 = doctable.add_document("b.txt".to_string());

    let mut index = InvertedIndex::new();

    index.add_document_tokens(
        doc1,
        vec![("common".to_string(), 0), ("rare".to_string(), 1)],
    );

    index.add_document_tokens(doc2, vec![("common".to_string(), 0)]);

    let segment = Segment {
        id: "seg_000001".to_string(),
        doctable,
        index,
    };

    let reader = open_reader(&segment);

    let terms = vec!["common".to_string(), "rare".to_string()];
    let plan = QueryPlan::for_all_terms(&reader, &terms);

    assert_eq!(plan.terms(), &["rare", "common"]);
}

#[test]
fn segment_reader_loads_document_lengths() {
    let mut doctable = DocTable::new();
    let doc1 = doctable.add_document("a.txt".to_string());
    let doc2 = doctable.add_document("b.txt".to_string());

    let mut index = InvertedIndex::new();

    index.add_document_tokens(
        doc1,
        vec![
            ("rust".to_string(), 0),
            ("memory".to_string(), 1),
            ("safety".to_string(), 2),
        ],
    );

    index.add_document_tokens(
        doc2,
        vec![("rust".to_string(), 0), ("system".to_string(), 1)],
    );

    let segment = Segment {
        id: "seg_000001".to_string(),
        doctable,
        index,
    };

    let reader = open_reader(&segment);

    assert_eq!(reader.doc_len(doc1), 3);
    assert_eq!(reader.doc_len(doc2), 2);
    assert_eq!(reader.position_count(), 5);
    assert_eq!(reader.length_counts(), (2, 5));
}

#[test]
fn repl_stats_sum_counts_over_segments() {
    let cache = SegmentReaderCache::new(vec![open_reader(&all_segment()), open_reader(&phrase_segment())]);
    let stats = ReplStats::from_cache(&cache).unwrap();
    assert_eq!(stats.segments, 2);
    assert_eq!(stats.docs, 4);
    assert_eq!(stats.terms, 2 + 3);
    assert_eq!(stats.postings, 3 + 5);
    assert_eq!(stats.positions, 3 + 7);
}

#[test]
fn reader_terms_absent_from_the_segment_have_no_frequency() {
    let reader = open_reader(&all_segment());
    assert_eq!(reader.term_df("rust"), Some(2));
    assert_eq!(reader.document_frequency("memory"), 1);
    assert_eq!(reader.term_df("python"), None);
    assert_eq!(reader.document_frequency("python"), 0);
    assert_eq!(reader.doc_path(2), Some("b.txt"));
    assert_eq!(reader.doc_path(3), None);
    let mut iter = reader.posting_iter("rust").unwrap().unwrap();
    assert_eq!(iter.current_doc(), Some(1));
    iter.advance_to(2);
    assert_eq!(iter.current_doc(), Some(2));
    assert!(reader.posting_iter("python").unwrap().is_none());
}
