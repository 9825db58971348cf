use searchfs::codec::{
    decode_varint, encode_u64s, encode_varint, BincodePostingCodec, CodecError,
    CompressedPostingCodec, PostingCodec,
};
use searchfs::crawler::{is_indexable_extension, is_indexable_file};
use searchfs::doctable::DocTable;
use searchfs::engine::SearchEngine;
use searchfs::format::{next_segment_id, Manifest, Segment, SegmentMeta, TermEntry, MANIFEST_VERSION};
use searchfs::memindex::InvertedIndex;
use searchfs::parser::tokenize;
use searchfs::posting_iter::PostingIterator;
use searchfs::postings::Postings;
use searchfs::query::{parse_mode, parse_query_mode, query_terms, QueryMode, QueryProcessor};
use searchfs::repl::{normalize_input, parse_repl_command, ReplCommand, ReplState};
use searchfs::storage::{MemoryStorage, Storage, StorageError};
use searchfs::store::{
    build_segment_files, load_index, plan_merge, positions_are_sorted, segment_docs_path,
    MergePlan, SegmentError,
};

fn engine_segment(id: &str, path: &str, tokens: Vec<(&str, u64)>) -> Segment {
    let mut doctable = DocTable::new();
    let doc = doctable.add_document(path.to_string());
    let mut index = InvertedIndex::new();
    index.add_document_tokens(
        doc,
        tokens.into_iter().map(|(t, p)| (t.to_string(), p)).collect(),
    );
    Segment {
        id: id.to_string(),
        doctable,
        index,
    }
}

#[test]
fn merged_segment_documents_keep_paths_and_positions_under_shifted_ids() {
    let mut engine = SearchEngine::new();
    engine.merge_segment(engine_segment("seg_000001", "a.txt", vec![("rust", 0), ("memory", 1)]));
    engine.merge_segment(engine_segment("seg_000002", "b.txt", vec![("rust", 3)]));

    assert_eq!(engine.doc_count(), 2);
    assert_eq!(engine.doctable().get_path(1), Some("a.txt"));
    assert_eq!(engine.doctable().get_path(2), Some("b.txt"));
    let rust = engine.index().lookup("rust").unwrap();
    assert_eq!(rust.get(&1), Some(&vec![0]));
    assert_eq!(rust.get(&2), Some(&vec![3]));
    assert_eq!(engine.index().lookup("memory").unwrap().get(&2), None);
}

#[test]
fn segment_files_read_back_to_the_same_index() {
    let mut doctable = DocTable::new();
    let a = doctable.add_document("a.txt".to_string());
    let b = doctable.add_document("b.txt".to_string());
    let mut index = InvertedIndex::new();
    index.add_document_tokens(a, vec![("rust".to_string(), 0), ("memory".to_string(), 1)]);
    index.add_document_tokens(b, vec![("rust".to_string(), 0), ("rust".to_string(), 4)]);
    let segment = Segment {
        id: "seg_000007".to_string(),
        doctable,
        index,
    };

    let files = build_segment_files(&segment, &CompressedPostingCodec).unwrap();
    assert_eq!(files.meta.id, "seg_000007");
    assert_eq!(files.meta.term_count, 2);
    assert_eq!(files.meta.posting_count, 3);
    assert_eq!(files.meta.position_count, 4);
    assert_eq!(files.meta.postings_size, files.postings.len() as u64);
    assert_eq!(files.terms.terms[0].offset, 0);
    assert_eq!(
        files.terms.terms[1].offset,
        files.terms.terms[0].offset + files.terms.terms[0].len
    );
    let lens: Vec<(u64, usize)> = files
        .docmeta
        .docs
        .iter()
        .map(|e| (e.doc_id, e.doc_len))
        .collect();
    assert_eq!(lens, vec![(1, 2), (2, 2)]);

    let loaded = load_index(&files.terms.terms, &files.postings, &CompressedPostingCodec).unwrap();
    for term in ["rust", "memory"] {
        assert_eq!(loaded.lookup(term), segment.index.lookup(term));
    }
    assert!(loaded.lookup("python").is_none());
}

#[test]
fn load_index_reports_the_first_unreadable_entry() {
    let bytes = CompressedPostingCodec
        .encode(&Postings::from_pairs(vec![(1, vec![0])]))
        .unwrap();
    let good = TermEntry {
        term: "rust".to_string(),
        offset: 0,
        len: bytes.len() as u64,
        doc_freq: 1,
    };
    let past_end = TermEntry {
        term: "memory".to_string(),
        offset: 1,
        len: bytes.len() as u64,
        doc_freq: 1,
    };
    assert_eq!(
        load_index(&vec![good.clone(), past_end], &bytes, &CompressedPostingCodec).err(),
        Some(SegmentError::SliceOutOfBounds(1))
    );
    let corrupt = TermEntry {
        term: "memory".to_string(),
        offset: 0,
        len: 1,
        doc_freq: 1,
    };
    assert_eq!(
        load_index(&vec![corrupt, good], &[0x80, 0x80], &CompressedPostingCodec).err(),
        Some(SegmentError::Corrupt(0))
    );
}

#[test]
fn plan_merge_covers_empty_single_and_many() {
    let empty = Manifest {
        version: MANIFEST_VERSION,
        segments: vec![],
    };
    assert!(matches!(plan_merge(&empty), Err(SegmentError::EmptyManifest)));

    let single = Manifest {
        version: MANIFEST_VERSION,
        segments: vec!["seg_000004".to_string()],
    };
    assert!(matches!(plan_merge(&single), Ok(MergePlan::Keep(id)) if id == "seg_000004"));

    let many = Manifest {
        version: MANIFEST_VERSION,
        segments: vec!["seg_000001".to_string(), "seg_000002".to_string()],
    };
    match plan_merge(&many) {
        Ok(MergePlan::Merge { new_id, old }) => {
            assert_eq!(new_id, "seg_000003");
            assert_eq!(old, vec!["seg_000001", "seg_000002"]);
        }
        _ => panic!("expected a merge"),
    }
}

#[test]
fn next_segment_id_ignores_other_names_and_widens() {
    let manifest = Manifest {
        version: MANIFEST_VERSION,
        segments: vec!["foo".to_string()],
    };
    assert_eq!(next_segment_id(&manifest), "seg_000001");

    let manifest = Manifest {
        version: MANIFEST_VERSION,
        segments: vec!["seg_1234567".to_string(), "seg_+000009".to_string()],
    };
    assert_eq!(next_segment_id(&manifest), "seg_1234568");
}

#[test]
fn segment_file_paths_follow_the_layout() {
    assert_eq!(segment_docs_path("seg_000001"), "segments/seg_000001/docs.bin");
}

#[test]
fn memory_storage_read_gives_back_what_was_written() {
    let mut storage = MemoryStorage::new();
    storage.write("a/b", b"one").unwrap();
    storage.write("a/b", b"two").unwrap();
    assert_eq!(storage.read("a/b").unwrap(), b"two");
    assert_eq!(
        storage.read("a/c"),
        Err(StorageError::NotFound("a/c".to_string()))
    );
    assert!(!storage.path_exists("a/"));
    assert!(!storage.path_exists("a/b/c"));
    storage.write("ab/c", b"x").unwrap();
    storage.remove_dir_all("a").unwrap();
    assert!(!storage.path_exists("a"));
    assert!(storage.path_exists("ab"));
}

#[test]
fn varint_writes_seven_bits_per_byte() {
    let mut out = Vec::new();
    encode_varint(300, &mut out);
    assert_eq!(out, vec![0xAC, 0x02]);
    let mut offset = 0;
    assert_eq!(decode_varint(&out, &mut offset), Some(300));
    assert_eq!(offset, 2);
    assert_eq!(encode_u64s(&[u64::MAX]).len(), 10);
}

#[test]
fn bincode_codec_writes_and_rejects() {
    let postings = Postings::from_pairs(vec![(2, vec![1, 4])]);
    let bytes = BincodePostingCodec.encode(&postings).unwrap();
    assert_ne!(bytes, CompressedPostingCodec.encode(&postings).unwrap());
    assert_eq!(
        BincodePostingCodec.decode(&bytes[..3]),
        Err(CodecError::Decode)
    );
}

#[test]
fn crawler_reads_the_extension_of_the_file_name() {
    assert!(!is_indexable_file("archive.tar.gz"));
    assert!(!is_indexable_file("notes.TXT"));
    assert!(!is_indexable_file(".md"));
    assert!(!is_indexable_file("docs.txt/README"));
    assert!(is_indexable_file("dir/notes.txt"));
    assert!(is_indexable_extension("hpp"));
    assert!(!is_indexable_extension("o"));
}

#[test]
fn posting_iterator_advance_to_restarts_from_first_skip() {
    let pairs: Vec<(u64, Vec<u64>)> = (1..=16).map(|d| (d, vec![0])).collect();
    let mut iter = PostingIterator::from_postings(Postings::from_pairs(pairs));
    assert_eq!(iter.skips(), &[4, 8, 12]);
    for _ in 0..13 {
        iter.advance();
    }
    assert_eq!(iter.current_doc(), Some(14));
    iter.advance_to(15);
    assert_eq!(iter.current_doc(), Some(15));
    assert_eq!(iter.advance_count(), 13 + 10);
    assert!(iter.skips().is_empty());
}

#[test]
fn posting_iterator_without_skips_below_four_documents() {
    let iter = PostingIterator::from_postings(Postings::from_pairs(vec![(1, vec![0]), (2, vec![0])]));
    assert!(iter.skips().is_empty());
    assert_eq!(iter.current_positions(), Some(&[0u64][..]));
}

#[test]
fn query_modes_parse_and_quotes_force_phrases() {
    assert_eq!(QueryMode::try_from("ALL"), Ok(QueryMode::All));
    assert_eq!(parse_mode("Any"), Ok(QueryMode::Any));
    assert_eq!(
        QueryMode::try_from("Fuzzy"),
        Err("unknown query mode: fuzzy".to_string())
    );
    assert_eq!(QueryMode::Phrase.as_str(), "phrase");
    assert_eq!(
        parse_query_mode("\"white whale\"", QueryMode::All),
        ("white whale", QueryMode::Phrase)
    );
    assert_eq!(parse_query_mode("\"\"", QueryMode::Any), ("", QueryMode::Phrase));
    assert_eq!(parse_query_mode("rust", QueryMode::Any), ("rust", QueryMode::Any));
    assert_eq!(query_terms("Rust, memory!"), vec!["rust", "memory"]);
}

fn query_engine() -> (DocTable, InvertedIndex) {
    let mut doctable = DocTable::new();
    let mut index = InvertedIndex::new();
    let doc1 = doctable.add_document("a.txt".to_string());
    index.add_document_tokens(
        doc1,
        vec![
            ("rust".to_string(), 0),
            ("memory".to_string(), 1),
            ("safety".to_string(), 2),
        ],
    );
    let doc2 = doctable.add_document("b.txt".to_string());
    index.add_document_tokens(
        doc2,
        vec![
            ("rust".to_string(), 0),
            ("distributed".to_string(), 1),
            ("system".to_string(), 2),
        ],
    );
    let doc3 = doctable.add_document("c.txt".to_string());
    index.add_document_tokens(
        doc3,
        vec![("python".to_string(), 0), ("memory".to_string(), 1)],
    );
    (doctable, index)
}

#[test]
fn query_processor_matches_documents_by_mode() {
    let (doctable, index) = query_engine();
    let qp = QueryProcessor::new(&index, &doctable);

    let all: Vec<_> = qp.match_all("rust memory").into_iter().map(|m| m.path).collect();
    assert_eq!(all, vec!["a.txt"]);

    let any = qp.match_any("python rust");
    let paths: Vec<_> = any.iter().map(|m| m.path.as_str()).collect();
    assert_eq!(paths, vec!["a.txt", "b.txt", "c.txt"]);
    assert_eq!(any[2].freqs, vec![1, 0]);

    assert!(qp.match_all("").is_empty());
    assert!(qp.match_all("unknown").is_empty());

    let phrase = qp.match_phrase("memory safety");
    assert_eq!(phrase.len(), 1);
    assert_eq!(phrase[0].path, "a.txt");
    assert_eq!(phrase[0].count, 1);
    assert!(qp.match_phrase("rust safety").is_empty());
}

#[test]
fn repl_commands_are_read_from_trimmed_input() {
    assert_eq!(normalize_input("  \u{ff1a}limit 5 \n"), ":limit 5");
    assert_eq!(parse_repl_command(":limit 5"), ReplCommand::SetLimit(5));
    assert_eq!(
        parse_repl_command(":limit 0"),
        ReplCommand::InvalidLimit("0".to_string())
    );
    assert_eq!(
        parse_repl_command(":mode fuzzy"),
        ReplCommand::InvalidMode("fuzzy".to_string())
    );
    assert_eq!(parse_repl_command(":q"), ReplCommand::Exit);
    assert_eq!(parse_repl_command("rust"), ReplCommand::Search);

    let mut state = ReplState::default();
    state.apply(&parse_repl_command(":mode phrase"));
    state.apply(&parse_repl_command(":limit 3"));
    assert_eq!(state.mode, QueryMode::Phrase);
    assert_eq!(state.limit, 3);
}

#[test]
fn segment_meta_accumulates_counts() {
    let mut total = SegmentMeta {
        version: 1,
        id: "total".to_string(),
        doc_count: 1,
        term_count: 2,
        posting_count: 3,
        position_count: 4,
        postings_size: 5,
    };
    total.accumulate(&total.clone());
    assert_eq!(
        (
            total.doc_count,
            total.term_count,
            total.posting_count,
            total.position_count,
            total.postings_size
        ),
        (2, 4, 6, 8, 10)
    );
}

#[test]
fn tokenized_documents_keep_positions_in_order() {
    let tokens = tokenize("the whale, the WHITE whale!");
    let positions: Vec<u64> = tokens.iter().map(|(_, p)| *p).collect();
    assert_eq!(positions, vec![0, 1, 2, 3, 4]);

    let mut engine = SearchEngine::new();
    engine.add_document("a.txt".to_string(), tokens);
    engine.add_document("b.txt".to_string(), tokenize("whale whale"));
    assert!(positions_are_sorted(engine.index()));

    let mut index = InvertedIndex::new();
    index.add_document_tokens(1, vec![("whale".to_string(), 5), ("whale".to_string(), 2)]);
    assert!(!positions_are_sorted(&index));
    assert!(index.shift_fits_for(u64::MAX - 1));
    assert!(!index.shift_fits_for(u64::MAX));
}

#[test]
fn bincode_codec_writes_fixed_width_little_endian() {
    let postings = Postings::from_pairs(vec![(2, vec![1, 4])]);
    let bytes = BincodePostingCodec.encode(&postings).unwrap();
    let mut expected: Vec<u8> = Vec::new();
    for n in [1u64, 2, 2, 1, 4] {
        expected.extend_from_slice(&n.to_le_bytes());
    }
    assert_eq!(bytes, expected);
    let mut longer = bytes.clone();
    longer.push(9);
    assert_eq!(BincodePostingCodec.decode(&longer), Ok(postings));
}

#[test]
fn doctable_ids_follow_the_adds() {
    let mut table = DocTable::new();
    assert!(!table.contains_path("a.txt"));
    let a = table.add_document("a.txt".to_string());
    let b = table.add_document("b.txt".to_string());
    let again = table.add_document("a.txt".to_string());
    assert_eq!((a, b, again), (1, 2, 1));
    assert_eq!(table.get_path(a), Some("a.txt"));
    assert_eq!(table.get_path(b), Some("b.txt"));
    assert_eq!(table.get_path(3), None);
    assert!(table.contains_path("b.txt"));
    assert!(!table.contains_path("c.txt"));
}

#[test]
fn posting_iterator_walk_visits_each_document_once() {
    let postings = Postings::from_pairs(vec![(3, vec![7]), (1, vec![0, 2]), (2, vec![5])]);
    let mut it = PostingIterator::from_postings(postings);
    let mut seen: Vec<(u64, Vec<u64>)> = Vec::new();
    while !it.is_done() {
        let (d, ps) = it.current().unwrap();
        seen.push((d, ps.to_vec()));
        it.advance();
    }
    assert_eq!(seen, vec![(1, vec![0, 2]), (2, vec![5]), (3, vec![7])]);
    assert_eq!(it.advance_count(), 3);
}

#[test]
fn engine_rebuilt_from_snapshot_or_segment_is_the_same() {
    let segment = engine_segment("seg_000001", "a.txt", vec![("rust", 0), ("memory", 1)]);
    let engine = SearchEngine::from_segment(segment);
    let stats = engine.stats();
    let again = SearchEngine::from_snapshot(engine.into_snapshot());
    assert_eq!(again.stats(), stats);
    assert_eq!(again.doc_count(), 1);
    let segment = again.into_segment("seg_000002".to_string());
    assert_eq!(segment.id, "seg_000002");
    let back = SearchEngine::from_segment(segment);
    assert_eq!(back.doctable().get_path(1), Some("a.txt"));
    assert_eq!(back.index().lookup("memory").unwrap().get(&1), Some(&vec![1]));
}

#[test]
fn merging_all_segments_shifts_each_by_the_documents_before() {
    let mut first = engine_segment("seg_000001", "a.txt", vec![("rust", 0)]);
    let doc = first.doctable.add_document("c.txt".to_string());
    first.index.add_document_tokens(doc, vec![("rust".to_string(), 2)]);
    let second = engine_segment("seg_000002", "b.txt", vec![("rust", 5), ("system", 6)]);
    let mut engine = SearchEngine::new();
    engine.merge_segment(first);
    engine.merge_segment(second);
    assert_eq!(engine.doc_count(), 3);
    assert_eq!(engine.doctable().get_path(3), Some("b.txt"));
    let rust = engine.index().lookup("rust").unwrap();
    assert_eq!(rust.get(&1), Some(&vec![0]));
    assert_eq!(rust.get(&2), Some(&vec![2]));
    assert_eq!(rust.get(&3), Some(&vec![5]));
    assert_eq!(engine.index().lookup("system").unwrap().get(&3), Some(&vec![6]));
}

#[test]
fn select_new_paths_keeps_unheld_first_occurrences_in_order() {
    let mut table = DocTable::new();
    table.add_document("a.txt".to_string());
    let names: Vec<String> = ["b.txt", "a.txt", "c.txt", "b.txt"]
        .iter()
        .map(|s| s.to_string())
        .collect();
    let fresh = searchfs::doctable::select_new_paths(&table, &names);
    assert_eq!(fresh, vec!["b.txt".to_string(), "c.txt".to_string()]);
    assert!(searchfs::doctable::select_new_paths(&table, &[]).is_empty());
}

#[test]
fn bincode_codec_writes_positions_out_of_order() {
    let mut doctable = DocTable::new();
    let a = doctable.add_document("a.txt".to_string());
    let mut index = InvertedIndex::new();
    index.add_document_tokens(a, vec![("rust".to_string(), 5), ("rust".to_string(), 1)]);
    assert!(!positions_are_sorted(&index));
    assert!(CompressedPostingCodec.wants_sorted_positions());
    let segment = Segment {
        id: "seg_000001".to_string(),
        doctable,
        index,
    };
    assert!(!BincodePostingCodec.wants_sorted_positions());
    let files = build_segment_files(&segment, &BincodePostingCodec).unwrap();
    let loaded = load_index(&files.terms.terms, &files.postings, &BincodePostingCodec).unwrap();
    assert_eq!(loaded.lookup("rust").unwrap().get(&1), Some(&vec![5, 1]));
}
