use searchfs::format::{next_segment_id, Manifest, MANIFEST_VERSION};
use searchfs::merge_scheduler::MergeScheduler;
use searchfs::posting_iter::PostingIterator;
use searchfs::postings::Postings;
use searchfs::storage::{MemoryStorage, Storage};

#[test]
fn next_segment_id_uses_max_existing_segment_id() {
    let manifest = Manifest {
        version: MANIFEST_VERSION,
        segments: vec!["seg_000010".to_string(), "seg_000002".to_string()],
    };

    assert_eq!(next_segment_id(&manifest), "seg_000011");
}

#[test]
fn segment_next_segment_id_uses_manifest_len() {
    let manifest = Manifest {
        version: MANIFEST_VERSION,
        segments: vec!["seg_000001".to_string(), "seg_000002".to_string()],
    };

    assert_eq!(next_segment_id(&manifest), "seg_000003");
}

#[test]
fn format_next_segment_id_uses_manifest_len() {
    let manifest = Manifest {
        version: MANIFEST_VERSION,
        segments: vec!["seg_000001".to_string(), "seg_000002".to_string()],
    };

    assert_eq!(next_segment_id(&manifest), "seg_000003");
}

#[test]
fn merge_scheduler_triggers_when_segment_count_exceeds_limit() {
    let scheduler = MergeScheduler::new(3);

    assert!(!scheduler.should_merge(3));
    assert!(scheduler.should_merge(4));
}

#[test]
fn disabled_merge_scheduler_never_triggers_for_normal_counts() {
    let scheduler = MergeScheduler::disabled();

    assert!(!scheduler.should_merge(100));
}

#[test]
fn merge_scheduler_can_trigger_segment_merge() {
    let scheduler = MergeScheduler::new(2);

    assert!(!scheduler.should_merge(2));
    assert!(scheduler.should_merge(3));
}

#[test]
fn posting_iterator_iterates_in_doc_id_order() {
    let postings = Postings::from_pairs(vec![(3, vec![0]), (1, vec![2]), (2, vec![4])]);

    let mut iter = PostingIterator::from_postings(postings);

    assert_eq!(iter.current().map(|(doc_id, _)| doc_id), Some(1));
    iter.advance();

    assert_eq!(iter.current().map(|(doc_id, _)| doc_id), Some(2));
    iter.advance();

    assert_eq!(iter.current().map(|(doc_id, _)| doc_id), Some(3));
    iter.advance();

    assert!(iter.is_done());
}

#[test]
fn posting_iterator_advance_to_skips_until_target() {
    let postings = Postings::from_pairs(vec![(1, vec![0]), (3, vec![1]), (7, vec![2])]);

    let mut iter = PostingIterator::from_postings(postings);

    iter.advance_to(4);

    assert_eq!(iter.current().map(|(doc_id, _)| doc_id), Some(7));
}

#[test]
fn posting_iterator_counts_advances() {
    let postings = Postings::from_pairs(vec![(1, vec![0]), (3, vec![1]), (7, vec![2])]);

    let mut iter = PostingIterator::from_postings(postings);

    assert_eq!(iter.advance_count(), 0);

    iter.advance();
    iter.advance();

    assert_eq!(iter.advance_count(), 2);
}

#[test]
fn posting_iterator_advance_to_reaches_target_or_next_doc() {
    let postings =
        Postings::from_pairs(vec![(1, vec![0]), (3, vec![1]), (7, vec![2]), (10, vec![3])]);

    let mut iter = PostingIterator::from_postings(postings);

    iter.advance_to(8);

    assert_eq!(iter.current_doc(), Some(10));
}

#[test]
fn posting_iterator_builds_skip_pointers() {
    let postings = Postings::from_pairs(vec![
        (1, vec![0]),
        (2, vec![0]),
        (3, vec![0]),
        (4, vec![0]),
        (5, vec![0]),
        (6, vec![0]),
        (7, vec![0]),
        (8, vec![0]),
        (9, vec![0]),
    ]);

    let iter = PostingIterator::from_postings(postings);

    assert!(!iter.skips().is_empty());
}

#[test]
fn posting_iterator_advance_to_uses_skip_pointers() {
    let postings = Postings::from_pairs(vec![
        (1, vec![0]),
        (2, vec![0]),
        (3, vec![0]),
        (4, vec![0]),
        (5, vec![0]),
        (6, vec![0]),
        (7, vec![0]),
        (8, vec![0]),
        (9, vec![0]),
        (10, vec![0]),
        (11, vec![0]),
        (12, vec![0]),
        (13, vec![0]),
        (14, vec![0]),
        (15, vec![0]),
        (16, vec![0]),
    ]);

    let mut iter = PostingIterator::from_postings(postings);

    iter.advance_to(15);

    assert_eq!(iter.current_doc(), Some(15));
    assert!(iter.advance_count() < 14);
}

#[test]
fn memory_storage_writes_and_reads_file() {
    let mut storage = MemoryStorage::new();

    storage
        .write("segments/seg_000001/docs.bin", b"hello")
        .unwrap();

    assert_eq!(
        storage.read("segments/seg_000001/docs.bin").unwrap(),
        b"hello"
    );
}

#[test]
fn memory_storage_reports_directory_exists() {
    let mut storage = MemoryStorage::new();

    storage
        .write("segments/seg_000001/docs.bin", b"hello")
        .unwrap();

    assert!(storage.path_exists("segments"));
    assert!(storage.path_exists("segments/seg_000001"));
    assert!(storage.path_exists("segments/seg_000001/docs.bin"));
    assert!(!storage.path_exists("segments/seg_000002"));
}

#[test]
fn memory_storage_removes_directory_tree() {
    let mut storage = MemoryStorage::new();

    storage.write("segments/seg_000001/docs.bin", b"a").unwrap();
    storage
        .write("segments/seg_000001/terms.bin", b"b")
        .unwrap();
    storage.write("segments/seg_000002/docs.bin", b"c").unwrap();

    storage.remove_dir_all("segments/seg_000001").unwrap();

    assert!(!storage.path_exists("segments/seg_000001"));
    assert!(storage.path_exists("segments/seg_000002"));
}
