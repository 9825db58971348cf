//! The layout of a segment index: the files that hold a segment, how they
//! are built from an in-memory index and read back into one, and how the
//! segments of an index are named and merged.

use vstd::prelude::*;

use crate::assoc::{
    assoc_has, assoc_map, distinct_keys, lemma_assoc_at, lemma_assoc_empty, lemma_assoc_insert,
    lemma_assoc_push, lemma_assoc_update,
};
use crate::codec::{positions_sorted, CodecError, PostingCodec};
use crate::format::{
    manifest_ids, max_segment_number_of, next_id_for, next_segment_id, DocMetaEntry,
    Manifest, Segment, SegmentData, SegmentDocMeta, SegmentDocs, SegmentMeta, SegmentTerms,
    TermEntry, MANIFEST_VERSION, SEGMENT_DOC_META_VERSION, SEGMENT_META_VERSION,
    SEGMENT_TERMS_VERSION,
};
use crate::memindex::{
    entries_index_list, entry_positions, index_sorted, position_total, posting_total, IndexMap,
    InvertedIndex,
};
use crate::postings::{entries_map, has_key, lemma_entries_map_at, sorted_keys, DocId, Position};

verus! {

/// The terms with their entries, as `InvertedIndex::term_entries` gives them.
pub type TermEntries = Seq<(Seq<char>, Seq<(DocId, Seq<Position>)>)>;

/// The number of positions of document `d` over the first `n` terms.
pub open spec fn doc_len_upto(ts: TermEntries, n: int, d: DocId) -> int
    decreases n,
{
    if n <= 0 {
        0
    } else {
        doc_len_upto(ts, n - 1, d) + if has_key(ts[n - 1].1, d) {
            entries_map(ts[n - 1].1)[d].len() as int
        } else {
            0
        }
    }
}

/// Whether document `d` is listed under one of the first `n` terms.
pub open spec fn doc_seen(ts: TermEntries, n: int, d: DocId) -> bool {
    exists|k: int| 0 <= k < n && #[trigger] has_key(ts[k].1, d)
}

/// The documents listed under the first `n` terms, with their number of
/// positions.
pub open spec fn doc_lens_upto(ts: TermEntries, n: int) -> Map<DocId, usize> {
    Map::new(|d: DocId| doc_seen(ts, n, d), |d: DocId| doc_len_upto(ts, n, d) as usize)
}

/// Entries ordered by strictly increasing key.
pub open spec fn keys_increase<V>(es: Seq<(DocId, V)>) -> bool {
    forall|i: int, j: int| 0 <= i < j < es.len() ==> es[i].0 < es[j].0
}

proof fn lemma_doc_len_mono(ts: TermEntries, m: int, n: int, d: DocId)
    requires
        0 <= m <= n,
    ensures
        0 <= doc_len_upto(ts, m, d) <= doc_len_upto(ts, n, d),
    decreases n,
{
    if n > m {
        lemma_doc_len_mono(ts, m, n - 1, d);
    } else if n > 0 {
        lemma_doc_len_mono(ts, 0, n - 1, d);
    }
}

proof fn lemma_entry_within(es: Seq<(DocId, Seq<Position>)>, i: int, n: int)
    requires
        0 <= i < n <= es.len(),
    ensures
        es[i].1.len() <= entry_positions(es, n),
    decreases n,
{
    lemma_entry_positions_mono(es, 0, n - 1);
    if i < n - 1 {
        lemma_entry_within(es, i, n - 1);
    }
}

/// A document's number of positions is at most the number of all positions.
proof fn lemma_doc_len_bounded(ts: TermEntries, n: int, d: DocId)
    requires
        0 <= n <= ts.len(),
    ensures
        doc_len_upto(ts, n, d) <= position_total(ts, n),
    decreases n,
{
    if n > 0 {
        lemma_doc_len_bounded(ts, n - 1, d);
        let es = ts[n - 1].1;
        assert forall|j: int| 0 <= j < es.len() implies #[trigger] es[j].1.len() <= entry_positions(
            es,
            es.len() as int,
        ) by {
            lemma_entry_within(es, j, es.len() as int);
        }
        lemma_entry_positions_mono(es, 0, es.len() as int);
        assert(position_total(ts, n) == position_total(ts, n - 1) + entry_positions(
            es,
            es.len() as int,
        ));
    }
}

/// Adds `x` to the length held for `d`, listing `d` in order if it was not.
fn add_len(lens: &mut Vec<(DocId, usize)>, d: DocId, x: usize)
    requires
        keys_increase(old(lens)@),
        (if assoc_has(old(lens)@, d) {
            assoc_map(old(lens)@)[d] as int
        } else {
            0
        }) + x <= usize::MAX,
    ensures
        keys_increase(final(lens)@),
        assoc_map(final(lens)@) == assoc_map(old(lens)@).insert(
            d,
            ((if assoc_has(old(lens)@, d) {
                assoc_map(old(lens)@)[d] as int
            } else {
                0
            }) + x) as usize,
        ),
{
    let ghost old_es = lens@;
    assert(distinct_keys(old_es));
    let mut i: usize = 0;
    while i < lens.len() && lens[i].0 < d
        invariant
            lens@ == old_es,
            i <= lens@.len(),
            forall|j: int| 0 <= j < i ==> lens@[j].0 < d,
        decreases lens@.len() - i,
    {
        i = i + 1;
    }
    if i < lens.len() && lens[i].0 == d {
        proof {
            lemma_assoc_at(old_es, i as int);
        }
        let v = lens[i].1 + x;
        lens.set(i, (d, v));
        proof {
            assert(lens@ =~= old_es.update(i as int, (old_es[i as int].0, v)));
            lemma_assoc_update(old_es, i as int, v);
        }
    } else {
        proof {
            assert(!assoc_has(old_es, d)) by {
                if assoc_has(old_es, d) {
                    let j = choose|j: int| 0 <= j < old_es.len() && old_es[j].0 == d;
                    if j >= i {
                        assert(old_es[i as int].0 <= old_es[j].0);
                    }
                }
            }
            lemma_assoc_insert(old_es, i as int, d, x);
        }
        lens.insert(i, (d, x));
        proof {
            assert forall|a: int, b: int| 0 <= a < b < lens@.len() implies lens@[a].0 < lens@[b].0 by {
                if a < i && b == i {
                } else if a == i && b > i {
                    assert(lens@[b] == old_es[b - 1]);
                } else {
                    let a0 = if a < i { a } else { a - 1 };
                    let b0 = if b < i { b } else { b - 1 };
                    assert(lens@[a] == old_es[a0] && lens@[b] == old_es[b0]);
                }
            }
        }
    }
}

/// Each document listed in the index with its number of positions over all
/// terms, in increasing order of document id.
pub fn document_lengths(index: &InvertedIndex) -> (lens: Vec<(DocId, usize)>)
    requires
        forall|d: DocId|
            doc_len_upto(index.term_entries(), index.term_entries().len() as int, d)
                <= usize::MAX,
    ensures
        keys_increase(lens@),
        assoc_map(lens@) == doc_lens_upto(index.term_entries(), index.term_entries().len() as int),
{
    let terms = index.postings_iter();
    let ghost ts = index.term_entries();
    let ghost n = ts.len() as int;
    let mut lens: Vec<(DocId, usize)> = Vec::new();
    proof {
        assert(assoc_map(lens@) =~= doc_lens_upto(ts, 0));
    }
    let mut i: usize = 0;
    while i < terms.len()
        invariant
            terms@.map_values(|e: (String, crate::postings::Postings)| (e.0@, e.1.entries())) == ts,
            n == ts.len(),
            i <= terms@.len(),
            forall|d: DocId| doc_len_upto(ts, n, d) <= usize::MAX,
            keys_increase(lens@),
            assoc_map(lens@) == doc_lens_upto(ts, i as int),
        decreases terms@.len() - i,
    {
        let p = &terms[i].1;
        proof {
            use_type_invariant(p);
            assert(ts[i as int].1 == p.entries());
        }
        let entries = p.entries_slice();
        let ghost es = p.entries();
        proof {
            assert forall|d: DocId| #[trigger] assoc_map(lens@).contains_key(d) implies assoc_map(
                lens@,
            )[d] as int == doc_len_upto(ts, i as int, d) + if has_key(es.take(0), d) {
                entries_map(es)[d].len() as int
            } else {
                0
            } by {
                lemma_doc_len_mono(ts, i as int, n, d);
                assert(!has_key(es.take(0), d));
            }
        }
        let mut j: usize = 0;
        while j < entries.len()
            invariant
                terms@.map_values(|e: (String, crate::postings::Postings)| (e.0@, e.1.entries())) == ts,
                n == ts.len(),
                i < terms@.len(),
                ts[i as int].1 == es,
                crate::postings::entries_of(entries@) == es,
                sorted_keys(es),
                j <= entries@.len(),
                forall|d: DocId| doc_len_upto(ts, n, d) <= usize::MAX,
                keys_increase(lens@),
                forall|d: DocId| #[trigger] assoc_map(lens@).contains_key(d) == (doc_seen(ts, i as int, d)
                    || has_key(es.take(j as int), d)),
                forall|d: DocId| #[trigger] assoc_map(lens@).contains_key(d) ==> assoc_map(lens@)[d] as int
                    == doc_len_upto(ts, i as int, d) + if has_key(es.take(j as int), d) {
                    entries_map(es)[d].len() as int
                } else {
                    0
                },
            decreases entries@.len() - j,
        {
            let d = entries[j].0;
            let x = entries[j].1.len();
            proof {
                lemma_entries_map_at(es, j as int);
                let t0 = es.take(j as int);
                assert(!has_key(t0, d)) by {
                    if has_key(t0, d) {
                        let k = choose|k: int| 0 <= k < t0.len() && t0[k].0 == d;
                        assert(es[k].0 < es[j as int].0);
                    }
                }
                assert(has_key(ts[i as int].1, d)) by {
                    assert(ts[i as int].1[j as int].0 == d);
                }
                lemma_doc_len_mono(ts, i + 1, n, d);
                assert(doc_len_upto(ts, i + 1, d) == doc_len_upto(ts, i as int, d) + x);
                if assoc_map(lens@).contains_key(d) {
                    assert(assoc_map(lens@)[d] as int == doc_len_upto(ts, i as int, d));
                } else {
                    assert(!doc_seen(ts, i as int, d));
                    assert(doc_len_upto(ts, i as int, d) == 0) by {
                        lemma_unseen_len(ts, i as int, d);
                    }
                }
                assert(assoc_map(lens@).contains_key(d) == assoc_has(lens@, d));
            }
            let ghost before = lens@;
            add_len(&mut lens, d, x);
            proof {
                let t0 = es.take(j as int);
                let t1 = es.take(j + 1);
                assert forall|e: DocId| #[trigger] has_key(t1, e) == (has_key(t0, e) || e == d) by {
                    if has_key(t1, e) && e != d {
                        let k = choose|k: int| 0 <= k < t1.len() && t1[k].0 == e;
                        assert(t0[k].0 == e);
                    }
                    if has_key(t0, e) {
                        let k = choose|k: int| 0 <= k < t0.len() && t0[k].0 == e;
                        assert(t1[k].0 == e);
                    }
                    if e == d {
                        assert(t1[j as int].0 == e);
                    }
                }
            }
            j = j + 1;
        }
        proof {
            assert(es.take(j as int) =~= es);
            assert forall|d: DocId| #[trigger] assoc_map(lens@).contains_key(d) == doc_lens_upto(ts, i + 1).contains_key(d) by {
                if doc_seen(ts, i + 1, d) && !doc_seen(ts, i as int, d) {
                    assert(has_key(ts[i as int].1, d));
                }
                if doc_seen(ts, i as int, d) {
                    let k = choose|k: int| 0 <= k < i && #[trigger] has_key(ts[k].1, d);
                    assert(has_key(ts[k].1, d));
                }
                if has_key(es, d) {
                    assert(has_key(ts[i as int].1, d));
                }
            }
            assert forall|d: DocId| #[trigger] assoc_map(lens@).contains_key(d) implies assoc_map(lens@)[d]
                == doc_lens_upto(ts, i + 1)[d] by {
                lemma_doc_len_mono(ts, i + 1, n, d);
            }
            assert(assoc_map(lens@) =~= doc_lens_upto(ts, i + 1));
        }
        i = i + 1;
    }
    proof {
        assert(terms@.len() == n);
    }
    lens
}

proof fn lemma_unseen_len(ts: TermEntries, n: int, d: DocId)
    requires
        !doc_seen(ts, n, d),
    ensures
        doc_len_upto(ts, n, d) == 0,
    decreases n,
{
    if n > 0 {
        assert(!has_key(ts[n - 1].1, d));
        assert(!doc_seen(ts, n - 1, d)) by {
            if doc_seen(ts, n - 1, d) {
                let k = choose|k: int| 0 <= k < n - 1 && #[trigger] has_key(ts[k].1, d);
                assert(has_key(ts[k].1, d));
            }
        }
        lemma_unseen_len(ts, n - 1, d);
    }
}

/// The bytes of the postings file that the entry points at, if it lies
/// within them.
pub open spec fn term_slice(e: TermEntry, bytes: Seq<u8>) -> Option<Seq<u8>> {
    if e.offset + e.len <= bytes.len() {
        Some(bytes.subrange(e.offset as int, e.offset + e.len))
    } else {
        None
    }
}

/// The entries lie one after the other from the start of a postings file
/// of `len` bytes and fill it.
pub open spec fn tiles(es: Seq<TermEntry>, len: int) -> bool {
    &&& es.len() == 0 ==> len == 0
    &&& es.len() > 0 ==> es[0].offset == 0 && es.last().offset + es.last().len == len
    &&& forall|i: int| 0 <= i < es.len() - 1 ==> #[trigger] es[i + 1].offset == es[i].offset + es[i].len
}

/// Every term's positions are sorted.
pub open spec fn index_positions_sorted(ts: TermEntries) -> bool {
    forall|i: int| 0 <= i < ts.len() ==> #[trigger] positions_sorted(ts[i].1)
}

/// The files of a segment.
pub struct SegmentFiles {
    pub docs: SegmentDocs,
    pub terms: SegmentTerms,
    pub postings: Vec<u8>,
    pub meta: SegmentMeta,
    pub docmeta: SegmentDocMeta,
}

/// The dictionary entries describe the terms in order: each names its term
/// and number of documents, and points at bytes of the postings file that
/// read back to the term's postings.
pub open spec fn entries_describe<C: PostingCodec>(
    codec: C,
    es: Seq<TermEntry>,
    ts: TermEntries,
    bytes: Seq<u8>,
) -> bool {
    &&& es.len() == ts.len()
    &&& tiles(es, bytes.len() as int)
    &&& forall|i: int|
        0 <= i < es.len() ==> {
            &&& (#[trigger] es[i]).term@ == ts[i].0
            &&& es[i].doc_freq == ts[i].1.len()
            &&& term_slice(es[i], bytes) == Some(codec.encoded(ts[i].1))
            &&& term_slice(es[i], bytes) matches Some(sl) && codec.decoded(sl) == Some(
                entries_map(ts[i].1),
            )
        }
}

/// The files that hold `segment`, written with `codec`.
pub open spec fn files_of<C: PostingCodec>(segment: &Segment, codec: C, f: SegmentFiles) -> bool {
    let ts = segment.index.term_entries();
    let n = ts.len() as int;
    &&& f.docs.doctable.paths() == segment.doctable.paths()
    &&& f.terms.version == SEGMENT_TERMS_VERSION
    &&& entries_describe(codec, f.terms.terms@, ts, f.postings@)
    &&& f.meta.version == SEGMENT_META_VERSION
    &&& f.meta.id@ == segment.id@
    &&& f.meta.doc_count == segment.doctable.spec_len()
    &&& f.meta.term_count == n
    &&& f.meta.posting_count == posting_total(ts, n)
    &&& f.meta.position_count == position_total(ts, n)
    &&& f.meta.postings_size == f.postings@.len()
    &&& f.docmeta.version == SEGMENT_DOC_META_VERSION
    &&& keys_increase(doc_meta_pairs(f.docmeta.docs@))
    &&& assoc_map(doc_meta_pairs(f.docmeta.docs@)) == doc_lens_upto(ts, n)
}

/// The document lengths as pairs.
pub open spec fn doc_meta_pairs(ds: Seq<DocMetaEntry>) -> Seq<(DocId, usize)> {
    ds.map_values(|e: DocMetaEntry| (e.doc_id, e.doc_len))
}

proof fn lemma_totals_mono(ts: TermEntries, m: int, n: int)
    requires
        0 <= m <= n,
    ensures
        0 <= posting_total(ts, m) <= posting_total(ts, n),
        0 <= position_total(ts, m) <= position_total(ts, n),
    decreases n,
{
    if n > m {
        lemma_totals_mono(ts, m, n - 1);
        lemma_entry_positions_mono(ts[n - 1].1, 0, ts[n - 1].1.len() as int);
    } else if n > 0 {
        lemma_totals_mono(ts, 0, n - 1);
        lemma_entry_positions_mono(ts[n - 1].1, 0, ts[n - 1].1.len() as int);
    }
}

proof fn lemma_entry_positions_mono(es: Seq<(DocId, Seq<Position>)>, m: int, n: int)
    requires
        0 <= m <= n,
    ensures
        0 <= entry_positions(es, m) <= entry_positions(es, n),
    decreases n,
{
    if n > m {
        lemma_entry_positions_mono(es, m, n - 1);
    } else if n > 0 {
        lemma_entry_positions_mono(es, 0, n - 1);
    }
}

/// The number of positions in the posting list.
fn count_positions(p: &crate::postings::Postings, bound: Ghost<int>) -> (c: usize)
    requires
        entry_positions(p.entries(), p.entries().len() as int) <= bound@ <= usize::MAX,
    ensures
        c == entry_positions(p.entries(), p.entries().len() as int),
{
    let entries = p.entries_slice();
    let ghost es = p.entries();
    let mut c: usize = 0;
    let mut j: usize = 0;
    while j < entries.len()
        invariant
            crate::postings::entries_of(entries@) == es,
            j <= entries@.len(),
            c == entry_positions(es, j as int),
            entry_positions(es, es.len() as int) <= usize::MAX,
        decreases entries@.len() - j,
    {
        proof {
            lemma_entry_positions_mono(es, j + 1, es.len() as int);
        }
        c = c + entries[j].1.len();
        j = j + 1;
    }
    c
}

/// The files that hold `segment`: its document table, its term dictionary,
/// the postings of each term written with `codec` one after the other, its
/// counts and its document lengths in increasing order of document id. An
/// error when the codec fails to write a posting list.
pub fn build_segment_files<C: PostingCodec>(segment: &Segment, codec: &C) -> (r: Result<
    SegmentFiles,
    CodecError,
>)
    requires
        codec.needs_sorted_positions() ==> index_positions_sorted(segment.index.term_entries()),
        posting_total(segment.index.term_entries(), segment.index.term_entries().len() as int)
            <= usize::MAX,
        position_total(segment.index.term_entries(), segment.index.term_entries().len() as int)
            <= usize::MAX,
    ensures
        match r {
            Ok(f) => files_of(segment, *codec, f),
            Err(e) => e == CodecError::Encode,
        },
        codec.encodes_always() ==> r is Ok,
{
    let docs = SegmentDocs { doctable: segment.doctable.clone() };
    let terms = segment.index.postings_iter();
    let ghost ts = segment.index.term_entries();
    let ghost n = ts.len() as int;
    let mut entries: Vec<TermEntry> = Vec::new();
    let mut postings_bytes: Vec<u8> = Vec::new();
    let mut term_count: usize = 0;
    let mut posting_count: usize = 0;
    let mut position_count: usize = 0;
    let mut i: usize = 0;
    while i < terms.len()
        invariant
            terms@.map_values(|e: (String, crate::postings::Postings)| (e.0@, e.1.entries())) == ts,
            n == ts.len(),
            i <= terms@.len(),
            codec.needs_sorted_positions() ==> index_positions_sorted(ts),
            posting_total(ts, n) <= usize::MAX,
            position_total(ts, n) <= usize::MAX,
            term_count == i,
            posting_count == posting_total(ts, i as int),
            position_count == position_total(ts, i as int),
            entries_describe(*codec, entries@, ts.take(i as int), postings_bytes@),
        decreases terms@.len() - i,
    {
        let term = &terms[i].0;
        let p = &terms[i].1;
        proof {
            use_type_invariant(p);
            assert(ts[i as int] == (term@, p.entries()));
            if codec.needs_sorted_positions() {
                assert(positions_sorted(ts[i as int].1));
            }
            lemma_totals_mono(ts, i + 1, n);
            crate::postings::lemma_entries_len(p.entries());
        }
        let mut bytes = match codec.encode(p) {
            Ok(b) => b,
            Err(e) => {
                return Err(e);
            },
        };
        let ghost b = bytes@;
        let ghost before = postings_bytes@;
        let ghost es0 = entries@;
        let offset = postings_bytes.len() as u64;
        let len = bytes.len() as u64;
        postings_bytes.append(&mut bytes);
        entries.push(TermEntry { term: term.clone(), offset, len, doc_freq: p.len() });
        term_count = term_count + 1;
        posting_count = posting_count + p.len();
        position_count = position_count + count_positions(p, Ghost(position_total(ts, n)));
        proof {
            let t1 = ts.take(i + 1);
            assert(t1 =~= ts.take(i as int).push(ts[i as int]));
            assert(postings_bytes@.subrange(offset as int, offset + len) =~= b);
            assert forall|k: int| 0 <= k < i implies #[trigger] term_slice(entries@[k], postings_bytes@)
                == term_slice(es0[k], before) by {
                assert(entries@[k] == es0[k]);
                assert(postings_bytes@.subrange(es0[k].offset as int, es0[k].offset + es0[k].len) =~= before.subrange(es0[k].offset as int, es0[k].offset + es0[k].len));
            }
            assert forall|k: int| 0 <= k < entries@.len() - 1 implies #[trigger] entries@[k + 1].offset
                == entries@[k].offset + entries@[k].len by {
                if k + 1 < es0.len() {
                    assert(es0[k + 1].offset == es0[k].offset + es0[k].len);
                }
            }
            assert(entries_describe(*codec, entries@, t1, postings_bytes@));
        }
        i = i + 1;
    }
    proof {
        assert(ts.take(i as int) =~= ts);
        assert forall|d: DocId| doc_len_upto(ts, n, d) <= usize::MAX by {
            lemma_doc_len_bounded(ts, n, d);
        }
    }
    let lens = document_lengths(&segment.index);
    let mut docmeta_docs: Vec<DocMetaEntry> = Vec::new();
    let mut j: usize = 0;
    while j < lens.len()
        invariant
            j <= lens@.len(),
            doc_meta_pairs(docmeta_docs@) =~= lens@.take(j as int),
        decreases lens@.len() - j,
    {
        let ghost before = docmeta_docs@;
        docmeta_docs.push(DocMetaEntry { doc_id: lens[j].0, doc_len: lens[j].1 });
        proof {
            assert(doc_meta_pairs(docmeta_docs@) =~= doc_meta_pairs(before).push(lens@[j as int]));
            assert(lens@.take(j + 1) =~= lens@.take(j as int).push(lens@[j as int]));
        }
        j = j + 1;
    }
    proof {
        assert(lens@.take(j as int) =~= lens@);
    }
    let meta = SegmentMeta {
        version: SEGMENT_META_VERSION,
        id: segment.id.clone(),
        doc_count: segment.doctable.len(),
        term_count,
        posting_count,
        position_count,
        postings_size: postings_bytes.len() as u64,
    };
    Ok(
        SegmentFiles {
            docs,
            terms: SegmentTerms { version: SEGMENT_TERMS_VERSION, terms: entries },
            postings: postings_bytes,
            meta,
            docmeta: SegmentDocMeta { version: SEGMENT_DOC_META_VERSION, docs: docmeta_docs },
        },
    )
}

/// Why a segment could not be read.
#[derive(Debug, Clone, Copy, PartialEq, Eq)]
pub enum SegmentError {
    /// The dictionary entry at this index points past the postings file.
    SliceOutOfBounds(usize),
    /// The bytes of the dictionary entry at this index are not a posting list.
    Corrupt(usize),
    /// A stored record has a version that is not supported.
    UnsupportedVersion(u32),
    /// There is no segment to merge.
    EmptyManifest,
}

/// The index that reading the first `n` dictionary entries gives, each
/// term's postings replacing any read before for it; the first entry that
/// cannot be read gives the error.
pub open spec fn loaded<C: PostingCodec>(
    codec: C,
    es: Seq<TermEntry>,
    bytes: Seq<u8>,
    n: int,
) -> Result<IndexMap, SegmentError>
    decreases n,
{
    if n <= 0 {
        Ok(IndexMap::empty())
    } else {
        match loaded(codec, es, bytes, n - 1) {
            Err(e) => Err(e),
            Ok(m) => match term_slice(es[n - 1], bytes) {
                None => Err(SegmentError::SliceOutOfBounds((n - 1) as usize)),
                Some(sl) => match codec.decoded(sl) {
                    None => Err(SegmentError::Corrupt((n - 1) as usize)),
                    Some(p) => Ok(m.insert(es[n - 1].term@, p)),
                },
            },
        }
    }
}

/// The bytes that a dictionary entry points at, or `None` when they lie
/// past the end of the postings file.
pub fn slice_for<'a>(entry: &TermEntry, bytes: &'a [u8]) -> (r: Option<&'a [u8]>)
    ensures
        match term_slice(*entry, bytes@) {
            Some(sl) => r matches Some(s) && s@ == sl,
            None => r is None,
        },
{
    let total = bytes.len() as u64;
    if entry.offset <= total && entry.len <= total - entry.offset {
        let start = entry.offset as usize;
        let end = start + entry.len as usize;
        Some(vstd::slice::slice_subrange(bytes, start, end))
    } else {
        None
    }
}

/// The index that the dictionary entries and the postings file hold: each
/// entry's bytes read back with `codec` and set as its term's postings, in
/// order. The first entry that points past the file or whose bytes are not
/// a posting list gives the error.
pub fn load_index<C: PostingCodec>(terms: &Vec<TermEntry>, postings: &[u8], codec: &C) -> (r: Result<
    InvertedIndex,
    SegmentError,
>)
    ensures
        match loaded(*codec, terms@, postings@, terms@.len() as int) {
            Ok(m) => r matches Ok(idx) && idx@ == m,
            Err(e) => r == Err::<InvertedIndex, SegmentError>(e),
        },
{
    let mut index = InvertedIndex::new();
    let mut i: usize = 0;
    while i < terms.len()
        invariant
            i <= terms@.len(),
            loaded(*codec, terms@, postings@, i as int) == Ok::<IndexMap, SegmentError>(index@),
        decreases terms@.len() - i,
    {
        let entry = &terms[i];
        let buf = match slice_for(entry, postings) {
            Some(b) => b,
            None => {
                proof {
                    assert(loaded(*codec, terms@, postings@, i + 1) == Err::<IndexMap, SegmentError>(
                        SegmentError::SliceOutOfBounds(i),
                    ));
                    lemma_loaded_err(*codec, terms@, postings@, i + 1, terms@.len() as int);
                }
                return Err(SegmentError::SliceOutOfBounds(i));
            },
        };
        let map = match codec.decode(buf) {
            Ok(m) => m,
            Err(_) => {
                proof {
                    lemma_loaded_err(*codec, terms@, postings@, i + 1, terms@.len() as int);
                }
                return Err(SegmentError::Corrupt(i));
            },
        };
        index.insert_postings(entry.term.clone(), map);
        i = i + 1;
    }
    Ok(index)
}

proof fn lemma_loaded_err<C: PostingCodec>(codec: C, es: Seq<TermEntry>, bytes: Seq<u8>, m: int, n: int)
    requires
        0 <= m <= n,
        loaded(codec, es, bytes, m) is Err,
    ensures
        loaded(codec, es, bytes, n) == loaded(codec, es, bytes, m),
    decreases n,
{
    if n > m {
        lemma_loaded_err(codec, es, bytes, m, n - 1);
    }
}

/// Reading back the files that hold a segment gives its index: what
/// `load_index` reads from the dictionary and postings file that
/// `build_segment_files` wrote is the index they were written from.
pub proof fn lemma_segment_roundtrip<C: PostingCodec>(segment: &Segment, codec: C, f: SegmentFiles)
    requires
        files_of(segment, codec, f),
        segment.index.wf(),
    ensures
        loaded(codec, f.terms.terms@, f.postings@, f.terms.terms@.len() as int) == Ok::<
            IndexMap,
            SegmentError,
        >(segment.index@),
{
    let ts = segment.index.term_entries();
    let es = f.terms.terms@;
    let l = entries_index_list(ts);
    segment.index.lemma_term_entries();
    lemma_loaded_prefix(codec, es, ts, f.postings@, es.len() as int);
    assert(l.take(es.len() as int) =~= l);
}

proof fn lemma_loaded_prefix<C: PostingCodec>(
    codec: C,
    es: Seq<TermEntry>,
    ts: TermEntries,
    bytes: Seq<u8>,
    k: int,
)
    requires
        entries_describe(codec, es, ts, bytes),
        distinct_keys(entries_index_list(ts)),
        0 <= k <= es.len(),
    ensures
        loaded(codec, es, bytes, k) == Ok::<IndexMap, SegmentError>(
            assoc_map(entries_index_list(ts).take(k)),
        ),
    decreases k,
{
    let l = entries_index_list(ts);
    if k == 0 {
        lemma_assoc_empty(l.take(0));
    } else {
        lemma_loaded_prefix(codec, es, ts, bytes, k - 1);
        let lt = l.take(k - 1);
        assert(distinct_keys(lt));
        assert(l[k - 1] == (ts[k - 1].0, entries_map(ts[k - 1].1)));
        assert(es[k - 1].term@ == ts[k - 1].0);
        assert(!assoc_has(lt, ts[k - 1].0)) by {
            if assoc_has(lt, ts[k - 1].0) {
                let j = choose|j: int| 0 <= j < lt.len() && lt[j].0 == ts[k - 1].0;
                assert(l[j].0 != l[k - 1].0);
            }
        }
        lemma_assoc_push(lt, ts[k - 1].0, entries_map(ts[k - 1].1));
        assert(l.take(k) =~= lt.push(l[k - 1]));
    }
}

/// Appends the characters of `s`.
fn append_str(out: &mut String, s: &str)
    ensures
        final(out)@ == old(out)@ + s@,
{
    let chars = crate::parser::str_chars(s);
    let ghost start = out@;
    let mut i: usize = 0;
    while i < chars.len()
        invariant
            i <= chars@.len(),
            chars@ == s@,
            out@ =~= start + chars@.take(i as int),
        decreases chars@.len() - i,
    {
        crate::parser::push_char(out, chars[i]);
        i = i + 1;
    }
    proof {
        assert(chars@.take(i as int) =~= chars@);
    }
}

/// The directory that holds the segments.
pub fn segments_dir() -> (p: String)
    ensures
        p@ == "segments"@,
{
    "segments".to_owned()
}

/// The directory of segment `id`: `segments/<id>`.
pub fn segment_dir(id: &str) -> (p: String)
    ensures
        p@ == "segments/"@ + id@,
{
    let mut p = "segments/".to_owned();
    append_str(&mut p, id);
    p
}

/// The path of file `name` of segment `id`: `segments/<id>/<name>`.
pub open spec fn segment_file(id: Seq<char>, name: Seq<char>) -> Seq<char> {
    "segments/"@ + id + "/"@ + name
}

fn segment_file_path(id: &str, name: &str) -> (p: String)
    ensures
        p@ == segment_file(id@, name@),
{
    let mut p = segment_dir(id);
    append_str(&mut p, "/");
    append_str(&mut p, name);
    p
}

/// The path of a segment's document table.
pub fn segment_docs_path(id: &str) -> (p: String)
    ensures
        p@ == segment_file(id@, "docs.bin"@),
{
    segment_file_path(id, "docs.bin")
}

/// The path of a segment's term dictionary.
pub fn segment_terms_path(id: &str) -> (p: String)
    ensures
        p@ == segment_file(id@, "terms.bin"@),
{
    segment_file_path(id, "terms.bin")
}

/// The path of a segment's postings.
pub fn segment_postings_path(id: &str) -> (p: String)
    ensures
        p@ == segment_file(id@, "postings.bin"@),
{
    segment_file_path(id, "postings.bin")
}

/// The path of a segment's counts.
pub fn segment_meta_path(id: &str) -> (p: String)
    ensures
        p@ == segment_file(id@, "meta.bin"@),
{
    segment_file_path(id, "meta.bin")
}

/// The path of a segment's document lengths.
pub fn segment_docmeta_path(id: &str) -> (p: String)
    ensures
        p@ == segment_file(id@, "docmeta.bin"@),
{
    segment_file_path(id, "docmeta.bin")
}

/// The path of the manifest.
pub fn manifest_path() -> (p: String)
    ensures
        p@ == "manifest.bin"@,
{
    "manifest.bin".to_owned()
}

/// The counts of a segment, if their version is supported.
pub fn check_meta_version(meta: SegmentMeta) -> (r: Result<SegmentMeta, SegmentError>)
    ensures
        meta.version == SEGMENT_META_VERSION ==> r == Ok::<SegmentMeta, SegmentError>(meta),
        meta.version != SEGMENT_META_VERSION ==> r == Err::<SegmentMeta, SegmentError>(
            SegmentError::UnsupportedVersion(meta.version),
        ),
{
    if meta.version != SEGMENT_META_VERSION {
        return Err(SegmentError::UnsupportedVersion(meta.version));
    }
    Ok(meta)
}

/// The document lengths of a segment, if their version is supported.
pub fn check_docmeta_version(docmeta: SegmentDocMeta) -> (r: Result<SegmentDocMeta, SegmentError>)
    ensures
        docmeta.version == SEGMENT_DOC_META_VERSION ==> r == Ok::<SegmentDocMeta, SegmentError>(
            docmeta,
        ),
        docmeta.version != SEGMENT_DOC_META_VERSION ==> r == Err::<SegmentDocMeta, SegmentError>(
            SegmentError::UnsupportedVersion(docmeta.version),
        ),
{
    if docmeta.version != SEGMENT_DOC_META_VERSION {
        return Err(SegmentError::UnsupportedVersion(docmeta.version));
    }
    Ok(docmeta)
}

/// A segment's parts put together for reading: its id, document table,
/// dictionary, postings, counts and document lengths as pairs.
pub fn segment_data(
    id: String,
    docs: SegmentDocs,
    terms: SegmentTerms,
    postings: Vec<u8>,
    meta: SegmentMeta,
    docmeta: SegmentDocMeta,
) -> (d: SegmentData)
    ensures
        d.id@ == id@,
        d.docs == docs.doctable,
        d.terms@ == terms.terms@,
        d.postings@ == postings@,
        d.meta == meta,
        d.doc_lens@ == doc_meta_pairs(docmeta.docs@),
{
    let mut doc_lens: Vec<(DocId, usize)> = Vec::new();
    let mut j: usize = 0;
    while j < docmeta.docs.len()
        invariant
            j <= docmeta.docs@.len(),
            doc_lens@ =~= doc_meta_pairs(docmeta.docs@).take(j as int),
        decreases docmeta.docs@.len() - j,
    {
        let ghost before = doc_lens@;
        doc_lens.push((docmeta.docs[j].doc_id, docmeta.docs[j].doc_len));
        proof {
            assert(doc_meta_pairs(docmeta.docs@).take(j + 1) =~= doc_meta_pairs(docmeta.docs@).take(
                j as int,
            ).push(doc_meta_pairs(docmeta.docs@)[j as int]));
        }
        j = j + 1;
    }
    proof {
        assert(doc_meta_pairs(docmeta.docs@).take(j as int) =~= doc_meta_pairs(docmeta.docs@));
    }
    SegmentData { id, docs: docs.doctable, terms: terms.terms, postings, meta, doc_lens }
}

/// What merging all segments of an index comes to.
pub enum MergePlan {
    /// One segment: nothing to merge; it stays as it is.
    Keep(String),
    /// Several segments: they are merged, in order, into a new segment with
    /// this id, and the manifest then lists it alone.
    Merge { new_id: String, old: Vec<String> },
}

/// The plan for merging the segments of `manifest`: an error when there is
/// none, the one id when there is one, else a merge into the next id.
pub fn plan_merge(manifest: &Manifest) -> (r: Result<MergePlan, SegmentError>)
    requires
        max_segment_number_of(manifest_ids(manifest)) < usize::MAX,
    ensures
        manifest.segments@.len() == 0 ==> r == Err::<MergePlan, SegmentError>(
            SegmentError::EmptyManifest,
        ),
        manifest.segments@.len() == 1 ==> (r matches Ok(MergePlan::Keep(id)) && id@
            == manifest.segments@[0]@),
        manifest.segments@.len() > 1 ==> (r matches Ok(MergePlan::Merge { new_id, old }) && new_id@
            == next_id_for(manifest_ids(manifest)) && old@.map_values(|s: String| s@)
            == manifest_ids(manifest)),
{
    if manifest.segments.len() == 0 {
        return Err(SegmentError::EmptyManifest);
    }
    if manifest.segments.len() == 1 {
        return Ok(MergePlan::Keep(manifest.segments[0].clone()));
    }
    let new_id = next_segment_id(manifest);
    let mut old: Vec<String> = Vec::new();
    let mut i: usize = 0;
    while i < manifest.segments.len()
        invariant
            i <= manifest.segments@.len(),
            old@.map_values(|s: String| s@) =~= manifest_ids(manifest).take(i as int),
        decreases manifest.segments@.len() - i,
    {
        let ghost before = old@;
        old.push(manifest.segments[i].clone());
        proof {
            assert(old@.map_values(|s: String| s@) =~= before.map_values(|s: String| s@).push(
                manifest.segments@[i as int]@,
            ));
            assert(manifest_ids(manifest).take(i + 1) =~= manifest_ids(manifest).take(i as int).push(
                manifest_ids(manifest)[i as int],
            ));
        }
        i = i + 1;
    }
    proof {
        assert(manifest_ids(manifest).take(i as int) =~= manifest_ids(manifest));
    }
    Ok(MergePlan::Merge { new_id, old })
}

/// The manifest that lists only segment `id`.
pub fn single_manifest(id: String) -> (m: Manifest)
    ensures
        m.version == MANIFEST_VERSION,
        m.segments@.len() == 1,
        m.segments@[0]@ == id@,
{
    let mut segments: Vec<String> = Vec::new();
    segments.push(id);
    Manifest { version: MANIFEST_VERSION, segments }
}

/// Whether every term's positions are sorted in every document.
pub fn positions_are_sorted(index: &InvertedIndex) -> (b: bool)
    ensures
        b == index_positions_sorted(index.term_entries()),
{
    let terms = index.postings_iter();
    let ghost ts = index.term_entries();
    let mut i: usize = 0;
    while i < terms.len()
        invariant
            terms@.map_values(|e: (String, crate::postings::Postings)| (e.0@, e.1.entries())) == ts,
            ts == index.term_entries(),
            i <= terms@.len(),
            forall|k: int| 0 <= k < i ==> #[trigger] positions_sorted(ts[k].1),
        decreases terms@.len() - i,
    {
        let entries = terms[i].1.entries_slice();
        let ghost es = terms@[i as int].1.entries();
        proof {
            assert(ts[i as int].1 == es);
            assert(ts == index.term_entries());
        }
        let mut j: usize = 0;
        while j < entries.len()
            invariant
                ts == index.term_entries(),
                i < ts.len(),
                ts[i as int].1 == es,
                crate::postings::entries_of(entries@) == es,
                j <= entries@.len(),
                forall|k: int| 0 <= k < j ==> crate::postings::nondecreasing(#[trigger] es[k].1),
            decreases entries@.len() - j,
        {
            let ps = &entries[j].1;
            let mut k: usize = 1;
            while k < ps.len()
                invariant
                    ts == index.term_entries(),
                    i < ts.len(),
                    ts[i as int].1 == es,
                    crate::postings::entries_of(entries@) == es,
                    j < entries@.len(),
                    ps@ == es[j as int].1,
                    1 <= k,
                    k <= ps@.len() || ps@.len() == 0,
                    forall|x: int, y: int| 0 <= x <= y < k && y < ps@.len() ==> ps@[x] <= ps@[y],
                decreases ps@.len() - k,
            {
                if ps[k - 1] > ps[k] {
                    proof {
                        assert(es[j as int].1 == ps@);
                        assert(!crate::postings::nondecreasing(es[j as int].1));
                        assert(!positions_sorted(ts[i as int].1));
                    }
                    return false;
                }
                k = k + 1;
            }
            proof {
                assert(es[j as int].1 == ps@);
                assert(crate::postings::nondecreasing(es[j as int].1));
            }
            j = j + 1;
        }
        i = i + 1;
    }
    true
}

/// An index whose posting lists keep their positions in order, as indexing
/// documents one at a time from their tokens does, meets what writing it as
/// a segment asks of its positions.
pub proof fn lemma_sorted_index_can_be_written(index: &InvertedIndex)
    requires
        index.wf(),
        index_sorted(index@),
    ensures
        index_positions_sorted(index.term_entries()),
{
    index.lemma_entries_sorted();
}

} // verus!
