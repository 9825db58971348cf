//! Reading a segment held in memory: its term dictionary, its postings bytes
//! decoded on demand, its documents and their lengths.

use vstd::prelude::*;

use crate::codec::PostingCodec;
use crate::doctable::DocTable;
use crate::format::{SegmentData, SegmentMeta, TermEntry};
use crate::memindex::DocPositions;
use crate::posting_iter::PostingIterator;
use crate::postings::{DocId, Postings};
use crate::assoc::{assoc_has, lemma_assoc_at};
use crate::format::Segment;
use crate::memindex::entries_index_list;
use crate::query::postings_of;
use crate::store::{files_of, term_slice, SegmentError, SegmentFiles};

verus! {

/// The index of the last of the first `n` entries for term `t`.
pub open spec fn last_entry(es: Seq<TermEntry>, t: Seq<char>, n: int) -> Option<int>
    decreases n,
{
    if n <= 0 {
        None
    } else if es[n - 1].term@ == t {
        Some(n - 1)
    } else {
        last_entry(es, t, n - 1)
    }
}

/// The number of documents that the dictionary's last entry for `t` gives,
/// if it has one.
pub open spec fn df_entry(es: Seq<TermEntry>, t: Seq<char>) -> Option<usize> {
    match last_entry(es, t, es.len() as int) {
        Some(i) => Some(es[i].doc_freq),
        None => None,
    }
}

/// The index of the last of the first `n` pairs for document `d`.
pub open spec fn last_pair<V>(es: Seq<(DocId, V)>, d: DocId, n: int) -> Option<int>
    decreases n,
{
    if n <= 0 {
        None
    } else if es[n - 1].0 == d {
        Some(n - 1)
    } else {
        last_pair(es, d, n - 1)
    }
}

/// What looking up term `t` in a dictionary and postings bytes gives: no
/// postings when no entry names it; else the postings that the bytes of its
/// last entry read back to, or the error that reading them meets.
pub open spec fn lookup_result<C: PostingCodec>(
    codec: C,
    es: Seq<TermEntry>,
    bytes: Seq<u8>,
    t: Seq<char>,
) -> Result<Option<DocPositions>, SegmentError> {
    match last_entry(es, t, es.len() as int) {
        None => Ok(None),
        Some(i) => match term_slice(es[i], bytes) {
            None => Err(SegmentError::SliceOutOfBounds(i as usize)),
            Some(sl) => match codec.decoded(sl) {
                None => Err(SegmentError::Corrupt(i as usize)),
                Some(m) => Ok(Some(m)),
            },
        },
    }
}

proof fn lemma_last_entry(es: Seq<TermEntry>, t: Seq<char>, n: int)
    requires
        0 <= n <= es.len(),
    ensures
        match last_entry(es, t, n) {
            Some(i) => 0 <= i < n && es[i].term@ == t && forall|j: int|
                i < j < n ==> es[j].term@ != t,
            None => forall|j: int| 0 <= j < n ==> es[j].term@ != t,
        },
    decreases n,
{
    if n > 0 {
        lemma_last_entry(es, t, n - 1);
    }
}

proof fn lemma_last_pair<V>(es: Seq<(DocId, V)>, d: DocId, n: int)
    requires
        0 <= n <= es.len(),
    ensures
        match last_pair(es, d, n) {
            Some(i) => 0 <= i < n && es[i].0 == d,
            None => forall|j: int| 0 <= j < n ==> es[j].0 != d,
        },
    decreases n,
{
    if n > 0 {
        lemma_last_pair(es, d, n - 1);
    }
}

fn find_entry(es: &Vec<TermEntry>, t: &str) -> (r: Option<usize>)
    ensures
        match last_entry(es@, t@, es@.len() as int) {
            Some(i) => r matches Some(k) && k == i,
            None => r is None,
        },
        r matches Some(i) ==> i < es@.len(),
{
    proof {
        lemma_last_entry(es@, t@, es@.len() as int);
    }
    let owned = t.to_owned();
    let mut i: usize = es.len();
    while i > 0
        invariant
            i <= es@.len(),
            owned@ == t@,
            last_entry(es@, t@, es@.len() as int) == last_entry(es@, t@, i as int),
        decreases i,
    {
        if es[i - 1].term == owned {
            return Some(i - 1);
        }
        i = i - 1;
    }
    None
}

fn find_pair(es: &Vec<(DocId, usize)>, d: DocId) -> (r: Option<usize>)
    ensures
        match last_pair(es@, d, es@.len() as int) {
            Some(i) => r matches Some(k) && k == i,
            None => r is None,
        },
        r matches Some(i) ==> i < es@.len(),
{
    proof {
        lemma_last_pair(es@, d, es@.len() as int);
    }
    let mut i: usize = es.len();
    while i > 0
        invariant
            i <= es@.len(),
            last_pair(es@, d, es@.len() as int) == last_pair(es@, d, i as int),
        decreases i,
    {
        if es[i - 1].0 == d {
            return Some(i - 1);
        }
        i = i - 1;
    }
    None
}

/// A segment opened for reading, with the codec its postings are read with.
pub struct SegmentReader<C: PostingCodec> {
    id: String,
    docs: DocTable,
    terms: Vec<TermEntry>,
    postings_bytes: Vec<u8>,
    meta: SegmentMeta,
    doc_lens: Vec<(DocId, usize)>,
    pub codec: C,
}

impl<C: PostingCodec> SegmentReader<C> {
    /// The data the reader was opened on.
    pub closed spec fn data_id(&self) -> Seq<char> {
        self.id@
    }

    pub closed spec fn data_docs(&self) -> DocTable {
        self.docs
    }

    pub closed spec fn data_terms(&self) -> Seq<TermEntry> {
        self.terms@
    }

    pub closed spec fn data_postings(&self) -> Seq<u8> {
        self.postings_bytes@
    }

    pub closed spec fn data_meta(&self) -> SegmentMeta {
        self.meta
    }

    pub closed spec fn data_doc_lens(&self) -> Seq<(DocId, usize)> {
        self.doc_lens@
    }

    /// The codec postings are read with.
    pub closed spec fn data_codec(&self) -> C {
        self.codec
    }

    /// A reader over the segment data, reading postings with `codec`.
    pub fn new(data: SegmentData, codec: C) -> (r: Self)
        ensures
            r.data_id() == data.id@,
            r.data_docs() == data.docs,
            r.data_terms() == data.terms@,
            r.data_postings() == data.postings@,
            r.data_meta() == data.meta,
            r.data_doc_lens() == data.doc_lens@,
            r.data_codec() == codec,
    {
        SegmentReader {
            id: data.id,
            docs: data.docs,
            terms: data.terms,
            postings_bytes: data.postings,
            meta: data.meta,
            doc_lens: data.doc_lens,
            codec,
        }
    }

    /// The postings of `term`: none when the dictionary does not name it;
    /// an error when its bytes lie past the postings or are not a posting
    /// list.
    pub fn lookup(&self, term: &str) -> (r: Result<Option<Postings>, SegmentError>)
        ensures
            match lookup_result(self.data_codec(), self.data_terms(), self.data_postings(), term@) {
                Ok(Some(m)) => r matches Ok(Some(p)) && p@ == m,
                Ok(None) => r matches Ok(None),
                Err(e) => r == Err::<Option<Postings>, SegmentError>(e),
            },
    {
        let i = match find_entry(&self.terms, term) {
            Some(i) => i,
            None => {
                return Ok(None);
            },
        };
        let buf = match crate::store::slice_for(&self.terms[i], self.postings_bytes.as_slice()) {
            Some(b) => b,
            None => {
                return Err(SegmentError::SliceOutOfBounds(i));
            },
        };
        match self.codec.decode(buf) {
            Ok(p) => Ok(Some(p)),
            Err(_) => Err(SegmentError::Corrupt(i)),
        }
    }

    /// A cursor over the postings of `term`, as `lookup` finds them.
    pub fn posting_iter(&self, term: &str) -> (r: Result<Option<PostingIterator>, SegmentError>)
        ensures
            match lookup_result(self.data_codec(), self.data_terms(), self.data_postings(), term@) {
                Ok(Some(m)) => r matches Ok(Some(it)) && crate::postings::entries_map(it.entries())
                    == m && it.cursor() == 0 && it.advances() == 0,
                Ok(None) => r matches Ok(None),
                Err(e) => r == Err::<Option<PostingIterator>, SegmentError>(e),
            },
    {
        match self.lookup(term) {
            Ok(Some(p)) => Ok(Some(PostingIterator::from_postings(p))),
            Ok(None) => Ok(None),
            Err(e) => Err(e),
        }
    }

    /// The path of document `doc_id`.
    pub fn doc_path(&self, doc_id: DocId) -> (r: Option<&str>)
        ensures
            match r {
                Some(p) => self.data_docs().path_of(doc_id) == Some(p@),
                None => self.data_docs().path_of(doc_id) is None,
            },
    {
        self.docs.get_path(doc_id)
    }

    /// The segment's document table.
    pub fn doctable(&self) -> (d: &DocTable)
        ensures
            *d == self.data_docs(),
    {
        &self.docs
    }

    /// The segment's id.
    pub fn id(&self) -> (s: &str)
        ensures
            s@ == self.data_id(),
    {
        self.id.as_str()
    }

    /// The number of documents.
    pub fn doc_count(&self) -> (n: usize)
        ensures
            n == self.data_docs().spec_len(),
    {
        self.docs.len()
    }

    /// The number of documents that the dictionary gives for `term`, 0 when
    /// it does not name it.
    pub fn document_frequency(&self, term: &str) -> (n: usize)
        ensures
            n == match df_entry(self.data_terms(), term@) {
                Some(k) => k,
                None => 0,
            },
    {
        match self.term_df(term) {
            Some(n) => n,
            None => 0,
        }
    }

    /// The number of documents that the dictionary gives for `term`.
    pub fn term_df(&self, term: &str) -> (r: Option<usize>)
        ensures
            r == df_entry(self.data_terms(), term@),
    {
        match find_entry(&self.terms, term) {
            Some(i) => Some(self.terms[i].doc_freq),
            None => None,
        }
    }

    /// The number of positions in the segment, as its counts give it.
    pub fn position_count(&self) -> (n: usize)
        ensures
            n == self.data_meta().position_count,
    {
        self.meta.position_count
    }

    /// The number of positions of document `doc_id`, 0 when it has none.
    pub fn doc_len(&self, doc_id: DocId) -> (n: usize)
        ensures
            n == match last_pair(self.data_doc_lens(), doc_id, self.data_doc_lens().len() as int) {
                Some(i) => self.data_doc_lens()[i].1,
                None => 0,
            },
    {
        match find_pair(&self.doc_lens, doc_id) {
            Some(i) => self.doc_lens[i].1,
            None => 0,
        }
    }

    /// The number of documents and of positions, for the average document
    /// length.
    pub fn length_counts(&self) -> (r: (usize, usize))
        ensures
            r == (self.data_meta().doc_count, self.data_meta().position_count),
    {
        (self.meta.doc_count, self.meta.position_count)
    }

    /// The number of terms, as the segment's counts give it.
    pub fn term_count(&self) -> (n: usize)
        ensures
            n == self.data_meta().term_count,
    {
        self.meta.term_count
    }

    /// The number of (term, document) pairs, as the segment's counts give it.
    pub fn posting_count(&self) -> (n: usize)
        ensures
            n == self.data_meta().posting_count,
    {
        self.meta.posting_count
    }
}

/// The readers of all segments of an index, in manifest order.
pub struct SegmentReaderCache<C: PostingCodec> {
    readers: Vec<SegmentReader<C>>,
}

impl<C: PostingCodec> SegmentReaderCache<C> {
    pub closed spec fn reader_seq(&self) -> Seq<SegmentReader<C>> {
        self.readers@
    }

    pub fn new(readers: Vec<SegmentReader<C>>) -> (c: Self)
        ensures
            c.reader_seq() == readers@,
    {
        SegmentReaderCache { readers }
    }

    /// The readers, in manifest order.
    pub fn readers(&self) -> (r: &[SegmentReader<C>])
        ensures
            r@ == self.reader_seq(),
    {
        self.readers.as_slice()
    }
}

/// Looking a term up in the files that hold a segment gives the term's
/// postings in the segment's index, and nothing for a term it lacks: a read
/// gives back what was written.
pub proof fn lemma_lookup_written<C: PostingCodec>(
    segment: &Segment,
    codec: C,
    f: SegmentFiles,
    t: Seq<char>,
)
    requires
        files_of(segment, codec, f),
        segment.index.wf(),
    ensures
        lookup_result(codec, f.terms.terms@, f.postings@, t) == Ok::<
            Option<DocPositions>,
            SegmentError,
        >(postings_of(segment.index@, t)),
{
    let ts = segment.index.term_entries();
    let es = f.terms.terms@;
    let l = entries_index_list(ts);
    segment.index.lemma_term_entries();
    lemma_last_entry(es, t, es.len() as int);
    match last_entry(es, t, es.len() as int) {
        Some(j) => {
            assert(l[j].0 == t);
            lemma_assoc_at(l, j);
            assert(assoc_has(l, t));
        },
        None => {
            assert(!assoc_has(l, t)) by {
                if assoc_has(l, t) {
                    let k = choose|k: int| 0 <= k < l.len() && l[k].0 == t;
                    assert(es[k].term@ == t);
                }
            }
        },
    }
}

/// The number of documents that the dictionary of a written segment gives
/// for a term is the number of documents that hold the term in the segment's
/// index, and a term the index lacks has no entry: a reader over the files
/// reports the frequencies of the segment it was written from.
pub proof fn lemma_df_written<C: PostingCodec>(
    segment: &Segment,
    codec: C,
    f: SegmentFiles,
    t: Seq<char>,
)
    requires
        files_of(segment, codec, f),
        segment.index.wf(),
    ensures
        df_entry(f.terms.terms@, t) is Some <==> segment.index@.contains_key(t),
        segment.index@.contains_key(t) ==> df_entry(f.terms.terms@, t) == Some(
            segment.index@[t].dom().len() as usize,
        ),
{
    let ts = segment.index.term_entries();
    let es = f.terms.terms@;
    let l = entries_index_list(ts);
    segment.index.lemma_term_entries();
    lemma_last_entry(es, t, es.len() as int);
    match last_entry(es, t, es.len() as int) {
        Some(j) => {
            assert(l[j].0 == t);
            lemma_assoc_at(l, j);
            crate::postings::lemma_entries_len(ts[j].1);
        },
        None => {
            assert(!assoc_has(l, t)) by {
                if assoc_has(l, t) {
                    let k = choose|k: int| 0 <= k < l.len() && l[k].0 == t;
                    assert(es[k].term@ == t);
                }
            }
        },
    }
}

} // verus!
