//! The search engine: a document table and an inverted index kept in step,
//! which documents are added to and segments merged into.

use vstd::prelude::*;

use crate::doctable::{add_paths, DocTable};
use crate::format::Segment;
use crate::memindex::{
    add_tokens, merge_shifted, shift_fits, tokens_view, IndexMap, IndexStats, InvertedIndex,
};
use crate::postings::{DocId, Position};
use crate::codec::PostingCodec;
use crate::query::QueryProcessor;
use crate::store::{files_of, lemma_segment_roundtrip, loaded, SegmentError, SegmentFiles};

verus! {

pub proof fn lemma_add_paths_len(ps: Seq<Seq<char>>, ns: Seq<Seq<char>>)
    ensures
        ps.len() <= add_paths(ps, ns).len() <= ps.len() + ns.len(),
    decreases ns.len(),
{
    if ns.len() > 0 {
        lemma_add_paths_len(ps, ns.drop_last());
    }
}

/// Adding paths that are new and distinct appends them all, in order.
pub proof fn lemma_add_new_paths(ps: Seq<Seq<char>>, ns: Seq<Seq<char>>)
    requires
        crate::doctable::distinct_paths(ns),
        forall|i: int| 0 <= i < ns.len() ==> !ps.contains(#[trigger] ns[i]),
    ensures
        add_paths(ps, ns) == ps + ns,
    decreases ns.len(),
{
    if ns.len() > 0 {
        let init = ns.drop_last();
        assert forall|i: int| 0 <= i < init.len() implies !ps.contains(#[trigger] init[i]) by {
            assert(init[i] == ns[i]);
        }
        lemma_add_new_paths(ps, init);
        let r = ps + init;
        assert(!r.contains(ns.last())) by {
            if r.contains(ns.last()) {
                let j = choose|j: int| 0 <= j < r.len() && r[j] == ns.last();
                if j < ps.len() {
                    assert(ps[j] == ns[ns.len() - 1]);
                    assert(ps.contains(ns[ns.len() - 1]));
                } else {
                    assert(ns[j - ps.len()] == ns[ns.len() - 1]);
                }
            }
        }
        assert(r.push(ns.last()) =~= ps + ns);
    }
}

/// Merging a segment whose paths are all new into an engine: each document
/// `d` of the segment gets id `held + d`, where `held` is the number of
/// documents the engine had, keeps its path, and has the same positions
/// under every term it holds; the documents held keep their ids and paths.
pub proof fn lemma_merge_segment_documents(
    held: Seq<Seq<char>>,
    seg: Seq<Seq<char>>,
    a: IndexMap,
    b: IndexMap,
    t: Seq<char>,
    d: DocId,
)
    requires
        crate::doctable::distinct_paths(seg),
        forall|i: int| 0 <= i < seg.len() ==> !held.contains(#[trigger] seg[i]),
        shift_fits(b, held.len() as u64),
        held.len() <= u64::MAX,
        1 <= d <= seg.len(),
    ensures
        add_paths(held, seg).len() == held.len() + seg.len(),
        add_paths(held, seg)[held.len() + d - 1] == seg[d - 1],
        forall|e: int| 0 <= e < held.len() ==> #[trigger] add_paths(held, seg)[e] == held[e],
        b.contains_key(t) && b[t].contains_key(d) ==> {
            &&& merge_shifted(a, b, held.len() as u64).contains_key(t)
            &&& merge_shifted(a, b, held.len() as u64)[t].contains_key((held.len() + d) as u64)
            &&& merge_shifted(a, b, held.len() as u64)[t][(held.len() + d) as u64] == b[t][d]
        },
{
    lemma_add_new_paths(held, seg);
    crate::memindex::lemma_merge_shifted(a, b, held.len() as u64, t, d);
}

/// The paths of the segments, one segment after the other.
pub open spec fn all_paths(segs: Seq<Segment>) -> Seq<Seq<char>>
    decreases segs.len(),
{
    if segs.len() == 0 {
        Seq::empty()
    } else {
        all_paths(segs.drop_last()) + segs.last().doctable.paths()
    }
}

/// The number of documents of the segments together.
pub open spec fn doc_total(segs: Seq<Segment>) -> nat
    decreases segs.len(),
{
    if segs.len() == 0 {
        0
    } else {
        doc_total(segs.drop_last()) + segs.last().doctable.spec_len()
    }
}

/// The paths that merging the segments, one after the other, into an empty
/// engine leaves (see `merge_segment`).
pub open spec fn merged_paths(segs: Seq<Segment>) -> Seq<Seq<char>>
    decreases segs.len(),
{
    if segs.len() == 0 {
        Seq::empty()
    } else {
        add_paths(merged_paths(segs.drop_last()), segs.last().doctable.paths())
    }
}

/// The index that merging the segments, one after the other, into an empty
/// engine leaves (see `merge_segment`).
pub open spec fn merged_index(segs: Seq<Segment>) -> IndexMap
    decreases segs.len(),
{
    if segs.len() == 0 {
        IndexMap::empty()
    } else {
        merge_shifted(
            merged_index(segs.drop_last()),
            segs.last().index@,
            merged_paths(segs.drop_last()).len() as u64,
        )
    }
}

/// Every document that the segment's index names has an entry in its table.
pub open spec fn docs_in_table(s: Segment) -> bool {
    forall|t: Seq<char>, d: DocId|
        s.index@.contains_key(t) && #[trigger] s.index@[t].contains_key(d) ==> 1 <= d
            <= s.doctable.spec_len()
}

proof fn lemma_doc_total_prefix(segs: Seq<Segment>, k: int)
    requires
        0 <= k < segs.len(),
    ensures
        doc_total(segs.take(k + 1)) == doc_total(segs.take(k)) + segs[k].doctable.spec_len(),
        doc_total(segs.take(k + 1)) <= doc_total(segs),
    decreases segs.len(),
{
    assert(segs.take(k + 1).drop_last() =~= segs.take(k));
    if k < segs.len() - 1 {
        let init = segs.drop_last();
        lemma_doc_total_prefix(init, k);
        assert(init.take(k + 1) =~= segs.take(k + 1));
        assert(init.take(k) =~= segs.take(k));
    } else {
        assert(segs.take(k + 1) =~= segs);
    }
}

/// The forward half of one merge step: what the segments before the last
/// placed stays in place.
proof fn lemma_merge_step_keeps(segs: Seq<Segment>, k: int, t: Seq<char>, d: DocId)
    requires
        segs.len() >= 1,
        0 <= k < segs.len() - 1,
        doc_total(segs) <= u64::MAX,
        merged_paths(segs.drop_last()).len() == doc_total(segs.drop_last()),
        docs_in_table(segs[k]),
        docs_in_table(segs.last()),
        segs[k].index@.contains_key(t),
        segs[k].index@[t].contains_key(d),
        merged_index(segs.drop_last()).contains_key(t),
        merged_index(segs.drop_last())[t].contains_key((doc_total(segs.take(k)) + d) as u64),
    ensures
        merged_index(segs).contains_key(t),
        merged_index(segs)[t].contains_key((doc_total(segs.take(k)) + d) as u64),
        merged_index(segs)[t][(doc_total(segs.take(k)) + d) as u64] == merged_index(
            segs.drop_last(),
        )[t][(doc_total(segs.take(k)) + d) as u64],
{
    let init = segs.drop_last();
    let off = merged_paths(init).len() as u64;
    let id = (doc_total(segs.take(k)) + d) as u64;
    lemma_doc_total_prefix(init, k);
    assert(init.take(k) =~= segs.take(k));
    assert(init[k] == segs[k]);
    assert(d <= segs[k].doctable.spec_len());
    assert(id <= off);
    let b = segs.last().index@;
    if b.contains_key(t) {
        assert(!crate::memindex::shifted(b[t], off).contains_key(id)) by {
            if id >= off && b[t].contains_key((id - off) as u64) {
                assert((id - off) as u64 == 0);
            }
        }
    }
}

/// The backward half of one merge step: a document of the merged index
/// comes from the last segment, or was there before.
proof fn lemma_merge_step_source(segs: Seq<Segment>, t: Seq<char>, id: DocId)
    requires
        segs.len() >= 1,
        merged_index(segs).contains_key(t),
        merged_index(segs)[t].contains_key(id),
    ensures
        ({
            let init = segs.drop_last();
            let off = merged_paths(init).len() as u64;
            let b = segs.last().index@;
            ||| (b.contains_key(t) && id >= off && b[t].contains_key((id - off) as u64)
                && merged_index(segs)[t][id] == b[t][(id - off) as u64])
            ||| (merged_index(init).contains_key(t) && merged_index(init)[t].contains_key(id)
                && merged_index(segs)[t][id] == merged_index(init)[t][id])
        }),
{
}

/// Each merge in turn is within the limits that `merge_segment` asks: the
/// documents merged before segment `k` number `doc_total` of them, and the
/// ids of segment `k` raised by that number fit in 64 bits.
#[verifier::opaque]
pub open spec fn merge_within_limits(segs: Seq<Segment>) -> bool {
    forall|k: int|
        0 <= k < segs.len() ==> merged_paths(#[trigger] segs.take(k)).len() == doc_total(
            segs.take(k),
        ) && doc_total(segs.take(k)) + segs[k].doctable.spec_len() <= u64::MAX && shift_fits(
            segs[k].index@,
            doc_total(segs.take(k)) as u64,
        )
}

/// Path `j + 1` of segment `k` stands at `o + j + 1` in the paths of all the
/// segments, where `o` is the number of documents of the segments before.
#[verifier::opaque]
pub open spec fn paths_placed(segs: Seq<Segment>) -> bool {
    forall|k: int, j: int|
        0 <= k < segs.len() && 0 <= j < segs[k].doctable.spec_len() ==> all_paths(segs)[doc_total(
            segs.take(k),
        ) + j] == #[trigger] segs[k].doctable.paths()[j]
}

/// Document `d` of segment `k` is document `o + d` of the merged index,
/// where `o` is the number of documents of the segments before, with the
/// same positions under every term.
#[verifier::opaque]
pub open spec fn docs_kept(segs: Seq<Segment>) -> bool {
    forall|k: int, t: Seq<char>, d: DocId|
        0 <= k < segs.len() && segs[k].index@.contains_key(t)
            && #[trigger] segs[k].index@[t].contains_key(d) ==> {
            &&& merged_index(segs).contains_key(t)
            &&& merged_index(segs)[t].contains_key((doc_total(segs.take(k)) + d) as u64)
            &&& merged_index(segs)[t][(doc_total(segs.take(k)) + d) as u64]
                == segs[k].index@[t][d]
        }
}

/// Every document of the merged index is one kept from a segment.
#[verifier::opaque]
pub open spec fn docs_sourced(segs: Seq<Segment>) -> bool {
    forall|t: Seq<char>, id: DocId|
        merged_index(segs).contains_key(t) && #[trigger] merged_index(segs)[t].contains_key(id)
            ==> exists|k: int, d: DocId|
            0 <= k < segs.len() && segs[k].index@.contains_key(t)
                && #[trigger] segs[k].index@[t].contains_key(d) && id == doc_total(segs.take(k)) + d
                && merged_index(segs)[t][id] == segs[k].index@[t][d]
}

proof fn lemma_limits_step(segs: Seq<Segment>)
    requires
        segs.len() >= 1,
        merge_within_limits(segs.drop_last()),
        merged_paths(segs.drop_last()).len() == doc_total(segs.drop_last()),
        doc_total(segs) <= u64::MAX,
        docs_in_table(segs.last()),
    ensures
        merge_within_limits(segs),
{
    reveal(merge_within_limits);
    let init = segs.drop_last();
    let n = segs.len() - 1;
    let off = doc_total(init);
    assert(segs.take(n) =~= init);
    assert(segs[n] == segs.last());
    assert(shift_fits(segs.last().index@, off as u64)) by {
        assert forall|t: Seq<char>, d: DocId|
            segs.last().index@.contains_key(t) && #[trigger] segs.last().index@[t].contains_key(
                d,
            ) implies d + (off as u64) <= u64::MAX by {
        }
    }
    assert forall|k: int|
        0 <= k < segs.len() implies merged_paths(#[trigger] segs.take(k)).len() == doc_total(
            segs.take(k),
        ) && doc_total(segs.take(k)) + segs[k].doctable.spec_len() <= u64::MAX && shift_fits(
            segs[k].index@,
            doc_total(segs.take(k)) as u64,
        ) by {
        lemma_doc_total_prefix(segs, k);
        if k < n {
            assert(segs.take(k) =~= init.take(k));
            assert(segs[k] == init[k]);
        }
    }
}

proof fn lemma_paths_step(segs: Seq<Segment>)
    requires
        segs.len() >= 1,
        paths_placed(segs.drop_last()),
        all_paths(segs.drop_last()).len() == doc_total(segs.drop_last()),
    ensures
        paths_placed(segs),
{
    reveal(paths_placed);
    let init = segs.drop_last();
    let n = segs.len() - 1;
    let a = all_paths(init);
    let bp = segs.last().doctable.paths();
    assert(all_paths(segs) == a + bp);
    assert(segs.take(n) =~= init);
    assert(segs[n] == segs.last());
    assert forall|k: int, j: int|
        0 <= k < segs.len() && 0 <= j < segs[k].doctable.spec_len() implies all_paths(segs)[doc_total(
            segs.take(k),
        ) + j] == #[trigger] segs[k].doctable.paths()[j] by {
        if k < n {
            assert(segs.take(k) =~= init.take(k));
            assert(segs[k] == init[k]);
            assert(init[k].doctable.paths()[j] == segs[k].doctable.paths()[j]);
            lemma_doc_total_prefix(init, k);
        }
    }
}

proof fn lemma_kept_step(segs: Seq<Segment>)
    requires
        segs.len() >= 1,
        docs_kept(segs.drop_last()),
        merged_paths(segs.drop_last()).len() == doc_total(segs.drop_last()),
        doc_total(segs) <= u64::MAX,
        forall|k: int| 0 <= k < segs.len() ==> docs_in_table(#[trigger] segs[k]),
        shift_fits(segs.last().index@, doc_total(segs.drop_last()) as u64),
    ensures
        docs_kept(segs),
{
    reveal(docs_kept);
    let init = segs.drop_last();
    let n = segs.len() - 1;
    let off = doc_total(init);
    assert(segs.take(n) =~= init);
    assert(segs[n] == segs.last());
    assert forall|k: int, t: Seq<char>, d: DocId|
        0 <= k < segs.len() && segs[k].index@.contains_key(t) && #[trigger] segs[k].index@[t].contains_key(
            d,
        ) implies {
        &&& merged_index(segs).contains_key(t)
        &&& merged_index(segs)[t].contains_key((doc_total(segs.take(k)) + d) as u64)
        &&& merged_index(segs)[t][(doc_total(segs.take(k)) + d) as u64] == segs[k].index@[t][d]
    } by {
        if k < n {
            assert(segs.take(k) =~= init.take(k));
            assert(segs[k] == init[k]);
            assert(init[k].index@[t].contains_key(d));
            assert(docs_in_table(segs[k]));
            assert(docs_in_table(segs.last()));
            lemma_merge_step_keeps(segs, k, t, d);
        } else {
            crate::memindex::lemma_merge_shifted(
                merged_index(init),
                segs.last().index@,
                off as u64,
                t,
                d,
            );
        }
    }
}

proof fn lemma_sourced_step(segs: Seq<Segment>)
    requires
        segs.len() >= 1,
        docs_sourced(segs.drop_last()),
        merged_paths(segs.drop_last()).len() == doc_total(segs.drop_last()),
        doc_total(segs) <= u64::MAX,
    ensures
        docs_sourced(segs),
{
    reveal(docs_sourced);
    let init = segs.drop_last();
    let n = segs.len() - 1;
    let off = merged_paths(init).len() as u64;
    assert(doc_total(init) <= doc_total(segs));
    let last = segs.last();
    assert(segs.take(n) =~= init);
    assert(segs[n] == last);
    assert forall|t: Seq<char>, id: DocId|
        merged_index(segs).contains_key(t) && #[trigger] merged_index(segs)[t].contains_key(id)
            implies exists|k: int, d: DocId|
        0 <= k < segs.len() && segs[k].index@.contains_key(t) && #[trigger] segs[k].index@[
            t
        ].contains_key(d) && id == doc_total(segs.take(k)) + d && merged_index(segs)[t][id]
            == segs[k].index@[t][d] by {
        lemma_merge_step_source(segs, t, id);
        let b = last.index@;
        if b.contains_key(t) && id >= off && b[t].contains_key((id - off) as u64) && merged_index(
            segs,
        )[t][id] == b[t][(id - off) as u64] {
            let d = (id - off) as u64;
            assert(segs[n].index@[t].contains_key(d));
        } else {
            assert(merged_index(init)[t].contains_key(id));
            let (k, d) = choose|k: int, d: DocId|
                0 <= k < init.len() && init[k].index@.contains_key(t)
                    && #[trigger] init[k].index@[t].contains_key(d) && id == doc_total(init.take(k))
                    + d && merged_index(init)[t][id] == init[k].index@[t][d];
            assert(segs.take(k) =~= init.take(k));
            assert(segs[k] == init[k]);
            assert(segs[k].index@[t].contains_key(d));
        }
    }
}

/// Merging segments one after the other into an empty engine, as merging all
/// the segments of an index does, where no path occurs twice among them and
/// each index names only documents of its table: the merged table lists the
/// segments' paths one segment after the other, so it holds as many
/// documents as they do together; each merge is within the limits that
/// `merge_segment` asks; document `j + 1` of segment `k` becomes document
/// `o + j + 1` with the same path, where `o` is the number of documents of
/// the segments before `k`; under every term it keeps its positions; and
/// every document of the merged index is one of these.
pub proof fn lemma_merge_all(segs: Seq<Segment>)
    requires
        crate::doctable::distinct_paths(all_paths(segs)),
        doc_total(segs) <= u64::MAX,
        forall|k: int| 0 <= k < segs.len() ==> docs_in_table(#[trigger] segs[k]),
    ensures
        merged_paths(segs) == all_paths(segs),
        all_paths(segs).len() == doc_total(segs),
        merge_within_limits(segs),
        paths_placed(segs),
        docs_kept(segs),
        docs_sourced(segs),
    decreases segs.len(),
{
    if segs.len() == 0 {
        reveal(merge_within_limits);
        reveal(paths_placed);
        reveal(docs_kept);
        reveal(docs_sourced);
        assert(merged_paths(segs) =~= all_paths(segs));
        assert(merged_index(segs) == IndexMap::empty());
        return;
    }
    let init = segs.drop_last();
    let last = segs.last();
    let a = all_paths(init);
    let bp = last.doctable.paths();
    assert(all_paths(segs) == a + bp);
    assert(doc_total(segs) == doc_total(init) + last.doctable.spec_len());
    assert forall|i: int, j: int| 0 <= i < j < a.len() implies a[i] != a[j] by {
        assert((a + bp)[i] == a[i] && (a + bp)[j] == a[j]);
    }
    assert forall|k: int| 0 <= k < init.len() implies docs_in_table(#[trigger] init[k]) by {
        assert(init[k] == segs[k]);
    }
    lemma_merge_all(init);
    assert(crate::doctable::distinct_paths(bp)) by {
        assert forall|i: int, j: int| 0 <= i < j < bp.len() implies bp[i] != bp[j] by {
            assert((a + bp)[a.len() + i] == bp[i] && (a + bp)[a.len() + j] == bp[j]);
        }
    }
    assert forall|i: int| 0 <= i < bp.len() implies !a.contains(#[trigger] bp[i]) by {
        if a.contains(bp[i]) {
            let j = choose|j: int| 0 <= j < a.len() && a[j] == bp[i];
            assert((a + bp)[j] == (a + bp)[a.len() + i]);
        }
    }
    lemma_add_new_paths(a, bp);
    assert(docs_in_table(segs[segs.len() - 1]));
    lemma_limits_step(segs);
    assert(segs.take(segs.len() - 1) =~= init);
    assert(shift_fits(last.index@, doc_total(init) as u64));
    lemma_paths_step(segs);
    lemma_kept_step(segs);
    lemma_sourced_step(segs);
}

/// A document table and an inverted index, built together.
pub struct SearchEngine {
    doctable: DocTable,
    index: InvertedIndex,
}

/// The state of an engine, handed out whole.
pub struct IndexSnapshot {
    pub doctable: DocTable,
    pub index: InvertedIndex,
}

impl SearchEngine {
    /// The engine's document table.
    pub closed spec fn docs(&self) -> DocTable {
        self.doctable
    }

    /// The engine's index.
    pub closed spec fn idx(&self) -> InvertedIndex {
        self.index
    }

    /// An engine with no documents.
    pub fn new() -> (e: Self)
        ensures
            e.docs().paths() == Seq::<Seq<char>>::empty(),
            e.idx()@ == IndexMap::empty(),
    {
        SearchEngine { doctable: DocTable::new(), index: InvertedIndex::new() }
    }

    /// Adds a document with its tokens: the path gets its id (the present
    /// one if it was added before) and the tokens go into the index under
    /// that id.
    pub fn add_document(&mut self, path: String, tokens: Vec<(String, Position)>) -> (id: DocId)
        requires
            old(self).docs().spec_len() < u64::MAX,
        ensures
            id == old(self).docs().id_for(path@),
            final(self).docs().paths() == add_paths(old(self).docs().paths(), seq![path@]),
            final(self).docs().path_of(id) == Some(path@),
            final(self).idx()@ == add_tokens(old(self).idx()@, id, tokens_view(tokens@)),
    {
        let ghost p = path@;
        let ghost start = self.doctable.paths();
        let id = self.doctable.add_document(path);
        proof {
            assert(seq![p].drop_last() =~= Seq::<Seq<char>>::empty());
            assert(add_paths(start, seq![p].drop_last()) == start);
            assert(seq![p].last() == p);
        }
        self.index.add_document_tokens(id, tokens);
        id
    }

    /// Whether a document with this path was added.
    pub fn contains_path(&self, path: &str) -> (b: bool)
        ensures
            b == self.docs().paths().contains(path@),
    {
        self.doctable.contains_path(path)
    }

    /// The counts of the index.
    pub fn stats(&self) -> (s: IndexStats)
        ensures
            s.terms == self.idx().term_entries().len(),
            s.postings == crate::memindex::cap(
                crate::memindex::posting_total(
                    self.idx().term_entries(),
                    self.idx().term_entries().len() as int,
                ),
            ),
            s.total_positions == crate::memindex::cap(
                crate::memindex::position_total(
                    self.idx().term_entries(),
                    self.idx().term_entries().len() as int,
                ),
            ),
    {
        self.index.stats()
    }

    /// The number of documents.
    pub fn doc_count(&self) -> (n: usize)
        ensures
            n == self.docs().spec_len(),
    {
        self.doctable.len()
    }

    /// The document table.
    pub fn doctable(&self) -> (d: &DocTable)
        ensures
            *d == self.docs(),
    {
        &self.doctable
    }

    /// The index.
    pub fn index(&self) -> (i: &InvertedIndex)
        ensures
            *i == self.idx(),
    {
        &self.index
    }

    /// A query processor over this engine's index and documents.
    pub fn query_processor(&self) -> (q: QueryProcessor<'_>)
        ensures
            *q.index() == self.idx(),
            *q.doctable() == self.docs(),
    {
        QueryProcessor::new(&self.index, &self.doctable)
    }

    /// The engine that holds `doctable` and `index`.
    pub closed spec fn holding(doctable: DocTable, index: InvertedIndex) -> SearchEngine {
        SearchEngine { doctable, index }
    }

    /// The engine's state as a snapshot.
    pub open spec fn snapshot_of(&self) -> IndexSnapshot {
        IndexSnapshot { doctable: self.docs(), index: self.idx() }
    }

    /// The engine's state as a segment with id `id`.
    pub open spec fn segment_of(&self, id: String) -> Segment {
        Segment { id, doctable: self.docs(), index: self.idx() }
    }

    /// The engine's state, handed out whole.
    pub fn into_snapshot(self) -> (s: IndexSnapshot)
        ensures
            s == self.snapshot_of(),
            s.doctable == self.docs(),
            s.index == self.idx(),
    {
        IndexSnapshot { doctable: self.doctable, index: self.index }
    }

    /// An engine with the given state.
    pub fn from_snapshot(snapshot: IndexSnapshot) -> (e: Self)
        ensures
            e == Self::holding(snapshot.doctable, snapshot.index),
            e.docs() == snapshot.doctable,
            e.idx() == snapshot.index,
    {
        SearchEngine { doctable: snapshot.doctable, index: snapshot.index }
    }

    /// The engine's state as a segment with the given id.
    pub fn into_segment(self, id: String) -> (s: Segment)
        ensures
            s == self.segment_of(id),
            s.id == id,
            s.doctable == self.docs(),
            s.index == self.idx(),
    {
        Segment { id, doctable: self.doctable, index: self.index }
    }

    /// An engine with the documents and index of a segment.
    pub fn from_segment(segment: Segment) -> (e: Self)
        ensures
            e == Self::holding(segment.doctable, segment.index),
            e.docs() == segment.doctable,
            e.idx() == segment.index,
    {
        SearchEngine { doctable: segment.doctable, index: segment.index }
    }

    /// Adds the documents of a segment after those held, and its postings
    /// with every document id raised by the number of documents held before.
    pub fn merge_segment(&mut self, segment: Segment)
        requires
            old(self).docs().spec_len() + segment.doctable.spec_len() <= u64::MAX,
            shift_fits(segment.index@, old(self).docs().spec_len() as u64),
        ensures
            final(self).docs().paths() == add_paths(
                old(self).docs().paths(),
                segment.doctable.paths(),
            ),
            final(self).idx()@ == merge_shifted(
                old(self).idx()@,
                segment.index@,
                old(self).docs().spec_len() as u64,
            ),
    {
        let doc_id_offset = self.doctable.max_doc_id();
        let ghost start = self.doctable.paths();
        let paths = segment.doctable.paths_in_order();
        let ghost ns = segment.doctable.paths();
        let mut k: usize = 0;
        while k < paths.len()
            invariant
                paths@.map_values(|s: String| s@) == ns,
                ns == segment.doctable.paths(),
                k <= paths@.len(),
                start.len() + ns.len() <= u64::MAX,
                self.doctable.paths() == add_paths(start, ns.take(k as int)),
                self.index == old(self).index,
            decreases paths@.len() - k,
        {
            proof {
                lemma_add_paths_len(start, ns.take(k as int));
                assert(ns.take(k + 1).drop_last() =~= ns.take(k as int));
                assert(ns.take(k + 1).last() == paths@[k as int]@);
            }
            let p = paths[k].clone();
            self.doctable.add_document(p);
            k = k + 1;
        }
        proof {
            assert(ns.take(k as int) =~= ns);
        }
        self.index.merge_with_doc_id_offset(&segment.index, doc_id_offset);
    }
}

/// An engine built from its own snapshot is the engine it was taken from,
/// and the snapshot of an engine built from a snapshot is that snapshot.
pub proof fn lemma_snapshot_roundtrip(e: SearchEngine, s: IndexSnapshot)
    ensures
        SearchEngine::holding(e.snapshot_of().doctable, e.snapshot_of().index) == e,
        SearchEngine::holding(s.doctable, s.index).snapshot_of() == s,
{
}

/// An engine built from the segment it was turned into is the engine it was
/// turned from, and the segment keeps the id it was given.
pub proof fn lemma_segment_roundtrip_engine(e: SearchEngine, id: String)
    ensures
        e.segment_of(id).id == id,
        SearchEngine::holding(e.segment_of(id).doctable, e.segment_of(id).index) == e,
{
}

/// Writing an engine's segment to files and reading the files back gives
/// its paths and its index: the index that `load_index` reads from the
/// dictionary and postings file is the engine's, and the document file holds
/// its paths in order. So an engine built from the segment read back answers
/// every query as the engine written (see `lemma_matches_determined`).
pub proof fn lemma_written_segment_keeps_engine<C: PostingCodec>(
    e: SearchEngine,
    id: String,
    codec: C,
    f: SegmentFiles,
)
    requires
        e.idx().wf(),
        files_of(&e.segment_of(id), codec, f),
    ensures
        loaded(codec, f.terms.terms@, f.postings@, f.terms.terms@.len() as int) == Ok::<
            IndexMap,
            SegmentError,
        >(e.idx()@),
        f.docs.doctable.paths() == e.docs().paths(),
{
    lemma_segment_roundtrip(&e.segment_of(id), codec, f);
}

impl Default for SearchEngine {
    fn default() -> (e: Self)
        ensures
            e.docs().paths() == Seq::<Seq<char>>::empty(),
            e.idx()@ == IndexMap::empty(),
    {
        Self::new()
    }
}

} // verus!
