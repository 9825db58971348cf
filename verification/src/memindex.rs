//! The in-memory inverted index: for each term, the documents that hold it
//! and the positions at which it occurs there.

use vstd::prelude::*;

use crate::assoc::{
    assoc_has, assoc_map, distinct_keys, lemma_assoc_at, lemma_assoc_empty, lemma_assoc_push,
    lemma_assoc_update,
};
use crate::postings::{DocId, Position, Postings};

verus! {

/// A term's postings as a map from document to positions.
pub type DocPositions = Map<DocId, Seq<Position>>;

/// The index as a map from term to postings.
pub type IndexMap = Map<Seq<char>, DocPositions>;

/// Adding position `pos` of document `doc` to a term's postings.
pub open spec fn add_position(m: DocPositions, doc: DocId, pos: Position) -> DocPositions {
    m.insert(
        doc,
        if m.contains_key(doc) {
            m[doc].push(pos)
        } else {
            seq![pos]
        },
    )
}

/// The postings of `term`, empty when the term is absent.
pub open spec fn postings_or_empty(idx: IndexMap, term: Seq<char>) -> DocPositions {
    if idx.contains_key(term) {
        idx[term]
    } else {
        Map::empty()
    }
}

/// Adding one token of document `doc` to the index.
pub open spec fn add_token(idx: IndexMap, doc: DocId, term: Seq<char>, pos: Position) -> IndexMap {
    idx.insert(term, add_position(postings_or_empty(idx, term), doc, pos))
}

/// Adding the tokens of document `doc`, in order.
pub open spec fn add_tokens(idx: IndexMap, doc: DocId, toks: Seq<(Seq<char>, Position)>) -> IndexMap
    decreases toks.len(),
{
    if toks.len() == 0 {
        idx
    } else {
        let t = toks.last();
        add_token(add_tokens(idx, doc, toks.drop_last()), doc, t.0, t.1)
    }
}

/// The plain form of a list of tokens.
pub open spec fn tokens_view(toks: Seq<(String, Position)>) -> Seq<(Seq<char>, Position)> {
    toks.map_values(|t: (String, Position)| (t.0@, t.1))
}

/// Every posting list of the term list keeps its documents in increasing
/// order of id.
pub open spec fn lists_sorted(v: Seq<(String, Postings)>) -> bool {
    forall|i: int| 0 <= i < v.len() ==> crate::postings::sorted_keys(#[trigger] v[i].1.entries())
}

/// The plain form of the index's term list.
pub open spec fn term_list(v: Seq<(String, Postings)>) -> Seq<(Seq<char>, DocPositions)> {
    v.map_values(|e: (String, Postings)| (e.0@, e.1@))
}

/// The counts that `stats` reports.
#[derive(Debug, Clone, PartialEq, Eq)]
pub struct IndexStats {
    pub terms: usize,
    pub postings: usize,
    pub total_positions: usize,
}

/// The number of documents summed over the first `n` terms.
pub open spec fn posting_total(ts: Seq<(Seq<char>, Seq<(DocId, Seq<Position>)>)>, n: int) -> int
    decreases n,
{
    if n <= 0 {
        0
    } else {
        posting_total(ts, n - 1) + ts[n - 1].1.len()
    }
}

/// The number of positions in the first `n` entries of a posting list.
pub open spec fn entry_positions(es: Seq<(DocId, Seq<Position>)>, n: int) -> int
    decreases n,
{
    if n <= 0 {
        0
    } else {
        entry_positions(es, n - 1) + es[n - 1].1.len()
    }
}

/// The number of positions summed over the first `n` terms.
pub open spec fn position_total(ts: Seq<(Seq<char>, Seq<(DocId, Seq<Position>)>)>, n: int) -> int
    decreases n,
{
    if n <= 0 {
        0
    } else {
        position_total(ts, n - 1) + entry_positions(ts[n - 1].1, ts[n - 1].1.len() as int)
    }
}

/// `x` capped at `usize::MAX`.
pub open spec fn cap(x: int) -> int {
    if x > usize::MAX {
        usize::MAX as int
    } else {
        x
    }
}

/// A term's postings with every document id raised by `off`.
pub open spec fn shifted(m: DocPositions, off: u64) -> DocPositions {
    Map::new(
        |d: DocId| d >= off && m.contains_key((d - off) as u64),
        |d: DocId| m[(d - off) as u64],
    )
}

/// The index `a` with the postings of `b` added, their document ids raised
/// by `off`; where both list a document under a term, `b`'s positions win.
pub open spec fn merge_shifted(a: IndexMap, b: IndexMap, off: u64) -> IndexMap {
    Map::new(
        |t: Seq<char>| a.contains_key(t) || b.contains_key(t),
        |t: Seq<char>|
            if b.contains_key(t) {
                postings_or_empty(a, t).union_prefer_right(shifted(b[t], off))
            } else {
                a[t]
            },
    )
}

/// Raising every document id of `b` by `off` stays within 64 bits.
pub open spec fn shift_fits(b: IndexMap, off: u64) -> bool {
    forall|t: Seq<char>, d: DocId|
        b.contains_key(t) && #[trigger] b[t].contains_key(d) ==> d + off <= u64::MAX
}

proof fn lemma_shift_push(es: Seq<(DocId, Seq<Position>)>, j: int, off: u64)
    requires
        0 <= j < es.len(),
        es[j].0 + off <= u64::MAX,
    ensures
        shifted(crate::postings::inserts_map(es.take(j + 1)), off) == shifted(
            crate::postings::inserts_map(es.take(j)),
            off,
        ).insert((es[j].0 + off) as u64, es[j].1),
{
    let m0 = crate::postings::inserts_map(es.take(j));
    let m1 = crate::postings::inserts_map(es.take(j + 1));
    assert(es.take(j + 1).drop_last() =~= es.take(j));
    assert(m1 == m0.insert(es[j].0, es[j].1));
    let k = (es[j].0 + off) as u64;
    assert forall|d: DocId| #[trigger] shifted(m1, off).contains_key(d) == shifted(m0, off).insert(
        k,
        es[j].1,
    ).contains_key(d) by {
        if d >= off && (d - off) as u64 == es[j].0 {
            assert(d == k);
        }
        if d == k {
            assert((d - off) as u64 == es[j].0);
        }
    }
    assert forall|d: DocId| #[trigger] shifted(m1, off).contains_key(d) implies shifted(m1, off)[d]
        == shifted(m0, off).insert(k, es[j].1)[d] by {
        if d == k {
            assert((d - off) as u64 == es[j].0);
        } else {
            assert((d - off) as u64 != es[j].0);
        }
    }
    assert(shifted(m1, off) =~= shifted(m0, off).insert(k, es[j].1));
}

/// After a merge, every document of `b` is found under its id raised by
/// `off`, with the same positions; terms that `b` lacks keep their postings.
pub proof fn lemma_merge_shifted(a: IndexMap, b: IndexMap, off: u64, t: Seq<char>, d: DocId)
    requires
        shift_fits(b, off),
    ensures
        b.contains_key(t) && b[t].contains_key(d) ==> {
            &&& merge_shifted(a, b, off).contains_key(t)
            &&& merge_shifted(a, b, off)[t].contains_key((d + off) as u64)
            &&& merge_shifted(a, b, off)[t][(d + off) as u64] == b[t][d]
        },
        a.contains_key(t) && !b.contains_key(t) ==> merge_shifted(a, b, off).contains_key(t)
            && merge_shifted(a, b, off)[t] == a[t],
{
    if b.contains_key(t) && b[t].contains_key(d) {
        assert(d + off <= u64::MAX);
        let k = (d + off) as u64;
        assert((k - off) as u64 == d);
        assert(shifted(b[t], off).contains_key(k));
    }
}

/// The term list as pairs of term and postings map.
pub open spec fn entries_index_list(ts: Seq<(Seq<char>, Seq<(DocId, Seq<Position>)>)>) -> Seq<
    (Seq<char>, DocPositions),
> {
    ts.map_values(
        |e: (Seq<char>, Seq<(DocId, Seq<Position>)>)| (e.0, crate::postings::entries_map(e.1)),
    )
}

/// Every term's positions are in order in every document.
pub open spec fn index_sorted(m: IndexMap) -> bool {
    forall|t: Seq<char>, d: DocId|
        m.contains_key(t) && #[trigger] m[t].contains_key(d) ==> crate::postings::nondecreasing(
            m[t][d],
        )
}

/// Every position of document `doc` under any term is below `bound`.
pub open spec fn doc_positions_below(m: IndexMap, doc: DocId, bound: int) -> bool {
    forall|t: Seq<char>, k: int|
        m.contains_key(t) && m[t].contains_key(doc) && 0 <= k < m[t][doc].len() ==> #[trigger] m[t][doc][k]
            < bound
}

/// Token positions strictly increase.
pub open spec fn positions_increase(toks: Seq<(Seq<char>, Position)>) -> bool {
    forall|i: int, j: int| 0 <= i < j < toks.len() ==> toks[i].1 < toks[j].1
}

proof fn lemma_add_tokens_bounded(idx: IndexMap, doc: DocId, toks: Seq<(Seq<char>, Position)>)
    requires
        index_sorted(idx),
        doc_positions_below(idx, doc, 0),
        positions_increase(toks),
    ensures
        index_sorted(add_tokens(idx, doc, toks)),
        doc_positions_below(
            add_tokens(idx, doc, toks),
            doc,
            if toks.len() == 0 {
                0
            } else {
                toks.last().1 + 1
            },
        ),
    decreases toks.len(),
{
    if toks.len() > 0 {
        let init = toks.drop_last();
        let (t, p) = toks.last();
        assert forall|i: int, j: int| 0 <= i < j < init.len() implies init[i].1 < init[j].1 by {
            assert(init[i] == toks[i] && init[j] == toks[j]);
        }
        lemma_add_tokens_bounded(idx, doc, init);
        let m = add_tokens(idx, doc, init);
        let bound = if init.len() == 0 {
            0
        } else {
            init.last().1 + 1
        };
        assert(bound <= p) by {
            if init.len() > 0 {
                assert(toks[init.len() - 1].1 < toks[toks.len() - 1].1);
            }
        }
        let m2 = add_token(m, doc, t, p);
        assert(m2 == add_tokens(idx, doc, toks));
        assert forall|u: Seq<char>, d: DocId|
            m2.contains_key(u) && #[trigger] m2[u].contains_key(d) implies crate::postings::nondecreasing(
            m2[u][d],
        ) by {
            if u == t && d == doc {
                let old = postings_or_empty(m, t);
                if old.contains_key(doc) {
                    let ps = old[doc];
                    assert(m2[u][d] == ps.push(p));
                    assert forall|a: int, b: int| 0 <= a <= b < ps.push(p).len() implies ps.push(p)[a]
                        <= ps.push(p)[b] by {
                        if b == ps.len() && a < b {
                            assert(ps[a] < bound);
                        }
                    }
                } else {
                    assert(m2[u][d] == seq![p]);
                }
            }
        }
        assert forall|u: Seq<char>, k: int|
            m2.contains_key(u) && m2[u].contains_key(doc) && 0 <= k < m2[u][doc].len()
                implies #[trigger] m2[u][doc][k] < p + 1 by {
            if u == t {
                let old = postings_or_empty(m, t);
                if old.contains_key(doc) {
                    if k < old[doc].len() {
                        assert(m2[u][doc][k] == old[doc][k]);
                    }
                }
            }
        }
    }
}

/// Indexing a document that is not yet in the index, with tokens whose
/// positions increase (as `tokenize` gives them), keeps every term's
/// positions in order in every document.
pub proof fn lemma_new_document_keeps_positions_sorted(
    idx: IndexMap,
    doc: DocId,
    toks: Seq<(Seq<char>, Position)>,
)
    requires
        index_sorted(idx),
        forall|t: Seq<char>| #[trigger] idx.contains_key(t) ==> !idx[t].contains_key(doc),
        positions_increase(toks),
    ensures
        index_sorted(add_tokens(idx, doc, toks)),
{
    lemma_add_tokens_bounded(idx, doc, toks);
}

/// The inverted index. Terms appear in the order in which they were first
/// added.
#[derive(Debug)]
pub struct InvertedIndex {
    terms: Vec<(String, Postings)>,
}

impl InvertedIndex {
    /// The terms with their entries, in the order held.
    pub closed spec fn term_entries(&self) -> Seq<(Seq<char>, Seq<(DocId, Seq<Position>)>)> {
        self.terms@.map_values(|e: (String, Postings)| (e.0@, e.1.entries()))
    }

    /// The terms, in the order held.
    pub open spec fn term_seq(&self) -> Seq<Seq<char>> {
        self.term_entries().map_values(|e: (Seq<char>, Seq<(DocId, Seq<Position>)>)| e.0)
    }

    #[verifier::type_invariant]
    pub closed spec fn wf(&self) -> bool {
        &&& distinct_keys(term_list(self.terms@))
        &&& lists_sorted(self.terms@)
    }

    /// The index as a map from term to postings.
    pub closed spec fn view(&self) -> IndexMap {
        assoc_map(term_list(self.terms@))
    }

    /// The index is the map that its term list stands for, and no term is
    /// listed twice.
    pub proof fn lemma_term_entries(&self)
        requires
            self.wf(),
        ensures
            distinct_keys(entries_index_list(self.term_entries())),
            self@ == assoc_map(entries_index_list(self.term_entries())),
            forall|i: int|
                0 <= i < self.term_entries().len() ==> crate::postings::sorted_keys(
                    #[trigger] self.term_entries()[i].1,
                ),
    {
        assert(entries_index_list(self.term_entries()) =~= term_list(self.terms@));
    }

    /// When every posting list's positions are in order (as maps), they are
    /// in order in the entries too.
    pub proof fn lemma_entries_sorted(&self)
        requires
            self.wf(),
            index_sorted(self@),
        ensures
            forall|i: int|
                0 <= i < self.term_entries().len() ==> crate::codec::positions_sorted(
                    #[trigger] self.term_entries()[i].1,
                ),
    {
        self.lemma_term_entries();
        let ts = self.term_entries();
        let l = entries_index_list(ts);
        assert forall|i: int| 0 <= i < ts.len() implies crate::codec::positions_sorted(
            #[trigger] ts[i].1,
        ) by {
            let es = ts[i].1;
            assert(es == self.terms@[i].1.entries());
            assert(crate::postings::sorted_keys(self.terms@[i].1.entries()));
            lemma_assoc_at(l, i);
            assert(self@[ts[i].0] == crate::postings::entries_map(es));
            assert forall|j: int| 0 <= j < es.len() implies crate::postings::nondecreasing(
                #[trigger] es[j].1,
            ) by {
                crate::postings::lemma_entries_map_at(es, j);
                assert(self@[ts[i].0].contains_key(es[j].0));
            }
        }
    }

    /// An empty index.
    pub fn new() -> (idx: Self)
        ensures
            idx@ == IndexMap::empty(),
            idx.term_entries().len() == 0,
    {
        let idx = InvertedIndex { terms: Vec::new() };
        proof {
            lemma_assoc_empty(term_list(idx.terms@));
        }
        idx
    }

    fn find(terms: &Vec<(String, Postings)>, term: &String) -> (r: Option<usize>)
        requires
            distinct_keys(term_list(terms@)),
        ensures
            match r {
                Some(i) => i < terms@.len() && terms@[i as int].0@ == term@,
                None => !assoc_has(term_list(terms@), term@),
            },
    {
        let mut i: usize = 0;
        while i < terms.len()
            invariant
                i <= terms@.len(),
                forall|j: int| 0 <= j < i ==> term_list(terms@)[j].0 != term@,
            decreases terms@.len() - i,
        {
            if terms[i].0 == *term {
                return Some(i);
            }
            i = i + 1;
        }
        None
    }

    /// Adds `pos` to the postings of `term` in the list.
    fn add_to_list(terms: &mut Vec<(String, Postings)>, term: &String, doc_id: DocId, pos: Position)
        requires
            distinct_keys(term_list(old(terms)@)),
            lists_sorted(old(terms)@),
        ensures
            distinct_keys(term_list(final(terms)@)),
            lists_sorted(final(terms)@),
            assoc_map(term_list(final(terms)@)) == add_token(
                assoc_map(term_list(old(terms)@)),
                doc_id,
                term@,
                pos,
            ),
            term_list(final(terms)@).map_values(|e: (Seq<char>, DocPositions)| e.0) == if assoc_has(
                term_list(old(terms)@),
                term@,
            ) {
                term_list(old(terms)@).map_values(|e: (Seq<char>, DocPositions)| e.0)
            } else {
                term_list(old(terms)@).map_values(|e: (Seq<char>, DocPositions)| e.0).push(term@)
            },
    {
        let ghost old_list = term_list(terms@);
        match Self::find(terms, term) {
            Some(i) => {
                proof {
                    lemma_assoc_at(old_list, i as int);
                }
                let ghost before = terms@;
                let (t, mut p) = terms.remove(i);
                p.push_position(doc_id, pos);
                proof {
                    use_type_invariant(&p);
                }
                let ghost pv = p@;
                terms.insert(i, (t, p));
                proof {
                    assert forall|k: int| 0 <= k < terms@.len() implies crate::postings::sorted_keys(
                        #[trigger] terms@[k].1.entries(),
                    ) by {
                        if k != i {
                            assert(terms@[k] == before[k]);
                        }
                    }
                    assert(term_list(terms@) =~= old_list.update(i as int, (old_list[i as int].0, pv)));
                    lemma_assoc_update(old_list, i as int, pv);
                    assert(term_list(terms@).map_values(|e: (Seq<char>, DocPositions)| e.0)
                        =~= old_list.map_values(|e: (Seq<char>, DocPositions)| e.0));
                }
            },
            None => {
                let mut p = Postings::new();
                p.push_position(doc_id, pos);
                proof {
                    use_type_invariant(&p);
                }
                let ghost pv = p@;
                let ghost before = terms@;
                terms.push((term.clone(), p));
                proof {
                    assert forall|k: int| 0 <= k < terms@.len() implies crate::postings::sorted_keys(
                        #[trigger] terms@[k].1.entries(),
                    ) by {
                        if k < before.len() {
                            assert(terms@[k] == before[k]);
                        }
                    }
                    assert(term_list(terms@) =~= old_list.push((term@, pv)));
                    lemma_assoc_push(old_list, term@, pv);
                    assert(term_list(terms@).map_values(|e: (Seq<char>, DocPositions)| e.0)
                        =~= old_list.map_values(|e: (Seq<char>, DocPositions)| e.0).push(term@));
                }
            },
        }
    }

    /// Adds the tokens of document `doc_id`: each token's position is
    /// appended to the postings of its term for that document.
    pub fn add_document_tokens(&mut self, doc_id: DocId, tokens: Vec<(String, Position)>)
        ensures
            final(self)@ == add_tokens(old(self)@, doc_id, tokens_view(tokens@)),
    {
        proof {
            use_type_invariant(&*self);
        }
        let mut terms: Vec<(String, Postings)> = Vec::new();
        std::mem::swap(&mut terms, &mut self.terms);
        let ghost start = assoc_map(term_list(terms@));
        let mut i: usize = 0;
        while i < tokens.len()
            invariant
                i <= tokens@.len(),
                distinct_keys(term_list(terms@)),
                lists_sorted(terms@),
                assoc_map(term_list(terms@)) == add_tokens(
                    start,
                    doc_id,
                    tokens_view(tokens@).take(i as int),
                ),
            decreases tokens@.len() - i,
        {
            Self::add_to_list(&mut terms, &tokens[i].0, doc_id, tokens[i].1);
            proof {
                assert(tokens_view(tokens@).take(i + 1).drop_last() =~= tokens_view(tokens@).take(
                    i as int,
                ));
            }
            i = i + 1;
        }
        proof {
            assert(tokens_view(tokens@).take(i as int) =~= tokens_view(tokens@));
        }
        self.terms = terms;
    }

    /// The postings of `word`, if it was indexed.
    pub fn lookup(&self, word: &str) -> (r: Option<&Postings>)
        ensures
            match r {
                Some(p) => self@.contains_key(word@) && p@ == self@[word@],
                None => !self@.contains_key(word@),
            },
    {
        proof {
            use_type_invariant(self);
        }
        let owned = word.to_owned();
        match Self::find(&self.terms, &owned) {
            Some(i) => {
                proof {
                    lemma_assoc_at(term_list(self.terms@), i as int);
                }
                Some(&self.terms[i].1)
            },
            None => None,
        }
    }

    /// Whether `word` occurs in document `doc_id`.
    pub fn contains_doc(&self, word: &str, doc_id: DocId) -> (b: bool)
        ensures
            b == (self@.contains_key(word@) && self@[word@].contains_key(doc_id)),
    {
        match self.lookup(word) {
            Some(p) => p.contains_key(&doc_id),
            None => false,
        }
    }

    /// The number of documents that hold `term`.
    pub fn document_frequency(&self, term: &str) -> (n: usize)
        ensures
            n == (if self@.contains_key(term@) {
                self@[term@].dom().len()
            } else {
                0
            }),
    {
        match self.lookup(term) {
            Some(p) => {
                proof {
                    use_type_invariant(p);
                    crate::postings::lemma_entries_len(p.entries());
                }
                p.len()
            },
            None => 0,
        }
    }

    /// The number of terms, of (term, document) pairs and of positions,
    /// each capped at `usize::MAX`.
    pub fn stats(&self) -> (s: IndexStats)
        ensures
            s.terms == self.term_entries().len(),
            s.postings == cap(posting_total(self.term_entries(), self.term_entries().len() as int)),
            s.total_positions == cap(
                position_total(self.term_entries(), self.term_entries().len() as int),
            ),
    {
        let mut postings: usize = 0;
        let mut positions: usize = 0;
        let mut i: usize = 0;
        let ghost ts = self.term_entries();
        while i < self.terms.len()
            invariant
                ts == self.term_entries(),
                i <= self.terms@.len(),
                postings == cap(posting_total(ts, i as int)),
                positions == cap(position_total(ts, i as int)),
            decreases self.terms@.len() - i,
        {
            let docs = self.terms[i].1.entries_slice();
            proof {
                lemma_totals_nonneg(ts, i as int);
            }
            postings = postings.saturating_add(docs.len());
            let mut here: usize = 0;
            let mut j: usize = 0;
            while j < docs.len()
                invariant
                    j <= docs@.len(),
                    crate::postings::entries_of(docs@) == ts[i as int].1,
                    here == cap(entry_positions(ts[i as int].1, j as int)),
                decreases docs@.len() - j,
            {
                proof {
                    lemma_entry_positions_nonneg(ts[i as int].1, j as int);
                }
                here = here.saturating_add(docs[j].1.len());
                j = j + 1;
            }
            proof {
                lemma_entry_positions_nonneg(ts[i as int].1, j as int);
            }
            positions = positions.saturating_add(here);
            i = i + 1;
        }
        IndexStats { terms: self.terms.len(), postings, total_positions: positions }
    }

    /// The terms, in the order held.
    pub fn terms(&self) -> (ts: Vec<&str>)
        ensures
            ts@.map_values(|s: &str| s@) == self.term_seq(),
    {
        let mut ts: Vec<&str> = Vec::new();
        let mut i: usize = 0;
        while i < self.terms.len()
            invariant
                i <= self.terms@.len(),
                ts@.map_values(|s: &str| s@) =~= self.term_seq().take(i as int),
            decreases self.terms@.len() - i,
        {
            let ghost before = ts@;
            ts.push(self.terms[i].0.as_str());
            proof {
                assert(ts@.map_values(|s: &str| s@) =~= before.map_values(|s: &str| s@).push(
                    self.term_seq()[i as int],
                ));
                assert(self.term_seq().take(i + 1) =~= self.term_seq().take(i as int).push(
                    self.term_seq()[i as int],
                ));
            }
            i = i + 1;
        }
        proof {
            assert(self.term_seq().take(i as int) =~= self.term_seq());
        }
        ts
    }

    /// The terms with their postings, in the order held.
    pub fn postings_iter(&self) -> (s: &[(String, Postings)])
        ensures
            s@.map_values(|e: (String, Postings)| (e.0@, e.1.entries())) == self.term_entries(),
    {
        self.terms.as_slice()
    }

    /// `base` with the entries of `src` added, their document ids raised by
    /// `off`.
    fn shift_into(base: Postings, src: &Postings, off: u64) -> (p: Postings)
        requires
            forall|d: DocId| #[trigger] src@.contains_key(d) ==> d + off <= u64::MAX,
        ensures
            p@ == base@.union_prefer_right(shifted(src@, off)),
    {
        proof {
            use_type_invariant(src);
        }
        let entries = src.entries_slice();
        let ghost es = src.entries();
        let mut p = base;
        let ghost b0 = p@;
        let mut j: usize = 0;
        while j < entries.len()
            invariant
                crate::postings::entries_of(entries@) == es,
                es == src.entries(),
                crate::postings::sorted_keys(es),
                forall|d: DocId| #[trigger] src@.contains_key(d) ==> d + off <= u64::MAX,
                j <= entries@.len(),
                p@ == b0.union_prefer_right(shifted(crate::postings::inserts_map(es.take(j as int)), off)),
            decreases entries@.len() - j,
        {
            let d = entries[j].0;
            proof {
                crate::postings::lemma_entries_map_at(es, j as int);
                assert(src@.contains_key(d));
                lemma_shift_push(es, j as int, off);
            }
            let ps = crate::postings::copy_positions(&entries[j].1);
            let ghost before = p@;
            p.insert(d + off, ps);
            proof {
                let s0 = shifted(crate::postings::inserts_map(es.take(j as int)), off);
                assert(p@ =~= b0.union_prefer_right(s0.insert((d + off) as u64, es[j as int].1)));
            }
            j = j + 1;
        }
        proof {
            assert(es.take(j as int) =~= es);
            crate::postings::lemma_inserts_map_sorted(es);
        }
        p
    }

    /// Adds the postings of `other`, each document id raised by
    /// `doc_id_offset`; where both list a document under a term, the
    /// positions from `other` replace those held.
    pub fn merge_with_doc_id_offset(&mut self, other: &InvertedIndex, doc_id_offset: DocId)
        requires
            shift_fits(other@, doc_id_offset),
        ensures
            final(self)@ == merge_shifted(old(self)@, other@, doc_id_offset),
    {
        proof {
            use_type_invariant(other);
        }
        let ghost a = self@;
        let ghost l = term_list(other.terms@);
        let mut i: usize = 0;
        while i < other.terms.len()
            invariant
                l == term_list(other.terms@),
                distinct_keys(l),
                assoc_map(l) == other@,
                shift_fits(other@, doc_id_offset),
                i <= other.terms@.len(),
                self@ == merge_shifted(a, assoc_map(l.take(i as int)), doc_id_offset),
            decreases other.terms@.len() - i,
        {
            let term = &other.terms[i].0;
            let src = &other.terms[i].1;
            proof {
                lemma_assoc_at(l, i as int);
                assert(l[i as int] == (term@, src@));
                assert forall|d: DocId| #[trigger] src@.contains_key(d) implies d + doc_id_offset
                    <= u64::MAX by {
                    assert(other@[term@].contains_key(d));
                }
            }
            let base = match self.lookup(term.as_str()) {
                Some(p) => p.clone(),
                None => Postings::new(),
            };
            let merged = Self::shift_into(base, src, doc_id_offset);
            let ghost before = self@;
            self.insert_postings(term.clone(), merged);
            proof {
                let lt = l.take(i as int);
                assert(distinct_keys(lt));
                assert(!assoc_has(lt, term@)) by {
                    if assoc_has(lt, term@) {
                        let k = choose|k: int| 0 <= k < lt.len() && lt[k].0 == term@;
                        assert(l[k].0 != l[i as int].0);
                    }
                }
                lemma_assoc_push(lt, term@, src@);
                assert(l.take(i + 1) =~= lt.push((term@, src@)));
                let m0 = assoc_map(lt);
                assert(postings_or_empty(before, term@) == postings_or_empty(a, term@));
                assert(self@ =~= merge_shifted(a, m0.insert(term@, src@), doc_id_offset));
            }
            i = i + 1;
        }
        proof {
            assert(l.take(i as int) =~= l);
        }
    }

    /// Whether raising every document id by `off` stays within 64 bits.
    pub fn shift_fits_for(&self, off: DocId) -> (b: bool)
        ensures
            b == shift_fits(self@, off),
    {
        proof {
            use_type_invariant(self);
            self.lemma_term_entries();
        }
        let ghost ts = self.term_entries();
        let ghost l = entries_index_list(ts);
        let mut i: usize = 0;
        while i < self.terms.len()
            invariant
                ts == self.term_entries(),
                l == entries_index_list(ts),
                distinct_keys(l),
                self@ == assoc_map(l),
                i <= self.terms@.len(),
                forall|k: int, d: DocId|
                    0 <= k < i && #[trigger] crate::postings::has_key(ts[k].1, d) ==> d + off
                        <= u64::MAX,
            decreases self.terms@.len() - i,
        {
            let entries = self.terms[i].1.entries_slice();
            let ghost es = self.terms@[i as int].1.entries();
            proof {
                assert(ts[i as int].1 == es);
            }
            let mut j: usize = 0;
            while j < entries.len()
                invariant
                    ts == self.term_entries(),
                    l == entries_index_list(ts),
                    distinct_keys(l),
                    self@ == assoc_map(l),
                    i < ts.len(),
                    ts[i as int].1 == es,
                    crate::postings::entries_of(entries@) == es,
                    j <= entries@.len(),
                    forall|k: int| 0 <= k < j ==> es[k].0 + off <= u64::MAX,
                decreases entries@.len() - j,
            {
                if entries[j].0 > u64::MAX - off {
                    proof {
                        let t = ts[i as int].0;
                        let d = es[j as int].0;
                        lemma_assoc_at(l, i as int);
                        assert(l[i as int] == (t, crate::postings::entries_map(es)));
                        assert(crate::postings::has_key(es, d));
                        assert(self@[t].contains_key(d));
                        assert(!shift_fits(self@, off));
                    }
                    return false;
                }
                j = j + 1;
            }
            proof {
                assert forall|k: int, d: DocId|
                    0 <= k < i + 1 && #[trigger] crate::postings::has_key(ts[k].1, d) implies d + off
                    <= u64::MAX by {
                    if k == i {
                        let x = choose|x: int| 0 <= x < es.len() && es[x].0 == d;
                        assert(es[x].0 + off <= u64::MAX);
                    }
                }
            }
            i = i + 1;
        }
        proof {
            assert forall|t: Seq<char>, d: DocId|
                self@.contains_key(t) && #[trigger] self@[t].contains_key(d) implies d + off
                <= u64::MAX by {
                let k = choose|k: int| 0 <= k < l.len() && l[k].0 == t;
                lemma_assoc_at(l, k);
                assert(crate::postings::has_key(ts[k].1, d));
            }
        }
        true
    }

    /// Sets the postings of `term`, replacing those it had.
    pub fn insert_postings(&mut self, term: String, postings: Postings)
        ensures
            final(self)@ == old(self)@.insert(term@, postings@),
    {
        proof {
            use_type_invariant(&*self);
            use_type_invariant(&postings);
        }
        let mut terms: Vec<(String, Postings)> = Vec::new();
        std::mem::swap(&mut terms, &mut self.terms);
        let ghost old_list = term_list(terms@);
        let ghost pv = postings@;
        match Self::find(&terms, &term) {
            Some(i) => {
                let ghost before = terms@;
                let (t, _) = terms.remove(i);
                terms.insert(i, (t, postings));
                proof {
                    assert forall|k: int| 0 <= k < terms@.len() implies crate::postings::sorted_keys(
                        #[trigger] terms@[k].1.entries(),
                    ) by {
                        if k != i {
                            assert(terms@[k] == before[k]);
                        }
                    }
                    assert(term_list(terms@) =~= old_list.update(i as int, (old_list[i as int].0, pv)));
                    lemma_assoc_update(old_list, i as int, pv);
                }
            },
            None => {
                let ghost tv = term@;
                let ghost before = terms@;
                terms.push((term, postings));
                proof {
                    assert forall|k: int| 0 <= k < terms@.len() implies crate::postings::sorted_keys(
                        #[trigger] terms@[k].1.entries(),
                    ) by {
                        if k < before.len() {
                            assert(terms@[k] == before[k]);
                        }
                    }
                    assert(term_list(terms@) =~= old_list.push((tv, pv)));
                    lemma_assoc_push(old_list, tv, pv);
                }
            },
        }
        self.terms = terms;
    }
}

proof fn lemma_entry_positions_nonneg(es: Seq<(DocId, Seq<Position>)>, n: int)
    ensures
        entry_positions(es, n) >= 0,
    decreases n,
{
    if n > 0 {
        lemma_entry_positions_nonneg(es, n - 1);
    }
}

proof fn lemma_totals_nonneg(ts: Seq<(Seq<char>, Seq<(DocId, Seq<Position>)>)>, n: int)
    ensures
        posting_total(ts, n) >= 0,
        position_total(ts, n) >= 0,
    decreases n,
{
    if n > 0 {
        lemma_totals_nonneg(ts, n - 1);
        lemma_entry_positions_nonneg(ts[n - 1].1, ts[n - 1].1.len() as int);
    }
}

} // verus!
