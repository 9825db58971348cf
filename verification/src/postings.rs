//! The postings of one term: for each document, the positions at which the
//! term occurs there. Documents are kept in increasing order of id.

use vstd::prelude::*;

verus! {

/// A document id.
pub type DocId = u64;

/// A position of a token in a document.
pub type Position = u64;

/// The positions of one term in each document that holds it, ordered by
/// document id, each document at most once.
#[derive(Debug, PartialEq, Eq)]
pub struct Postings {
    docs: Vec<(DocId, Vec<Position>)>,
}

/// The entries of a posting list as plain values.
pub open spec fn entries_of(docs: Seq<(DocId, Vec<Position>)>) -> Seq<(DocId, Seq<Position>)> {
    docs.map_values(|e: (DocId, Vec<Position>)| (e.0, e.1@))
}

/// Document ids strictly increase along the entries.
pub open spec fn sorted_keys(es: Seq<(DocId, Seq<Position>)>) -> bool {
    forall|i: int, j: int| 0 <= i < j < es.len() ==> es[i].0 < es[j].0
}

/// Whether document `d` has an entry.
pub open spec fn has_key(es: Seq<(DocId, Seq<Position>)>, d: DocId) -> bool {
    exists|i: int| 0 <= i < es.len() && es[i].0 == d
}

/// The map from document to positions that the entries describe.
pub open spec fn entries_map(es: Seq<(DocId, Seq<Position>)>) -> Map<DocId, Seq<Position>> {
    Map::new(
        |d: DocId| has_key(es, d),
        |d: DocId| es[choose|i: int| 0 <= i < es.len() && es[i].0 == d].1,
    )
}

/// The map that inserting the entries one after the other into an empty
/// map gives (a later entry for the same document replaces an earlier one).
pub open spec fn inserts_map(es: Seq<(DocId, Seq<Position>)>) -> Map<DocId, Seq<Position>>
    decreases es.len(),
{
    if es.len() == 0 {
        Map::empty()
    } else {
        inserts_map(es.drop_last()).insert(es.last().0, es.last().1)
    }
}

/// Positions never decrease along the sequence.
pub open spec fn nondecreasing(ps: Seq<u64>) -> bool {
    forall|i: int, j: int| 0 <= i <= j < ps.len() ==> ps[i] <= ps[j]
}

pub proof fn lemma_entries_map_at(es: Seq<(DocId, Seq<Position>)>, k: int)
    requires
        sorted_keys(es),
        0 <= k < es.len(),
    ensures
        entries_map(es).contains_key(es[k].0),
        entries_map(es)[es[k].0] == es[k].1,
{
    let d = es[k].0;
    assert(has_key(es, d));
    let i = choose|i: int| 0 <= i < es.len() && es[i].0 == d;
    if i < k {
        assert(es[i].0 < es[k].0);
    } else if i > k {
        assert(es[k].0 < es[i].0);
    }
}

/// For entries with distinct, increasing ids, inserting them one by one
/// gives the map they describe.
pub proof fn lemma_inserts_map_sorted(es: Seq<(DocId, Seq<Position>)>)
    requires
        sorted_keys(es),
    ensures
        inserts_map(es) =~= entries_map(es),
    decreases es.len(),
{
    if es.len() > 0 {
        let init = es.drop_last();
        assert(sorted_keys(init));
        lemma_inserts_map_sorted(init);
        let last = es.last();
        assert forall|d: DocId| #[trigger] entries_map(es).contains_key(d) == inserts_map(
            es,
        ).contains_key(d) by {
            if has_key(es, d) && d != last.0 {
                let i = choose|i: int| 0 <= i < es.len() && es[i].0 == d;
                assert(i < es.len() - 1);
                assert(init[i].0 == d);
                assert(has_key(init, d));
            }
            if has_key(init, d) {
                let i = choose|i: int| 0 <= i < init.len() && init[i].0 == d;
                assert(es[i].0 == d);
            }
            if d == last.0 {
                assert(es[es.len() - 1].0 == d);
            }
        }
        assert forall|d: DocId| #[trigger] entries_map(es).contains_key(d) implies entries_map(
            es,
        )[d] == inserts_map(es)[d] by {
            let i = choose|i: int| 0 <= i < es.len() && es[i].0 == d;
            lemma_entries_map_at(es, i);
            if i < es.len() - 1 {
                assert(init[i] == es[i]);
                lemma_entries_map_at(init, i);
                assert(es[i].0 < last.0);
            }
        }
    }
}

proof fn lemma_map_update(
    es: Seq<(DocId, Seq<Position>)>,
    old_es: Seq<(DocId, Seq<Position>)>,
    i: int,
    d: DocId,
    ps: Seq<Position>,
)
    requires
        sorted_keys(old_es),
        0 <= i < old_es.len(),
        old_es[i].0 == d,
        es == old_es.update(i, (d, ps)),
    ensures
        sorted_keys(es),
        entries_map(es) == entries_map(old_es).insert(d, ps),
{
    assert(sorted_keys(es));
    assert forall|k: DocId| #[trigger] entries_map(es).contains_key(k) == entries_map(old_es).insert(
        d,
        ps,
    ).contains_key(k) by {
        if has_key(es, k) {
            let j = choose|j: int| 0 <= j < es.len() && es[j].0 == k;
            assert(old_es[j].0 == k);
        }
        if has_key(old_es, k) {
            let j = choose|j: int| 0 <= j < old_es.len() && old_es[j].0 == k;
            assert(es[j].0 == k);
        }
        if k == d {
            assert(es[i].0 == k);
        }
    }
    assert forall|k: DocId| #[trigger] entries_map(es).contains_key(k) implies entries_map(es)[k] == entries_map(
        old_es,
    ).insert(d, ps)[k] by {
        let j = choose|j: int| 0 <= j < es.len() && es[j].0 == k;
        lemma_entries_map_at(es, j);
        if j != i {
            lemma_entries_map_at(old_es, j);
        }
    }
    assert(entries_map(es) =~= entries_map(old_es).insert(d, ps));
}


proof fn lemma_map_insert(
    es: Seq<(DocId, Seq<Position>)>,
    old_es: Seq<(DocId, Seq<Position>)>,
    i: int,
    d: DocId,
    ps: Seq<Position>,
)
    requires
        sorted_keys(old_es),
        0 <= i <= old_es.len(),
        forall|j: int| 0 <= j < i ==> old_es[j].0 < d,
        i < old_es.len() ==> old_es[i].0 > d,
        es == old_es.insert(i, (d, ps)),
    ensures
        sorted_keys(es),
        entries_map(es) == entries_map(old_es).insert(d, ps),
{
    assert forall|a: int, b: int| 0 <= a < b < es.len() implies es[a].0 < es[b].0 by {
        if b < i {
        } else if b == i {
        } else if a < i {
            assert(es[b] == old_es[b - 1]);
            if i < old_es.len() {
                assert(old_es[i].0 <= old_es[b - 1].0);
            }
        } else if a == i {
            assert(es[b] == old_es[b - 1]);
            assert(old_es[i].0 <= old_es[b - 1].0);
        } else {
            assert(es[a] == old_es[a - 1]);
            assert(es[b] == old_es[b - 1]);
        }
    }
    assert(sorted_keys(es));
    assert forall|k: DocId| #[trigger] entries_map(es).contains_key(k) == entries_map(old_es).insert(
        d,
        ps,
    ).contains_key(k) by {
        if has_key(es, k) {
            let j = choose|j: int| 0 <= j < es.len() && es[j].0 == k;
            if j < i {
                assert(old_es[j].0 == k);
            } else if j > i {
                assert(old_es[j - 1].0 == k);
            }
        }
        if has_key(old_es, k) {
            let j = choose|j: int| 0 <= j < old_es.len() && old_es[j].0 == k;
            if j < i {
                assert(es[j].0 == k);
            } else {
                assert(es[j + 1].0 == k);
            }
        }
        if k == d {
            assert(es[i].0 == k);
        }
    }
    assert forall|k: DocId| #[trigger] entries_map(es).contains_key(k) implies entries_map(es)[k] == entries_map(
        old_es,
    ).insert(d, ps)[k] by {
        let j = choose|j: int| 0 <= j < es.len() && es[j].0 == k;
        lemma_entries_map_at(es, j);
        if j < i {
            lemma_entries_map_at(old_es, j);
        } else if j > i {
            lemma_entries_map_at(old_es, j - 1);
        }
    }
    assert(entries_map(es) =~= entries_map(old_es).insert(d, ps));
}


/// With distinct increasing ids, the map has one key per entry.
pub proof fn lemma_entries_len(es: Seq<(DocId, Seq<Position>)>)
    requires
        sorted_keys(es),
    ensures
        entries_map(es).dom().finite(),
        entries_map(es).dom().len() == es.len(),
{
    lemma_inserts_map_sorted(es);
    lemma_inserts_map_dom(es);
}

proof fn lemma_inserts_map_dom(es: Seq<(DocId, Seq<Position>)>)
    requires
        sorted_keys(es),
    ensures
        inserts_map(es).dom().finite(),
        inserts_map(es).dom().len() == es.len(),
        forall|d: DocId| inserts_map(es).contains_key(d) <==> has_key(es, d),
    decreases es.len(),
{
    if es.len() == 0 {
        assert(inserts_map(es).dom() =~= Set::<DocId>::empty());
    } else {
        let init = es.drop_last();
        assert(sorted_keys(init));
        lemma_inserts_map_dom(init);
        assert(!has_key(init, es.last().0)) by {
            if has_key(init, es.last().0) {
                let j = choose|j: int| 0 <= j < init.len() && init[j].0 == es.last().0;
                assert(es[j].0 < es[es.len() - 1].0);
            }
        }
        assert forall|d: DocId| inserts_map(es).contains_key(d) <==> has_key(es, d) by {
            if has_key(init, d) {
                let j = choose|j: int| 0 <= j < init.len() && init[j].0 == d;
                assert(es[j].0 == d);
            }
            if has_key(es, d) && d != es.last().0 {
                let j = choose|j: int| 0 <= j < es.len() && es[j].0 == d;
                assert(init[j].0 == d);
            }
            if d == es.last().0 {
                assert(es[es.len() - 1].0 == d);
            }
        }
        assert(inserts_map(es).dom() == inserts_map(init).dom().insert(es.last().0));
    }
}

/// A copy of a list of positions.
pub fn copy_positions(v: &Vec<Position>) -> (r: Vec<Position>)
    ensures
        r@ == v@,
{
    let r = v.clone();
    assert(r@ =~= v@);
    r
}

impl Clone for Postings {
    fn clone(&self) -> (r: Self)
        ensures
            r.entries() == self.entries(),
            r@ == self@,
    {
        proof {
            use_type_invariant(self);
        }
        let mut docs: Vec<(DocId, Vec<Position>)> = Vec::new();
        let mut i: usize = 0;
        while i < self.docs.len()
            invariant
                i <= self.docs@.len(),
                entries_of(docs@) =~= entries_of(self.docs@).take(i as int),
            decreases self.docs@.len() - i,
        {
            let ps = copy_positions(&self.docs[i].1);
            let ghost before = docs@;
            docs.push((self.docs[i].0, ps));
            proof {
                assert(docs@ == before.push((self.docs@[i as int].0, ps)));
                assert(entries_of(docs@) =~= entries_of(before).push(entries_of(self.docs@)[i as int]));
                assert(entries_of(self.docs@).take(i + 1) =~= entries_of(self.docs@).take(i as int).push(entries_of(self.docs@)[i as int]));
            }
            i = i + 1;
        }
        proof {
            assert(entries_of(self.docs@).take(i as int) =~= entries_of(self.docs@));
        }
        Postings { docs }
    }
}

impl Postings {
    /// The entries, in increasing order of document id.
    pub closed spec fn entries(&self) -> Seq<(DocId, Seq<Position>)> {
        entries_of(self.docs@)
    }

    /// Document ids strictly increase.
    #[verifier::type_invariant]
    pub open spec fn wf(&self) -> bool {
        sorted_keys(self.entries())
    }

    /// The map from document to positions.
    pub open spec fn view(&self) -> Map<DocId, Seq<Position>> {
        entries_map(self.entries())
    }

    /// An empty posting list.
    pub fn new() -> (p: Self)
        ensures
            p.entries() == Seq::<(DocId, Seq<Position>)>::empty(),
            p@ == Map::<DocId, Seq<Position>>::empty(),
    {
        let p = Postings { docs: Vec::new() };
        assert(p.entries() =~= Seq::<(DocId, Seq<Position>)>::empty());
        assert(p@ =~= Map::<DocId, Seq<Position>>::empty());
        p
    }

    /// The number of documents.
    pub fn len(&self) -> (n: usize)
        ensures
            n == self.entries().len(),
    {
        self.docs.len()
    }

    /// Whether no document is listed.
    pub fn is_empty(&self) -> (b: bool)
        ensures
            b == (self.entries().len() == 0),
    {
        self.docs.len() == 0
    }

    /// The entries as a slice, in increasing order of document id.
    pub fn entries_slice(&self) -> (s: &[(DocId, Vec<Position>)])
        ensures
            entries_of(s@) == self.entries(),
    {
        self.docs.as_slice()
    }

    /// The entries, handed over, in increasing order of document id.
    pub fn into_entries(self) -> (v: Vec<(DocId, Vec<Position>)>)
        ensures
            entries_of(v@) == self.entries(),
            sorted_keys(entries_of(v@)),
    {
        proof {
            use_type_invariant(&self);
        }
        self.docs
    }

    /// The entries of a posting list held in memory have lengths that fit
    /// in a `usize`.
    pub proof fn lemma_entry_lengths(&self)
        ensures
            self.entries().len() <= usize::MAX,
            forall|i: int|
                0 <= i < self.entries().len() ==> (#[trigger] self.entries()[i]).1.len()
                    <= usize::MAX,
    {
        assert(self.docs.len() == self.docs@.len());
        assert forall|i: int| 0 <= i < self.entries().len() implies (
        #[trigger] self.entries()[i]).1.len() <= usize::MAX by {
            assert(self.docs@[i].1.len() == self.docs@[i].1@.len());
        }
    }

    /// The index of the entry for `doc_id`, if any.
    fn find(&self, doc_id: DocId) -> (r: Option<usize>)
        ensures
            match r {
                Some(i) => i < self.entries().len() && self.entries()[i as int].0 == doc_id,
                None => !has_key(self.entries(), doc_id),
            },
    {
        let mut i: usize = 0;
        while i < self.docs.len()
            invariant
                i <= self.docs@.len(),
                forall|j: int| 0 <= j < i ==> self.entries()[j].0 != doc_id,
            decreases self.docs@.len() - i,
        {
            if self.docs[i].0 == doc_id {
                return Some(i);
            }
            i = i + 1;
        }
        None
    }

    /// The positions of `doc_id`, if it is listed.
    pub fn get(&self, doc_id: &DocId) -> (r: Option<&Vec<Position>>)
        ensures
            match r {
                Some(ps) => self@.contains_key(*doc_id) && ps@ == self@[*doc_id],
                None => !self@.contains_key(*doc_id),
            },
    {
        proof {
            use_type_invariant(self);
        }
        match self.find(*doc_id) {
            Some(i) => {
                proof {
                    lemma_entries_map_at(self.entries(), i as int);
                }
                Some(&self.docs[i].1)
            },
            None => None,
        }
    }

    /// Whether `doc_id` is listed.
    pub fn contains_key(&self, doc_id: &DocId) -> (b: bool)
        ensures
            b == self@.contains_key(*doc_id),
    {
        self.find(*doc_id).is_some()
    }

    /// The first index whose document id is not below `doc_id`.
    fn lower_bound(&self, doc_id: DocId) -> (i: usize)
        ensures
            i <= self.entries().len(),
            forall|j: int| 0 <= j < i ==> self.entries()[j].0 < doc_id,
            i < self.entries().len() ==> self.entries()[i as int].0 >= doc_id,
    {
        let mut i: usize = 0;
        while i < self.docs.len() && self.docs[i].0 < doc_id
            invariant
                i <= self.docs@.len(),
                forall|j: int| 0 <= j < i ==> self.entries()[j].0 < doc_id,
            decreases self.docs@.len() - i,
        {
            i = i + 1;
        }
        i
    }

    /// Sets the positions of `doc_id`, replacing those it had.
    pub fn insert(&mut self, doc_id: DocId, positions: Vec<Position>)
        ensures
            final(self)@ == old(self)@.insert(doc_id, positions@),
    {
        proof {
            use_type_invariant(&*self);
        }
        let i = self.lower_bound(doc_id);
        let mut docs: Vec<(DocId, Vec<Position>)> = Vec::new();
        std::mem::swap(&mut docs, &mut self.docs);
        let ghost old_es = entries_of(docs@);
        if i < docs.len() && docs[i].0 == doc_id {
            docs.remove(i);
            docs.insert(i, (doc_id, positions));
            proof {
                assert(entries_of(docs@) =~= old_es.update(i as int, (doc_id, positions@)));
                lemma_map_update(entries_of(docs@), old_es, i as int, doc_id, positions@);
            }
        } else {
            docs.insert(i, (doc_id, positions));
            proof {
                assert(entries_of(docs@) =~= old_es.insert(i as int, (doc_id, positions@)));
                lemma_map_insert(entries_of(docs@), old_es, i as int, doc_id, positions@);
            }
        }
        self.docs = docs;
    }

    /// Appends `pos` to the positions of `doc_id`, listing the document first
    /// if it was not.
    pub fn push_position(&mut self, doc_id: DocId, pos: Position)
        ensures
            final(self)@ == old(self)@.insert(
                doc_id,
                if old(self)@.contains_key(doc_id) {
                    old(self)@[doc_id].push(pos)
                } else {
                    seq![pos]
                },
            ),
    {
        proof {
            use_type_invariant(&*self);
        }
        let i = self.lower_bound(doc_id);
        let mut docs: Vec<(DocId, Vec<Position>)> = Vec::new();
        std::mem::swap(&mut docs, &mut self.docs);
        let ghost old_es = entries_of(docs@);
        if i < docs.len() && docs[i].0 == doc_id {
            let (d, mut ps) = docs.remove(i);
            proof {
                lemma_entries_map_at(old_es, i as int);
            }
            ps.push(pos);
            docs.insert(i, (d, ps));
            proof {
                assert(entries_of(docs@) =~= old_es.update(i as int, (doc_id, ps@)));
                lemma_map_update(entries_of(docs@), old_es, i as int, doc_id, ps@);
            }
        } else {
            let mut ps: Vec<Position> = Vec::new();
            ps.push(pos);
            docs.insert(i, (doc_id, ps));
            proof {
                assert(!has_key(old_es, doc_id)) by {
                    if has_key(old_es, doc_id) {
                        let j = choose|j: int| 0 <= j < old_es.len() && old_es[j].0 == doc_id;
                        if j < i {
                        } else {
                            assert(old_es[i as int].0 <= old_es[j].0);
                        }
                    }
                }
                assert(ps@ =~= seq![pos]);
                assert(entries_of(docs@) =~= old_es.insert(i as int, (doc_id, ps@)));
                lemma_map_insert(entries_of(docs@), old_es, i as int, doc_id, ps@);
            }
        }
        self.docs = docs;
    }

    pub fn from_pairs(pairs: Vec<(DocId, Vec<Position>)>) -> (p: Self)
        ensures
            p@ == inserts_map(entries_of(pairs@)),
    {
        let mut p = Postings::new();
        let mut pairs = pairs;
        let ghost all = entries_of(pairs@);
        let n0 = pairs.len();
        let ghost n = n0 as nat;
        let mut i: usize = 0;
        while pairs.len() > 0
            invariant
                i + pairs@.len() == n,
                n <= usize::MAX,
                all.len() == n,
                entries_of(pairs@) == all.skip(i as int),
                p@ == inserts_map(all.take(i as int)),
            decreases pairs@.len(),
        {
            let ghost before = pairs@;
            let (d, ps) = pairs.remove(0);
            proof {
                assert(entries_of(before)[0] == all[i as int]);
                assert forall|j: int| 0 <= j < pairs@.len() implies entries_of(pairs@)[j] == all.skip(
                    i + 1,
                )[j] by {
                    assert(pairs@[j] == before[j + 1]);
                    assert(entries_of(before)[j + 1] == all.skip(i as int)[j + 1]);
                }
                assert(all.take(i + 1).drop_last() =~= all.take(i as int));
                assert(all.skip(i as int)[0] == all[i as int]);
                assert(entries_of(pairs@) =~= all.skip(i + 1));
            }
            p.insert(d, ps);
            i = i + 1;
        }
        proof {
            assert(all.take(i as int) =~= all);
        }
        p
    }
}

} // verus!
