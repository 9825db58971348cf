//! A cursor over a posting list in increasing order of document id, with
//! skip pointers that let it jump ahead.

use vstd::prelude::*;

use crate::postings::{entries_map, entries_of, lemma_entries_map_at, sorted_keys, DocId, Position, Postings};

verus! {

/// The largest `s` with `s * s <= n`.
pub open spec fn is_isqrt(s: int, n: int) -> bool {
    0 <= s && s * s <= n < (s + 1) * (s + 1)
}

/// The distance between two skip pointers over a list of `len` documents:
/// the integer square root of `len`, at least 2.
pub open spec fn skip_step(len: nat, root: int) -> int {
    if root < 2 {
        2
    } else {
        root
    }
}

/// The skip pointers over a list of `len` documents whose integer square
/// root is `root`: every multiple of the step below `len`, in increasing
/// order; none below four documents.
pub open spec fn skips_for(len: nat, root: int) -> Seq<usize> {
    if len < 4 {
        Seq::empty()
    } else {
        let st = skip_step(len, root);
        Seq::new(((len - 1) / st) as nat, |i: int| ((i + 1) * st) as usize)
    }
}

proof fn lemma_le_div(a: int, n: int)
    requires
        a > 0,
        n >= 0,
    ensures
        (a <= n / a) <==> (a * a <= n),
{
    let q = n / a;
    let r = n % a;
    assert(n == a * q + r && 0 <= r < a) by (nonlinear_arith)
        requires
            a > 0,
            q == n / a,
            r == n % a,
    ;
    assert((a <= q) <==> (a * a <= n)) by (nonlinear_arith)
        requires
            a > 0,
            n == a * q + r,
            0 <= r < a,
    ;
}

proof fn lemma_square_above(s: int, n: int)
    requires
        s >= 0,
        s * s <= n,
    ensures
        s <= 1 || s < n,
{
    if s >= 2 {
        assert(s < s * s) by (nonlinear_arith)
            requires
                s >= 2,
        ;
    }
}

/// The integer square root of `n`.
fn isqrt(n: usize) -> (s: usize)
    ensures
        is_isqrt(s as int, n as int),
{
    let mut s: usize = 0;
    while s + 1 <= n / (s + 1)
        invariant
            s * s <= n,
            s < usize::MAX,
        decreases n - s,
    {
        proof {
            lemma_le_div(s + 1, n as int);
            lemma_square_above(s + 1, n as int);
        }
        s = s + 1;
    }
    proof {
        lemma_le_div(s + 1, n as int);
    }
    s
}

/// The skip pointers over a list of `len` documents.
pub fn build_skips(len: usize) -> (skips: Vec<usize>)
    ensures
        exists|root: int| is_isqrt(root, len as int) && skips@ == skips_for(len as nat, root),
{
    let root = isqrt(len);
    let mut skips: Vec<usize> = Vec::new();
    if len < 4 {
        assert(skips@ =~= skips_for(len as nat, root as int));
        return skips;
    }
    let step: usize = if root < 2 {
        2
    } else {
        root
    };
    let count: usize = (len - 1) / step;
    let mut k: usize = 0;
    while k < count
        invariant
            step == skip_step(len as nat, root as int),
            step >= 2,
            len >= 4,
            count == (len - 1) / (step as int),
            k <= count,
            skips@ =~= Seq::new(k as nat, |i: int| ((i + 1) * step) as usize),
        decreases count - k,
    {
        proof {
            assert((k + 1) * step <= len - 1) by (nonlinear_arith)
                requires
                    k + 1 <= count,
                    count == (len - 1) / (step as int),
                    step >= 2,
                    len >= 4,
            ;
        }
        skips.push((k + 1) * step);
        k = k + 1;
    }
    assert(skips@ =~= skips_for(len as nat, root as int));
    skips
}

/// The first index from `from` on whose document id is at least `target`
/// (the length when there is none).
pub open spec fn seek(ids: Seq<DocId>, from: int, target: DocId) -> int
    decreases ids.len() - from,
{
    if from >= ids.len() {
        ids.len() as int
    } else if ids[from] >= target {
        from
    } else {
        seek(ids, from + 1, target)
    }
}

/// Seeking from a point lands on the first document at or after it whose id
/// is at least the target; every document passed has a smaller id.
pub proof fn lemma_seek(ids: Seq<DocId>, from: int, target: DocId)
    requires
        0 <= from <= ids.len(),
    ensures
        from <= seek(ids, from, target) <= ids.len(),
        seek(ids, from, target) < ids.len() ==> ids[seek(ids, from, target)] >= target,
        forall|j: int| from <= j < seek(ids, from, target) ==> ids[j] < target,
    decreases ids.len() - from,
{
    if from < ids.len() && ids[from] < target {
        lemma_seek(ids, from + 1, target);
    }
}

/// Skip pointers increase and point into the list.
pub open spec fn skips_valid(skips: Seq<usize>, len: int) -> bool {
    &&& forall|i: int, j: int| 0 <= i < j < skips.len() ==> skips[i] < skips[j]
    &&& forall|i: int| 0 <= i < skips.len() ==> skips[i] < len
}

/// A cursor over a posting list, in increasing order of document id. It
/// counts the single steps it takes.
pub struct PostingIterator {
    docs: Vec<(DocId, Vec<Position>)>,
    skips: Vec<usize>,
    cursor: usize,
    advances: usize,
}

impl PostingIterator {
    /// The entries walked over, in increasing order of document id.
    pub closed spec fn entries(&self) -> Seq<(DocId, Seq<Position>)> {
        entries_of(self.docs@)
    }

    /// The document ids walked over, in increasing order.
    pub open spec fn ids(&self) -> Seq<DocId> {
        self.entries().map_values(|e: (DocId, Seq<Position>)| e.0)
    }

    /// The index of the current entry (the length once done).
    pub closed spec fn cursor(&self) -> int {
        self.cursor as int
    }

    /// The entry at the cursor.
    pub open spec fn current_entry(&self) -> (DocId, Seq<Position>) {
        self.entries()[self.cursor()]
    }

    /// The number of single steps taken so far.
    pub closed spec fn advances(&self) -> int {
        self.advances as int
    }

    /// The skip pointers that are left, as indices into the entries.
    pub closed spec fn skip_seq(&self) -> Seq<usize> {
        self.skips@
    }

    #[verifier::type_invariant]
    closed spec fn wf(&self) -> bool {
        &&& sorted_keys(self.entries())
        &&& self.cursor <= self.docs@.len()
        &&& skips_valid(self.skips@, self.docs@.len() as int)
    }

    /// The index that `advance_to(target)` jumps to before it steps: the
    /// first skip pointer when the last one's document is at most `target`
    /// (all pointers are then used up), the cursor otherwise.
    pub open spec fn jump_for(&self, target: DocId) -> int {
        if self.jumps(target) {
            self.skip_seq()[0] as int
        } else {
            self.cursor()
        }
    }

    /// Whether `advance_to(target)` uses the skip pointers.
    pub open spec fn jumps(&self, target: DocId) -> bool {
        self.skip_seq().len() > 0 && self.ids()[self.skip_seq().last() as int] <= target
    }

    /// A cursor at the first document of `postings`, with skip pointers
    /// built for its length and no steps counted.
    pub fn from_postings(postings: Postings) -> (it: Self)
        ensures
            it.entries() == postings.entries(),
            it.cursor() == 0,
            it.advances() == 0,
            exists|root: int|
                is_isqrt(root, postings.entries().len() as int) && it.skip_seq() == skips_for(
                    postings.entries().len(),
                    root,
                ),
    {
        let docs = postings.into_entries();
        let skips = build_skips(docs.len());
        proof {
            let root = choose|root: int|
                is_isqrt(root, docs@.len() as int) && skips@ == skips_for(docs@.len() as nat, root);
            let st = skip_step(docs@.len() as nat, root);
            if docs@.len() >= 4 {
                assert forall|i: int, j: int| 0 <= i < j < skips@.len() implies skips@[i]
                    < skips@[j] by {
                    assert((i + 1) * st < (j + 1) * st <= docs@.len() - 1) by (nonlinear_arith)
                        requires
                            0 <= i < j < (docs@.len() - 1) / st,
                            st >= 2,
                            docs@.len() >= 4,
                    ;
                }
                assert forall|i: int| 0 <= i < skips@.len() implies skips@[i] < docs@.len() by {
                    assert((i + 1) * st <= docs@.len() - 1) by (nonlinear_arith)
                        requires
                            0 <= i < (docs@.len() - 1) / st,
                            st >= 2,
                            docs@.len() >= 4,
                    ;
                }
            }
        }
        PostingIterator { docs, skips, cursor: 0, advances: 0 }
    }

    /// The current document and its positions, once not done.
    pub fn current(&self) -> (r: Option<(DocId, &[Position])>)
        ensures
            match r {
                Some((d, ps)) => self.cursor() < self.entries().len() && d == self.entries()[self.cursor()].0
                    && ps@ == self.entries()[self.cursor()].1,
                None => self.cursor() >= self.entries().len(),
            },
    {
        proof {
            use_type_invariant(self);
        }
        if self.cursor < self.docs.len() {
            let e = &self.docs[self.cursor];
            Some((e.0, e.1.as_slice()))
        } else {
            None
        }
    }

    /// One step to the next document, counted; nothing once done.
    pub fn advance(&mut self)
        requires
            old(self).cursor() < old(self).entries().len() ==> old(self).advances() < usize::MAX,
        ensures
            final(self).entries() == old(self).entries(),
            final(self).skip_seq() == old(self).skip_seq(),
            old(self).cursor() < old(self).entries().len() ==> final(self).cursor() == old(
                self,
            ).cursor() + 1 && final(self).advances() == old(self).advances() + 1,
            old(self).cursor() >= old(self).entries().len() ==> final(self).cursor() == old(
                self,
            ).cursor() && final(self).advances() == old(self).advances(),
    {
        proof {
            use_type_invariant(&*self);
        }
        if self.cursor < self.docs.len() {
            self.cursor = self.cursor + 1;
            self.advances = self.advances + 1;
        }
    }

    /// The number of single steps taken so far.
    pub fn advance_count(&self) -> (n: usize)
        ensures
            n == self.advances(),
    {
        self.advances
    }

    /// Moves to the first document whose id is at least `target`, from the
    /// point `jump_for(target)` and counting each single step from there.
    pub fn advance_to(&mut self, target: DocId)
        requires
            old(self).advances() + (seek(old(self).ids(), old(self).jump_for(target), target)
                - old(self).jump_for(target)) <= usize::MAX,
        ensures
            final(self).entries() == old(self).entries(),
            final(self).cursor() == seek(old(self).ids(), old(self).jump_for(target), target),
            final(self).advances() == old(self).advances() + (final(self).cursor() - old(
                self,
            ).jump_for(target)),
            final(self).skip_seq() == (if old(self).jumps(target) {
                Seq::<usize>::empty()
            } else {
                old(self).skip_seq()
            }),
    {
        proof {
            use_type_invariant(&*self);
        }
        let ghost ids = self.ids();
        let ghost start = self.jump_for(target);
        let ghost old_skips = self.skips@;
        let ghost jumped = self.jumps(target);
        let mut skips: Vec<usize> = Vec::new();
        std::mem::swap(&mut skips, &mut self.skips);
        while skips.len() > 0
            invariant
                ids == self.ids(),
                ids.len() == self.docs@.len(),
                self.skips@.len() == 0,
                self.cursor <= self.docs@.len(),
                skips@.len() <= old_skips.len(),
                skips@ == old_skips.take(skips@.len() as int),
                skips_valid(old_skips, self.docs@.len() as int),
                sorted_keys(self.entries()),
                self.advances == old(self).advances,
                self.docs == old(self).docs,
                jumped == (old_skips.len() > 0 && ids[old_skips.last() as int] <= target),
                !jumped ==> skips@ == old_skips && self.cursor == old(self).cursor,
                jumped && skips@.len() < old_skips.len() ==> self.cursor == old_skips[skips@.len() as int],
            ensures
                jumped ==> skips@.len() == 0 && self.cursor == old_skips[0],
                !jumped ==> skips@ == old_skips && self.cursor == old(self).cursor,
                ids == self.ids(),
                ids.len() == self.docs@.len(),
                self.skips@.len() == 0,
                sorted_keys(self.entries()),
                self.cursor <= self.docs@.len(),
                skips_valid(skips@, self.docs@.len() as int),
                self.advances == old(self).advances,
                self.docs == old(self).docs,
            decreases skips@.len(),
        {
            let last = skips.len() - 1;
            let skip_idx = skips[last];
            proof {
                assert(skips@[last as int] == old_skips[last as int]);
                assert(ids[skip_idx as int] == self.entries()[skip_idx as int].0);
            }
            if self.docs[skip_idx].0 <= target {
                proof {
                    if !jumped {
                        assert(skips@ =~= old_skips);
                    }
                }
                self.cursor = skip_idx;
                skips.pop();
                proof {
                    assert(skips@ =~= old_skips.take(skips@.len() as int));
                }
            } else {
                proof {
                    if jumped && skips@.len() < old_skips.len() {
                        let l = skips@.len() as int;
                        assert(old_skips[l - 1] < old_skips[l]);
                        assert(ids[old_skips[l - 1] as int] < ids[old_skips[l] as int]);
                    }
                    if jumped && skips@.len() == old_skips.len() {
                        assert(skips@ =~= old_skips);
                    }
                    assert(skips_valid(skips@, self.docs@.len() as int));
                }
                break;
            }
        }
        self.skips = skips;
        assert(self.cursor == start);
        proof {
            lemma_seek(ids, start, target);
        }
        while self.cursor < self.docs.len() && self.docs[self.cursor].0 < target
            invariant
                ids == self.ids(),
                ids.len() == self.docs@.len(),
                start <= self.cursor <= seek(ids, start, target),
                seek(ids, start, target) <= self.docs@.len(),
                forall|j: int| start <= j < seek(ids, start, target) ==> ids[j] < target,
                seek(ids, start, target) < ids.len() ==> ids[seek(ids, start, target)] >= target,
                self.advances == old(self).advances + (self.cursor - start),
                old(self).advances + (seek(ids, start, target) - start) <= usize::MAX,
                self.docs == old(self).docs,
                self.skips@ == (if jumped {
                    Seq::<usize>::empty()
                } else {
                    old_skips
                }),
                sorted_keys(self.entries()),
                skips_valid(self.skips@, self.docs@.len() as int),
            decreases self.docs@.len() - self.cursor,
        {
            proof {
                assert(ids[self.cursor as int] == self.entries()[self.cursor as int].0);
            }
            self.cursor = self.cursor + 1;
            self.advances = self.advances + 1;
        }
        proof {
            if self.cursor < self.docs@.len() {
                assert(ids[self.cursor as int] == self.entries()[self.cursor as int].0);
            }
        }
    }

    /// Whether every document has been passed.
    pub fn is_done(&self) -> (b: bool)
        ensures
            b == (self.cursor() >= self.entries().len()),
    {
        self.cursor >= self.docs.len()
    }

    /// The current document id, once not done.
    pub fn current_doc(&self) -> (r: Option<DocId>)
        ensures
            match r {
                Some(d) => self.cursor() < self.entries().len() && d == self.entries()[self.cursor()].0,
                None => self.cursor() >= self.entries().len(),
            },
    {
        match self.current() {
            Some((d, _)) => Some(d),
            None => None,
        }
    }

    /// The positions of the current document, once not done.
    pub fn current_positions(&self) -> (r: Option<&[Position]>)
        ensures
            match r {
                Some(ps) => self.cursor() < self.entries().len() && ps@ == self.entries()[self.cursor()].1,
                None => self.cursor() >= self.entries().len(),
            },
    {
        match self.current() {
            Some((_, ps)) => Some(ps),
            None => None,
        }
    }

    /// The skip pointers that are left.
    pub fn skips(&self) -> (s: &[usize])
        ensures
            s@ == self.skip_seq(),
    {
        self.skips.as_slice()
    }
}

/// What one call of `advance` does to an iterator that is not done: the
/// entries stay, and the cursor moves one further.
pub open spec fn steps_to(a: PostingIterator, b: PostingIterator) -> bool {
    &&& a.cursor() < a.entries().len()
    &&& b.entries() == a.entries()
    &&& b.cursor() == a.cursor() + 1
}

proof fn lemma_run_prefix(run: Seq<PostingIterator>, k: int)
    requires
        0 <= k < run.len(),
        run[0].cursor() == 0,
        forall|j: int| 0 <= j < run.len() - 1 ==> steps_to(#[trigger] run[j], run[j + 1]),
    ensures
        run[k].entries() == run[0].entries(),
        run[k].cursor() == k,
    decreases k,
{
    if k > 0 {
        lemma_run_prefix(run, k - 1);
        assert(steps_to(run[k - 1], run[k]));
    }
}

/// Walking an iterator from its first entry by single steps until it is
/// done visits each document of its postings exactly once, in strictly
/// increasing order of id, with its positions: the `k`-th state of the run
/// stands at entry `k`, the run takes as many steps as there are entries,
/// and the documents met are exactly those of the postings.
pub proof fn lemma_walk_visits_each_document_once(run: Seq<PostingIterator>)
    requires
        run.len() >= 1,
        run[0].cursor() == 0,
        sorted_keys(run[0].entries()),
        forall|k: int| 0 <= k < run.len() - 1 ==> steps_to(#[trigger] run[k], run[k + 1]),
        run.last().cursor() >= run.last().entries().len(),
    ensures
        run.len() == run[0].entries().len() + 1,
        forall|k: int|
            0 <= k < run.len() ==> (#[trigger] run[k]).entries() == run[0].entries() && run[k].cursor()
                == k,
        forall|k1: int, k2: int|
            0 <= k1 < k2 < run.len() - 1 ==> (#[trigger] run[k1]).current_entry().0 < (
            #[trigger] run[k2]).current_entry().0,
        forall|d: DocId|
            #[trigger] entries_map(run[0].entries()).contains_key(d) <==> exists|k: int|
                0 <= k < run.len() - 1 && (#[trigger] run[k]).current_entry().0 == d,
        forall|k: int|
            0 <= k < run.len() - 1 ==> entries_map(run[0].entries())[(
            #[trigger] run[k]).current_entry().0] == run[k].current_entry().1,
{
    let es = run[0].entries();
    assert forall|k: int| 0 <= k < run.len() implies (#[trigger] run[k]).entries() == es
        && run[k].cursor() == k by {
        lemma_run_prefix(run, k);
    }
    let n = run.len() - 1;
    assert(run[n].cursor() == n);
    if n > 0 {
        assert(steps_to(run[n - 1], run[n]));
    }
    assert(n == es.len());
    assert forall|k: int| 0 <= k < run.len() - 1 implies entries_map(es)[(
    #[trigger] run[k]).current_entry().0] == run[k].current_entry().1 by {
        lemma_entries_map_at(es, k);
    }
    assert forall|d: DocId| #[trigger] entries_map(es).contains_key(d) <==> exists|k: int|
        0 <= k < run.len() - 1 && (#[trigger] run[k]).current_entry().0 == d by {
        if entries_map(es).contains_key(d) {
            let i = choose|i: int| 0 <= i < es.len() && es[i].0 == d;
            assert(run[i].current_entry().0 == d);
        }
        if exists|k: int| 0 <= k < run.len() - 1 && (#[trigger] run[k]).current_entry().0 == d {
            let k = choose|k: int| 0 <= k < run.len() - 1 && (#[trigger] run[k]).current_entry().0 == d;
            lemma_entries_map_at(es, k);
        }
    }
}

} // verus!
