//! The table of indexed documents: ids handed out from 1 upward, one per
//! distinct path.

use vstd::prelude::*;

use crate::postings::DocId;

verus! {

/// No path occurs twice.
pub open spec fn distinct_paths(ps: Seq<Seq<char>>) -> bool {
    forall|i: int, j: int| 0 <= i < j < ps.len() ==> ps[i] != ps[j]
}

/// The paths that adding `ns` one after the other to a table with paths
/// `ps` leaves: each path not yet present is appended.
pub open spec fn add_paths(ps: Seq<Seq<char>>, ns: Seq<Seq<char>>) -> Seq<Seq<char>>
    decreases ns.len(),
{
    if ns.len() == 0 {
        ps
    } else {
        let r = add_paths(ps, ns.drop_last());
        if r.contains(ns.last()) {
            r
        } else {
            r.push(ns.last())
        }
    }
}

/// The id that the `i`-th of the paths `ns` is given when they are added,
/// one after the other, to an empty table.
pub open spec fn added_id(ns: Seq<Seq<char>>, i: int) -> int {
    path_index(add_paths(Seq::empty(), ns.take(i)), ns[i]) + 1
}

/// The index of `p` in `ps`, or `ps.len()` when it is absent.
pub open spec fn path_index(ps: Seq<Seq<char>>, p: Seq<char>) -> int
    decreases ps.len(),
{
    if ps.len() == 0 {
        0
    } else if ps[0] == p {
        0
    } else {
        1 + path_index(ps.drop_first(), p)
    }
}

pub proof fn lemma_path_index(ps: Seq<Seq<char>>, p: Seq<char>)
    ensures
        0 <= path_index(ps, p) <= ps.len(),
        path_index(ps, p) < ps.len() ==> ps[path_index(ps, p)] == p,
        path_index(ps, p) == ps.len() <==> !ps.contains(p),
        forall|j: int| 0 <= j < path_index(ps, p) ==> ps[j] != p,
    decreases ps.len(),
{
    if ps.len() > 0 && ps[0] != p {
        lemma_path_index(ps.drop_first(), p);
        let k = path_index(ps.drop_first(), p);
        assert forall|j: int| 0 <= j < path_index(ps, p) implies ps[j] != p by {
            if j > 0 {
                assert(ps[j] == ps.drop_first()[j - 1]);
            }
        }
        if ps.contains(p) {
            let j = choose|j: int| 0 <= j < ps.len() && ps[j] == p;
            assert(ps.drop_first()[j - 1] == p);
        }
        if k < ps.drop_first().len() {
            assert(ps.contains(p));
        }
    } else if ps.len() > 0 {
        assert(ps.contains(p));
    }
}

/// The table of documents. The document with id `i` is the `i`-th path
/// added (counting from 1); adding a path that is already present hands
/// back its id.
#[derive(Debug)]
pub struct DocTable {
    paths: Vec<String>,
}

impl Clone for DocTable {
    fn clone(&self) -> (r: Self)
        ensures
            r.paths() == self.paths(),
    {
        proof {
            use_type_invariant(self);
        }
        let mut paths: Vec<String> = Vec::new();
        let mut i: usize = 0;
        while i < self.paths.len()
            invariant
                i <= self.paths@.len(),
                paths@.map_values(|s: String| s@) =~= self.paths().take(i as int),
            decreases self.paths@.len() - i,
        {
            let ghost before = paths@;
            paths.push(self.paths[i].clone());
            proof {
                assert(paths@.map_values(|s: String| s@) =~= before.map_values(|s: String| s@).push(
                    self.paths()[i as int],
                ));
                assert(self.paths().take(i + 1) =~= self.paths().take(i as int).push(
                    self.paths()[i as int],
                ));
            }
            i = i + 1;
        }
        proof {
            assert(self.paths().take(i as int) =~= self.paths());
        }
        DocTable { paths }
    }
}

impl DocTable {
    /// The paths in order of id: the path of id `i` stands at `i - 1`.
    pub closed spec fn paths(&self) -> Seq<Seq<char>> {
        self.paths@.map_values(|s: String| s@)
    }

    #[verifier::type_invariant]
    pub open spec fn wf(&self) -> bool {
        distinct_paths(self.paths())
    }

    /// The number of documents, as a spec value.
    pub open spec fn spec_len(&self) -> nat {
        self.paths().len()
    }

    /// The path of document `id`, if there is one.
    pub open spec fn path_of(&self, id: DocId) -> Option<Seq<char>> {
        if 1 <= id <= self.paths().len() {
            Some(self.paths()[id - 1])
        } else {
            None
        }
    }

    /// The id that `add_document` gives `path`: its present id, or the next.
    pub open spec fn id_for(&self, path: Seq<char>) -> int {
        path_index(self.paths(), path) + 1
    }

    /// An empty table; the first document added gets id 1.
    pub fn new() -> (t: Self)
        ensures
            t.paths() == Seq::<Seq<char>>::empty(),
    {
        let t = DocTable { paths: Vec::new() };
        assert(t.paths() =~= Seq::<Seq<char>>::empty());
        t
    }

    fn position(&self, path: &String) -> (r: usize)
        ensures
            r == path_index(self.paths(), path@),
    {
        proof {
            lemma_path_index(self.paths(), path@);
        }
        let mut i: usize = 0;
        while i < self.paths.len()
            invariant
                i <= self.paths@.len(),
                i <= path_index(self.paths(), path@),
                forall|j: int| 0 <= j < path_index(self.paths(), path@) ==> self.paths()[j] != path@,
                path_index(self.paths(), path@) < self.paths().len() ==> self.paths()[path_index(
                    self.paths(),
                    path@,
                )] == path@,
                path_index(self.paths(), path@) <= self.paths().len(),
            decreases self.paths@.len() - i,
        {
            if self.paths[i] == *path {
                assert(self.paths()[i as int] == path@);
                return i;
            }
            assert(self.paths()[i as int] != path@);
            i = i + 1;
        }
        i
    }

    /// The id of `path`: its present id if it was added before, else a new
    /// id one above the largest so far.
    pub fn add_document(&mut self, path: String) -> (id: DocId)
        requires
            old(self).spec_len() < u64::MAX,
        ensures
            id == old(self).id_for(path@),
            final(self).paths() == if old(self).paths().contains(path@) {
                old(self).paths()
            } else {
                old(self).paths().push(path@)
            },
            final(self).path_of(id) == Some(path@),
    {
        proof {
            use_type_invariant(&*self);
            lemma_path_index(self.paths(), path@);
        }
        let i = self.position(&path);
        if i < self.paths.len() {
            return (i + 1) as DocId;
        }
        let ghost old_paths = self.paths();
        let id = self.paths.len() as DocId + 1;
        let mut paths: Vec<String> = Vec::new();
        std::mem::swap(&mut paths, &mut self.paths);
        paths.push(path);
        proof {
            let ps = paths@.map_values(|s: String| s@);
            assert(ps =~= old_paths.push(path@));
            assert forall|a: int, b: int| 0 <= a < b < ps.len() implies ps[a] != ps[b] by {
                if b == ps.len() - 1 {
                    assert(old_paths[a] == ps[a]);
                }
            }
        }
        self.paths = paths;
        id
    }

    /// The path of document `id`.
    pub fn get_path(&self, id: DocId) -> (r: Option<&str>)
        ensures
            match r {
                Some(p) => self.path_of(id) == Some(p@),
                None => self.path_of(id) is None,
            },
    {
        if id >= 1 && id <= self.paths.len() as u64 {
            let s = self.paths[(id - 1) as usize].as_str();
            assert(s@ == self.paths()[id - 1]);
            Some(s)
        } else {
            None
        }
    }

    /// The number of documents.
    pub fn len(&self) -> (n: usize)
        ensures
            n == self.spec_len(),
    {
        self.paths.len()
    }

    /// Whether the table holds no document.
    pub fn is_empty(&self) -> (b: bool)
        ensures
            b == (self.spec_len() == 0),
    {
        self.paths.len() == 0
    }

    /// Whether `path` was added.
    pub fn contains_path(&self, path: &str) -> (b: bool)
        ensures
            b == self.paths().contains(path@),
    {
        let owned = path.to_owned();
        proof {
            lemma_path_index(self.paths(), path@);
        }
        self.position(&owned) < self.paths.len()
    }

    /// The largest id handed out, 0 for an empty table.
    pub fn max_doc_id(&self) -> (m: DocId)
        ensures
            m == self.spec_len(),
    {
        self.paths.len() as DocId
    }

    /// The paths in order of id.
    pub fn paths_in_order(&self) -> (ps: &Vec<String>)
        ensures
            ps@.map_values(|s: String| s@) == self.paths(),
    {
        &self.paths
    }
}

/// Adding a path that is already present hands back the id it has, and
/// leaves the table as it was.
pub proof fn lemma_add_again_same_id(ps: Seq<Seq<char>>, p: Seq<char>)
    ensures
        ({
            let after = if ps.contains(p) {
                ps
            } else {
                ps.push(p)
            };
            &&& after.contains(p)
            &&& path_index(after, p) == path_index(ps, p)
        }),
{
    lemma_path_index(ps, p);
    if !ps.contains(p) {
        let after = ps.push(p);
        lemma_path_index(after, p);
        assert(after[ps.len() as int] == p);
        assert(after.contains(p));
        assert(path_index(after, p) == ps.len()) by {
            if path_index(after, p) < ps.len() {
                assert(ps[path_index(after, p)] == p);
            }
        }
    }
}

/// Distinct paths of a table have distinct ids.
pub proof fn lemma_distinct_ids(ps: Seq<Seq<char>>, p: Seq<char>, q: Seq<char>)
    requires
        ps.contains(p),
        ps.contains(q),
        p != q,
    ensures
        path_index(ps, p) != path_index(ps, q),
{
    lemma_path_index(ps, p);
    lemma_path_index(ps, q);
}

/// The place of a path's first occurrence is the one place where it occurs
/// with no occurrence before.
proof fn lemma_path_index_unique(ps: Seq<Seq<char>>, p: Seq<char>, k: int)
    requires
        0 <= k < ps.len(),
        ps[k] == p,
        forall|j: int| 0 <= j < k ==> ps[j] != p,
    ensures
        path_index(ps, p) == k,
{
    lemma_path_index(ps, p);
    assert(ps.contains(p));
}

/// Of a table built from an empty one by adding the paths `ns` in turn: no
/// path is held twice; a path is held exactly when it was added; each add
/// returned an id whose path is the path added; and every id in the table
/// was returned by an add, the first add of its path. So `get_path(id)` is
/// `Some(p)` exactly when some add of `p` returned `id`, and
/// `contains_path(p)` holds exactly when `p` was added.
pub proof fn lemma_added_ids(ns: Seq<Seq<char>>)
    ensures
        distinct_paths(add_paths(Seq::empty(), ns)),
        forall|p: Seq<char>| #[trigger] add_paths(Seq::empty(), ns).contains(p) <==> ns.contains(p),
        forall|i: int|
            0 <= i < ns.len() ==> 1 <= #[trigger] added_id(ns, i) <= add_paths(Seq::empty(), ns).len()
                && add_paths(Seq::empty(), ns)[added_id(ns, i) - 1] == ns[i],
        forall|j: int|
            0 <= j < add_paths(Seq::empty(), ns).len() ==> path_index(
                ns,
                #[trigger] add_paths(Seq::empty(), ns)[j],
            ) < ns.len() && added_id(ns, path_index(ns, add_paths(Seq::empty(), ns)[j])) == j + 1,
    decreases ns.len(),
{
    let ps = add_paths(Seq::empty(), ns);
    if ns.len() == 0 {
        assert(ps.len() == 0);
    } else {
        let init = ns.drop_last();
        let q = ns.last();
        let n = ns.len() - 1;
        lemma_added_ids(init);
        let pre = add_paths(Seq::empty(), init);
        lemma_path_index(pre, q);
        assert(ns.take(n) =~= init);
        assert(ps == if pre.contains(q) {
            pre
        } else {
            pre.push(q)
        });
        assert forall|i: int| 0 <= i < n implies #[trigger] added_id(ns, i) == added_id(init, i) by {
            assert(ns.take(i) =~= init.take(i));
        }
        assert(pre.contains(q) <==> init.contains(q));
        assert forall|p: Seq<char>| #[trigger] ps.contains(p) <==> ns.contains(p) by {
            assert(pre.contains(p) <==> init.contains(p));
            if ps.contains(p) {
                let j = choose|j: int| 0 <= j < ps.len() && ps[j] == p;
                if j < pre.len() {
                    assert(pre.contains(p));
                    let k = choose|k: int| 0 <= k < init.len() && init[k] == p;
                    assert(ns[k] == p);
                } else {
                    assert(ns[n] == p);
                }
            }
            if ns.contains(p) {
                let k = choose|k: int| 0 <= k < ns.len() && ns[k] == p;
                if k < n {
                    assert(init[k] == p);
                    assert(pre.contains(p));
                    let j = choose|j: int| 0 <= j < pre.len() && pre[j] == p;
                    assert(ps[j] == p);
                } else if pre.contains(p) {
                    let j = choose|j: int| 0 <= j < pre.len() && pre[j] == p;
                    assert(ps[j] == p);
                } else {
                    assert(ps[pre.len() as int] == p);
                }
            }
        }
        assert forall|i: int| 0 <= i < ns.len() implies 1 <= #[trigger] added_id(ns, i) <= ps.len()
            && ps[added_id(ns, i) - 1] == ns[i] by {
            if i < n {
                assert(added_id(ns, i) == added_id(init, i));
            }
        }
        assert forall|j: int| 0 <= j < ps.len() implies path_index(ns, #[trigger] ps[j]) < ns.len()
            && added_id(ns, path_index(ns, ps[j])) == j + 1 by {
            let p = ps[j];
            if j < pre.len() {
                assert(pre[j] == p);
                let k = path_index(init, p);
                lemma_path_index(init, p);
                assert(pre.contains(p));
                assert(init.contains(p));
                assert(ns[k] == p);
                assert forall|m: int| 0 <= m < k implies ns[m] != p by {
                    assert(ns[m] == init[m]);
                }
                lemma_path_index_unique(ns, p, k);
                assert(added_id(ns, k) == added_id(init, k));
            } else {
                assert(!pre.contains(q));
                assert(p == q);
                assert(!init.contains(q));
                assert forall|m: int| 0 <= m < n implies ns[m] != q by {
                    assert(ns[m] == init[m]);
                }
                lemma_path_index_unique(ns, q, n);
            }
        }
    }
}

/// Whether `p` is one of the strings of `v`.
fn listed(v: &Vec<String>, p: &String) -> (b: bool)
    ensures
        b == v@.map_values(|s: String| s@).contains(p@),
{
    let ghost vs = v@.map_values(|s: String| s@);
    let mut i: usize = 0;
    while i < v.len()
        invariant
            i <= v@.len(),
            vs == v@.map_values(|s: String| s@),
            forall|j: int| 0 <= j < i ==> vs[j] != p@,
        decreases v@.len() - i,
    {
        if v[i] == *p {
            assert(vs[i as int] == p@);
            return true;
        }
        i = i + 1;
    }
    false
}

/// The paths among `paths` that adding them all to `table`, one after the
/// other, would append, in order: each one that the table does not hold and
/// that does not come earlier in `paths`.
pub fn select_new_paths(table: &DocTable, paths: &[String]) -> (r: Vec<String>)
    ensures
        table.paths() + r@.map_values(|s: String| s@) == add_paths(
            table.paths(),
            paths@.map_values(|s: String| s@),
        ),
{
    let ghost ps = table.paths();
    let ghost ns = paths@.map_values(|s: String| s@);
    let mut r: Vec<String> = Vec::new();
    let mut i: usize = 0;
    assert(ns.take(0) =~= Seq::<Seq<char>>::empty());
    assert(ps + r@.map_values(|s: String| s@) =~= ps);
    while i < paths.len()
        invariant
            i <= paths@.len(),
            ps == table.paths(),
            ns == paths@.map_values(|s: String| s@),
            ps + r@.map_values(|s: String| s@) == add_paths(ps, ns.take(i as int)),
        decreases paths@.len() - i,
    {
        let p = &paths[i];
        let ghost rs = r@.map_values(|s: String| s@);
        let ghost q = ns[i as int];
        assert(p@ == q);
        let held = table.contains_path(p.as_str());
        let seen = listed(&r, p);
        proof {
            let t1 = ns.take(i + 1);
            assert(t1.drop_last() =~= ns.take(i as int));
            assert(t1.last() == q);
            assert((ps + rs).contains(q) <==> (ps.contains(q) || rs.contains(q))) by {
                if (ps + rs).contains(q) {
                    let j = choose|j: int| 0 <= j < (ps + rs).len() && (ps + rs)[j] == q;
                    if j < ps.len() {
                        assert(ps[j] == q);
                    } else {
                        assert(rs[j - ps.len()] == q);
                    }
                }
                if ps.contains(q) {
                    let j = choose|j: int| 0 <= j < ps.len() && ps[j] == q;
                    assert((ps + rs)[j] == q);
                }
                if rs.contains(q) {
                    let j = choose|j: int| 0 <= j < rs.len() && rs[j] == q;
                    assert((ps + rs)[ps.len() + j] == q);
                }
            }
        }
        if !held && !seen {
            r.push(p.clone());
            proof {
                assert(r@.map_values(|s: String| s@) =~= rs.push(q));
                assert(ps + rs.push(q) =~= (ps + rs).push(q));
            }
        }
        i = i + 1;
    }
    proof {
        assert(ns.take(i as int) =~= ns);
    }
    r
}

} // verus!
