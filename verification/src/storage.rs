//! Where segment files are kept: a small file-store interface, and an
//! implementation that keeps the files in memory.

use vstd::prelude::*;

use crate::assoc::{
    assoc_has, assoc_map, distinct_keys, lemma_assoc_at, lemma_assoc_empty, lemma_assoc_push,
    lemma_assoc_update,
};
use crate::parser::str_chars;

verus! {

/// Why a storage operation failed.
#[derive(Debug, Clone, PartialEq, Eq)]
pub enum StorageError {
    /// No file is stored at this path.
    NotFound(String),
    /// The operation failed for the reason given.
    Io(String),
}

/// A store of files named by `/`-separated paths.
pub trait Storage {
    fn create_dir_all(&mut self, path: &str) -> Result<(), StorageError>;

    fn write(&mut self, path: &str, data: &[u8]) -> Result<(), StorageError>;

    fn read(&self, path: &str) -> Result<Vec<u8>, StorageError>;

    fn remove_dir_all(&mut self, path: &str) -> Result<(), StorageError>;

    fn path_exists(&self, path: &str) -> bool;
}

/// Whether `p` is a prefix of `k`.
pub open spec fn has_prefix(k: Seq<char>, p: Seq<char>) -> bool {
    p.len() <= k.len() && k.subrange(0, p.len() as int) == p
}

/// Whether the file at `k` is `path` itself or lies in directory `path`.
pub open spec fn lies_under(k: Seq<char>, path: Seq<char>) -> bool {
    k == path || has_prefix(k, path + seq!['/'])
}

/// The files kept, as a map from path to contents.
pub type FileMap = Map<Seq<char>, Seq<u8>>;

/// The files of the list as (path, contents) pairs.
pub open spec fn file_list(files: Seq<(String, Vec<u8>)>) -> Seq<(Seq<char>, Seq<u8>)> {
    files.map_values(|e: (String, Vec<u8>)| (e.0@, e.1@))
}

/// Whether some file lies at or under `path`.
pub open spec fn dir_exists(m: FileMap, path: Seq<char>) -> bool {
    exists|k: Seq<char>| m.contains_key(k) && #[trigger] lies_under(k, path)
}

/// The files that do not lie at or under `path`.
pub open spec fn without_dir(m: FileMap, path: Seq<char>) -> FileMap {
    Map::new(|k: Seq<char>| m.contains_key(k) && !lies_under(k, path), |k: Seq<char>| m[k])
}

/// Files kept in memory; a directory exists while some file lies in it.
#[derive(Debug)]
pub struct MemoryStorage {
    files: Vec<(String, Vec<u8>)>,
}

/// A copy of the bytes.
fn copy_data(data: &[u8]) -> (v: Vec<u8>)
    ensures
        v@ == data@,
{
    let mut v: Vec<u8> = Vec::new();
    let mut i: usize = 0;
    while i < data.len()
        invariant
            i <= data@.len(),
            v@ =~= data@.take(i as int),
        decreases data@.len() - i,
    {
        v.push(data[i]);
        i = i + 1;
    }
    assert(data@.take(i as int) =~= data@);
    v
}

/// Whether `k` is `path` or starts with `path` and a `/`.
fn under(k: &String, path: &str) -> (b: bool)
    ensures
        b == lies_under(k@, path@),
{
    let kc = str_chars(k.as_str());
    let pc = str_chars(path);
    let n = pc.len();
    if kc.len() < n {
        proof {
            assert(!has_prefix(k@, path@ + seq!['/']));
            assert(k@ != path@);
        }
        return false;
    }
    let mut i: usize = 0;
    while i < n
        invariant
            kc@ == k@,
            pc@ == path@,
            n == pc@.len(),
            n <= kc@.len(),
            i <= n,
            forall|j: int| 0 <= j < i ==> kc@[j] == pc@[j],
        decreases n - i,
    {
        if kc[i] != pc[i] {
            proof {
                assert(k@[i as int] != path@[i as int]);
                assert(k@ != path@);
                assert(!has_prefix(k@, path@ + seq!['/'])) by {
                    if has_prefix(k@, path@ + seq!['/']) {
                        assert(k@.subrange(0, n + 1)[i as int] == k@[i as int]);
                        assert((path@ + seq!['/'])[i as int] == path@[i as int]);
                    }
                }
            }
            return false;
        }
        i = i + 1;
    }
    proof {
        assert(k@.subrange(0, n as int) =~= path@);
    }
    if kc.len() == n {
        proof {
            assert(k@ =~= path@);
        }
        true
    } else {
        let b = kc[n] == '/';
        proof {
            if b {
                assert(k@.subrange(0, n + 1) =~= path@ + seq!['/']);
            } else {
                assert(k@.subrange(0, n + 1)[n as int] != (path@ + seq!['/'])[n as int]);
                assert(k@ != path@);
            }
        }
        b
    }
}

impl MemoryStorage {
    /// The files kept.
    pub closed spec fn files(&self) -> FileMap {
        assoc_map(file_list(self.files@))
    }

    #[verifier::type_invariant]
    closed spec fn wf(&self) -> bool {
        distinct_keys(file_list(self.files@))
    }

    /// A store with no files.
    pub fn new() -> (s: Self)
        ensures
            s.files() == FileMap::empty(),
    {
        let s = MemoryStorage { files: Vec::new() };
        proof {
            assert(file_list(s.files@) =~= Seq::<(Seq<char>, Seq<u8>)>::empty());
            lemma_assoc_empty(file_list(s.files@));
        }
        s
    }

    fn find(files: &Vec<(String, Vec<u8>)>, path: &str) -> (r: Option<usize>)
        requires
            distinct_keys(file_list(files@)),
        ensures
            match r {
                Some(i) => i < files@.len() && files@[i as int].0@ == path@,
                None => !assoc_has(file_list(files@), path@),
            },
    {
        let owned = path.to_owned();
        let mut i: usize = 0;
        while i < files.len()
            invariant
                owned@ == path@,
                i <= files@.len(),
                forall|j: int| 0 <= j < i ==> file_list(files@)[j].0 != path@,
            decreases files@.len() - i,
        {
            if files[i].0 == owned {
                return Some(i);
            }
            i = i + 1;
        }
        None
    }
}

impl Storage for MemoryStorage {
    /// Directories need no creating here.
    fn create_dir_all(&mut self, path: &str) -> (r: Result<(), StorageError>)
        ensures
            r is Ok,
            final(self).files() == old(self).files(),
    {
        Ok(())
    }

    /// Stores `data` at `path`, replacing what was there.
    fn write(&mut self, path: &str, data: &[u8]) -> (r: Result<(), StorageError>)
        ensures
            r is Ok,
            final(self).files() == old(self).files().insert(path@, data@),
    {
        proof {
            use_type_invariant(&*self);
        }
        let mut files: Vec<(String, Vec<u8>)> = Vec::new();
        std::mem::swap(&mut files, &mut self.files);
        let ghost old_list = file_list(files@);
        let bytes = copy_data(data);
        match Self::find(&files, path) {
            Some(i) => {
                let (k, _) = files.remove(i);
                files.insert(i, (k, bytes));
                proof {
                    assert(file_list(files@) =~= old_list.update(i as int, (old_list[i as int].0, data@)));
                    lemma_assoc_update(old_list, i as int, data@);
                }
            },
            None => {
                files.push((path.to_owned(), bytes));
                proof {
                    assert(file_list(files@) =~= old_list.push((path@, data@)));
                    lemma_assoc_push(old_list, path@, data@);
                }
            },
        }
        self.files = files;
        Ok(())
    }

    /// The contents stored at `path`; an error naming the path when there
    /// are none.
    fn read(&self, path: &str) -> (r: Result<Vec<u8>, StorageError>)
        ensures
            self.files().contains_key(path@) ==> (r matches Ok(v) && v@ == self.files()[path@]),
            !self.files().contains_key(path@) ==> (r matches Err(StorageError::NotFound(p)) && p@
                == path@),
    {
        proof {
            use_type_invariant(self);
        }
        match Self::find(&self.files, path) {
            Some(i) => {
                proof {
                    lemma_assoc_at(file_list(self.files@), i as int);
                }
                Ok(copy_data(self.files[i].1.as_slice()))
            },
            None => Err(StorageError::NotFound(path.to_owned())),
        }
    }

    /// Removes every file at or under `path`.
    fn remove_dir_all(&mut self, path: &str) -> (r: Result<(), StorageError>)
        ensures
            r is Ok,
            final(self).files() == without_dir(old(self).files(), path@),
    {
        proof {
            use_type_invariant(&*self);
        }
        let mut files: Vec<(String, Vec<u8>)> = Vec::new();
        std::mem::swap(&mut files, &mut self.files);
        let ghost old_list = file_list(files@);
        let ghost old_map = assoc_map(old_list);
        let mut kept: Vec<(String, Vec<u8>)> = Vec::new();
        proof {
            lemma_assoc_empty(file_list(kept@));
        }
        while files.len() > 0
            invariant
                distinct_keys(file_list(files@)),
                distinct_keys(file_list(kept@)),
                forall|k: Seq<char>| #[trigger] assoc_has(file_list(kept@), k) ==> !assoc_has(
                    file_list(files@),
                    k,
                ),
                forall|k: Seq<char>| #[trigger] old_map.contains_key(k) == (assoc_has(file_list(files@), k)
                    || assoc_has(file_list(kept@), k) || (old_map.contains_key(k) && lies_under(k, path@))),
                forall|k: Seq<char>| #[trigger] assoc_has(file_list(files@), k) ==> old_map.contains_key(k)
                    && assoc_map(file_list(files@))[k] == old_map[k],
                assoc_map(file_list(kept@)) == Map::new(
                    |k: Seq<char>| old_map.contains_key(k) && !lies_under(k, path@) && !assoc_has(
                        file_list(files@),
                        k,
                    ),
                    |k: Seq<char>| old_map[k],
                ),
            decreases files@.len(),
        {
            let ghost before_files = file_list(files@);
            let ghost before_kept = file_list(kept@);
            let last = files.len() - 1;
            proof {
                lemma_assoc_at(before_files, last as int);
            }
            let (k, v) = files.pop().unwrap();
            let ghost kv = k@;
            proof {
                assert(file_list(files@) =~= before_files.drop_last());
                assert(!assoc_has(file_list(files@), kv)) by {
                    if assoc_has(file_list(files@), kv) {
                        let j = choose|j: int| 0 <= j < file_list(files@).len() && file_list(files@)[j].0 == kv;
                        assert(before_files[j].0 != before_files[last as int].0);
                    }
                }
                assert forall|x: Seq<char>| #[trigger] assoc_has(file_list(files@), x) implies assoc_map(
                    file_list(files@),
                )[x] == assoc_map(before_files)[x] && assoc_has(before_files, x) by {
                    let j = choose|j: int| 0 <= j < file_list(files@).len() && file_list(files@)[j].0 == x;
                    assert(before_files[j].0 == x);
                    lemma_assoc_at(file_list(files@), j);
                    lemma_assoc_at(before_files, j);
                }
                assert forall|x: Seq<char>| #[trigger] assoc_has(before_files, x) implies (assoc_has(
                    file_list(files@),
                    x,
                ) || x == kv) by {
                    let j = choose|j: int| 0 <= j < before_files.len() && before_files[j].0 == x;
                    if j < last {
                        assert(file_list(files@)[j].0 == x);
                    }
                }
            }
            if !under(&k, path) {
                kept.push((k, v));
                proof {
                    assert(file_list(kept@) =~= before_kept.push((kv, before_files[last as int].1)));
                    assert(!assoc_has(before_kept, kv));
                    lemma_assoc_push(before_kept, kv, before_files[last as int].1);
                }
            }
            proof {
                assert forall|x: Seq<char>| #[trigger] assoc_has(file_list(kept@), x) implies !assoc_has(
                    file_list(files@),
                    x,
                ) by {
                    if x != kv {
                        assert(assoc_has(before_kept, x)) by {
                            let j = choose|j: int| 0 <= j < file_list(kept@).len() && file_list(kept@)[j].0 == x;
                            assert(before_kept[j].0 == x);
                        }
                        assert(!assoc_has(before_files, x));
                    }
                }
                assert forall|x: Seq<char>| #[trigger] old_map.contains_key(x) implies (assoc_has(
                    file_list(files@),
                    x,
                ) || assoc_has(file_list(kept@), x) || (old_map.contains_key(x) && lies_under(x, path@))) by {
                    if assoc_has(before_kept, x) {
                        let j = choose|j: int| 0 <= j < before_kept.len() && before_kept[j].0 == x;
                        assert(file_list(kept@)[j].0 == x);
                    }
                    if x == kv && !lies_under(x, path@) {
                        assert(file_list(kept@)[file_list(kept@).len() - 1].0 == x);
                    }
                }
                assert forall|x: Seq<char>| (assoc_has(file_list(files@), x) || #[trigger] assoc_has(
                    file_list(kept@),
                    x,
                )) implies old_map.contains_key(x) by {
                    if assoc_has(file_list(kept@), x) && x != kv {
                        let j = choose|j: int| 0 <= j < file_list(kept@).len() && file_list(kept@)[j].0 == x;
                        assert(before_kept[j].0 == x);
                    }
                }
                assert(assoc_map(file_list(kept@)) =~= Map::new(
                    |x: Seq<char>| old_map.contains_key(x) && !lies_under(x, path@) && !assoc_has(
                        file_list(files@),
                        x,
                    ),
                    |x: Seq<char>| old_map[x],
                ));
            }
        }
        proof {
            assert(assoc_map(file_list(kept@)) =~= without_dir(old_map, path@));
        }
        self.files = kept;
        Ok(())
    }

    /// Whether a file lies at or under `path`.
    fn path_exists(&self, path: &str) -> (b: bool)
        ensures
            b == dir_exists(self.files(), path@),
    {
        proof {
            use_type_invariant(self);
        }
        let ghost l = file_list(self.files@);
        let mut i: usize = 0;
        while i < self.files.len()
            invariant
                l == file_list(self.files@),
                distinct_keys(l),
                i <= self.files@.len(),
                forall|j: int| 0 <= j < i ==> !lies_under(#[trigger] l[j].0, path@),
            decreases self.files@.len() - i,
        {
            if under(&self.files[i].0, path) {
                proof {
                    lemma_assoc_at(l, i as int);
                    assert(lies_under(l[i as int].0, path@));
                }
                return true;
            }
            i = i + 1;
        }
        proof {
            assert forall|k: Seq<char>| assoc_map(l).contains_key(k) implies !#[trigger] lies_under(k, path@) by {
                let j = choose|j: int| 0 <= j < l.len() && l[j].0 == k;
                assert(!lies_under(l[j].0, path@));
            }
        }
        false
    }
}

/// A read after a write gives back what was written, and the write leaves
/// the other files as they were.
pub proof fn lemma_read_after_write(m: FileMap, path: Seq<char>, data: Seq<u8>, other: Seq<char>)
    ensures
        m.insert(path, data).contains_key(path),
        m.insert(path, data)[path] == data,
        other != path ==> (m.insert(path, data).contains_key(other) == m.contains_key(other)
            && (m.contains_key(other) ==> m.insert(path, data)[other] == m[other])),
{
}

/// After a directory is removed, nothing lies under it, and every file
/// outside it is kept as it was.
pub proof fn lemma_removed_dir(m: FileMap, path: Seq<char>, k: Seq<char>)
    ensures
        !dir_exists(without_dir(m, path), path),
        !lies_under(k, path) ==> (without_dir(m, path).contains_key(k) == m.contains_key(k) && (
        m.contains_key(k) ==> without_dir(m, path)[k] == m[k])),
{
}

} // verus!
