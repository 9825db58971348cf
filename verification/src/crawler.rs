//! Which files the crawler indexes: those whose extension names a text or
//! source format.

use vstd::prelude::*;

verus! {

/// The extensions of the files that are indexed.
pub open spec fn indexable_extensions() -> Seq<Seq<char>> {
    seq!["txt"@, "html"@, "htm"@, "rs"@, "c"@, "cc"@, "cpp"@, "h"@, "hpp"@, "md"@]
}

/// What `std::path::Path::extension` gives for the path, as text.
pub uninterp spec fn path_extension(path: Seq<char>) -> Option<Seq<char>>;

/// Calls `Path::new(path).extension()` and reads the extension as text.
/// Claimed: the result is the one `path_extension` names for the path.
#[verifier::external_body]
fn extension_of(path: &str) -> (r: Option<&str>)
    ensures
        match r {
            Some(e) => path_extension(path@) == Some(e@),
            None => path_extension(path@) is None,
        },
{
    std::path::Path::new(path).extension().and_then(|e| e.to_str())
}

fn same_text(a: &str, b: &str) -> (r: bool)
    ensures
        r == (a@ == b@),
{
    a.to_owned() == b.to_owned()
}

/// Whether an extension is one of the indexed ones (case matters).
pub fn is_indexable_extension(ext: &str) -> (b: bool)
    ensures
        b == indexable_extensions().contains(ext@),
{
    let names = ["txt", "html", "htm", "rs", "c", "cc", "cpp", "h", "hpp", "md"];
    proof {
        reveal_strlit("txt");
        reveal_strlit("html");
        reveal_strlit("htm");
        reveal_strlit("rs");
        reveal_strlit("c");
        reveal_strlit("cc");
        reveal_strlit("cpp");
        reveal_strlit("h");
        reveal_strlit("hpp");
        reveal_strlit("md");
        assert(names@.map_values(|s: &str| s@) =~= indexable_extensions());
    }
    let mut i: usize = 0;
    while i < 10
        invariant
            i <= 10,
            names@.map_values(|s: &str| s@) == indexable_extensions(),
            forall|j: int| 0 <= j < i ==> indexable_extensions()[j] != ext@,
        decreases 10 - i,
    {
        if same_text(names[i], ext) {
            assert(indexable_extensions()[i as int] == ext@);
            return true;
        }
        i = i + 1;
    }
    false
}

/// Whether the file at `path` is indexed: its extension is one of the
/// indexed ones.
pub fn is_indexable_file(path: &str) -> (b: bool)
    ensures
        b == (path_extension(path@) matches Some(e) && indexable_extensions().contains(e)),
{
    match extension_of(path) {
        Some(e) => is_indexable_extension(e),
        None => false,
    }
}

/// The files indexed are exactly those with one of the extensions `txt`,
/// `html`, `htm`, `rs`, `c`, `cc`, `cpp`, `h`, `hpp` and `md`.
pub proof fn lemma_indexable_extensions(e: Seq<char>)
    ensures
        indexable_extensions().contains(e) <==> (e == "txt"@ || e == "html"@ || e == "htm"@ || e
            == "rs"@ || e == "c"@ || e == "cc"@ || e == "cpp"@ || e == "h"@ || e == "hpp"@ || e
            == "md"@),
{
    let xs = indexable_extensions();
    assert(xs[0] == "txt"@ && xs[1] == "html"@ && xs[2] == "htm"@ && xs[3] == "rs"@);
    assert(xs[4] == "c"@ && xs[5] == "cc"@ && xs[6] == "cpp"@ && xs[7] == "h"@);
    assert(xs[8] == "hpp"@ && xs[9] == "md"@);
    if xs.contains(e) {
        let i = choose|i: int| 0 <= i < xs.len() && xs[i] == e;
        assert(0 <= i < 10);
    }
}

} // verus!
