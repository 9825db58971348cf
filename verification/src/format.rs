//! The records that make up a segment index, and segment naming.

use vstd::prelude::*;

use crate::doctable::DocTable;
use crate::memindex::InvertedIndex;
use crate::parser::{push_char, str_chars};
use crate::postings::{DocId, Position};

verus! {

pub const MANIFEST_VERSION: u32 = 1;

pub const SEGMENT_META_VERSION: u32 = 1;

pub const SEGMENT_TERMS_VERSION: u32 = 1;

pub const SEGMENT_DOC_META_VERSION: u32 = 1;

/// An immutable part of the index: its documents and their postings.
#[derive(Debug)]
pub struct Segment {
    pub id: String,
    pub doctable: DocTable,
    pub index: InvertedIndex,
}

/// The segments of an index, oldest first.
#[derive(Debug)]
pub struct Manifest {
    pub version: u32,
    pub segments: Vec<String>,
}

/// The document table of a segment as stored.
#[derive(Debug)]
pub struct SegmentDocs {
    pub doctable: DocTable,
}

/// Where the postings of a term lie in a segment's postings bytes.
#[derive(Debug, Clone)]
pub struct TermEntry {
    pub term: String,
    pub offset: u64,
    pub len: u64,
    pub doc_freq: usize,
}

/// The term dictionary of a segment as stored.
#[derive(Debug)]
pub struct SegmentTerms {
    pub version: u32,
    pub terms: Vec<TermEntry>,
}

/// The postings of one term as plain pairs.
#[derive(Debug)]
pub struct TermPostings {
    pub docs: Vec<(DocId, Vec<Position>)>,
}

/// Counts that describe a segment.
#[derive(Debug, Clone)]
pub struct SegmentMeta {
    pub version: u32,
    pub id: String,
    pub doc_count: usize,
    pub term_count: usize,
    pub posting_count: usize,
    pub position_count: usize,
    pub postings_size: u64,
}

/// The number of positions of one document in a segment.
#[derive(Debug, Clone, Copy)]
pub struct DocMetaEntry {
    pub doc_id: DocId,
    pub doc_len: usize,
}

/// The document lengths of a segment, by increasing document id.
#[derive(Debug)]
pub struct SegmentDocMeta {
    pub version: u32,
    pub docs: Vec<DocMetaEntry>,
}

/// A segment as held in memory for reading: its documents, its term
/// dictionary, its postings bytes, its counts and its document lengths.
pub struct SegmentData {
    pub id: String,
    pub docs: DocTable,
    pub terms: Vec<TermEntry>,
    pub postings: Vec<u8>,
    pub meta: SegmentMeta,
    pub doc_lens: Vec<(DocId, usize)>,
}

impl SegmentMeta {
    /// Adds the counts of `other` to these.
    pub fn accumulate(&mut self, other: &SegmentMeta)
        requires
            old(self).doc_count + other.doc_count <= usize::MAX,
            old(self).term_count + other.term_count <= usize::MAX,
            old(self).posting_count + other.posting_count <= usize::MAX,
            old(self).position_count + other.position_count <= usize::MAX,
            old(self).postings_size + other.postings_size <= u64::MAX,
        ensures
            final(self).version == old(self).version,
            final(self).id == old(self).id,
            final(self).doc_count == old(self).doc_count + other.doc_count,
            final(self).term_count == old(self).term_count + other.term_count,
            final(self).posting_count == old(self).posting_count + other.posting_count,
            final(self).position_count == old(self).position_count + other.position_count,
            final(self).postings_size == old(self).postings_size + other.postings_size,
    {
        self.doc_count = self.doc_count + other.doc_count;
        self.term_count = self.term_count + other.term_count;
        self.posting_count = self.posting_count + other.posting_count;
        self.position_count = self.position_count + other.position_count;
        self.postings_size = self.postings_size + other.postings_size;
    }
}

/// Whether `c` is an ASCII digit.
pub open spec fn is_digit(c: char) -> bool {
    '0' <= c && c <= '9'
}

/// The number that a string of decimal digits writes.
pub open spec fn digits_value(ds: Seq<char>) -> int
    decreases ds.len(),
{
    if ds.len() == 0 {
        0
    } else {
        10 * digits_value(ds.drop_last()) + (ds.last() as int - '0' as int)
    }
}

/// Every character is an ASCII digit.
pub open spec fn all_digits(s: Seq<char>) -> bool {
    forall|i: int| 0 <= i < s.len() ==> is_digit(#[trigger] s[i])
}

/// What `str::parse::<usize>` gives: an optional `+`, then one or more
/// decimal digits whose value fits in `usize`.
pub open spec fn parse_usize(s: Seq<char>) -> Option<int> {
    let body = if s.len() > 0 && s[0] == '+' {
        s.drop_first()
    } else {
        s
    };
    if body.len() == 0 || !all_digits(body) {
        None
    } else if digits_value(body) > usize::MAX {
        None
    } else {
        Some(digits_value(body))
    }
}

/// The number of a segment id `seg_<n>`, if it has that form.
pub open spec fn segment_number(id: Seq<char>) -> Option<int> {
    if id.len() >= 4 && id.take(4) == "seg_"@ {
        parse_usize(id.skip(4))
    } else {
        None
    }
}

/// The largest segment number among the ids, 0 when there is none.
pub open spec fn max_segment_number_of(ids: Seq<Seq<char>>) -> int
    decreases ids.len(),
{
    if ids.len() == 0 {
        0
    } else {
        let rest = max_segment_number_of(ids.drop_last());
        match segment_number(ids.last()) {
            Some(n) => if n > rest {
                n
            } else {
                rest
            },
            None => rest,
        }
    }
}

/// The decimal digits of `n`, without leading zeros.
pub open spec fn decimal(n: nat) -> Seq<char>
    decreases n,
{
    if n < 10 {
        seq![((n + 48) as u8) as char]
    } else {
        decimal(n / 10).push((((n % 10) + 48) as u8) as char)
    }
}

/// `s` with zeros in front, to at least `width` characters.
pub open spec fn zero_padded(s: Seq<char>, width: nat) -> Seq<char> {
    Seq::new(if s.len() < width { (width - s.len()) as nat } else { 0 }, |i: int| '0') + s
}

/// The ids of the manifest as plain values.
pub open spec fn manifest_ids(m: &Manifest) -> Seq<Seq<char>> {
    m.segments@.map_values(|s: String| s@)
}

proof fn lemma_digits_prefix(ds: Seq<char>, i: int)
    requires
        0 <= i <= ds.len(),
        forall|k: int| 0 <= k < ds.len() ==> is_digit(#[trigger] ds[k]),
    ensures
        0 <= digits_value(ds.take(i)) <= digits_value(ds),
    decreases ds.len(),
{
    if i < ds.len() {
        let init = ds.drop_last();
        assert(init.take(i) =~= ds.take(i));
        lemma_digits_prefix(init, i);
        lemma_digits_prefix(init, init.len() as int);
        assert(init.take(init.len() as int) =~= init);
    } else {
        assert(ds.take(i) =~= ds);
        if ds.len() > 0 {
            lemma_digits_prefix(ds.drop_last(), ds.len() - 1);
            assert(ds.drop_last().take(ds.len() - 1) =~= ds.drop_last());
        }
    }
}

/// `str::parse::<usize>` on the characters.
pub(crate) fn parse_usize_chars(s: &[char]) -> (r: Option<usize>)
    ensures
        match parse_usize(s@) {
            Some(v) => r matches Some(x) && x == v,
            None => r is None,
        },
{
    let mut start: usize = 0;
    if s.len() > 0 && s[0] == '+' {
        start = 1;
    }
    let ghost body = if s@.len() > 0 && s@[0] == '+' {
        s@.drop_first()
    } else {
        s@
    };
    proof {
        assert(body =~= s@.skip(start as int));
    }
    if start >= s.len() {
        return None;
    }
    let mut value: usize = 0;
    let mut i: usize = start;
    while i < s.len()
        invariant
            start <= i <= s@.len(),
            body =~= s@.skip(start as int),
            body == (if s@.len() > 0 && s@[0] == '+' {
                s@.drop_first()
            } else {
                s@
            }),
            forall|k: int| start <= k < i ==> is_digit(#[trigger] s@[k]),
            value == digits_value(s@.subrange(start as int, i as int)),
        decreases s@.len() - i,
    {
        let c = s[i];
        if !('0' <= c && c <= '9') {
            proof {
                assert(body[i - start] == c);
                assert(!is_digit(body[i - start]));
                assert(!all_digits(body));
                assert(parse_usize(s@) is None);
            }
            return None;
        }
        let d = (c as u32 - '0' as u32) as usize;
        proof {
            assert(s@.subrange(start as int, i + 1).drop_last() =~= s@.subrange(
                start as int,
                i as int,
            ));
        }
        if value > (usize::MAX - d) / 10 {
            proof {
                if all_digits(body) {
                    assert(body.take(i + 1 - start) =~= s@.subrange(start as int, i + 1));
                    lemma_digits_prefix(body, i + 1 - start);
                    assert(digits_value(s@.subrange(start as int, i + 1)) == 10 * value + d);
                    assert(10 * value + d > usize::MAX) by (nonlinear_arith)
                        requires
                            value > (usize::MAX - d) / 10,
                            d <= 9,
                    ;
                    assert(parse_usize(s@) is None);
                }
                assert(parse_usize(s@) is None);
            }
            return None;
        }
        assert(10 * value + d <= usize::MAX) by (nonlinear_arith)
            requires
                value <= (usize::MAX - d) / 10,
                d <= 9,
        ;
        value = 10 * value + d;
        i = i + 1;
    }
    proof {
        assert(s@.subrange(start as int, i as int) =~= body);
    }
    Some(value)
}

/// The number written after `seg_` in `id`, if `id` has that form.
fn segment_number_of(id: &String) -> (r: Option<usize>)
    ensures
        match segment_number(id@) {
            Some(v) => r matches Some(x) && x == v,
            None => r is None,
        },
{
    let chars = str_chars(id.as_str());
    let prefix = str_chars("seg_");
    proof {
        reveal_strlit("seg_");
    }
    if chars.len() < prefix.len() {
        return None;
    }
    let mut i: usize = 0;
    while i < prefix.len()
        invariant
            i <= prefix@.len() <= chars@.len(),
            prefix@ == "seg_"@,
            prefix@.len() == 4,
            chars@ == id@,
            forall|k: int| 0 <= k < i ==> chars@[k] == prefix@[k],
        decreases prefix@.len() - i,
    {
        if chars[i] != prefix[i] {
            proof {
                assert(chars@.take(4)[i as int] != prefix@[i as int]);
            }
            return None;
        }
        i = i + 1;
    }
    proof {
        assert(chars@.take(4) =~= prefix@);
    }
    let mut rest: Vec<char> = Vec::new();
    let mut j: usize = prefix.len();
    while j < chars.len()
        invariant
            4 <= j <= chars@.len(),
            prefix@.len() == 4,
            rest@ =~= chars@.subrange(4, j as int),
        decreases chars@.len() - j,
    {
        rest.push(chars[j]);
        j = j + 1;
    }
    proof {
        assert(rest@ =~= chars@.skip(4));
    }
    parse_usize_chars(rest.as_slice())
}

/// The largest number among the manifest's `seg_<n>` ids, 0 when none has
/// that form.
pub fn max_segment_number(manifest: &Manifest) -> (n: usize)
    ensures
        n == max_segment_number_of(manifest_ids(manifest)),
{
    let ghost ids = manifest_ids(manifest);
    let mut best: usize = 0;
    let mut i: usize = 0;
    while i < manifest.segments.len()
        invariant
            ids == manifest_ids(manifest),
            i <= manifest.segments@.len(),
            best == max_segment_number_of(ids.take(i as int)),
        decreases manifest.segments@.len() - i,
    {
        proof {
            assert(ids.take(i + 1).drop_last() =~= ids.take(i as int));
            assert(ids.take(i + 1).last() == manifest.segments@[i as int]@);
        }
        match segment_number_of(&manifest.segments[i]) {
            Some(n) => {
                if n > best {
                    best = n;
                }
            },
            None => {},
        }
        i = i + 1;
    }
    proof {
        assert(ids.take(i as int) =~= ids);
    }
    best
}

/// The decimal digits of `n`.
fn decimal_digits(n: usize) -> (ds: Vec<char>)
    ensures
        ds@ == decimal(n as nat),
    decreases n,
{
    if n < 10 {
        let mut ds: Vec<char> = Vec::new();
        ds.push(((n as u8) + 48) as char);
        ds
    } else {
        let mut ds = decimal_digits(n / 10);
        ds.push((((n % 10) as u8) + 48) as char);
        ds
    }
}

/// The id after the largest `seg_<n>` id of the manifest: `seg_` and the
/// number one above, in at least six digits.
pub fn next_segment_id(manifest: &Manifest) -> (id: String)
    requires
        max_segment_number_of(manifest_ids(manifest)) < usize::MAX,
    ensures
        id@ == next_id_for(manifest_ids(manifest)),
{
    let next = max_segment_number(manifest) + 1;
    let digits = decimal_digits(next);
    let prefix = str_chars("seg_");
    proof {
        reveal_strlit("seg_");
    }
    let mut out = String::new();
    let mut i: usize = 0;
    while i < prefix.len()
        invariant
            i <= prefix@.len(),
            out@ =~= prefix@.take(i as int),
        decreases prefix@.len() - i,
    {
        push_char(&mut out, prefix[i]);
        i = i + 1;
    }
    proof {
        assert(prefix@.take(i as int) =~= prefix@);
    }
    let pad = if digits.len() < 6 {
        6 - digits.len()
    } else {
        0
    };
    let mut k: usize = 0;
    while k < pad
        invariant
            k <= pad,
            out@ =~= prefix@ + Seq::new(k as nat, |j: int| '0'),
        decreases pad - k,
    {
        push_char(&mut out, '0');
        k = k + 1;
    }
    let mut j: usize = 0;
    while j < digits.len()
        invariant
            j <= digits@.len(),
            out@ =~= prefix@ + Seq::new(pad as nat, |x: int| '0') + digits@.take(j as int),
        decreases digits@.len() - j,
    {
        push_char(&mut out, digits[j]);
        j = j + 1;
    }
    proof {
        assert(digits@.take(j as int) =~= digits@);
        assert(out@ =~= "seg_"@ + zero_padded(digits@, 6));
    }
    out
}

/// The id that follows the segments `ids`: `seg_` and the number one above
/// the largest, in at least six digits.
pub open spec fn next_id_for(ids: Seq<Seq<char>>) -> Seq<char> {
    "seg_"@ + zero_padded(decimal((max_segment_number_of(ids) + 1) as nat), 6)
}

proof fn lemma_decimal(n: nat)
    ensures
        decimal(n).len() > 0,
        all_digits(decimal(n)),
        digits_value(decimal(n)) == n,
        decimal(n)[0] != '+',
    decreases n,
{
    assert('0' as int == 48);
    if n < 10 {
        let c = ((n + 48) as u8) as char;
        assert(c as int == n + 48);
        assert(decimal(n) =~= seq![c]);
        assert(seq![c].drop_last() =~= Seq::<char>::empty());
        assert(digits_value(Seq::<char>::empty()) == 0);
        assert(digits_value(seq![c]) == 10 * digits_value(seq![c].drop_last()) + (seq![c].last() as int
            - '0' as int));
    } else {
        lemma_decimal(n / 10);
        let c = (((n % 10) + 48) as u8) as char;
        assert(c as int == n % 10 + 48);
        let d = decimal(n);
        assert(d.drop_last() =~= decimal(n / 10));
        assert(d.last() == c);
        assert(digits_value(d) == 10 * digits_value(d.drop_last()) + (d.last() as int - '0' as int));
        assert(n == 10 * (n / 10) + n % 10);
        assert forall|i: int| 0 <= i < d.len() implies is_digit(#[trigger] d[i]) by {
            if i < d.len() - 1 {
                assert(d[i] == decimal(n / 10)[i]);
            }
        }
    }
}

proof fn lemma_leading_zero(s: Seq<char>)
    ensures
        digits_value(seq!['0'] + s) == digits_value(s),
    decreases s.len(),
{
    if s.len() == 0 {
        assert(seq!['0'] + s =~= seq!['0']);
        assert(seq!['0'].drop_last() =~= Seq::<char>::empty());
        assert('0' as int == 48);
        assert(digits_value(seq!['0']) == 10 * digits_value(seq!['0'].drop_last()) + (seq!['0'].last() as int
            - '0' as int));
    } else {
        lemma_leading_zero(s.drop_last());
        let t = seq!['0'] + s;
        assert(t.drop_last() =~= seq!['0'] + s.drop_last());
        assert(t.last() == s.last());
        assert(digits_value(t) == 10 * digits_value(t.drop_last()) + (t.last() as int - '0' as int));
    }
}

proof fn lemma_zeros(k: nat, s: Seq<char>)
    ensures
        digits_value(Seq::new(k, |i: int| '0') + s) == digits_value(s),
    decreases k,
{
    if k > 0 {
        let z = Seq::new(k, |i: int| '0');
        let z1 = Seq::new((k - 1) as nat, |i: int| '0');
        assert(z + s =~= seq!['0'] + (z1 + s));
        lemma_leading_zero(z1 + s);
        lemma_zeros((k - 1) as nat, s);
    } else {
        assert(Seq::new(k, |i: int| '0') + s =~= s);
    }
}

proof fn lemma_max_nonneg(ids: Seq<Seq<char>>)
    ensures
        max_segment_number_of(ids) >= 0,
    decreases ids.len(),
{
    if ids.len() > 0 {
        lemma_max_nonneg(ids.drop_last());
    }
}

proof fn lemma_max_bounds(ids: Seq<Seq<char>>, i: int)
    requires
        0 <= i < ids.len(),
        segment_number(ids[i]) is Some,
    ensures
        segment_number(ids[i])->0 <= max_segment_number_of(ids),
    decreases ids.len(),
{
    if i < ids.len() - 1 {
        lemma_max_bounds(ids.drop_last(), i);
    }
}

/// The id after the segments of a manifest is the one with the next number,
/// and it is none of the ids held: a new segment never takes the name of
/// one that exists.
pub proof fn lemma_next_id_is_new(ids: Seq<Seq<char>>)
    requires
        max_segment_number_of(ids) < usize::MAX,
    ensures
        segment_number(next_id_for(ids)) == Some(max_segment_number_of(ids) + 1),
        !ids.contains(next_id_for(ids)),
{
    lemma_max_nonneg(ids);
    let n = (max_segment_number_of(ids) + 1) as nat;
    let digits = decimal(n);
    let body = zero_padded(digits, 6);
    let id = next_id_for(ids);
    reveal_strlit("seg_");
    lemma_decimal(n);
    lemma_zeros(if digits.len() < 6 { (6 - digits.len()) as nat } else { 0 }, digits);
    assert(id.take(4) =~= "seg_"@);
    assert(id.skip(4) =~= body);
    assert(all_digits(body)) by {
        assert forall|i: int| 0 <= i < body.len() implies is_digit(#[trigger] body[i]) by {
            let z = if digits.len() < 6 { (6 - digits.len()) as int } else { 0 };
            if i >= z {
                assert(body[i] == digits[i - z]);
            }
        }
    }
    assert(body[0] != '+') by {
        assert(is_digit(body[0]));
    }
    assert(body =~= Seq::new(
        if digits.len() < 6 {
            (6 - digits.len()) as nat
        } else {
            0
        },
        |i: int| '0',
    ) + digits);
    assert(body.len() > 0);
    assert(digits_value(body) == n);
    assert(n <= usize::MAX);
    assert(parse_usize(body) == Some(n as int));
    assert(segment_number(id) == Some(n as int));
    if ids.contains(id) {
        let i = choose|i: int| 0 <= i < ids.len() && ids[i] == id;
        lemma_max_bounds(ids, i);
    }
}

} // verus!
