//! The order in which the terms of a query are walked: rarest first, so
//! that the shortest posting list drives the search.

use vstd::prelude::*;

use crate::codec::PostingCodec;
use crate::reader::{last_entry, SegmentReader};

verus! {

/// The key a term is ordered by: its document frequency in the segment,
/// `usize::MAX` when the segment's dictionary does not name it.
pub open spec fn df_key<C: PostingCodec>(reader: SegmentReader<C>, t: Seq<char>) -> usize {
    match last_entry(reader.data_terms(), t, reader.data_terms().len() as int) {
        Some(i) => reader.data_terms()[i].doc_freq,
        None => usize::MAX,
    }
}

/// The keys of the terms, in order.
pub open spec fn term_keys<C: PostingCodec>(reader: SegmentReader<C>, terms: Seq<String>) -> Seq<usize> {
    terms.map_values(|t: String| df_key(reader, t@))
}

/// `p` lists the indices of `keys` once each, in nondecreasing order of key,
/// indices with equal keys in increasing order: the order a stable sort by
/// key gives.
pub open spec fn stable_order(p: Seq<int>, keys: Seq<usize>) -> bool {
    &&& p.len() == keys.len()
    &&& forall|k: int| 0 <= k < p.len() ==> 0 <= #[trigger] p[k] < keys.len()
    &&& forall|a: int, b: int| 0 <= a < b < p.len() ==> p[a] != p[b]
    &&& forall|a: int, b: int| 0 <= a < b < p.len() ==> keys[p[a]] <= keys[p[b]]
    &&& forall|a: int, b: int|
        0 <= a < b < p.len() && keys[p[a]] == keys[p[b]] ==> p[a] < p[b]
}

/// The terms of a query in the order they are walked.
pub struct QueryPlan<'a> {
    terms: Vec<&'a str>,
}

impl<'a> QueryPlan<'a> {
    /// The terms, in order.
    pub closed spec fn term_seq(&self) -> Seq<&'a str> {
        self.terms@
    }

    /// The terms ordered by document frequency in the segment, rarest first;
    /// terms the segment lacks come last; ties keep the query's order.
    pub fn for_all_terms<C: PostingCodec>(reader: &SegmentReader<C>, terms: &'a [String]) -> (plan:
        Self)
        ensures
            plan.term_seq().len() == terms@.len(),
            exists|p: Seq<int>|
                #[trigger] stable_order(p, term_keys(*reader, terms@))
                    && forall|k: int| 0 <= k < p.len() ==> (#[trigger] plan.term_seq()[k])@ == terms@[p[k]]@,
    {
        let ghost keys_spec = term_keys(*reader, terms@);
        let mut keys: Vec<usize> = Vec::new();
        let mut i: usize = 0;
        while i < terms.len()
            invariant
                i <= terms@.len(),
                keys_spec == term_keys(*reader, terms@),
                keys@ =~= keys_spec.take(i as int),
            decreases terms@.len() - i,
        {
            let k = match reader.term_df(terms[i].as_str()) {
                Some(n) => n,
                None => usize::MAX,
            };
            keys.push(k);
            i = i + 1;
        }
        proof {
            assert(keys_spec.take(i as int) =~= keys_spec);
        }
        let mut order: Vec<usize> = Vec::new();
        let mut i: usize = 0;
        while i < terms.len()
            invariant
                i <= terms@.len(),
                keys@ == keys_spec,
                keys_spec.len() == terms@.len(),
                order@.len() == i,
                forall|k: int| 0 <= k < order@.len() ==> #[trigger] order@[k] < i,
                forall|a: int, b: int| 0 <= a < b < order@.len() ==> order@[a] != order@[b],
                forall|a: int, b: int|
                    0 <= a < b < order@.len() ==> keys_spec[order@[a] as int] <= keys_spec[order@[b] as int],
                forall|a: int, b: int|
                    0 <= a < b < order@.len() && keys_spec[order@[a] as int] == keys_spec[order@[b] as int]
                        ==> order@[a] < order@[b],
            decreases terms@.len() - i,
        {
            let ki = keys[i];
            let mut pos: usize = 0;
            while pos < order.len() && keys[order[pos]] <= ki
                invariant
                    pos <= order@.len(),
                    keys@ == keys_spec,
                    i < keys_spec.len(),
                    ki == keys_spec[i as int],
                    forall|k: int| 0 <= k < order@.len() ==> #[trigger] order@[k] < i,
                    forall|k: int| 0 <= k < pos ==> keys_spec[#[trigger] order@[k] as int] <= ki,
                decreases order@.len() - pos,
            {
                pos = pos + 1;
            }
            let ghost before = order@;
            order.insert(pos, i);
            proof {
                assert(order@ == before.insert(pos as int, i));
                assert forall|k: int| pos < k < order@.len() implies keys_spec[#[trigger] order@[k] as int]
                    > ki by {
                    assert(order@[k] == before[k - 1]);
                    assert(keys_spec[before[pos as int] as int] > ki);
                    if k - 1 > pos {
                        assert(keys_spec[before[pos as int] as int] <= keys_spec[before[k - 1] as int]);
                    }
                }
                assert forall|a: int, b: int| 0 <= a < b < order@.len() implies order@[a] != order@[b] by {
                    if a != pos && b != pos {
                        let a0 = if a < pos { a } else { a - 1 };
                        let b0 = if b < pos { b } else { b - 1 };
                        assert(order@[a] == before[a0] && order@[b] == before[b0]);
                    } else if a == pos {
                        assert(order@[b] == before[b - 1]);
                    } else {
                        assert(order@[a] == before[a]);
                    }
                }
                assert forall|a: int, b: int|
                    0 <= a < b < order@.len() implies keys_spec[order@[a] as int] <= keys_spec[order@[b] as int] by {
                    if a != pos && b != pos {
                        let a0 = if a < pos { a } else { a - 1 };
                        let b0 = if b < pos { b } else { b - 1 };
                        assert(order@[a] == before[a0] && order@[b] == before[b0]);
                    } else if a == pos {
                        assert(keys_spec[order@[b] as int] > ki);
                    } else {
                        assert(order@[a] == before[a]);
                    }
                }
                assert forall|a: int, b: int|
                    0 <= a < b < order@.len() && keys_spec[order@[a] as int] == keys_spec[order@[b] as int]
                        implies order@[a] < order@[b] by {
                    if a != pos && b != pos {
                        let a0 = if a < pos { a } else { a - 1 };
                        let b0 = if b < pos { b } else { b - 1 };
                        assert(order@[a] == before[a0] && order@[b] == before[b0]);
                    } else if a == pos {
                        assert(keys_spec[order@[b] as int] > ki);
                    } else {
                        assert(order@[a] == before[a]);
                        assert(before[a] < i);
                    }
                }
                assert forall|k: int| 0 <= k < order@.len() implies #[trigger] order@[k] < i + 1 by {
                    if k < pos {
                        assert(order@[k] == before[k]);
                    } else if k > pos {
                        assert(order@[k] == before[k - 1]);
                    }
                }
            }
            i = i + 1;
        }
        let mut out: Vec<&'a str> = Vec::new();
        let mut k: usize = 0;
        while k < order.len()
            invariant
                k <= order@.len(),
                order@.len() == terms@.len(),
                forall|j: int| 0 <= j < order@.len() ==> #[trigger] order@[j] < terms@.len(),
                out@.len() == k,
                forall|j: int| 0 <= j < k ==> (#[trigger] out@[j])@ == terms@[order@[j] as int]@,
            decreases order@.len() - k,
        {
            out.push(terms[order[k]].as_str());
            k = k + 1;
        }
        proof {
            let p = order@.map_values(|x: usize| x as int);
            assert(stable_order(p, keys_spec));
            assert forall|j: int| 0 <= j < p.len() implies (#[trigger] out@[j])@ == terms@[p[j]]@ by {
                assert(p[j] == order@[j] as int);
            }
        }
        QueryPlan { terms: out }
    }

    /// The terms, in the order they are walked.
    pub fn terms(&self) -> (t: &[&'a str])
        ensures
            t@ == self.term_seq(),
    {
        self.terms.as_slice()
    }

    /// Whether the plan has no term.
    pub fn is_empty(&self) -> (b: bool)
        ensures
            b == (self.term_seq().len() == 0),
    {
        self.terms.len() == 0
    }

    /// The term walked first.
    pub fn first_term(&self) -> (t: Option<&'a str>)
        ensures
            self.term_seq().len() == 0 ==> t is None,
            self.term_seq().len() > 0 ==> t == Some(self.term_seq()[0]),
    {
        if self.terms.len() == 0 {
            None
        } else {
            Some(self.terms[0])
        }
    }

    /// The terms after the first.
    pub fn remaining_terms(&self) -> (t: &[&'a str])
        ensures
            self.term_seq().len() <= 1 ==> t@.len() == 0,
            self.term_seq().len() > 1 ==> t@ == self.term_seq().skip(1),
    {
        if self.terms.len() <= 1 {
            let empty: &[&'a str] = &[];
            assert(empty@.len() == 0);
            empty
        } else {
            vstd::slice::slice_subrange(self.terms.as_slice(), 1, self.terms.len())
        }
    }
}

} // verus!
