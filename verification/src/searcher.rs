//! Which documents of a segment answer a query: the terms' postings are
//! read from the segment and matched; scoring is left to the caller, which
//! gets each matching document with its counts.

use vstd::prelude::*;

use crate::codec::PostingCodec;
use crate::memindex::DocPositions;
use crate::planner::{stable_order, term_keys, QueryPlan};
use crate::postings::{DocId, Postings};
use crate::query::{
    all_hold, any_hold, doc_matches_exactly, lists_view, match_all_in, match_any_in,
    match_phrase_in, phrase_matches_exactly, DocMatch, PhraseMatch,
};
use crate::reader::{lookup_result, SegmentReader};
use crate::store::SegmentError;

verus! {

/// Looking up the first `n` terms one after the other, stopping at the
/// first that the segment lacks (`Ok(None)`) or cannot read (the error).
pub open spec fn lookups<C: PostingCodec>(
    codec: C,
    es: Seq<crate::format::TermEntry>,
    bytes: Seq<u8>,
    ts: Seq<Seq<char>>,
    n: int,
) -> Result<Option<Seq<DocPositions>>, SegmentError>
    decreases n,
{
    if n <= 0 {
        Ok(Some(Seq::empty()))
    } else {
        match lookups(codec, es, bytes, ts, n - 1) {
            Err(e) => Err(e),
            Ok(None) => Ok(None),
            Ok(Some(s)) => match lookup_result(codec, es, bytes, ts[n - 1]) {
                Err(e) => Err(e),
                Ok(None) => Ok(None),
                Ok(Some(m)) => Ok(Some(s.push(m))),
            },
        }
    }
}

/// Looking up the first `n` terms one after the other, a lacking term
/// giving `None`, stopping at the first that cannot be read.
pub open spec fn lookups_opt<C: PostingCodec>(
    codec: C,
    es: Seq<crate::format::TermEntry>,
    bytes: Seq<u8>,
    ts: Seq<Seq<char>>,
    n: int,
) -> Result<Seq<Option<DocPositions>>, SegmentError>
    decreases n,
{
    if n <= 0 {
        Ok(Seq::empty())
    } else {
        match lookups_opt(codec, es, bytes, ts, n - 1) {
            Err(e) => Err(e),
            Ok(s) => match lookup_result(codec, es, bytes, ts[n - 1]) {
                Err(e) => Err(e),
                Ok(o) => Ok(s.push(o)),
            },
        }
    }
}

/// The postings maps as present lists.
pub open spec fn present(ms: Seq<DocPositions>) -> Seq<Option<DocPositions>> {
    ms.map_values(|m: DocPositions| Some(m))
}

/// The terms as text.
pub open spec fn texts(ts: Seq<String>) -> Seq<Seq<char>> {
    ts.map_values(|t: String| t@)
}

/// The terms as text.
pub open spec fn str_texts(ts: Seq<&str>) -> Seq<Seq<char>> {
    ts.map_values(|t: &str| t@)
}

/// Matches queries against one segment.
pub struct SegmentSearcher<'a, C: PostingCodec> {
    reader: &'a SegmentReader<C>,
}

impl<'a, C: PostingCodec> SegmentSearcher<'a, C> {
    /// The segment searched.
    pub closed spec fn reader(&self) -> &'a SegmentReader<C> {
        self.reader
    }

    pub fn new(reader: &'a SegmentReader<C>) -> (s: Self)
        ensures
            s.reader() == reader,
    {
        SegmentSearcher { reader }
    }

    /// The postings of each term, in order, stopping at the first term the
    /// segment lacks or cannot read.
    fn lookup_each(&self, terms: &[&str]) -> (r: Result<Option<Vec<Postings>>, SegmentError>)
        ensures
            match lookups(
                self.reader().data_codec(),
                self.reader().data_terms(),
                self.reader().data_postings(),
                str_texts(terms@),
                terms@.len() as int,
            ) {
                Ok(Some(ms)) => r matches Ok(Some(v)) && v@.map_values(|p: Postings| p@) == ms,
                Ok(None) => r matches Ok(None),
                Err(e) => r == Err::<Option<Vec<Postings>>, SegmentError>(e),
            },
    {
        let ghost ts = str_texts(terms@);
        let ghost (codec, es, bytes) = (
            self.reader().data_codec(),
            self.reader().data_terms(),
            self.reader().data_postings(),
        );
        let mut out: Vec<Postings> = Vec::new();
        proof {
            assert(out@.map_values(|p: Postings| p@) =~= Seq::<DocPositions>::empty());
        }
        let mut i: usize = 0;
        while i < terms.len()
            invariant
                ts == str_texts(terms@),
                codec == self.reader().data_codec(),
                es == self.reader().data_terms(),
                bytes == self.reader().data_postings(),
                i <= terms@.len(),
                lookups(codec, es, bytes, ts, i as int) == Ok::<
                    Option<Seq<DocPositions>>,
                    SegmentError,
                >(Some(out@.map_values(|p: Postings| p@))),
            decreases terms@.len() - i,
        {
            proof {
                assert(ts[i as int] == terms@[i as int]@);
            }
            match self.reader.lookup(terms[i]) {
                Ok(Some(p)) => {
                    let ghost before = out@;
                    out.push(p);
                    proof {
                        assert(out@.map_values(|p: Postings| p@) =~= before.map_values(
                            |p: Postings| p@,
                        ).push(p@));
                    }
                },
                Ok(None) => {
                    proof {
                        lemma_lookups_stop(codec, es, bytes, ts, i + 1, terms@.len() as int);
                    }
                    return Ok(None);
                },
                Err(e) => {
                    proof {
                        lemma_lookups_stop(codec, es, bytes, ts, i + 1, terms@.len() as int);
                    }
                    return Err(e);
                },
            }
            i = i + 1;
        }
        Ok(Some(out))
    }

    /// The postings of each term, in order (`None` for a term the segment
    /// lacks), stopping at the first term it cannot read.
    fn lookup_opt(&self, terms: &[String]) -> (r: Result<Vec<Option<Postings>>, SegmentError>)
        ensures
            match lookups_opt(
                self.reader().data_codec(),
                self.reader().data_terms(),
                self.reader().data_postings(),
                texts(terms@),
                terms@.len() as int,
            ) {
                Ok(ms) => r matches Ok(v) && v@.map_values(
                    |o: Option<Postings>| match o {
                        Some(p) => Some(p@),
                        None => None,
                    },
                ) == ms,
                Err(e) => r == Err::<Vec<Option<Postings>>, SegmentError>(e),
            },
    {
        let ghost ts = texts(terms@);
        let ghost (codec, es, bytes) = (
            self.reader().data_codec(),
            self.reader().data_terms(),
            self.reader().data_postings(),
        );
        let mut out: Vec<Option<Postings>> = Vec::new();
        proof {
            assert(out@.map_values(
                |o: Option<Postings>| match o {
                    Some(p) => Some(p@),
                    None => None,
                },
            ) =~= Seq::<Option<DocPositions>>::empty());
        }
        let mut i: usize = 0;
        while i < terms.len()
            invariant
                ts == texts(terms@),
                codec == self.reader().data_codec(),
                es == self.reader().data_terms(),
                bytes == self.reader().data_postings(),
                i <= terms@.len(),
                lookups_opt(codec, es, bytes, ts, i as int) == Ok::<
                    Seq<Option<DocPositions>>,
                    SegmentError,
                >(
                    out@.map_values(
                        |o: Option<Postings>| match o {
                            Some(p) => Some(p@),
                            None => None,
                        },
                    ),
                ),
            decreases terms@.len() - i,
        {
            proof {
                assert(ts[i as int] == terms@[i as int]@);
            }
            match self.reader.lookup(terms[i].as_str()) {
                Ok(o) => {
                    let ghost before = out@;
                    let ghost ov = match &o {
                        Some(p) => Some(p@),
                        None => None::<DocPositions>,
                    };
                    out.push(o);
                    proof {
                        assert(out@.map_values(
                            |o: Option<Postings>| match o {
                                Some(p) => Some(p@),
                                None => None,
                            },
                        ) =~= before.map_values(
                            |o: Option<Postings>| match o {
                                Some(p) => Some(p@),
                                None => None,
                            },
                        ).push(ov));
                    }
                },
                Err(e) => {
                    proof {
                        lemma_lookups_opt_stop(codec, es, bytes, ts, i + 1, terms@.len() as int);
                    }
                    return Err(e);
                },
            }
            i = i + 1;
        }
        Ok(out)
    }
}

/// The postings as present lists, borrowed.
fn present_refs(v: &Vec<Postings>) -> (r: Vec<Option<&Postings>>)
    ensures
        r@.len() == v@.len(),
        lists_view(r@) == present(v@.map_values(|p: Postings| p@)),
{
    let mut r: Vec<Option<&Postings>> = Vec::new();
    let mut i: usize = 0;
    while i < v.len()
        invariant
            i <= v@.len(),
            lists_view(r@) =~= present(v@.map_values(|p: Postings| p@)).take(i as int),
            r@.len() == i,
        decreases v@.len() - i,
    {
        let ghost before = r@;
        r.push(Some(&v[i]));
        proof {
            assert(lists_view(r@) =~= lists_view(before).push(Some(v@[i as int]@)));
        }
        i = i + 1;
    }
    proof {
        assert(present(v@.map_values(|p: Postings| p@)).take(i as int) =~= present(
            v@.map_values(|p: Postings| p@),
        ));
    }
    r
}

/// The lists, borrowed.
fn option_refs(v: &Vec<Option<Postings>>) -> (r: Vec<Option<&Postings>>)
    ensures
        lists_view(r@) == v@.map_values(
            |o: Option<Postings>| match o {
                Some(p) => Some(p@),
                None => None,
            },
        ),
{
    let ghost target = v@.map_values(
        |o: Option<Postings>| match o {
            Some(p) => Some(p@),
            None => None,
        },
    );
    let mut r: Vec<Option<&Postings>> = Vec::new();
    let mut i: usize = 0;
    while i < v.len()
        invariant
            i <= v@.len(),
            target == v@.map_values(
                |o: Option<Postings>| match o {
                    Some(p) => Some(p@),
                    None => None,
                },
            ),
            lists_view(r@) =~= target.take(i as int),
        decreases v@.len() - i,
    {
        let ghost before = r@;
        let o = match &v[i] {
            Some(p) => Some(p),
            None => None,
        };
        r.push(o);
        proof {
            assert(lists_view(r@) =~= lists_view(before).push(target[i as int]));
        }
        i = i + 1;
    }
    proof {
        assert(target.take(i as int) =~= target);
    }
    r
}

impl<'a, C: PostingCodec> SegmentSearcher<'a, C> {
    /// The documents of the segment that hold some term, with the number of
    /// positions of each term in them; a term the segment lacks holds none.
    /// The first term whose postings cannot be read gives the error.
    pub fn match_any(&self, terms: &[String]) -> (r: Result<Vec<DocMatch>, SegmentError>)
        ensures
            match lookups_opt(
                self.reader().data_codec(),
                self.reader().data_terms(),
                self.reader().data_postings(),
                texts(terms@),
                terms@.len() as int,
            ) {
                Ok(ls) => r matches Ok(m) && doc_matches_exactly(
                    m@,
                    ls,
                    &self.reader().data_docs(),
                    |d: DocId| any_hold(ls, d),
                ),
                Err(e) => r == Err::<Vec<DocMatch>, SegmentError>(e),
            },
    {
        let v = match self.lookup_opt(terms) {
            Ok(v) => v,
            Err(e) => {
                return Err(e);
            },
        };
        let refs = option_refs(&v);
        Ok(match_any_in(&refs, self.reader.doctable()))
    }

    /// The documents of the segment in which the terms occur one after the
    /// other, with the number of times they do. A term the segment lacks
    /// leaves no match; the first term whose postings cannot be read (before
    /// one it lacks) gives the error.
    pub fn match_phrase(&self, terms: &[String]) -> (r: Result<Vec<PhraseMatch>, SegmentError>)
        ensures
            match lookups(
                self.reader().data_codec(),
                self.reader().data_terms(),
                self.reader().data_postings(),
                texts(terms@),
                terms@.len() as int,
            ) {
                Ok(Some(ms)) => r matches Ok(m) && phrase_matches_exactly(
                    m@,
                    present(ms),
                    &self.reader().data_docs(),
                ),
                Ok(None) => r matches Ok(m) && m@.len() == 0,
                Err(e) => r == Err::<Vec<PhraseMatch>, SegmentError>(e),
            },
    {
        let mut strs: Vec<&str> = Vec::new();
        let mut i: usize = 0;
        while i < terms.len()
            invariant
                i <= terms@.len(),
                str_texts(strs@) =~= texts(terms@).take(i as int),
            decreases terms@.len() - i,
        {
            let ghost before = strs@;
            strs.push(terms[i].as_str());
            proof {
                assert(str_texts(strs@) =~= str_texts(before).push(terms@[i as int]@));
            }
            i = i + 1;
        }
        proof {
            assert(texts(terms@).take(i as int) =~= texts(terms@));
        }
        match self.lookup_each(strs.as_slice()) {
            Ok(Some(ps)) => {
                let refs = present_refs(&ps);
                Ok(match_phrase_in(&refs, self.reader.doctable()))
            },
            Ok(None) => Ok(Vec::new()),
            Err(e) => Err(e),
        }
    }

    /// The documents of the segment that hold every term, with the number of
    /// positions of each term in them, and the order in which the terms were
    /// read: by document frequency, rarest first (the counts follow that
    /// order). A term the segment lacks leaves no match; the first term in
    /// that order whose postings cannot be read (before one it lacks) gives
    /// the error. No term, no match.
    pub fn match_all<'b>(&self, terms: &'b [String]) -> (r: Result<
        (Vec<&'b str>, Vec<DocMatch>),
        SegmentError,
    >)
        ensures
            terms@.len() == 0 ==> (r matches Ok((_, m)) && m@.len() == 0),
            terms@.len() > 0 ==> match r {
                Ok((order, m)) => exists|p: Seq<int>|
                    #[trigger] stable_order(p, term_keys(*self.reader(), terms@)) && (forall|k: int|
                        0 <= k < p.len() ==> (#[trigger] order@[k])@ == terms@[p[k]]@)
                        && order@.len() == p.len() && match lookups(
                        self.reader().data_codec(),
                        self.reader().data_terms(),
                        self.reader().data_postings(),
                        str_texts(order@),
                        order@.len() as int,
                    ) {
                        Ok(Some(ms)) => doc_matches_exactly(
                            m@,
                            present(ms),
                            &self.reader().data_docs(),
                            |d: DocId| all_hold(present(ms), d),
                        ),
                        Ok(None) => m@.len() == 0,
                        Err(_) => false,
                    },
                Err(e) => exists|p: Seq<int>|
                    #[trigger] stable_order(p, term_keys(*self.reader(), terms@)) && lookups(
                        self.reader().data_codec(),
                        self.reader().data_terms(),
                        self.reader().data_postings(),
                        p.map_values(|k: int| terms@[k]@),
                        p.len() as int,
                    ) == Err::<Option<Seq<DocPositions>>, SegmentError>(e),
            },
    {
        if terms.len() == 0 {
            return Ok((Vec::new(), Vec::new()));
        }
        let plan = QueryPlan::for_all_terms(self.reader, terms);
        let order = plan.terms();
        let mut owned_order: Vec<&'b str> = Vec::new();
        let mut i: usize = 0;
        while i < order.len()
            invariant
                i <= order@.len(),
                owned_order@ =~= order@.take(i as int),
            decreases order@.len() - i,
        {
            owned_order.push(order[i]);
            i = i + 1;
        }
        proof {
            assert(order@.take(i as int) =~= order@);
        }
        let ghost p = choose|p: Seq<int>|
            #[trigger] stable_order(p, term_keys(*self.reader(), terms@)) && forall|k: int|
                0 <= k < p.len() ==> (#[trigger] plan.term_seq()[k])@ == terms@[p[k]]@;
        proof {
            assert(str_texts(owned_order@) =~= p.map_values(|k: int| terms@[k]@)) by {
                assert(owned_order@.len() == p.len()) by {
                    assert(p.len() == term_keys(*self.reader(), terms@).len());
                }
                assert forall|k: int| 0 <= k < p.len() implies #[trigger] str_texts(owned_order@)[k]
                    == p.map_values(|k: int| terms@[k]@)[k] by {
                    assert(plan.term_seq()[k]@ == terms@[p[k]]@);
                }
            }
        }
        let looked = self.lookup_each(owned_order.as_slice());
        match looked {
            Ok(Some(ps)) => {
                let refs = present_refs(&ps);
                let m = match_all_in(&refs, self.reader.doctable());
                proof {
                    assert(refs@.len() == ps@.len());
                    assert(ps@.len() == owned_order@.len()) by {
                        lemma_lookups_len(
                            self.reader().data_codec(),
                            self.reader().data_terms(),
                            self.reader().data_postings(),
                            str_texts(owned_order@),
                            owned_order@.len() as int,
                        );
                    }
                    assert forall|k: int| 0 <= k < p.len() implies (#[trigger] owned_order@[k])@
                        == terms@[p[k]]@ by {
                        assert(str_texts(owned_order@)[k] == owned_order@[k]@);
                    }
                }
                Ok((owned_order, m))
            },
            Ok(None) => {
                proof {
                    assert forall|k: int| 0 <= k < p.len() implies (#[trigger] owned_order@[k])@
                        == terms@[p[k]]@ by {
                        assert(str_texts(owned_order@)[k] == owned_order@[k]@);
                    }
                }
                Ok((owned_order, Vec::new()))
            },
            Err(e) => Err(e),
        }
    }
}

proof fn lemma_lookups_len<C: PostingCodec>(
    codec: C,
    es: Seq<crate::format::TermEntry>,
    bytes: Seq<u8>,
    ts: Seq<Seq<char>>,
    n: int,
)
    requires
        n >= 0,
    ensures
        lookups(codec, es, bytes, ts, n) matches Ok(Some(ms)) ==> ms.len() == n,
    decreases n,
{
    if n > 0 {
        lemma_lookups_len(codec, es, bytes, ts, n - 1);
    }
}

proof fn lemma_lookups_stop<C: PostingCodec>(
    codec: C,
    es: Seq<crate::format::TermEntry>,
    bytes: Seq<u8>,
    ts: Seq<Seq<char>>,
    m: int,
    n: int,
)
    requires
        0 <= m <= n,
        !(lookups(codec, es, bytes, ts, m) is Ok && lookups(codec, es, bytes, ts, m)->Ok_0 is Some),
    ensures
        lookups(codec, es, bytes, ts, n) == lookups(codec, es, bytes, ts, m),
    decreases n,
{
    if n > m {
        lemma_lookups_stop(codec, es, bytes, ts, m, n - 1);
    }
}

proof fn lemma_lookups_opt_stop<C: PostingCodec>(
    codec: C,
    es: Seq<crate::format::TermEntry>,
    bytes: Seq<u8>,
    ts: Seq<Seq<char>>,
    m: int,
    n: int,
)
    requires
        0 <= m <= n,
        lookups_opt(codec, es, bytes, ts, m) is Err,
    ensures
        lookups_opt(codec, es, bytes, ts, n) == lookups_opt(codec, es, bytes, ts, m),
    decreases n,
{
    if n > m {
        lemma_lookups_opt_stop(codec, es, bytes, ts, m, n - 1);
    }
}

proof fn lemma_lookups_opt_prefix<C: PostingCodec>(
    codec: C,
    es: Seq<crate::format::TermEntry>,
    bytes: Seq<u8>,
    ts: Seq<Seq<char>>,
    n: int,
)
    requires
        0 <= n <= ts.len(),
    ensures
        (forall|k: int| 0 <= k < n ==> #[trigger] lookup_result(codec, es, bytes, ts[k]) is Ok) ==> (
        lookups_opt(codec, es, bytes, ts, n) matches Ok(s) && s.len() == n && forall|k: int|
            0 <= k < n ==> #[trigger] lookup_result(codec, es, bytes, ts[k]) == Ok::<
                Option<DocPositions>,
                SegmentError,
            >(s[k])),
        lookups_opt(codec, es, bytes, ts, n) matches Err(e) ==> exists|k: int|
            0 <= k < n && #[trigger] lookup_result(codec, es, bytes, ts[k]) == Err::<
                Option<DocPositions>,
                SegmentError,
            >(e) && forall|j: int| 0 <= j < k ==> #[trigger] lookup_result(codec, es, bytes, ts[j]) is Ok,
    decreases n,
{
    if n > 0 {
        lemma_lookups_opt_prefix(codec, es, bytes, ts, n - 1);
        if lookups_opt(codec, es, bytes, ts, n - 1) is Err {
            let e = lookups_opt(codec, es, bytes, ts, n - 1)->Err_0;
            let k = choose|k: int|
                0 <= k < n - 1 && #[trigger] lookup_result(codec, es, bytes, ts[k]) == Err::<
                    Option<DocPositions>,
                    SegmentError,
                >(e) && forall|j: int|
                    0 <= j < k ==> #[trigger] lookup_result(codec, es, bytes, ts[j]) is Ok;
            assert(lookup_result(codec, es, bytes, ts[k]) is Err);
        } else {
            let s = lookups_opt(codec, es, bytes, ts, n - 1)->Ok_0;
            if lookup_result(codec, es, bytes, ts[n - 1]) is Err {
                if exists|k: int|
                    0 <= k < n - 1 && #[trigger] lookup_result(codec, es, bytes, ts[k]) is Err {
                    let k = choose|k: int|
                        0 <= k < n - 1 && #[trigger] lookup_result(codec, es, bytes, ts[k]) is Err;
                    assert(lookup_result(codec, es, bytes, ts[k]) is Err);
                    assert(false) by {
                        assert(lookups_opt(codec, es, bytes, ts, n - 1) is Ok);
                        lemma_first_error_stops(codec, es, bytes, ts, n - 1, k);
                    }
                }
                assert(forall|j: int|
                    0 <= j < n - 1 ==> #[trigger] lookup_result(codec, es, bytes, ts[j]) is Ok);
            } else {
                if forall|k: int| 0 <= k < n ==> #[trigger] lookup_result(codec, es, bytes, ts[k]) is Ok {
                    assert(forall|k: int|
                        0 <= k < n - 1 ==> #[trigger] lookup_result(codec, es, bytes, ts[k]) is Ok);
                    let s2 = s.push(lookup_result(codec, es, bytes, ts[n - 1])->Ok_0);
                    assert forall|k: int| 0 <= k < n implies #[trigger] lookup_result(
                        codec,
                        es,
                        bytes,
                        ts[k],
                    ) == Ok::<Option<DocPositions>, SegmentError>(s2[k]) by {
                        if k < n - 1 {
                            assert(s2[k] == s[k]);
                        }
                    }
                }
            }
        }
    }
}

/// An error at term `k` among the first `n` makes the lookups of the first
/// `n` terms an error.
proof fn lemma_first_error_stops<C: PostingCodec>(
    codec: C,
    es: Seq<crate::format::TermEntry>,
    bytes: Seq<u8>,
    ts: Seq<Seq<char>>,
    n: int,
    k: int,
)
    requires
        0 <= k < n <= ts.len(),
        lookup_result(codec, es, bytes, ts[k]) is Err,
    ensures
        lookups_opt(codec, es, bytes, ts, n) is Err,
    decreases n,
{
    if k < n - 1 {
        lemma_first_error_stops(codec, es, bytes, ts, n - 1, k);
    }
}

/// Looking up the terms of an any-terms query gives one list per term, in
/// order: where no term's postings are unreadable, list `k` is what looking
/// up term `k` alone gives (`None` for a term the segment lacks, and the
/// terms after it are still looked up); otherwise the result is the error of
/// the first term whose postings cannot be read.
pub proof fn lemma_lookups_opt_per_term<C: PostingCodec>(
    codec: C,
    es: Seq<crate::format::TermEntry>,
    bytes: Seq<u8>,
    ts: Seq<Seq<char>>,
)
    ensures
        (forall|k: int| 0 <= k < ts.len() ==> #[trigger] lookup_result(codec, es, bytes, ts[k]) is Ok)
            ==> (lookups_opt(codec, es, bytes, ts, ts.len() as int) matches Ok(s) && s.len()
            == ts.len() && forall|k: int|
            0 <= k < ts.len() ==> #[trigger] lookup_result(codec, es, bytes, ts[k]) == Ok::<
                Option<DocPositions>,
                SegmentError,
            >(s[k])),
        lookups_opt(codec, es, bytes, ts, ts.len() as int) matches Err(e) ==> exists|k: int|
            0 <= k < ts.len() && #[trigger] lookup_result(codec, es, bytes, ts[k]) == Err::<
                Option<DocPositions>,
                SegmentError,
            >(e) && forall|j: int|
                0 <= j < k ==> #[trigger] lookup_result(codec, es, bytes, ts[j]) is Ok,
{
    lemma_lookups_opt_prefix(codec, es, bytes, ts, ts.len() as int);
}

/// Whether looking up term `t` alone finds its postings.
pub open spec fn found<C: PostingCodec>(
    codec: C,
    es: Seq<crate::format::TermEntry>,
    bytes: Seq<u8>,
    t: Seq<char>,
) -> bool {
    lookup_result(codec, es, bytes, t) matches Ok(Some(_))
}

proof fn lemma_lookups_prefix<C: PostingCodec>(
    codec: C,
    es: Seq<crate::format::TermEntry>,
    bytes: Seq<u8>,
    ts: Seq<Seq<char>>,
    n: int,
)
    requires
        0 <= n <= ts.len(),
    ensures
        lookups(codec, es, bytes, ts, n) matches Ok(Some(s)) ==> s.len() == n && forall|k: int|
            0 <= k < n ==> #[trigger] lookup_result(codec, es, bytes, ts[k]) == Ok::<
                Option<DocPositions>,
                SegmentError,
            >(Some(s[k])),
        (forall|k: int| 0 <= k < n ==> #[trigger] found(codec, es, bytes, ts[k])) ==> lookups(
            codec,
            es,
            bytes,
            ts,
            n,
        ) matches Ok(Some(_)),
        !(lookups(codec, es, bytes, ts, n) matches Ok(Some(_))) ==> exists|k: int|
            0 <= k < n && !#[trigger] found(codec, es, bytes, ts[k]) && lookups(codec, es, bytes, ts, n)
                == match lookup_result(codec, es, bytes, ts[k]) {
                Err(e) => Err::<Option<Seq<DocPositions>>, SegmentError>(e),
                Ok(_) => Ok(None),
            } && forall|j: int| 0 <= j < k ==> #[trigger] found(codec, es, bytes, ts[j]),
    decreases n,
{
    if n > 0 {
        lemma_lookups_prefix(codec, es, bytes, ts, n - 1);
        match lookups(codec, es, bytes, ts, n - 1) {
            Ok(Some(s)) => {
                match lookup_result(codec, es, bytes, ts[n - 1]) {
                    Ok(Some(m)) => {
                        let s2 = s.push(m);
                        assert forall|k: int| 0 <= k < n implies #[trigger] lookup_result(
                            codec,
                            es,
                            bytes,
                            ts[k],
                        ) == Ok::<Option<DocPositions>, SegmentError>(Some(s2[k])) by {
                            if k < n - 1 {
                                assert(s2[k] == s[k]);
                            }
                        }
                    },
                    _ => {
                        assert(!found(codec, es, bytes, ts[n - 1]));
                        assert forall|j: int| 0 <= j < n - 1 implies #[trigger] found(
                            codec,
                            es,
                            bytes,
                            ts[j],
                        ) by {
                            assert(lookup_result(codec, es, bytes, ts[j]) == Ok::<
                                Option<DocPositions>,
                                SegmentError,
                            >(Some(s[j])));
                        }
                    },
                }
            },
            _ => {
                let k = choose|k: int|
                    0 <= k < n - 1 && !#[trigger] found(codec, es, bytes, ts[k]) && lookups(
                        codec,
                        es,
                        bytes,
                        ts,
                        n - 1,
                    ) == match lookup_result(codec, es, bytes, ts[k]) {
                        Err(e) => Err::<Option<Seq<DocPositions>>, SegmentError>(e),
                        Ok(_) => Ok(None),
                    } && forall|j: int| 0 <= j < k ==> #[trigger] found(codec, es, bytes, ts[j]);
                assert(!found(codec, es, bytes, ts[k]));
            },
        }
    }
}

/// Looking up the terms of an all-terms or phrase query finds the postings
/// of every term, in order, exactly when each term alone is found; and then
/// list `k` is term `k`'s postings. Otherwise the result is given by the
/// first term that is not found: `Ok(None)` when the segment lacks it, its
/// error when its postings cannot be read.
pub proof fn lemma_lookups_per_term<C: PostingCodec>(
    codec: C,
    es: Seq<crate::format::TermEntry>,
    bytes: Seq<u8>,
    ts: Seq<Seq<char>>,
)
    ensures
        lookups(codec, es, bytes, ts, ts.len() as int) matches Ok(Some(s)) ==> s.len() == ts.len()
            && forall|k: int|
            0 <= k < ts.len() ==> #[trigger] lookup_result(codec, es, bytes, ts[k]) == Ok::<
                Option<DocPositions>,
                SegmentError,
            >(Some(s[k])),
        (forall|k: int| 0 <= k < ts.len() ==> #[trigger] found(codec, es, bytes, ts[k])) ==> lookups(
            codec,
            es,
            bytes,
            ts,
            ts.len() as int,
        ) matches Ok(Some(_)),
        !(lookups(codec, es, bytes, ts, ts.len() as int) matches Ok(Some(_))) ==> exists|k: int|
            0 <= k < ts.len() && !#[trigger] found(codec, es, bytes, ts[k]) && lookups(
                codec,
                es,
                bytes,
                ts,
                ts.len() as int,
            ) == match lookup_result(codec, es, bytes, ts[k]) {
                Err(e) => Err::<Option<Seq<DocPositions>>, SegmentError>(e),
                Ok(_) => Ok(None),
            } && forall|j: int| 0 <= j < k ==> #[trigger] found(codec, es, bytes, ts[j]),
{
    lemma_lookups_prefix(codec, es, bytes, ts, ts.len() as int);
}

} // verus!
