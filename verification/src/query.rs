//! Query modes and the matching that decides which documents answer a query.
//! Scores are computed from the counts that the matching reports.

use vstd::prelude::*;
use vstd::std_specs::convert::TryFromSpecImpl;

use crate::doctable::DocTable;
use crate::memindex::{DocPositions, IndexMap, InvertedIndex};
use crate::parser::{push_char, str_chars, tokenize, tokens_of};
use crate::postings::{DocId, Position, Postings};

verus! {

/// How the terms of a query combine.
#[derive(Debug, Clone, Copy, PartialEq, Eq)]
pub enum QueryMode {
    /// Every term must occur.
    All,
    /// Some term must occur.
    Any,
    /// The terms must occur one after the other.
    Phrase,
}

impl QueryMode {
    /// The name of the mode on the command line.
    pub open spec fn name(self) -> Seq<char> {
        match self {
            QueryMode::All => "and"@,
            QueryMode::Any => "or"@,
            QueryMode::Phrase => "phrase"@,
        }
    }

    /// The name of the mode: `and`, `or` or `phrase`.
    pub fn as_str(&self) -> (s: &'static str)
        ensures
            s@ == self.name(),
    {
        match self {
            QueryMode::All => "and",
            QueryMode::Any => "or",
            QueryMode::Phrase => "phrase",
        }
    }
}

/// ASCII letters lowercased, other characters kept.
pub open spec fn ascii_lower(s: Seq<char>) -> Seq<char> {
    Seq::new(
        s.len(),
        |i: int|
            if 65 <= (s[i] as u32) <= 90 {
                ((s[i] as u32) + 32) as char
            } else {
                s[i]
            },
    )
}

/// The mode that a name stands for, ignoring ASCII case: `and` or `all`,
/// `or` or `any`, `phrase`.
pub open spec fn mode_named(s: Seq<char>) -> Option<QueryMode> {
    let l = ascii_lower(s);
    if l == "and"@ || l == "all"@ {
        Some(QueryMode::All)
    } else if l == "or"@ || l == "any"@ {
        Some(QueryMode::Any)
    } else if l == "phrase"@ {
        Some(QueryMode::Phrase)
    } else {
        None
    }
}

proof fn lemma_ascii_lower_keeps_lowercase(s: Seq<char>)
    requires
        forall|i: int| 0 <= i < s.len() ==> !(65 <= (#[trigger] s[i] as u32) <= 90),
    ensures
        ascii_lower(s) == s,
{
    assert(ascii_lower(s) =~= s);
}

/// Every mode's command-line name parses back to that mode, and the other
/// names are `all` for every term and `any` for some term: `and` and `all`
/// give `All`, `or` and `any` give `Any`, `phrase` gives `Phrase`.
pub proof fn lemma_mode_names(m: QueryMode)
    ensures
        mode_named(m.name()) == Some(m),
        mode_named("and"@) == Some(QueryMode::All),
        mode_named("all"@) == Some(QueryMode::All),
        mode_named("or"@) == Some(QueryMode::Any),
        mode_named("any"@) == Some(QueryMode::Any),
        mode_named("phrase"@) == Some(QueryMode::Phrase),
{
    reveal_strlit("and");
    reveal_strlit("all");
    reveal_strlit("or");
    reveal_strlit("any");
    reveal_strlit("phrase");
    lemma_ascii_lower_keeps_lowercase("and"@);
    lemma_ascii_lower_keeps_lowercase("all"@);
    lemma_ascii_lower_keeps_lowercase("or"@);
    lemma_ascii_lower_keeps_lowercase("any"@);
    lemma_ascii_lower_keeps_lowercase("phrase"@);
    assert("and"@.len() != "or"@.len() && "and"@.len() != "phrase"@.len());
    assert("or"@.len() != "phrase"@.len());
    assert("any"@[1] != "all"@[1]);
    assert("any"@[2] != "and"@[2]);
    assert("and"@[1] != "all"@[1]);
}

fn lower_ascii_string(value: &str) -> (r: String)
    ensures
        r@ == ascii_lower(value@),
{
    let chars = str_chars(value);
    let mut out = String::new();
    let mut i: usize = 0;
    while i < chars.len()
        invariant
            i <= chars@.len(),
            chars@ == value@,
            out@ =~= ascii_lower(value@).take(i as int),
        decreases chars@.len() - i,
    {
        let c = chars[i];
        let code: u32 = c as u32;
        if 65 <= code && code <= 90 {
            let b: u8 = (code + 32) as u8;
            let l = b as char;
            push_char(&mut out, l);
        } else {
            push_char(&mut out, c);
        }
        i = i + 1;
    }
    out
}

fn same_chars(a: &String, b: &str) -> (r: bool)
    ensures
        r == (a@ == b@),
{
    *a == b.to_owned()
}

/// The mode named by `value` (ASCII case ignored); an error that names the
/// lowercased value otherwise.
pub fn parse_mode(value: &str) -> (r: Result<QueryMode, String>)
    ensures
        match mode_named(value@) {
            Some(m) => r == Ok::<QueryMode, String>(m),
            None => r matches Err(msg) && msg@ == "unknown query mode: "@ + ascii_lower(value@),
        },
{
    let lower = lower_ascii_string(value);
    if same_chars(&lower, "and") || same_chars(&lower, "all") {
        Ok(QueryMode::All)
    } else if same_chars(&lower, "or") || same_chars(&lower, "any") {
        Ok(QueryMode::Any)
    } else if same_chars(&lower, "phrase") {
        Ok(QueryMode::Phrase)
    } else {
        let mut msg = "unknown query mode: ".to_owned();
        let chars = str_chars(lower.as_str());
        let ghost start = msg@;
        let mut i: usize = 0;
        while i < chars.len()
            invariant
                i <= chars@.len(),
                msg@ =~= start + chars@.take(i as int),
            decreases chars@.len() - i,
        {
            push_char(&mut msg, chars[i]);
            i = i + 1;
        }
        proof {
            assert(chars@.take(i as int) =~= chars@);
        }
        Err(msg)
    }
}

/// The message of a refused name is stated by `try_from` itself, over its
/// characters; the generic specification is not used.
impl TryFromSpecImpl<&str> for QueryMode {
    open spec fn obeys_try_from_spec() -> bool {
        false
    }

    open spec fn try_from_spec(v: &str) -> Result<QueryMode, String> {
        match mode_named(v@) {
            Some(m) => Ok(m),
            None => Err(vstd::pervasive::arbitrary()),
        }
    }
}

impl TryFrom<&str> for QueryMode {
    type Error = String;

    fn try_from(value: &str) -> (r: Result<QueryMode, String>)
        ensures
            match mode_named(value@) {
                Some(m) => r == Ok::<QueryMode, String>(m),
                None => r matches Err(msg) && msg@ == "unknown query mode: "@ + ascii_lower(value@),
            },
    {
        parse_mode(value)
    }
}

/// Whether the text starts and ends with a double quote.
pub open spec fn quoted(s: Seq<char>) -> bool {
    s.len() > 0 && s[0] == '"' && s.last() == '"'
}

/// The index of the first character that is not a double quote (the
/// length when there is none).
pub open spec fn first_unquoted(s: Seq<char>, i: int) -> int
    decreases s.len() - i,
{
    if i >= s.len() || i < 0 {
        s.len() as int
    } else if s[i] != '"' {
        i
    } else {
        first_unquoted(s, i + 1)
    }
}

/// One past the last character before `j` that is not a double quote.
pub open spec fn last_unquoted(s: Seq<char>, j: int) -> int
    decreases j,
{
    if j <= 0 || j > s.len() {
        0
    } else if s[j - 1] != '"' {
        j
    } else {
        last_unquoted(s, j - 1)
    }
}

/// The text without the double quotes at either end (`trim_matches('"')`).
pub open spec fn trim_quotes(s: Seq<char>) -> Seq<char> {
    let a = first_unquoted(s, 0);
    if a >= s.len() {
        Seq::empty()
    } else {
        s.subrange(a, last_unquoted(s, s.len() as int))
    }
}

proof fn lemma_unquoted(s: Seq<char>)
    ensures
        0 <= first_unquoted(s, 0) <= s.len(),
        first_unquoted(s, 0) < s.len() ==> first_unquoted(s, 0) < last_unquoted(
            s,
            s.len() as int,
        ) <= s.len(),
{
    lemma_first_unquoted(s, 0);
    lemma_last_unquoted(s, s.len() as int);
    let a = first_unquoted(s, 0);
    if a < s.len() {
        lemma_last_above(s, s.len() as int, a);
    }
}

proof fn lemma_first_unquoted(s: Seq<char>, i: int)
    requires
        0 <= i <= s.len(),
    ensures
        i <= first_unquoted(s, i) <= s.len(),
        first_unquoted(s, i) < s.len() ==> s[first_unquoted(s, i)] != '"',
    decreases s.len() - i,
{
    if i < s.len() && s[i] == '"' {
        lemma_first_unquoted(s, i + 1);
    }
}

proof fn lemma_last_unquoted(s: Seq<char>, j: int)
    requires
        0 <= j <= s.len(),
    ensures
        0 <= last_unquoted(s, j) <= j,
    decreases j,
{
    if j > 0 && s[j - 1] == '"' {
        lemma_last_unquoted(s, j - 1);
    }
}

proof fn lemma_last_above(s: Seq<char>, j: int, a: int)
    requires
        0 <= a < j <= s.len(),
        s[a] != '"',
    ensures
        a < last_unquoted(s, j),
    decreases j,
{
    if s[j - 1] == '"' {
        lemma_last_above(s, j - 1, a);
    }
}

/// A query in double quotes is a phrase query over the text inside the
/// quotes; any other query keeps the given mode.
pub fn parse_query_mode(query: &str, default: QueryMode) -> (r: (&str, QueryMode))
    ensures
        quoted(query@) ==> r.0@ == trim_quotes(query@) && r.1 == QueryMode::Phrase,
        !quoted(query@) ==> r.0@ == query@ && r.1 == default,
{
    let chars = str_chars(query);
    let n = chars.len();
    if n > 0 && chars[0] == '"' && chars[n - 1] == '"' {
        proof {
            lemma_unquoted(query@);
        }
        let mut a: usize = 0;
        while a < n && chars[a] == '"'
            invariant
                n == chars@.len(),
                chars@ == query@,
                a <= n,
                first_unquoted(query@, 0) == first_unquoted(query@, a as int),
            decreases n - a,
        {
            a = a + 1;
        }
        if a >= n {
            return (query.substring_char(0, 0), QueryMode::Phrase);
        }
        let mut b: usize = n;
        while b > 0 && chars[b - 1] == '"'
            invariant
                n == chars@.len(),
                chars@ == query@,
                b <= n,
                last_unquoted(query@, n as int) == last_unquoted(query@, b as int),
            decreases b,
        {
            b = b - 1;
        }
        proof {
            assert(query@.subrange(0, 0) =~= Seq::<char>::empty());
        }
        (query.substring_char(a, b), QueryMode::Phrase)
    } else {
        (query, default)
    }
}

/// The terms of a query: its tokens without their positions.
pub fn query_terms(query: &str) -> (terms: Vec<String>)
    ensures
        terms@.map_values(|t: String| t@) == tokens_of(query@).map_values(
            |t: (Seq<char>, Position)| t.0,
        ),
{
    let tokens = tokenize(query);
    let ghost tv = tokens@.map_values(|t: (String, Position)| (t.0@, t.1));
    let mut terms: Vec<String> = Vec::new();
    let mut i: usize = 0;
    while i < tokens.len()
        invariant
            tv == tokens@.map_values(|t: (String, Position)| (t.0@, t.1)),
            i <= tokens@.len(),
            terms@.map_values(|t: String| t@) =~= tv.take(i as int).map_values(
                |t: (Seq<char>, Position)| t.0,
            ),
        decreases tokens@.len() - i,
    {
        let term = tokens[i].0.clone();
        let ghost before = terms@;
        terms.push(term);
        proof {
            assert(tv[i as int].0 == term@);
            assert(tv.take(i + 1) =~= tv.take(i as int).push(tv[i as int]));
            assert(terms@.map_values(|t: String| t@) =~= before.map_values(|t: String| t@).push(
                term@,
            ));
        }
        i = i + 1;
    }
    proof {
        assert(tv.take(i as int) =~= tv);
    }
    terms
}

/// The postings that the terms of a query have, each as a map.
pub open spec fn lists_view(lists: Seq<Option<&Postings>>) -> Seq<Option<DocPositions>> {
    lists.map_values(|o: Option<&Postings>| match o {
        Some(p) => Some(p@),
        None => None,
    })
}

/// Whether the `i`-th list holds document `d`.
pub open spec fn holds(ls: Seq<Option<DocPositions>>, i: int, d: DocId) -> bool {
    ls[i] matches Some(m) && m.contains_key(d)
}

/// The number of positions of `d` in the `i`-th list (0 when absent).
pub open spec fn tf(ls: Seq<Option<DocPositions>>, i: int, d: DocId) -> int {
    if holds(ls, i, d) {
        ls[i]->Some_0[d].len() as int
    } else {
        0
    }
}

/// The number of positions of `d` in each list.
pub open spec fn freqs(ls: Seq<Option<DocPositions>>, d: DocId) -> Seq<usize> {
    Seq::new(ls.len(), |i: int| tf(ls, i, d) as usize)
}

/// Every list holds `d`.
pub open spec fn all_hold(ls: Seq<Option<DocPositions>>, d: DocId) -> bool {
    forall|i: int| 0 <= i < ls.len() ==> #[trigger] holds(ls, i, d)
}

/// Some list holds `d`.
pub open spec fn any_hold(ls: Seq<Option<DocPositions>>, d: DocId) -> bool {
    exists|i: int| 0 <= i < ls.len() && #[trigger] holds(ls, i, d)
}

/// The `k`-th term occurs in `d` at position `p + k`.
pub open spec fn continues(ls: Seq<Option<DocPositions>>, d: DocId, p: Position, k: int) -> bool {
    &&& holds(ls, k, d)
    &&& p + k <= u64::MAX
    &&& ls[k]->Some_0[d].contains((p + k) as u64)
}

/// Each later term occurs in `d` right after the one before, the first at `p`.
pub open spec fn phrase_at(ls: Seq<Option<DocPositions>>, d: DocId, p: Position) -> bool {
    forall|k: int| 1 <= k < ls.len() ==> #[trigger] continues(ls, d, p, k)
}

/// Among the first `n` positions, how many start the phrase.
pub open spec fn phrase_count_upto(
    ls: Seq<Option<DocPositions>>,
    d: DocId,
    ps: Seq<Position>,
    n: int,
) -> int
    decreases n,
{
    if n <= 0 {
        0
    } else {
        phrase_count_upto(ls, d, ps, n - 1) + if phrase_at(ls, d, ps[n - 1]) {
            1int
        } else {
            0
        }
    }
}

/// How many positions of the first term in `d` start the phrase.
pub open spec fn phrase_count(ls: Seq<Option<DocPositions>>, d: DocId) -> int {
    if ls.len() > 0 && holds(ls, 0, d) {
        let ps = ls[0]->Some_0[d];
        phrase_count_upto(ls, d, ps, ps.len() as int)
    } else {
        0
    }
}

/// A document that matches, with the number of positions of each term in it.
#[derive(Debug, Clone)]
pub struct DocMatch {
    pub doc_id: DocId,
    pub path: String,
    pub freqs: Vec<usize>,
}

/// A document that holds a phrase, with the number of times it does.
#[derive(Debug, Clone)]
pub struct PhraseMatch {
    pub doc_id: DocId,
    pub path: String,
    pub count: usize,
}

/// The matches are exactly the documents that satisfy `pred` and have a
/// path, in increasing order of id, each with its path and counts.
pub open spec fn doc_matches_exactly(
    r: Seq<DocMatch>,
    ls: Seq<Option<DocPositions>>,
    docs: &DocTable,
    pred: spec_fn(DocId) -> bool,
) -> bool {
    &&& forall|a: int, b: int| 0 <= a < b < r.len() ==> r[a].doc_id < r[b].doc_id
    &&& forall|k: int|
        0 <= k < r.len() ==> {
            &&& pred(#[trigger] r[k].doc_id)
            &&& docs.path_of(r[k].doc_id) == Some(r[k].path@)
            &&& r[k].freqs@ == freqs(ls, r[k].doc_id)
        }
    &&& forall|d: DocId|
        pred(d) && docs.path_of(d) is Some ==> exists|k: int| 0 <= k < r.len() && r[k].doc_id == d
}

/// The matches are exactly the documents that have a path and in which the
/// phrase occurs, in increasing order of id, each with its path and the
/// number of times the phrase occurs in it.
pub open spec fn phrase_matches_exactly(
    r: Seq<PhraseMatch>,
    ls: Seq<Option<DocPositions>>,
    docs: &DocTable,
) -> bool {
    &&& forall|a: int, b: int| 0 <= a < b < r.len() ==> r[a].doc_id < r[b].doc_id
    &&& forall|k: int|
        0 <= k < r.len() ==> {
            &&& docs.path_of(#[trigger] r[k].doc_id) == Some(r[k].path@)
            &&& r[k].count == phrase_count(ls, r[k].doc_id)
            &&& r[k].count > 0
        }
    &&& forall|d: DocId|
        phrase_count(ls, d) > 0 && docs.path_of(d) is Some ==> exists|k: int|
            0 <= k < r.len() && r[k].doc_id == d
}

fn list_holds(list: &Option<&Postings>, d: DocId) -> (r: Option<usize>)
    ensures
        match list {
            Some(p) => match r {
                Some(n) => p@.contains_key(d) && n == p@[d].len(),
                None => !p@.contains_key(d),
            },
            None => r is None,
        },
{
    match list {
        Some(p) => match p.get(&d) {
            Some(ps) => Some(ps.len()),
            None => None,
        },
        None => None,
    }
}

/// The documents that every list holds and that have a path, in increasing
/// order of id, with each term's number of positions. No list, no match.
pub fn match_all_in(lists: &Vec<Option<&Postings>>, docs: &DocTable) -> (r: Vec<DocMatch>)
    ensures
        lists@.len() == 0 ==> r@.len() == 0,
        lists@.len() > 0 ==> doc_matches_exactly(
            r@,
            lists_view(lists@),
            docs,
            |d: DocId| all_hold(lists_view(lists@), d),
        ),
{
    let ghost ls = lists_view(lists@);
    let mut out: Vec<DocMatch> = Vec::new();
    if lists.len() == 0 {
        return out;
    }
    let first = match lists[0] {
        Some(p) => p,
        None => {
            proof {
                assert forall|d: DocId| !all_hold(ls, d) by {
                    assert(!holds(ls, 0, d));
                }
            }
            return out;
        },
    };
    proof {
        use_type_invariant(first);
    }
    let entries = first.entries_slice();
    let ghost es = first.entries();
    let mut j: usize = 0;
    while j < entries.len()
        invariant
            ls == lists_view(lists@),
            lists@.len() > 0,
            lists@[0] == Some(first),
            crate::postings::entries_of(entries@) == es,
            es == first.entries(),
            crate::postings::sorted_keys(es),
            j <= entries@.len(),
            forall|a: int, b: int| 0 <= a < b < out@.len() ==> out@[a].doc_id < out@[b].doc_id,
            forall|k: int| 0 <= k < out@.len() ==> (#[trigger] out@[k]).doc_id < (if j
                < entries@.len() {
                es[j as int].0 as int
            } else {
                u64::MAX + 1
            }),
            forall|k: int|
                0 <= k < out@.len() ==> {
                    &&& all_hold(ls, #[trigger] out@[k].doc_id)
                    &&& docs.path_of(out@[k].doc_id) == Some(out@[k].path@)
                    &&& out@[k].freqs@ == freqs(ls, out@[k].doc_id)
                },
            forall|i: int|
                0 <= i < j ==> #[trigger] all_hold(ls, es[i].0) && docs.path_of(es[i].0) is Some
                    ==> exists|k: int| 0 <= k < out@.len() && out@[k].doc_id == es[i].0,
        decreases entries@.len() - j,
    {
        let d = entries[j].0;
        assert(es[j as int].0 == d);
        let ghost out_before = out@;
        let mut counts: Vec<usize> = Vec::new();
        let mut ok = true;
        let mut i: usize = 0;
        while i < lists.len()
            invariant
                ls == lists_view(lists@),
                i <= lists@.len(),
                ok ==> counts@ =~= freqs(ls, d).take(i as int),
                ok ==> forall|t: int| 0 <= t < i ==> holds(ls, t, d),
                !ok ==> !all_hold(ls, d),
            decreases lists@.len() - i,
        {
            if ok {
                match list_holds(&lists[i], d) {
                    Some(n) => {
                        counts.push(n);
                    },
                    None => {
                        ok = false;
                        proof {
                            assert(!holds(ls, i as int, d));
                        }
                    },
                }
            }
            i = i + 1;
        }
        proof {
            assert(ok ==> counts@ =~= freqs(ls, d));
        }
        if ok {
            match docs.get_path(d) {
                Some(p) => {
                    let ghost before = out@;
                    out.push(DocMatch { doc_id: d, path: p.to_owned(), freqs: counts });
                    proof {
                        assert forall|a: int, b: int| 0 <= a < b < out@.len() implies out@[a].doc_id
                            < out@[b].doc_id by {
                            if b == before.len() {
                                assert(before[a].doc_id < es[j as int].0);
                            }
                        }
                    }
                },
                None => {},
            }
        }
        proof {
            if j + 1 < entries@.len() {
                assert(es[j as int].0 < es[j + 1].0);
            }
            assert forall|i: int|
                0 <= i < j + 1 && #[trigger] all_hold(ls, es[i].0) && docs.path_of(es[i].0) is Some implies exists|k: int|
                0 <= k < out@.len() && out@[k].doc_id == es[i].0 by {
                if i == j {
                    assert(out@[out@.len() - 1].doc_id == d);
                } else {
                    let k = choose|k: int| 0 <= k < out_before.len() && out_before[k].doc_id == es[i].0;
                    assert(out@[k] == out_before[k]);
                }
            }
        }
        j = j + 1;
    }
    proof {
        assert forall|d: DocId| all_hold(ls, d) && docs.path_of(d) is Some implies exists|k: int|
            0 <= k < out@.len() && out@[k].doc_id == d by {
            assert(holds(ls, 0, d));
            assert(first@.contains_key(d));
            let i = choose|i: int| 0 <= i < es.len() && es[i].0 == d;
            assert(all_hold(ls, es[i].0));
        }
    }
    out
}

/// The documents that some list holds, in increasing order of id, with each
/// term's number of positions.
pub fn match_any_in(lists: &Vec<Option<&Postings>>, docs: &DocTable) -> (r: Vec<DocMatch>)
    ensures
        doc_matches_exactly(
            r@,
            lists_view(lists@),
            docs,
            |d: DocId| any_hold(lists_view(lists@), d),
        ),
{
    let ghost ls = lists_view(lists@);
    let mut out: Vec<DocMatch> = Vec::new();
    let n = docs.len();
    let mut i: usize = 0;
    while i < n
        invariant
            ls == lists_view(lists@),
            n == docs.spec_len(),
            i <= n,
            forall|a: int, b: int| 0 <= a < b < out@.len() ==> out@[a].doc_id < out@[b].doc_id,
            forall|k: int| 0 <= k < out@.len() ==> (#[trigger] out@[k]).doc_id <= i,
            forall|k: int|
                0 <= k < out@.len() ==> {
                    &&& any_hold(ls, #[trigger] out@[k].doc_id)
                    &&& docs.path_of(out@[k].doc_id) == Some(out@[k].path@)
                    &&& out@[k].freqs@ == freqs(ls, out@[k].doc_id)
                },
            forall|e: DocId|
                1 <= e <= i && #[trigger] any_hold(ls, e) ==> exists|k: int|
                    0 <= k < out@.len() && out@[k].doc_id == e,
        decreases n - i,
    {
        let d: u64 = (i + 1) as u64;
        let ghost out_before = out@;
        let mut counts: Vec<usize> = Vec::new();
        let mut found = false;
        let mut t: usize = 0;
        while t < lists.len()
            invariant
                ls == lists_view(lists@),
                t <= lists@.len(),
                counts@ =~= freqs(ls, d).take(t as int),
                found <==> exists|u: int| 0 <= u < t && #[trigger] holds(ls, u, d),
            decreases lists@.len() - t,
        {
            match list_holds(&lists[t], d) {
                Some(c) => {
                    assert(holds(ls, t as int, d));
                    counts.push(c);
                    found = true;
                },
                None => {
                    assert(!holds(ls, t as int, d));
                    counts.push(0);
                },
            }
            t = t + 1;
        }
        proof {
            assert(counts@ =~= freqs(ls, d));
        }
        if found {
            match docs.get_path(d) {
                Some(p) => {
                    out.push(DocMatch { doc_id: d, path: p.to_owned(), freqs: counts });
                },
                None => {},
            }
        }
        proof {
            assert forall|e: DocId| 1 <= e <= i + 1 && #[trigger] any_hold(ls, e) implies exists|k: int|
                0 <= k < out@.len() && out@[k].doc_id == e by {
                if e == d {
                    let t = choose|t: int| 0 <= t < ls.len() && #[trigger] holds(ls, t, d);
                    assert(holds(ls, t, d));
                    assert(out@[out@.len() - 1].doc_id == d);
                } else {
                    let k = choose|k: int| 0 <= k < out_before.len() && out_before[k].doc_id == e;
                    assert(out@[k] == out_before[k]);
                }
            }
        }
        i = i + 1;
    }
    proof {
        assert forall|e: DocId| any_hold(ls, e) && docs.path_of(e) is Some implies exists|k: int|
            0 <= k < out@.len() && out@[k].doc_id == e by {
            assert(1 <= e <= i);
        }
    }
    out
}

/// Whether `x` is among `ps`.
fn positions_contain(ps: &Vec<Position>, x: Position) -> (r: bool)
    ensures
        r == ps@.contains(x),
{
    let mut i: usize = 0;
    while i < ps.len()
        invariant
            i <= ps@.len(),
            forall|j: int| 0 <= j < i ==> ps@[j] != x,
        decreases ps@.len() - i,
    {
        if ps[i] == x {
            assert(ps@[i as int] == x);
            return true;
        }
        i = i + 1;
    }
    false
}

/// Whether the phrase starts at position `p` of document `d`.
fn phrase_starts(lists: &Vec<Option<&Postings>>, d: DocId, p: Position) -> (r: bool)
    ensures
        r == phrase_at(lists_view(lists@), d, p),
{
    let ghost ls = lists_view(lists@);
    let mut k: usize = 1;
    while k < lists.len()
        invariant
            ls == lists_view(lists@),
            ls.len() == lists@.len(),
            1 <= k,
            k <= lists@.len() || lists@.len() == 0,
            forall|t: int| 1 <= t < k && t < ls.len() ==> #[trigger] continues(ls, d, p, t),
        decreases lists@.len() - k,
    {
        assert(ls[k as int] == match lists@[k as int] {
            Some(q) => Some(q@),
            None => None::<DocPositions>,
        });
        let ok = match lists[k] {
            Some(list) => match list.get(&d) {
                Some(ps) => {
                    if (k as u64) <= u64::MAX - p {
                        positions_contain(ps, p + k as u64)
                    } else {
                        false
                    }
                },
                None => false,
            },
            None => false,
        };
        assert(ok == continues(ls, d, p, k as int));
        if !ok {
            return false;
        }
        k = k + 1;
    }
    true
}

/// The documents of the first list in which the phrase occurs and that have
/// a path, in increasing order of id, with the number of times it occurs.
/// No list, no match.
pub fn match_phrase_in(lists: &Vec<Option<&Postings>>, docs: &DocTable) -> (r: Vec<PhraseMatch>)
    ensures
        phrase_matches_exactly(r@, lists_view(lists@), docs),
{
    let ghost ls = lists_view(lists@);
    let mut out: Vec<PhraseMatch> = Vec::new();
    if lists.len() == 0 {
        return out;
    }
    let first = match lists[0] {
        Some(p) => p,
        None => {
            return out;
        },
    };
    proof {
        use_type_invariant(first);
    }
    let entries = first.entries_slice();
    let ghost es = first.entries();
    let mut j: usize = 0;
    while j < entries.len()
        invariant
            ls == lists_view(lists@),
            lists@.len() > 0,
            lists@[0] == Some(first),
            crate::postings::entries_of(entries@) == es,
            es == first.entries(),
            crate::postings::sorted_keys(es),
            j <= entries@.len(),
            forall|a: int, b: int| 0 <= a < b < out@.len() ==> out@[a].doc_id < out@[b].doc_id,
            forall|k: int| 0 <= k < out@.len() ==> (#[trigger] out@[k]).doc_id < (if j
                < entries@.len() {
                es[j as int].0 as int
            } else {
                u64::MAX + 1
            }),
            forall|k: int|
                0 <= k < out@.len() ==> {
                    &&& docs.path_of(#[trigger] out@[k].doc_id) == Some(out@[k].path@)
                    &&& out@[k].count == phrase_count(ls, out@[k].doc_id)
                    &&& out@[k].count > 0
                },
            forall|i: int|
                0 <= i < j ==> #[trigger] phrase_count(ls, es[i].0) > 0 && docs.path_of(es[i].0) is Some
                    ==> exists|k: int| 0 <= k < out@.len() && out@[k].doc_id == es[i].0,
        decreases entries@.len() - j,
    {
        let d = entries[j].0;
        let positions = &entries[j].1;
        assert(es[j as int].0 == d);
        let ghost out_before = out@;
        proof {
            assert(first@.contains_key(d));
            assert(first@[d] == positions@);
            assert(holds(ls, 0, d));
        }
        let mut count: usize = 0;
        let mut t: usize = 0;
        while t < positions.len()
            invariant
                ls == lists_view(lists@),
                holds(ls, 0, d),
                ls[0]->Some_0[d] == positions@,
                t <= positions@.len(),
                count == phrase_count_upto(ls, d, positions@, t as int),
                count <= t,
            decreases positions@.len() - t,
        {
            if phrase_starts(lists, d, positions[t]) {
                count = count + 1;
            }
            t = t + 1;
        }
        if count > 0 {
            match docs.get_path(d) {
                Some(p) => {
                    out.push(PhraseMatch { doc_id: d, path: p.to_owned(), count });
                    proof {
                        assert forall|a: int, b: int| 0 <= a < b < out@.len() implies out@[a].doc_id
                            < out@[b].doc_id by {
                            if b == out_before.len() {
                                assert(out_before[a].doc_id < es[j as int].0);
                            }
                        }
                    }
                },
                None => {},
            }
        }
        proof {
            if j + 1 < entries@.len() {
                assert(es[j as int].0 < es[j + 1].0);
            }
            assert forall|i: int|
                0 <= i < j + 1 && #[trigger] phrase_count(ls, es[i].0) > 0 && docs.path_of(es[i].0) is Some implies exists|k: int|
                0 <= k < out@.len() && out@[k].doc_id == es[i].0 by {
                if i == j {
                    assert(out@[out@.len() - 1].doc_id == d);
                } else {
                    let k = choose|k: int| 0 <= k < out_before.len() && out_before[k].doc_id == es[i].0;
                    assert(out@[k] == out_before[k]);
                }
            }
        }
        j = j + 1;
    }
    proof {
        assert forall|d: DocId| phrase_count(ls, d) > 0 && docs.path_of(d) is Some implies exists|k: int|
            0 <= k < out@.len() && out@[k].doc_id == d by {
            assert(holds(ls, 0, d));
            assert(first@.contains_key(d));
            let i = choose|i: int| 0 <= i < es.len() && es[i].0 == d;
            assert(phrase_count(ls, es[i].0) > 0);
        }
    }
    out
}

/// The postings of `t` in `idx`, if it was indexed.
pub open spec fn postings_of(idx: IndexMap, t: Seq<char>) -> Option<DocPositions> {
    if idx.contains_key(t) {
        Some(idx[t])
    } else {
        None
    }
}

/// Runs the matching of a query over an index and its documents.
pub struct QueryProcessor<'a> {
    index: &'a InvertedIndex,
    doctable: &'a DocTable,
}

impl<'a> QueryProcessor<'a> {
    /// The index searched.
    pub closed spec fn index(&self) -> &'a InvertedIndex {
        self.index
    }

    /// The documents that answers name.
    pub closed spec fn doctable(&self) -> &'a DocTable {
        self.doctable
    }

    pub fn new(index: &'a InvertedIndex, doctable: &'a DocTable) -> (q: Self)
        ensures
            q.index() == index,
            q.doctable() == doctable,
    {
        QueryProcessor { index, doctable }
    }

    /// The postings of each term, in the order of the terms.
    pub fn term_lists(&self, terms: &Vec<String>) -> (r: Vec<Option<&'a Postings>>)
        ensures
            lists_view(r@) == terms@.map_values(|t: String| postings_of(self.index()@, t@)),
    {
        let mut out: Vec<Option<&'a Postings>> = Vec::new();
        let mut i: usize = 0;
        while i < terms.len()
            invariant
                i <= terms@.len(),
                lists_view(out@) =~= terms@.take(i as int).map_values(
                    |t: String| postings_of(self.index()@, t@),
                ),
            decreases terms@.len() - i,
        {
            let l = self.index.lookup(terms[i].as_str());
            let ghost before = out@;
            out.push(l);
            proof {
                assert(lists_view(out@) =~= lists_view(before).push(
                    postings_of(self.index()@, terms@[i as int]@),
                ));
                assert(terms@.take(i + 1) =~= terms@.take(i as int).push(terms@[i as int]));
            }
            i = i + 1;
        }
        proof {
            assert(terms@.take(i as int) =~= terms@);
        }
        out
    }

    /// The documents that hold every term of the query.
    pub fn match_all(&self, query: &str) -> (r: Vec<DocMatch>)
        ensures
            ({
                let ls = tokens_of(query@).map_values(
                    |t: (Seq<char>, Position)| postings_of(self.index()@, t.0),
                );
                &&& ls.len() == 0 ==> r@.len() == 0
                &&& ls.len() > 0 ==> doc_matches_exactly(
                    r@,
                    ls,
                    self.doctable(),
                    |d: DocId| all_hold(ls, d),
                )
            }),
    {
        let terms = query_terms(query);
        let lists = self.term_lists(&terms);
        proof {
            self.lemma_lists(query@, terms@, lists@);
        }
        match_all_in(&lists, self.doctable)
    }

    /// The documents that hold some term of the query.
    pub fn match_any(&self, query: &str) -> (r: Vec<DocMatch>)
        ensures
            ({
                let ls = tokens_of(query@).map_values(
                    |t: (Seq<char>, Position)| postings_of(self.index()@, t.0),
                );
                doc_matches_exactly(r@, ls, self.doctable(), |d: DocId| any_hold(ls, d))
            }),
    {
        let terms = query_terms(query);
        let lists = self.term_lists(&terms);
        proof {
            self.lemma_lists(query@, terms@, lists@);
        }
        match_any_in(&lists, self.doctable)
    }

    /// The documents in which the terms of the query occur one after the
    /// other, with the number of times they do.
    pub fn match_phrase(&self, query: &str) -> (r: Vec<PhraseMatch>)
        ensures
            phrase_matches_exactly(
                r@,
                tokens_of(query@).map_values(
                    |t: (Seq<char>, Position)| postings_of(self.index()@, t.0),
                ),
                self.doctable(),
            ),
    {
        let terms = query_terms(query);
        let lists = self.term_lists(&terms);
        proof {
            self.lemma_lists(query@, terms@, lists@);
        }
        match_phrase_in(&lists, self.doctable)
    }

    proof fn lemma_lists(&self, q: Seq<char>, terms: Seq<String>, lists: Seq<Option<&Postings>>)
        requires
            terms.map_values(|t: String| t@) == tokens_of(q).map_values(
                |t: (Seq<char>, Position)| t.0,
            ),
            lists_view(lists) == terms.map_values(|t: String| postings_of(self.index()@, t@)),
        ensures
            lists_view(lists) == tokens_of(q).map_values(
                |t: (Seq<char>, Position)| postings_of(self.index()@, t.0),
            ),
    {
        let a = terms.map_values(|t: String| t@);
        let b = tokens_of(q).map_values(|t: (Seq<char>, Position)| t.0);
        assert(a.len() == b.len());
        let x = terms.map_values(|t: String| postings_of(self.index()@, t@));
        let y = tokens_of(q).map_values(|t: (Seq<char>, Position)| postings_of(self.index()@, t.0));
        assert forall|i: int| 0 <= i < terms.len() implies #[trigger] x[i] == y[i] by {
            assert(a[i] == b[i]);
        }
        assert(x =~= y);
    }
}

/// A document that holds every term of a query with terms holds some term:
/// what an all-terms query finds, an any-term query finds too.
pub proof fn lemma_all_within_any(ls: Seq<Option<DocPositions>>, d: DocId)
    requires
        ls.len() > 0,
        all_hold(ls, d),
    ensures
        any_hold(ls, d),
{
    assert(holds(ls, 0, d));
}

/// A document in which a phrase occurs holds every term of the phrase: what
/// a phrase query finds, an all-terms query finds too.
pub proof fn lemma_phrase_within_all(ls: Seq<Option<DocPositions>>, d: DocId)
    requires
        phrase_count(ls, d) > 0,
    ensures
        all_hold(ls, d),
{
    let ps = ls[0]->Some_0[d];
    let p = lemma_phrase_witness(ls, d, ps, ps.len() as int);
    assert forall|k: int| 0 <= k < ls.len() implies #[trigger] holds(ls, k, d) by {
        if k > 0 {
            assert(continues(ls, d, p, k));
        }
    }
}

proof fn lemma_phrase_witness(ls: Seq<Option<DocPositions>>, d: DocId, ps: Seq<Position>, n: int) -> (p: Position)
    requires
        phrase_count_upto(ls, d, ps, n) > 0,
    ensures
        phrase_at(ls, d, p),
    decreases n,
{
    if n > 0 && phrase_at(ls, d, ps[n - 1]) {
        ps[n - 1]
    } else {
        lemma_phrase_witness(ls, d, ps, n - 1)
    }
}

proof fn lemma_increasing_same_members(a: Seq<DocId>, b: Seq<DocId>)
    requires
        forall|i: int, j: int| 0 <= i < j < a.len() ==> a[i] < a[j],
        forall|i: int, j: int| 0 <= i < j < b.len() ==> b[i] < b[j],
        forall|x: DocId| a.contains(x) <==> b.contains(x),
    ensures
        a == b,
    decreases a.len(),
{
    if a.len() == 0 {
        if b.len() > 0 {
            assert(b.contains(b[0]));
        }
        assert(a =~= b);
    } else {
        assert(a.contains(a[0]));
        assert(b.len() > 0);
        assert(b.contains(b[0]));
        let j = choose|j: int| 0 <= j < b.len() && b[j] == a[0];
        let i = choose|i: int| 0 <= i < a.len() && a[i] == b[0];
        if j > 0 {
            assert(b[0] < b[j]);
            if i > 0 {
                assert(a[0] < a[i]);
            }
        }
        assert(a[0] == b[0]);
        let a1 = a.drop_first();
        let b1 = b.drop_first();
        assert forall|x: DocId| a1.contains(x) <==> b1.contains(x) by {
            if a1.contains(x) {
                let k = choose|k: int| 0 <= k < a1.len() && a1[k] == x;
                assert(a[k + 1] == x && a[0] < a[k + 1]);
                assert(b.contains(x));
                let m = choose|m: int| 0 <= m < b.len() && b[m] == x;
                assert(m != 0);
                assert(b1[m - 1] == x);
            }
            if b1.contains(x) {
                let k = choose|k: int| 0 <= k < b1.len() && b1[k] == x;
                assert(b[k + 1] == x && b[0] < b[k + 1]);
                assert(a.contains(x));
                let m = choose|m: int| 0 <= m < a.len() && a[m] == x;
                assert(m != 0);
                assert(a1[m - 1] == x);
            }
        }
        lemma_increasing_same_members(a1, b1);
        assert(a =~= seq![a[0]] + a1);
        assert(b =~= seq![b[0]] + b1);
    }
}

/// The ids of the matches, in order.
pub open spec fn match_ids(r: Seq<DocMatch>) -> Seq<DocId> {
    r.map_values(|m: DocMatch| m.doc_id)
}

/// The matches of a query are determined by the postings of its terms and
/// the paths of the documents: two results that both answer it exactly are
/// the same, match for match. So an index read back with the same postings
/// and paths answers every query as the one it was written from.
pub proof fn lemma_matches_determined(
    r1: Seq<DocMatch>,
    r2: Seq<DocMatch>,
    ls: Seq<Option<DocPositions>>,
    docs1: &DocTable,
    docs2: &DocTable,
    pred: spec_fn(DocId) -> bool,
)
    requires
        doc_matches_exactly(r1, ls, docs1, pred),
        doc_matches_exactly(r2, ls, docs2, pred),
        docs1.paths() == docs2.paths(),
    ensures
        r1.len() == r2.len(),
        forall|k: int|
            0 <= k < r1.len() ==> {
                &&& (#[trigger] r1[k]).doc_id == r2[k].doc_id
                &&& r1[k].path@ == r2[k].path@
                &&& r1[k].freqs@ == r2[k].freqs@
            },
{
    let a = match_ids(r1);
    let b = match_ids(r2);
    assert forall|x: DocId| a.contains(x) <==> b.contains(x) by {
        if a.contains(x) {
            let k = choose|k: int| 0 <= k < a.len() && a[k] == x;
            assert(pred(r1[k].doc_id));
            assert(docs2.path_of(x) is Some);
            let m = choose|m: int| 0 <= m < r2.len() && r2[m].doc_id == x;
            assert(b[m] == x);
        }
        if b.contains(x) {
            let k = choose|k: int| 0 <= k < b.len() && b[k] == x;
            assert(pred(r2[k].doc_id));
            assert(docs1.path_of(x) is Some);
            let m = choose|m: int| 0 <= m < r1.len() && r1[m].doc_id == x;
            assert(a[m] == x);
        }
    }
    lemma_increasing_same_members(a, b);
    assert forall|k: int| 0 <= k < r1.len() implies {
        &&& (#[trigger] r1[k]).doc_id == r2[k].doc_id
        &&& r1[k].path@ == r2[k].path@
        &&& r1[k].freqs@ == r2[k].freqs@
    } by {
        assert(a[k] == b[k]);
        assert(pred(r1[k].doc_id) && pred(r2[k].doc_id));
    }
}

/// Whether the phrase starts at position `p` of document `d`, stated over
/// the postings: for every `k` from 1 on, the `k`-th term's positions in `d`
/// hold `p + k`.
pub open spec fn starts_phrase(ls: Seq<Option<DocPositions>>, d: DocId, p: Position) -> bool {
    forall|k: int|
        1 <= k < ls.len() ==> (#[trigger] ls[k] matches Some(m) && m.contains_key(d) && p + k
            <= u64::MAX && m[d].contains((p + k) as u64))
}

proof fn lemma_phrase_at_starts(ls: Seq<Option<DocPositions>>, d: DocId, p: Position)
    ensures
        phrase_at(ls, d, p) == starts_phrase(ls, d, p),
{
    if phrase_at(ls, d, p) {
        assert forall|k: int| 1 <= k < ls.len() implies (#[trigger] ls[k] matches Some(m)
            && m.contains_key(d) && p + k <= u64::MAX && m[d].contains((p + k) as u64)) by {
            assert(continues(ls, d, p, k));
        }
    }
    if starts_phrase(ls, d, p) {
        assert forall|k: int| 1 <= k < ls.len() implies #[trigger] continues(ls, d, p, k) by {
            assert(ls[k] matches Some(m) && m.contains_key(d) && p + k <= u64::MAX && m[d].contains(
                (p + k) as u64,
            ));
        }
    }
}

proof fn lemma_phrase_count_upto_filter(
    ls: Seq<Option<DocPositions>>,
    d: DocId,
    ps: Seq<Position>,
    n: int,
)
    requires
        0 <= n <= ps.len(),
    ensures
        phrase_count_upto(ls, d, ps, n) == ps.take(n).filter(
            |p: Position| starts_phrase(ls, d, p),
        ).len(),
    decreases n,
{
    let pred = |p: Position| starts_phrase(ls, d, p);
    if n == 0 {
        assert(ps.take(0) =~= Seq::<Position>::empty());
        reveal(Seq::filter);
    } else {
        lemma_phrase_count_upto_filter(ls, d, ps, n - 1);
        assert(ps.take(n) =~= ps.take(n - 1).push(ps[n - 1]));
        ps.take(n - 1).lemma_filter_push(ps[n - 1], pred);
        lemma_phrase_at_starts(ls, d, ps[n - 1]);
    }
}

/// The number of times a phrase occurs in document `d` is the number of
/// positions `p` of the first term in `d` (counted as listed) such that,
/// for every `k` from 1 to the number of terms minus 1, the `k`-th term's
/// positions in `d` hold `p + k`; so the phrase occurs in `d` exactly when
/// some such `p` exists. A document that the first term does not reach has
/// none.
pub proof fn lemma_phrase_count_counts_starts(ls: Seq<Option<DocPositions>>, d: DocId)
    ensures
        phrase_count(ls, d) == if ls.len() > 0 && ls[0] is Some && ls[0]->Some_0.contains_key(d) {
            ls[0]->Some_0[d].filter(|p: Position| starts_phrase(ls, d, p)).len() as int
        } else {
            0
        },
        phrase_count(ls, d) > 0 <==> (ls.len() > 0 && ls[0] is Some && ls[0]->Some_0.contains_key(d)
            && exists|p: Position|
            #[trigger] ls[0]->Some_0[d].contains(p) && starts_phrase(ls, d, p)),
{
    let pred = |p: Position| starts_phrase(ls, d, p);
    if ls.len() > 0 && ls[0] is Some && ls[0]->Some_0.contains_key(d) {
        let ps = ls[0]->Some_0[d];
        lemma_phrase_count_upto_filter(ls, d, ps, ps.len() as int);
        assert(ps.take(ps.len() as int) =~= ps);
        let f = ps.filter(pred);
        if f.len() > 0 {
            ps.lemma_filter_contains_rev(pred, f[0]);
            assert(f.contains(f[0]));
            assert(pred(f[0]));
            assert(ps.contains(f[0]));
        }
        if exists|p: Position| #[trigger] ps.contains(p) && starts_phrase(ls, d, p) {
            let p = choose|p: Position| #[trigger] ps.contains(p) && starts_phrase(ls, d, p);
            let i = choose|i: int| 0 <= i < ps.len() && ps[i] == p;
            ps.lemma_filter_contains(pred, i);
        }
    }
}

} // verus!
