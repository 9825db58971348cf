//! The interactive shell's commands: what a line of input asks for, and how
//! the shell's settings change.

use vstd::prelude::*;

use crate::format::{parse_usize, parse_usize_chars};
use crate::parser::{char_is_whitespace, push_char, str_chars, unicode_whitespace};
use crate::codec::PostingCodec;
use crate::query::QueryMode;
use crate::reader::{SegmentReader, SegmentReaderCache};

verus! {

/// The shell's settings: how many results to show and the default mode.
#[derive(Debug, Clone, Copy)]
pub struct ReplState {
    pub limit: usize,
    pub mode: QueryMode,
}

impl Default for ReplState {
    fn default() -> (s: Self)
        ensures
            s.limit == 10,
            s.mode == QueryMode::All,
    {
        ReplState { limit: 10, mode: QueryMode::All }
    }
}

/// What a line of input asks the shell to do.
#[derive(Debug, Clone, PartialEq, Eq)]
pub enum ReplCommand {
    /// `:q` or `:quit`.
    Exit,
    /// `:help`.
    Help,
    /// `:stats`.
    Stats,
    /// `:mode`: show the mode.
    ShowMode,
    /// `:limit`: show the limit.
    ShowLimit,
    /// `:limit <n>` with a positive number.
    SetLimit(usize),
    /// `:limit <value>` with anything else; the value is kept.
    InvalidLimit(String),
    /// `:mode <name>` with a known name.
    SetMode(QueryMode),
    /// `:mode <value>` with anything else; the value is kept.
    InvalidMode(String),
    /// Anything else: a query.
    Search,
}

/// The mode that `:mode <value>` names (case matters).
pub open spec fn repl_mode_named(v: Seq<char>) -> Option<QueryMode> {
    if v == "and"@ || v == "all"@ {
        Some(QueryMode::All)
    } else if v == "or"@ || v == "any"@ {
        Some(QueryMode::Any)
    } else if v == "phrase"@ {
        Some(QueryMode::Phrase)
    } else {
        None
    }
}

/// Whether `s` starts with `p`.
pub open spec fn starts_with(s: Seq<char>, p: Seq<char>) -> bool {
    p.len() <= s.len() && s.take(p.len() as int) == p
}

/// The text of `s` from character `i` on.
fn chars_from(s: &str, i: usize) -> (r: String)
    ensures
        i <= s@.len() ==> r@ == s@.skip(i as int),
{
    let cs = str_chars(s);
    let mut out = String::new();
    let mut k: usize = i;
    if k > cs.len() {
        return out;
    }
    while k < cs.len()
        invariant
            i <= k <= cs@.len(),
            cs@ == s@,
            out@ =~= s@.subrange(i as int, k as int),
        decreases cs@.len() - k,
    {
        push_char(&mut out, cs[k]);
        k = k + 1;
    }
    out
}

/// Whether `s` starts with `p`.
fn has_start(s: &str, p: &str) -> (b: bool)
    ensures
        b == starts_with(s@, p@),
{
    let cs = str_chars(s);
    let ps = str_chars(p);
    if ps.len() > cs.len() {
        return false;
    }
    let mut i: usize = 0;
    while i < ps.len()
        invariant
            i <= ps@.len() <= cs@.len(),
            cs@ == s@,
            ps@ == p@,
            forall|j: int| 0 <= j < i ==> cs@[j] == ps@[j],
        decreases ps@.len() - i,
    {
        if cs[i] != ps[i] {
            proof {
                assert(s@.take(p@.len() as int)[i as int] != p@[i as int]);
            }
            return false;
        }
        i = i + 1;
    }
    proof {
        assert(s@.take(p@.len() as int) =~= p@);
    }
    true
}

fn is_text(s: &str, t: &str) -> (b: bool)
    ensures
        b == (s@ == t@),
{
    s.to_owned() == t.to_owned()
}

/// What a line of input (already trimmed) asks for: one of the commands
/// `:q`, `:quit`, `:help`, `:stats`, `:mode`, `:limit`, `:limit <n>`,
/// `:mode <name>`, or else a query.
pub fn parse_repl_command(input: &str) -> (r: ReplCommand)
    ensures
        if input@ == ":q"@ || input@ == ":quit"@ {
            r == ReplCommand::Exit
        } else if input@ == ":help"@ {
            r == ReplCommand::Help
        } else if input@ == ":stats"@ {
            r == ReplCommand::Stats
        } else if input@ == ":mode"@ {
            r == ReplCommand::ShowMode
        } else if input@ == ":limit"@ {
            r == ReplCommand::ShowLimit
        } else if starts_with(input@, ":limit "@) {
            match parse_usize(input@.skip(7)) {
                Some(n) => if n > 0 {
                    r == ReplCommand::SetLimit(n as usize)
                } else {
                    r matches ReplCommand::InvalidLimit(v) && v@ == input@.skip(7)
                },
                None => r matches ReplCommand::InvalidLimit(v) && v@ == input@.skip(7),
            }
        } else if starts_with(input@, ":mode "@) {
            match repl_mode_named(input@.skip(6)) {
                Some(m) => r == ReplCommand::SetMode(m),
                None => r matches ReplCommand::InvalidMode(v) && v@ == input@.skip(6),
            }
        } else {
            r == ReplCommand::Search
        },
{
    proof {
        reveal_strlit(":limit ");
        reveal_strlit(":mode ");
    }
    if is_text(input, ":q") || is_text(input, ":quit") {
        ReplCommand::Exit
    } else if is_text(input, ":help") {
        ReplCommand::Help
    } else if is_text(input, ":stats") {
        ReplCommand::Stats
    } else if is_text(input, ":mode") {
        ReplCommand::ShowMode
    } else if is_text(input, ":limit") {
        ReplCommand::ShowLimit
    } else if has_start(input, ":limit ") {
        let value = chars_from(input, 7);
        let cs = str_chars(value.as_str());
        match parse_usize_chars(cs.as_slice()) {
            Some(n) => if n > 0 {
                ReplCommand::SetLimit(n)
            } else {
                ReplCommand::InvalidLimit(value)
            },
            None => ReplCommand::InvalidLimit(value),
        }
    } else if has_start(input, ":mode ") {
        let value = chars_from(input, 6);
        let v = value.as_str();
        if is_text(v, "and") || is_text(v, "all") {
            ReplCommand::SetMode(QueryMode::All)
        } else if is_text(v, "or") || is_text(v, "any") {
            ReplCommand::SetMode(QueryMode::Any)
        } else if is_text(v, "phrase") {
            ReplCommand::SetMode(QueryMode::Phrase)
        } else {
            ReplCommand::InvalidMode(value)
        }
    } else {
        ReplCommand::Search
    }
}

impl ReplState {
    /// The settings after a command: a valid limit or mode replaces the
    /// one held; anything else leaves them.
    pub fn apply(&mut self, command: &ReplCommand)
        ensures
            match command {
                ReplCommand::SetLimit(n) => final(self).limit == *n && final(self).mode == old(self).mode,
                ReplCommand::SetMode(m) => final(self).mode == *m && final(self).limit == old(self).limit,
                _ => *final(self) == *old(self),
            },
    {
        match command {
            ReplCommand::SetLimit(n) => {
                self.limit = *n;
            },
            ReplCommand::SetMode(m) => {
                self.mode = *m;
            },
            _ => {},
        }
    }
}

/// The index of the first character of `s` at or after `i` that is not
/// whitespace (the length when there is none).
pub open spec fn first_solid(s: Seq<char>, i: int) -> int
    decreases s.len() - i,
{
    if i >= s.len() || i < 0 {
        s.len() as int
    } else if !unicode_whitespace(s[i]) {
        i
    } else {
        first_solid(s, i + 1)
    }
}

/// One past the last character of `s` before `j` that is not whitespace
/// (0 when there is none).
pub open spec fn last_solid(s: Seq<char>, j: int) -> int
    decreases j,
{
    if j <= 0 || j > s.len() {
        0
    } else if !unicode_whitespace(s[j - 1]) {
        j
    } else {
        last_solid(s, j - 1)
    }
}

/// `s` without whitespace at either end (`str::trim`).
pub open spec fn trimmed(s: Seq<char>) -> Seq<char> {
    let a = first_solid(s, 0);
    if a >= s.len() {
        Seq::empty()
    } else {
        s.subrange(a, last_solid(s, s.len() as int))
    }
}

/// A line of input made ready to read: without whitespace at either end,
/// and with every full-width colon replaced by a colon.
pub open spec fn normalized_input(s: Seq<char>) -> Seq<char> {
    let t = trimmed(s);
    Seq::new(t.len(), |i: int| if t[i] == '\u{ff1a}' { ':' } else { t[i] })
}

proof fn lemma_solid(s: Seq<char>)
    ensures
        0 <= first_solid(s, 0) <= s.len(),
        first_solid(s, 0) < s.len() ==> first_solid(s, 0) < last_solid(s, s.len() as int) <= s.len(),
{
    lemma_first_solid(s, 0);
    lemma_last_solid(s, s.len() as int);
    let a = first_solid(s, 0);
    if a < s.len() {
        lemma_last_above(s, s.len() as int, a);
    }
}

proof fn lemma_first_solid(s: Seq<char>, i: int)
    requires
        0 <= i <= s.len(),
    ensures
        i <= first_solid(s, i) <= s.len(),
        first_solid(s, i) < s.len() ==> !unicode_whitespace(s[first_solid(s, i)]),
    decreases s.len() - i,
{
    if i < s.len() && unicode_whitespace(s[i]) {
        lemma_first_solid(s, i + 1);
    }
}

proof fn lemma_last_solid(s: Seq<char>, j: int)
    requires
        0 <= j <= s.len(),
    ensures
        0 <= last_solid(s, j) <= j,
    decreases j,
{
    if j > 0 && unicode_whitespace(s[j - 1]) {
        lemma_last_solid(s, j - 1);
    }
}

proof fn lemma_last_above(s: Seq<char>, j: int, a: int)
    requires
        0 <= a < j <= s.len(),
        !unicode_whitespace(s[a]),
    ensures
        a < last_solid(s, j),
    decreases j,
{
    if unicode_whitespace(s[j - 1]) {
        lemma_last_above(s, j - 1, a);
    }
}

/// A line of input made ready to read: trimmed, with full-width colons
/// replaced by colons.
pub fn normalize_input(line: &str) -> (r: String)
    ensures
        r@ == normalized_input(line@),
{
    let cs = str_chars(line);
    let n = cs.len();
    proof {
        lemma_solid(line@);
    }
    let mut a: usize = 0;
    while a < n && char_is_whitespace(cs[a])
        invariant
            n == cs@.len(),
            cs@ == line@,
            a <= n,
            first_solid(line@, 0) == first_solid(line@, a as int),
        decreases n - a,
    {
        a = a + 1;
    }
    let mut out = String::new();
    if a >= n {
        proof {
            assert(out@ =~= normalized_input(line@));
        }
        return out;
    }
    let mut b: usize = n;
    while b > 0 && char_is_whitespace(cs[b - 1])
        invariant
            n == cs@.len(),
            cs@ == line@,
            b <= n,
            last_solid(line@, n as int) == last_solid(line@, b as int),
        decreases b,
    {
        b = b - 1;
    }
    let ghost t = trimmed(line@);
    proof {
        assert(t =~= line@.subrange(a as int, b as int));
    }
    let mut k: usize = a;
    while k < b
        invariant
            a <= k <= b <= n,
            n == cs@.len(),
            cs@ == line@,
            t == line@.subrange(a as int, b as int),
            t == trimmed(line@),
            out@ =~= normalized_input(line@).take(k - a),
            normalized_input(line@).len() == t.len(),
        decreases b - k,
    {
        let c = cs[k];
        proof {
            let i = k - a;
            assert(t[i] == c);
            assert(normalized_input(line@)[i] == if t[i] == '\u{ff1a}' {
                ':'
            } else {
                t[i]
            });
        }
        if c == '\u{ff1a}' {
            push_char(&mut out, ':');
        } else {
            push_char(&mut out, c);
        }
        proof {
            assert(normalized_input(line@).take(k + 1 - a) =~= normalized_input(line@).take(k - a).push(
                normalized_input(line@)[k - a],
            ));
        }
        k = k + 1;
    }
    proof {
        assert(normalized_input(line@).take(b - a) =~= normalized_input(line@));
    }
    out
}

/// Counts over all segments, for `:stats`.
#[derive(Debug, Clone, Copy, PartialEq, Eq)]
pub struct ReplStats {
    pub segments: usize,
    pub docs: usize,
    pub terms: usize,
    pub postings: usize,
    pub positions: usize,
}

/// The counts of the first `n` readers, summed: documents, terms, (term,
/// document) pairs and positions.
pub open spec fn counts_upto<C: PostingCodec>(rs: Seq<SegmentReader<C>>, n: int) -> (int, int, int, int)
    decreases n,
{
    if n <= 0 {
        (0, 0, 0, 0)
    } else {
        let (d, t, p, q) = counts_upto(rs, n - 1);
        let r = rs[n - 1];
        (
            d + r.data_docs().spec_len(),
            t + r.data_meta().term_count,
            p + r.data_meta().posting_count,
            q + r.data_meta().position_count,
        )
    }
}

proof fn lemma_counts_mono<C: PostingCodec>(rs: Seq<SegmentReader<C>>, m: int, n: int)
    requires
        0 <= m <= n,
    ensures
        0 <= counts_upto(rs, m).0 <= counts_upto(rs, n).0,
        0 <= counts_upto(rs, m).1 <= counts_upto(rs, n).1,
        0 <= counts_upto(rs, m).2 <= counts_upto(rs, n).2,
        0 <= counts_upto(rs, m).3 <= counts_upto(rs, n).3,
    decreases n,
{
    if n > m {
        lemma_counts_mono(rs, m, n - 1);
    } else if n > 0 {
        lemma_counts_mono(rs, 0, n - 1);
    }
}

impl ReplStats {
    /// The counts over all segments of the cache; `None` when a sum does not
    /// fit in a `usize`.
    pub fn from_cache<C: PostingCodec>(cache: &SegmentReaderCache<C>) -> (r: Option<ReplStats>)
        ensures
            ({
                let rs = cache.reader_seq();
                let c = counts_upto(rs, rs.len() as int);
                match r {
                    Some(s) => s.segments == rs.len() && s.docs == c.0 && s.terms == c.1
                        && s.postings == c.2 && s.positions == c.3,
                    None => c.0 > usize::MAX || c.1 > usize::MAX || c.2 > usize::MAX || c.3
                        > usize::MAX,
                }
            }),
    {
        let readers = cache.readers();
        let ghost rs = cache.reader_seq();
        let mut docs: usize = 0;
        let mut terms: usize = 0;
        let mut postings: usize = 0;
        let mut positions: usize = 0;
        let mut i: usize = 0;
        while i < readers.len()
            invariant
                readers@ == rs,
                rs == cache.reader_seq(),
                i <= rs.len(),
                (docs as int, terms as int, postings as int, positions as int) == counts_upto(
                    rs,
                    i as int,
                ),
            decreases rs.len() - i,
        {
            let r = &readers[i];
            proof {
                assert(*r == rs[i as int]);
                assert(counts_upto(rs, i + 1) == (
                    docs + r.data_docs().spec_len(),
                    terms + r.data_meta().term_count,
                    postings + r.data_meta().posting_count,
                    positions + r.data_meta().position_count,
                ));
            }
            let d = docs.checked_add(r.doc_count());
            let t = terms.checked_add(r.term_count());
            let p = postings.checked_add(r.posting_count());
            let q = positions.checked_add(r.position_count());
            match (d, t, p, q) {
                (Some(d), Some(t), Some(p), Some(q)) => {
                    docs = d;
                    terms = t;
                    postings = p;
                    positions = q;
                },
                _ => {
                    proof {
                        lemma_counts_mono(rs, i + 1, rs.len() as int);
                        let c = counts_upto(rs, i + 1);
                        assert(c.0 > usize::MAX || c.1 > usize::MAX || c.2 > usize::MAX || c.3
                            > usize::MAX);
                    }
                    return None;
                },
            }
            i = i + 1;
        }
        Some(ReplStats { segments: readers.len(), docs, terms, postings, positions })
    }
}

} // verus!
