//! Turning text into tokens: splitting on whitespace, keeping letters and
//! digits, lowercasing, and cutting Project Gutenberg boilerplate.

use vstd::prelude::*;

use crate::postings::Position;
use vstd::std_specs::iter::IteratorSpec;

verus! {

/// Whether `c` is alphabetic or numeric in Unicode (`char::is_alphanumeric`).
pub uninterp spec fn unicode_alphanumeric(c: char) -> bool;

/// Whether `c` has the Unicode White_Space property (`char::is_whitespace`).
pub uninterp spec fn unicode_whitespace(c: char) -> bool;

/// The lowercase mapping of `c` in Unicode (`char::to_lowercase`).
pub uninterp spec fn unicode_lowercase(c: char) -> Seq<char>;

/// `char::is_alphanumeric`: its result is named by `unicode_alphanumeric`.
#[verifier::external_body]
fn char_is_alphanumeric(c: char) -> (r: bool)
    ensures
        r == unicode_alphanumeric(c),
{
    c.is_alphanumeric()
}

/// `char::is_whitespace`: its result is named by `unicode_whitespace`.
#[verifier::external_body]
pub(crate) fn char_is_whitespace(c: char) -> (r: bool)
    ensures
        r == unicode_whitespace(c),
{
    c.is_whitespace()
}

/// `char::to_lowercase`, its characters collected: named by
/// `unicode_lowercase`.
#[verifier::external_body]
fn char_to_lowercase(c: char) -> (r: Vec<char>)
    ensures
        r@ == unicode_lowercase(c),
{
    c.to_lowercase().collect()
}

/// The characters of `s` in order.
pub(crate) fn str_chars(s: &str) -> (r: Vec<char>)
    ensures
        r@ == s@,
{
    broadcast use vstd::string::group_string_axioms;

    let mut out: Vec<char> = Vec::new();
    let mut chars = s.chars();
    assert(chars.remaining() == s@);
    loop
        invariant
            chars.obeys_prophetic_iter_laws(),
            chars.decrease() is Some,
            out@ + chars.remaining() == s@,
        ensures
            out@ == s@,
        decreases chars.decrease()->0,
    {
        match chars.next() {
            Some(c) => {
                out.push(c);
            },
            None => {
                assert(chars.remaining().len() == 0);
                assert(out@ + chars.remaining() =~= out@);
                break;
            },
        }
    }
    out
}

/// `String::push`: appends one character.
#[verifier::external_body]
pub(crate) fn push_char(s: &mut String, c: char)
    ensures
        final(s)@ == old(s)@.push(c),
{
    s.push(c)
}

/// The maximal runs of non-whitespace characters of `s`, in order (what
/// `str::split_whitespace` yields).
pub open spec fn words(s: Seq<char>) -> Seq<Seq<char>>
    decreases s.len(),
{
    if s.len() == 0 {
        Seq::empty()
    } else {
        let init = s.drop_last();
        let c = s.last();
        let w = words(init);
        if unicode_whitespace(c) {
            w
        } else if init.len() == 0 || unicode_whitespace(init.last()) {
            w.push(seq![c])
        } else {
            w.update(w.len() - 1, w.last().push(c))
        }
    }
}

/// The letters and digits of `s`, each lowercased.
pub open spec fn normalized(s: Seq<char>) -> Seq<char>
    decreases s.len(),
{
    if s.len() == 0 {
        Seq::empty()
    } else {
        normalized(s.drop_last()) + if unicode_alphanumeric(s.last()) {
            unicode_lowercase(s.last())
        } else {
            Seq::empty()
        }
    }
}

/// Normalizing keeps every letter and digit of `s` (each character for
/// which `char::is_alphanumeric` holds), in order, and replaces each by its
/// lowercase form; every other character is dropped.
pub proof fn lemma_normalized_keeps_alphanumerics(s: Seq<char>)
    ensures
        normalized(s) == s.filter(|c: char| unicode_alphanumeric(c)).map_values(
            |c: char| unicode_lowercase(c),
        ).flatten(),
    decreases s.len(),
{
    let pred = |c: char| unicode_alphanumeric(c);
    let low = |c: char| unicode_lowercase(c);
    if s.len() == 0 {
        reveal(Seq::filter);
        assert(s.filter(pred) =~= Seq::<char>::empty());
        assert(s.filter(pred).map_values(low) =~= Seq::<Seq<char>>::empty());
        assert(normalized(s) =~= Seq::<char>::empty());
    } else {
        let init = s.drop_last();
        let c = s.last();
        lemma_normalized_keeps_alphanumerics(init);
        assert(init.push(c) =~= s);
        init.lemma_filter_push(c, pred);
        let f = init.filter(pred);
        if pred(c) {
            assert(f.push(c).map_values(low) =~= f.map_values(low).push(low(c)));
            f.map_values(low).lemma_flatten_push(low(c));
        } else {
            assert(normalized(s) =~= normalized(init));
        }
    }
}

/// The tokens of a list of words: each word normalized, paired with its
/// index among all the words; words that normalize to nothing are dropped.
pub open spec fn tokens_of_words(ws: Seq<Seq<char>>) -> Seq<(Seq<char>, Position)>
    decreases ws.len(),
{
    if ws.len() == 0 {
        Seq::empty()
    } else {
        let n = normalized(ws.last());
        tokens_of_words(ws.drop_last()) + if n.len() > 0 {
            seq![(n, (ws.len() - 1) as Position)]
        } else {
            Seq::empty()
        }
    }
}

/// The tokens of a text.
pub open spec fn tokens_of(s: Seq<char>) -> Seq<(Seq<char>, Position)> {
    tokens_of_words(words(s))
}

fn normalize_chars(raw: &[char]) -> (r: String)
    ensures
        r@ == normalized(raw@),
{
    let mut out = String::new();
    let mut i: usize = 0;
    while i < raw.len()
        invariant
            i <= raw@.len(),
            out@ == normalized(raw@.take(i as int)),
        decreases raw@.len() - i,
    {
        let c = raw[i];
        proof {
            assert(raw@.take(i + 1).drop_last() =~= raw@.take(i as int));
            assert(raw@.take(i + 1).last() == c);
        }
        if char_is_alphanumeric(c) {
            let lower = char_to_lowercase(c);
            let mut j: usize = 0;
            let ghost before = out@;
            while j < lower.len()
                invariant
                    j <= lower@.len(),
                    out@ == before + lower@.take(j as int),
                decreases lower@.len() - j,
            {
                push_char(&mut out, lower[j]);
                proof {
                    assert(lower@.take(j + 1) =~= lower@.take(j as int).push(lower@[j as int]));
                }
                j = j + 1;
            }
            proof {
                assert(lower@.take(j as int) =~= lower@);
            }
        } else {
            proof {
                assert(out@ + Seq::<char>::empty() =~= out@);
            }
        }
        i = i + 1;
    }
    proof {
        assert(raw@.take(i as int) =~= raw@);
    }
    out
}

/// The letters and digits of `raw`, lowercased.
pub fn normalize(raw: &str) -> (r: String)
    ensures
        r@ == normalized(raw@),
{
    let chars = str_chars(raw);
    normalize_chars(chars.as_slice())
}

/// Splits `content` on whitespace and normalizes each word; a word's
/// position is its index among all words, and words that normalize to
/// nothing are left out.
pub fn tokenize(content: &str) -> (tokens: Vec<(String, Position)>)
    ensures
        tokens@.map_values(|t: (String, Position)| (t.0@, t.1)) == tokens_of(content@),
{
    let chars = str_chars(content);
    let mut tokens: Vec<(String, Position)> = Vec::new();
    let mut cur: Vec<char> = Vec::new();
    let mut in_word = false;
    let mut pos: u64 = 0;
    let ghost done: Seq<Seq<char>> = Seq::empty();
    let mut i: usize = 0;
    while i < chars.len()
        invariant
            i <= chars@.len(),
            chars@ == content@,
            in_word == (i > 0 && !unicode_whitespace(chars@[i - 1])),
            words(chars@.take(i as int)) == if in_word {
                done.push(cur@)
            } else {
                done
            },
            pos == done.len(),
            done.len() <= i,
            tokens@.map_values(|t: (String, Position)| (t.0@, t.1)) == tokens_of_words(done),
        decreases chars@.len() - i,
    {
        let c = chars[i];
        let ghost pre = chars@.take(i as int);
        proof {
            assert(chars@.take(i + 1).drop_last() =~= pre);
            assert(chars@.take(i + 1).last() == c);
            if i > 0 {
                assert(pre.last() == chars@[i - 1]);
            }
        }
        if char_is_whitespace(c) {
            if in_word {
                let n = normalize_chars(cur.as_slice());
                proof {
                    let ws2 = done.push(cur@);
                    assert(ws2.drop_last() =~= done);
                }
                if !n.as_str().is_empty() {
                    let ghost before = tokens@;
                    tokens.push((n, pos));
                    proof {
                        assert(tokens@.map_values(|t: (String, Position)| (t.0@, t.1))
                            =~= before.map_values(|t: (String, Position)| (t.0@, t.1)) + seq![
                            (normalized(cur@), pos)]);
                    }
                } else {
                    proof {
                        assert(n@.len() == 0);
                        assert(tokens_of_words(done) + Seq::<(Seq<char>, Position)>::empty()
                            =~= tokens_of_words(done));
                    }
                }
                proof {
                    done = done.push(cur@);
                }
                pos = pos + 1;
                cur = Vec::new();
                in_word = false;
            }
        } else {
            if in_word {
                proof {
                    let w = done.push(cur@);
                    assert(w.update(w.len() - 1, w.last().push(c)) =~= done.push(cur@.push(c)));
                }
                cur.push(c);
            } else {
                cur = Vec::new();
                cur.push(c);
                proof {
                    assert(cur@ =~= seq![c]);
                }
                in_word = true;
            }
        }
        i = i + 1;
    }
    proof {
        assert(chars@.take(i as int) =~= content@);
    }
    if in_word {
        let n = normalize_chars(cur.as_slice());
        proof {
            let ws2 = done.push(cur@);
            assert(ws2.drop_last() =~= done);
        }
        if !n.as_str().is_empty() {
            let ghost before = tokens@;
            tokens.push((n, pos));
            proof {
                assert(tokens@.map_values(|t: (String, Position)| (t.0@, t.1)) =~= before.map_values(
                    |t: (String, Position)| (t.0@, t.1),
                ) + seq![(normalized(cur@), pos)]);
            }
        } else {
            proof {
                assert(tokens_of_words(done) + Seq::<(Seq<char>, Position)>::empty()
                    =~= tokens_of_words(done));
            }
        }
    }
    tokens
}

/// Token positions strictly increase, and each is below the number of words:
/// a document's tokens come out in order, each position once.
pub proof fn lemma_token_positions_increase(ws: Seq<Seq<char>>)
    requires
        ws.len() <= u64::MAX,
    ensures
        forall|i: int, j: int|
            0 <= i < j < tokens_of_words(ws).len() ==> tokens_of_words(ws)[i].1
                < tokens_of_words(ws)[j].1,
        forall|i: int| 0 <= i < tokens_of_words(ws).len() ==> tokens_of_words(ws)[i].1 < ws.len(),
    decreases ws.len(),
{
    if ws.len() > 0 {
        let init = ws.drop_last();
        lemma_token_positions_increase(init);
        let t0 = tokens_of_words(init);
        let n = normalized(ws.last());
        let tail = if n.len() > 0 {
            seq![(n, (ws.len() - 1) as Position)]
        } else {
            Seq::empty()
        };
        assert(tokens_of_words(ws) == t0 + tail);
        assert forall|i: int, j: int|
            0 <= i < j < tokens_of_words(ws).len() implies tokens_of_words(ws)[i].1
            < tokens_of_words(ws)[j].1 by {
            if j >= t0.len() {
                assert(tokens_of_words(ws)[j] == tail[j - t0.len()]);
                assert(tokens_of_words(ws)[i] == t0[i]);
                assert(t0[i].1 < init.len());
            } else {
                assert(tokens_of_words(ws)[i] == t0[i]);
                assert(tokens_of_words(ws)[j] == t0[j]);
            }
        }
        assert forall|i: int| 0 <= i < tokens_of_words(ws).len() implies tokens_of_words(ws)[i].1
            < ws.len() by {
            if i >= t0.len() {
                assert(tokens_of_words(ws)[i] == tail[i - t0.len()]);
            } else {
                assert(tokens_of_words(ws)[i] == t0[i]);
            }
        }
    }
}

/// The first index at or after `i` where `m` occurs in `s`.
pub open spec fn find_from(s: Seq<char>, m: Seq<char>, i: int) -> Option<int>
    decreases s.len() + 1 - i,
{
    if i < 0 || i + m.len() > s.len() {
        None
    } else if s.subrange(i, i + m.len()) == m {
        Some(i)
    } else {
        find_from(s, m, i + 1)
    }
}

proof fn lemma_find_from(s: Seq<char>, m: Seq<char>, i: int)
    ensures
        find_from(s, m, i) matches Some(j) ==> i <= j && j + m.len() <= s.len() && s.subrange(
            j,
            j + m.len(),
        ) == m,
    decreases s.len() + 1 - i,
{
    if !(i < 0 || i + m.len() > s.len()) && s.subrange(i, i + m.len()) != m {
        lemma_find_from(s, m, i + 1);
    }
}

/// The smaller of two optional indices.
pub open spec fn min_opt(a: Option<int>, b: Option<int>) -> Option<int> {
    match (a, b) {
        (Some(x), Some(y)) => Some(if x <= y { x } else { y }),
        (Some(x), None) => Some(x),
        (None, y) => y,
    }
}

/// The earliest place where one of the markers occurs in `s`: its start,
/// or with `past` the index just after it.
pub open spec fn earliest(s: Seq<char>, ms: Seq<Seq<char>>, past: bool) -> Option<int>
    decreases ms.len(),
{
    if ms.len() == 0 {
        None
    } else {
        let m = ms.last();
        let here = match find_from(s, m, 0) {
            Some(i) => Some(if past { i + m.len() } else { i }),
            None => None,
        };
        min_opt(earliest(s, ms.drop_last(), past), here)
    }
}

/// The markers after which a Project Gutenberg body starts.
pub open spec fn start_markers() -> Seq<Seq<char>> {
    seq![
        "*** START OF THE PROJECT GUTENBERG EBOOK"@,
        "*** START OF THIS PROJECT GUTENBERG EBOOK"@,
        "***START OF THE PROJECT GUTENBERG EBOOK"@,
        "START OF THE PROJECT GUTENBERG"@,
    ]
}

/// The markers at which a Project Gutenberg body ends.
pub open spec fn end_markers() -> Seq<Seq<char>> {
    seq![
        "*** END OF THE PROJECT GUTENBERG EBOOK"@,
        "*** END OF THIS PROJECT GUTENBERG EBOOK"@,
        "***END OF THE PROJECT GUTENBERG EBOOK"@,
        "END OF THE PROJECT GUTENBERG"@,
    ]
}

/// The body of a text: from just after the earliest start marker (or the
/// beginning) to the earliest end marker (or the end); the whole text when
/// that range is empty.
pub open spec fn cleaned(s: Seq<char>) -> Seq<char> {
    let start = match earliest(s, start_markers(), true) {
        Some(i) => i,
        None => 0,
    };
    let end = match earliest(s, end_markers(), false) {
        Some(i) => i,
        None => s.len() as int,
    };
    if start < end {
        s.subrange(start, end)
    } else {
        s
    }
}

/// The first index where `m` occurs in `s`.
fn find_chars(s: &[char], m: &[char]) -> (r: Option<usize>)
    ensures
        match find_from(s@, m@, 0) {
            Some(i) => r == Some(i as usize),
            None => r is None,
        },
{
    if m.len() > s.len() {
        return None;
    }
    if m.len() == 0 {
        assert(s@.subrange(0, 0) =~= m@);
        return Some(0);
    }
    let last = s.len() - m.len();
    let n = s.len();
    let mut i: usize = 0;
    while i <= last
        invariant
            last == s@.len() - m@.len(),
            0 < m@.len() <= s@.len(),
            n == s@.len(),
            i <= last + 1,
            find_from(s@, m@, 0) == find_from(s@, m@, i as int),
        decreases last + 1 - i,
    {
        let mut j: usize = 0;
        let mut same = true;
        while j < m.len()
            invariant
                i <= last,
                last == s@.len() - m@.len(),
                0 < m@.len() <= s@.len(),
                n == s@.len(),
                j <= m@.len(),
                same == (s@.subrange(i as int, i + j) =~= m@.take(j as int)),
            decreases m@.len() - j,
        {
            if same && s[i + j] != m[j] {
                same = false;
            } else if same {
                proof {
                    assert(s@.subrange(i as int, i + j + 1) =~= s@.subrange(i as int, i + j).push(
                        s@[i + j],
                    ));
                    assert(m@.take(j + 1) =~= m@.take(j as int).push(m@[j as int]));
                }
            }
            proof {
                if !same {
                    if s@.subrange(i as int, i + j + 1) =~= m@.take(j + 1) {
                        if s@.subrange(i as int, i + j) =~= m@.take(j as int) {
                            assert(s@.subrange(i as int, i + j + 1)[j as int] == m@.take(j + 1)[j as int]);
                        } else {
                            assert(s@.subrange(i as int, i + j) =~= s@.subrange(i as int, i + j + 1).take(j as int));
                            assert(m@.take(j as int) =~= m@.take(j + 1).take(j as int));
                        }
                    }
                }
            }
            j = j + 1;
        }
        proof {
            assert(m@.take(m@.len() as int) =~= m@);
        }
        if same {
            return Some(i);
        }
        i = i + 1;
    }
    None
}

fn earliest_in(text: &[char], markers: &Vec<&str>, past: bool) -> (r: Option<usize>)
    ensures
        match earliest(text@, markers@.map_values(|m: &str| m@), past) {
            Some(i) => r matches Some(x) && x == i && i <= text@.len(),
            None => r is None,
        },
{
    let ghost ms = markers@.map_values(|m: &str| m@);
    let mut best: Option<usize> = None;
    let tn = text.len();
    let mut k: usize = 0;
    while k < markers.len()
        invariant
            tn == text@.len(),
            k <= markers@.len(),
            ms == markers@.map_values(|m: &str| m@),
            match earliest(text@, ms.take(k as int), past) {
                Some(i) => best matches Some(x) && x == i && i <= text@.len(),
                None => best is None,
            },
        decreases markers@.len() - k,
    {
        let m = str_chars(markers[k]);
        let found = find_chars(text, m.as_slice());
        proof {
            lemma_find_from(text@, m@, 0);
            assert(ms.take(k + 1).drop_last() =~= ms.take(k as int));
            assert(ms.take(k + 1).last() == m@);
        }
        let ghost prev = earliest(text@, ms.take(k as int), past);
        let ghost here_spec = match find_from(text@, m@, 0) {
            Some(i) => Some(if past { i + m@.len() } else { i }),
            None => None,
        };
        proof {
            assert(earliest(text@, ms.take(k + 1), past) == min_opt(prev, here_spec));
        }
        match found {
            Some(i) => {
                let here = if past { i + m.len() } else { i };
                assert(here_spec == Some(here as int));
                best = match best {
                    Some(b) => Some(if b <= here { b } else { here }),
                    None => Some(here),
                };
            },
            None => {},
        }
        proof {
            match min_opt(prev, here_spec) {
                Some(x) => {
                    assert(best matches Some(y) && y == x);
                    assert(x <= text@.len());
                },
                None => {
                    assert(best is None);
                },
            }
        }
        k = k + 1;
    }
    proof {
        assert(ms.take(k as int) =~= ms);
    }
    best
}

/// The start of the body: just after the earliest start marker.
fn find_body_start(text: &[char]) -> (r: Option<usize>)
    ensures
        match earliest(text@, start_markers(), true) {
            Some(i) => r matches Some(x) && x == i && i <= text@.len(),
            None => r is None,
        },
{
    let markers = vec![
        "*** START OF THE PROJECT GUTENBERG EBOOK",
        "*** START OF THIS PROJECT GUTENBERG EBOOK",
        "***START OF THE PROJECT GUTENBERG EBOOK",
        "START OF THE PROJECT GUTENBERG",
    ];
    assert(markers@.map_values(|m: &str| m@) =~= start_markers());
    earliest_in(text, &markers, true)
}

/// The end of the body: the earliest end marker.
fn find_body_end(text: &[char]) -> (r: Option<usize>)
    ensures
        match earliest(text@, end_markers(), false) {
            Some(i) => r matches Some(x) && x == i && i <= text@.len(),
            None => r is None,
        },
{
    let markers = vec![
        "*** END OF THE PROJECT GUTENBERG EBOOK",
        "*** END OF THIS PROJECT GUTENBERG EBOOK",
        "***END OF THE PROJECT GUTENBERG EBOOK",
        "END OF THE PROJECT GUTENBERG",
    ];
    assert(markers@.map_values(|m: &str| m@) =~= end_markers());
    earliest_in(text, &markers, false)
}

/// The body of a Project Gutenberg text, without its header and licence;
/// other texts come back whole.
pub fn clean_project_gutenberg(text: &str) -> (r: &str)
    ensures
        r@ == cleaned(text@),
{
    let chars = str_chars(text);
    let found_start = find_body_start(chars.as_slice());
    let start = match found_start {
        Some(i) => i,
        None => 0,
    };
    let found_end = find_body_end(chars.as_slice());
    let end = match found_end {
        Some(i) => i,
        None => chars.len(),
    };
    proof {
        assert(chars@ == text@);
        let sp = match earliest(text@, start_markers(), true) {
            Some(i) => i,
            None => 0,
        };
        let ep = match earliest(text@, end_markers(), false) {
            Some(i) => i,
            None => text@.len() as int,
        };
        assert(sp == start as int);
        assert(ep == end as int);
    }
    if start < end {
        text.substring_char(start, end)
    } else {
        text
    }
}

} // verus!
