//! Variable-length integer coding, gap coding and the compressed posting
//! list format built from them, and the codecs that write a term's
//! posting list as bytes.

use vstd::prelude::*;

use crate::memindex::DocPositions;
use crate::postings::{
    entries_map, entries_of, inserts_map, lemma_inserts_map_sorted, nondecreasing, sorted_keys,
    DocId, Position, Postings,
};

verus! {

/// `128^j`.
pub open spec fn p128(j: nat) -> int
    decreases j,
{
    if j == 0 {
        1
    } else {
        128 * p128((j - 1) as nat)
    }
}

/// The bytes that encode `v`: seven bits per byte, least significant group
/// first, the high bit set on every byte but the last.
pub open spec fn varint_bytes(v: nat) -> Seq<u8>
    decreases v,
{
    if v < 128 {
        seq![v as u8]
    } else {
        seq![(v % 128 + 128) as u8] + varint_bytes(v / 128)
    }
}

/// Reading one varint from the front of `s` with a budget of `k` bytes:
/// the value read and the number of bytes consumed, or `None` when `s` ends
/// before a final byte or the budget runs out. The last byte that the budget
/// allows contributes only its lowest bit (the rest is shifted out of 64 bits).
pub open spec fn varint_read(s: Seq<u8>, k: nat) -> Option<(int, nat)>
    decreases s.len(),
{
    if s.len() == 0 || k == 0 {
        None
    } else if s[0] < 128 {
        if k == 1 {
            Some(((s[0] % 2) as int, 1nat))
        } else {
            Some((s[0] as int, 1nat))
        }
    } else if k == 1 {
        None
    } else {
        match varint_read(s.drop_first(), (k - 1) as nat) {
            Some((v, n)) => Some(((s[0] % 128) + 128 * v, n + 1)),
            None => None,
        }
    }
}

/// Reading one varint of at most ten bytes at `off` in `input`.
pub open spec fn varint_at(input: Seq<u8>, off: int) -> Option<(int, nat)> {
    if off < 0 || off >= input.len() {
        None
    } else {
        varint_read(input.subrange(off, input.len() as int), 10)
    }
}

/// Where the cursor stands after a failed read that started at `off`.
pub open spec fn varint_fail_offset(len: int, off: int) -> int {
    if off >= len {
        off
    } else if len - off >= 10 {
        off + 10
    } else {
        len
    }
}

/// The concatenated encodings of `vs`.
pub open spec fn varints_bytes(vs: Seq<u64>) -> Seq<u8>
    decreases vs.len(),
{
    if vs.len() == 0 {
        Seq::empty()
    } else {
        varints_bytes(vs.drop_last()) + varint_bytes(vs.last() as nat)
    }
}

/// Reading varints back to back until `s` is used up.
pub open spec fn varints_read(s: Seq<u8>) -> Option<Seq<u64>>
    decreases s.len(),
{
    if s.len() == 0 {
        Some(Seq::empty())
    } else {
        match varint_read(s, 10) {
            Some((v, n)) => if 1 <= n <= s.len() {
                match varints_read(s.subrange(n as int, s.len() as int)) {
                    Some(rest) => Some(seq![v as u64] + rest),
                    None => None,
                }
            } else {
                None
            },
            None => None,
        }
    }
}

pub proof fn lemma_p128_bounds(j: nat)
    ensures
        p128(j) >= 1,
        j <= 9 ==> p128(j) <= 0x8000_0000_0000_0000,
        j <= 8 ==> p128(j) <= 0x100_0000_0000_0000,
{
    lemma_p128_9();
    lemma_p128_mono(j, 9);
    lemma_p128_mono(j, 8);
    lemma_p128_mono(0, j);
}

proof fn lemma_p128_mono(i: nat, j: nat)
    ensures
        i <= j ==> p128(i) <= p128(j),
    decreases j,
{
    if i < j {
        lemma_p128_mono(i, (j - 1) as nat);
        lemma_p128_mono(0, (j - 1) as nat);
        assert(p128(0) == 1);
    }
}

proof fn lemma_varint_read_len(s: Seq<u8>, k: nat)
    ensures
        varint_read(s, k) matches Some((v, n)) ==> 1 <= n <= s.len() && n <= k && 0 <= v,
    decreases s.len(),
{
    if s.len() > 0 && k > 1 && s[0] >= 128 {
        lemma_varint_read_len(s.drop_first(), (k - 1) as nat);
    }
}

/// A varint written with `encode_varint` reads back to the value, whatever
/// follows it.
pub proof fn lemma_varint_roundtrip(v: nat, k: nat, rest: Seq<u8>)
    requires
        k >= 1,
        v < 2 * p128((k - 1) as nat),
    ensures
        varint_read(varint_bytes(v) + rest, k) == Some((v as int, varint_bytes(v).len())),
        1 <= varint_bytes(v).len() <= k,
    decreases v,
{
    let s = varint_bytes(v) + rest;
    if v < 128 {
        assert(s[0] == v as u8);
        if k == 1 {
            assert(v < 2);
        }
    } else {
        if k == 1 {
            assert(p128(0) == 1);
            assert(false);
        }
        let k1 = (k - 1) as nat;
        assert(p128(k1) == 128 * p128((k1 - 1) as nat));
        assert(v / 128 < 2 * p128((k1 - 1) as nat));
        lemma_varint_roundtrip(v / 128, k1, rest);
        assert(s[0] == (v % 128 + 128) as u8);
        assert(s.drop_first() =~= varint_bytes(v / 128) + rest);
    }
}

/// Appends the varint encoding of `value` to `out`.
pub fn encode_varint(value: u64, out: &mut Vec<u8>)
    ensures
        final(out)@ == old(out)@ + varint_bytes(value as nat),
{
    let mut value = value;
    let ghost v0 = value;
    let ghost done: Seq<u8> = Seq::empty();
    while value >= 0x80
        invariant
            out@ == old(out)@ + done,
            done + varint_bytes(value as nat) == varint_bytes(v0 as nat),
        decreases value,
    {
        let byte = (value % 128) as u8 + 128;
        out.push(byte);
        proof {
            assert(varint_bytes(value as nat) == seq![(value % 128 + 128) as u8] + varint_bytes(
                (value / 128) as nat,
            ));
            assert(done + seq![byte] + varint_bytes((value / 128) as nat) =~= done
                + varint_bytes(value as nat));
            done = done + seq![byte];
        }
        value = value / 128;
    }
    out.push(value as u8);
    proof {
        assert(varint_bytes(value as nat) == seq![value as u8]);
        assert(out@ =~= old(out)@ + (done + varint_bytes(value as nat)));
    }
}

/// Reads one varint at `*offset`, advancing the offset past the bytes read.
/// Returns `None` when the input ends first or after ten bytes that all
/// have the continuation bit set.
pub fn decode_varint(input: &[u8], offset: &mut usize) -> (r: Option<u64>)
    ensures
        match varint_at(input@, *old(offset) as int) {
            Some((v, n)) => r == Some(v as u64) && *final(offset) == *old(offset) + n,
            None => r is None && *final(offset) == varint_fail_offset(
                input@.len() as int,
                *old(offset) as int,
            ),
        },
{
    let start = *offset;
    let len = input.len();
    if start >= len {
        return None;
    }
    let ghost whole = input@.subrange(start as int, len as int);
    let mut result: u64 = 0;
    let mut mult: u64 = 1;
    let mut j: usize = 0;
    proof {
        lemma_p128_bounds(0);
        assert(input@.subrange(start as int, len as int) =~= whole);
    }
    while *offset < len
        invariant
            start < len == input@.len(),
            start == *old(offset),
            whole == input@.subrange(start as int, len as int),
            j <= 9,
            *offset == start + j,
            *offset <= len,
            mult == p128(j as nat),
            result < mult,
            varint_read(whole, 10) == match varint_read(
                input@.subrange(*offset as int, len as int),
                (10 - j) as nat,
            ) {
                Some((v, n)) => Some((result + mult * v, (n + j) as nat)),
                None => None,
            },
        decreases len - *offset,
    {
        let ghost s = input@.subrange(*offset as int, len as int);
        let byte = input[*offset];
        *offset = *offset + 1;
        proof {
            lemma_p128_bounds(j as nat);
            assert(s[0] == byte);
            assert(s.drop_first() =~= input@.subrange(*offset as int, len as int));
        }
        if j == 9 {
            if byte < 128 {
                let low = (byte % 2) as u64;
                assert(low * mult <= mult && low * mult == mult * low) by (nonlinear_arith)
                    requires
                        low <= 1,
                ;
                proof {
                    assert(varint_read(s, 1) == Some(((byte % 2) as int, 1nat)));
                    assert(varint_read(whole, 10) == Some((result + mult * low, 10nat)));
                    assert(varint_at(input@, start as int) == varint_read(whole, 10));
                }
                let out = result + low * mult;
                assert(out as int == result + mult * low);
                assert(out == (result + mult * low) as u64);
                return Some(out);
            } else {
                return None;
            }
        }
        let low = (byte % 128) as u64;
        assert(low * mult <= 127 * 0x100_0000_0000_0000) by (nonlinear_arith)
            requires
                low <= 127,
                mult <= 0x100_0000_0000_0000,
        ;
        assert(low * mult == mult * low && result + low * mult < mult * 128) by (nonlinear_arith)
            requires
                low <= 127,
                result < mult,
        ;
        if byte < 128 {
            proof {
                assert(varint_read(s, (10 - j) as nat) == Some((byte as int, 1nat)));
                assert(byte as int == low);
                assert(varint_read(whole, 10) == Some((result + mult * low, (1 + j) as nat)));
                assert(varint_at(input@, start as int) == varint_read(whole, 10));
            }
            return Some(result + low * mult);
        }
        proof {
            lemma_varint_read_len(s.drop_first(), (10 - j - 1) as nat);
            match varint_read(s.drop_first(), (10 - j - 1) as nat) {
                Some((v, n)) => {
                    assert(result + mult * ((byte % 128) + 128 * v) == (result + low * mult) + (
                    mult * 128) * v) by (nonlinear_arith)
                        requires
                            low == byte % 128,
                    ;
                },
                None => {},
            }
        }
        result = result + low * mult;
        mult = mult * 128;
        j = j + 1;
    }
    proof {
        assert(input@.subrange(*offset as int, len as int).len() == 0);
    }
    None
}

/// The varint encodings of `values`, back to back.
pub fn encode_u64s(values: &[u64]) -> (out: Vec<u8>)
    ensures
        out@ == varints_bytes(values@),
{
    let mut out: Vec<u8> = Vec::new();
    let mut i: usize = 0;
    while i < values.len()
        invariant
            i <= values@.len(),
            out@ == varints_bytes(values@.take(i as int)),
        decreases values@.len() - i,
    {
        encode_varint(values[i], &mut out);
        proof {
            assert(values@.take(i + 1).drop_last() =~= values@.take(i as int));
        }
        i = i + 1;
    }
    proof {
        assert(values@.take(i as int) =~= values@);
    }
    out
}

/// Reads varints until the input is used up; `None` as soon as one of them
/// cannot be read.
pub fn decode_u64s(input: &[u8]) -> (r: Option<Vec<u64>>)
    ensures
        match varints_read(input@) {
            Some(vs) => r matches Some(out) && out@ == vs,
            None => r is None,
        },
{
    let mut values: Vec<u64> = Vec::new();
    let mut offset: usize = 0;
    let len = input.len();
    proof {
        assert(input@.subrange(0, len as int) =~= input@);
    }
    while offset < len
        invariant
            len == input@.len(),
            offset <= len,
            varints_read(input@) == match varints_read(
                input@.subrange(offset as int, len as int),
            ) {
                Some(rest) => Some(values@ + rest),
                None => None,
            },
        decreases len - offset,
    {
        let ghost s = input@.subrange(offset as int, len as int);
        let ghost off0 = offset;
        proof {
            assert(s.len() > 0);
            assert(s =~= input@.subrange(off0 as int, input@.len() as int));
            lemma_varint_read_len(s, 10);
        }
        let v = decode_varint(input, &mut offset);
        match v {
            Some(v) => {
                proof {
                    let (w, n) = varint_read(s, 10).unwrap();
                    assert(s.subrange(n as int, s.len() as int) =~= input@.subrange(
                        offset as int,
                        len as int,
                    ));
                    match varints_read(input@.subrange(offset as int, len as int)) {
                        Some(rest) => {
                            assert(values@.push(v) + rest =~= values@ + (seq![w as u64] + rest));
                        },
                        None => {},
                    }
                }
                values.push(v);
            },
            None => {
                return None;
            },
        }
    }
    proof {
        assert(input@.subrange(offset as int, len as int) =~= Seq::<u8>::empty());
        assert(values@ + Seq::<u64>::empty() =~= values@);
    }
    Some(values)
}

proof fn lemma_varints_roundtrip(vs: Seq<u64>, rest: Seq<u8>)
    ensures
        varints_read(varints_bytes(vs) + rest) == match varints_read(rest) {
            Some(r) => Some(vs + r),
            None => None,
        },
    decreases vs.len(),
{
    if vs.len() == 0 {
        assert(varints_bytes(vs) + rest =~= rest);
        match varints_read(rest) {
            Some(r) => {
                assert(vs + r =~= r);
            },
            None => {},
        }
    } else {
        let first = vs[0];
        let tail = vs.drop_first();
        lemma_varints_bytes_front(vs);
        let b = varint_bytes(first as nat);
        let s = varints_bytes(vs) + rest;
        assert(s =~= b + (varints_bytes(tail) + rest));
        lemma_p128_bounds(9);
        lemma_p128_9();
        lemma_varint_roundtrip(first as nat, 10, varints_bytes(tail) + rest);
        lemma_varints_roundtrip(tail, rest);
        assert(s.subrange(b.len() as int, s.len() as int) =~= varints_bytes(tail) + rest);
        match varints_read(rest) {
            Some(r) => {
                assert(seq![first] + (tail + r) =~= vs + r);
            },
            None => {},
        }
    }
}

proof fn lemma_p128_9()
    ensures
        p128(9) == 0x8000_0000_0000_0000,
{
    assert(p128(0) == 1);
    assert(p128(1) == 128);
    assert(p128(2) == 16384);
    assert(p128(3) == 2097152);
    assert(p128(4) == 268435456);
    assert(p128(5) == 34359738368);
    assert(p128(6) == 4398046511104);
    assert(p128(7) == 562949953421312);
    assert(p128(8) == 72057594037927936);
    assert(p128(9) == 0x8000_0000_0000_0000);
}

proof fn lemma_varints_bytes_front(vs: Seq<u64>)
    requires
        vs.len() > 0,
    ensures
        varints_bytes(vs) == varint_bytes(vs[0] as nat) + varints_bytes(vs.drop_first()),
    decreases vs.len(),
{
    if vs.len() == 1 {
        assert(vs.drop_last() =~= Seq::<u64>::empty());
        assert(vs.drop_first() =~= Seq::<u64>::empty());
        assert(varints_bytes(vs.drop_first()) =~= Seq::<u8>::empty());
        assert(varints_bytes(vs) =~= varint_bytes(vs[0] as nat) + varints_bytes(vs.drop_first()));
    } else {
        lemma_varints_bytes_front(vs.drop_last());
        assert(vs.drop_last().drop_first() =~= vs.drop_first().drop_last());
        assert(vs.drop_first().last() == vs.last());
        assert(varints_bytes(vs) =~= varint_bytes(vs[0] as nat) + varints_bytes(vs.drop_first()));
    }
}

/// Reading back what `encode_u64s` wrote gives the same values.
pub proof fn lemma_u64s_roundtrip(vs: Seq<u64>)
    ensures
        varints_read(varints_bytes(vs)) == Some(vs),
{
    lemma_varints_roundtrip(vs, Seq::empty());
    assert(varints_bytes(vs) + Seq::<u8>::empty() =~= varints_bytes(vs));
    assert(varints_read(Seq::<u8>::empty()) == Some(Seq::<u64>::empty()));
    assert(vs + Seq::<u64>::empty() =~= vs);
}

/// The difference of each value from the one before it (the first from 0).
pub open spec fn gaps_of(xs: Seq<u64>) -> Seq<u64> {
    Seq::new(xs.len(), |i: int| (xs[i] - (if i == 0 { 0 } else { xs[i - 1] as int })) as u64)
}

/// The sum of the first `n` values.
pub open spec fn sum_first(gs: Seq<u64>, n: int) -> int
    decreases n,
{
    if n <= 0 {
        0
    } else {
        sum_first(gs, n - 1) + gs[n - 1]
    }
}

/// Running sums: the value at `i` is the sum of the first `i + 1` gaps.
pub open spec fn sums_of(gs: Seq<u64>) -> Seq<u64> {
    Seq::new(gs.len(), |i: int| sum_first(gs, i + 1) as u64)
}

/// The running sums of `gs` all fit in 64 bits.
pub open spec fn sums_fit(gs: Seq<u64>) -> bool {
    sum_first(gs, gs.len() as int) <= u64::MAX
}

proof fn lemma_sum_first_mono(gs: Seq<u64>, i: int, j: int)
    requires
        0 <= i <= j <= gs.len(),
    ensures
        0 <= sum_first(gs, i) <= sum_first(gs, j),
    decreases j,
{
    if i < j {
        lemma_sum_first_mono(gs, i, j - 1);
    } else if i > 0 {
        lemma_sum_first_mono(gs, i - 1, i - 1);
    }
}

fn differences(xs: &[u64]) -> (gaps: Vec<u64>)
    requires
        nondecreasing(xs@),
    ensures
        gaps@ == gaps_of(xs@),
{
    let mut prev: u64 = 0;
    let mut gaps: Vec<u64> = Vec::new();
    let mut i: usize = 0;
    while i < xs.len()
        invariant
            i <= xs@.len(),
            nondecreasing(xs@),
            prev == (if i == 0 { 0 } else { xs@[i - 1] }),
            gaps@ =~= gaps_of(xs@).take(i as int),
        decreases xs@.len() - i,
    {
        let x = xs[i];
        gaps.push(x - prev);
        prev = x;
        i = i + 1;
    }
    proof {
        assert(gaps_of(xs@).take(i as int) =~= gaps_of(xs@));
    }
    gaps
}

fn running_sums(gaps: &[u64]) -> (xs: Vec<u64>)
    requires
        sums_fit(gaps@),
    ensures
        xs@ == sums_of(gaps@),
{
    let mut current: u64 = 0;
    let mut xs: Vec<u64> = Vec::new();
    let mut i: usize = 0;
    while i < gaps.len()
        invariant
            i <= gaps@.len(),
            sums_fit(gaps@),
            current == sum_first(gaps@, i as int),
            xs@ =~= sums_of(gaps@).take(i as int),
        decreases gaps@.len() - i,
    {
        proof {
            lemma_sum_first_mono(gaps@, i + 1, gaps@.len() as int);
        }
        current = current + gaps[i];
        xs.push(current);
        i = i + 1;
    }
    proof {
        assert(sums_of(gaps@).take(i as int) =~= sums_of(gaps@));
    }
    xs
}

/// The gaps between successive document ids (the first from 0).
pub fn encode_doc_gaps(doc_ids: &[DocId]) -> (gaps: Vec<DocId>)
    requires
        nondecreasing(doc_ids@),
    ensures
        gaps@ == gaps_of(doc_ids@),
{
    differences(doc_ids)
}

/// The document ids that the gaps describe: their running sums.
pub fn decode_doc_gaps(gaps: &[DocId]) -> (doc_ids: Vec<DocId>)
    requires
        sums_fit(gaps@),
    ensures
        doc_ids@ == sums_of(gaps@),
{
    running_sums(gaps)
}

/// The gaps between successive positions (the first from 0).
pub fn encode_position_gaps(positions: &[Position]) -> (gaps: Vec<Position>)
    requires
        nondecreasing(positions@),
    ensures
        gaps@ == gaps_of(positions@),
{
    differences(positions)
}

/// The positions that the gaps describe: their running sums.
pub fn decode_position_gaps(gaps: &[Position]) -> (positions: Vec<Position>)
    requires
        sums_fit(gaps@),
    ensures
        positions@ == sums_of(gaps@),
{
    running_sums(gaps)
}

/// Whether the running sums of `gaps` fit in 64 bits.
pub fn gap_sums_fit(gaps: &[u64]) -> (r: bool)
    ensures
        r == sums_fit(gaps@),
{
    let mut current: u64 = 0;
    let mut i: usize = 0;
    while i < gaps.len()
        invariant
            i <= gaps@.len(),
            current == sum_first(gaps@, i as int),
        decreases gaps@.len() - i,
    {
        if gaps[i] > u64::MAX - current {
            proof {
                lemma_sum_first_mono(gaps@, i + 1, gaps@.len() as int);
            }
            return false;
        }
        current = current + gaps[i];
        i = i + 1;
    }
    true
}

/// Gap coding then running sums gives back nondecreasing values.
pub proof fn lemma_gaps_roundtrip(xs: Seq<u64>)
    requires
        nondecreasing(xs),
    ensures
        sums_fit(gaps_of(xs)),
        sums_of(gaps_of(xs)) == xs,
{
    let gs = gaps_of(xs);
    assert forall|i: int| 0 <= i <= xs.len() implies sum_first(gs, i) == (if i == 0 {
        0
    } else {
        xs[i - 1] as int
    }) by {
        lemma_gaps_prefix(xs, i);
    }
    assert(sums_of(gs) =~= xs);
}

proof fn lemma_gaps_prefix(xs: Seq<u64>, i: int)
    requires
        nondecreasing(xs),
        0 <= i <= xs.len(),
    ensures
        sum_first(gaps_of(xs), i) == (if i == 0 {
            0
        } else {
            xs[i - 1] as int
        }),
    decreases i,
{
    if i > 0 {
        lemma_gaps_prefix(xs, i - 1);
        if i >= 2 {
            assert(xs[i - 2] <= xs[i - 1]);
        }
    }
}

/// Running sums then gap coding gives back the gaps, when the sums fit.
pub proof fn lemma_sums_roundtrip(gs: Seq<u64>)
    requires
        sums_fit(gs),
    ensures
        nondecreasing(sums_of(gs)),
        gaps_of(sums_of(gs)) == gs,
{
    let xs = sums_of(gs);
    assert forall|i: int, j: int| 0 <= i <= j < xs.len() implies xs[i] <= xs[j] by {
        lemma_sum_first_mono(gs, i + 1, j + 1);
        lemma_sum_first_mono(gs, j + 1, gs.len() as int);
    }
    assert forall|i: int| 0 <= i < gs.len() implies gaps_of(xs)[i] == gs[i] by {
        lemma_sum_first_mono(gs, i + 1, gs.len() as int);
        lemma_sum_first_mono(gs, i, i + 1);
        assert(sum_first(gs, i + 1) == sum_first(gs, i) + gs[i]);
        assert(xs[i] == sum_first(gs, i + 1));
        if i > 0 {
            assert(xs[i - 1] == sum_first(gs, i));
        } else {
            assert(sum_first(gs, 0) == 0);
        }
    }
    assert(gaps_of(xs) =~= gs);
}

/// The values that stand for one document: its id gap, its number of
/// positions, then the gaps between its positions.
pub open spec fn entry_values(gap: int, ps: Seq<u64>) -> Seq<u64> {
    seq![gap as u64, ps.len() as u64] + gaps_of(ps)
}

/// The values that stand for the entries, each document id taken as a gap
/// from the one before (the first from `prev`).
pub open spec fn body_values(es: Seq<(DocId, Seq<Position>)>, prev: int) -> Seq<u64>
    decreases es.len(),
{
    if es.len() == 0 {
        Seq::empty()
    } else {
        entry_values(es[0].0 - prev, es[0].1) + body_values(es.drop_first(), es[0].0 as int)
    }
}

/// The values of a compressed posting list: the number of documents, then
/// each document in turn.
pub open spec fn postings_values(es: Seq<(DocId, Seq<Position>)>) -> Seq<u64> {
    seq![es.len() as u64] + body_values(es, 0)
}

/// Every list of positions in the entries is nondecreasing.
pub open spec fn positions_sorted(es: Seq<(DocId, Seq<Position>)>) -> bool {
    forall|i: int| 0 <= i < es.len() ==> nondecreasing(#[trigger] es[i].1)
}

/// The bytes of the compressed form of the entries.
pub open spec fn postings_bytes(es: Seq<(DocId, Seq<Position>)>) -> Seq<u8> {
    varints_bytes(postings_values(es))
}

/// The positions stored at `off`: `tf` gaps whose running sums must fit.
pub open spec fn parse_positions(vals: Seq<u64>, off: int, tf: int) -> Option<Seq<u64>> {
    if off < 0 || off + tf > vals.len() {
        None
    } else {
        let g = vals.subrange(off, off + tf);
        if sums_fit(g) {
            Some(sums_of(g))
        } else {
            None
        }
    }
}

/// Reading `k` documents from `vals` at `off`, the last document id read
/// before being `cur`: the entries read and the offset after them.
pub open spec fn parse_docs(vals: Seq<u64>, off: int, k: nat, cur: int) -> Option<
    (Seq<(DocId, Seq<Position>)>, int),
>
    decreases k,
{
    if k == 0 {
        Some((Seq::empty(), off))
    } else if off < 0 || off + 2 > vals.len() {
        None
    } else {
        let doc = cur + vals[off];
        let tf = vals[off + 1] as int;
        if doc > u64::MAX {
            None
        } else {
            match parse_positions(vals, off + 2, tf) {
                None => None,
                Some(ps) => match parse_docs(vals, off + 2 + tf, (k - 1) as nat, doc) {
                    None => None,
                    Some((rest, end)) => Some((seq![(doc as u64, ps)] + rest, end)),
                },
            }
        }
    }
}

/// The entries that a compressed posting list holds, in the order stored,
/// or `None` when the bytes are not such a list (a varint cannot be read,
/// values are missing or left over, or a running sum does not fit in 64 bits).
pub open spec fn postings_parse(bytes: Seq<u8>) -> Option<Seq<(DocId, Seq<Position>)>> {
    match varints_read(bytes) {
        None => None,
        Some(vals) => if vals.len() == 0 {
            None
        } else {
            match parse_docs(vals, 1, vals[0] as nat, 0) {
                Some((es, end)) => if end == vals.len() {
                    Some(es)
                } else {
                    None
                },
                None => None,
            }
        },
    }
}

/// A posting list in its compressed byte form.
#[derive(Debug, Clone, PartialEq, Eq)]
pub struct CompressedPostingList {
    pub bytes: Vec<u8>,
}

/// The compressed form of `postings`: the number of documents, then for
/// each document in increasing order its id gap, its number of positions and
/// its position gaps, all as varints.
pub fn encode_postings(postings: &Postings) -> (list: CompressedPostingList)
    requires
        positions_sorted(postings.entries()),
    ensures
        list.bytes@ == postings_bytes(postings.entries()),
{
    proof {
        use_type_invariant(postings);
    }
    let docs = postings.entries_slice();
    let ghost es = postings.entries();
    let mut doc_ids: Vec<DocId> = Vec::new();
    let mut i: usize = 0;
    while i < docs.len()
        invariant
            i <= docs@.len(),
            entries_of(docs@) == es,
            doc_ids@ =~= es.take(i as int).map_values(|e: (DocId, Seq<Position>)| e.0),
        decreases docs@.len() - i,
    {
        doc_ids.push(docs[i].0);
        i = i + 1;
    }
    proof {
        assert(es.take(i as int) =~= es);
        assert forall|a: int, b: int| 0 <= a <= b < doc_ids@.len() implies doc_ids@[a]
            <= doc_ids@[b] by {
            if a < b {
                assert(es[a].0 < es[b].0);
            }
        }
    }
    let doc_gaps = encode_doc_gaps(doc_ids.as_slice());
    let mut values: Vec<u64> = Vec::new();
    values.push(docs.len() as u64);
    let mut i: usize = 0;
    proof {
        assert(es.skip(0) =~= es);
        assert(values@ + body_values(es.skip(0), 0) =~= postings_values(es));
    }
    while i < docs.len()
        invariant
            i <= docs@.len(),
            entries_of(docs@) == es,
            sorted_keys(es),
            positions_sorted(es),
            doc_gaps@ == gaps_of(doc_ids@),
            doc_ids@ =~= es.map_values(|e: (DocId, Seq<Position>)| e.0),
            values@ + body_values(es.skip(i as int), if i == 0 {
                0
            } else {
                es[i - 1].0 as int
            }) == postings_values(es),
        decreases docs@.len() - i,
    {
        let ghost prev: int = if i == 0 {
            0
        } else {
            es[i - 1].0 as int
        };
        let ghost before = values@;
        let positions = &docs[i].1;
        values.push(doc_gaps[i]);
        values.push(positions.len() as u64);
        proof {
            assert(es[i as int].1 == positions@);
            assert(nondecreasing(es[i as int].1));
        }
        let pos_gaps = encode_position_gaps(positions.as_slice());
        let mut t: usize = 0;
        while t < pos_gaps.len()
            invariant
                t <= pos_gaps@.len(),
                values@ =~= before + seq![doc_gaps@[i as int], positions@.len() as u64]
                    + pos_gaps@.take(t as int),
            decreases pos_gaps@.len() - t,
        {
            values.push(pos_gaps[t]);
            t = t + 1;
        }
        proof {
            assert(pos_gaps@.take(t as int) =~= pos_gaps@);
            let rest = es.skip(i as int);
            assert(rest[0] == es[i as int]);
            assert(rest.drop_first() =~= es.skip(i + 1));
            assert(doc_gaps@[i as int] == (es[i as int].0 - prev) as u64);
            assert(values@ =~= before + entry_values(es[i as int].0 - prev, positions@));
            assert(body_values(rest, prev) == entry_values(rest[0].0 - prev, rest[0].1)
                + body_values(rest.drop_first(), rest[0].0 as int));
            assert(values@ + body_values(es.skip(i + 1), es[i as int].0 as int) =~= before
                + body_values(rest, prev));
        }
        i = i + 1;
    }
    proof {
        assert(es.skip(i as int) =~= Seq::<(DocId, Seq<Position>)>::empty());
        assert(values@ + Seq::<u64>::empty() =~= values@);
    }
    CompressedPostingList { bytes: encode_u64s(values.as_slice()) }
}

/// Reads back a compressed posting list; `None` when the bytes are not one.
/// Documents are inserted in the order stored, so a later entry for the
/// same document replaces an earlier one.
pub fn decode_postings(list: &CompressedPostingList) -> (r: Option<Postings>)
    ensures
        match postings_parse(list.bytes@) {
            Some(es) => r matches Some(p) && p@ == inserts_map(es),
            None => r is None,
        },
{
    let values = match decode_u64s(list.bytes.as_slice()) {
        Some(v) => v,
        None => {
            return None;
        },
    };
    let ghost vals = values@;
    if values.len() == 0 {
        return None;
    }
    let doc_count = values[0];
    let mut offset: usize = 1;
    let mut postings = Postings::new();
    let mut current_doc: u64 = 0;
    let mut k: u64 = 0;
    let ghost done: Seq<(DocId, Seq<Position>)> = Seq::empty();
    proof {
        assert(done + Seq::<(DocId, Seq<Position>)>::empty() =~= done);
    }
    while k < doc_count
        invariant
            vals == values@,
            varints_read(list.bytes@) == Some(vals),
            vals.len() > 0,
            doc_count == vals[0],
            1 <= offset <= vals.len(),
            k <= doc_count,
            postings@ == inserts_map(done),
            parse_docs(vals, 1, doc_count as nat, 0) == match parse_docs(
                vals,
                offset as int,
                (doc_count - k) as nat,
                current_doc as int,
            ) {
                Some((rest, end)) => Some((done + rest, end)),
                None => None,
            },
        decreases doc_count - k,
    {
        if values.len() - offset < 2 {
            return None;
        }
        let doc_gap = values[offset];
        if doc_gap > u64::MAX - current_doc {
            return None;
        }
        let tf = values[offset + 1];
        let start = offset + 2;
        if tf > (values.len() - start) as u64 {
            return None;
        }
        let tf_len = tf as usize;
        let mut pos_gaps: Vec<u64> = Vec::new();
        let mut t: usize = 0;
        while t < tf_len
            invariant
                vals == values@,
                start + tf_len <= vals.len(),
                vals.len() <= usize::MAX,
                t <= tf_len,
                pos_gaps@ =~= vals.subrange(start as int, start + t),
            decreases tf_len - t,
        {
            pos_gaps.push(values[start + t]);
            t = t + 1;
        }
        if !gap_sums_fit(pos_gaps.as_slice()) {
            return None;
        }
        let positions = decode_position_gaps(pos_gaps.as_slice());
        current_doc = current_doc + doc_gap;
        proof {
            let e = (current_doc, positions@);
            assert(parse_positions(vals, start as int, tf as int) == Some(positions@));
            assert(done.push(e) + Seq::<(DocId, Seq<Position>)>::empty() =~= done.push(e));
            match parse_docs(vals, (start + tf_len) as int, (doc_count - k - 1) as nat, current_doc as int) {
                Some((rest, end)) => {
                    assert(done + (seq![e] + rest) =~= done.push(e) + rest);
                },
                None => {},
            }
            assert(done.push(e).drop_last() =~= done);
            done = done.push(e);
        }
        postings.insert(current_doc, positions);
        offset = start + tf_len;
        k = k + 1;
    }
    proof {
        assert(done + Seq::<(DocId, Seq<Position>)>::empty() =~= done);
    }
    if offset != values.len() {
        return None;
    }
    Some(postings)
}

/// The sizes in the entries fit in 64 bits.
pub open spec fn sizes_fit(es: Seq<(DocId, Seq<Position>)>) -> bool {
    &&& es.len() <= u64::MAX
    &&& forall|i: int| 0 <= i < es.len() ==> (#[trigger] es[i].1).len() <= u64::MAX
}

#[verifier::spinoff_prover]
#[verifier::rlimit(40)]
proof fn lemma_parse_body(
    es: Seq<(DocId, Seq<Position>)>,
    cur: int,
    pre: Seq<u64>,
    post: Seq<u64>,
)
    requires
        sorted_keys(es),
        positions_sorted(es),
        sizes_fit(es),
        0 <= cur <= u64::MAX,
        es.len() > 0 ==> es[0].0 >= cur,
    ensures
        parse_docs(pre + body_values(es, cur) + post, pre.len() as int, es.len(), cur) == Some(
            (es, (pre.len() + body_values(es, cur).len()) as int),
        ),
    decreases es.len(),
{
    let vals = pre + body_values(es, cur) + post;
    let off = pre.len() as int;
    if es.len() > 0 {
        let e = es[0];
        let tail = es.drop_first();
        let ev = entry_values(e.0 - cur, e.1);
        let rest = body_values(tail, e.0 as int);
        assert(body_values(es, cur) == ev + rest);
        assert(vals =~= (pre + ev) + rest + post);
        assert(vals[off] == (e.0 - cur) as u64);
        assert(vals[off + 1] == e.1.len() as u64);
        assert(nondecreasing(es[0].1));
        lemma_gaps_roundtrip(e.1);
        assert(vals.subrange(off + 2, off + 2 + e.1.len()) =~= gaps_of(e.1));
        assert(parse_positions(vals, off + 2, e.1.len() as int) == Some(e.1));
        assert forall|a: int, b: int| 0 <= a < b < tail.len() implies tail[a].0 < tail[b].0 by {
            assert(es[a + 1].0 < es[b + 1].0);
        }
        assert forall|i: int| 0 <= i < tail.len() implies nondecreasing(#[trigger] tail[i].1) by {
            assert(nondecreasing(es[i + 1].1));
        }
        assert forall|i: int| 0 <= i < tail.len() implies (#[trigger] tail[i].1).len()
            <= u64::MAX by {
            assert(es[i + 1].1.len() <= u64::MAX);
        }
        if tail.len() > 0 {
            assert(es[0].0 < es[1].0);
        }
        lemma_parse_body(tail, e.0 as int, pre + ev, post);
        assert((pre + ev).len() == off + 2 + e.1.len());
        assert(seq![(e.0, e.1)] + tail =~= es);
    } else {
        assert(body_values(es, cur) =~= Seq::<u64>::empty());
    }
}

/// Decoding what `encode_postings` wrote gives back the same posting list.
pub proof fn lemma_postings_roundtrip(es: Seq<(DocId, Seq<Position>)>)
    requires
        sorted_keys(es),
        positions_sorted(es),
        sizes_fit(es),
    ensures
        postings_parse(postings_bytes(es)) == Some(es),
        inserts_map(es) == entries_map(es),
{
    let vals = postings_values(es);
    lemma_u64s_roundtrip(vals);
    lemma_parse_body(es, 0, seq![es.len() as u64], Seq::empty());
    assert(seq![es.len() as u64] + body_values(es, 0) + Seq::<u64>::empty() =~= vals);
    lemma_inserts_map_sorted(es);
}

/// Why a posting list could not be written or read.
#[derive(Debug, Clone, Copy, PartialEq, Eq)]
pub enum CodecError {
    /// The bytes could not be written.
    Encode,
    /// The bytes are not a posting list in the codec's form.
    Decode,
}

/// A way of writing a term's posting list as bytes and reading it back.
pub trait PostingCodec {
    /// The postings that `bytes` read back to, if they are a posting list in
    /// this codec's form.
    spec fn decoded(&self, bytes: Seq<u8>) -> Option<DocPositions>;

    /// Whether writing never fails.
    spec fn encodes_always(&self) -> bool;

    /// The bytes that this codec writes for a posting list with these
    /// entries, in increasing order of document id.
    spec fn encoded(&self, entries: Seq<(DocId, Seq<Position>)>) -> Seq<u8>;

    /// Whether this codec can write a posting list only where every
    /// document's positions are in increasing order.
    spec fn needs_sorted_positions(&self) -> bool;

    /// Whether this codec can write a posting list only where every
    /// document's positions are in increasing order.
    fn wants_sorted_positions(&self) -> (b: bool)
        ensures
            b == self.needs_sorted_positions(),
    ;

    /// The bytes of `postings`; reading them back gives the same postings.
    fn encode(&self, postings: &Postings) -> (r: Result<Vec<u8>, CodecError>)
        requires
            self.needs_sorted_positions() ==> positions_sorted(postings.entries()),
        ensures
            r matches Ok(b) ==> b@ == self.encoded(postings.entries()) && self.decoded(b@) == Some(
                postings@,
            ),
            r is Err ==> r == Err::<Vec<u8>, CodecError>(CodecError::Encode),
            self.encodes_always() ==> r is Ok,
    ;

    /// The postings that `bytes` read back to; an error when they are not a
    /// posting list in this codec's form.
    fn decode(&self, bytes: &[u8]) -> (r: Result<Postings, CodecError>)
        ensures
            match self.decoded(bytes@) {
                Some(m) => r matches Ok(p) && p@ == m,
                None => r == Err::<Postings, CodecError>(CodecError::Decode),
            },
    ;
}

/// A copy of the bytes.
fn copy_bytes(bytes: &[u8]) -> (v: Vec<u8>)
    ensures
        v@ == bytes@,
{
    let mut v: Vec<u8> = Vec::new();
    let mut i: usize = 0;
    while i < bytes.len()
        invariant
            i <= bytes@.len(),
            v@ =~= bytes@.take(i as int),
        decreases bytes@.len() - i,
    {
        v.push(bytes[i]);
        i = i + 1;
    }
    assert(bytes@.take(i as int) =~= bytes@);
    v
}

/// Posting lists in the compressed varint form of `encode_postings`.
#[derive(Debug, Clone, Copy)]
pub struct CompressedPostingCodec;

impl PostingCodec for CompressedPostingCodec {
    open spec fn decoded(&self, bytes: Seq<u8>) -> Option<DocPositions> {
        match postings_parse(bytes) {
            Some(es) => Some(inserts_map(es)),
            None => None,
        }
    }

    open spec fn encodes_always(&self) -> bool {
        true
    }

    open spec fn encoded(&self, entries: Seq<(DocId, Seq<Position>)>) -> Seq<u8> {
        postings_bytes(entries)
    }

    open spec fn needs_sorted_positions(&self) -> bool {
        true
    }

    fn wants_sorted_positions(&self) -> (b: bool) {
        true
    }

    fn encode(&self, postings: &Postings) -> (r: Result<Vec<u8>, CodecError>)
        ensures
            r matches Ok(b) && b@ == postings_bytes(postings.entries()),
    {
        proof {
            use_type_invariant(postings);
            postings.lemma_entry_lengths();
            lemma_postings_roundtrip(postings.entries());
        }
        Ok(encode_postings(postings).bytes)
    }

    fn decode(&self, bytes: &[u8]) -> (r: Result<Postings, CodecError>) {
        let list = CompressedPostingList { bytes: copy_bytes(bytes) };
        match decode_postings(&list) {
            Some(p) => Ok(p),
            None => Err(CodecError::Decode),
        }
    }
}

/// The eight bytes of `x`, least significant first: how bincode writes a
/// `u64` and a length.
pub open spec fn le_bytes(x: u64) -> Seq<u8> {
    seq![
        x as u8,
        (x >> 8u64) as u8,
        (x >> 16u64) as u8,
        (x >> 24u64) as u8,
        (x >> 32u64) as u8,
        (x >> 40u64) as u8,
        (x >> 48u64) as u8,
        (x >> 56u64) as u8,
    ]
}

/// The `u64` that the eight bytes of `b` from `i` on give, least significant
/// first.
pub open spec fn le_read(b: Seq<u8>, i: int) -> u64 {
    (b[i] as u64) | ((b[i + 1] as u64) << 8u64) | ((b[i + 2] as u64) << 16u64) | ((b[i + 3] as u64)
        << 24u64) | ((b[i + 4] as u64) << 32u64) | ((b[i + 5] as u64) << 40u64) | ((b[i + 6] as u64)
        << 48u64) | ((b[i + 7] as u64) << 56u64)
}

proof fn lemma_le_read(b: Seq<u8>, i: int, x: u64)
    requires
        0 <= i,
        i + 8 <= b.len(),
        b.subrange(i, i + 8) == le_bytes(x),
    ensures
        le_read(b, i) == x,
{
    let s = le_bytes(x);
    assert(b[i] == s[0] && b[i + 1] == s[1] && b[i + 2] == s[2] && b[i + 3] == s[3]);
    assert(b[i + 4] == s[4] && b[i + 5] == s[5] && b[i + 6] == s[6] && b[i + 7] == s[7]);
    assert(x == ((x as u8) as u64) | ((((x >> 8u64) as u8) as u64) << 8u64) | ((((x >> 16u64) as u8)
        as u64) << 16u64) | ((((x >> 24u64) as u8) as u64) << 24u64) | ((((x >> 32u64) as u8) as u64)
        << 32u64) | ((((x >> 40u64) as u8) as u64) << 40u64) | ((((x >> 48u64) as u8) as u64) << 48u64)
        | ((((x >> 56u64) as u8) as u64) << 56u64)) by (bit_vector);
}

/// The bytes of the numbers, one after the other.
pub open spec fn bincode_u64s(xs: Seq<u64>) -> Seq<u8>
    decreases xs.len(),
{
    if xs.len() == 0 {
        Seq::empty()
    } else {
        bincode_u64s(xs.drop_last()) + le_bytes(xs.last())
    }
}

/// The bytes of one (document, positions) pair: the document, the number of
/// positions, then the positions.
pub open spec fn bincode_pair(p: (u64, Seq<u64>)) -> Seq<u8> {
    le_bytes(p.0) + le_bytes(p.1.len() as u64) + bincode_u64s(p.1)
}

/// The bytes of the pairs, one after the other.
pub open spec fn bincode_items(ps: Seq<(u64, Seq<u64>)>) -> Seq<u8>
    decreases ps.len(),
{
    if ps.len() == 0 {
        Seq::empty()
    } else {
        bincode_items(ps.drop_last()) + bincode_pair(ps.last())
    }
}

/// What `bincode::serialize` writes for a list of (document, positions)
/// pairs: the number of pairs, then the pairs, every number in eight bytes,
/// least significant first.
pub open spec fn bincode_pairs(ps: Seq<(u64, Seq<u64>)>) -> Seq<u8> {
    le_bytes(ps.len() as u64) + bincode_items(ps)
}

/// Reads `k` numbers from `i` on: the numbers and where they end, or `None`
/// when the bytes run out.
pub open spec fn read_u64s(b: Seq<u8>, i: int, k: nat) -> Option<(Seq<u64>, int)>
    decreases k,
{
    if k == 0 {
        Some((Seq::empty(), i))
    } else {
        match read_u64s(b, i, (k - 1) as nat) {
            Some((xs, j)) => if j + 8 <= b.len() {
                Some((xs.push(le_read(b, j)), j + 8))
            } else {
                None
            },
            None => None,
        }
    }
}

/// Reads `k` pairs from `i` on: the pairs and where they end, or `None` when
/// the bytes run out or a length does not fit in `usize`.
pub open spec fn read_pairs(b: Seq<u8>, i: int, k: nat) -> Option<(Seq<(u64, Seq<u64>)>, int)>
    decreases k,
{
    if k == 0 {
        Some((Seq::empty(), i))
    } else {
        match read_pairs(b, i, (k - 1) as nat) {
            Some((ps, j)) => if j + 16 <= b.len() && le_read(b, j + 8) <= usize::MAX {
                match read_u64s(b, j + 16, le_read(b, j + 8) as nat) {
                    Some((xs, e)) => Some((ps.push((le_read(b, j), xs)), e)),
                    None => None,
                }
            } else {
                None
            },
            None => None,
        }
    }
}

/// What `bincode::deserialize` reads from bytes as a list of (document,
/// positions) pairs: the pairs that a prefix of the bytes holds in the form
/// of `bincode_pairs` (bytes after them are let be), or `None` when there is
/// no such prefix or a length does not fit in `usize`.
pub open spec fn bincode_pairs_read(b: Seq<u8>) -> Option<Seq<(u64, Seq<u64>)>> {
    if 8 <= b.len() && le_read(b, 0) <= usize::MAX {
        match read_pairs(b, 8, le_read(b, 0) as nat) {
            Some((ps, _)) => Some(ps),
            None => None,
        }
    } else {
        None
    }
}

proof fn lemma_bincode_u64s_len(xs: Seq<u64>)
    ensures
        bincode_u64s(xs).len() == 8 * xs.len(),
    decreases xs.len(),
{
    if xs.len() > 0 {
        lemma_bincode_u64s_len(xs.drop_last());
    }
}

/// Where `s1 + s2` stands in `b` from `i` on, `s1` stands from `i` on and
/// `s2` right after it.
proof fn lemma_sub_concat(b: Seq<u8>, i: int, s1: Seq<u8>, s2: Seq<u8>)
    requires
        0 <= i,
        i + s1.len() + s2.len() <= b.len(),
        b.subrange(i, i + s1.len() + s2.len()) == s1 + s2,
    ensures
        b.subrange(i, i + s1.len()) == s1,
        b.subrange(i + s1.len(), i + s1.len() + s2.len()) == s2,
{
    let whole = b.subrange(i, i + s1.len() + s2.len());
    assert forall|k: int| 0 <= k < s1.len() implies b.subrange(i, i + s1.len())[k] == s1[k] by {
        assert(whole[k] == (s1 + s2)[k]);
    }
    assert forall|k: int| 0 <= k < s2.len() implies b.subrange(
        i + s1.len(),
        i + s1.len() + s2.len(),
    )[k] == s2[k] by {
        assert(whole[s1.len() + k] == (s1 + s2)[s1.len() + k]);
    }
    assert(b.subrange(i, i + s1.len()) =~= s1);
    assert(b.subrange(i + s1.len(), i + s1.len() + s2.len()) =~= s2);
}

proof fn lemma_read_u64s(b: Seq<u8>, i: int, xs: Seq<u64>)
    requires
        0 <= i,
        i + 8 * xs.len() <= b.len(),
        b.subrange(i, i + 8 * xs.len()) == bincode_u64s(xs),
    ensures
        read_u64s(b, i, xs.len()) == Some((xs, i + 8 * xs.len())),
    decreases xs.len(),
{
    if xs.len() > 0 {
        let init = xs.drop_last();
        lemma_bincode_u64s_len(init);
        lemma_sub_concat(b, i, bincode_u64s(init), le_bytes(xs.last()));
        lemma_read_u64s(b, i, init);
        let j = i + 8 * init.len();
        lemma_le_read(b, j, xs.last());
        assert(init.push(xs.last()) =~= xs);
        assert((xs.len() - 1) as nat == init.len());
    }
}

proof fn lemma_read_pairs(b: Seq<u8>, i: int, ps: Seq<(u64, Seq<u64>)>)
    requires
        0 <= i,
        i + bincode_items(ps).len() <= b.len(),
        b.subrange(i, i + bincode_items(ps).len()) == bincode_items(ps),
        forall|k: int| 0 <= k < ps.len() ==> (#[trigger] ps[k]).1.len() <= usize::MAX,
    ensures
        read_pairs(b, i, ps.len()) == Some((ps, i + bincode_items(ps).len())),
    decreases ps.len(),
{
    if ps.len() > 0 {
        let init = ps.drop_last();
        let p = ps.last();
        assert(ps[ps.len() - 1] == p);
        let item = bincode_pair(p);
        lemma_sub_concat(b, i, bincode_items(init), item);
        assert forall|k: int| 0 <= k < init.len() implies (#[trigger] init[k]).1.len()
            <= usize::MAX by {
            assert(init[k] == ps[k]);
        }
        lemma_read_pairs(b, i, init);
        let j = i + bincode_items(init).len();
        lemma_bincode_u64s_len(p.1);
        let xs_bytes = bincode_u64s(p.1);
        lemma_sub_concat(b, j, le_bytes(p.0) + le_bytes(p.1.len() as u64), xs_bytes);
        lemma_sub_concat(b, j, le_bytes(p.0), le_bytes(p.1.len() as u64));
        lemma_le_read(b, j, p.0);
        lemma_le_read(b, j + 8, p.1.len() as u64);
        assert(le_read(b, j + 8) as nat == p.1.len());
        lemma_read_u64s(b, j + 16, p.1);
        assert(init.push(p) =~= ps);
        assert((ps.len() - 1) as nat == init.len());
    }
}

/// Reading back what `bincode_pairs` describes gives the pairs.
proof fn lemma_bincode_pairs_roundtrip(ps: Seq<(u64, Seq<u64>)>)
    requires
        ps.len() <= usize::MAX,
        forall|k: int| 0 <= k < ps.len() ==> (#[trigger] ps[k]).1.len() <= usize::MAX,
    ensures
        bincode_pairs_read(bincode_pairs(ps)) == Some(ps),
{
    let b = bincode_pairs(ps);
    let items = bincode_items(ps);
    assert(b.subrange(0, b.len() as int) =~= b);
    assert(b.subrange(0, 0 + le_bytes(ps.len() as u64).len() + items.len() as int) == le_bytes(
        ps.len() as u64,
    ) + items);
    lemma_sub_concat(b, 0, le_bytes(ps.len() as u64), items);
    lemma_le_read(b, 0, ps.len() as u64);
    lemma_read_pairs(b, 8, ps);
}

/// `bincode::ErrorKind`, the error of bincode's calls.
#[verifier::external_type_specification]
#[verifier::external_body]
pub struct ExBincodeErrorKind(bincode::ErrorKind);

/// Calls `bincode::serialize` on the pairs. Claimed: it succeeds, and the
/// bytes are those of `bincode_pairs` (its default options: fixed-width
/// little-endian integers, lengths as `u64`). With no size limit it only
/// counts the bytes and writes them into a `Vec`, and every sequence here
/// has a known length, so it does not fail.
#[verifier::external_body]
fn bincode_serialize_pairs(pairs: &Vec<(u64, Vec<u64>)>) -> (r: Result<Vec<u8>, Box<bincode::ErrorKind>>)
    ensures
        r is Ok,
        r matches Ok(b) ==> b@ == bincode_pairs(entries_of(pairs@)),
{
    bincode::serialize(pairs)
}

/// Calls `bincode::deserialize` for a list of pairs. Claimed: it succeeds
/// exactly when `bincode_pairs_read` gives a list, and then gives that list
/// (its default options: fixed-width little-endian integers, lengths as
/// `u64` that must fit in `usize`, bytes after the value allowed).
#[verifier::external_body]
fn bincode_deserialize_pairs(bytes: &[u8]) -> (r: Result<Vec<(u64, Vec<u64>)>, Box<bincode::ErrorKind>>)
    ensures
        match r {
            Ok(v) => bincode_pairs_read(bytes@) == Some(entries_of(v@)),
            Err(_) => bincode_pairs_read(bytes@) is None,
        },
{
    bincode::deserialize(bytes)
}

/// Posting lists as bincode writes the list of (document, positions) pairs.
#[derive(Debug, Clone, Copy)]
pub struct BincodePostingCodec;

impl PostingCodec for BincodePostingCodec {
    open spec fn decoded(&self, bytes: Seq<u8>) -> Option<DocPositions> {
        match bincode_pairs_read(bytes) {
            Some(es) => Some(inserts_map(es)),
            None => None,
        }
    }

    open spec fn encodes_always(&self) -> bool {
        true
    }

    open spec fn encoded(&self, entries: Seq<(DocId, Seq<Position>)>) -> Seq<u8> {
        bincode_pairs(entries)
    }

    open spec fn needs_sorted_positions(&self) -> bool {
        false
    }

    fn wants_sorted_positions(&self) -> (b: bool) {
        false
    }

    fn encode(&self, postings: &Postings) -> (r: Result<Vec<u8>, CodecError>)
        ensures
            r matches Ok(b) && b@ == bincode_pairs(postings.entries()),
    {
        proof {
            use_type_invariant(postings);
        }
        let entries = postings.entries_slice();
        let ghost es = postings.entries();
        let mut pairs: Vec<(u64, Vec<u64>)> = Vec::new();
        let mut i: usize = 0;
        while i < entries.len()
            invariant
                entries_of(entries@) == es,
                i <= entries@.len(),
                entries_of(pairs@) =~= es.take(i as int),
            decreases entries@.len() - i,
        {
            let ps = crate::postings::copy_positions(&entries[i].1);
            let ghost before = pairs@;
            pairs.push((entries[i].0, ps));
            proof {
                assert(entries_of(pairs@) =~= entries_of(before).push(es[i as int]));
                assert(es.take(i + 1) =~= es.take(i as int).push(es[i as int]));
            }
            i = i + 1;
        }
        proof {
            assert(es.take(i as int) =~= es);
            lemma_inserts_map_sorted(es);
            postings.lemma_entry_lengths();
            lemma_bincode_pairs_roundtrip(es);
        }
        match bincode_serialize_pairs(&pairs) {
            Ok(b) => Ok(b),
            Err(_) => Err(CodecError::Encode),
        }
    }

    fn decode(&self, bytes: &[u8]) -> (r: Result<Postings, CodecError>) {
        match bincode_deserialize_pairs(bytes) {
            Ok(pairs) => Ok(Postings::from_pairs(pairs)),
            Err(_) => Err(CodecError::Decode),
        }
    }
}

} // verus!
