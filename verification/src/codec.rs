//! The model payload codec: a deterministic binary layout, written and
//! read back exactly.
//!
//! Layout, little endian throughout: order, prior (8 bytes each), one
//! backoff byte, the vocabulary (count, then tokens), then the tables
//! (count, then per table its entry count, and per entry the context
//! length and tokens, the distribution length and its pairs).

use vstd::bytes::*;
use vstd::prelude::*;

use crate::model::{model_wf, ModelV, TableView};

verus! {

/// One token, two bytes.
pub open spec fn enc_u16(v: u16) -> Seq<u8> {
    spec_u16_to_le_bytes(v)
}

/// One count or weight, eight bytes.
pub open spec fn enc_u64(v: u64) -> Seq<u8> {
    spec_u64_to_le_bytes(v)
}

/// The tokens of `s` from index `i` on.
pub open spec fn enc_u16s_from(s: Seq<u16>, i: int) -> Seq<u8>
    decreases s.len() - i,
{
    if i < 0 || i >= s.len() {
        seq![]
    } else {
        enc_u16(s[i]) + enc_u16s_from(s, i + 1)
    }
}

/// The pairs of a distribution from index `i` on.
pub open spec fn enc_pairs_from(d: Seq<(u16, u64)>, i: int) -> Seq<u8>
    decreases d.len() - i,
{
    if i < 0 || i >= d.len() {
        seq![]
    } else {
        enc_u16(d[i].0) + enc_u64(d[i].1) + enc_pairs_from(d, i + 1)
    }
}

/// One table entry: its context, then its distribution.
pub open spec fn enc_entry(e: (Seq<u16>, Seq<(u16, u64)>)) -> Seq<u8> {
    enc_u64(e.0.len() as u64) + enc_u16s_from(e.0, 0) + enc_u64(e.1.len() as u64) + enc_pairs_from(
        e.1,
        0,
    )
}

/// The entries of a table from index `i` on.
pub open spec fn enc_entries_from(t: TableView, i: int) -> Seq<u8>
    decreases t.len() - i,
{
    if i < 0 || i >= t.len() {
        seq![]
    } else {
        enc_entry(t[i]) + enc_entries_from(t, i + 1)
    }
}

/// One table: its entry count, then its entries.
pub open spec fn enc_table(t: TableView) -> Seq<u8> {
    enc_u64(t.len() as u64) + enc_entries_from(t, 0)
}

/// The tables from index `i` on.
pub open spec fn enc_tables_from(ts: Seq<TableView>, i: int) -> Seq<u8>
    decreases ts.len() - i,
{
    if i < 0 || i >= ts.len() {
        seq![]
    } else {
        enc_table(ts[i]) + enc_tables_from(ts, i + 1)
    }
}

/// The whole model payload.
pub open spec fn enc_model(m: ModelV) -> Seq<u8> {
    enc_u64(m.order as u64) + enc_u64(m.prior) + seq![
        if m.backoff {
            1u8
        } else {
            0u8
        },
    ] + enc_u64(m.vocab.len() as u64) + enc_u16s_from(m.vocab, 0) + enc_u64(m.tables.len() as u64)
        + enc_tables_from(m.tables, 0)
}

/// Read one `u64`; the remainder follows it.
pub open spec fn parse_u64(s: Seq<u8>) -> Option<(u64, Seq<u8>)> {
    if s.len() < 8 {
        None
    } else {
        Some((spec_u64_from_le_bytes(s.subrange(0, 8)), s.skip(8)))
    }
}

/// Read one `u16`.
pub open spec fn parse_u16(s: Seq<u8>) -> Option<(u16, Seq<u8>)> {
    if s.len() < 2 {
        None
    } else {
        Some((spec_u16_from_le_bytes(s.subrange(0, 2)), s.skip(2)))
    }
}

/// Read `n` tokens.
pub open spec fn parse_u16s(s: Seq<u8>, n: int) -> Option<(Seq<u16>, Seq<u8>)>
    decreases n,
{
    if n <= 0 {
        Some((seq![], s))
    } else {
        match parse_u16(s) {
            None => None,
            Some((v, s1)) => match parse_u16s(s1, n - 1) {
                None => None,
                Some((vs, s2)) => Some((seq![v] + vs, s2)),
            },
        }
    }
}

/// Read `n` pairs.
pub open spec fn parse_pairs(s: Seq<u8>, n: int) -> Option<(Seq<(u16, u64)>, Seq<u8>)>
    decreases n,
{
    if n <= 0 {
        Some((seq![], s))
    } else {
        match parse_u16(s) {
            None => None,
            Some((t, s1)) => match parse_u64(s1) {
                None => None,
                Some((w, s2)) => match parse_pairs(s2, n - 1) {
                    None => None,
                    Some((ps, s3)) => Some((seq![(t, w)] + ps, s3)),
                },
            },
        }
    }
}

/// Read one entry: context length, context, distribution length, pairs.
pub open spec fn parse_entry(s: Seq<u8>) -> Option<((Seq<u16>, Seq<(u16, u64)>), Seq<u8>)> {
    match parse_u64(s) {
        None => None,
        Some((cl, s1)) => match parse_u16s(s1, cl as int) {
            None => None,
            Some((ctx, s2)) => match parse_u64(s2) {
                None => None,
                Some((dl, s3)) => match parse_pairs(s3, dl as int) {
                    None => None,
                    Some((d, s4)) => Some(((ctx, d), s4)),
                },
            },
        },
    }
}

/// Read `n` entries.
pub open spec fn parse_entries(s: Seq<u8>, n: int) -> Option<(TableView, Seq<u8>)>
    decreases n,
{
    if n <= 0 {
        Some((seq![], s))
    } else {
        match parse_entry(s) {
            None => None,
            Some((e, s1)) => match parse_entries(s1, n - 1) {
                None => None,
                Some((es, s2)) => Some((seq![e] + es, s2)),
            },
        }
    }
}

/// Read one table.
pub open spec fn parse_table(s: Seq<u8>) -> Option<(TableView, Seq<u8>)> {
    match parse_u64(s) {
        None => None,
        Some((n, s1)) => parse_entries(s1, n as int),
    }
}

/// Read `n` tables.
pub open spec fn parse_tables(s: Seq<u8>, n: int) -> Option<(Seq<TableView>, Seq<u8>)>
    decreases n,
{
    if n <= 0 {
        Some((seq![], s))
    } else {
        match parse_table(s) {
            None => None,
            Some((t, s1)) => match parse_tables(s1, n - 1) {
                None => None,
                Some((ts, s2)) => Some((seq![t] + ts, s2)),
            },
        }
    }
}

/// Read a whole model payload; the payload must be consumed exactly.
pub open spec fn parse_model(s: Seq<u8>) -> Option<ModelV> {
    match parse_u64(s) {
        None => None,
        Some((order, s1)) => match parse_u64(s1) {
            None => None,
            Some((prior, s2)) => {
                if s2.len() < 1 || (s2[0] != 0 && s2[0] != 1) {
                    None
                } else {
                    let backoff = s2[0] == 1;
                    let s3 = s2.skip(1);
                    match parse_u64(s3) {
                        None => None,
                        Some((vl, s4)) => match parse_u16s(s4, vl as int) {
                            None => None,
                            Some((vocab, s5)) => match parse_u64(s5) {
                                None => None,
                                Some((tl, s6)) => match parse_tables(s6, tl as int) {
                                    None => None,
                                    Some((tables, s7)) => {
                                        if s7.len() != 0 {
                                            None
                                        } else {
                                            Some(
                                                ModelV {
                                                    order: order as nat,
                                                    prior,
                                                    backoff,
                                                    vocab,
                                                    tables,
                                                },
                                            )
                                        }
                                    },
                                },
                            },
                        },
                    }
                }
            },
        },
    }
}

/// Every length field of the model fits its eight-byte slot. Together
/// with well-formedness this is what the codec needs; any model built
/// from in-memory vectors satisfies it.
pub open spec fn encodable(m: ModelV) -> bool {
    forall|k: int| 0 <= k < m.tables.len() ==> (#[trigger] m.tables[k]).len() <= u64::MAX
}

pub proof fn lemma_parse_u64_enc(v: u64, rest: Seq<u8>)
    ensures
        parse_u64(enc_u64(v) + rest) == Some((v, rest)),
{
    lemma_auto_spec_u64_to_from_le_bytes();
    assert((enc_u64(v) + rest).subrange(0, 8) =~= enc_u64(v));
    assert((enc_u64(v) + rest).skip(8) =~= rest);
}

pub proof fn lemma_parse_u16_enc(v: u16, rest: Seq<u8>)
    ensures
        parse_u16(enc_u16(v) + rest) == Some((v, rest)),
{
    lemma_auto_spec_u16_to_from_le_bytes();
    assert((enc_u16(v) + rest).subrange(0, 2) =~= enc_u16(v));
    assert((enc_u16(v) + rest).skip(2) =~= rest);
}

pub proof fn lemma_parse_u16s_enc(s: Seq<u16>, i: int, rest: Seq<u8>)
    requires
        0 <= i <= s.len(),
    ensures
        parse_u16s(enc_u16s_from(s, i) + rest, s.len() - i) == Some((s.skip(i), rest)),
    decreases s.len() - i,
{
    if i == s.len() {
        assert(enc_u16s_from(s, i) + rest =~= rest);
        assert(s.skip(i) =~= seq![]);
    } else {
        assert(enc_u16s_from(s, i) + rest =~= enc_u16(s[i]) + (enc_u16s_from(s, i + 1) + rest));
        lemma_parse_u16_enc(s[i], enc_u16s_from(s, i + 1) + rest);
        lemma_parse_u16s_enc(s, i + 1, rest);
        assert(seq![s[i]] + s.skip(i + 1) =~= s.skip(i));
    }
}

pub proof fn lemma_parse_pairs_enc(d: Seq<(u16, u64)>, i: int, rest: Seq<u8>)
    requires
        0 <= i <= d.len(),
    ensures
        parse_pairs(enc_pairs_from(d, i) + rest, d.len() - i) == Some((d.skip(i), rest)),
    decreases d.len() - i,
{
    if i == d.len() {
        assert(enc_pairs_from(d, i) + rest =~= rest);
        assert(d.skip(i) =~= seq![]);
    } else {
        assert(enc_pairs_from(d, i) + rest =~= enc_u16(d[i].0) + (enc_u64(d[i].1)
            + (enc_pairs_from(d, i + 1) + rest)));
        lemma_parse_u16_enc(d[i].0, enc_u64(d[i].1) + (enc_pairs_from(d, i + 1) + rest));
        lemma_parse_u64_enc(d[i].1, enc_pairs_from(d, i + 1) + rest);
        lemma_parse_pairs_enc(d, i + 1, rest);
        assert(seq![d[i]] + d.skip(i + 1) =~= d.skip(i));
        assert((d[i].0, d[i].1) == d[i]);
    }
}

pub proof fn lemma_parse_entry_enc(e: (Seq<u16>, Seq<(u16, u64)>), rest: Seq<u8>)
    requires
        e.0.len() <= u64::MAX,
        e.1.len() <= u64::MAX,
    ensures
        parse_entry(enc_entry(e) + rest) == Some((e, rest)),
{
    let r1 = enc_u16s_from(e.0, 0) + (enc_u64(e.1.len() as u64) + (enc_pairs_from(e.1, 0) + rest));
    assert(enc_entry(e) + rest =~= enc_u64(e.0.len() as u64) + r1);
    lemma_parse_u64_enc(e.0.len() as u64, r1);
    let r2 = enc_u64(e.1.len() as u64) + (enc_pairs_from(e.1, 0) + rest);
    lemma_parse_u16s_enc(e.0, 0, r2);
    assert(e.0.skip(0) =~= e.0);
    lemma_parse_u64_enc(e.1.len() as u64, enc_pairs_from(e.1, 0) + rest);
    lemma_parse_pairs_enc(e.1, 0, rest);
    assert(e.1.skip(0) =~= e.1);
}

pub proof fn lemma_parse_entries_enc(t: TableView, i: int, rest: Seq<u8>)
    requires
        0 <= i <= t.len(),
        forall|x: int|
            0 <= x < t.len() ==> (#[trigger] t[x]).0.len() <= u64::MAX && t[x].1.len() <= u64::MAX,
    ensures
        parse_entries(enc_entries_from(t, i) + rest, t.len() - i) == Some((t.skip(i), rest)),
    decreases t.len() - i,
{
    if i == t.len() {
        assert(enc_entries_from(t, i) + rest =~= rest);
        assert(t.skip(i) =~= seq![]);
    } else {
        assert(enc_entries_from(t, i) + rest =~= enc_entry(t[i]) + (enc_entries_from(t, i + 1)
            + rest));
        lemma_parse_entry_enc(t[i], enc_entries_from(t, i + 1) + rest);
        lemma_parse_entries_enc(t, i + 1, rest);
        assert(seq![t[i]] + t.skip(i + 1) =~= t.skip(i));
    }
}

pub proof fn lemma_parse_table_enc(t: TableView, rest: Seq<u8>)
    requires
        t.len() <= u64::MAX,
        forall|x: int|
            0 <= x < t.len() ==> (#[trigger] t[x]).0.len() <= u64::MAX && t[x].1.len() <= u64::MAX,
    ensures
        parse_table(enc_table(t) + rest) == Some((t, rest)),
{
    assert(enc_table(t) + rest =~= enc_u64(t.len() as u64) + (enc_entries_from(t, 0) + rest));
    lemma_parse_u64_enc(t.len() as u64, enc_entries_from(t, 0) + rest);
    lemma_parse_entries_enc(t, 0, rest);
    assert(t.skip(0) =~= t);
}

pub proof fn lemma_parse_tables_enc(ts: Seq<TableView>, i: int, rest: Seq<u8>)
    requires
        0 <= i <= ts.len(),
        forall|k: int| 0 <= k < ts.len() ==> (#[trigger] ts[k]).len() <= u64::MAX,
        forall|k: int, x: int|
            0 <= k < ts.len() && 0 <= x < ts[k].len() ==> (#[trigger] ts[k][x]).0.len()
                <= u64::MAX && ts[k][x].1.len() <= u64::MAX,
    ensures
        parse_tables(enc_tables_from(ts, i) + rest, ts.len() - i) == Some((ts.skip(i), rest)),
    decreases ts.len() - i,
{
    if i == ts.len() {
        assert(enc_tables_from(ts, i) + rest =~= rest);
        assert(ts.skip(i) =~= seq![]);
    } else {
        assert(enc_tables_from(ts, i) + rest =~= enc_table(ts[i]) + (enc_tables_from(ts, i + 1)
            + rest));
        assert forall|x: int|
            0 <= x < ts[i].len() implies (#[trigger] ts[i][x]).0.len() <= u64::MAX
            && ts[i][x].1.len() <= u64::MAX by {}
        lemma_parse_table_enc(ts[i], enc_tables_from(ts, i + 1) + rest);
        lemma_parse_tables_enc(ts, i + 1, rest);
        assert(seq![ts[i]] + ts.skip(i + 1) =~= ts.skip(i));
    }
}

/// Law: the codec round-trips. Reading back an encoded well-formed model
/// yields exactly the model that was written: same parameters, same
/// vocabulary, and every distribution of every table unchanged.
pub proof fn lemma_codec_roundtrip(m: ModelV)
    requires
        model_wf(m),
        encodable(m),
    ensures
        parse_model(enc_model(m)) == Some(m),
{
    let bk = seq![
        if m.backoff {
            1u8
        } else {
            0u8
        },
    ];
    let s6 = enc_tables_from(m.tables, 0);
    let s5 = enc_u64(m.tables.len() as u64) + s6;
    let s4 = enc_u16s_from(m.vocab, 0) + s5;
    let s3 = enc_u64(m.vocab.len() as u64) + s4;
    let s2 = bk + s3;
    let s1 = enc_u64(m.prior) + s2;
    assert(enc_model(m) =~= enc_u64(m.order as u64) + s1);
    lemma_parse_u64_enc(m.order as u64, s1);
    lemma_parse_u64_enc(m.prior, s2);
    assert(s2[0] == (if m.backoff { 1u8 } else { 0u8 }));
    assert(s2.skip(1) =~= s3);
    lemma_parse_u64_enc(m.vocab.len() as u64, s4);
    lemma_parse_u16s_enc(m.vocab, 0, s5);
    assert(m.vocab.skip(0) =~= m.vocab);
    lemma_parse_u64_enc(m.tables.len() as u64, s6);
    assert(s6 =~= enc_tables_from(m.tables, 0) + Seq::<u8>::empty());
    assert forall|k: int, x: int|
        0 <= k < m.tables.len() && 0 <= x < m.tables[k].len() implies (
    #[trigger] m.tables[k][x]).0.len() <= u64::MAX && m.tables[k][x].1.len() <= u64::MAX by {
        if m.backoff {
            assert(crate::model::table_wf(m.tables[k], k as nat, m.vocab));
        } else {
            assert(crate::model::table_wf(m.tables[k], m.order, m.vocab));
        }
        assert(crate::model::dist_wf(m.tables[k][x].1, m.vocab));
    }
    lemma_parse_tables_enc(m.tables, 0, Seq::<u8>::empty());
    assert(m.tables.skip(0) =~= m.tables);
}

/// Append the eight little-endian bytes of `v`.
pub(crate) fn push_u64(out: &mut Vec<u8>, v: u64)
    ensures
        final(out)@ == old(out)@ + enc_u64(v),
{
    let ghost pre = out@;
    let b = u64_to_le_bytes(v);
    let mut i: usize = 0;
    while i < b.len()
        invariant
            i <= b@.len(),
            b@ == enc_u64(v),
            out@ =~= pre + b@.subrange(0, i as int),
        decreases b.len() - i,
    {
        out.push(b[i]);
        proof {
            assert(out@ =~= pre + b@.subrange(0, i + 1));
        }
        i += 1;
    }
    proof {
        assert(b@.subrange(0, b@.len() as int) =~= b@);
    }
}

/// Append the two little-endian bytes of `v`.
fn push_u16(out: &mut Vec<u8>, v: u16)
    ensures
        final(out)@ == old(out)@ + enc_u16(v),
{
    let ghost pre = out@;
    let b = u16_to_le_bytes(v);
    let mut i: usize = 0;
    while i < b.len()
        invariant
            i <= b@.len(),
            b@ == enc_u16(v),
            out@ =~= pre + b@.subrange(0, i as int),
        decreases b.len() - i,
    {
        out.push(b[i]);
        proof {
            assert(out@ =~= pre + b@.subrange(0, i + 1));
        }
        i += 1;
    }
    proof {
        assert(b@.subrange(0, b@.len() as int) =~= b@);
    }
}

/// Append every token of `v`.
fn push_u16s(out: &mut Vec<u8>, v: &Vec<u16>)
    ensures
        final(out)@ == old(out)@ + enc_u16s_from(v@, 0),
{
    let ghost pre = out@;
    let mut i: usize = 0;
    while i < v.len()
        invariant
            i <= v@.len(),
            pre + enc_u16s_from(v@, 0) =~= out@ + enc_u16s_from(v@, i as int),
        decreases v.len() - i,
    {
        let ghost mid = out@;
        push_u16(out, v[i]);
        proof {
            assert(enc_u16s_from(v@, i as int) =~= enc_u16(v@[i as int]) + enc_u16s_from(
                v@,
                i + 1,
            ));
            assert(pre + enc_u16s_from(v@, 0) =~= out@ + enc_u16s_from(v@, i + 1));
        }
        i += 1;
    }
    proof {
        assert(enc_u16s_from(v@, v@.len() as int) =~= Seq::<u8>::empty());
        assert(out@ + Seq::<u8>::empty() =~= out@);
    }
}

/// Append every pair of a distribution.
fn push_pairs(out: &mut Vec<u8>, d: &Vec<(u16, u64)>)
    ensures
        final(out)@ == old(out)@ + enc_pairs_from(d@, 0),
{
    let ghost pre = out@;
    let mut i: usize = 0;
    while i < d.len()
        invariant
            i <= d@.len(),
            pre + enc_pairs_from(d@, 0) =~= out@ + enc_pairs_from(d@, i as int),
        decreases d.len() - i,
    {
        let pair = d[i];
        push_u16(out, pair.0);
        push_u64(out, pair.1);
        proof {
            assert(enc_pairs_from(d@, i as int) =~= enc_u16(d@[i as int].0) + (enc_u64(
                d@[i as int].1,
            ) + enc_pairs_from(d@, i + 1)));
            assert(pre + enc_pairs_from(d@, 0) =~= out@ + enc_pairs_from(d@, i + 1));
        }
        i += 1;
    }
    proof {
        assert(enc_pairs_from(d@, d@.len() as int) =~= Seq::<u8>::empty());
        assert(out@ + Seq::<u8>::empty() =~= out@);
    }
}

/// Append one table entry.
fn push_entry(out: &mut Vec<u8>, e: &crate::model::TableEntry)
    ensures
        final(out)@ == old(out)@ + enc_entry(e@),
{
    let ghost pre = out@;
    push_u64(out, e.context.len() as u64);
    push_u16s(out, &e.context);
    push_u64(out, e.dist.pairs.len() as u64);
    push_pairs(out, &e.dist.pairs);
    proof {
        assert(out@ =~= pre + enc_entry(e@));
    }
}

/// Append one table.
fn push_table(out: &mut Vec<u8>, t: &crate::model::Table)
    ensures
        final(out)@ == old(out)@ + enc_table(t@),
{
    let ghost pre = out@;
    push_u64(out, t.entries.len() as u64);
    let ghost base = out@;
    let mut i: usize = 0;
    while i < t.entries.len()
        invariant
            i <= t.entries@.len(),
            t@.len() == t.entries@.len(),
            base + enc_entries_from(t@, 0) =~= out@ + enc_entries_from(t@, i as int),
        decreases t.entries.len() - i,
    {
        push_entry(out, &t.entries[i]);
        proof {
            assert(enc_entries_from(t@, i as int) =~= enc_entry(t@[i as int]) + enc_entries_from(
                t@,
                i + 1,
            ));
            assert(t@[i as int] == t.entries@[i as int]@);
            assert(base + enc_entries_from(t@, 0) =~= out@ + enc_entries_from(t@, i + 1));
        }
        i += 1;
    }
    proof {
        assert(enc_entries_from(t@, t@.len() as int) =~= Seq::<u8>::empty());
        assert(out@ + Seq::<u8>::empty() =~= out@);
        assert(out@ =~= pre + enc_table(t@));
    }
}

/// Serialize a model into its deterministic binary payload.
pub fn encode_model(m: &crate::model::Model) -> (out: Vec<u8>)
    ensures
        out@ == enc_model(m@),
{
    let mut out: Vec<u8> = Vec::new();
    push_u64(&mut out, m.order as u64);
    push_u64(&mut out, m.prior);
    if m.backoff {
        out.push(1u8);
    } else {
        out.push(0u8);
    }
    push_u64(&mut out, m.vocab.len() as u64);
    push_u16s(&mut out, &m.vocab);
    push_u64(&mut out, m.tables.len() as u64);
    let ghost base = out@;
    let mut k: usize = 0;
    while k < m.tables.len()
        invariant
            k <= m.tables@.len(),
            m@.tables.len() == m.tables@.len(),
            base + enc_tables_from(m@.tables, 0) =~= out@ + enc_tables_from(m@.tables, k as int),
        decreases m.tables.len() - k,
    {
        push_table(&mut out, &m.tables[k]);
        proof {
            assert(enc_tables_from(m@.tables, k as int) =~= enc_table(m@.tables[k as int])
                + enc_tables_from(m@.tables, k + 1));
            assert(m@.tables[k as int] == m.tables@[k as int]@);
            assert(base + enc_tables_from(m@.tables, 0) =~= out@ + enc_tables_from(
                m@.tables,
                k + 1,
            ));
        }
        k += 1;
    }
    proof {
        assert(enc_tables_from(m@.tables, m@.tables.len() as int) =~= Seq::<u8>::empty());
        assert(out@ + Seq::<u8>::empty() =~= out@);
        assert(out@ =~= enc_model(m@));
    }
    out
}

/// Read one `u64` at `pos`.
fn read_u64(bytes: &Vec<u8>, pos: &mut usize) -> (r: Option<u64>)
    requires
        *old(pos) <= bytes@.len(),
    ensures
        *final(pos) <= bytes@.len(),
        match r {
            Some(v) => *final(pos) == *old(pos) + 8 && parse_u64(bytes@.skip(*old(pos) as int))
                == Some((v, bytes@.skip(*final(pos) as int))),
            None => parse_u64(bytes@.skip(*old(pos) as int)) is None && *final(pos) == *old(pos),
        },
{
    if bytes.len() - *pos < 8 {
        proof {
            assert(bytes@.skip(*pos as int).len() < 8);
        }
        return None;
    }
    let sl = vstd::slice::slice_subrange(bytes.as_slice(), *pos, *pos + 8);
    let v = vstd::bytes::u64_from_le_bytes(sl);
    proof {
        assert(sl@ =~= bytes@.skip(*pos as int).subrange(0, 8));
        assert(bytes@.skip(*pos as int).skip(8) =~= bytes@.skip(*pos + 8));
    }
    *pos = *pos + 8;
    Some(v)
}

/// Read one `u16` at `pos`.
fn read_u16(bytes: &Vec<u8>, pos: &mut usize) -> (r: Option<u16>)
    requires
        *old(pos) <= bytes@.len(),
    ensures
        *final(pos) <= bytes@.len(),
        match r {
            Some(v) => *final(pos) == *old(pos) + 2 && parse_u16(bytes@.skip(*old(pos) as int))
                == Some((v, bytes@.skip(*final(pos) as int))),
            None => parse_u16(bytes@.skip(*old(pos) as int)) is None && *final(pos) == *old(pos),
        },
{
    if bytes.len() - *pos < 2 {
        proof {
            assert(bytes@.skip(*pos as int).len() < 2);
        }
        return None;
    }
    let sl = vstd::slice::slice_subrange(bytes.as_slice(), *pos, *pos + 2);
    let v = vstd::bytes::u16_from_le_bytes(sl);
    proof {
        assert(sl@ =~= bytes@.skip(*pos as int).subrange(0, 2));
        assert(bytes@.skip(*pos as int).skip(2) =~= bytes@.skip(*pos + 2));
    }
    *pos = *pos + 2;
    Some(v)
}

/// Read `n` tokens.
fn read_u16s(bytes: &Vec<u8>, pos: &mut usize, n: u64) -> (r: Option<Vec<u16>>)
    requires
        *old(pos) <= bytes@.len(),
    ensures
        *final(pos) <= bytes@.len(),
        match r {
            Some(v) => parse_u16s(bytes@.skip(*old(pos) as int), n as int) == Some(
                (v@, bytes@.skip(*final(pos) as int)),
            ),
            None => parse_u16s(bytes@.skip(*old(pos) as int), n as int) is None,
        },
{
    let ghost p0 = *pos as int;
    let mut acc: Vec<u16> = Vec::new();
    let mut i: u64 = 0;
    while i < n
        invariant
            i <= n,
            *pos <= bytes@.len(),
            p0 == *old(pos) as int,
            parse_u16s(bytes@.skip(p0), n as int) == (match parse_u16s(
                bytes@.skip(*pos as int),
                n - i,
            ) {
                Some((vs, rest)) => Some((acc@ + vs, rest)),
                None => None::<(Seq<u16>, Seq<u8>)>,
            }),
        decreases n - i,
    {
        let ghost pmid = *pos as int;
        let ghost accpre = acc@;
        match read_u16(bytes, pos) {
            Some(v) => {
                acc.push(v);
                proof {
                    assert(acc@ =~= accpre.push(v));
                    match parse_u16s(bytes@.skip(*pos as int), n - i - 1) {
                        Some((vs, rest)) => {
                            assert(parse_u16s(bytes@.skip(pmid), n - i) == Some(
                                (seq![v] + vs, rest),
                            ));
                            assert(accpre + (seq![v] + vs) =~= acc@ + vs);
                        },
                        None => {
                            assert(parse_u16s(bytes@.skip(pmid), n - i) is None);
                        },
                    }
                }
            },
            None => {
                proof {
                    assert(parse_u16s(bytes@.skip(pmid), n - i) is None);
                }
                return None;
            },
        }
        i += 1;
    }
    proof {
        assert(parse_u16s(bytes@.skip(*pos as int), 0) == Some(
            (Seq::<u16>::empty(), bytes@.skip(*pos as int)),
        ));
        assert(acc@ + Seq::<u16>::empty() =~= acc@);
    }
    Some(acc)
}

/// Read `n` pairs.
fn read_pairs(bytes: &Vec<u8>, pos: &mut usize, n: u64) -> (r: Option<Vec<(u16, u64)>>)
    requires
        *old(pos) <= bytes@.len(),
    ensures
        *final(pos) <= bytes@.len(),
        match r {
            Some(v) => parse_pairs(bytes@.skip(*old(pos) as int), n as int) == Some(
                (v@, bytes@.skip(*final(pos) as int)),
            ),
            None => parse_pairs(bytes@.skip(*old(pos) as int), n as int) is None,
        },
{
    let ghost p0 = *pos as int;
    let mut acc: Vec<(u16, u64)> = Vec::new();
    let mut i: u64 = 0;
    while i < n
        invariant
            i <= n,
            *pos <= bytes@.len(),
            p0 == *old(pos) as int,
            parse_pairs(bytes@.skip(p0), n as int) == (match parse_pairs(
                bytes@.skip(*pos as int),
                n - i,
            ) {
                Some((vs, rest)) => Some((acc@ + vs, rest)),
                None => None::<(Seq<(u16, u64)>, Seq<u8>)>,
            }),
        decreases n - i,
    {
        let ghost pmid = *pos as int;
        let ghost accpre = acc@;
        let t = match read_u16(bytes, pos) {
            Some(t) => t,
            None => {
                proof {
                    assert(parse_pairs(bytes@.skip(pmid), n - i) is None);
                }
                return None;
            },
        };
        let w = match read_u64(bytes, pos) {
            Some(w) => w,
            None => {
                proof {
                    assert(parse_pairs(bytes@.skip(pmid), n - i) is None);
                }
                return None;
            },
        };
        acc.push((t, w));
        proof {
            assert(acc@ =~= accpre.push((t, w)));
            match parse_pairs(bytes@.skip(*pos as int), n - i - 1) {
                Some((vs, rest)) => {
                    assert(parse_pairs(bytes@.skip(pmid), n - i) == Some((seq![(t, w)] + vs, rest)));
                    assert(accpre + (seq![(t, w)] + vs) =~= acc@ + vs);
                },
                None => {
                    assert(parse_pairs(bytes@.skip(pmid), n - i) is None);
                },
            }
        }
        i += 1;
    }
    proof {
        assert(parse_pairs(bytes@.skip(*pos as int), 0) == Some(
            (Seq::<(u16, u64)>::empty(), bytes@.skip(*pos as int)),
        ));
        assert(acc@ + Seq::<(u16, u64)>::empty() =~= acc@);
    }
    Some(acc)
}

/// Read one table entry.
fn read_entry(bytes: &Vec<u8>, pos: &mut usize) -> (r: Option<crate::model::TableEntry>)
    requires
        *old(pos) <= bytes@.len(),
    ensures
        *final(pos) <= bytes@.len(),
        match r {
            Some(e) => parse_entry(bytes@.skip(*old(pos) as int)) == Some(
                (e@, bytes@.skip(*final(pos) as int)),
            ),
            None => parse_entry(bytes@.skip(*old(pos) as int)) is None,
        },
{
    let cl = match read_u64(bytes, pos) {
        Some(v) => v,
        None => {
            return None;
        },
    };
    let ctx = match read_u16s(bytes, pos, cl) {
        Some(v) => v,
        None => {
            return None;
        },
    };
    let dl = match read_u64(bytes, pos) {
        Some(v) => v,
        None => {
            return None;
        },
    };
    let pairs = match read_pairs(bytes, pos, dl) {
        Some(v) => v,
        None => {
            return None;
        },
    };
    Some(
        crate::model::TableEntry {
            context: ctx,
            dist: crate::model::Dist { pairs },
        },
    )
}

/// Read one table: its entry count, then its entries.
fn read_table(bytes: &Vec<u8>, pos: &mut usize) -> (r: Option<crate::model::Table>)
    requires
        *old(pos) <= bytes@.len(),
    ensures
        *final(pos) <= bytes@.len(),
        match r {
            Some(t) => parse_table(bytes@.skip(*old(pos) as int)) == Some(
                (t@, bytes@.skip(*final(pos) as int)),
            ),
            None => parse_table(bytes@.skip(*old(pos) as int)) is None,
        },
{
    let ghost p0 = *pos as int;
    let n = match read_u64(bytes, pos) {
        Some(v) => v,
        None => {
            return None;
        },
    };
    let mut entries: Vec<crate::model::TableEntry> = Vec::new();
    let mut i: u64 = 0;
    while i < n
        invariant
            i <= n,
            *pos <= bytes@.len(),
            p0 == *old(pos) as int,
            parse_table(bytes@.skip(p0)) == (match parse_entries(bytes@.skip(*pos as int), n - i) {
                Some((es, rest)) => Some(
                    (Seq::new(entries@.len(), |x: int| entries@[x]@) + es, rest),
                ),
                None => None::<(TableView, Seq<u8>)>,
            }),
        decreases n - i,
    {
        let ghost pmid = *pos as int;
        let ghost accpre = Seq::new(entries@.len(), |x: int| entries@[x]@);
        match read_entry(bytes, pos) {
            Some(e) => {
                let ghost ev = e@;
                entries.push(e);
                proof {
                    assert(Seq::new(entries@.len(), |x: int| entries@[x]@) =~= accpre.push(ev));
                    match parse_entries(bytes@.skip(*pos as int), n - i - 1) {
                        Some((es, rest)) => {
                            assert(parse_entries(bytes@.skip(pmid), n - i) == Some(
                                (seq![ev] + es, rest),
                            ));
                            assert(accpre + (seq![ev] + es) =~= accpre.push(ev) + es);
                        },
                        None => {
                            assert(parse_entries(bytes@.skip(pmid), n - i) is None);
                        },
                    }
                }
            },
            None => {
                proof {
                    assert(parse_entries(bytes@.skip(pmid), n - i) is None);
                }
                return None;
            },
        }
        i += 1;
    }
    let t = crate::model::Table { entries };
    proof {
        assert(parse_entries(bytes@.skip(*pos as int), 0) == Some(
            (Seq::<(Seq<u16>, Seq<(u16, u64)>)>::empty(), bytes@.skip(*pos as int)),
        ));
        assert(t@ + Seq::<(Seq<u16>, Seq<(u16, u64)>)>::empty() =~= t@);
    }
    Some(t)
}

/// Check the vocabulary part of well-formedness.
fn check_vocab(v: &Vec<u16>) -> (r: bool)
    ensures
        r == ((forall|i: int| 0 <= i < v@.len() ==> 2 <= #[trigger] v@[i] <= crate::model::TOKEN_MAX)
            && (forall|i: int, j: int| 0 <= i < j < v@.len() ==> v@[i] != v@[j]) && v@.len()
            <= 256),
{
    if v.len() > 256 {
        return false;
    }
    let mut i: usize = 0;
    while i < v.len()
        invariant
            i <= v@.len(),
            forall|x: int| 0 <= x < i ==> 2 <= #[trigger] v@[x] <= crate::model::TOKEN_MAX,
            forall|a: int, b: int| 0 <= a < b < i ==> v@[a] != v@[b],
        decreases v.len() - i,
    {
        let t = v[i];
        if t < 2 || t > crate::model::TOKEN_MAX {
            proof {
                assert(!(2 <= v@[i as int] <= crate::model::TOKEN_MAX));
            }
            return false;
        }
        let mut j: usize = 0;
        while j < i
            invariant
                j <= i < v@.len(),
                t == v@[i as int],
                forall|a: int| 0 <= a < j ==> v@[a] != v@[i as int],
            decreases i - j,
        {
            if v[j] == t {
                proof {
                    assert(v@[j as int] == v@[i as int]);
                }
                return false;
            }
            j += 1;
        }
        proof {
            assert forall|a: int, b: int| 0 <= a < b < i + 1 implies v@[a] != v@[b] by {
                if b < i as int {
                    assert(v@[a] != v@[b]);
                } else {
                    assert(v@[a] != v@[i as int]);
                }
            }
        }
        i += 1;
    }
    true
}

/// Check one distribution: non-empty, bounded, positive in-range weights,
/// vocabulary successors, distinct tokens.
fn check_dist(d: &Vec<(u16, u64)>, vocab: &Vec<u16>) -> (r: bool)
    ensures
        r == (crate::model::dist_wf(d@, vocab@) && d@.len() > 0),
{
    if d.len() == 0 || d.len() > 257 {
        return false;
    }
    let mut i: usize = 0;
    while i < d.len()
        invariant
            0 < d@.len() <= 257,
            i <= d@.len(),
            forall|x: int|
                0 <= x < i ==> 1 <= (#[trigger] d@[x]).1 <= crate::model::MAX_WEIGHT
                    && crate::model::successor_ok(d@[x].0, vocab@),
            forall|a: int, b: int| 0 <= a < b < i ==> d@[a].0 != d@[b].0,
        decreases d.len() - i,
    {
        let pair = d[i];
        if pair.1 < 1 || pair.1 > crate::model::MAX_WEIGHT {
            proof {
                assert(!(1 <= d@[i as int].1 <= crate::model::MAX_WEIGHT));
            }
            return false;
        }
        if pair.0 != crate::model::TOKEN_END && !crate::train::contains_code(vocab, pair.0) {
            proof {
                assert(!crate::model::successor_ok(d@[i as int].0, vocab@));
            }
            return false;
        }
        let mut j: usize = 0;
        while j < i
            invariant
                j <= i < d@.len(),
                pair == d@[i as int],
                forall|a: int| 0 <= a < j ==> d@[a].0 != d@[i as int].0,
            decreases i - j,
        {
            if d[j].0 == pair.0 {
                proof {
                    assert(d@[j as int].0 == d@[i as int].0);
                }
                return false;
            }
            j += 1;
        }
        proof {
            assert(crate::model::successor_ok(d@[i as int].0, vocab@));
            assert forall|a: int, b: int| 0 <= a < b < i + 1 implies d@[a].0 != d@[b].0 by {
                if b < i as int {
                    assert(d@[a].0 != d@[b].0);
                } else {
                    assert(d@[a].0 != d@[i as int].0);
                }
            }
        }
        i += 1;
    }
    true
}

/// Check one table against its expected context length.
fn check_table(t: &crate::model::Table, ctx_len: usize, vocab: &Vec<u16>) -> (r: bool)
    ensures
        r == crate::model::table_wf(t@, ctx_len as nat, vocab@),
{
    let mut i: usize = 0;
    while i < t.entries.len()
        invariant
            i <= t.entries@.len(),
            t@.len() == t.entries@.len(),
            forall|x: int|
                0 <= x < i ==> (#[trigger] t@[x]).0.len() == ctx_len && crate::model::dist_wf(
                    t@[x].1,
                    vocab@,
                ) && t@[x].1.len() > 0,
            forall|a: int, b: int| 0 <= a < b < i ==> t@[a].0 != t@[b].0,
        decreases t.entries.len() - i,
    {
        proof {
            assert(t@[i as int] == t.entries@[i as int]@);
        }
        if t.entries[i].context.len() != ctx_len {
            proof {
                assert(t@[i as int].0.len() != ctx_len);
            }
            return false;
        }
        if !check_dist(&t.entries[i].dist.pairs, vocab) {
            proof {
                assert(!(crate::model::dist_wf(t@[i as int].1, vocab@) && t@[i as int].1.len()
                    > 0));
            }
            return false;
        }
        let mut j: usize = 0;
        while j < i
            invariant
                j <= i < t@.len(),
                t@.len() == t.entries@.len(),
                t@[i as int] == t.entries@[i as int]@,
                forall|a: int| 0 <= a < j ==> t@[a].0 != t@[i as int].0,
            decreases i - j,
        {
            proof {
                assert(t@[j as int] == t.entries@[j as int]@);
            }
            if crate::model::vec_u16_eq(&t.entries[j].context, &t.entries[i].context) {
                proof {
                    assert(t@[j as int].0 == t@[i as int].0);
                }
                return false;
            }
            j += 1;
        }
        proof {
            assert forall|a: int, b: int| 0 <= a < b < i + 1 implies t@[a].0 != t@[b].0 by {
                if b < i as int {
                    assert(t@[a].0 != t@[b].0);
                } else {
                    assert(t@[a].0 != t@[i as int].0);
                }
            }
        }
        i += 1;
    }
    true
}

/// Check full well-formedness of a model value.
pub fn check_model_wf(m: &crate::model::Model) -> (r: bool)
    ensures
        r == model_wf(m@),
{
    if m.order < 1 || m.order > crate::model::MAX_ORDER {
        return false;
    }
    if m.prior > crate::model::MAX_PRIOR {
        return false;
    }
    if !check_vocab(&m.vocab) {
        return false;
    }
    if m.backoff {
        if m.tables.len() != m.order + 1 {
            return false;
        }
        let mut k: usize = 0;
        while k < m.tables.len()
            invariant
                k <= m.tables@.len(),
                m@.tables.len() == m.tables@.len(),
                m.tables@.len() == m.order + 1,
                m@.order == m.order as nat,
                forall|x: int|
                    0 <= x < k ==> crate::model::table_wf(
                        #[trigger] m@.tables[x],
                        x as nat,
                        m@.vocab,
                    ),
        decreases m.tables.len() - k,
        {
            if !check_table(&m.tables[k], k, &m.vocab) {
                proof {
                    assert(m@.tables[k as int] == m.tables@[k as int]@);
                }
                return false;
            }
            proof {
                assert(m@.tables[k as int] == m.tables@[k as int]@);
            }
            k += 1;
        }
        true
    } else {
        if m.tables.len() != 1 {
            return false;
        }
        let ok = check_table(&m.tables[0], m.order, &m.vocab);
        proof {
            assert(m@.tables[0] == m.tables@[0]@);
        }
        ok
    }
}

/// Deserialize a model payload, validating it completely.
///
/// The result is `Some` exactly when the bytes are the encoding of some
/// well-formed model, and then it is that model.
pub fn decode_model(bytes: &Vec<u8>) -> (r: Option<crate::model::Model>)
    ensures
        match r {
            Some(m) => model_wf(m@) && parse_model(bytes@) == Some(m@),
            None => parse_model(bytes@) is None || !model_wf(parse_model(bytes@)->Some_0),
        },
{
    let mut pos: usize = 0;
    proof {
        assert(bytes@.skip(0) =~= bytes@);
    }
    let order64 = match read_u64(bytes, &mut pos) {
        Some(v) => v,
        None => {
            return None;
        },
    };
    let prior = match read_u64(bytes, &mut pos) {
        Some(v) => v,
        None => {
            return None;
        },
    };
    let ghost s2 = bytes@.skip(pos as int);
    if pos >= bytes.len() {
        proof {
            assert(s2.len() < 1);
        }
        return None;
    }
    let bk = bytes[pos];
    proof {
        assert(s2[0] == bytes@[pos as int]);
    }
    if bk != 0 && bk != 1 {
        return None;
    }
    let backoff = bk == 1;
    pos += 1;
    proof {
        assert(s2.skip(1) =~= bytes@.skip(pos as int));
    }
    let vl = match read_u64(bytes, &mut pos) {
        Some(v) => v,
        None => {
            return None;
        },
    };
    let vocab = match read_u16s(bytes, &mut pos, vl) {
        Some(v) => v,
        None => {
            return None;
        },
    };
    let tl = match read_u64(bytes, &mut pos) {
        Some(v) => v,
        None => {
            return None;
        },
    };
    let ghost s6 = bytes@.skip(pos as int);
    proof {
        assert(parse_tables(s6, tl as int) is None ==> parse_model(bytes@) is None);
    }
    let mut tables: Vec<crate::model::Table> = Vec::new();
    let mut i: u64 = 0;
    while i < tl
        invariant
            i <= tl,
            pos <= bytes@.len(),
            (parse_tables(s6, tl as int) is None ==> parse_model(bytes@) is None),
            parse_tables(s6, tl as int) == (match parse_tables(bytes@.skip(pos as int), tl - i) {
                Some((ts, rest)) => Some(
                    (Seq::new(tables@.len(), |x: int| tables@[x]@) + ts, rest),
                ),
                None => None::<(Seq<TableView>, Seq<u8>)>,
            }),
        decreases tl - i,
    {
        let ghost pmid = pos as int;
        let ghost accpre = Seq::new(tables@.len(), |x: int| tables@[x]@);
        match read_table(bytes, &mut pos) {
            Some(t) => {
                let ghost tv = t@;
                tables.push(t);
                proof {
                    assert(Seq::new(tables@.len(), |x: int| tables@[x]@) =~= accpre.push(tv));
                    match parse_tables(bytes@.skip(pos as int), tl - i - 1) {
                        Some((ts, rest)) => {
                            assert(parse_tables(bytes@.skip(pmid), tl - i) == Some(
                                (seq![tv] + ts, rest),
                            ));
                            assert(accpre + (seq![tv] + ts) =~= accpre.push(tv) + ts);
                        },
                        None => {
                            assert(parse_tables(bytes@.skip(pmid), tl - i) is None);
                        },
                    }
                }
            },
            None => {
                proof {
                    assert(parse_tables(bytes@.skip(pmid), tl - i) is None);
                }
                return None;
            },
        }
        i += 1;
    }
    proof {
        assert(parse_tables(bytes@.skip(pos as int), 0) == Some(
            (Seq::<TableView>::empty(), bytes@.skip(pos as int)),
        ));
        assert(Seq::new(tables@.len(), |x: int| tables@[x]@) + Seq::<TableView>::empty()
            =~= Seq::new(tables@.len(), |x: int| tables@[x]@));
    }
    if pos != bytes.len() {
        proof {
            assert(bytes@.skip(pos as int).len() != 0);
        }
        return None;
    }
    if order64 > crate::model::MAX_ORDER as u64 {
        proof {
            assert(parse_model(bytes@)->Some_0.order > crate::model::MAX_ORDER);
        }
        return None;
    }
    let m = crate::model::Model {
        order: order64 as usize,
        prior,
        backoff,
        vocab,
        tables,
    };
    proof {
        assert(bytes@.skip(pos as int).len() == 0);
        assert(parse_model(bytes@) == Some(m@));
    }
    if check_model_wf(&m) {
        Some(m)
    } else {
        None
    }
}

} // verus!
