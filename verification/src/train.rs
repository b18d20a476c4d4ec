//! Training: building the order-hierarchy of context tables from a corpus.
//!
//! Each word is walked position by position; position `i` predicts the token
//! at `i` (the end sentinel one past the last byte) from the tokens before
//! it. With backoff enabled, position `i` feeds the table of level
//! `min(i, order)` under its exact preceding context; without backoff all
//! positions feed a single full-order table under a start-padded context.
//! After counting, the smoothing prior is added for every vocabulary token
//! (and the end sentinel) to every recorded distribution.

use vstd::prelude::*;

use crate::model::{
    code_of_byte, model_wf, successor_ok, table_wf, vec_u16_eq, Dist, Model, ModelV, Table,
    TableEntry, TableView, MAX_COUNT, MAX_ORDER, MAX_PRIOR, MAX_WEIGHT, TOKEN_END, TOKEN_MAX,
    TOKEN_START,
};
use crate::Error;

verus! {

/// The token codes of a word's bytes.
pub open spec fn word_codes(w: Seq<u8>) -> Seq<u16> {
    Seq::new(w.len(), |i: int| code_of_byte(w[i]))
}

/// The token predicted at position `i` of a word: its byte code, or the end
/// sentinel one past the end.
pub open spec fn succ_at(toks: Seq<u16>, i: int) -> u16 {
    if i < toks.len() {
        toks[i]
    } else {
        TOKEN_END
    }
}

/// The table level fed by position `i`.
pub open spec fn lvl_at(i: int, order: int, backoff: bool) -> int {
    if backoff {
        if i < order {
            i
        } else {
            order
        }
    } else {
        0
    }
}

/// The context under which position `i` is recorded. With backoff it is the
/// `min(i, order)` preceding tokens; without it is exactly `order` tokens,
/// start-padded when fewer precede.
pub open spec fn ctx_at(toks: Seq<u16>, i: int, order: int, backoff: bool) -> Seq<u16> {
    if backoff {
        let k = if i < order {
            i
        } else {
            order
        };
        toks.subrange(i - k, i)
    } else {
        if i >= order {
            toks.subrange(i - order, i)
        } else {
            Seq::new((order - i) as nat, |_j: int| TOKEN_START) + toks.subrange(0, i)
        }
    }
}

/// Whether some pair of `d` carries token `tok`.
pub open spec fn has_tok(d: Seq<(u16, u64)>, tok: u16) -> bool {
    exists|j: int| 0 <= j < d.len() && d[j].0 == tok
}

/// One observation added to a distribution: the token's weight grows by
/// one, or a fresh pair with weight one is appended.
pub open spec fn dist_bump(d: Seq<(u16, u64)>, tok: u16) -> Seq<(u16, u64)> {
    if has_tok(d, tok) {
        let j = choose|j: int| 0 <= j < d.len() && d[j].0 == tok;
        d.update(j, (tok, (d[j].1 + 1) as u64))
    } else {
        d.push((tok, 1u64))
    }
}

/// Whether some entry of `t` has context `ctx`.
pub open spec fn has_ctx(t: Seq<(Seq<u16>, Seq<(u16, u64)>)>, ctx: Seq<u16>) -> bool {
    exists|j: int| 0 <= j < t.len() && t[j].0 == ctx
}

/// One observation added to a table.
pub open spec fn table_bump(t: Seq<(Seq<u16>, Seq<(u16, u64)>)>, ctx: Seq<u16>, tok: u16) -> Seq<
    (Seq<u16>, Seq<(u16, u64)>),
> {
    if has_ctx(t, ctx) {
        let j = choose|j: int| 0 <= j < t.len() && t[j].0 == ctx;
        t.update(j, (ctx, dist_bump(t[j].1, tok)))
    } else {
        t.push((ctx, seq![(tok, 1u64)]))
    }
}

/// Internal consistency needed while tables are still being filled:
/// distinct contexts, distinct tokens within each distribution, and
/// weights that cannot overflow a further increment.
pub open spec fn dist_distinct(d: Seq<(u16, u64)>) -> bool {
    forall|i: int, j: int| 0 <= i < j < d.len() ==> d[i].0 != d[j].0
}

pub open spec fn table_distinct(t: Seq<(Seq<u16>, Seq<(u16, u64)>)>) -> bool {
    &&& forall|i: int, j: int| 0 <= i < j < t.len() ==> t[i].0 != t[j].0
    &&& forall|i: int| 0 <= i < t.len() ==> dist_distinct((#[trigger] t[i]).1)
}

/// All weights of `t` at most `b`.
pub open spec fn table_weights_le(t: Seq<(Seq<u16>, Seq<(u16, u64)>)>, b: int) -> bool {
    forall|i: int, j: int|
        0 <= i < t.len() && 0 <= j < t[i].1.len() ==> (#[trigger] t[i].1[j]).1 <= b
}

/// Append one observation to a table in place.
fn bump(table: &mut Table, ctx: Vec<u16>, tok: u16, Ghost(bound): Ghost<int>)
    requires
        table_distinct(old(table)@),
        table_weights_le(old(table)@, bound),
        0 <= bound,
        bound + 1 <= u64::MAX,
    ensures
        final(table)@ == table_bump(old(table)@, ctx@, tok),
        table_distinct(final(table)@),
        table_weights_le(final(table)@, bound + 1),
{
    let ghost t0 = table@;
    proof {
        assert(table_distinct(t0));
        assert(table_weights_le(t0, bound));
    }
    let mut i: usize = 0;
    while i < table.entries.len()
        invariant
            i <= table.entries.len(),
            table@ == t0,
            t0 == old(table)@,
            table_distinct(t0),
            table_weights_le(t0, bound),
            0 <= bound,
            bound + 1 <= u64::MAX,
            forall|j: int| 0 <= j < i ==> t0[j].0 != ctx@,
        decreases table.entries.len() - i,
    {
        if vec_u16_eq(&table.entries[i].context, &ctx) {
            proof {
                assert(t0[i as int].0 == ctx@);
                assert(has_ctx(t0, ctx@));
                let j0 = choose|j: int| 0 <= j < t0.len() && t0[j].0 == ctx@;
                if j0 < i as int {
                    assert(t0[j0].0 != ctx@);
                } else if j0 > i as int {
                    assert(t0[i as int].0 != t0[j0].0);
                }
                assert(j0 == i);
            }
            let ghost d0 = t0[i as int].1;
            proof {
                assert(dist_distinct(d0));
            }
            let mut k: usize = 0;
            let dist_len = table.entries[i].dist.pairs.len();
            while k < dist_len
                invariant
                    k <= dist_len,
                    dist_len == d0.len(),
                    0 <= i < table.entries.len(),
                    table@ == t0,
                    t0 == old(table)@,
                    t0[i as int].1 == d0,
                    t0[i as int].0 == ctx@,
                    has_ctx(t0, ctx@),
                    table_distinct(t0),
                    table_weights_le(t0, bound),
                    dist_distinct(d0),
                    0 <= bound,
                    bound + 1 <= u64::MAX,
                    forall|j: int| 0 <= j < k ==> d0[j].0 != tok,
                decreases dist_len - k,
            {
                let pair = table.entries[i].dist.pairs[k];
                if pair.0 == tok {
                    proof {
                        assert(d0[k as int].0 == tok);
                        assert(has_tok(d0, tok));
                        let j0 = choose|j: int| 0 <= j < d0.len() && d0[j].0 == tok;
                        if j0 < k as int {
                            assert(d0[j0].0 != d0[k as int].0);
                        } else if j0 > k as int {
                            assert(d0[k as int].0 != d0[j0].0);
                        }
                        assert(j0 == k);
                        assert(t0[i as int].1[k as int].1 <= bound);
                    }
                    let w = pair.1;
                    table.entries[i].dist.pairs[k] = (tok, w + 1);
                    proof {
                        assert(table@ =~~= table_bump(t0, ctx@, tok));
                        assert forall|a: int, b: int|
                            0 <= a < table@.len() && 0 <= b < table@[a].1.len() implies (
                        #[trigger] table@[a].1[b]).1 <= bound + 1 by {
                            if a != i as int || b != k as int {
                                assert(table@[a].1[b] == t0[a].1[b]);
                            }
                        }
                        assert forall|a: int, b: int| 0 <= a < b < table@.len() implies table@[a].0
                            != table@[b].0 by {
                            assert(t0[a].0 != t0[b].0);
                        }
                        assert forall|a: int| 0 <= a < table@.len() implies dist_distinct(
                            (#[trigger] table@[a]).1,
                        ) by {
                            assert(dist_distinct(t0[a].1));
                            if a == i as int {
                                assert forall|x: int, y: int|
                                    0 <= x < y < table@[a].1.len() implies table@[a].1[x].0
                                    != table@[a].1[y].0 by {
                                    assert(t0[a].1[x].0 != t0[a].1[y].0);
                                }
                            }
                        }
                    }
                    return ;
                }
                k += 1;
            }
            proof {
                assert(!has_tok(d0, tok));
            }
            table.entries[i].dist.pairs.push((tok, 1u64));
            proof {
                assert(table@ =~~= table_bump(t0, ctx@, tok));
                assert forall|a: int, b: int|
                    0 <= a < table@.len() && 0 <= b < table@[a].1.len() implies (
                #[trigger] table@[a].1[b]).1 <= bound + 1 by {
                    if a != i as int || b != d0.len() {
                        assert(table@[a].1[b] == t0[a].1[b]);
                    }
                }
                assert forall|a: int, b: int| 0 <= a < b < table@.len() implies table@[a].0
                    != table@[b].0 by {
                    assert(t0[a].0 != t0[b].0);
                }
                assert forall|a: int| 0 <= a < table@.len() implies dist_distinct(
                    (#[trigger] table@[a]).1,
                ) by {
                    assert(dist_distinct(t0[a].1));
                    if a == i as int {
                        assert forall|x: int, y: int|
                            0 <= x < y < table@[a].1.len() implies table@[a].1[x].0
                            != table@[a].1[y].0 by {
                            if y < d0.len() {
                                assert(t0[a].1[x].0 != t0[a].1[y].0);
                            } else {
                                assert(!(exists|j: int| 0 <= j < d0.len() && d0[j].0 == tok));
                                assert(d0[x].0 != tok);
                            }
                        }
                    }
                }
            }
            return ;
        }
        i += 1;
    }
    proof {
        assert(!has_ctx(t0, ctx@));
    }
    let pairs: Vec<(u16, u64)> = vec![(tok, 1u64)];
    table.entries.push(TableEntry { context: ctx, dist: Dist { pairs } });
    proof {
        assert(table@ =~~= table_bump(t0, ctx@, tok));
        assert forall|a: int, b: int|
            0 <= a < table@.len() && 0 <= b < table@[a].1.len() implies (
        #[trigger] table@[a].1[b]).1 <= bound + 1 by {
            if a < t0.len() {
                assert(table@[a].1[b] == t0[a].1[b]);
            }
        }
        assert forall|a: int, b: int| 0 <= a < b < table@.len() implies table@[a].0 != table@[b].0
            by {
            if b < t0.len() {
                assert(t0[a].0 != t0[b].0);
            } else {
                assert(t0[a].0 != ctx@);
            }
        }
        assert forall|a: int| 0 <= a < table@.len() implies dist_distinct(
            (#[trigger] table@[a]).1,
        ) by {
            if a < t0.len() {
                assert(dist_distinct(t0[a].1));
            }
        }
    }
}

/// The byte codes of one word as an executable vector.
fn to_codes(w: &Vec<u8>) -> (r: Vec<u16>)
    ensures
        r@ == word_codes(w@),
{
    let mut r: Vec<u16> = Vec::new();
    let mut i: usize = 0;
    while i < w.len()
        invariant
            i <= w.len(),
            r@.len() == i,
            forall|j: int| 0 <= j < i ==> r@[j] == code_of_byte(w@[j]),
        decreases w.len() - i,
    {
        r.push(crate::model::byte_to_code(w[i]));
        i += 1;
    }
    proof {
        assert(r@ =~= word_codes(w@));
    }
    r
}

/// The context of position `i`, built as a fresh vector.
pub(crate) fn context_at(toks: &Vec<u16>, i: usize, order: usize, backoff: bool) -> (r: Vec<u16>)
    requires
        i <= toks.len(),
        1 <= order,
    ensures
        r@ == ctx_at(toks@, i as int, order as int, backoff),
{
    let mut r: Vec<u16> = Vec::new();
    if backoff {
        let k = if i < order {
            i
        } else {
            order
        };
        let mut j = i - k;
        while j < i
            invariant
                k <= i,
                i - k <= j <= i <= toks.len(),
                r@ =~= toks@.subrange(i - k, j as int),
            decreases i - j,
        {
            r.push(toks[j]);
            proof {
                assert(r@ =~= toks@.subrange(i - k, j + 1));
            }
            j += 1;
        }
        proof {
            assert(r@ =~= ctx_at(toks@, i as int, order as int, backoff));
        }
    } else {
        if i >= order {
            let mut j = i - order;
            while j < i
                invariant
                    order <= i,
                    i - order <= j <= i <= toks.len(),
                    r@ =~= toks@.subrange(i - order, j as int),
                decreases i - j,
            {
                r.push(toks[j]);
                proof {
                    assert(r@ =~= toks@.subrange(i - order, j + 1));
                }
                j += 1;
            }
            proof {
                assert(r@ =~= ctx_at(toks@, i as int, order as int, backoff));
            }
        } else {
            let pad = order - i;
            let mut j: usize = 0;
            while j < pad
                invariant
                    j <= pad,
                    r@ =~= Seq::new(j as nat, |_x: int| TOKEN_START),
                decreases pad - j,
            {
                r.push(TOKEN_START);
                proof {
                    assert(r@ =~= Seq::new((j + 1) as nat, |_x: int| TOKEN_START));
                }
                j += 1;
            }
            let mut j2: usize = 0;
            while j2 < i
                invariant
                    j2 <= i <= toks.len(),
                    pad == order - i,
                    r@ =~= Seq::new(pad as nat, |_x: int| TOKEN_START) + toks@.subrange(0, j2 as int),
                decreases i - j2,
            {
                r.push(toks[j2]);
                proof {
                    assert(r@ =~= Seq::new(pad as nat, |_x: int| TOKEN_START) + toks@.subrange(
                        0,
                        j2 + 1,
                    ));
                }
                j2 += 1;
            }
            proof {
                assert(r@ =~= ctx_at(toks@, i as int, order as int, backoff));
            }
        }
    }
    r
}

/// Shape facts preserved throughout training: context lengths, non-empty
/// distributions, successors drawn from the vocabulary (or the end
/// sentinel), and positive weights.
pub open spec fn table_shape(t: TableView, ctx_len: nat, vocab: Seq<u16>) -> bool {
    &&& forall|i: int| 0 <= i < t.len() ==> (#[trigger] t[i]).0.len() == ctx_len
    &&& forall|i: int| 0 <= i < t.len() ==> (#[trigger] t[i]).1.len() > 0
    &&& forall|i: int, j: int|
        0 <= i < t.len() && 0 <= j < t[i].1.len() ==> successor_ok(
            (#[trigger] t[i].1[j]).0,
            vocab,
        ) && t[i].1[j].1 >= 1
}

/// One observation keeps a table's shape.
pub proof fn lemma_bump_shape(
    t: TableView,
    ctx: Seq<u16>,
    tok: u16,
    ctx_len: nat,
    vocab: Seq<u16>,
    bnd: int,
)
    requires
        table_shape(t, ctx_len, vocab),
        table_distinct(t),
        table_weights_le(t, bnd),
        bnd + 1 <= u64::MAX,
        ctx.len() == ctx_len,
        successor_ok(tok, vocab),
    ensures
        table_shape(table_bump(t, ctx, tok), ctx_len, vocab),
{
    let r = table_bump(t, ctx, tok);
    if has_ctx(t, ctx) {
        let j = choose|j: int| 0 <= j < t.len() && t[j].0 == ctx;
        let d = t[j].1;
        assert(0 <= j < t.len());
        assert forall|a: int, c: int|
            0 <= a < t.len() && 0 <= c < t.len() && t[a].0 == ctx && t[c].0 == ctx implies a == c
            by {
            if a < c {
                assert(t[a].0 != t[c].0);
            } else if c < a {
                assert(t[c].0 != t[a].0);
            }
        }
        assert(r == t.update(j, (ctx, dist_bump(d, tok))));
        assert forall|i: int| 0 <= i < r.len() implies (#[trigger] r[i]).0.len() == ctx_len
            && r[i].1.len() > 0 by {
            if i != j {
                assert(r[i] == t[i]);
            }
        }
        assert forall|i: int, b: int|
            0 <= i < r.len() && 0 <= b < r[i].1.len() implies successor_ok(
            (#[trigger] r[i].1[b]).0,
            vocab,
        ) && r[i].1[b].1 >= 1 by {
            if i != j {
                assert(r[i] == t[i]);
                assert(successor_ok(t[i].1[b].0, vocab) && t[i].1[b].1 >= 1);
            } else {
                if has_tok(d, tok) {
                    let x = choose|x: int| 0 <= x < d.len() && d[x].0 == tok;
                    assert(dist_distinct(d));
                    assert forall|a: int, c: int|
                        0 <= a < d.len() && 0 <= c < d.len() && d[a].0 == tok && d[c].0 == tok
                        implies a == c by {
                        if a < c {
                            assert(d[a].0 != d[c].0);
                        } else if c < a {
                            assert(d[c].0 != d[a].0);
                        }
                    }
                    assert(r[i].1 == d.update(x, (tok, (d[x].1 + 1) as u64)));
                    if b != x {
                        assert(r[i].1[b] == d[b]);
                        assert(successor_ok(d[b].0, vocab) && d[b].1 >= 1);
                    } else {
                        assert(t[i].1[x].1 <= bnd);
                        assert(d[x].1 >= 1);
                        assert(r[i].1[b].1 == d[x].1 + 1);
                    }
                } else {
                    if b < d.len() {
                        assert(r[i].1[b] == d[b]);
                        assert(successor_ok(d[b].0, vocab) && d[b].1 >= 1);
                    }
                }
            }
        }
    } else {
        assert forall|i: int| 0 <= i < r.len() implies (#[trigger] r[i]).0.len() == ctx_len
            && r[i].1.len() > 0 by {
            if i < t.len() {
                assert(r[i] == t[i]);
            }
        }
        assert forall|i: int, b: int|
            0 <= i < r.len() && 0 <= b < r[i].1.len() implies successor_ok(
            (#[trigger] r[i].1[b]).0,
            vocab,
        ) && r[i].1[b].1 >= 1 by {
            if i < t.len() {
                assert(r[i] == t[i]);
                assert(successor_ok(t[i].1[b].0, vocab) && t[i].1[b].1 >= 1);
            }
        }
    }
}

/// The mathematical views of a vector of tables.
pub open spec fn views_of(ts: Seq<Table>) -> Seq<TableView> {
    Seq::new(ts.len(), |i: int| ts[i]@)
}

/// Context length of the table at index `k`.
pub open spec fn lvl_len(k: int, order: int, backoff: bool) -> nat {
    if backoff {
        k as nat
    } else {
        order as nat
    }
}

/// Invariants carried by the whole family of tables while they are filled:
/// distinct keys and tokens, weights at most `b`, and shape facts.
pub open spec fn tables_ok(
    ts: Seq<TableView>,
    order: int,
    backoff: bool,
    vocab: Seq<u16>,
    b: int,
) -> bool {
    &&& forall|k: int| 0 <= k < ts.len() ==> table_distinct(#[trigger] ts[k])
    &&& forall|k: int| 0 <= k < ts.len() ==> table_weights_le(#[trigger] ts[k], b)
    &&& forall|k: int|
        0 <= k < ts.len() ==> table_shape(#[trigger] ts[k], lvl_len(k, order, backoff), vocab)
}

/// One position of one word recorded into the right table.
pub open spec fn tables_bump_at(
    ts: Seq<TableView>,
    toks: Seq<u16>,
    i: int,
    order: int,
    backoff: bool,
) -> Seq<TableView> {
    let lvl = lvl_at(i, order, backoff);
    ts.update(lvl, table_bump(ts[lvl], ctx_at(toks, i, order, backoff), succ_at(toks, i)))
}

/// The first `n` positions of one word recorded.
pub open spec fn count_word_upto(
    ts: Seq<TableView>,
    toks: Seq<u16>,
    order: int,
    backoff: bool,
    n: int,
) -> Seq<TableView>
    decreases n,
{
    if n <= 0 {
        ts
    } else {
        tables_bump_at(count_word_upto(ts, toks, order, backoff, n - 1), toks, n - 1, order, backoff)
    }
}

/// All positions of one word (its bytes and the closing end sentinel).
pub open spec fn count_word_full(
    ts: Seq<TableView>,
    toks: Seq<u16>,
    order: int,
    backoff: bool,
) -> Seq<TableView> {
    count_word_upto(ts, toks, order, backoff, toks.len() as int + 1)
}

/// The first `n` words of the corpus recorded.
pub open spec fn count_words_upto(
    ts: Seq<TableView>,
    words: Seq<Seq<u8>>,
    order: int,
    backoff: bool,
    n: int,
) -> Seq<TableView>
    decreases n,
{
    if n <= 0 {
        ts
    } else {
        count_word_full(
            count_words_upto(ts, words, order, backoff, n - 1),
            word_codes(words[n - 1]),
            order,
            backoff,
        )
    }
}

/// Number of observation positions the corpus contributes: each word's
/// bytes plus its end sentinel.
pub open spec fn corpus_positions(words: Seq<Seq<u8>>, n: int) -> int
    decreases n,
{
    if n <= 0 {
        0
    } else {
        corpus_positions(words, n - 1) + words[n - 1].len() + 1
    }
}

/// Positions only accumulate.
pub proof fn lemma_positions_monotone(words: Seq<Seq<u8>>, n1: int, n2: int)
    requires
        0 <= n1 <= n2,
    ensures
        corpus_positions(words, n1) <= corpus_positions(words, n2),
    decreases n2,
{
    if n1 < n2 {
        lemma_positions_monotone(words, n1, n2 - 1);
    }
}

/// All of `toks` lies in `vocab`.
pub open spec fn codes_in(toks: Seq<u16>, vocab: Seq<u16>) -> bool {
    forall|i: int| 0 <= i < toks.len() ==> vocab.contains(#[trigger] toks[i])
}

/// Record every position of one word into the tables.
fn count_word_into(
    tables: &mut Vec<Table>,
    toks: &Vec<u16>,
    order: usize,
    backoff: bool,
    Ghost(vocab): Ghost<Seq<u16>>,
    Ghost(b): Ghost<int>,
)
    requires
        1 <= order,
        if backoff {
            old(tables)@.len() == order + 1
        } else {
            old(tables)@.len() == 1
        },
        tables_ok(views_of(old(tables)@), order as int, backoff, vocab, b),
        codes_in(toks@, vocab),
        0 <= b,
        b + toks@.len() + 1 <= MAX_COUNT,
    ensures
        final(tables)@.len() == old(tables)@.len(),
        views_of(final(tables)@) == count_word_full(
            views_of(old(tables)@),
            toks@,
            order as int,
            backoff,
        ),
        tables_ok(views_of(final(tables)@), order as int, backoff, vocab, b + toks@.len() + 1),
{
    let ghost ts0 = views_of(old(tables)@);
    let mut i: usize = 0;
    while i < toks.len()
        invariant
            i <= toks.len(),
            1 <= order,
            if backoff {
                tables@.len() == order + 1
            } else {
                tables@.len() == 1
            },
            ts0 == views_of(old(tables)@),
            ts0.len() == tables@.len(),
            views_of(tables@) == count_word_upto(ts0, toks@, order as int, backoff, i as int),
            tables_ok(views_of(tables@), order as int, backoff, vocab, b + i),
            codes_in(toks@, vocab),
            0 <= b,
            b + toks@.len() + 1 <= MAX_COUNT,
        decreases toks.len() - i,
    {
        let ghost pre = views_of(tables@);
        let ctx = context_at(toks, i, order, backoff);
        let tok = toks[i];
        let lvl = if backoff {
            if i < order {
                i
            } else {
                order
            }
        } else {
            0
        };
        proof {
            assert(lvl as int == lvl_at(i as int, order as int, backoff));
            assert(table_distinct(pre[lvl as int]));
            assert(table_weights_le(pre[lvl as int], b + i));
            assert(vocab.contains(toks@[i as int]));
            assert(successor_ok(tok, vocab));
            assert(ctx@.len() == lvl_len(lvl as int, order as int, backoff));
        }
        bump(&mut tables[lvl], ctx, tok, Ghost(b + i));
        proof {
            assert(views_of(tables@) =~= tables_bump_at(pre, toks@, i as int, order as int, backoff));
            lemma_bump_shape(
                pre[lvl as int],
                ctx_at(toks@, i as int, order as int, backoff),
                succ_at(toks@, i as int),
                lvl_len(lvl as int, order as int, backoff),
                vocab,
                b + i,
            );
            assert forall|k: int| 0 <= k < views_of(tables@).len() implies table_distinct(
                #[trigger] views_of(tables@)[k],
            ) && table_weights_le(views_of(tables@)[k], b + i + 1) && table_shape(
                views_of(tables@)[k],
                lvl_len(k, order as int, backoff),
                vocab,
            ) by {
                if k != lvl as int {
                    assert(views_of(tables@)[k] == pre[k]);
                    assert(table_distinct(pre[k]));
                    assert(table_weights_le(pre[k], b + i));
                    assert(table_shape(pre[k], lvl_len(k, order as int, backoff), vocab));
                    assert forall|x: int, y: int|
                        0 <= x < pre[k].len() && 0 <= y < pre[k][x].1.len() implies (
                    #[trigger] pre[k][x].1[y]).1 <= b + i + 1 by {
                        assert(pre[k][x].1[y].1 <= b + i);
                    }
                }
            }
        }
        i += 1;
    }
    let ctx = context_at(toks, toks.len(), order, backoff);
    let lvl = if backoff {
        if toks.len() < order {
            toks.len()
        } else {
            order
        }
    } else {
        0
    };
    let ghost pre = views_of(tables@);
    proof {
        assert(lvl as int == lvl_at(toks@.len() as int, order as int, backoff));
        assert(table_distinct(pre[lvl as int]));
        assert(table_weights_le(pre[lvl as int], b + toks@.len()));
        assert(succ_at(toks@, toks@.len() as int) == TOKEN_END);
        assert(successor_ok(TOKEN_END, vocab));
        assert(ctx@.len() == lvl_len(lvl as int, order as int, backoff));
    }
    bump(&mut tables[lvl], ctx, TOKEN_END, Ghost(b + toks.len() as int));
    proof {
        assert(views_of(tables@) =~= tables_bump_at(
            pre,
            toks@,
            toks@.len() as int,
            order as int,
            backoff,
        ));
        lemma_bump_shape(
            pre[lvl as int],
            ctx_at(toks@, toks@.len() as int, order as int, backoff),
            succ_at(toks@, toks@.len() as int),
            lvl_len(lvl as int, order as int, backoff),
            vocab,
            b + toks@.len(),
        );
        assert forall|k: int| 0 <= k < views_of(tables@).len() implies table_distinct(
            #[trigger] views_of(tables@)[k],
        ) && table_weights_le(views_of(tables@)[k], b + toks@.len() + 1) && table_shape(
            views_of(tables@)[k],
            lvl_len(k, order as int, backoff),
            vocab,
        ) by {
            if k != lvl as int {
                assert(views_of(tables@)[k] == pre[k]);
                assert(table_distinct(pre[k]));
                assert(table_weights_le(pre[k], b + toks@.len()));
                assert(table_shape(pre[k], lvl_len(k, order as int, backoff), vocab));
                assert forall|x: int, y: int|
                    0 <= x < pre[k].len() && 0 <= y < pre[k][x].1.len() implies (
                #[trigger] pre[k][x].1[y]).1 <= b + toks@.len() + 1 by {
                    assert(pre[k][x].1[y].1 <= b + toks@.len());
                }
            }
        }
    }
}

/// The vocabulary after scanning the first `n` codes of one word, starting
/// from `v`: unseen codes are appended in order of first occurrence.
pub open spec fn vocab_add_codes(v: Seq<u16>, toks: Seq<u16>, n: int) -> Seq<u16>
    decreases n,
{
    if n <= 0 {
        v
    } else {
        let prev = vocab_add_codes(v, toks, n - 1);
        if prev.contains(toks[n - 1]) {
            prev
        } else {
            prev.push(toks[n - 1])
        }
    }
}

/// The vocabulary after scanning the first `n` words.
pub open spec fn vocab_upto(words: Seq<Seq<u8>>, n: int) -> Seq<u16>
    decreases n,
{
    if n <= 0 {
        seq![]
    } else {
        vocab_add_codes(vocab_upto(words, n - 1), word_codes(words[n - 1]), words[n - 1].len() as int)
    }
}

/// The full vocabulary of the corpus: every distinct byte code, in order of
/// first occurrence.
pub open spec fn vocab_spec(words: Seq<Seq<u8>>) -> Seq<u16> {
    vocab_upto(words, words.len() as int)
}

/// Distinct tokens in the byte-code range.
pub open spec fn vocab_good(v: Seq<u16>) -> bool {
    &&& forall|i: int| 0 <= i < v.len() ==> 2 <= #[trigger] v[i] <= TOKEN_MAX
    &&& forall|i: int, j: int| 0 <= i < j < v.len() ==> v[i] != v[j]
}

/// Scanning codes keeps the vocabulary well formed, only grows it, and
/// makes it cover the scanned codes.
pub proof fn lemma_vocab_add_props(v: Seq<u16>, toks: Seq<u16>, n: int)
    requires
        vocab_good(v),
        0 <= n <= toks.len(),
        forall|i: int| 0 <= i < toks.len() ==> 2 <= #[trigger] toks[i] <= TOKEN_MAX,
    ensures
        vocab_good(vocab_add_codes(v, toks, n)),
        forall|t: u16| v.contains(t) ==> vocab_add_codes(v, toks, n).contains(t),
        forall|i: int| 0 <= i < n ==> vocab_add_codes(v, toks, n).contains(#[trigger] toks[i]),
    decreases n,
{
    if n > 0 {
        lemma_vocab_add_props(v, toks, n - 1);
        let prev = vocab_add_codes(v, toks, n - 1);
        let r = vocab_add_codes(v, toks, n);
        if prev.contains(toks[n - 1]) {
            assert(r == prev);
        } else {
            assert(r == prev.push(toks[n - 1]));
            assert forall|t: u16| prev.contains(t) implies r.contains(t) by {
                let i = choose|i: int| 0 <= i < prev.len() && prev[i] == t;
                assert(r[i] == t);
            }
            assert(r[r.len() - 1] == toks[n - 1]);
            assert forall|i: int, j: int| 0 <= i < j < r.len() implies r[i] != r[j] by {
                if j < prev.len() {
                    assert(prev[i] != prev[j]);
                } else {
                    assert(r[i] == prev[i]);
                    if r[i] == toks[n - 1] {
                        assert(prev.contains(toks[n - 1]));
                    }
                }
            }
        }
        assert forall|i: int| 0 <= i < n implies r.contains(#[trigger] toks[i]) by {
            if i < n - 1 {
                assert(prev.contains(toks[i]));
            } else {
                if prev.contains(toks[n - 1]) {
                    assert(r.contains(toks[n - 1]));
                } else {
                    assert(r[r.len() - 1] == toks[n - 1]);
                }
            }
        }
    }
}

/// The vocabulary of a corpus prefix is well formed and covers every code
/// of the scanned words.
pub proof fn lemma_vocab_upto_props(words: Seq<Seq<u8>>, n: int)
    requires
        0 <= n <= words.len(),
    ensures
        vocab_good(vocab_upto(words, n)),
        forall|w: int|
            0 <= w < n ==> codes_in(word_codes(#[trigger] words[w]), vocab_upto(words, n)),
    decreases n,
{
    if n > 0 {
        lemma_vocab_upto_props(words, n - 1);
        let prev = vocab_upto(words, n - 1);
        let toks = word_codes(words[n - 1]);
        assert(forall|i: int| 0 <= i < toks.len() ==> 2 <= #[trigger] toks[i] <= TOKEN_MAX);
        lemma_vocab_add_props(prev, toks, toks.len() as int);
        let r = vocab_upto(words, n);
        assert forall|w: int|
            0 <= w < n implies codes_in(word_codes(#[trigger] words[w]), r) by {
            if w < n - 1 {
                assert(codes_in(word_codes(words[w]), prev));
                assert forall|i: int|
                    0 <= i < word_codes(words[w]).len() implies r.contains(
                    #[trigger] word_codes(words[w])[i],
                ) by {
                    assert(prev.contains(word_codes(words[w])[i]));
                }
            }
        }
    }
}

/// Linear membership scan.
pub(crate) fn contains_code(v: &Vec<u16>, t: u16) -> (r: bool)
    ensures
        r == v@.contains(t),
{
    let mut i: usize = 0;
    while i < v.len()
        invariant
            i <= v.len(),
            forall|j: int| 0 <= j < i ==> v@[j] != t,
        decreases v.len() - i,
    {
        if v[i] == t {
            return true;
        }
        i += 1;
    }
    proof {
        assert(!v@.contains(t));
    }
    false
}

/// Collect the vocabulary of the corpus in first-occurrence order.
fn build_vocab(words: &Vec<Vec<u8>>) -> (r: Vec<u16>)
    ensures
        r@ == vocab_spec(words.deep_view()),
{
    let ghost dw = words.deep_view();
    let mut vocab: Vec<u16> = Vec::new();
    let mut w: usize = 0;
    while w < words.len()
        invariant
            w <= words.len(),
            dw == words.deep_view(),
            dw.len() == words@.len(),
            vocab@ == vocab_upto(dw, w as int),
        decreases words.len() - w,
    {
        let ghost toks = word_codes(dw[w as int]);
        proof {
            assert(dw[w as int] =~= words@[w as int]@);
        }
        let mut i: usize = 0;
        while i < words[w].len()
            invariant
                w < words.len(),
                i <= words@[w as int]@.len(),
                dw == words.deep_view(),
                dw.len() == words@.len(),
                toks == word_codes(dw[w as int]),
                dw[w as int] == words@[w as int]@,
                toks.len() == words@[w as int]@.len(),
                vocab@ == vocab_add_codes(vocab_upto(dw, w as int), toks, i as int),
            decreases words@[w as int]@.len() - i,
        {
            let code = crate::model::byte_to_code(words[w][i]);
            proof {
                assert(toks[i as int] == code);
            }
            if !contains_code(&vocab, code) {
                vocab.push(code);
            }
            i += 1;
        }
        proof {
            assert(vocab@ == vocab_upto(dw, w as int + 1));
        }
        w += 1;
    }
    proof {
        assert(w as int == dw.len());
    }
    vocab
}

/// Tokens eligible for smoothing: the end sentinel and every vocabulary
/// token, so that no successor is ever unreachable.
pub open spec fn smooth_domain(vocab: Seq<u16>) -> Seq<u16> {
    seq![TOKEN_END] + vocab
}

/// Add weight `p` to one token of a distribution, appending it if absent.
pub open spec fn dist_add(d: Seq<(u16, u64)>, tok: u16, p: u64) -> Seq<(u16, u64)> {
    if has_tok(d, tok) {
        let j = choose|j: int| 0 <= j < d.len() && d[j].0 == tok;
        d.update(j, (tok, (d[j].1 + p) as u64))
    } else {
        d.push((tok, p))
    }
}

/// The prior added for the first `n` domain tokens.
pub open spec fn smooth_dist_upto(d: Seq<(u16, u64)>, dom: Seq<u16>, p: u64, n: int) -> Seq<
    (u16, u64),
>
    decreases n,
{
    if n <= 0 {
        d
    } else {
        dist_add(smooth_dist_upto(d, dom, p, n - 1), dom[n - 1], p)
    }
}

/// The prior added for the whole domain.
pub open spec fn smooth_dist_full(d: Seq<(u16, u64)>, dom: Seq<u16>, p: u64) -> Seq<(u16, u64)> {
    smooth_dist_upto(d, dom, p, dom.len() as int)
}

/// A table after smoothing: contexts untouched, every distribution smoothed.
pub open spec fn smooth_table(t: TableView, dom: Seq<u16>, p: u64) -> TableView {
    Seq::new(t.len(), |i: int| (t[i].0, smooth_dist_full(t[i].1, dom, p)))
}

/// The whole family of tables after smoothing.
pub open spec fn smooth_tables(ts: Seq<TableView>, dom: Seq<u16>, p: u64) -> Seq<TableView> {
    Seq::new(ts.len(), |k: int| smooth_table(ts[k], dom, p))
}

/// Add weight `p` to one token of a distribution, in place.
fn dist_add_exec(d: &mut Dist, tok: u16, p: u64, Ghost(cb): Ghost<int>)
    requires
        dist_distinct(old(d)@),
        forall|i: int|
            0 <= i < old(d)@.len() && (#[trigger] old(d)@[i]).0 == tok ==> old(d)@[i].1 <= cb,
        0 <= cb,
        1 <= p,
        cb + p <= u64::MAX,
    ensures
        final(d)@ == dist_add(old(d)@, tok, p),
{
    let ghost d0 = d@;
    let mut k: usize = 0;
    while k < d.pairs.len()
        invariant
            k <= d.pairs.len(),
            d@ == d0,
            d0 == old(d)@,
            dist_distinct(d0),
            forall|i: int| 0 <= i < d0.len() && (#[trigger] d0[i]).0 == tok ==> d0[i].1 <= cb,
            0 <= cb,
            1 <= p,
            cb + p <= u64::MAX,
            forall|x: int| 0 <= x < k ==> (#[trigger] d0[x]).0 != tok,
        decreases d.pairs.len() - k,
    {
        if d.pairs[k].0 == tok {
            proof {
                assert(d0[k as int].0 == tok);
                assert(has_tok(d0, tok));
                let j0 = choose|x: int| 0 <= x < d0.len() && d0[x].0 == tok;
                if j0 < k as int {
                    assert(d0[j0].0 != d0[k as int].0);
                } else if j0 > k as int {
                    assert(d0[k as int].0 != d0[j0].0);
                }
                assert(j0 == k);
                assert(d0[k as int].1 <= cb);
            }
            let w = d.pairs[k].1;
            d.pairs[k] = (tok, w + p);
            proof {
                assert(d@ =~= dist_add(d0, tok, p));
            }
            return ;
        }
        k += 1;
    }
    proof {
        assert(!has_tok(d0, tok));
    }
    d.pairs.push((tok, p));
    proof {
        assert(d@ =~= dist_add(d0, tok, p));
    }
}

/// Add the prior for every domain token to one distribution, in place.
fn smooth_dist(d: &mut Dist, dom: &Vec<u16>, p: u64, Ghost(c): Ghost<int>)
    requires
        dist_distinct(old(d)@),
        forall|i: int| 0 <= i < old(d)@.len() ==> 1 <= (#[trigger] old(d)@[i]).1 <= c,
        forall|a: int, b: int| 0 <= a < b < dom@.len() ==> dom@[a] != dom@[b],
        0 <= c,
        1 <= p,
        c + p <= u64::MAX,
    ensures
        final(d)@ == smooth_dist_full(old(d)@, dom@, p),
        dist_distinct(final(d)@),
        final(d)@.len() >= old(d)@.len(),
        forall|i: int| 0 <= i < final(d)@.len() ==> 1 <= (#[trigger] final(d)@[i]).1 <= c + p,
        forall|i: int|
            0 <= i < final(d)@.len() ==> has_tok(old(d)@, (#[trigger] final(d)@[i]).0)
                || dom@.contains(final(d)@[i].0),
{
    let ghost d0 = d@;
    let mut j: usize = 0;
    while j < dom.len()
        invariant
            j <= dom.len(),
            d0 == old(d)@,
            dist_distinct(d0),
            forall|i: int| 0 <= i < d0.len() ==> 1 <= (#[trigger] d0[i]).1 <= c,
            forall|a: int, b: int| 0 <= a < b < dom@.len() ==> dom@[a] != dom@[b],
            0 <= c,
            1 <= p,
            c + p <= u64::MAX,
            d@ == smooth_dist_upto(d0, dom@, p, j as int),
            dist_distinct(d@),
            d@.len() >= d0.len(),
            forall|i: int| 0 <= i < d@.len() ==> 1 <= (#[trigger] d@[i]).1 <= c + p,
            forall|i: int|
                0 <= i < d@.len() && !dom@.subrange(0, j as int).contains((#[trigger] d@[i]).0)
                    ==> d@[i].1 <= c,
            forall|i: int|
                0 <= i < d@.len() ==> has_tok(d0, (#[trigger] d@[i]).0) || dom@.contains(d@[i].0),
        decreases dom.len() - j,
    {
        let ghost dpre = d@;
        let tok = dom[j];
        proof {
            assert(!dom@.subrange(0, j as int).contains(tok)) by {
                if dom@.subrange(0, j as int).contains(tok) {
                    let a = choose|a: int|
                        0 <= a < j as int && dom@.subrange(0, j as int)[a] == tok;
                    assert(dom@[a] == tok);
                    assert(dom@[a] != dom@[j as int]);
                }
            }
            assert forall|i: int|
                0 <= i < dpre.len() && (#[trigger] dpre[i]).0 == tok implies dpre[i].1 <= c by {
                assert(!dom@.subrange(0, j as int).contains(dpre[i].0));
            }
        }
        dist_add_exec(d, tok, p, Ghost(c));
        proof {
            let dnew = d@;
            assert(dnew == smooth_dist_upto(d0, dom@, p, j as int + 1));
            assert forall|t2: u16|
                dom@.subrange(0, j as int).contains(t2) || t2 == tok implies dom@.subrange(
                0,
                j as int + 1,
            ).contains(t2) by {
                if t2 == tok {
                    assert(dom@.subrange(0, j as int + 1)[j as int] == tok);
                } else {
                    let a = choose|a: int| 0 <= a < j as int && dom@.subrange(0, j as int)[a] == t2;
                    assert(dom@.subrange(0, j as int + 1)[a] == t2);
                }
            }
            assert forall|t2: u16|
                dom@.subrange(0, j as int + 1).contains(t2) implies dom@.subrange(
                0,
                j as int,
            ).contains(t2) || t2 == tok by {
                let a = choose|a: int|
                    0 <= a < j as int + 1 && #[trigger] dom@.subrange(0, j as int + 1)[a] == t2;
                if a < j as int {
                    assert(dom@.subrange(0, j as int)[a] == t2);
                }
            }
            if has_tok(dpre, tok) {
                let j0 = choose|x: int| 0 <= x < dpre.len() && dpre[x].0 == tok;
                assert(dnew == dpre.update(j0, (tok, (dpre[j0].1 + p) as u64)));
                assert(dpre[j0].1 <= c);
                assert forall|a: int, b: int| 0 <= a < b < dnew.len() implies dnew[a].0
                    != dnew[b].0 by {
                    assert(dnew[a].0 == dpre[a].0 && dnew[b].0 == dpre[b].0);
                    assert(dpre[a].0 != dpre[b].0);
                }
                assert forall|i: int|
                    0 <= i < dnew.len() implies 1 <= (#[trigger] dnew[i]).1 <= c + p by {
                    if i != j0 {
                        assert(dnew[i] == dpre[i]);
                    }
                }
                assert forall|i: int|
                    0 <= i < dnew.len() && !dom@.subrange(0, j as int + 1).contains(
                        (#[trigger] dnew[i]).0,
                    ) implies dnew[i].1 <= c by {
                    assert(dnew[i].0 != tok);
                    assert(i != j0);
                    assert(dnew[i] == dpre[i]);
                    assert(!dom@.subrange(0, j as int).contains(dpre[i].0));
                }
                assert forall|i: int|
                    0 <= i < dnew.len() implies has_tok(d0, (#[trigger] dnew[i]).0)
                        || dom@.contains(dnew[i].0) by {
                    if i != j0 {
                        assert(dnew[i] == dpre[i]);
                    } else {
                        assert(dnew[i].0 == tok);
                        assert(dom@[j as int] == tok);
                    }
                }
            } else {
                assert(dnew == dpre.push((tok, p)));
                assert forall|a: int, b: int| 0 <= a < b < dnew.len() implies dnew[a].0
                    != dnew[b].0 by {
                    if b < dpre.len() {
                        assert(dpre[a].0 != dpre[b].0);
                    } else {
                        assert(dnew[b].0 == tok);
                        assert(dnew[a] == dpre[a]);
                        if dpre[a].0 == tok {
                            assert(has_tok(dpre, tok));
                        }
                    }
                }
                assert forall|i: int|
                    0 <= i < dnew.len() implies 1 <= (#[trigger] dnew[i]).1 <= c + p by {
                    if i < dpre.len() {
                        assert(dnew[i] == dpre[i]);
                    }
                }
                assert forall|i: int|
                    0 <= i < dnew.len() && !dom@.subrange(0, j as int + 1).contains(
                        (#[trigger] dnew[i]).0,
                    ) implies dnew[i].1 <= c by {
                    assert(dnew[i].0 != tok);
                    assert(i < dpre.len());
                    assert(dnew[i] == dpre[i]);
                    assert(!dom@.subrange(0, j as int).contains(dpre[i].0));
                }
                assert forall|i: int|
                    0 <= i < dnew.len() implies has_tok(d0, (#[trigger] dnew[i]).0)
                        || dom@.contains(dnew[i].0) by {
                    if i < dpre.len() {
                        assert(dnew[i] == dpre[i]);
                    } else {
                        assert(dnew[i].0 == tok);
                        assert(dom@[j as int] == tok);
                    }
                }
            }
        }
        j += 1;
    }
    proof {
        assert(d@ == smooth_dist_full(d0, dom@, p));
    }
}

/// Smooth every distribution of one table, in place.
fn smooth_table_exec(
    table: &mut Table,
    dom: &Vec<u16>,
    p: u64,
    Ghost(c): Ghost<int>,
    Ghost(ctx_len): Ghost<nat>,
    Ghost(vocab): Ghost<Seq<u16>>,
)
    requires
        table_distinct(old(table)@),
        table_weights_le(old(table)@, c),
        table_shape(old(table)@, ctx_len, vocab),
        forall|a: int, b: int| 0 <= a < b < dom@.len() ==> dom@[a] != dom@[b],
        forall|i: int| 0 <= i < dom@.len() ==> successor_ok(#[trigger] dom@[i], vocab),
        0 <= c,
        1 <= p,
        c + p <= u64::MAX,
    ensures
        final(table)@ == smooth_table(old(table)@, dom@, p),
        table_distinct(final(table)@),
        table_weights_le(final(table)@, c + p),
        table_shape(final(table)@, ctx_len, vocab),
{
    let ghost t0 = table@;
    let mut e: usize = 0;
    while e < table.entries.len()
        invariant
            e <= table.entries.len(),
            t0 == old(table)@,
            table@.len() == t0.len(),
            table_distinct(t0),
            table_weights_le(t0, c),
            table_shape(t0, ctx_len, vocab),
            forall|a: int, b: int| 0 <= a < b < dom@.len() ==> dom@[a] != dom@[b],
            forall|i: int| 0 <= i < dom@.len() ==> successor_ok(#[trigger] dom@[i], vocab),
            0 <= c,
            1 <= p,
            c + p <= u64::MAX,
            forall|x: int|
                0 <= x < e ==> #[trigger] table@[x] == (t0[x].0, smooth_dist_full(
                    t0[x].1,
                    dom@,
                    p,
                )),
            forall|x: int| e <= x < t0.len() ==> #[trigger] table@[x] == t0[x],
            table_distinct(table@),
            table_weights_le(table@, c + p),
            table_shape(table@, ctx_len, vocab),
        decreases table.entries.len() - e,
    {
        let ghost pre = table@;
        proof {
            assert(pre[e as int] == t0[e as int]);
            assert(dist_distinct(t0[e as int].1));
            assert forall|i: int|
                0 <= i < t0[e as int].1.len() implies 1 <= (#[trigger] t0[e as int].1[i]).1 <= c
                by {
                assert(t0[e as int].1[i].1 <= c);
                assert(successor_ok(t0[e as int].1[i].0, vocab) && t0[e as int].1[i].1 >= 1);
            }
        }
        smooth_dist(&mut table.entries[e].dist, dom, p, Ghost(c));
        proof {
            let cur = table@;
            assert(cur[e as int].0 == t0[e as int].0);
            assert(cur[e as int].1 == smooth_dist_full(t0[e as int].1, dom@, p));
            assert forall|x: int| 0 <= x < e as int + 1 implies #[trigger] cur[x] == (
                t0[x].0,
                smooth_dist_full(t0[x].1, dom@, p),
            ) by {
                if x < e as int {
                    assert(cur[x] == pre[x]);
                }
            }
            assert forall|x: int| e as int + 1 <= x < t0.len() implies #[trigger] cur[x] == t0[x]
                by {
                assert(cur[x] == pre[x]);
            }
            assert forall|a: int, b: int| 0 <= a < b < cur.len() implies cur[a].0 != cur[b].0 by {
                assert(cur[a].0 == t0[a].0 && cur[b].0 == t0[b].0);
                assert(t0[a].0 != t0[b].0);
            }
            assert forall|a: int| 0 <= a < cur.len() implies dist_distinct((#[trigger] cur[a]).1)
                by {
                if a != e as int {
                    assert(cur[a] == pre[a]);
                    assert(dist_distinct(pre[a].1));
                }
            }
            assert forall|a: int, b: int|
                0 <= a < cur.len() && 0 <= b < cur[a].1.len() implies (
            #[trigger] cur[a].1[b]).1 <= c + p by {
                if a != e as int {
                    assert(cur[a] == pre[a]);
                    assert(pre[a].1[b].1 <= c + p);
                }
            }
            assert forall|a: int| 0 <= a < cur.len() implies (#[trigger] cur[a]).0.len() == ctx_len
                && cur[a].1.len() > 0 by {
                assert(cur[a].0 == t0[a].0);
                assert(t0[a].0.len() == ctx_len);
                if a != e as int {
                    assert(cur[a] == pre[a]);
                    assert(pre[a].1.len() > 0);
                } else {
                    assert(cur[a].1.len() >= t0[a].1.len());
                    assert(t0[a].1.len() > 0);
                }
            }
            assert forall|a: int, b: int|
                0 <= a < cur.len() && 0 <= b < cur[a].1.len() implies successor_ok(
                (#[trigger] cur[a].1[b]).0,
                vocab,
            ) && cur[a].1[b].1 >= 1 by {
                if a != e as int {
                    assert(cur[a] == pre[a]);
                    assert(successor_ok(pre[a].1[b].0, vocab) && pre[a].1[b].1 >= 1);
                } else {
                    assert(has_tok(t0[a].1, cur[a].1[b].0) || dom@.contains(cur[a].1[b].0));
                    if has_tok(t0[a].1, cur[a].1[b].0) {
                        let w = choose|w: int|
                            0 <= w < t0[a].1.len() && t0[a].1[w].0 == cur[a].1[b].0;
                        assert(successor_ok(t0[a].1[w].0, vocab));
                    } else {
                        let w = choose|w: int| 0 <= w < dom@.len() && dom@[w] == cur[a].1[b].0;
                        assert(successor_ok(dom@[w], vocab));
                    }
                }
            }
        }
        e += 1;
    }
    proof {
        assert(table@ =~= smooth_table(t0, dom@, p));
    }
}

/// Smooth every table of the family, in place.
fn smooth_all(
    tables: &mut Vec<Table>,
    dom: &Vec<u16>,
    p: u64,
    Ghost(c): Ghost<int>,
    Ghost(order): Ghost<int>,
    Ghost(backoff): Ghost<bool>,
    Ghost(vocab): Ghost<Seq<u16>>,
)
    requires
        tables_ok(views_of(old(tables)@), order, backoff, vocab, c),
        forall|a: int, b: int| 0 <= a < b < dom@.len() ==> dom@[a] != dom@[b],
        forall|i: int| 0 <= i < dom@.len() ==> successor_ok(#[trigger] dom@[i], vocab),
        0 <= c,
        1 <= p,
        c + p <= u64::MAX,
    ensures
        final(tables)@.len() == old(tables)@.len(),
        views_of(final(tables)@) == smooth_tables(views_of(old(tables)@), dom@, p),
        tables_ok(views_of(final(tables)@), order, backoff, vocab, c + p),
{
    let ghost ts0 = views_of(old(tables)@);
    let mut k: usize = 0;
    while k < tables.len()
        invariant
            k <= tables.len(),
            ts0 == views_of(old(tables)@),
            tables@.len() == ts0.len(),
            tables_ok(ts0, order, backoff, vocab, c),
            forall|a: int, b: int| 0 <= a < b < dom@.len() ==> dom@[a] != dom@[b],
            forall|i: int| 0 <= i < dom@.len() ==> successor_ok(#[trigger] dom@[i], vocab),
            0 <= c,
            1 <= p,
            c + p <= u64::MAX,
            forall|x: int|
                0 <= x < k ==> #[trigger] views_of(tables@)[x] == smooth_table(ts0[x], dom@, p),
            forall|x: int| k <= x < ts0.len() ==> #[trigger] views_of(tables@)[x] == ts0[x],
            tables_ok(views_of(tables@), order, backoff, vocab, c + p),
        decreases tables.len() - k,
    {
        let ghost pre = views_of(tables@);
        proof {
            assert(pre[k as int] == ts0[k as int]);
            assert(table_distinct(ts0[k as int]));
            assert(table_weights_le(ts0[k as int], c));
            assert(table_shape(ts0[k as int], lvl_len(k as int, order, backoff), vocab));
        }
        smooth_table_exec(
            &mut tables[k],
            dom,
            p,
            Ghost(c),
            Ghost(lvl_len(k as int, order, backoff)),
            Ghost(vocab),
        );
        proof {
            let cur = views_of(tables@);
            assert(cur[k as int] == smooth_table(ts0[k as int], dom@, p));
            assert forall|x: int| 0 <= x < k as int + 1 implies #[trigger] cur[x] == smooth_table(
                ts0[x],
                dom@,
                p,
            ) by {
                if x < k as int {
                    assert(cur[x] == pre[x]);
                }
            }
            assert forall|x: int| k as int + 1 <= x < ts0.len() implies #[trigger] cur[x] == ts0[x]
                by {
                assert(cur[x] == pre[x]);
            }
            assert forall|x: int| 0 <= x < cur.len() implies table_distinct(#[trigger] cur[x])
                && table_weights_le(cur[x], c + p) && table_shape(
                cur[x],
                lvl_len(x, order, backoff),
                vocab,
            ) by {
                if x != k as int {
                    assert(cur[x] == pre[x]);
                    assert(table_distinct(pre[x]));
                    assert(table_weights_le(pre[x], c + p));
                    assert(table_shape(pre[x], lvl_len(x, order, backoff), vocab));
                }
            }
        }
        k += 1;
    }
    proof {
        assert(views_of(tables@) =~= smooth_tables(ts0, dom@, p));
    }
}

/// A sequence of distinct integers drawn from `[lo, hi)` cannot be longer
/// than the range.
proof fn lemma_distinct_bounded(s: Seq<int>, lo: int, hi: int)
    requires
        s.no_duplicates(),
        forall|i: int| 0 <= i < s.len() ==> lo <= #[trigger] s[i] < hi,
        lo <= hi,
    ensures
        s.len() <= hi - lo,
{
    s.unique_seq_to_set();
    let rng = vstd::set_lib::set_int_range(lo, hi);
    vstd::set_lib::lemma_int_range(lo, hi);
    assert forall|x: int| s.to_set().contains(x) implies rng.contains(x) by {
        assert(s.contains(x));
        let i = choose|i: int| 0 <= i < s.len() && s[i] == x;
        assert(lo <= s[i] < hi);
    }
    vstd::set_lib::lemma_len_subset(s.to_set(), rng);
}

/// A distribution with distinct tokens over a vocabulary has at most one
/// pair per possible token.
pub proof fn lemma_dist_len_bound(d: Seq<(u16, u64)>, vocab: Seq<u16>)
    requires
        dist_distinct(d),
        forall|i: int| 0 <= i < d.len() ==> successor_ok((#[trigger] d[i]).0, vocab),
        vocab_good(vocab),
    ensures
        d.len() <= 257,
{
    let s = Seq::new(d.len(), |i: int| d[i].0 as int);
    assert forall|i: int, j: int| 0 <= i < s.len() && 0 <= j < s.len() && i != j implies s[i]
        != s[j] by {
        if i < j {
            assert(d[i].0 != d[j].0);
        } else {
            assert(d[j].0 != d[i].0);
        }
    }
    assert(s.no_duplicates());
    assert forall|i: int| 0 <= i < s.len() implies 1 <= #[trigger] s[i] < 258 by {
        assert(successor_ok(d[i].0, vocab));
        if d[i].0 != TOKEN_END {
            assert(vocab.contains(d[i].0));
            let w = choose|w: int| 0 <= w < vocab.len() && vocab[w] == d[i].0;
            assert(2 <= vocab[w] <= TOKEN_MAX);
        }
    }
    lemma_distinct_bounded(s, 1, 258);
}

/// A well-formed vocabulary has at most one entry per byte.
pub proof fn lemma_vocab_len_bound(v: Seq<u16>)
    requires
        vocab_good(v),
    ensures
        v.len() <= 256,
{
    let s = Seq::new(v.len(), |i: int| v[i] as int);
    assert forall|i: int, j: int| 0 <= i < s.len() && 0 <= j < s.len() && i != j implies s[i]
        != s[j] by {
        if i < j {
            assert(v[i] != v[j]);
        } else {
            assert(v[j] != v[i]);
        }
    }
    assert(s.no_duplicates());
    assert forall|i: int| 0 <= i < s.len() implies 2 <= #[trigger] s[i] < 258 by {
        assert(2 <= v[i] <= TOKEN_MAX);
    }
    lemma_distinct_bounded(s, 2, 258);
}

/// The freshly initialised family of tables: all empty, one per level with
/// backoff, a single one without.
pub open spec fn init_tables_spec(order: int, backoff: bool) -> Seq<TableView> {
    Seq::new(
        if backoff {
            (order + 1) as nat
        } else {
            1 as nat
        },
        |_k: int| Seq::<(Seq<u16>, Seq<(u16, u64)>)>::empty(),
    )
}

/// The complete mathematical description of training: the vocabulary in
/// first-occurrence order, the counted tables, and smoothing when the
/// prior is positive.
pub open spec fn train_spec(words: Seq<Seq<u8>>, order: int, prior: u64, backoff: bool) -> ModelV {
    let vocab = vocab_spec(words);
    let counted = count_words_upto(
        init_tables_spec(order, backoff),
        words,
        order,
        backoff,
        words.len() as int,
    );
    let tables = if prior == 0 {
        counted
    } else {
        smooth_tables(counted, smooth_domain(vocab), prior)
    };
    ModelV { order: order as nat, prior, backoff, vocab, tables }
}

/// Train a model from a word corpus.
///
/// Deterministic: the result is a function of the words and the three
/// parameters alone, so equal inputs always yield bit-identical models.
/// Fails only when a parameter or the corpus size lies outside the
/// supported range.
pub fn train(words: &Vec<Vec<u8>>, order: usize, prior: u64, backoff: bool) -> (r: Result<
    Model,
    Error,
>)
    requires
        1 <= order,
    ensures
        match r {
            Ok(m) => m@ == train_spec(words.deep_view(), order as int, prior, backoff)
                && model_wf(m@) && order <= MAX_ORDER && prior <= MAX_PRIOR && corpus_positions(
                words.deep_view(),
                words.deep_view().len() as int,
            ) <= MAX_COUNT,
            Err(e) => e == Error::Format && (order > MAX_ORDER || prior > MAX_PRIOR
                || corpus_positions(words.deep_view(), words.deep_view().len() as int)
                > MAX_COUNT),
        },
{
    let ghost dw = words.deep_view();
    if order > MAX_ORDER {
        return Err(Error::Format);
    }
    if prior > MAX_PRIOR {
        return Err(Error::Format);
    }
    // Bound the number of observation positions so no weight can overflow.
    let mut total: u64 = 0;
    let mut w: usize = 0;
    while w < words.len()
        invariant
            w <= words.len(),
            dw == words.deep_view(),
            dw.len() == words@.len(),
            total == corpus_positions(dw, w as int),
            total <= MAX_COUNT,
        decreases words.len() - w,
    {
        let wl = words[w].len();
        proof {
            assert(dw[w as int] =~= words@[w as int]@);
            assert(corpus_positions(dw, w as int + 1) == total + wl + 1);
        }
        if wl as u64 >= MAX_COUNT || total + wl as u64 + 1 > MAX_COUNT {
            proof {
                lemma_positions_monotone(dw, w as int + 1, dw.len() as int);
            }
            return Err(Error::Format);
        }
        total = total + wl as u64 + 1;
        w += 1;
    }
    let vocab = build_vocab(words);
    proof {
        lemma_vocab_upto_props(dw, dw.len() as int);
        assert(vocab@ == vocab_spec(dw));
        assert(vocab_good(vocab@));
    }
    // One empty table per level with backoff, a single one without.
    let table_count = if backoff {
        order + 1
    } else {
        1
    };
    let mut tables: Vec<Table> = Vec::new();
    let mut t: usize = 0;
    while t < table_count
        invariant
            t <= table_count,
            tables@.len() == t,
            forall|x: int| 0 <= x < t ==> #[trigger] tables@[x]@ == Seq::<
                (Seq<u16>, Seq<(u16, u64)>),
            >::empty(),
        decreases table_count - t,
    {
        tables.push(Table { entries: Vec::new() });
        proof {
            assert(tables@[t as int]@ =~= Seq::<(Seq<u16>, Seq<(u16, u64)>)>::empty());
        }
        t += 1;
    }
    proof {
        assert(views_of(tables@) =~= init_tables_spec(order as int, backoff));
        assert(tables_ok(views_of(tables@), order as int, backoff, vocab@, 0));
    }
    // Count every word.
    let mut w2: usize = 0;
    while w2 < words.len()
        invariant
            w2 <= words.len(),
            dw == words.deep_view(),
            dw.len() == words@.len(),
            1 <= order <= MAX_ORDER,
            vocab@ == vocab_spec(dw),
            vocab_good(vocab@),
            forall|x: int| 0 <= x < dw.len() ==> codes_in(word_codes(#[trigger] dw[x]), vocab@),
            if backoff {
                tables@.len() == order + 1
            } else {
                tables@.len() == 1
            },
            views_of(tables@) == count_words_upto(
                init_tables_spec(order as int, backoff),
                dw,
                order as int,
                backoff,
                w2 as int,
            ),
            tables_ok(
                views_of(tables@),
                order as int,
                backoff,
                vocab@,
                corpus_positions(dw, w2 as int),
            ),
            corpus_positions(dw, dw.len() as int) <= MAX_COUNT,
        decreases words.len() - w2,
    {
        let toks = to_codes(&words[w2]);
        proof {
            assert(dw[w2 as int] =~= words@[w2 as int]@);
            assert(toks@ == word_codes(dw[w2 as int]));
            assert(codes_in(toks@, vocab@));
            lemma_positions_monotone(dw, w2 as int + 1, dw.len() as int);
            assert(corpus_positions(dw, w2 as int) + toks@.len() + 1 == corpus_positions(
                dw,
                w2 as int + 1,
            ));
            assert(corpus_positions(dw, w2 as int) >= 0) by {
                lemma_positions_monotone(dw, 0, w2 as int);
            }
        }
        count_word_into(
            &mut tables,
            &toks,
            order,
            backoff,
            Ghost(vocab@),
            Ghost(corpus_positions(dw, w2 as int)),
        );
        w2 += 1;
    }
    let ghost counted = views_of(tables@);
    // Smoothing: the prior for every vocabulary token and the end sentinel.
    if prior > 0 {
        let mut dom: Vec<u16> = Vec::new();
        dom.push(TOKEN_END);
        let mut v: usize = 0;
        while v < vocab.len()
            invariant
                v <= vocab.len(),
                dom@.len() == v + 1,
                dom@[0] == TOKEN_END,
                forall|x: int| 0 <= x < v ==> dom@[x + 1] == vocab@[x],
            decreases vocab.len() - v,
        {
            dom.push(vocab[v]);
            v += 1;
        }
        proof {
            assert(dom@ =~= smooth_domain(vocab@));
            assert forall|a: int, b: int| 0 <= a < b < dom@.len() implies dom@[a] != dom@[b] by {
                if a == 0 {
                    assert(dom@[b] == vocab@[b - 1]);
                    assert(2 <= vocab@[b - 1]);
                } else {
                    assert(dom@[a] == vocab@[a - 1] && dom@[b] == vocab@[b - 1]);
                    assert(vocab@[a - 1] != vocab@[b - 1]);
                }
            }
            assert forall|i: int| 0 <= i < dom@.len() implies successor_ok(
                #[trigger] dom@[i],
                vocab@,
            ) by {
                if i > 0 {
                    assert(dom@[i] == vocab@[i - 1]);
                    assert(vocab@.contains(vocab@[i - 1]));
                }
            }
            lemma_positions_monotone(dw, 0, dw.len() as int);
        }
        smooth_all(
            &mut tables,
            &dom,
            prior,
            Ghost(corpus_positions(dw, dw.len() as int)),
            Ghost(order as int),
            Ghost(backoff),
            Ghost(vocab@),
        );
    }
    let m = Model { order, prior, backoff, vocab, tables };
    proof {
        assert(m@.tables =~= train_spec(dw, order as int, prior, backoff).tables);
        assert(m@ == train_spec(dw, order as int, prior, backoff));
        let ts = m@.tables;
        lemma_vocab_len_bound(vocab@);
        assert forall|k: int| 0 <= k < ts.len() implies table_wf(
            #[trigger] ts[k],
            lvl_len(k, order as int, backoff),
            m@.vocab,
        ) by {
            assert(table_distinct(ts[k]));
            assert(table_weights_le(ts[k], MAX_WEIGHT as int));
            assert(table_shape(ts[k], lvl_len(k, order as int, backoff), m@.vocab));
            assert forall|i: int| 0 <= i < ts[k].len() implies crate::model::dist_wf(
                (#[trigger] ts[k][i]).1,
                m@.vocab,
            ) by {
                assert(dist_distinct(ts[k][i].1));
                assert forall|j: int| 0 <= j < ts[k][i].1.len() implies 1 <= (
                #[trigger] ts[k][i].1[j]).1 <= MAX_WEIGHT && successor_ok(
                    ts[k][i].1[j].0,
                    m@.vocab,
                ) by {
                    assert(ts[k][i].1[j].1 <= MAX_WEIGHT as int);
                    assert(successor_ok(ts[k][i].1[j].0, m@.vocab) && ts[k][i].1[j].1 >= 1);
                }
                lemma_dist_len_bound(ts[k][i].1, m@.vocab);
            }
        }
        assert(model_wf(m@));
    }
    Ok(m)
}

/// Law: training is deterministic. Two models described by the training
/// function of the same corpus and the same parameters are bit-identical:
/// same vocabulary, same tables, same weights.
pub proof fn lemma_train_deterministic(
    m1: ModelV,
    m2: ModelV,
    words: Seq<Seq<u8>>,
    order: int,
    prior: u64,
    backoff: bool,
)
    requires
        m1 == train_spec(words, order, prior, backoff),
        m2 == train_spec(words, order, prior, backoff),
    ensures
        m1 == m2,
{
}

} // verus!
