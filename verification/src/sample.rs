//! Sampling: weighted random walks over a trained model.
//!
//! The walk resolves the current context against the highest-order table
//! that knows it, falling back to shorter suffixes (or, without backoff,
//! to a uniform prior draw), draws the next token in proportion to its
//! weight, and stops on the end sentinel or at the length cap. Attempts
//! shorter than the requested minimum are retried within a fixed budget.

use vstd::prelude::*;

use crate::model::{
    code_of_byte, dist_total, dist_wf, lemma_dist_total_positive, lemma_table_lookup_wf, model_wf,
    successor_ok, table_lookup, Dist, Model, ModelV, MAX_WEIGHT, TOKEN_END, TOKEN_MAX,
};
use crate::rng::rng_below;
use crate::train::{ctx_at, context_at};
use crate::Error;

verus! {

/// Number of sampling attempts made before giving up on the bounds.
pub const RETRY_BUDGET: usize = 1000;

/// ASCII uppercasing of a single byte.
pub open spec fn ascii_upper(b: u8) -> u8 {
    if 97 <= b <= 122 {
        (b - 32) as u8
    } else {
        b
    }
}

/// Uppercase one ASCII byte.
fn to_upper(b: u8) -> (r: u8)
    ensures
        r == ascii_upper(b),
{
    if b >= 97 && b <= 122 {
        b - 32
    } else {
        b
    }
}

/// The last `n` tokens of the emitted word.
fn suffix(emitted: &Vec<u16>, n: usize) -> (r: Vec<u16>)
    requires
        n <= emitted.len(),
    ensures
        r@ == emitted@.subrange(emitted@.len() - n, emitted@.len() as int),
{
    let mut r: Vec<u16> = Vec::new();
    let mut j = emitted.len() - n;
    while j < emitted.len()
        invariant
            emitted@.len() - n <= j <= emitted@.len(),
            n <= emitted@.len(),
            r@ =~= emitted@.subrange(emitted@.len() - n, j as int),
        decreases emitted.len() - j,
    {
        r.push(emitted[j]);
        proof {
            assert(r@ =~= emitted@.subrange(emitted@.len() - n, j + 1));
        }
        j += 1;
    }
    r
}

/// Total weight of the first `j` pairs of a distribution.
pub open spec fn cum_weight(d: Seq<(u16, u64)>, j: int) -> int {
    dist_total(d.subrange(0, j))
}

/// The token a draw of `r` selects: walk the pairs, letting each claim a
/// window as wide as its weight; `r` falls in exactly one window. (Past
/// the total the value defaults to the end sentinel.)
pub open spec fn picked(d: Seq<(u16, u64)>, r: int) -> u16
    decreases d.len(),
{
    if d.len() == 0 {
        TOKEN_END
    } else if r < d[0].1 {
        d[0].0
    } else {
        picked(d.skip(1), r - d[0].1)
    }
}

/// Cumulative weights never decrease.
proof fn lemma_cum_monotone(d: Seq<(u16, u64)>, a: int, b: int)
    requires
        0 <= a <= b <= d.len(),
    ensures
        cum_weight(d, a) <= cum_weight(d, b),
    decreases b - a,
{
    if a < b {
        lemma_cum_monotone(d, a, b - 1);
        assert(d.subrange(0, b).drop_last() =~= d.subrange(0, b - 1));
        assert(d.subrange(0, b).last() == d[b - 1]);
    }
}

/// Splitting the first pair off a prefix sum.
proof fn lemma_cum_shift(d: Seq<(u16, u64)>, j: int)
    requires
        1 <= j <= d.len(),
    ensures
        cum_weight(d, j) == d[0].1 + cum_weight(d.skip(1), j - 1),
    decreases j,
{
    if j == 1 {
        assert(d.subrange(0, 1).drop_last() =~= Seq::<(u16, u64)>::empty());
        assert(d.subrange(0, 1).last() == d[0]);
        assert(d.skip(1).subrange(0, 0) =~= Seq::<(u16, u64)>::empty());
    } else {
        lemma_cum_shift(d, j - 1);
        assert(d.subrange(0, j).drop_last() =~= d.subrange(0, j - 1));
        assert(d.subrange(0, j).last() == d[j - 1]);
        assert(d.skip(1).subrange(0, j - 1).drop_last() =~= d.skip(1).subrange(0, j - 2));
        assert(d.skip(1).subrange(0, j - 1).last() == d.skip(1)[j - 2]);
        assert(d.skip(1)[j - 2] == d[j - 1]);
    }
}

/// A draw inside the `j`-th cumulative window selects the `j`-th token.
proof fn lemma_picked_slot(d: Seq<(u16, u64)>, r: int, j: int)
    requires
        0 <= j < d.len(),
        cum_weight(d, j) <= r < cum_weight(d, j + 1),
    ensures
        picked(d, r) == d[j].0,
    decreases j,
{
    if j == 0 {
        assert(d.subrange(0, 0) =~= Seq::<(u16, u64)>::empty());
        assert(cum_weight(d, 0) == 0);
        assert(d.subrange(0, 1).drop_last() =~= Seq::<(u16, u64)>::empty());
        assert(d.subrange(0, 1).last() == d[0]);
        assert(cum_weight(d, 1) == d[0].1);
        assert(0 <= r < d[0].1);
    } else {
        lemma_cum_monotone(d, 1, j);
        lemma_cum_shift(d, 1);
        assert(d.skip(1).subrange(0, 0) =~= Seq::<(u16, u64)>::empty());
        assert(cum_weight(d, 1) == d[0].1);
        assert(r >= d[0].1);
        lemma_cum_shift(d, j);
        lemma_cum_shift(d, j + 1);
        lemma_picked_slot(d.skip(1), r - d[0].1, j - 1);
        assert(d.skip(1)[j - 1] == d[j]);
    }
}

/// Total weight of a non-empty distribution: the bound handed to the
/// random source.
fn dist_sum(d: &Dist, Ghost(vocab): Ghost<Seq<u16>>) -> (total: u64)
    requires
        dist_wf(d@, vocab),
        d@.len() > 0,
    ensures
        total == dist_total(d@),
        total >= 1,
{
    let mut total: u64 = 0;
    let mut i: usize = 0;
    while i < d.pairs.len()
        invariant
            i <= d@.len(),
            dist_wf(d@, vocab),
            total == dist_total(d@.subrange(0, i as int)),
            total <= i * MAX_WEIGHT,
        decreases d.pairs.len() - i,
    {
        proof {
            assert(d@.subrange(0, i as int + 1).drop_last() =~= d@.subrange(0, i as int));
            assert(d@.subrange(0, i as int + 1).last() == d@[i as int]);
            assert(d@[i as int].1 <= MAX_WEIGHT);
            assert(i * MAX_WEIGHT + MAX_WEIGHT == (i + 1) * MAX_WEIGHT) by (nonlinear_arith);
            assert((i + 1) * MAX_WEIGHT <= 257 * MAX_WEIGHT) by (nonlinear_arith)
                requires
                    0 <= i,
                    i + 1 <= 257,
            ;
        }
        total = total + d.pairs[i].1;
        i += 1;
    }
    proof {
        assert(d@.subrange(0, d@.len() as int) =~= d@);
        lemma_dist_total_positive(d@, vocab);
    }
    total
}

/// The token at the cumulative-weight slot of draw `r`: an exact
/// function of the distribution and the draw, so the weighted choice is
/// fully determined once the random source has spoken.
fn select_at(d: &Dist, r: u64, Ghost(vocab): Ghost<Seq<u16>>) -> (tok: u16)
    requires
        dist_wf(d@, vocab),
        r < dist_total(d@),
    ensures
        tok == picked(d@, r as int),
        exists|j: int| 0 <= j < d@.len() && tok == (#[trigger] d@[j]).0,
{
    let mut acc: u64 = 0;
    let mut j: usize = 0;
    while j < d.pairs.len()
        invariant
            j <= d@.len(),
            dist_wf(d@, vocab),
            acc == dist_total(d@.subrange(0, j as int)),
            acc <= j * MAX_WEIGHT,
            r >= acc,
            r < dist_total(d@),
        decreases d.pairs.len() - j,
    {
        proof {
            assert(d@.subrange(0, j as int + 1).drop_last() =~= d@.subrange(0, j as int));
            assert(d@.subrange(0, j as int + 1).last() == d@[j as int]);
            assert(d@[j as int].1 <= MAX_WEIGHT);
            assert(j * MAX_WEIGHT + MAX_WEIGHT == (j + 1) * MAX_WEIGHT) by (nonlinear_arith);
            assert((j + 1) * MAX_WEIGHT <= 257 * MAX_WEIGHT) by (nonlinear_arith)
                requires
                    0 <= j,
                    j + 1 <= 257,
            ;
        }
        let w = d.pairs[j].1;
        if r < acc + w {
            proof {
                assert(cum_weight(d@, j + 1) == acc + w);
                lemma_picked_slot(d@, r as int, j as int);
                assert(picked(d@, r as int) == d@[j as int].0);
            }
            return d.pairs[j].0;
        }
        acc = acc + w;
        j += 1;
    }
    proof {
        assert(d@.subrange(0, d@.len() as int) =~= d@);
        assert(false);
    }
    d.pairs[0].0
}

/// The level the backoff walk starts at: the full order once enough
/// tokens were emitted, the whole prefix before that.
pub open spec fn start_level(m: ModelV, prefix: Seq<u16>) -> int {
    if prefix.len() < m.order {
        prefix.len() as int
    } else {
        m.order as int
    }
}

/// Backoff resolution from level `j` downward: the first level whose
/// table knows the matching suffix of the prefix.
pub open spec fn resolve_back(m: ModelV, prefix: Seq<u16>, j: int) -> Option<Seq<(u16, u64)>>
    decreases j + 1,
{
    if j < 0 {
        None
    } else {
        match table_lookup(m.tables[j], prefix.skip(prefix.len() - j)) {
            Some(d) => Some(d),
            None => resolve_back(m, prefix, j - 1),
        }
    }
}

/// The distribution the walk uses after emitting `prefix`, if any
/// recorded context matches.
pub open spec fn resolve_spec(m: ModelV, prefix: Seq<u16>) -> Option<Seq<(u16, u64)>> {
    if m.backoff {
        resolve_back(m, prefix, start_level(m, prefix))
    } else {
        table_lookup(m.tables[0], ctx_at(prefix, prefix.len() as int, m.order as int, false))
    }
}

/// One consistent walk step: the token sits at a cumulative-weight slot
/// of the resolved distribution; where no context is known, the prior is
/// positive and the token is any vocabulary token or the end sentinel —
/// exactly what the uniform prior draw weights alike.
pub open spec fn step_ok(m: ModelV, prefix: Seq<u16>, tok: u16) -> bool {
    match resolve_spec(m, prefix) {
        Some(d) => exists|r: int| 0 <= r < dist_total(d) && tok == #[trigger] picked(d, r),
        None => m.prior > 0 && successor_ok(tok, m.vocab),
    }
}

/// The whole walk behind a produced token sequence: every token is a
/// consistent step from its prefix, and the walk stopped either at the
/// length cap or on a consistent end-sentinel draw.
pub open spec fn walk_ok(m: ModelV, toks: Seq<u16>, max_len: int) -> bool {
    &&& forall|i: int| 0 <= i < toks.len() ==> step_ok(m, toks.subrange(0, i), #[trigger] toks[i])
    &&& toks.len() == max_len || step_ok(m, toks, TOKEN_END)
}

/// Resolve the distribution used for the next draw: the longest known
/// suffix of the emitted word with backoff, or the single full-order
/// table without it.
fn resolve<'a>(model: &'a Model, emitted: &Vec<u16>) -> (r: Option<&'a Dist>)
    requires
        model_wf(model@),
    ensures
        match r {
            Some(d) => dist_wf(d@, model@.vocab) && d@.len() > 0 && resolve_spec(model@, emitted@)
                == Some(d@),
            None => resolve_spec(model@, emitted@) is None,
        },
{
    if model.backoff {
        let start = if emitted.len() < model.order {
            emitted.len()
        } else {
            model.order
        };
        proof {
            assert(model@.order <= crate::model::MAX_ORDER);
            assert(start as int == start_level(model@, emitted@));
        }
        let mut j = start + 1;
        while j > 0
            invariant
                j <= start + 1,
                start <= model.order,
                start <= emitted@.len(),
                model_wf(model@),
                model@.tables.len() == model@.order + 1,
                start as int == start_level(model@, emitted@),
                resolve_back(model@, emitted@, start as int) == resolve_back(
                    model@,
                    emitted@,
                    j - 1,
                ),
            decreases j,
        {
            j -= 1;
            let ctx = suffix(emitted, j);
            proof {
                assert(model@.tables[j as int] == model.tables@[j as int]@);
                assert(crate::model::table_wf(model@.tables[j as int], j as nat, model@.vocab));
                assert(ctx@ =~= emitted@.skip(emitted@.len() - j));
            }
            let tab = &model.tables[j];
            match tab.lookup(&ctx) {
                Some(d) => {
                    proof {
                        lemma_table_lookup_wf(model@.tables[j as int], j as nat, model@.vocab, ctx@);
                        assert(resolve_back(model@, emitted@, j as int) == Some(d@));
                    }
                    return Some(d);
                },
                None => {
                    proof {
                        assert(resolve_back(model@, emitted@, j as int) == resolve_back(
                            model@,
                            emitted@,
                            j - 1,
                        ));
                    }
                },
            }
        }
        proof {
            assert(resolve_back(model@, emitted@, -1) is None);
        }
        None
    } else {
        let ctx = context_at(emitted, emitted.len(), model.order, false);
        proof {
            assert(model@.tables[0] == model.tables@[0]@);
            assert(crate::model::table_wf(model@.tables[0], model@.order, model@.vocab));
        }
        let tab = &model.tables[0];
        match tab.lookup(&ctx) {
            Some(d) => {
                proof {
                    lemma_table_lookup_wf(model@.tables[0], model@.order, model@.vocab, ctx@);
                }
                Some(d)
            },
            None => None,
        }
    }
}

/// One bounded walk: a consistent token sequence of length at most
/// `max_len`, all tokens from the vocabulary; `None` only when the walk
/// dead-ends, which a positive prior rules out.
fn attempt(model: &Model, rng: &mut rand::rngs::StdRng, max_len: usize) -> (r: Option<Vec<u16>>)
    requires
        model_wf(model@),
    ensures
        match r {
            Some(toks) => toks@.len() <= max_len && (forall|i: int|
                0 <= i < toks@.len() ==> model@.vocab.contains(#[trigger] toks@[i])) && walk_ok(
                model@,
                toks@,
                max_len as int,
            ),
            None => model@.prior == 0,
        },
{
    let mut emitted: Vec<u16> = Vec::new();
    while emitted.len() < max_len
        invariant
            emitted@.len() <= max_len,
            model_wf(model@),
            forall|i: int| 0 <= i < emitted@.len() ==> model@.vocab.contains(#[trigger] emitted@[i]),
            forall|i: int|
                0 <= i < emitted@.len() ==> step_ok(
                    model@,
                    emitted@.subrange(0, i),
                    #[trigger] emitted@[i],
                ),
        decreases max_len - emitted.len(),
    {
        let tok: u16;
        match resolve(model, &emitted) {
            Some(d) => {
                let total = dist_sum(d, Ghost(model@.vocab));
                let r = rng_below(rng, total);
                tok = select_at(d, r, Ghost(model@.vocab));
                proof {
                    let j = choose|j: int| 0 <= j < d@.len() && tok == (#[trigger] d@[j]).0;
                    assert(successor_ok(d@[j].0, model@.vocab));
                    assert(resolve_spec(model@, emitted@) == Some(d@));
                    let dd = resolve_spec(model@, emitted@)->Some_0;
                    assert(dd == d@);
                    assert((r as int) < dist_total(dd) && tok == picked(dd, r as int));
                    assert(step_ok(model@, emitted@, tok));
                }
            },
            None => {
                // An unseen context: with a positive prior every vocabulary
                // token (and the end sentinel) carries the same weight.
                if model.prior > 0 {
                    let n = model.vocab.len() as u64 + 1;
                    let idx = rng_below(rng, n);
                    if idx == 0 {
                        tok = TOKEN_END;
                    } else {
                        tok = model.vocab[(idx - 1) as usize];
                        proof {
                            assert(model@.vocab.contains(model@.vocab[idx - 1]));
                        }
                    }
                    proof {
                        assert(step_ok(model@, emitted@, tok));
                    }
                } else {
                    return None;
                }
            },
        }
        if tok == TOKEN_END {
            proof {
                assert(step_ok(model@, emitted@, TOKEN_END));
            }
            return Some(emitted);
        }
        proof {
            assert(model@.vocab.contains(tok));
        }
        let ghost pre = emitted@;
        emitted.push(tok);
        proof {
            assert forall|i: int|
                0 <= i < emitted@.len() implies step_ok(
                model@,
                emitted@.subrange(0, i),
                #[trigger] emitted@[i],
            ) by {
                if i < pre.len() {
                    assert(emitted@.subrange(0, i) =~= pre.subrange(0, i));
                    assert(emitted@[i] == pre[i]);
                    assert(step_ok(model@, pre.subrange(0, i), pre[i]));
                } else {
                    assert(emitted@.subrange(0, i) =~= pre);
                    assert(emitted@[i] == tok);
                }
            }
        }
    }
    Some(emitted)
}

impl Model {
    /// Draw one pseudo-word whose length lies within `[min_len, max_len]`.
    ///
    /// Every successful result respects the bounds; every byte (but for
    /// an uppercased first one) is a vocabulary byte of the training
    /// corpus; and the word is a consistent weighted walk over the model:
    /// behind the bytes stands a token sequence whose every step was
    /// drawable, with positive weight, from the distribution resolved for
    /// its prefix. With a positive prior and no lower bound a draw cannot
    /// fail; otherwise, when the bounds cannot be met within the retry
    /// budget, the draw fails with `Error::GenerationExhausted` rather
    /// than ever returning an out-of-bounds word.
    pub fn generate(
        &self,
        rng: &mut rand::rngs::StdRng,
        capitalize: bool,
        min_len: usize,
        max_len: usize,
    ) -> (r: Result<Vec<u8>, Error>)
        requires
            model_wf(self@),
            min_len <= max_len,
        ensures
            min_len == 0 && self.prior > 0 ==> r is Ok,
            match r {
                Ok(out) => min_len <= out@.len() <= max_len && (forall|i: int|
                    (if capitalize {
                        1int
                    } else {
                        0int
                    }) <= i < out@.len() ==> self@.vocab.contains(
                        code_of_byte(#[trigger] out@[i]),
                    )) && (capitalize && out@.len() > 0 ==> exists|b: u8|
                    self@.vocab.contains(code_of_byte(b)) && out@[0] == ascii_upper(b)) && (
                exists|toks: Seq<u16>|
                    {
                        &&& #[trigger] walk_ok(self@, toks, max_len as int)
                        &&& toks.len() == out@.len()
                        &&& forall|i: int|
                            (if capitalize {
                                1int
                            } else {
                                0int
                            }) <= i < out@.len() ==> code_of_byte(#[trigger] out@[i]) == toks[i]
                        &&& capitalize && out@.len() > 0 ==> 2 <= toks[0] <= TOKEN_MAX && out@[0]
                            == ascii_upper((toks[0] - 2) as u8)
                    }),
                Err(e) => e == Error::GenerationExhausted,
            },
    {
        let mut tries: usize = 0;
        while tries < RETRY_BUDGET
            invariant
                model_wf(self@),
                min_len <= max_len,
                min_len == 0 && self.prior > 0 ==> tries == 0,
            decreases RETRY_BUDGET - tries,
        {
            match attempt(self, rng, max_len) {
                Some(toks) => {
                    if toks.len() >= min_len {
                        let mut out: Vec<u8> = Vec::new();
                        let mut i: usize = 0;
                        while i < toks.len()
                            invariant
                                i <= toks@.len(),
                                out@.len() == i,
                                model_wf(self@),
                                forall|x: int|
                                    0 <= x < toks@.len() ==> self@.vocab.contains(
                                        #[trigger] toks@[x],
                                    ),
                                forall|x: int|
                                    0 <= x < i ==> code_of_byte(#[trigger] out@[x]) == toks@[x],
                            decreases toks.len() - i,
                        {
                            proof {
                                assert(self@.vocab.contains(toks@[i as int]));
                                let w = choose|w: int|
                                    0 <= w < self@.vocab.len() && self@.vocab[w] == toks@[i as int];
                                assert(2 <= self@.vocab[w] <= TOKEN_MAX);
                            }
                            out.push(crate::model::code_to_byte(toks[i]));
                            i += 1;
                        }
                        let ghost walked = toks@;
                        if capitalize && out.len() > 0 {
                            let ghost b0 = out@[0];
                            let up = to_upper(out[0]);
                            out[0] = up;
                            proof {
                                assert(out@[0] == ascii_upper(b0));
                                assert(self@.vocab.contains(code_of_byte(b0)));
                                assert(code_of_byte(b0) == walked[0]);
                                assert(b0 == (walked[0] - 2) as u8);
                            }
                        }
                        proof {
                            assert(walk_ok(self@, walked, max_len as int));
                            assert(exists|ts: Seq<u16>|
                                {
                                    &&& #[trigger] walk_ok(self@, ts, max_len as int)
                                    &&& ts.len() == out@.len()
                                    &&& forall|x: int|
                                        (if capitalize {
                                            1int
                                        } else {
                                            0int
                                        }) <= x < out@.len() ==> code_of_byte(#[trigger] out@[x])
                                            == ts[x]
                                    &&& capitalize && out@.len() > 0 ==> 2 <= ts[0] <= TOKEN_MAX
                                        && out@[0] == ascii_upper((ts[0] - 2) as u8)
                                });
                        }
                        return Ok(out);
                    }
                    proof {
                        assert(min_len >= 1);
                    }
                },
                None => {
                    proof {
                        assert(self@.prior == 0);
                    }
                },
            }
            tries += 1;
        }
        Err(Error::GenerationExhausted)
    }
}

} // verus!
