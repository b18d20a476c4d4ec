//! The trained model: a family of context tables, one per order level.
//!
//! Tokens are byte codes shifted by two so that the two sentinels fit below
//! them: code 0 marks a word start, code 1 a word end, and byte `b` becomes
//! code `b + 2`. A distribution maps successor tokens to positive weights;
//! a table maps contexts (token tuples of a fixed length) to distributions.

use vstd::prelude::*;

verus! {

/// Sentinel code marking the start of a word; never drawn, never stored
/// as a successor.
pub const TOKEN_START: u16 = 0;

/// Sentinel code marking the end of a word.
pub const TOKEN_END: u16 = 1;

/// Largest token code: byte 255 shifted past the two sentinels.
pub const TOKEN_MAX: u16 = 257;

/// Cap on the observation count a single (context, successor) pair may
/// accumulate; the trainer refuses larger corpora.
pub const MAX_COUNT: u64 = 0x1_0000_0000;

/// Cap on the smoothing prior; keeps every weight below `MAX_WEIGHT`.
pub const MAX_PRIOR: u64 = 0x1_0000_0000;

/// Cap on the model order the trainer accepts.
pub const MAX_ORDER: usize = 65536;

/// Cap on a single weight (count plus prior).
pub const MAX_WEIGHT: u64 = 0x2_0000_0000;

/// The token code of a corpus byte.
pub open spec fn code_of_byte(b: u8) -> u16 {
    (b + 2) as u16
}

/// Map a corpus byte to its token code.
pub fn byte_to_code(b: u8) -> (r: u16)
    ensures
        r == code_of_byte(b),
{
    (b as u16) + 2
}

/// Map a token code of a corpus byte back to the byte.
pub fn code_to_byte(c: u16) -> (r: u8)
    requires
        2 <= c <= TOKEN_MAX,
    ensures
        c == code_of_byte(r),
{
    (c - 2) as u8
}

/// The mathematical content of one table: contexts paired with
/// distributions.
pub type TableView = Seq<(Seq<u16>, Seq<(u16, u64)>)>;

/// A weighted successor distribution: pairs of (token code, weight).
pub struct Dist {
    pub pairs: Vec<(u16, u64)>,
}

impl View for Dist {
    type V = Seq<(u16, u64)>;

    open spec fn view(&self) -> Seq<(u16, u64)> {
        self.pairs@
    }
}

/// One table row: a context and the distribution over its successors.
pub struct TableEntry {
    pub context: Vec<u16>,
    pub dist: Dist,
}

impl View for TableEntry {
    type V = (Seq<u16>, Seq<(u16, u64)>);

    open spec fn view(&self) -> (Seq<u16>, Seq<(u16, u64)>) {
        (self.context@, self.dist@)
    }
}

/// A context table for one order level.
pub struct Table {
    pub entries: Vec<TableEntry>,
}

impl View for Table {
    type V = Seq<(Seq<u16>, Seq<(u16, u64)>)>;

    open spec fn view(&self) -> Seq<(Seq<u16>, Seq<(u16, u64)>)> {
        Seq::new(self.entries@.len(), |i: int| self.entries@[i]@)
    }
}

/// The mathematical content of a model.
pub ghost struct ModelV {
    pub order: nat,
    pub prior: u64,
    pub backoff: bool,
    pub vocab: Seq<u16>,
    pub tables: Seq<Seq<(Seq<u16>, Seq<(u16, u64)>)>>,
}

/// A trained model. Immutable once built: sampling only reads it.
pub struct Model {
    pub order: usize,
    pub prior: u64,
    pub backoff: bool,
    pub vocab: Vec<u16>,
    pub tables: Vec<Table>,
}

impl View for Model {
    type V = ModelV;

    open spec fn view(&self) -> ModelV {
        ModelV {
            order: self.order as nat,
            prior: self.prior,
            backoff: self.backoff,
            vocab: self.vocab@,
            tables: Seq::new(self.tables@.len(), |i: int| self.tables@[i]@),
        }
    }
}

/// A token that a distribution may assign weight to: the end sentinel or a
/// vocabulary token.
pub open spec fn successor_ok(t: u16, vocab: Seq<u16>) -> bool {
    t == TOKEN_END || vocab.contains(t)
}

/// Sum of the weights of a distribution.
pub open spec fn dist_total(d: Seq<(u16, u64)>) -> int
    decreases d.len(),
{
    if d.len() == 0 {
        0
    } else {
        dist_total(d.drop_last()) + d.last().1
    }
}

/// Well-formedness of a distribution: bounded size, distinct tokens drawn
/// from the vocabulary (or the end sentinel), and strictly positive weights.
pub open spec fn dist_wf(d: Seq<(u16, u64)>, vocab: Seq<u16>) -> bool {
    &&& d.len() <= 257
    &&& forall|i: int| 0 <= i < d.len() ==> 1 <= (#[trigger] d[i]).1 <= MAX_WEIGHT
    &&& forall|i: int| 0 <= i < d.len() ==> successor_ok((#[trigger] d[i]).0, vocab)
    &&& forall|i: int, j: int| 0 <= i < j < d.len() ==> d[i].0 != d[j].0
}

/// Well-formedness of a table whose contexts all have length `ctx_len`.
pub open spec fn table_wf(t: Seq<(Seq<u16>, Seq<(u16, u64)>)>, ctx_len: nat, vocab: Seq<u16>) -> bool {
    &&& forall|i: int| 0 <= i < t.len() ==> (#[trigger] t[i]).0.len() == ctx_len
    &&& forall|i: int| 0 <= i < t.len() ==> dist_wf((#[trigger] t[i]).1, vocab)
    &&& forall|i: int| 0 <= i < t.len() ==> (#[trigger] t[i]).1.len() > 0
    &&& forall|i: int, j: int| 0 <= i < j < t.len() ==> t[i].0 != t[j].0
}

/// Well-formedness of a model.
///
/// With backoff there is one table per level `0..=order`; without it a
/// single table keyed by full-length, start-padded contexts.
pub open spec fn model_wf(m: ModelV) -> bool {
    &&& m.order >= 1
    &&& m.order <= MAX_ORDER
    &&& m.prior <= MAX_PRIOR
    &&& forall|i: int| 0 <= i < m.vocab.len() ==> 2 <= #[trigger] m.vocab[i] <= TOKEN_MAX
    &&& forall|i: int, j: int| 0 <= i < j < m.vocab.len() ==> m.vocab[i] != m.vocab[j]
    &&& m.vocab.len() <= 256
    &&& if m.backoff {
        &&& m.tables.len() == m.order + 1
        &&& forall|k: int| 0 <= k < m.tables.len() ==> table_wf(#[trigger] m.tables[k], k as nat, m.vocab)
    } else {
        &&& m.tables.len() == 1
        &&& table_wf(m.tables[0], m.order, m.vocab)
    }
}

/// Every weight of a well-formed distribution is positive, and so is the
/// total, as soon as the distribution is non-empty.
pub proof fn lemma_dist_total_positive(d: Seq<(u16, u64)>, vocab: Seq<u16>)
    requires
        dist_wf(d, vocab),
        d.len() > 0,
    ensures
        dist_total(d) >= 1,
    decreases d.len(),
{
    if d.len() == 1 {
        assert(dist_total(d.drop_last()) == 0);
    } else {
        assert(dist_wf(d.drop_last(), vocab));
        lemma_dist_total_positive(d.drop_last(), vocab);
    }
}

/// First (and, in a well-formed table, only) distribution stored for `ctx`.
pub open spec fn table_lookup(t: Seq<(Seq<u16>, Seq<(u16, u64)>)>, ctx: Seq<u16>) -> Option<
    Seq<(u16, u64)>,
>
    decreases t.len(),
{
    if t.len() == 0 {
        None
    } else if t[0].0 == ctx {
        Some(t[0].1)
    } else {
        table_lookup(t.skip(1), ctx)
    }
}

/// A found distribution satisfies the table's invariants.
pub proof fn lemma_table_lookup_wf(
    t: Seq<(Seq<u16>, Seq<(u16, u64)>)>,
    ctx_len: nat,
    vocab: Seq<u16>,
    ctx: Seq<u16>,
)
    requires
        table_wf(t, ctx_len, vocab),
    ensures
        match table_lookup(t, ctx) {
            Some(d) => dist_wf(d, vocab) && d.len() > 0,
            None => true,
        },
    decreases t.len(),
{
    if t.len() > 0 && t[0].0 != ctx {
        assert(table_wf(t.skip(1), ctx_len, vocab)) by {
            assert(forall|i: int| 0 <= i < t.skip(1).len() ==> #[trigger] t.skip(1)[i] == t[i + 1]);
        }
        lemma_table_lookup_wf(t.skip(1), ctx_len, vocab, ctx);
    }
}

impl Table {
    /// Find the distribution stored for `ctx`, if any.
    pub fn lookup(&self, ctx: &Vec<u16>) -> (r: Option<&Dist>)
        ensures
            match r {
                Some(d) => table_lookup(self@, ctx@) == Some(d@),
                None => table_lookup(self@, ctx@) is None,
            },
    {
        let mut i: usize = 0;
        proof {
            assert(self@.skip(0) =~= self@);
        }
        while i < self.entries.len()
            invariant
                i <= self.entries.len(),
                table_lookup(self@, ctx@) == table_lookup(self@.skip(i as int), ctx@),
            decreases self.entries.len() - i,
        {
            let ghost pre = self@.skip(i as int);
            proof {
                assert(pre.len() > 0);
                assert(pre[0] == self@[i as int]);
                assert(pre.skip(1) =~= self@.skip(i + 1));
            }
            if vec_u16_eq(&self.entries[i].context, ctx) {
                return Some(&self.entries[i].dist);
            }
            i += 1;
        }
        proof {
            assert(self@.skip(i as int) =~= Seq::<(Seq<u16>, Seq<(u16, u64)>)>::empty());
        }
        None
    }
}

/// Byte-wise equality of two token vectors.
pub fn vec_u16_eq(a: &Vec<u16>, b: &Vec<u16>) -> (r: bool)
    ensures
        r == (a@ == b@),
{
    if a.len() != b.len() {
        proof {
            assert(a@ != b@);
        }
        return false;
    }
    let mut i: usize = 0;
    while i < a.len()
        invariant
            i <= a.len(),
            a.len() == b.len(),
            forall|j: int| 0 <= j < i ==> a@[j] == b@[j],
        decreases a.len() - i,
    {
        if a[i] != b[i] {
            return false;
        }
        i += 1;
    }
    proof {
        assert(a@ =~= b@);
    }
    true
}

/// Law: in a well-formed (hence in every trained or loaded) model, every
/// distribution carries only nonnegative weights and a strictly positive
/// total.
pub proof fn lemma_model_distributions_positive(m: ModelV, k: int, i: int)
    requires
        model_wf(m),
        0 <= k < m.tables.len(),
        0 <= i < m.tables[k].len(),
    ensures
        forall|j: int| 0 <= j < m.tables[k][i].1.len() ==> (#[trigger] m.tables[k][i].1[j]).1 >= 0,
        dist_total(m.tables[k][i].1) >= 1,
{
    if m.backoff {
        assert(table_wf(m.tables[k], k as nat, m.vocab));
    } else {
        assert(table_wf(m.tables[k], m.order, m.vocab));
    }
    assert(dist_wf(m.tables[k][i].1, m.vocab));
    assert(m.tables[k][i].1.len() > 0);
    lemma_dist_total_positive(m.tables[k][i].1, m.vocab);
}

} // verus!
