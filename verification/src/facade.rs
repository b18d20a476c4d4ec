//! The generator facade: resolve a model from the cache or by training,
//! and expose a read-only, concurrently usable draw operation.
//!
//! The facade itself does no file I/O: the application hands in the
//! corpus bytes and, when wanted, the bytes of a previously stored cache
//! entry, and receives the bytes to store back (if any) together with
//! the resolved model.

use vstd::prelude::*;

use crate::cache::{decode_entry, encode_entry, entry_for, fingerprint, fp_input, zstd_of};
use crate::codec::enc_model;
use crate::corpus::{load_words, split_words};
use crate::hashing::sha256_of;
use crate::model::{model_wf, Model, MAX_COUNT, MAX_ORDER, MAX_PRIOR};
use crate::sample::{ascii_upper, walk_ok};
use crate::train::{corpus_positions, train, train_spec};
use crate::Error;

verus! {

/// Training parameters of the model.
#[derive(Clone, Copy, Debug, PartialEq, Eq, Structural)]
pub struct ModelParams {
    /// Maximum number of preceding tokens used as context; at least one.
    pub order: usize,
    /// Additive smoothing weight granted to every vocabulary token.
    pub prior: u64,
    /// Whether shorter-context tables are built for fallback.
    pub backoff: bool,
}

/// Cache behaviour of one invocation.
#[derive(Clone, Copy, Debug, PartialEq, Eq, Structural)]
pub struct CacheControl {
    /// Touch no cache state at all: always train, never store.
    pub no_cache: bool,
    /// Ignore a present entry and retrain, but store the fresh result.
    pub rebuild_cache: bool,
}

/// Whether this invocation may read a stored entry: only when neither
/// flag suppresses the load.
pub fn should_read_cache(cc: CacheControl) -> (r: bool)
    ensures
        r == (!cc.no_cache && !cc.rebuild_cache),
{
    !cc.no_cache && !cc.rebuild_cache
}

/// The outcome of resolving a model.
pub struct Resolution {
    /// The resolved, well-formed model.
    pub model: Model,
    /// Whether it came from the supplied cache entry.
    pub from_cache: bool,
    /// The entry the application should write back, when a store is due.
    pub store: Option<Vec<u8>>,
}

/// The fingerprint a resolution is keyed by.
pub open spec fn fp_of(corpus: Seq<u8>, delim: u8, params: ModelParams) -> Seq<u8> {
    sha256_of(fp_input(corpus, delim, params.order as u64, params.prior, params.backoff))
}

/// The model training would produce for this corpus and parameters.
pub open spec fn trained(corpus: Seq<u8>, delim: u8, params: ModelParams) -> crate::model::ModelV {
    train_spec(split_words(corpus, delim), params.order as int, params.prior, params.backoff)
}

/// Resolve the model: use the supplied cache entry when permitted and
/// valid, train otherwise, and hand back the entry to store when one is
/// due. With `no_cache` no entry is ever produced and the supplied one
/// is ignored; with `rebuild_cache` the entry is ignored but the fresh
/// model is offered for storing.
pub fn resolve_model(
    corpus: &Vec<u8>,
    delim: u8,
    params: ModelParams,
    cc: CacheControl,
    cached: Option<&Vec<u8>>,
) -> (r: Result<Resolution, Error>)
    requires
        params.order >= 1,
    ensures
        match r {
            Ok(res) => {
                &&& model_wf(res.model@)
                &&& res.from_cache ==> !cc.no_cache && !cc.rebuild_cache && res.store is None
                    && match cached {
                    Some(cb) => entry_for(cb@, fp_of(corpus@, delim, params), res.model@),
                    None => false,
                }
                &&& !res.from_cache ==> res.model@ == trained(corpus@, delim, params)
                &&& cc.no_cache ==> !res.from_cache && res.store is None
                &&& cc.rebuild_cache ==> !res.from_cache
                &&& match res.store {
                    Some(out) => !cc.no_cache && !res.from_cache && entry_for(
                        out@,
                        fp_of(corpus@, delim, params),
                        res.model@,
                    ),
                    None => true,
                }
                &&& !cc.no_cache && !res.from_cache ==> (res.store is Some <==> zstd_of(
                    enc_model(trained(corpus@, delim, params)),
                ) is Some)
                &&& split_words(corpus@, delim).len() > 0
            },
            Err(e) => e == Error::Format && (split_words(corpus@, delim).len() == 0
                || params.order > MAX_ORDER || params.prior > MAX_PRIOR || corpus_positions(
                split_words(corpus@, delim),
                split_words(corpus@, delim).len() as int,
            ) > MAX_COUNT),
        },
{
    let words = match load_words(corpus, delim) {
        Ok(ws) => ws,
        Err(e) => {
            return Err(e);
        },
    };
    let fp = fingerprint(corpus, delim, params.order as u64, params.prior, params.backoff);
    if should_read_cache(cc) {
        match cached {
            Some(cb) => {
                match decode_entry(cb, &fp) {
                    Some(m) => {
                        return Ok(Resolution { model: m, from_cache: true, store: None });
                    },
                    None => {},
                }
            },
            None => {},
        }
    }
    let m = match train(&words, params.order, params.prior, params.backoff) {
        Ok(m) => m,
        Err(e) => {
            return Err(e);
        },
    };
    let store = if !cc.no_cache {
        encode_entry(&m, &fp)
    } else {
        None
    };
    Ok(Resolution { model: m, from_cache: false, store })
}

/// A generator bound to one resolved, immutable model.
///
/// The model is never mutated after construction, so one generator value
/// may serve any number of concurrent draws through shared references.
pub struct Generator {
    pub model: Model,
}

impl Generator {
    /// Bind a generator to a well-formed model.
    pub fn new(model: Model) -> (r: Generator)
        requires
            model_wf(model@),
        ensures
            r.model == model,
            model_wf(r.model@),
    {
        Generator { model }
    }

    /// Draw one pseudo-word within the length bounds; see
    /// `Model::generate` for the full walk-consistency contract.
    pub fn generate(
        &self,
        rng: &mut rand::rngs::StdRng,
        capitalize: bool,
        min_len: usize,
        max_len: usize,
    ) -> (r: Result<Vec<u8>, Error>)
        requires
            model_wf(self.model@),
            min_len <= max_len,
        ensures
            min_len == 0 && self.model.prior > 0 ==> r is Ok,
            match r {
                Ok(out) => min_len <= out@.len() <= max_len && (forall|i: int|
                    (if capitalize {
                        1int
                    } else {
                        0int
                    }) <= i < out@.len() ==> self.model@.vocab.contains(
                        crate::model::code_of_byte(#[trigger] out@[i]),
                    )) && (capitalize && out@.len() > 0 ==> exists|b: u8|
                    self.model@.vocab.contains(crate::model::code_of_byte(b)) && out@[0]
                        == ascii_upper(b)) && (exists|toks: Seq<u16>|
                    {
                        &&& #[trigger] walk_ok(self.model@, toks, max_len as int)
                        &&& toks.len() == out@.len()
                        &&& forall|i: int|
                            (if capitalize {
                                1int
                            } else {
                                0int
                            }) <= i < out@.len() ==> crate::model::code_of_byte(
                                #[trigger] out@[i],
                            ) == toks[i]
                        &&& capitalize && out@.len() > 0 ==> 2 <= toks[0]
                            <= crate::model::TOKEN_MAX && out@[0] == ascii_upper(
                            (toks[0] - 2) as u8,
                        )
                    }),
                Err(e) => e == Error::GenerationExhausted,
            },
    {
        self.model.generate(rng, capitalize, min_len, max_len)
    }
}

} // verus!
