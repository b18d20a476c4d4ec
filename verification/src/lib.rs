//! Markov pseudo-word generation: an order-N statistical model trained from a
//! word corpus, persisted through a content-addressed cache entry format, and
//! sampled under bounded length constraints.
//!
//! The library holds the verified logic: corpus splitting, model training,
//! the cache entry codec and fingerprint, and bounded sampling. File and
//! terminal I/O stay with the surrounding application, which hands plain
//! byte buffers in and out.

use vstd::prelude::*;

pub mod cache;
pub mod codec;
pub mod corpus;
pub mod delegate;
pub mod facade;
pub mod hashing;
pub mod model;
pub mod rng;
pub mod sample;
pub mod time;
pub mod train;

verus! {

/// Failure cases of the library.
///
/// `Io` is reserved for the surrounding application: the library itself does
/// no file reading, but the application maps an unreadable corpus to it.
#[derive(Clone, Copy, Debug, PartialEq, Eq, Structural)]
pub enum Error {
    /// The corpus could not be read.
    Io,
    /// The corpus yields an empty vocabulary, or a parameter lies outside
    /// the supported range.
    Format,
    /// A cache entry failed validation; callers treat this as a miss.
    CacheCorrupt,
    /// The sampler could not satisfy the length bounds within its retry budget.
    GenerationExhausted,
}

impl Error {
    /// A short human-readable description.
    pub fn describe(&self) -> &'static str {
        match self {
            Error::Io => "corpus unreadable",
            Error::Format => "empty or invalid corpus",
            Error::CacheCorrupt => "cache entry invalid",
            Error::GenerationExhausted => "length bounds unsatisfiable within retry budget",
        }
    }
}

} // verus!
