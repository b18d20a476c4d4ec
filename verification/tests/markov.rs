use synthgen::cache::{decode_entry, encode_entry, fingerprint};
use synthgen::codec::encode_model;
use synthgen::corpus::load_words;
use synthgen::facade::{resolve_model, should_read_cache, CacheControl, Generator, ModelParams};
use synthgen::model::{Model, TOKEN_END};
use synthgen::train::train;
use synthgen::Error;

use rand::rngs::StdRng;
use rand::SeedableRng;

fn corpus() -> Vec<u8> {
    b"ann\nanna\nanne".to_vec()
}

fn train_small(order: usize, prior: u64, backoff: bool) -> Model {
    let words = load_words(&corpus(), b'\n').unwrap();
    train(&words, order, prior, backoff).unwrap()
}

#[test]
fn splits_words_and_drops_empty_entries() {
    let words = load_words(&b"a,,bc,".to_vec(), b',').unwrap();
    assert_eq!(words, vec![b"a".to_vec(), b"bc".to_vec()]);
}

#[test]
fn empty_corpus_is_a_format_error() {
    assert_eq!(load_words(&b",,".to_vec(), b','), Err(Error::Format));
    assert_eq!(load_words(&Vec::new(), b','), Err(Error::Format));
}

#[test]
fn table_zero_holds_the_first_letter_distribution() {
    // All three corpus words start with 'a', observed three times.
    let m = train_small(2, 0, true);
    assert!(m.backoff);
    assert_eq!(m.tables.len(), 3);
    let t0 = &m.tables[0];
    assert_eq!(t0.entries.len(), 1);
    assert!(t0.entries[0].context.is_empty());
    assert_eq!(t0.entries[0].dist.pairs, vec![(b'a' as u16 + 2, 3u64)]);
}

#[test]
fn every_distribution_has_positive_total() {
    for (prior, backoff) in [(0u64, true), (3, true), (0, false), (2, false)] {
        let m = train_small(2, prior, backoff);
        for table in &m.tables {
            for entry in &table.entries {
                assert!(!entry.dist.pairs.is_empty());
                let mut total: u64 = 0;
                for (_, w) in &entry.dist.pairs {
                    assert!(*w >= 1);
                    total += w;
                }
                assert!(total > 0);
            }
        }
    }
}

#[test]
fn smoothing_reaches_every_vocabulary_token() {
    // prior 2: every distribution must offer 'a', 'n', 'e' and the end
    // sentinel, each with weight at least 2.
    let m = train_small(2, 2, true);
    for table in &m.tables {
        for entry in &table.entries {
            assert_eq!(entry.dist.pairs.len(), m.vocab.len() + 1);
            for tok in m.vocab.iter().copied().chain([TOKEN_END]) {
                let w = entry
                    .dist
                    .pairs
                    .iter()
                    .find(|(t, _)| *t == tok)
                    .map(|(_, w)| *w)
                    .unwrap();
                assert!(w >= 2);
            }
        }
    }
}

#[test]
fn training_is_deterministic() {
    let m1 = train_small(2, 1, true);
    let m2 = train_small(2, 1, true);
    assert_eq!(encode_model(&m1), encode_model(&m2));
}

#[test]
fn generated_lengths_stay_within_bounds() {
    let m = train_small(2, 0, true);
    let mut rng = StdRng::seed_from_u64(7);
    for _ in 0..50 {
        let out = m.generate(&mut rng, false, 3, 6).unwrap();
        assert!(out.len() >= 3 && out.len() <= 6);
        for b in &out {
            assert!(*b == b'a' || *b == b'n' || *b == b'e');
        }
    }
}

#[test]
fn fixed_seed_gives_one_reproducible_word() {
    let m = train_small(2, 0, true);
    let mut rng1 = StdRng::seed_from_u64(42);
    let mut rng2 = StdRng::seed_from_u64(42);
    let w1 = m.generate(&mut rng1, false, 3, 6).unwrap();
    let w2 = m.generate(&mut rng2, false, 3, 6).unwrap();
    assert_eq!(w1, w2);
    assert!(w1.starts_with(b"a"));
}

#[test]
fn capitalize_uppercases_only_the_first_byte() {
    let m = train_small(2, 0, true);
    let mut rng = StdRng::seed_from_u64(9);
    let out = m.generate(&mut rng, true, 3, 6).unwrap();
    assert_eq!(out[0], b'A');
    for b in &out[1..] {
        assert!(b.is_ascii_lowercase());
    }
}

#[test]
fn generation_exhausts_when_bounds_cannot_be_met() {
    // A one-word, one-letter corpus without backoff or prior always ends
    // after a single letter, so a three-letter minimum is unsatisfiable.
    let words = load_words(&b"a".to_vec(), b'\n').unwrap();
    let m = train(&words, 1, 0, false).unwrap();
    let mut rng = StdRng::seed_from_u64(1);
    assert_eq!(m.generate(&mut rng, false, 3, 3), Err(Error::GenerationExhausted));
}

#[test]
fn cache_round_trip_reproduces_the_model() {
    let m = train_small(2, 1, true);
    let fp = fingerprint(&corpus(), b'\n', 2, 1, true);
    let entry = encode_entry(&m, &fp).unwrap();
    let back = decode_entry(&entry, &fp).unwrap();
    assert_eq!(encode_model(&back), encode_model(&m));
    assert_eq!(back.vocab, m.vocab);
    for (t1, t2) in m.tables.iter().zip(back.tables.iter()) {
        assert_eq!(t1.entries.len(), t2.entries.len());
        for (e1, e2) in t1.entries.iter().zip(t2.entries.iter()) {
            assert_eq!(e1.context, e2.context);
            assert_eq!(e1.dist.pairs, e2.dist.pairs);
        }
    }
}

#[test]
fn fingerprint_is_sensitive_to_every_parameter() {
    let base = fingerprint(&corpus(), b'\n', 2, 0, true);
    assert_ne!(base, fingerprint(&corpus(), b'\n', 3, 0, true));
    assert_ne!(base, fingerprint(&corpus(), b'\n', 2, 1, true));
    assert_ne!(base, fingerprint(&corpus(), b'\n', 2, 0, false));
    assert_ne!(base, fingerprint(&corpus(), b',', 2, 0, true));
    assert_ne!(base, fingerprint(&b"ann\nanna".to_vec(), b'\n', 2, 0, true));
}

#[test]
fn fingerprint_matches_the_reference_digest() {
    let fp = fingerprint(&corpus(), b'\n', 2, 0, true);
    assert_eq!(
        hex_string(&fp),
        "b0482dfe1d5c8a1e5b292b55206f3f7c9b962a04f106834a4162874db17d5731"
    );
}

fn hex_string(bytes: &[u8]) -> String {
    bytes.iter().map(|b| format!("{b:02x}")).collect()
}

#[test]
fn entry_under_old_parameters_is_a_miss_under_new_ones() {
    let m = train_small(2, 0, true);
    let fp_old = fingerprint(&corpus(), b'\n', 2, 0, true);
    let fp_new = fingerprint(&corpus(), b'\n', 3, 0, true);
    let entry = encode_entry(&m, &fp_old).unwrap();
    assert!(decode_entry(&entry, &fp_old).is_some());
    assert!(decode_entry(&entry, &fp_new).is_none());
}

#[test]
fn corrupt_entries_are_misses_not_errors() {
    let m = train_small(2, 0, true);
    let fp = fingerprint(&corpus(), b'\n', 2, 0, true);
    let entry = encode_entry(&m, &fp).unwrap();
    // Truncation.
    assert!(decode_entry(&entry[..entry.len() - 1].to_vec(), &fp).is_none());
    assert!(decode_entry(&entry[..10].to_vec(), &fp).is_none());
    // A damaged payload byte.
    let mut damaged = entry.clone();
    let last = damaged.len() - 1;
    damaged[last] ^= 0xff;
    assert!(decode_entry(&damaged, &fp).is_none());
    // A different format version.
    let mut versioned = entry.clone();
    versioned[0] = versioned[0].wrapping_add(1);
    assert!(decode_entry(&versioned, &fp).is_none());
}

#[test]
fn no_cache_never_reads_or_offers_a_store() {
    let params = ModelParams { order: 2, prior: 0, backoff: true };
    let fp = fingerprint(&corpus(), b'\n', 2, 0, true);
    let m = train_small(2, 0, true);
    let valid = encode_entry(&m, &fp).unwrap();
    let cc = CacheControl { no_cache: true, rebuild_cache: false };
    assert!(!should_read_cache(cc));
    let res = resolve_model(&corpus(), b'\n', params, cc, Some(&valid)).unwrap();
    assert!(!res.from_cache);
    assert!(res.store.is_none());
    // The freshly trained model matches a plain training run bit for bit.
    assert_eq!(encode_model(&res.model), encode_model(&m));
}

#[test]
fn rebuild_retrains_and_offers_the_store() {
    let params = ModelParams { order: 2, prior: 0, backoff: true };
    let fp = fingerprint(&corpus(), b'\n', 2, 0, true);
    let m = train_small(2, 0, true);
    let valid = encode_entry(&m, &fp).unwrap();
    let cc = CacheControl { no_cache: false, rebuild_cache: true };
    assert!(!should_read_cache(cc));
    let res = resolve_model(&corpus(), b'\n', params, cc, Some(&valid)).unwrap();
    assert!(!res.from_cache);
    let store = res.store.expect("a rebuild offers the refreshed entry");
    let back = decode_entry(&store, &fp).unwrap();
    assert_eq!(encode_model(&back), encode_model(&res.model));
}

#[test]
fn valid_entry_is_used_and_nothing_is_stored() {
    let params = ModelParams { order: 2, prior: 0, backoff: true };
    let fp = fingerprint(&corpus(), b'\n', 2, 0, true);
    let m = train_small(2, 0, true);
    let valid = encode_entry(&m, &fp).unwrap();
    let cc = CacheControl { no_cache: false, rebuild_cache: false };
    let res = resolve_model(&corpus(), b'\n', params, cc, Some(&valid)).unwrap();
    assert!(res.from_cache);
    assert!(res.store.is_none());
    assert_eq!(encode_model(&res.model), encode_model(&m));
}

#[test]
fn corrupt_entry_triggers_retraining_and_a_store() {
    let params = ModelParams { order: 2, prior: 0, backoff: true };
    let fp = fingerprint(&corpus(), b'\n', 2, 0, true);
    let m = train_small(2, 0, true);
    let mut damaged = encode_entry(&m, &fp).unwrap();
    let last = damaged.len() - 1;
    damaged[last] ^= 0xff;
    let cc = CacheControl { no_cache: false, rebuild_cache: false };
    let res = resolve_model(&corpus(), b'\n', params, cc, Some(&damaged)).unwrap();
    assert!(!res.from_cache);
    assert!(res.store.is_some());
}

#[test]
fn generator_draws_through_a_shared_model() {
    let m = train_small(2, 0, true);
    let generator = Generator::new(m);
    let mut rng = StdRng::seed_from_u64(5);
    let out = generator.generate(&mut rng, false, 3, 6).unwrap();
    assert!(out.len() >= 3 && out.len() <= 6);
}

#[test]
fn error_descriptions_name_each_kind() {
    assert_eq!(Error::Io.describe(), "corpus unreadable");
    assert_eq!(Error::Format.describe(), "empty or invalid corpus");
    assert_eq!(Error::CacheCorrupt.describe(), "cache entry invalid");
    assert_eq!(
        Error::GenerationExhausted.describe(),
        "length bounds unsatisfiable within retry budget"
    );
}

#[test]
fn zero_minimum_with_positive_prior_always_succeeds() {
    // With a positive prior no walk can dead-end, and any length meets a
    // minimum of zero, so a draw is owed on the first attempt.
    let m = train_small(2, 1, true);
    let mut rng = StdRng::seed_from_u64(3);
    for _ in 0..20 {
        let out = m.generate(&mut rng, false, 0, 4).unwrap();
        assert!(out.len() <= 4);
    }
}
