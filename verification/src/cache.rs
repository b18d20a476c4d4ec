//! The content-addressed cache entry: fingerprinting, framing, and
//! compression.
//!
//! An entry is one format-version byte, the 32-byte fingerprint of the
//! corpus and parameters, and the compressed model payload. A stored
//! entry is used only when version and fingerprint match exactly and the
//! payload decodes to a well-formed model; anything else is a miss.

use vstd::prelude::*;

use crate::codec::{enc_u64, encode_model, decode_model, parse_model, push_u64, encodable, lemma_codec_roundtrip};
use crate::hashing::{hex_chars_of, hex_lower, sha256, sha256_of};
use crate::model::{model_wf, Model, ModelV};

verus! {

/// Version byte of the cache entry format.
pub const FORMAT_VERSION: u8 = 1;

/// What zstd decompression yields for a byte sequence: the original
/// payload for a valid frame, nothing otherwise.
pub uninterp spec fn unzstd_of(b: Seq<u8>) -> Option<Seq<u8>>;

/// What zstd compression (at the default level) yields for a byte
/// sequence; a function of the input alone, so whether a payload
/// compresses at all is determined by the payload.
pub uninterp spec fn zstd_of(b: Seq<u8>) -> Option<Seq<u8>>;

/// Relies on zstd's `encode_all` (default level): the outcome depends on
/// the input alone, and compression is lossless, so `decode_all` on a
/// produced frame returns exactly the input.
#[verifier::external_body]
fn zstd_compress(bytes: &Vec<u8>) -> (r: Option<Vec<u8>>)
    ensures
        r is Some <==> zstd_of(bytes@) is Some,
        match r {
            Some(c) => unzstd_of(c@) == Some(bytes@),
            None => true,
        },
{
    match zstd::stream::encode_all(bytes.as_slice(), 0) {
        Ok(v) => Some(v),
        Err(_) => None,
    }
}

/// Relies on zstd's `decode_all`: returns the decompressed frame, and
/// fails exactly on input that is not a valid frame.
#[verifier::external_body]
fn zstd_decompress(bytes: &Vec<u8>) -> (r: Option<Vec<u8>>)
    ensures
        match r {
            Some(v) => unzstd_of(bytes@) == Some(v@),
            None => unzstd_of(bytes@) is None,
        },
{
    match zstd::stream::decode_all(bytes.as_slice()) {
        Ok(v) => Some(v),
        Err(_) => None,
    }
}

/// The fingerprint preimage: the parameters in fixed-width fields,
/// followed by the corpus bytes. Distinct parameters or corpora give
/// distinct preimages.
pub open spec fn fp_input(corpus: Seq<u8>, delim: u8, order: u64, prior: u64, backoff: bool) -> Seq<
    u8,
> {
    enc_u64(order) + enc_u64(prior) + seq![
        if backoff {
            1u8
        } else {
            0u8
        },
        delim,
    ] + corpus
}

/// The fingerprint of a corpus and its training parameters.
pub fn fingerprint(corpus: &Vec<u8>, delim: u8, order: u64, prior: u64, backoff: bool) -> (r: Vec<
    u8,
>)
    ensures
        r@ == sha256_of(fp_input(corpus@, delim, order, prior, backoff)),
        r@.len() == 32,
{
    let mut input: Vec<u8> = Vec::new();
    push_u64(&mut input, order);
    push_u64(&mut input, prior);
    if backoff {
        input.push(1u8);
    } else {
        input.push(0u8);
    }
    input.push(delim);
    let mut i: usize = 0;
    let ghost base = input@;
    while i < corpus.len()
        invariant
            i <= corpus@.len(),
            input@ =~= base + corpus@.subrange(0, i as int),
        decreases corpus.len() - i,
    {
        input.push(corpus[i]);
        proof {
            assert(input@ =~= base + corpus@.subrange(0, i + 1));
        }
        i += 1;
    }
    proof {
        assert(corpus@.subrange(0, corpus@.len() as int) =~= corpus@);
        assert(input@ =~= fp_input(corpus@, delim, order, prior, backoff));
    }
    sha256(&input)
}

/// The cache file stem derived from a fingerprint: its lowercase hex
/// spelling, so that distinct fingerprints use distinct paths.
pub fn cache_name(fp: &Vec<u8>) -> (r: String)
    ensures
        r@ == hex_chars_of(fp@),
{
    hex_lower(fp)
}

/// Law: the fingerprint preimage separates its inputs. Equal preimages
/// force equal order, prior, backoff flag, delimiter and corpus, so any
/// change of a training parameter changes the hashed input.
pub proof fn lemma_fp_input_sensitive(
    c1: Seq<u8>,
    d1: u8,
    o1: u64,
    p1: u64,
    b1: bool,
    c2: Seq<u8>,
    d2: u8,
    o2: u64,
    p2: u64,
    b2: bool,
)
    requires
        fp_input(c1, d1, o1, p1, b1) == fp_input(c2, d2, o2, p2, b2),
    ensures
        o1 == o2,
        p1 == p2,
        b1 == b2,
        d1 == d2,
        c1 == c2,
{
    let s1 = fp_input(c1, d1, o1, p1, b1);
    let s2 = fp_input(c2, d2, o2, p2, b2);
    vstd::bytes::lemma_auto_spec_u64_to_from_le_bytes();
    assert(s1.subrange(0, 8) =~= enc_u64(o1));
    assert(s2.subrange(0, 8) =~= enc_u64(o2));
    assert(vstd::bytes::spec_u64_from_le_bytes(enc_u64(o1)) == vstd::bytes::spec_u64_from_le_bytes(
        enc_u64(o2),
    ));
    assert(s1.subrange(8, 16) =~= enc_u64(p1));
    assert(s2.subrange(8, 16) =~= enc_u64(p2));
    assert(vstd::bytes::spec_u64_from_le_bytes(enc_u64(p1)) == vstd::bytes::spec_u64_from_le_bytes(
        enc_u64(p2),
    ));
    assert(s1[16] == (if b1 { 1u8 } else { 0u8 }));
    assert(s2[16] == (if b2 { 1u8 } else { 0u8 }));
    assert(s1[17] == d1 && s2[17] == d2);
    assert(c1 =~= s1.skip(18));
    assert(c2 =~= s2.skip(18));
}

/// Law: an entry written under one fingerprint is never accepted under a
/// different one, so a cache trained under other parameters (whose
/// preimage, and hence hash, differs) is treated as a miss.
pub proof fn lemma_mismatched_entry_is_miss(bytes: Seq<u8>, fp1: Seq<u8>, fp2: Seq<u8>, m: ModelV)
    requires
        entry_for(bytes, fp1, m),
        fp1 != fp2,
    ensures
        forall|mv: ModelV| !entry_for(bytes, fp2, mv),
{
}

/// Whether `bytes` is a cache entry that carries fingerprint `fp` and
/// stores exactly the model `m`.
pub open spec fn entry_for(bytes: Seq<u8>, fp: Seq<u8>, m: ModelV) -> bool {
    &&& bytes.len() >= 33
    &&& bytes[0] == FORMAT_VERSION
    &&& bytes.subrange(1, 33) == fp
    &&& match unzstd_of(bytes.skip(33)) {
        Some(payload) => parse_model(payload) == Some(m),
        None => false,
    }
}

/// Serialize and compress a model into a cache entry.
///
/// A produced entry always decodes back to this very model under the
/// same fingerprint. Whether an entry is produced at all is determined
/// by the payload: `None` exactly when compression declines it, which
/// callers treat as a non-fatal skipped store.
pub fn encode_entry(m: &Model, fp: &Vec<u8>) -> (r: Option<Vec<u8>>)
    requires
        model_wf(m@),
        fp@.len() == 32,
    ensures
        r is Some <==> zstd_of(crate::codec::enc_model(m@)) is Some,
        match r {
            Some(out) => entry_for(out@, fp@, m@),
            None => true,
        },
{
    let payload = encode_model(m);
    let mut k: usize = 0;
    while k < m.tables.len()
        invariant
            k <= m.tables@.len(),
            m@.tables.len() == m.tables@.len(),
            forall|x: int| 0 <= x < k ==> (#[trigger] m@.tables[x]).len() <= u64::MAX,
        decreases m.tables.len() - k,
    {
        let n = m.tables[k].entries.len();
        proof {
            assert(m@.tables[k as int].len() == m.tables@[k as int]@.len());
            assert(m.tables@[k as int]@.len() == n as int);
            assert(n as int <= u64::MAX);
        }
        k += 1;
    }
    proof {
        assert(encodable(m@));
        lemma_codec_roundtrip(m@);
    }
    let compressed = match zstd_compress(&payload) {
        Some(c) => c,
        None => {
            return None;
        },
    };
    let mut out: Vec<u8> = Vec::new();
    out.push(FORMAT_VERSION);
    let mut i: usize = 0;
    while i < fp.len()
        invariant
            i <= fp@.len(),
            out@ =~= seq![FORMAT_VERSION] + fp@.subrange(0, i as int),
        decreases fp.len() - i,
    {
        out.push(fp[i]);
        proof {
            assert(out@ =~= seq![FORMAT_VERSION] + fp@.subrange(0, i + 1));
        }
        i += 1;
    }
    let ghost head = out@;
    let mut j: usize = 0;
    while j < compressed.len()
        invariant
            j <= compressed@.len(),
            out@ =~= head + compressed@.subrange(0, j as int),
        decreases compressed.len() - j,
    {
        out.push(compressed[j]);
        proof {
            assert(out@ =~= head + compressed@.subrange(0, j + 1));
        }
        j += 1;
    }
    proof {
        assert(fp@.subrange(0, fp@.len() as int) =~= fp@);
        assert(compressed@.subrange(0, compressed@.len() as int) =~= compressed@);
        assert(out@.subrange(1, 33) =~= fp@);
        assert(out@.skip(33) =~= compressed@);
    }
    Some(out)
}

/// Validate and decode a cache entry against the expected fingerprint.
///
/// The result is the stored model exactly when the bytes are an entry
/// for that fingerprint; every mismatch, truncation or decode failure is
/// a miss (`None`), never an error.
pub fn decode_entry(bytes: &Vec<u8>, fp: &Vec<u8>) -> (r: Option<Model>)
    requires
        fp@.len() == 32,
    ensures
        match r {
            Some(m) => model_wf(m@) && entry_for(bytes@, fp@, m@),
            None => forall|mv: ModelV| model_wf(mv) ==> !entry_for(bytes@, fp@, mv),
        },
{
    if bytes.len() < 33 {
        return None;
    }
    if bytes[0] != FORMAT_VERSION {
        return None;
    }
    let mut i: usize = 0;
    while i < 32
        invariant
            i <= 32,
            bytes@.len() >= 33,
            fp@.len() == 32,
            forall|x: int| 0 <= x < i ==> bytes@[1 + x] == fp@[x],
        decreases 32 - i,
    {
        if bytes[1 + i] != fp[i] {
            proof {
                assert(bytes@.subrange(1, 33)[i as int] == bytes@[1 + i]);
                assert(bytes@.subrange(1, 33) != fp@);
            }
            return None;
        }
        i += 1;
    }
    proof {
        assert(bytes@.subrange(1, 33) =~= fp@);
    }
    let compressed = vstd::slice::slice_to_vec(
        vstd::slice::slice_subrange(bytes.as_slice(), 33, bytes.len()),
    );
    proof {
        assert(compressed@ =~= bytes@.skip(33));
    }
    let payload = match zstd_decompress(&compressed) {
        Some(p) => p,
        None => {
            return None;
        },
    };
    match decode_model(&payload) {
        Some(m) => Some(m),
        None => {
            proof {
                assert forall|mv: ModelV| model_wf(mv) implies !entry_for(bytes@, fp@, mv) by {
                    if entry_for(bytes@, fp@, mv) {
                        assert(parse_model(payload@) == Some(mv));
                    }
                }
            }
            None
        },
    }
}

} // verus!
