//! Trusted digest and hex wrappers.
//!
//! Each digest is named by an uninterpreted function of the input bytes:
//! the value is computed outside, but it depends on the input alone, so
//! equal inputs always name the same digest.

use sha2::Digest;
use vstd::prelude::*;

verus! {

/// The SHA-256 digest of a byte sequence.
pub uninterp spec fn sha256_of(b: Seq<u8>) -> Seq<u8>;

/// The SHA-512 digest of a byte sequence.
pub uninterp spec fn sha512_of(b: Seq<u8>) -> Seq<u8>;

/// The SHA-1 digest of a byte sequence.
pub uninterp spec fn sha1_of(b: Seq<u8>) -> Seq<u8>;

/// The MD5 digest of a byte sequence.
pub uninterp spec fn md5_of(b: Seq<u8>) -> Seq<u8>;

/// The lowercase hex character of a value below sixteen.
pub open spec fn hex_digit_char(n: u8) -> char {
    if n == 0 {
        '0'
    } else if n == 1 {
        '1'
    } else if n == 2 {
        '2'
    } else if n == 3 {
        '3'
    } else if n == 4 {
        '4'
    } else if n == 5 {
        '5'
    } else if n == 6 {
        '6'
    } else if n == 7 {
        '7'
    } else if n == 8 {
        '8'
    } else if n == 9 {
        '9'
    } else if n == 10 {
        'a'
    } else if n == 11 {
        'b'
    } else if n == 12 {
        'c'
    } else if n == 13 {
        'd'
    } else if n == 14 {
        'e'
    } else {
        'f'
    }
}

/// Lowercase hex spelling of a byte sequence: two digits per byte, high
/// nibble first.
pub open spec fn hex_chars_of(b: Seq<u8>) -> Seq<char> {
    Seq::new(
        b.len() * 2,
        |i: int|
            if i % 2 == 0 {
                hex_digit_char(b[i / 2] >> 4)
            } else {
                hex_digit_char(b[i / 2] & 0xf)
            },
    )
}

/// Relies on sha2's `Sha256::digest`: 32 bytes, a function of the input
/// alone.
#[verifier::external_body]
pub(crate) fn sha256(bytes: &Vec<u8>) -> (r: Vec<u8>)
    ensures
        r@ == sha256_of(bytes@),
        r@.len() == 32,
{
    sha2::Sha256::digest(bytes.as_slice()).to_vec()
}

/// Relies on sha2's `Sha512::digest`: 64 bytes, a function of the input
/// alone.
#[verifier::external_body]
pub(crate) fn sha512(bytes: &Vec<u8>) -> (r: Vec<u8>)
    ensures
        r@ == sha512_of(bytes@),
        r@.len() == 64,
{
    sha2::Sha512::digest(bytes.as_slice()).to_vec()
}

/// Relies on sha1's `Sha1::digest`: 20 bytes, a function of the input
/// alone.
#[verifier::external_body]
pub(crate) fn sha1(bytes: &Vec<u8>) -> (r: Vec<u8>)
    ensures
        r@ == sha1_of(bytes@),
        r@.len() == 20,
{
    sha1::Sha1::digest(bytes.as_slice()).to_vec()
}

/// Relies on md-5's `Md5::digest`: 16 bytes, a function of the input
/// alone.
#[verifier::external_body]
pub(crate) fn md5(bytes: &Vec<u8>) -> (r: Vec<u8>)
    ensures
        r@ == md5_of(bytes@),
        r@.len() == 16,
{
    md5::Md5::digest(bytes.as_slice()).to_vec()
}

/// Relies on hex's `encode`: two lowercase digits per byte, high nibble
/// first.
#[verifier::external_body]
pub(crate) fn hex_lower(bytes: &Vec<u8>) -> (r: String)
    ensures
        r@ == hex_chars_of(bytes@),
{
    hex::encode(bytes.as_slice())
}

/// The four digests reported for an analyzed buffer, in lowercase hex.
pub struct HashSummary {
    pub md5: String,
    pub sha1: String,
    pub sha256: String,
    pub sha512: String,
}

/// Compute the digest report of a buffer.
pub fn hash_summary(buffer: &Vec<u8>) -> (r: HashSummary)
    ensures
        r.md5@ == hex_chars_of(md5_of(buffer@)),
        r.sha1@ == hex_chars_of(sha1_of(buffer@)),
        r.sha256@ == hex_chars_of(sha256_of(buffer@)),
        r.sha512@ == hex_chars_of(sha512_of(buffer@)),
{
    let d_md5 = md5(buffer);
    let d_sha1 = sha1(buffer);
    let d_sha256 = sha256(buffer);
    let d_sha512 = sha512(buffer);
    HashSummary {
        md5: hex_lower(&d_md5),
        sha1: hex_lower(&d_sha1),
        sha256: hex_lower(&d_sha256),
        sha512: hex_lower(&d_sha512),
    }
}

} // verus!
