//! Timestamp rendering in the formats the tool offers.
//!
//! The current instant comes from chrono and depends on the clock, so
//! nothing is claimed about the rendered bytes; the library's part is
//! the choice of rendering for each requested format.

use vstd::prelude::*;

verus! {

/// The timestamp renderings a caller may request besides the default
/// `YYYY-MM-DD HH:MM:SS` form.
#[derive(Debug, Copy, Clone, PartialEq, Eq, Structural, PartialOrd, Ord)]
pub enum TimestampFormats {
    ISO8601,
    RFC2822,
    RFC3339,
}

/// Relies on chrono's `Utc::now` and the `%F %T` rendering of it.
#[verifier::external_body]
fn now_utc_default() -> (r: Vec<u8>) {
    chrono::Utc::now().format("%F %T").to_string().into_bytes()
}

/// Relies on chrono's `Utc::now` and `DateTime::to_rfc2822`.
#[verifier::external_body]
fn now_utc_rfc2822() -> (r: Vec<u8>) {
    chrono::Utc::now().to_rfc2822().into_bytes()
}

/// Relies on chrono's `Utc::now` and `DateTime::to_rfc3339`.
#[verifier::external_body]
fn now_utc_rfc3339() -> (r: Vec<u8>) {
    chrono::Utc::now().to_rfc3339().into_bytes()
}

/// Relies on chrono's `Local::now` and the `%F %T` rendering of it.
#[verifier::external_body]
fn now_local_default() -> (r: Vec<u8>) {
    chrono::Local::now().format("%F %T").to_string().into_bytes()
}

/// Relies on chrono's `Local::now` and `DateTime::to_rfc2822`.
#[verifier::external_body]
fn now_local_rfc2822() -> (r: Vec<u8>) {
    chrono::Local::now().to_rfc2822().into_bytes()
}

/// Relies on chrono's `Local::now` and `DateTime::to_rfc3339`.
#[verifier::external_body]
fn now_local_rfc3339() -> (r: Vec<u8>) {
    chrono::Local::now().to_rfc3339().into_bytes()
}

/// The current UTC instant in the requested format; ISO 8601 requests
/// are served by the RFC 3339 rendering.
pub fn create_timestamp_utc(format: Option<TimestampFormats>) -> Vec<u8> {
    match format {
        Some(TimestampFormats::RFC2822) => now_utc_rfc2822(),
        Some(TimestampFormats::RFC3339) => now_utc_rfc3339(),
        Some(TimestampFormats::ISO8601) => now_utc_rfc3339(),
        None => now_utc_default(),
    }
}

/// The current local-time instant in the requested format; ISO 8601
/// requests are served by the RFC 3339 rendering.
pub fn create_timestamp_local(format: Option<TimestampFormats>) -> Vec<u8> {
    match format {
        Some(TimestampFormats::RFC2822) => now_local_rfc2822(),
        Some(TimestampFormats::RFC3339) => now_local_rfc3339(),
        Some(TimestampFormats::ISO8601) => now_local_rfc3339(),
        None => now_local_default(),
    }
}

} // verus!
