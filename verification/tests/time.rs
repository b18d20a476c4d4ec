use regex::Regex;

use synthgen::time::{create_timestamp_local, create_timestamp_utc, TimestampFormats};

#[test]
fn creates_timestamp_utc() {
    let timestamp = create_timestamp_utc(None);
    let string = String::from_utf8(timestamp).unwrap();
    let pattern = r"\d{4}-\d{2}-\d{2} \d{2}:\d{2}:\d{2}";
    let regex = Regex::new(pattern).unwrap();

    assert!(regex.is_match(&string), "assertion 'matches regular expression' failed\n\tpattern: {pattern}\n\thaystack: {string}");
}

#[test]
fn creates_iso8601_timestamp_utc() {
    let timestamp = create_timestamp_utc(Some(TimestampFormats::ISO8601));
    let string = String::from_utf8(timestamp).unwrap();
    let pattern = r"\d{4}-\d{2}-\d{2}T\d{2}:\d{2}:\d{2}\.\d{6,9}[+-]\d{2}:\d{2}";
    let regex = Regex::new(pattern).unwrap();

    assert!(regex.is_match(&string), "assertion 'matches regular expression' failed\n\tpattern: {pattern}\n\thaystack: {string}");
}

#[test]
fn creates_rfc2822_timestamp_utc() {
    let timestamp = create_timestamp_utc(Some(TimestampFormats::RFC2822));
    let string = String::from_utf8(timestamp).unwrap();
    let pattern = r"[a-zA-Z]{3}, \d{1,2} [a-zA-Z]{3} \d{4} \d{2}:\d{2}:\d{2} [+-]\d{4}";
    let regex = Regex::new(pattern).unwrap();

    assert!(regex.is_match(&string), "assertion 'matches regular expression' failed\n\tpattern: {pattern}\n\thaystack: {string}");
}

#[test]
fn creates_rfc3339_timestamp_utc() {
    let timestamp = create_timestamp_utc(Some(TimestampFormats::RFC3339));
    let string = String::from_utf8(timestamp).unwrap();
    let pattern = r"\d{4}-\d{2}-\d{2}T\d{2}:\d{2}:\d{2}\.\d{6,9}[+-]\d{2}:\d{2}";
    let regex = Regex::new(pattern).unwrap();

    assert!(regex.is_match(&string), "assertion 'matches regular expression' failed\n\tpattern: {pattern}\n\thaystack: {string}");
}

#[test]
fn creates_timestamp_local() {
    let timestamp = create_timestamp_local(None);
    let string = String::from_utf8(timestamp).unwrap();
    let pattern = r"\d{4}-\d{2}-\d{2} \d{2}:\d{2}:\d{2}";
    let regex = Regex::new(pattern).unwrap();

    assert!(regex.is_match(&string), "assertion 'matches regular expression' failed\n\tpattern: {pattern}\n\thaystack: {string}");
}

#[test]
fn creates_iso8601_timestamp_local() {
    let timestamp = create_timestamp_local(Some(TimestampFormats::ISO8601));
    let string = String::from_utf8(timestamp).unwrap();
    let pattern = r"\d{4}-\d{2}-\d{2}T\d{2}:\d{2}:\d{2}\.\d{6,9}[+-]\d{2}:\d{2}";
    let regex = Regex::new(pattern).unwrap();

    assert!(regex.is_match(&string), "assertion 'matches regular expression' failed\n\tpattern: {pattern}\n\thaystack: {string}");
}

#[test]
fn creates_rfc2822_timestamp_local() {
    let timestamp = create_timestamp_local(Some(TimestampFormats::RFC2822));
    let string = String::from_utf8(timestamp).unwrap();
    let pattern = r"[a-zA-Z]{3}, \d{1,2} [a-zA-Z]{3} \d{4} \d{2}:\d{2}:\d{2} [+-]\d{4}";
    let regex = Regex::new(pattern).unwrap();

    assert!(regex.is_match(&string), "assertion 'matches regular expression' failed\n\tpattern: {pattern}\n\thaystack: {string}");
}

#[test]
fn creates_rfc3339_timestamp_local() {
    let timestamp = create_timestamp_local(Some(TimestampFormats::RFC3339));
    let string = String::from_utf8(timestamp).unwrap();
    let pattern = r"\d{4}-\d{2}-\d{2}T\d{2}:\d{2}:\d{2}\.\d{6,9}[+-]\d{2}:\d{2}";
    let regex = Regex::new(pattern).unwrap();

    assert!(regex.is_match(&string), "assertion 'matches regular expression' failed\n\tpattern: {pattern}\n\thaystack: {string}");
}
