use mgutil::codec::{decode, encode, encode_line, Bookmark, StoreError};

fn bm(alias: &str, kind: &str, value: &str) -> Bookmark {
    Bookmark {
        alias: alias.to_string(),
        kind: kind.to_string(),
        value: value.to_string(),
    }
}

#[test]
fn encode_exact() {
    assert_eq!(encode(&bm("a", "path", "/tmp")), "a;path;/tmp\n");
}

#[test]
fn encode_line_exact() {
    assert_eq!(encode_line(&bm("a", "path", "/tmp")), "a;path;/tmp");
}

#[test]
fn round_trip_plain_record() {
    let r = bm("x", "path", "/home/me");
    let line = encode_line(&r);
    assert_eq!(decode(&line).unwrap(), r);
}

#[test]
fn round_trip_through_encode() {
    let r = bm("docs", "path", "/home/me/Documents");
    let encoded = encode(&r);
    assert!(encoded.ends_with('\n'));
    let line = &encoded[..encoded.len() - 1];
    assert_eq!(decode(line).unwrap(), r);
}

#[test]
fn lossy_value_with_delimiters() {
    let r = bm("a", "path", "/x;/y;z");
    let line = encode_line(&r);
    assert_eq!(line, "a;path;/x;/y;z");
    let back = decode(&line).unwrap();
    // The split segments are rejoined with an empty separator: the
    // delimiters inside the value are dropped, not round-tripped.
    assert_eq!(back.value, "/x/yz");
    assert_ne!(back.value, r.value);
    assert_eq!(back.alias, "a");
    assert_eq!(back.kind, "path");
}

#[test]
fn decode_without_delimiter_is_malformed() {
    assert_eq!(decode("nodelimiter").unwrap_err(), StoreError::MalformedRecord);
}

#[test]
fn decode_empty_line_is_malformed() {
    assert_eq!(decode("").unwrap_err(), StoreError::MalformedRecord);
}

#[test]
fn decode_two_segments_gives_empty_value() {
    assert_eq!(decode("a;b").unwrap(), bm("a", "b", ""));
}

#[test]
fn decode_empty_segments() {
    assert_eq!(decode(";;").unwrap(), bm("", "", ""));
}

#[test]
fn error_kinds_are_distinct() {
    assert_ne!(StoreError::StorageUnavailable, StoreError::MalformedRecord);
}
