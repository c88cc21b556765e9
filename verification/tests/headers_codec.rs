use tstub::headers::build_headers;
use tstub::headers::unbuild_headers;
use tstub::headers::DecodeError;
use tstub::headers::Headers;

#[test]
fn round_trip_simple_mapping() {
    let mut h = Headers::new();
    h.insert("a".to_string(), "1".to_string());
    h.insert("b".to_string(), "2".to_string());
    let encoded = unbuild_headers(&h);
    assert_eq!(encoded, "a=1,b=2,");
    let decoded = build_headers(&encoded).unwrap();
    assert_eq!(decoded.entries(), h.entries());
}

#[test]
fn round_trip_unsorted_insertion() {
    let mut h = Headers::new();
    h.insert("zeta".to_string(), "26".to_string());
    h.insert("alpha".to_string(), "1".to_string());
    let encoded = unbuild_headers(&h);
    assert_eq!(encoded, "alpha=1,zeta=26,");
    let decoded = build_headers(&encoded).unwrap();
    assert_eq!(decoded.entries(), h.entries());
}

#[test]
fn empty_string_decodes_to_empty_mapping() {
    let h = build_headers("").unwrap();
    assert_eq!(h.len(), 0);
}

#[test]
fn trailing_comma_yields_no_empty_segment() {
    let h = build_headers("a=1,").unwrap();
    assert_eq!(h.len(), 1);
    assert_eq!(h.entries()[0].0, "a");
    assert_eq!(h.entries()[0].1, "1");
}

#[test]
fn no_trailing_comma_still_decodes() {
    let h = build_headers("a=1,b=2").unwrap();
    assert_eq!(h.len(), 2);
    assert_eq!(h.entries()[1].0, "b");
    assert_eq!(h.entries()[1].1, "2");
}

#[test]
fn decoding_sorts_keys_and_later_value_wins() {
    let h = build_headers("b=2,a=1,a=3,").unwrap();
    assert_eq!(h.len(), 2);
    assert_eq!(h.entries()[0].0, "a");
    assert_eq!(h.entries()[0].1, "3");
    assert_eq!(h.entries()[1].0, "b");
    assert_eq!(h.entries()[1].1, "2");
}

#[test]
fn segment_without_equals_is_malformed() {
    assert_eq!(
        build_headers("justakey").unwrap_err(),
        DecodeError::MalformedHeaderSegment
    );
}

#[test]
fn segment_with_two_equals_is_malformed() {
    assert_eq!(
        build_headers("a=1=2,").unwrap_err(),
        DecodeError::MalformedHeaderSegment
    );
}

#[test]
fn empty_segment_between_commas_is_malformed() {
    assert!(build_headers("a=1,,b=2,").is_err());
}

#[test]
fn empty_key_and_empty_value_round_trip() {
    let h = build_headers("=,").unwrap();
    assert_eq!(h.len(), 1);
    assert_eq!(h.entries()[0].0, "");
    assert_eq!(h.entries()[0].1, "");
    assert_eq!(unbuild_headers(&h), "=,");
}

#[test]
fn insert_replaces_value_under_same_key() {
    let mut h = Headers::new();
    h.insert("k".to_string(), "old".to_string());
    h.insert("k".to_string(), "new".to_string());
    assert_eq!(h.len(), 1);
    assert_eq!(h.entries()[0].1, "new");
}

#[test]
fn unicode_keys_and_values_round_trip() {
    let mut h = Headers::new();
    h.insert("ключ".to_string(), "значение".to_string());
    h.insert("键".to_string(), "值".to_string());
    let encoded = unbuild_headers(&h);
    let decoded = build_headers(&encoded).unwrap();
    assert_eq!(decoded.entries(), h.entries());
}
