use quaestor::flat::FlatMapping;
use quaestor::json::{parse_import_document, serialize};

fn parsed_pairs(s: &str) -> Vec<(String, String)> {
    parse_import_document(s).expect("expected a well-formed document").pairs
}

fn pair(k: &str, v: &str) -> (String, String) {
    (k.to_string(), v.to_string())
}

#[test]
fn parses_flat_object() {
    let got = parsed_pairs("{\"a/b\": \"1\", \"a/c\": \"2\"}");
    assert_eq!(got, vec![pair("a/b", "1"), pair("a/c", "2")]);
}

#[test]
fn parses_empty_object() {
    assert_eq!(parsed_pairs("  { }  "), Vec::<(String, String)>::new());
}

#[test]
fn parse_orders_keys_and_keeps_later_duplicate() {
    let got = parsed_pairs("{\"b\":\"2\",\"a\":\"1\",\"b\":\"22\"}");
    assert_eq!(got, vec![pair("a", "1"), pair("b", "22")]);
}

#[test]
fn parses_escapes() {
    let got = parsed_pairs("{\"k\":\"a\\\"b\\\\c\\/d\\n\\t\\r\\b\\f\"}");
    assert_eq!(got, vec![pair("k", "a\"b\\c/d\n\t\r\u{8}\u{c}")]);
}

#[test]
fn parses_unicode_escapes() {
    let got = parsed_pairs("{\"k\":\"\\u0041\\u00e9\"}");
    assert_eq!(got, vec![pair("k", "A\u{e9}")]);
    let got = parsed_pairs("{\"k\":\"\\ud83d\\ude00\"}");
    assert_eq!(got, vec![pair("k", "\u{1f600}")]);
}

#[test]
fn rejects_array_document() {
    assert!(parse_import_document("[\"x\",\"y\"]").is_err());
}

#[test]
fn rejects_nested_object() {
    assert!(parse_import_document("{\"a\":{\"b\":\"c\"}}").is_err());
}

#[test]
fn rejects_non_string_values() {
    assert!(parse_import_document("{\"a\":1}").is_err());
    assert!(parse_import_document("{\"a\":true}").is_err());
    assert!(parse_import_document("{\"a\":null}").is_err());
}

#[test]
fn rejects_malformed_text() {
    assert!(parse_import_document("").is_err());
    assert!(parse_import_document("{").is_err());
    assert!(parse_import_document("{\"a\":\"1\"").is_err());
    assert!(parse_import_document("{\"a\":\"1\",}").is_err());
    assert!(parse_import_document("{\"a\":\"1\"} trailing").is_err());
    assert!(parse_import_document("{\"a\":\"unterminated}").is_err());
    assert!(parse_import_document("{\"a\":\"bad\\q\"}").is_err());
    assert!(parse_import_document("{\"a\":\"lone\\ud800\"}").is_err());
}

#[test]
fn serialize_then_parse_round_trips() {
    let mut m = FlatMapping::new();
    m.set_pair("a/b".to_string(), "1".to_string());
    m.set_pair("weird".to_string(), "q\"\\\n\t\u{3}\u{1f600}".to_string());
    let text = serialize(&m);
    let back = parse_import_document(&text).expect("round trip parses");
    assert_eq!(back.pairs, m.pairs);
}
