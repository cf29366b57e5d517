use base64::Engine;
use quaestor::entry::Entry;
use quaestor::flat::{to_flat_mapping, FlatMapping};
use quaestor::json::serialize;

fn enc(s: &str) -> String {
    base64::engine::general_purpose::STANDARD.encode(s)
}

fn entry(key: &str, value: &str, index: u64) -> Entry {
    Entry::new(key.to_string(), enc(value), index)
}

fn pairs(m: &FlatMapping) -> Vec<(String, String)> {
    m.pairs.clone()
}

#[test]
fn projects_entries_to_sorted_mapping() {
    let entries = vec![entry("b", "2", 1), entry("a", "1", 2), entry("c", "3", 3)];
    let m = to_flat_mapping(&entries);
    assert_eq!(
        pairs(&m),
        vec![
            ("a".to_string(), "1".to_string()),
            ("b".to_string(), "2".to_string()),
            ("c".to_string(), "3".to_string()),
        ]
    );
}

#[test]
fn projection_drops_undecodable_values() {
    let entries = vec![
        entry("a", "1", 1),
        Entry::new("bad".to_string(), "%%%".to_string(), 2),
        entry("c", "3", 3),
    ];
    let m = to_flat_mapping(&entries);
    assert_eq!(m.pairs.len(), 2);
    assert!(m.pairs.iter().all(|p| p.0 != "bad"));
}

#[test]
fn projection_keeps_the_later_duplicate() {
    let entries = vec![entry("k", "old", 1), entry("k", "new", 2)];
    let m = to_flat_mapping(&entries);
    assert_eq!(pairs(&m), vec![("k".to_string(), "new".to_string())]);
}

#[test]
fn set_pair_replaces_and_orders() {
    let mut m = FlatMapping::new();
    m.set_pair("b".to_string(), "2".to_string());
    m.set_pair("a".to_string(), "1".to_string());
    m.set_pair("b".to_string(), "22".to_string());
    assert_eq!(
        pairs(&m),
        vec![("a".to_string(), "1".to_string()), ("b".to_string(), "22".to_string())]
    );
}

#[test]
fn serializes_flat_object() {
    let mut m = FlatMapping::new();
    m.set_pair("a/b".to_string(), "1".to_string());
    m.set_pair("a/c".to_string(), "2".to_string());
    assert_eq!(serialize(&m), "{\"a/b\":\"1\",\"a/c\":\"2\"}");
}

#[test]
fn serializes_empty_mapping() {
    let m = FlatMapping::new();
    assert_eq!(serialize(&m), "{}");
}

#[test]
fn serializes_escapes() {
    let mut m = FlatMapping::new();
    m.set_pair("q".to_string(), "say \"hi\"\\now".to_string());
    m.set_pair("c".to_string(), "tab\there\nline\u{1}".to_string());
    assert_eq!(
        serialize(&m),
        "{\"c\":\"tab\\there\\nline\\u0001\",\"q\":\"say \\\"hi\\\"\\\\now\"}"
    );
}
