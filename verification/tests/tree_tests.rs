use base64::Engine;
use quaestor::emit::emit_tree;
use quaestor::entry::Entry;
use quaestor::tree::{build_tree, Node};

fn enc(s: &str) -> String {
    base64::engine::general_purpose::STANDARD.encode(s)
}

fn entry(key: &str, value: &str, index: u64) -> Entry {
    Entry::new(key.to_string(), enc(value), index)
}

fn count_values(n: &Node) -> usize {
    let own = if n.value.is_some() { 1 } else { 0 };
    let below: usize = n.children.iter().map(|c| count_values(&c.1)).sum();
    own + below
}

fn child<'a>(n: &'a Node, name: &str) -> &'a Node {
    &n.children
        .iter()
        .find(|c| c.0 == name)
        .expect("missing child")
        .1
}

#[test]
fn builds_example_tree() {
    let entries = vec![entry("a/b", "1", 1), entry("a/c", "2", 2)];
    let root = build_tree(&entries);
    assert!(root.value.is_none());
    assert_eq!(root.children.len(), 1);
    let a = child(&root, "a");
    assert!(a.value.is_none());
    assert_eq!(a.children.len(), 2);
    assert_eq!(child(a, "b").value.as_deref(), Some("1"));
    assert_eq!(child(a, "c").value.as_deref(), Some("2"));
}

#[test]
fn value_and_children_coexist() {
    let entries = vec![entry("a", "va", 1), entry("a/b", "vb", 2)];
    let root = build_tree(&entries);
    let a = child(&root, "a");
    assert_eq!(a.value.as_deref(), Some("va"));
    assert_eq!(a.children.len(), 1);
    assert_eq!(child(a, "b").value.as_deref(), Some("vb"));
    assert_eq!(count_values(&root), 2);
}

#[test]
fn undecodable_entry_is_skipped() {
    let entries = vec![
        entry("x", "1", 1),
        Entry::new("y".to_string(), "!!!not-base64!!!".to_string(), 2),
        entry("z", "3", 3),
    ];
    let root = build_tree(&entries);
    assert_eq!(count_values(&root), 2);
    assert_eq!(child(&root, "x").value.as_deref(), Some("1"));
    assert_eq!(child(&root, "z").value.as_deref(), Some("3"));
    assert!(root.children.iter().all(|c| c.0 != "y"));
}

#[test]
fn invalid_utf8_entry_is_skipped() {
    let bad = base64::engine::general_purpose::STANDARD.encode([0xffu8, 0xfe]);
    let entries = vec![entry("x", "1", 1), Entry::new("y".to_string(), bad, 2)];
    let root = build_tree(&entries);
    assert_eq!(count_values(&root), 1);
}

#[test]
fn duplicate_key_last_write_wins() {
    let entries = vec![entry("k", "old", 1), entry("k", "new", 2)];
    let root = build_tree(&entries);
    assert_eq!(count_values(&root), 1);
    assert_eq!(child(&root, "k").value.as_deref(), Some("new"));
}

#[test]
fn children_are_sorted_whatever_the_input_order() {
    let forward = vec![entry("a", "1", 1), entry("b", "2", 2), entry("c", "3", 3)];
    let backward = vec![entry("c", "3", 3), entry("b", "2", 2), entry("a", "1", 1)];
    let t1 = build_tree(&forward);
    let t2 = build_tree(&backward);
    let names1: Vec<&str> = t1.children.iter().map(|c| c.0.as_str()).collect();
    let names2: Vec<&str> = t2.children.iter().map(|c| c.0.as_str()).collect();
    assert_eq!(names1, vec!["a", "b", "c"]);
    assert_eq!(names1, names2);
}

#[test]
fn emits_example_tree() {
    let entries = vec![entry("a/c", "2", 2), entry("a/b", "1", 1)];
    let root = build_tree(&entries);
    let lines = emit_tree(&root);
    assert_eq!(lines, vec!["a:", "    b: 1", "    c: 2"]);
}

#[test]
fn emission_is_stable_across_runs() {
    let e1 = vec![entry("s/x", "1", 1), entry("s", "top", 2), entry("s/y", "2", 3)];
    let e2 = vec![entry("s/y", "2", 3), entry("s/x", "1", 1), entry("s", "top", 2)];
    let l1 = emit_tree(&build_tree(&e1));
    let l2 = emit_tree(&build_tree(&e2));
    assert_eq!(l1, l2);
    assert_eq!(l1, vec!["s: top", "    x: 1", "    y: 2"]);
}

#[test]
fn empty_entry_list_gives_empty_tree() {
    let root = build_tree(&Vec::new());
    assert!(root.value.is_none());
    assert!(root.children.is_empty());
    assert!(emit_tree(&root).is_empty());
}
