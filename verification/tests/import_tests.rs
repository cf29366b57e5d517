use std::collections::HashMap;

use quaestor::flat::FlatMapping;
use quaestor::import::{
    plan_write, run_import, FailReason, FetchResult, ImportOutcome, KeyEvents, PutResult,
};

/// A toy versioned store: value and modification index per key.
struct ToyStore {
    data: HashMap<String, (String, u64)>,
    next_index: u64,
}

impl ToyStore {
    fn new() -> ToyStore {
        ToyStore { data: HashMap::new(), next_index: 1 }
    }

    fn fetch(&self, key: &str) -> FetchResult {
        match self.data.get(key) {
            Some((_, idx)) => FetchResult::Found(*idx),
            None => FetchResult::NotFound,
        }
    }

    fn put(&mut self, key: &str, value: &str, expected: u64) -> PutResult {
        let current = self.data.get(key).map(|(_, idx)| *idx).unwrap_or(0);
        if current != expected {
            return PutResult::Conflict;
        }
        let idx = self.next_index;
        self.next_index += 1;
        self.data.insert(key.to_string(), (value.to_string(), idx));
        PutResult::Done
    }
}

/// Drives one batch against the store the way the command-line front end
/// does: read, plan, conditionally write, record the events per key.
fn drive(desired: &FlatMapping, store: &mut ToyStore) -> ImportOutcome {
    let mut events = Vec::new();
    for (key, value) in &desired.pairs {
        let fetched = store.fetch(key);
        match plan_write(&fetched) {
            Err(_) => events.push(KeyEvents::FetchFailed),
            Ok(expected) => {
                let put = store.put(key, value, expected);
                events.push(match fetched {
                    FetchResult::NotFound => KeyEvents::Absent(put),
                    FetchResult::Found(i) => KeyEvents::Present(i, put),
                    FetchResult::Transport => unreachable!(),
                });
            }
        }
    }
    run_import(desired, &events)
}

fn desired_ab() -> FlatMapping {
    let mut m = FlatMapping::new();
    m.set_pair("a/b".to_string(), "1".to_string());
    m.set_pair("a/c".to_string(), "2".to_string());
    m
}

#[test]
fn plan_write_decides_the_expected_index() {
    assert_eq!(plan_write(&FetchResult::NotFound), Ok(0));
    assert_eq!(plan_write(&FetchResult::Found(7)), Ok(7));
    assert_eq!(plan_write(&FetchResult::Transport), Err(FailReason::Transport));
}

#[test]
fn import_into_empty_store_creates_all() {
    let mut store = ToyStore::new();
    let outcome = drive(&desired_ab(), &mut store);
    assert_eq!(outcome.created, 2);
    assert_eq!(outcome.updated, 0);
    assert!(outcome.failed.is_empty());
    assert_eq!(store.data.get("a/b").map(|p| p.0.clone()), Some("1".to_string()));
    assert_eq!(store.data.get("a/c").map(|p| p.0.clone()), Some("2".to_string()));
}

#[test]
fn rerunning_an_import_is_pure_update() {
    let mut store = ToyStore::new();
    let desired = desired_ab();
    let first = drive(&desired, &mut store);
    assert_eq!((first.created, first.updated), (2, 0));
    let second = drive(&desired, &mut store);
    assert_eq!(second.created, 0);
    assert_eq!(second.updated, 2);
    assert!(second.failed.is_empty());
}

#[test]
fn racing_write_fails_its_own_key_only() {
    let mut store = ToyStore::new();
    let desired = desired_ab();
    drive(&desired, &mut store);

    // Replay by hand, with another actor touching a/b between the
    // importer's read and its write.
    let mut events = Vec::new();
    for (key, value) in &desired.pairs {
        let fetched = store.fetch(key);
        let expected = plan_write(&fetched).unwrap();
        if key == "a/b" {
            store.put(key, "raced", store.data.get(key.as_str()).unwrap().1);
        }
        let put = store.put(key, value, expected);
        events.push(match fetched {
            FetchResult::NotFound => KeyEvents::Absent(put),
            FetchResult::Found(i) => KeyEvents::Present(i, put),
            FetchResult::Transport => unreachable!(),
        });
    }
    let outcome = run_import(&desired, &events);
    assert_eq!(outcome.created, 0);
    assert_eq!(outcome.updated, 1);
    assert_eq!(outcome.failed, vec![("a/b".to_string(), FailReason::Conflict)]);
    assert_eq!(store.data.get("a/b").unwrap().0, "raced");
    assert_eq!(store.data.get("a/c").unwrap().0, "2");
}

#[test]
fn unreachable_fetch_is_a_per_key_transport_failure() {
    let desired = desired_ab();
    let events = vec![KeyEvents::FetchFailed, KeyEvents::Absent(PutResult::Done)];
    let outcome = run_import(&desired, &events);
    assert_eq!(outcome.created, 1);
    assert_eq!(outcome.updated, 0);
    assert_eq!(outcome.failed, vec![("a/b".to_string(), FailReason::Transport)]);
}

#[test]
fn failed_write_is_a_per_key_transport_failure() {
    let desired = desired_ab();
    let events = vec![
        KeyEvents::Absent(PutResult::Transport),
        KeyEvents::Present(3, PutResult::Done),
    ];
    let outcome = run_import(&desired, &events);
    assert_eq!(outcome.created, 0);
    assert_eq!(outcome.updated, 1);
    assert_eq!(outcome.failed, vec![("a/b".to_string(), FailReason::Transport)]);
}

#[test]
fn empty_batch_reports_nothing() {
    let outcome = run_import(&FlatMapping::new(), &Vec::new());
    assert_eq!(outcome.created, 0);
    assert_eq!(outcome.updated, 0);
    assert!(outcome.failed.is_empty());
}
