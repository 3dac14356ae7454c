use cleargate_flow::json::{JsonNumber, JsonValue};
use cleargate_flow::redactor::Sensitivity;
use cleargate_flow::state::InMemoryState;

fn num(n: u64) -> JsonValue {
    JsonValue::Number(JsonNumber::PosInt(n))
}

fn as_num(v: &Option<JsonValue>) -> Option<u64> {
    match v {
        Some(JsonValue::Number(JsonNumber::PosInt(n))) => Some(*n),
        _ => None,
    }
}

fn as_text(v: &Option<JsonValue>) -> Option<String> {
    match v {
        Some(JsonValue::Str(s)) => Some(s.clone()),
        _ => None,
    }
}

#[test]
fn test_get_set() {
    let mut store = InMemoryState::new();
    store.set("run-1", "counter", num(42), Sensitivity::Public).unwrap();
    let val = store.get("run-1", "counter").unwrap();
    assert_eq!(as_num(&val), Some(42));
}

#[test]
fn test_get_missing() {
    let store = InMemoryState::new();
    assert!(store.get("run-1", "missing").unwrap().is_none());
}

#[test]
fn test_snapshot() {
    let mut store = InMemoryState::new();
    store.set("run-1", "a", num(1), Sensitivity::Public).unwrap();
    store.set("run-1", "b", num(2), Sensitivity::Secret).unwrap();
    let snap = store.snapshot("run-1").unwrap();
    assert_eq!(snap.len(), 2);
    let a = snap.iter().find(|(k, _)| k == "a").map(|(_, v)| v);
    let b = snap.iter().find(|(k, _)| k == "b").map(|(_, v)| v);
    assert!(matches!(a, Some(JsonValue::Number(JsonNumber::PosInt(1)))));
    assert!(matches!(b, Some(JsonValue::Number(JsonNumber::PosInt(2)))));
}

#[test]
fn test_restore() {
    let mut store = InMemoryState::new();
    store
        .set("run-1", "old_key", JsonValue::Str("old".into()), Sensitivity::Public)
        .unwrap();
    let snap = vec![("new_key".to_string(), JsonValue::Str("new".into()))];
    store.restore("run-1", snap).unwrap();
    assert!(store.get("run-1", "old_key").unwrap().is_none());
    assert_eq!(as_text(&store.get("run-1", "new_key").unwrap()).as_deref(), Some("new"));
}

#[test]
fn test_cleanup() {
    let mut store = InMemoryState::new();
    store
        .set("run-1", "key", JsonValue::Str("val".into()), Sensitivity::Public)
        .unwrap();
    store.cleanup("run-1").unwrap();
    assert!(store.get("run-1", "key").unwrap().is_none());
}

#[test]
fn state_set_overwrites_and_keeps_other_runs() {
    let mut store = InMemoryState::new();
    store.set("r1", "k", num(1), Sensitivity::Public).unwrap();
    store.set("r2", "k", num(2), Sensitivity::Pii).unwrap();
    store.set("r1", "k", num(3), Sensitivity::Public).unwrap();
    assert_eq!(as_num(&store.get("r1", "k").unwrap()), Some(3));
    assert_eq!(as_num(&store.get("r2", "k").unwrap()), Some(2));
    assert_eq!(store.snapshot("r1").unwrap().len(), 1);
    store.cleanup("r1").unwrap();
    assert_eq!(as_num(&store.get("r2", "k").unwrap()), Some(2));
    assert!(store.snapshot("r1").unwrap().is_empty());
}

#[test]
fn state_restore_later_pair_wins_and_snapshot_roundtrips() {
    let mut store = InMemoryState::new();
    store
        .restore(
            "r",
            vec![("k".to_string(), num(1)), ("j".to_string(), num(5)), ("k".to_string(), num(2))],
        )
        .unwrap();
    assert_eq!(as_num(&store.get("r", "k").unwrap()), Some(2));
    let snap = store.snapshot("r").unwrap();
    assert_eq!(snap.len(), 2);
    store.set("r", "extra", num(9), Sensitivity::Public).unwrap();
    store.restore("r", snap).unwrap();
    assert_eq!(as_num(&store.get("r", "k").unwrap()), Some(2));
    assert_eq!(as_num(&store.get("r", "j").unwrap()), Some(5));
    assert!(store.get("r", "extra").unwrap().is_none());
}
