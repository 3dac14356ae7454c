use cleargate_flow::handoff::AgentHandoff;
use cleargate_flow::blackboard::{read_error, AgentRole, Blackboard};
use cleargate_flow::errors::{NodeError, StateError};
use cleargate_flow::json::{JsonNumber, JsonValue};
use cleargate_flow::state::InMemoryState;

#[test]
fn keys_are_namespaced() {
    let bb = Blackboard::new("run-1".into());
    assert_eq!(bb.run_id, "run-1");
    assert_eq!(bb.full_key("researcher", "result"), "researcher:result");
}

#[test]
fn namespace_entries_strip_the_prefix() {
    let bb = Blackboard::new("run-1".into());
    let snapshot = vec![
        ("researcher:result".to_string(), JsonValue::Number(JsonNumber::PosInt(1))),
        ("writer:draft".to_string(), JsonValue::Null),
        ("researcher:notes".to_string(), JsonValue::Str("n".into())),
        ("researcherx:other".to_string(), JsonValue::Null),
    ];
    let entries = bb.namespace_entries(&snapshot, "researcher");
    let keys: Vec<&str> = entries.iter().map(|(k, _)| k.as_str()).collect();
    assert_eq!(keys, vec!["result", "notes"]);
    assert!(bb.namespace_entries(&snapshot, "nobody").is_empty());
}

#[test]
fn store_errors_become_fatal_node_errors() {
    let e = read_error(&StateError::Store { message: "down".into() });
    assert!(matches!(e, NodeError::Fatal { message } if message == "blackboard read error: state store error: down"));
}

#[test]
fn roles_compare() {
    assert_eq!(AgentRole::Supervisor, AgentRole::Supervisor);
    assert_ne!(AgentRole::Supervisor, AgentRole::Worker);
}

fn text(s: &str) -> JsonValue {
    JsonValue::Str(s.into())
}

fn as_text(v: &Option<JsonValue>) -> Option<&str> {
    match v {
        Some(JsonValue::Str(s)) => Some(s.as_str()),
        _ => None,
    }
}

fn make_blackboard() -> (Blackboard, InMemoryState) {
    (Blackboard::new("run-1".into()), InMemoryState::new())
}

#[test]
fn write_and_read() {
    let (bb, mut state) = make_blackboard();
    bb.write(&mut state, "researcher", "result", text("found it")).unwrap();
    let val = bb.read(&state, "researcher", "result").unwrap();
    assert_eq!(as_text(&val), Some("found it"));
}

#[test]
fn read_missing_returns_none() {
    let (bb, state) = make_blackboard();
    assert!(bb.read(&state, "researcher", "nonexistent").unwrap().is_none());
}

#[test]
fn namespace_isolation() {
    let (bb, mut state) = make_blackboard();
    bb.write(&mut state, "agent_a", "key", text("value_a")).unwrap();
    bb.write(&mut state, "agent_b", "key", text("value_b")).unwrap();
    assert_eq!(as_text(&bb.read(&state, "agent_a", "key").unwrap()), Some("value_a"));
    assert_eq!(as_text(&bb.read(&state, "agent_b", "key").unwrap()), Some("value_b"));
}

#[test]
fn read_all_filters_by_namespace() {
    let (bb, mut state) = make_blackboard();
    bb.write(&mut state, "researcher", "result_1", text("a")).unwrap();
    bb.write(&mut state, "researcher", "result_2", text("b")).unwrap();
    bb.write(&mut state, "writer", "draft", text("c")).unwrap();
    let data = bb.read_all(&state, "researcher").unwrap();
    assert_eq!(data.len(), 2);
    let get = |k: &str| data.iter().find(|(key, _)| key == k).map(|(_, v)| v);
    assert!(matches!(get("result_1"), Some(JsonValue::Str(s)) if s == "a"));
    assert!(matches!(get("result_2"), Some(JsonValue::Str(s)) if s == "b"));
}

#[test]
fn read_all_empty_namespace() {
    let (bb, state) = make_blackboard();
    assert!(bb.read_all(&state, "empty").unwrap().is_empty());
}

#[test]
fn overwrite_existing_key() {
    let (bb, mut state) = make_blackboard();
    bb.write(&mut state, "ns", "key", JsonValue::Number(JsonNumber::PosInt(1))).unwrap();
    bb.write(&mut state, "ns", "key", JsonValue::Number(JsonNumber::PosInt(2))).unwrap();
    assert!(matches!(
        bb.read(&state, "ns", "key").unwrap(),
        Some(JsonValue::Number(JsonNumber::PosInt(2)))
    ));
}

#[test]
fn blackboard_keys_live_in_the_run_state() {
    let (bb, mut state) = make_blackboard();
    bb.write(&mut state, "ns", "key", text("v")).unwrap();
    assert_eq!(as_text(&state.get("run-1", "ns:key").unwrap()), Some("v"));
    assert!(state.get("run-2", "ns:key").unwrap().is_none());
}

fn hobj(entries: Vec<(&str, JsonValue)>) -> JsonValue {
    JsonValue::Object(entries.into_iter().map(|(k, v)| (k.to_string(), v)).collect())
}

fn htext(s: &str) -> JsonValue {
    JsonValue::Str(s.to_string())
}

fn sample_handoff() -> AgentHandoff {
    AgentHandoff {
        from_agent: "supervisor".into(),
        to_agent: "researcher".into(),
        task: htext("Find information about Rust async patterns"),
        context: hobj(vec![("previous_findings", JsonValue::Array(vec![]))]),
        constraints: Some(hobj(vec![("max_sources", JsonValue::Number(JsonNumber::PosInt(5)))])),
    }
}

#[test]
fn serde_roundtrip() {
    let handoff = sample_handoff();
    let json = handoff.to_value();
    let deserialized = AgentHandoff::from_value(&json).unwrap();
    assert_eq!(deserialized.from_agent, "supervisor");
    assert_eq!(deserialized.to_agent, "researcher");
    assert!(matches!(deserialized.task, JsonValue::Str(ref s) if s == "Find information about Rust async patterns"));
    assert!(deserialized.constraints.is_some());
}

#[test]
fn serde_roundtrip_without_constraints() {
    let handoff = AgentHandoff {
        from_agent: "sup".into(),
        to_agent: "worker".into(),
        task: htext("do something"),
        context: hobj(vec![]),
        constraints: None,
    };
    let json = handoff.to_value();
    assert!(json.get("constraints").is_none());
    let deserialized = AgentHandoff::from_value(&json).unwrap();
    assert!(deserialized.constraints.is_none());
}

#[test]
fn from_node_output_extracts_handoff() {
    let handoff = sample_handoff();
    let output = hobj(vec![("_handoff", handoff.to_value()), ("other_data", htext("ignored"))]);
    let extracted = AgentHandoff::from_node_output(&output).unwrap();
    assert_eq!(extracted.from_agent, "supervisor");
    assert_eq!(extracted.to_agent, "researcher");
}

#[test]
fn from_node_output_returns_none_when_missing() {
    let output = hobj(vec![("content", htext("no handoff here"))]);
    assert!(AgentHandoff::from_node_output(&output).is_none());
}

#[test]
fn from_node_output_returns_none_on_invalid_shape() {
    let output = hobj(vec![("_handoff", htext("not an object"))]);
    assert!(AgentHandoff::from_node_output(&output).is_none());
}

#[test]
fn to_node_input_wraps_under_handoff_key() {
    let handoff = sample_handoff();
    let input = handoff.to_node_input();
    assert!(input.get("_handoff").is_some());
    let extracted = AgentHandoff::from_node_output(&input).unwrap();
    assert_eq!(extracted.from_agent, "supervisor");
}

#[test]
fn null_constraints_read_back_as_none() {
    let mut handoff = sample_handoff();
    handoff.constraints = Some(JsonValue::Null);
    let back = AgentHandoff::from_node_output(&handoff.to_node_input()).unwrap();
    assert!(back.constraints.is_none());
}

#[test]
fn namespaced_keys_do_not_collide_without_colons_in_namespaces() {
    let bb = Blackboard::new("run-1".into());
    assert_ne!(bb.full_key("a", "b:c"), bb.full_key("ab", "c"));
    assert_ne!(bb.full_key("x", "k"), bb.full_key("y", "k"));
    // A namespace holding `:` can collide, which is why the law excludes it.
    assert_eq!(bb.full_key("a:b", "c"), bb.full_key("a", "b:c"));
}
