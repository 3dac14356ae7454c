use cleargate_flow::adapter_session::{AdapterState, Recording};
use cleargate_flow::adapters::AdapterEvent;
use cleargate_flow::clock::Timestamp;
use cleargate_flow::json::{JsonNumber, JsonValue};
use cleargate_flow::llm_summary::compute_llm_summary;
use cleargate_flow::llm_call::{parse_llm_request, parse_llm_response};
use cleargate_flow::reconstruct::LlmInvocationRecord;
use cleargate_flow::sorted::{sorted_unique, text_less};

const T: Timestamp = Timestamp { secs: 0, nanos: 0 };

fn obj(entries: Vec<(&str, JsonValue)>) -> JsonValue {
    JsonValue::Object(entries.into_iter().map(|(k, v)| (k.to_string(), v)).collect())
}

fn num(n: u64) -> JsonValue {
    JsonValue::Number(JsonNumber::PosInt(n))
}

fn text(s: &str) -> JsonValue {
    JsonValue::Str(s.into())
}

#[test]
fn texts_order_by_code_points() {
    assert!(text_less("a", "b"));
    assert!(text_less("ab", "abc"));
    assert!(!text_less("abc", "ab"));
    assert!(!text_less("x", "x"));
    assert!(text_less("Z", "a"));
    assert!(text_less("z", "é"));
}

#[test]
fn sorted_unique_matches_sort_and_dedup() {
    let items: Vec<String> = ["gpt-4", "mistral", "gpt-4", "llama", "mistral", "Zeta", "é"]
        .iter()
        .map(|s| s.to_string())
        .collect();
    let mut expected = items.clone();
    expected.sort();
    expected.dedup();
    assert_eq!(sorted_unique(&items), expected);
    assert!(sorted_unique(&Vec::new()).is_empty());
}

fn record(model: &str, input: Option<u64>, output: Option<u64>, tools: &[&str]) -> LlmInvocationRecord {
    let mut response = vec![];
    if let Some(i) = input {
        response.push(("input_tokens", num(i)));
    }
    if let Some(o) = output {
        response.push(("output_tokens", num(o)));
    }
    if !tools.is_empty() {
        response.push((
            "tool_calls",
            JsonValue::Array(tools.iter().map(|t| obj(vec![("tool_name", text(t))])).collect()),
        ));
    }
    LlmInvocationRecord {
        run_id: "r".into(),
        node_id: "n".into(),
        request: obj(vec![("model", text(model))]),
        response: obj(response),
        timestamp: T,
    }
}

#[test]
fn llm_summary_counts_and_lists() {
    let records = vec![
        record("gpt-4o", Some(10), Some(5), &["search"]),
        record("mistral", Some(7), None, &["calc", "search"]),
        record("gpt-4o", None, Some(3), &[]),
    ];
    let s = compute_llm_summary(&records);
    assert_eq!(s.total_llm_calls, 3);
    assert_eq!(s.total_input_tokens, 17);
    assert_eq!(s.total_output_tokens, 8);
    assert_eq!(s.models_used, vec!["gpt-4o".to_string(), "mistral".to_string()]);
    assert_eq!(s.tools_invoked, vec!["calc".to_string(), "search".to_string()]);
}

#[test]
fn llm_summary_of_nothing() {
    let s = compute_llm_summary(&Vec::new());
    assert_eq!(s.total_llm_calls, 0);
    assert!(s.models_used.is_empty());
}

#[test]
fn session_pairs_llm_start_and_end() {
    let mut st = AdapterState::new();
    let r = st.handle_event(AdapterEvent::LlmStart {
        node_id: "llm-1".into(),
        request: obj(vec![("model", text("gpt-4"))]),
        timestamp: T,
    });
    assert!(r.is_none());
    let r = st.handle_event(AdapterEvent::LlmEnd {
        node_id: "llm-1".into(),
        response: obj(vec![("content", text("hi"))]),
        duration_ms: 200,
        timestamp: T,
    });
    match r {
        Some(Recording::LlmCall { node_id, request, duration_ms, .. }) => {
            assert_eq!(node_id, "llm-1");
            assert!(matches!(request.get("model"), Some(JsonValue::Str(m)) if m == "gpt-4"));
            assert_eq!(duration_ms, 200);
        }
        other => panic!("unexpected {other:?}"),
    }
    // A second end without a start records an empty request.
    let r = st.handle_event(AdapterEvent::LlmEnd {
        node_id: "llm-1".into(),
        response: JsonValue::Null,
        duration_ms: 1,
        timestamp: T,
    });
    assert!(matches!(r, Some(Recording::LlmCall { request: JsonValue::Object(ref m), .. }) if m.is_empty()));
}

#[test]
fn session_pairs_tools_and_names_step_ends() {
    let mut st = AdapterState::new();
    st.handle_event(AdapterEvent::ToolStart {
        node_id: "t".into(),
        tool_name: "search".into(),
        inputs: text("q"),
        timestamp: T,
    });
    let r = st.handle_event(AdapterEvent::ToolEnd {
        node_id: "t".into(),
        tool_name: "unknown".into(),
        outputs: text("r"),
        duration_ms: 3,
        timestamp: T,
    });
    assert!(matches!(r, Some(Recording::ToolCall { ref name, inputs: JsonValue::Str(ref i), .. }) if name == "search" && i == "q"));
    let r = st.handle_event(AdapterEvent::ToolEnd {
        node_id: "t".into(),
        tool_name: "fallback".into(),
        outputs: JsonValue::Null,
        duration_ms: 3,
        timestamp: T,
    });
    assert!(matches!(r, Some(Recording::ToolCall { ref name, .. }) if name == "fallback"));
    let r = st.handle_event(AdapterEvent::StepEnd { name: "init".into(), data: JsonValue::Null, timestamp: T });
    assert!(matches!(r, Some(Recording::Step { ref name, .. }) if name == "init_end"));
}

#[test]
fn session_topology_from_transitions() {
    let mut st = AdapterState::new();
    assert!(st.topology().is_none());
    st.handle_event(AdapterEvent::NodeTransition { from: "b".into(), to: "c".into(), timestamp: T });
    st.handle_event(AdapterEvent::NodeTransition { from: "a".into(), to: "b".into(), timestamp: T });
    let (nodes, edges) = st.topology().unwrap();
    assert_eq!(nodes, vec!["a".to_string(), "b".to_string(), "c".to_string()]);
    assert_eq!(edges.len(), 2);
    assert_eq!(edges[0], ("b".to_string(), "c".to_string()));
}

#[test]
fn session_records_the_parsed_llm_call() {
    let mut st = AdapterState::new();
    st.handle_event(AdapterEvent::LlmStart {
        node_id: "llm-1".into(),
        request: obj(vec![("model", text("gpt-4")), ("messages", JsonValue::Array(vec![]))]),
        timestamp: T,
    });
    let usage = obj(vec![
        ("prompt_tokens", JsonValue::Number(JsonNumber::PosInt(10))),
        ("completion_tokens", JsonValue::Number(JsonNumber::PosInt(5))),
    ]);
    let r = st.handle_event(AdapterEvent::LlmEnd {
        node_id: "llm-1".into(),
        response: obj(vec![("content", text("hi")), ("model", text("gpt-4")), ("usage", usage)]),
        duration_ms: 200,
        timestamp: T,
    });
    match r {
        Some(Recording::LlmCall { node_id, parsed_request, parsed_response, .. }) => {
            assert_eq!(node_id, "llm-1");
            assert_eq!(parsed_request.model, "gpt-4");
            assert_eq!(parsed_request.provider, "unknown");
            assert_eq!(parsed_response.input_tokens, Some(10));
            assert_eq!(parsed_response.output_tokens, Some(5));
            assert_eq!(parsed_response.total_tokens, None);
            assert_eq!(parsed_response.latency_ms, 200);
            assert_eq!(parsed_response.finish_reason, "stop");
            assert!(matches!(parsed_response.content, JsonValue::Str(ref s) if s == "hi"));
        }
        other => panic!("unexpected {other:?}"),
    }
}

#[test]
fn response_falls_back_to_text_and_stop_reason() {
    let raw = obj(vec![
        ("text", text("hello")),
        ("stop_reason", text("length")),
        ("id", text("req-7")),
        ("usage", obj(vec![("input_tokens", JsonValue::Number(JsonNumber::PosInt(3)))])),
    ]);
    let r = parse_llm_response(&raw, 9);
    assert!(matches!(r.content, JsonValue::Str(ref s) if s == "hello"));
    assert_eq!(r.finish_reason, "length");
    assert_eq!(r.provider_request_id.as_deref(), Some("req-7"));
    assert_eq!(r.input_tokens, Some(3));
    assert_eq!(r.model_used, "unknown");
    let q = parse_llm_request(&obj(vec![("provider", text("openai")), ("max_tokens", JsonValue::Number(JsonNumber::PosInt(4_294_967_297)))]));
    assert_eq!(q.provider, "openai");
    assert_eq!(q.max_tokens, Some(1));
    assert!(matches!(q.messages, JsonValue::Array(ref v) if v.is_empty()));
}
