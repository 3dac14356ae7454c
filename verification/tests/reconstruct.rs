use cleargate_flow::clock::Timestamp;
use cleargate_flow::events::WriteEvent;
use cleargate_flow::executor::RunStatus;
use cleargate_flow::json::{JsonNumber, JsonValue};
use cleargate_flow::reconstruct::{
    extract_custom_events, extract_edge_results, extract_llm_invocations, extract_node_detail,
    extract_node_results, reconstruct_run,
};

const T: Timestamp = Timestamp { secs: 100, nanos: 0 };

fn num(n: u64) -> JsonValue {
    JsonValue::Number(JsonNumber::PosInt(n))
}

fn started(node: &str, fan: Option<u32>, attempt: u32, seq: u64) -> WriteEvent {
    WriteEvent::NodeStarted {
        seq,
        run_id: "r1".into(),
        node_id: node.into(),
        inputs: num(seq),
        fan_out_index: fan,
        attempt,
        timestamp: T,
    }
}

fn completed(node: &str, fan: Option<u32>, seq: u64) -> WriteEvent {
    WriteEvent::NodeCompleted {
        seq,
        run_id: "r1".into(),
        node_id: node.into(),
        outputs: num(seq * 10),
        fan_out_index: fan,
        duration_ms: seq,
        timestamp: T,
    }
}

fn failed(node: &str, will_retry: bool, attempt: u32, seq: u64) -> WriteEvent {
    WriteEvent::NodeFailed {
        seq,
        run_id: "r1".into(),
        node_id: node.into(),
        error: format!("err{seq}"),
        will_retry,
        attempt,
        timestamp: T,
    }
}

#[test]
fn empty_events_have_no_record() {
    assert!(reconstruct_run("r1", &Vec::new()).is_none());
    assert!(extract_node_detail(&Vec::new(), "a").is_none());
}

#[test]
fn run_record_follows_start_and_completion() {
    let events = vec![
        WriteEvent::RunStarted {
            seq: 1,
            run_id: "r1".into(),
            flow_id: "flow-1".into(),
            version_id: "v1".into(),
            trigger_inputs: num(7),
            triggered_by: JsonValue::Null,
            config_hash: Some("hash123".into()),
            parent_run_id: None,
            timestamp: Timestamp { secs: 1, nanos: 0 },
        },
        started("a", None, 1, 2),
        WriteEvent::RunCompleted {
            seq: 3,
            run_id: "r1".into(),
            status: RunStatus::Completed,
            duration_ms: 500,
            llm_summary: None,
            timestamp: Timestamp { secs: 2, nanos: 0 },
        },
    ];
    let rec = reconstruct_run("r1", &events).unwrap();
    assert_eq!(rec.run_id, "r1");
    assert_eq!(rec.flow_id, "flow-1");
    assert_eq!(rec.version_id, "v1");
    assert_eq!(rec.config_hash.as_deref(), Some("hash123"));
    assert_eq!(rec.status, RunStatus::Completed);
    assert_eq!(rec.duration_ms, Some(500));
    assert_eq!(rec.started_at, Some(Timestamp { secs: 1, nanos: 0 }));
    assert_eq!(rec.completed_at, Some(Timestamp { secs: 2, nanos: 0 }));
}

#[test]
fn run_without_completion_is_running() {
    let events = vec![WriteEvent::RunStarted {
        seq: 1,
        run_id: "r1".into(),
        flow_id: "f".into(),
        version_id: "v".into(),
        trigger_inputs: JsonValue::Null,
        triggered_by: JsonValue::Null,
        config_hash: None,
        parent_run_id: Some("parent".into()),
        timestamp: T,
    }];
    let rec = reconstruct_run("r1", &events).unwrap();
    assert_eq!(rec.status, RunStatus::Running);
    assert_eq!(rec.parent_run_id.as_deref(), Some("parent"));
    assert!(rec.completed_at.is_none());
}

#[test]
fn node_results_keep_latest_state() {
    let events = vec![
        started("a", None, 1, 1),
        failed("a", true, 1, 2),
        started("a", None, 2, 3),
        completed("a", None, 4),
        started("b", None, 1, 5),
        failed("b", false, 1, 6),
        completed("ghost", None, 7),
    ];
    let results = extract_node_results(&events);
    assert_eq!(results.len(), 2);
    assert_eq!(results[0].node_id, "a");
    assert_eq!(results[0].status, "completed");
    assert_eq!(results[0].attempts, 2);
    assert_eq!(results[0].duration_ms, Some(4));
    assert!(results[0].error.is_none());
    assert_eq!(results[1].node_id, "b");
    assert_eq!(results[1].status, "failed");
    assert_eq!(results[1].error.as_deref(), Some("err6"));
}

#[test]
fn node_detail_pairs_attempts() {
    let events = vec![
        started("n", Some(0), 1, 1),
        started("n", Some(1), 1, 2),
        completed("n", Some(0), 3),
        failed("n", false, 1, 4),
        started("m", None, 1, 5),
    ];
    let d = extract_node_detail(&events, "n").unwrap();
    assert_eq!(d.node_id, "n");
    assert_eq!(d.attempts.len(), 2);
    assert!(matches!(d.attempts[0].outputs, Some(JsonValue::Number(JsonNumber::PosInt(30)))));
    assert_eq!(d.attempts[0].duration_ms, Some(3));
    assert!(d.attempts[0].error.is_none());
    assert_eq!(d.attempts[1].error.as_deref(), Some("err4"));
    assert!(d.attempts[1].outputs.is_none());
    assert!(extract_node_detail(&events, "zzz").is_none());
}

#[test]
fn cycles_give_one_attempt_per_start() {
    let events = vec![started("a", None, 1, 1), completed("a", None, 2), started("a", None, 1, 3), completed("a", None, 4)];
    let d = extract_node_detail(&events, "a").unwrap();
    assert_eq!(d.attempts.len(), 2);
    assert_eq!(d.attempts[0].duration_ms, Some(2));
    assert_eq!(d.attempts[1].duration_ms, Some(4));
}

#[test]
fn edges_customs_and_llm_calls_in_order() {
    let events = vec![
        WriteEvent::EdgeEvaluated {
            seq: 1,
            run_id: "r1".into(),
            edge_id: "e1".into(),
            condition: Some("x == 1".into()),
            result: true,
            data_summary: num(1),
            timestamp: T,
        },
        WriteEvent::Custom {
            seq: 2,
            run_id: "r1".into(),
            node_id: Some("a".into()),
            name: "progress".into(),
            data: num(50),
            timestamp: T,
        },
        WriteEvent::LlmInvocation {
            seq: 3,
            run_id: "r1".into(),
            node_id: "a".into(),
            request: JsonValue::Null,
            response: JsonValue::Null,
            timestamp: T,
        },
        WriteEvent::EdgeEvaluated {
            seq: 4,
            run_id: "r1".into(),
            edge_id: "e2".into(),
            condition: None,
            result: false,
            data_summary: JsonValue::Null,
            timestamp: T,
        },
    ];
    let edges = extract_edge_results(&events);
    assert_eq!(edges.len(), 2);
    assert_eq!(edges[0].edge_id, "e1");
    assert!(edges[0].result);
    assert_eq!(edges[1].edge_id, "e2");
    assert!(!edges[1].result);
    let customs = extract_custom_events(&events);
    assert_eq!(customs.len(), 1);
    assert_eq!(customs[0].name, "progress");
    assert_eq!(customs[0].seq, 2);
    let calls = extract_llm_invocations(&events);
    assert_eq!(calls.len(), 1);
    assert_eq!(calls[0].node_id, "a");
}

#[test]
fn node_detail_ignores_other_nodes() {
    let own = vec![started("n", None, 1, 1), failed("n", true, 1, 2), started("n", None, 2, 3), completed("n", None, 4)];
    let mixed = vec![
        started("m", None, 1, 10),
        started("n", None, 1, 1),
        completed("m", None, 11),
        failed("n", true, 1, 2),
        failed("m", false, 1, 12),
        started("n", None, 2, 3),
        started("m", None, 2, 13),
        completed("n", None, 4),
    ];
    let a = extract_node_detail(&own, "n").unwrap();
    let b = extract_node_detail(&mixed, "n").unwrap();
    assert_eq!(a.attempts.len(), 2);
    assert_eq!(b.attempts.len(), 2);
    for (x, y) in a.attempts.iter().zip(b.attempts.iter()) {
        assert_eq!(x.attempt, y.attempt);
        assert_eq!(x.error, y.error);
        assert_eq!(x.duration_ms, y.duration_ms);
    }
    assert_eq!(b.attempts[0].error.as_deref(), Some("err2"));
    assert_eq!(b.attempts[1].duration_ms, Some(4));
    assert!(extract_node_detail(&vec![started("m", None, 1, 1)], "n").is_none());
}
