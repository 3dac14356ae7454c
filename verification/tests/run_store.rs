use cleargate_flow::clock::Timestamp;
use cleargate_flow::events::WriteEvent;
use cleargate_flow::executor::RunStatus;
use cleargate_flow::json::{JsonNumber, JsonValue};
use cleargate_flow::reconstruct::RunRecord;
use cleargate_flow::run_store::{
    batch_run_ids, count_runs_by_version, events_to_append, merge_run, select_runs, sort_by_seq, InMemoryRunStore,
    RunFilter,
};

const T: Timestamp = Timestamp { secs: 100, nanos: 0 };

fn num(n: u64) -> JsonValue {
    JsonValue::Number(JsonNumber::PosInt(n))
}

fn run_started(run: &str, seq: u64) -> WriteEvent {
    WriteEvent::RunStarted {
        seq,
        run_id: run.into(),
        flow_id: "flow-1".into(),
        version_id: "v1".into(),
        trigger_inputs: num(1),
        triggered_by: JsonValue::Null,
        config_hash: Some("hash123".into()),
        parent_run_id: None,
        timestamp: T,
    }
}

fn run_completed(run: &str, seq: u64) -> WriteEvent {
    WriteEvent::RunCompleted {
        seq,
        run_id: run.into(),
        status: RunStatus::Completed,
        duration_ms: 500,
        llm_summary: None,
        timestamp: T,
    }
}

fn node_started(run: &str, node: &str, seq: u64) -> WriteEvent {
    node_started_at(run, node, None, 1, seq)
}

fn node_started_at(run: &str, node: &str, fan: Option<u32>, attempt: u32, seq: u64) -> WriteEvent {
    WriteEvent::NodeStarted {
        seq,
        run_id: run.into(),
        node_id: node.into(),
        inputs: num(seq),
        fan_out_index: fan,
        attempt,
        timestamp: T,
    }
}

fn node_completed(run: &str, node: &str, seq: u64) -> WriteEvent {
    node_completed_at(run, node, None, seq)
}

fn node_completed_at(run: &str, node: &str, fan: Option<u32>, seq: u64) -> WriteEvent {
    WriteEvent::NodeCompleted {
        seq,
        run_id: run.into(),
        node_id: node.into(),
        outputs: num(seq * 10),
        fan_out_index: fan,
        duration_ms: 100,
        timestamp: T,
    }
}

fn node_failed(run: &str, node: &str, attempt: u32, seq: u64) -> WriteEvent {
    WriteEvent::NodeFailed {
        seq,
        run_id: run.into(),
        node_id: node.into(),
        error: "something broke".into(),
        will_retry: false,
        attempt,
        timestamp: T,
    }
}

fn edge_evaluated(run: &str, edge: &str, seq: u64) -> WriteEvent {
    WriteEvent::EdgeEvaluated {
        seq,
        run_id: run.into(),
        edge_id: edge.into(),
        condition: Some("finish_reason == 'stop'".into()),
        result: true,
        data_summary: JsonValue::Object(vec![]),
        timestamp: T,
    }
}

fn llm_invocation(run: &str, node: &str, seq: u64) -> WriteEvent {
    WriteEvent::LlmInvocation {
        seq,
        run_id: run.into(),
        node_id: node.into(),
        request: JsonValue::Str("hi".into()),
        response: JsonValue::Str("hello".into()),
        timestamp: T,
    }
}

fn custom_event(run: &str, seq: u64) -> WriteEvent {
    WriteEvent::Custom {
        seq,
        run_id: run.into(),
        node_id: Some("node-1".into()),
        name: "my_event".into(),
        data: JsonValue::Object(vec![("key".into(), JsonValue::Str("value".into()))]),
        timestamp: T,
    }
}

fn seqs(events: &[WriteEvent]) -> Vec<u64> {
    events.iter().map(|e| e.seq()).collect()
}

#[test]
fn store_write_batch_and_read() {
    let mut store = InMemoryRunStore::new();
    let events = vec![
        run_started("run-1", 1),
        node_started("run-1", "node-a", 2),
        node_completed("run-1", "node-a", 3),
        run_completed("run-1", 4),
    ];
    assert!(store.write_batch(&events).is_ok());
    let record = store.get_run("run-1").unwrap();
    assert_eq!(record.run_id, "run-1");
    assert_eq!(record.flow_id, "flow-1");
    assert_eq!(record.status, RunStatus::Completed);
    assert!(record.config_hash.is_some());
}

#[test]
fn store_idempotent_write() {
    let mut store = InMemoryRunStore::new();
    let events = vec![run_started("run-1", 1), run_completed("run-1", 2)];
    store.write_batch(&events).unwrap();
    store.write_batch(&events).unwrap();
    assert_eq!(store.events("run-1").len(), 2);
    assert_eq!(seqs(&store.events("run-1")), vec![1, 2]);
}

#[test]
fn store_get_node_results() {
    let mut store = InMemoryRunStore::new();
    let events = vec![
        run_started("run-1", 1),
        node_started("run-1", "node-a", 2),
        node_completed("run-1", "node-a", 3),
        node_started("run-1", "node-b", 4),
        node_failed("run-1", "node-b", 1, 5),
    ];
    store.write_batch(&events).unwrap();
    let results = store.get_node_results("run-1");
    assert_eq!(results.len(), 2);
    let a = results.iter().find(|r| r.node_id == "node-a").unwrap();
    assert_eq!(a.status, "completed");
    assert!(a.outputs.is_some());
    let b = results.iter().find(|r| r.node_id == "node-b").unwrap();
    assert_eq!(b.status, "failed");
    assert_eq!(b.error.as_deref(), Some("something broke"));
}

#[test]
fn store_get_edge_results() {
    let mut store = InMemoryRunStore::new();
    let events = vec![
        run_started("run-1", 1),
        edge_evaluated("run-1", "edge-1", 2),
        edge_evaluated("run-1", "edge-2", 3),
    ];
    store.write_batch(&events).unwrap();
    let results = store.get_edge_results("run-1");
    assert_eq!(results.len(), 2);
    assert!(results.iter().any(|r| r.edge_id == "edge-1"));
    assert!(results.iter().any(|r| r.edge_id == "edge-2"));
}

#[test]
fn store_get_llm_invocations_in_seq_order() {
    let mut store = InMemoryRunStore::new();
    let events = vec![
        run_started("run-1", 1),
        llm_invocation("run-1", "llm-1", 2),
        llm_invocation("run-1", "llm-2", 3),
        llm_invocation("run-1", "llm-1", 4),
    ];
    store.write_batch(&events).unwrap();
    let invocations = store.get_llm_invocations("run-1");
    assert_eq!(invocations.len(), 3);
    assert_eq!(invocations[0].node_id, "llm-1");
    assert_eq!(invocations[1].node_id, "llm-2");
    assert_eq!(invocations[2].node_id, "llm-1");
}

#[test]
fn store_get_llm_invocations_for_node() {
    let mut store = InMemoryRunStore::new();
    let events = vec![
        run_started("run-1", 1),
        llm_invocation("run-1", "llm-1", 2),
        llm_invocation("run-1", "llm-2", 3),
        llm_invocation("run-1", "llm-1", 4),
    ];
    store.write_batch(&events).unwrap();
    let invocations = store.get_llm_invocations_for_node("run-1", "llm-1");
    assert_eq!(invocations.len(), 2);
    assert!(invocations.iter().all(|r| r.node_id == "llm-1"));
}

#[test]
fn store_get_custom_events() {
    let mut store = InMemoryRunStore::new();
    let events = vec![run_started("run-1", 1), custom_event("run-1", 2)];
    store.write_batch(&events).unwrap();
    let customs = store.get_custom_events("run-1");
    assert_eq!(customs.len(), 1);
    assert_eq!(customs[0].name, "my_event");
    assert_eq!(customs[0].seq, 2);
}

#[test]
fn store_missing_run_returns_none() {
    let store = InMemoryRunStore::new();
    assert!(store.get_run("nonexistent").is_none());
    assert!(store.get_node_results("nonexistent").is_empty());
    assert!(store.events("nonexistent").is_empty());
    assert!(store.get_node_detail("nonexistent", "a").is_none());
}

#[test]
fn store_many_writes_to_one_run() {
    let mut store = InMemoryRunStore::new();
    store.write_batch(&vec![run_started("run-conc", 1)]).unwrap();
    for i in 0..10u64 {
        let node_id = format!("node-{i}");
        let seq = i + 10;
        let events = vec![
            node_started("run-conc", &node_id, seq * 2),
            node_completed("run-conc", &node_id, seq * 2 + 1),
        ];
        store.write_batch(&events).unwrap();
    }
    assert_eq!(store.events("run-conc").len(), 21);
    assert_eq!(store.get_node_results("run-conc").len(), 10);
}

#[test]
fn store_orders_events_by_seq_whatever_the_write_order() {
    let mut store = InMemoryRunStore::new();
    store
        .write_batch(&vec![run_completed("r", 4), node_started("r", "a", 2)])
        .unwrap();
    store
        .write_batch(&vec![node_completed("r", "a", 3), run_started("r", 1)])
        .unwrap();
    assert_eq!(seqs(&store.events("r")), vec![1, 2, 3, 4]);
    assert_eq!(store.get_run("r").unwrap().status, RunStatus::Completed);
}

#[test]
fn store_keeps_first_event_of_a_seq() {
    let mut store = InMemoryRunStore::new();
    store.write_batch(&vec![node_started("r", "a", 5)]).unwrap();
    store.write_batch(&vec![node_started("r", "b", 5)]).unwrap();
    let events = store.events("r");
    assert_eq!(events.len(), 1);
    match &events[0] {
        WriteEvent::NodeStarted { node_id, .. } => assert_eq!(node_id, "a"),
        _ => panic!("unexpected event"),
    }
}

#[test]
fn store_write_to_one_run_leaves_others() {
    let mut store = InMemoryRunStore::new();
    store
        .write_batch(&vec![run_started("r1", 1), run_started("r2", 1)])
        .unwrap();
    store.write_batch(&vec![run_completed("r1", 2)]).unwrap();
    assert_eq!(store.events("r2").len(), 1);
    assert_eq!(store.get_run("r2").unwrap().status, RunStatus::Running);
    assert_eq!(store.get_run("r1").unwrap().status, RunStatus::Completed);
}

#[test]
fn store_list_runs_filters_and_pages() {
    let mut store = InMemoryRunStore::new();
    let mut batch = Vec::new();
    for (i, run) in ["r3", "r1", "r2", "r4"].iter().enumerate() {
        batch.push(run_started(run, 1));
        if i % 2 == 0 {
            batch.push(run_completed(run, 2));
        }
    }
    store.write_batch(&batch).unwrap();
    let all = store.list_runs(&RunFilter {
        flow_id: None,
        status: None,
        version_id: None,
        parent_run_id: None,
        offset: None,
        limit: None,
    });
    assert_eq!(all.total, 4);
    let ids: Vec<&str> = all.runs.iter().map(|r| r.run_id.as_str()).collect();
    assert_eq!(ids, vec!["r1", "r2", "r3", "r4"]);

    let done = store.list_runs(&RunFilter {
        flow_id: Some("flow-1".into()),
        status: Some(RunStatus::Completed),
        version_id: None,
        parent_run_id: None,
        offset: None,
        limit: None,
    });
    assert_eq!(done.total, 2);
    let ids: Vec<&str> = done.runs.iter().map(|r| r.run_id.as_str()).collect();
    assert_eq!(ids, vec!["r2", "r3"]);

    let page = store.list_runs(&RunFilter {
        flow_id: None,
        status: None,
        version_id: None,
        parent_run_id: None,
        offset: Some(1),
        limit: Some(2),
    });
    assert_eq!(page.total, 4);
    let ids: Vec<&str> = page.runs.iter().map(|r| r.run_id.as_str()).collect();
    assert_eq!(ids, vec!["r2", "r3"]);

    let past_end = store.list_runs(&RunFilter {
        flow_id: Some("other".into()),
        status: None,
        version_id: None,
        parent_run_id: None,
        offset: Some(9),
        limit: None,
    });
    assert_eq!(past_end.total, 0);
    assert!(past_end.runs.is_empty());
}

#[test]
fn store_node_detail_keeps_one_attempt_per_key_in_key_order() {
    let mut store = InMemoryRunStore::new();
    let events = vec![
        node_started_at("r", "a", None, 2, 1),
        node_started_at("r", "a", Some(0), 1, 2),
        node_started_at("r", "a", None, 1, 3),
        node_started_at("r", "a", None, 1, 4),
        node_completed_at("r", "a", None, 5),
        node_failed("r", "a", 1, 6),
        node_started_at("r", "b", None, 1, 7),
    ];
    store.write_batch(&events).unwrap();
    let detail = store.get_node_detail("r", "a").unwrap();
    assert_eq!(detail.node_id, "a");
    let keys: Vec<(u32, Option<u32>)> = detail
        .attempts
        .iter()
        .map(|a| (a.attempt, a.fan_out_index))
        .collect();
    assert_eq!(keys, vec![(1, None), (1, Some(0)), (2, None)]);
    // The first start of a key sets its inputs.
    assert!(matches!(detail.attempts[0].inputs, JsonValue::Number(JsonNumber::PosInt(3))));
    // A completion finishes every attempt with its fan-out index.
    assert!(detail.attempts[0].outputs.is_some());
    assert!(detail.attempts[2].outputs.is_some());
    assert!(detail.attempts[1].outputs.is_none());
    // A failure lands on the attempt of its number without fan-out index.
    assert_eq!(detail.attempts[0].error.as_deref(), Some("something broke"));
    assert!(detail.attempts[2].error.is_none());
    assert!(store.get_node_detail("r", "missing").is_none());
}

#[test]
fn merge_run_sorts_and_skips_known_seqs() {
    let stored = vec![node_started("r", "a", 1), node_completed("r", "a", 4)];
    let batch = vec![
        node_started("r", "b", 3),
        node_started("other", "x", 2),
        node_completed("r", "b", 4),
        node_started("r", "c", 0),
    ];
    let merged = merge_run(stored, &batch, "r");
    assert_eq!(seqs(&merged), vec![0, 1, 3, 4]);
}

#[test]
fn batch_run_ids_in_first_seen_order() {
    let batch = vec![
        node_started("b", "x", 1),
        node_started("a", "x", 2),
        node_started("b", "y", 3),
    ];
    assert_eq!(batch_run_ids(&batch), vec!["b".to_string(), "a".to_string()]);
}

#[test]
fn events_to_append_skips_known_seqs_and_other_runs() {
    let existing = vec![run_started("r", 1), run_completed("r", 2)];
    let batch = vec![
        run_started("r", 1),
        node_started("r", "a", 3),
        node_started("q", "a", 4),
    ];
    assert_eq!(seqs(&events_to_append(&existing, &batch, "r")), vec![3]);
    assert_eq!(seqs(&events_to_append(&existing, &existing, "r")), Vec::<u64>::new());
}

#[test]
fn sort_by_seq_is_stable() {
    let events = vec![
        node_started("r", "late", 5),
        node_started("r", "first", 2),
        node_started("r", "second", 2),
        node_started("r", "early", 1),
    ];
    let sorted = sort_by_seq(events);
    let names: Vec<String> = sorted
        .iter()
        .map(|e| match e {
            WriteEvent::NodeStarted { node_id, .. } => node_id.clone(),
            _ => String::new(),
        })
        .collect();
    assert_eq!(names, vec!["early", "first", "second", "late"]);
}

fn record(run: &str, flow: &str, version: &str, parent: Option<&str>, status: RunStatus) -> RunRecord {
    RunRecord {
        run_id: run.into(),
        flow_id: flow.into(),
        version_id: version.into(),
        inputs: JsonValue::Null,
        triggered_by: JsonValue::Null,
        config_hash: None,
        parent_run_id: parent.map(|p| p.to_string()),
        started_at: None,
        status,
        duration_ms: None,
        llm_summary: None,
        completed_at: None,
    }
}

#[test]
fn select_runs_applies_all_four_filters() {
    let records = || {
        vec![
            record("a", "f1", "v1", None, RunStatus::Completed),
            record("b", "f1", "v2", Some("p"), RunStatus::Completed),
            record("c", "f2", "v1", Some("p"), RunStatus::Failed),
            record("d", "f1", "v2", Some("p"), RunStatus::Completed),
        ]
    };
    let filter = |version: Option<&str>, parent: Option<&str>, offset, limit| RunFilter {
        flow_id: Some("f1".into()),
        status: Some(RunStatus::Completed),
        version_id: version.map(|v| v.to_string()),
        parent_run_id: parent.map(|p| p.to_string()),
        offset,
        limit,
    };
    let page = select_runs(records(), &filter(Some("v2"), Some("p"), None, None));
    assert_eq!(page.total, 2);
    let ids: Vec<&str> = page.runs.iter().map(|r| r.run_id.as_str()).collect();
    assert_eq!(ids, vec!["b", "d"]);

    let page = select_runs(records(), &filter(None, None, Some(1), Some(1)));
    assert_eq!(page.total, 3);
    let ids: Vec<&str> = page.runs.iter().map(|r| r.run_id.as_str()).collect();
    assert_eq!(ids, vec!["b"]);

    let page = select_runs(records(), &filter(None, Some("q"), None, None));
    assert_eq!(page.total, 0);
}

#[test]
fn count_runs_by_version_tallies_one_flow_in_version_order() {
    let records = vec![
        record("a", "f1", "v2", None, RunStatus::Completed),
        record("b", "f1", "v1", None, RunStatus::Failed),
        record("c", "f2", "v1", None, RunStatus::Completed),
        record("d", "f1", "v2", None, RunStatus::Running),
        record("e", "f1", "v10", None, RunStatus::Running),
    ];
    let counts = count_runs_by_version(&records, "f1");
    assert_eq!(
        counts,
        vec![("v1".to_string(), 1), ("v10".to_string(), 1), ("v2".to_string(), 2)]
    );
    assert!(count_runs_by_version(&records, "none").is_empty());
}

#[test]
fn test_idempotent_write() {
    let batch = vec![run_started("run-1", 1), run_completed("run-1", 2)];
    let mut stored: Vec<WriteEvent> = Vec::new();
    let first = events_to_append(&stored, &batch, "run-1");
    assert_eq!(first.len(), 2);
    stored.extend(first);
    let second = events_to_append(&stored, &batch, "run-1");
    assert!(second.is_empty());
    assert_eq!(stored.len(), 2);
}
