use std::collections::VecDeque;

use cleargate_flow::attempt::{after_attempt, attempt_limit, AttemptOutcome, AttemptStep};
use cleargate_flow::errors::{ExecutorError, NodeError};
use cleargate_flow::executor::{status_from_str, NodeFinished, NodeOutcome, RunState, RunStatus};
use cleargate_flow::graph::{find_back_edges, Edge, GraphDef, NodeInstance};
use cleargate_flow::json::{JsonNumber, JsonValue};
use cleargate_flow::run::{find_entry_nodes, validate_node_types, ExecutorConfig};
use cleargate_flow::strset::StrSet;
use cleargate_flow::clock::Timestamp;
use cleargate_flow::events::WriteEvent;
use cleargate_flow::records::{
    attempt_events, evaluation_events, interrupted_event, node_started_event, run_completed_event, run_started_event,
};

fn node(id: &str) -> NodeInstance {
    NodeInstance { instance_id: id.into(), node_type: "passthrough".into(), config: JsonValue::Null }
}

fn edge(id: &str, from: &str, to: &str, condition: Option<&str>) -> Edge {
    Edge {
        id: id.into(),
        from_node: from.into(),
        from_port: "output".into(),
        to_node: to.into(),
        to_port: "input".into(),
        condition: condition.map(|c| c.to_string()),
    }
}

fn graph(nodes: &[&str], edges: Vec<Edge>) -> GraphDef {
    GraphDef { id: "flow".into(), nodes: nodes.iter().map(|n| node(n)).collect(), edges }
}

fn num(n: u64) -> JsonValue {
    JsonValue::Number(JsonNumber::PosInt(n))
}

fn obj(entries: Vec<(&str, JsonValue)>) -> JsonValue {
    JsonValue::Object(entries.into_iter().map(|(k, v)| (k.to_string(), v)).collect())
}

/// Conditions are the words `pass` and `fail`.
fn conditions(st: &RunState) -> Vec<bool> {
    st.graph
        .edges
        .iter()
        .map(|e| match &e.condition {
            None => true,
            Some(c) => st.output_ref(&e.from_node).is_some() && c == "pass",
        })
        .collect()
}

struct Trace {
    started: Vec<(String, Option<u32>)>,
    inputs: Vec<JsonValue>,
    status: RunStatus,
    state: RunState,
    records: Vec<WriteEvent>,
}

const NOW: Timestamp = Timestamp { secs: 1_700_000_000, nanos: 0 };

fn drive(
    g: GraphDef,
    inputs: JsonValue,
    max_traversals: u32,
    handler: impl Fn(&str, Option<u32>, &JsonValue) -> NodeOutcome,
) -> Trace {
    let (mut st, first) = RunState::start(g, inputs, max_traversals);
    let mut queue: VecDeque<_> = first.into_iter().collect();
    let mut started = Vec::new();
    let mut seen_inputs = Vec::new();
    let mut records = Vec::new();
    let mut steps = 0;
    while let Some(req) = queue.pop_front() {
        steps += 1;
        assert!(steps < 1000, "run does not end");
        let launch = st.launch(&req).expect("node exists");
        started.push((req.node_id.clone(), req.fan_out_index));
        records.push(node_started_event(records.len() as u64, "run-1", &req.node_id, &launch.inputs, req.fan_out_index, 1, NOW));
        let outcome = handler(&req.node_id, req.fan_out_index, &launch.inputs);
        let step = match &outcome {
            NodeOutcome::Success(v) => after_attempt(1, 1, AttemptOutcome::Succeeded(v.duplicate()), 1000),
            NodeOutcome::Failed(m) => AttemptStep::Failed { message: m.clone(), will_retry: false },
        };
        records.extend(attempt_events(records.len() as u64, "run-1", &req.node_id, req.fan_out_index, 1, &step, 5, NOW));
        seen_inputs.push(launch.inputs);
        let (completion, spawns) = st.record_finish(NodeFinished {
            node_id: req.node_id.clone(),
            fan_out_index: req.fan_out_index,
            outcome,
        });
        queue.extend(spawns);
        if let Some(c) = completion {
            let conds = conditions(&st);
            let (evals, spawns) = st.advance(&c, &conds);
            let first = records.len() as u64;
            records.extend(evaluation_events(&evals, first, "run-1", NOW));
            queue.extend(spawns);
        }
    }
    let status = st.final_status(false);
    Trace { started, inputs: seen_inputs, status, state: st, records }
}

fn count_records(t: &Trace, kind: &str, node: &str) -> usize {
    t.records
        .iter()
        .filter(|r| match (kind, r) {
            ("started", WriteEvent::NodeStarted { node_id, .. }) => node_id == node,
            ("completed", WriteEvent::NodeCompleted { node_id, .. }) => node_id == node,
            ("failed", WriteEvent::NodeFailed { node_id, .. }) => node_id == node,
            _ => false,
        })
        .count()
}

#[test]
fn partial_failure_records_one_failure_and_one_completion() {
    let g = graph(&["A", "B", "C"], vec![edge("e1", "A", "B", None), edge("e2", "A", "C", None)]);
    let t = drive(g, obj(vec![]), 50, |id, _, inputs| {
        if id == "B" {
            NodeOutcome::Failed("fatal error: boom".into())
        } else {
            NodeOutcome::Success(inputs.duplicate())
        }
    });
    assert_eq!(count_records(&t, "failed", "B"), 1);
    assert_eq!(count_records(&t, "completed", "B"), 0);
    assert_eq!(count_records(&t, "completed", "C"), 1);
    let checkpoints: Vec<&str> = t
        .records
        .iter()
        .filter_map(|r| match r {
            WriteEvent::Checkpoint { node_id, .. } => Some(node_id.as_str()),
            _ => None,
        })
        .collect();
    assert_eq!(checkpoints, vec!["A", "C"]);
    assert_eq!(t.status, RunStatus::Failed);
}

#[test]
fn fan_out_partial_failure_records_each_instance() {
    let g = graph(&["A", "B"], vec![edge("e1", "A", "B", None)]);
    let t = drive(g, obj(vec![]), 50, |id, _, inputs| match id {
        "A" => NodeOutcome::Success(obj(vec![("output", JsonValue::Array(vec![num(1), num(2), num(3)]))])),
        _ => match inputs {
            JsonValue::Number(JsonNumber::PosInt(2)) => NodeOutcome::Failed("fatal error: two".into()),
            other => NodeOutcome::Success(obj(vec![("result", other.duplicate())])),
        },
    });
    let indexes: Vec<Option<u32>> = t
        .records
        .iter()
        .filter_map(|r| match r {
            WriteEvent::NodeStarted { node_id, fan_out_index, .. } if node_id == "B" => Some(*fan_out_index),
            _ => None,
        })
        .collect();
    assert_eq!(indexes, vec![Some(0), Some(1), Some(2)]);
    assert_eq!(count_records(&t, "completed", "B"), 2);
    assert_eq!(count_records(&t, "failed", "B"), 1);
    assert_eq!(t.status, RunStatus::Completed);
}

#[test]
fn edge_evaluation_records_carry_condition_and_data() {
    let g = graph(
        &["A", "B", "C"],
        vec![edge("e1", "A", "B", Some("pass")), edge("e2", "A", "C", Some("fail"))],
    );
    let t = drive(g, obj(vec![("x", num(7))]), 50, passthrough);
    let evals: Vec<(String, Option<String>, bool, JsonValue)> = t
        .records
        .iter()
        .filter_map(|r| match r {
            WriteEvent::EdgeEvaluated { edge_id, condition, result, data_summary, .. } => {
                Some((edge_id.clone(), condition.clone(), *result, data_summary.duplicate()))
            }
            _ => None,
        })
        .collect();
    assert_eq!(evals.len(), 2);
    assert_eq!(evals[0].0, "e1");
    assert_eq!(evals[0].1.as_deref(), Some("pass"));
    assert!(evals[0].2);
    assert!(matches!(evals[0].3.get("x"), Some(JsonValue::Number(JsonNumber::PosInt(7)))));
    let seqs: Vec<u64> = t.records.iter().map(|r| r.seq()).collect();
    assert_eq!(seqs, (0..seqs.len() as u64).collect::<Vec<u64>>());
    assert_eq!(evals[1].0, "e2");
    assert_eq!(evals[1].1.as_deref(), Some("fail"));
    assert!(!evals[1].2);
}

#[test]
fn finish_reports_status_and_no_summary_without_llm_calls() {
    let g = graph(&["A"], vec![]);
    let t = drive(g, obj(vec![]), 50, passthrough);
    let (status, summary) = t.state.finish(false, &Vec::new());
    assert_eq!(status, RunStatus::Completed);
    assert!(summary.is_none());
    let done = run_completed_event(9, "run-1", status, 10, None, NOW);
    assert!(matches!(done, WriteEvent::RunCompleted { status: RunStatus::Completed, llm_summary: None, .. }));
}

fn passthrough(_: &str, _: Option<u32>, inputs: &JsonValue) -> NodeOutcome {
    NodeOutcome::Success(inputs.duplicate())
}

fn names(t: &Trace) -> Vec<&str> {
    t.started.iter().map(|(n, _)| n.as_str()).collect()
}

#[test]
fn linear_flow_runs_in_order_and_completes() {
    let g = graph(&["a", "b", "c"], vec![edge("e1", "a", "b", None), edge("e2", "b", "c", None)]);
    let t = drive(g, obj(vec![("value", num(1))]), 50, passthrough);
    assert_eq!(names(&t), vec!["a", "b", "c"]);
    assert_eq!(t.status, RunStatus::Completed);
    for i in &t.inputs {
        assert!(matches!(i.get("value"), Some(JsonValue::Number(JsonNumber::PosInt(1)))));
    }
}

#[test]
fn branching_runs_only_the_passing_branch() {
    let g = graph(
        &["A", "B", "C"],
        vec![edge("e1", "A", "B", Some("pass")), edge("e2", "A", "C", Some("fail"))],
    );
    let t = drive(g, obj(vec![]), 50, passthrough);
    assert_eq!(names(&t), vec!["A", "B"]);
}

#[test]
fn deadlock_is_a_failed_run() {
    let g = graph(&["A", "B", "C"], vec![edge("e1", "B", "C", None), edge("e2", "C", "B", None)]);
    let t = drive(g, obj(vec![]), 50, passthrough);
    assert_eq!(names(&t), vec!["A"]);
    assert_eq!(t.status, RunStatus::Failed);
}

#[test]
fn self_loop_stops_at_the_traversal_limit() {
    let g = graph(&["A"], vec![edge("e1", "A", "A", None)]);
    let t = drive(g, obj(vec![("value", num(1))]), 3, passthrough);
    assert_eq!(names(&t), vec!["A", "A", "A", "A"]);
    assert_eq!(t.status, RunStatus::Completed);
    assert_eq!(t.state.counts, vec![3]);
}

#[test]
fn diamond_joins_after_both_branches() {
    let g = graph(
        &["a", "b", "c", "d"],
        vec![
            edge("e1", "a", "b", None),
            edge("e2", "a", "c", None),
            edge("e3", "b", "d", None),
            edge("e4", "c", "d", None),
        ],
    );
    let t = drive(g, obj(vec![]), 50, passthrough);
    assert_eq!(names(&t), vec!["a", "b", "c", "d"]);
    assert_eq!(t.status, RunStatus::Completed);
}

#[test]
fn failure_lets_a_join_with_a_completed_source_run() {
    let g = graph(&["A", "C", "B"], vec![edge("e1", "A", "B", None), edge("e2", "C", "B", None)]);
    let t = drive(g, obj(vec![]), 50, |id, _, inputs| {
        if id == "A" {
            NodeOutcome::Failed("boom".into())
        } else {
            NodeOutcome::Success(inputs.duplicate())
        }
    });
    assert_eq!(names(&t), vec!["A", "C", "B"]);
    assert_eq!(t.status, RunStatus::Failed);
}

#[test]
fn failure_of_the_only_source_blocks_the_target() {
    let g = graph(&["A", "B"], vec![edge("e1", "A", "B", None)]);
    let t = drive(g, obj(vec![]), 50, |_, _, _| NodeOutcome::Failed("boom".into()));
    assert_eq!(names(&t), vec!["A"]);
    assert_eq!(t.status, RunStatus::Failed);
}

#[test]
fn fan_out_runs_one_instance_per_item_and_merges_in_order() {
    let g = graph(&["A", "B", "C"], vec![edge("e1", "A", "B", None), edge("e2", "B", "C", None)]);
    let t = drive(g, obj(vec![]), 50, |id, idx, inputs| match id {
        "A" => NodeOutcome::Success(obj(vec![("output", JsonValue::Array(vec![num(1), num(2), num(3)]))])),
        "B" => match (idx, inputs) {
            (Some(1), _) => NodeOutcome::Failed("bad item".into()),
            (Some(_), JsonValue::Number(JsonNumber::PosInt(n))) => NodeOutcome::Success(num(n * 10)),
            _ => NodeOutcome::Failed("unexpected".into()),
        },
        _ => NodeOutcome::Success(inputs.duplicate()),
    });
    assert_eq!(
        t.started,
        vec![
            ("A".to_string(), None),
            ("B".to_string(), Some(0)),
            ("B".to_string(), Some(1)),
            ("B".to_string(), Some(2)),
            ("C".to_string(), None)
        ]
    );
    // C gets the merged array, not a second fan-out.
    match &t.inputs[4] {
        JsonValue::Array(items) => {
            assert_eq!(items.len(), 3);
            assert!(matches!(items[0], JsonValue::Number(JsonNumber::PosInt(10))));
            assert!(matches!(items[1].get("error"), Some(JsonValue::Str(s)) if s == "bad item"));
            assert!(matches!(items[1].get("fan_out_index"), Some(JsonValue::Number(JsonNumber::PosInt(1)))));
            assert!(matches!(items[2], JsonValue::Number(JsonNumber::PosInt(30))));
        }
        other => panic!("unexpected {other:?}"),
    }
    assert_eq!(t.status, RunStatus::Completed);
}

#[test]
fn several_inputs_are_gathered_by_port() {
    let mut e1 = edge("e1", "x", "z", None);
    e1.to_port = "left".into();
    let mut e2 = edge("e2", "y", "z", None);
    e2.to_port = "right".into();
    let g = graph(&["x", "y", "z"], vec![e1, e2]);
    let t = drive(g, obj(vec![]), 50, |id, _, inputs| match id {
        "x" => NodeOutcome::Success(obj(vec![("output", num(1))])),
        "y" => NodeOutcome::Success(num(2)),
        _ => NodeOutcome::Success(inputs.duplicate()),
    });
    assert_eq!(names(&t), vec!["x", "y", "z"]);
    let zin = &t.inputs[2];
    assert!(matches!(zin.get("left"), Some(JsonValue::Number(JsonNumber::PosInt(1)))));
    assert!(matches!(zin.get("right"), Some(JsonValue::Number(JsonNumber::PosInt(2)))));
}

#[test]
fn back_edges_and_entry_nodes_of_a_loop() {
    // a -> b -> c -> b: the edge c -> b closes the cycle.
    let g = graph(
        &["a", "b", "c"],
        vec![edge("e1", "a", "b", None), edge("e2", "b", "c", None), edge("e3", "c", "b", None)],
    );
    let back = find_back_edges(&g);
    assert!(back.contains("e3"));
    assert!(!back.contains("e1"));
    assert!(!back.contains("e2"));
    assert_eq!(back.len(), 1);
    assert_eq!(find_entry_nodes(&g, &back), vec!["a".to_string()]);
    assert_eq!(find_entry_nodes(&g, &StrSet::new()), vec!["a".to_string()]);
}

#[test]
fn pure_cycle_gets_a_back_edge() {
    let g = graph(&["p", "q"], vec![edge("e1", "p", "q", None), edge("e2", "q", "p", None)]);
    let back = find_back_edges(&g);
    assert_eq!(back.len(), 1);
    assert!(back.contains("e2"));
    assert_eq!(find_entry_nodes(&g, &back), vec!["p".to_string()]);
}

#[test]
fn three_node_cycle_reports_the_closing_edge() {
    let g = graph(
        &["a", "b", "c"],
        vec![edge("e1", "a", "b", None), edge("e2", "b", "c", None), edge("e3", "c", "a", None)],
    );
    let back = find_back_edges(&g);
    assert_eq!(back.len(), 1);
    assert!(back.contains("e3"));
}

#[test]
fn self_loop_is_a_back_edge() {
    let g = graph(&["a"], vec![edge("e1", "a", "a", None)]);
    let back = find_back_edges(&g);
    assert_eq!(back.len(), 1);
    assert!(back.contains("e1"));
}

#[test]
fn edge_to_a_finished_node_is_no_back_edge() {
    // a -> b -> d and a -> c -> d: d is finished before c reaches it.
    let g = graph(
        &["a", "b", "c", "d"],
        vec![
            edge("e1", "a", "b", None),
            edge("e2", "a", "c", None),
            edge("e3", "b", "d", None),
            edge("e4", "c", "d", None),
        ],
    );
    assert_eq!(find_back_edges(&g).len(), 0);
}

#[test]
fn unreachable_cycle_is_not_searched() {
    // b <-> c cannot be reached from the entry node a: it keeps its
    // incoming edges, so neither node becomes an entry node.
    let g = graph(
        &["a", "b", "c"],
        vec![edge("e1", "b", "c", None), edge("e2", "c", "b", None)],
    );
    let back = find_back_edges(&g);
    assert_eq!(back.len(), 0);
    assert_eq!(find_entry_nodes(&g, &back), vec!["a".to_string()]);
}

#[test]
fn cancelled_run_is_cancelled() {
    let g = graph(&["a"], vec![]);
    let (st, spawns) = RunState::start(g, JsonValue::Null, 50);
    assert_eq!(spawns.len(), 1);
    assert_eq!(st.final_status(true), RunStatus::Cancelled);
}

#[test]
fn node_types_must_be_registered() {
    let mut g = graph(&["a", "b"], vec![]);
    g.nodes[1].node_type = "llm".into();
    let mut registered = StrSet::new();
    registered.insert("passthrough");
    match validate_node_types(&g, &registered) {
        Err(ExecutorError::NodeNotFound { node_type }) => assert_eq!(node_type, "llm"),
        other => panic!("unexpected {other:?}"),
    }
    registered.insert("llm");
    assert!(validate_node_types(&g, &registered).is_ok());
}

#[test]
fn default_config_allows_fifty_traversals() {
    assert_eq!(ExecutorConfig::default().max_traversals, 50);
}

#[test]
fn retry_decisions() {
    assert_eq!(attempt_limit(0), 1);
    assert_eq!(attempt_limit(3), 3);
    let step = after_attempt(1, 3, AttemptOutcome::Errored(NodeError::Retryable { message: "flaky".into() }), 1000);
    assert!(matches!(step, AttemptStep::Failed { will_retry: true, ref message } if message.contains("flaky")));
    let step = after_attempt(3, 3, AttemptOutcome::Errored(NodeError::Retryable { message: "flaky".into() }), 1000);
    assert!(matches!(step, AttemptStep::Failed { will_retry: false, .. }));
    let step = after_attempt(1, 3, AttemptOutcome::Errored(NodeError::Fatal { message: "no".into() }), 1000);
    assert!(matches!(step, AttemptStep::Failed { will_retry: false, .. }));
    let step = after_attempt(1, 3, AttemptOutcome::TimedOut, 1000);
    assert!(matches!(step, AttemptStep::Failed { will_retry: false, ref message } if message.contains("timeout") && message.contains("1000")));
    let step = after_attempt(1, 3, AttemptOutcome::Succeeded(num(5)), 1000);
    assert!(matches!(step, AttemptStep::Complete(JsonValue::Number(JsonNumber::PosInt(5)))));
}

#[test]
fn status_names() {
    assert_eq!(status_from_str("completed"), RunStatus::Completed);
    assert_eq!(status_from_str("failed"), RunStatus::Failed);
    assert_eq!(status_from_str("cancelled"), RunStatus::Cancelled);
    assert_eq!(status_from_str("weird"), RunStatus::Completed);
}

#[test]
fn fan_in_merges_by_index_whatever_the_finish_order() {
    let g = graph(&["A", "B", "C"], vec![edge("e1", "A", "B", None), edge("e2", "B", "C", None)]);
    let (mut st, first) = RunState::start(g, obj(vec![]), 50);
    assert_eq!(first.len(), 1);
    st.launch(&first[0]).expect("node exists");
    let (completion, _) = st.record_finish(NodeFinished {
        node_id: "A".into(),
        fan_out_index: None,
        outcome: NodeOutcome::Success(obj(vec![("output", JsonValue::Array(vec![num(1), num(2), num(3)]))])),
    });
    let conds = conditions(&st);
    let (_, spawns) = st.advance(&completion.expect("A completes"), &conds);
    assert_eq!(spawns.len(), 3);
    let mut finished = None;
    for req in spawns.iter().rev() {
        let launch = st.launch(req).expect("node exists");
        let n = match launch.inputs {
            JsonValue::Number(JsonNumber::PosInt(n)) => n,
            _ => panic!("unexpected item"),
        };
        let (completion, more) = st.record_finish(NodeFinished {
            node_id: "B".into(),
            fan_out_index: req.fan_out_index,
            outcome: NodeOutcome::Success(num(n * 100)),
        });
        assert!(more.is_empty());
        // The node completes at the last report only.
        assert_eq!(completion.is_some(), req.fan_out_index == Some(0));
        if completion.is_some() {
            finished = completion;
        }
    }
    let c = finished.expect("fan-in completes");
    match &c.outputs {
        JsonValue::Array(items) => {
            let values: Vec<u64> = items
                .iter()
                .map(|v| match v {
                    JsonValue::Number(JsonNumber::PosInt(n)) => *n,
                    _ => 0,
                })
                .collect();
            assert_eq!(values, vec![100, 200, 300]);
        }
        other => panic!("unexpected {other:?}"),
    }
}

#[test]
fn run_completion_record_carries_status_and_summary() {
    let g = graph(&["A"], vec![]);
    let t = drive(g, obj(vec![]), 50, passthrough);
    let (status, summary, done) = t.state.completion(7, "run-1", false, &Vec::new(), None, 12, NOW);
    assert_eq!(status, RunStatus::Completed);
    assert!(summary.is_none());
    assert!(matches!(
        done,
        WriteEvent::RunCompleted { seq: 7, status: RunStatus::Completed, llm_summary: None, duration_ms: 12, .. }
    ));
    let (status, _, _) = t.state.completion(8, "run-1", true, &Vec::new(), None, 12, NOW);
    assert_eq!(status, RunStatus::Cancelled);
}

#[test]
fn run_start_and_interruption_records() {
    let start = run_started_event(1, "run-9", "flow-1", "v1", &num(3), &JsonValue::Null, None, None, NOW);
    assert!(matches!(&start, WriteEvent::RunStarted { seq: 1, flow_id, version_id, .. } if flow_id == "flow-1" && version_id == "v1"));
    let events = vec![start, node_started_event(5, "run-9", "A", &num(3), None, 1, NOW)];
    let mark = interrupted_event(&events, "run-9", NOW).expect("room for one more");
    assert!(matches!(mark, WriteEvent::RunCompleted { seq: 6, status: RunStatus::Interrupted, .. }));
    let full = vec![node_started_event(u64::MAX, "run-9", "A", &num(3), None, 1, NOW)];
    assert!(interrupted_event(&full, "run-9", NOW).is_none());
}
