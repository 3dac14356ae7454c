//! Rebuilding a run's query results from its ordered events.
use vstd::prelude::*;
use vstd::string::*;
use crate::clock::Timestamp;
use crate::events::WriteEvent;
use crate::executor::RunStatus;
use crate::json::{JsonValue, JsonView};
use crate::text::str_eq;

verus! {

/// A run as its events describe it.
#[derive(Debug)]
pub struct RunRecord {
    pub run_id: String,
    pub flow_id: String,
    pub version_id: String,
    pub inputs: JsonValue,
    pub triggered_by: JsonValue,
    pub config_hash: Option<String>,
    pub parent_run_id: Option<String>,
    pub started_at: Option<Timestamp>,
    pub status: RunStatus,
    pub duration_ms: Option<u64>,
    pub llm_summary: Option<JsonValue>,
    pub completed_at: Option<Timestamp>,
}

/// The model of a run record.
pub struct RunModel {
    pub run_id: Seq<char>,
    pub flow_id: Seq<char>,
    pub version_id: Seq<char>,
    pub inputs: JsonView,
    pub triggered_by: JsonView,
    pub config_hash: Option<Seq<char>>,
    pub parent_run_id: Option<Seq<char>>,
    pub started_at: Option<Timestamp>,
    pub status: RunStatus,
    pub duration_ms: Option<u64>,
    pub llm_summary: Option<JsonView>,
    pub completed_at: Option<Timestamp>,
}

/// The view of an optional text.
pub open spec fn opt_text(o: Option<String>) -> Option<Seq<char>> {
    match o {
        Some(s) => Some(s@),
        None => None,
    }
}

/// The view of an optional JSON value.
pub open spec fn opt_json(o: Option<JsonValue>) -> Option<JsonView> {
    match o {
        Some(v) => Some(v@),
        None => None,
    }
}

pub open spec fn run_model(r: RunRecord) -> RunModel {
    RunModel {
        run_id: r.run_id@,
        flow_id: r.flow_id@,
        version_id: r.version_id@,
        inputs: r.inputs@,
        triggered_by: r.triggered_by@,
        config_hash: opt_text(r.config_hash),
        parent_run_id: opt_text(r.parent_run_id),
        started_at: r.started_at,
        status: r.status,
        duration_ms: r.duration_ms,
        llm_summary: opt_json(r.llm_summary),
        completed_at: r.completed_at,
    }
}

/// The record before any event: empty texts, null values, pending status.
pub open spec fn blank_run(run_id: Seq<char>) -> RunModel {
    RunModel {
        run_id,
        flow_id: Seq::empty(),
        version_id: Seq::empty(),
        inputs: JsonView::Null,
        triggered_by: JsonView::Null,
        config_hash: None,
        parent_run_id: None,
        started_at: None,
        status: RunStatus::Pending,
        duration_ms: None,
        llm_summary: None,
        completed_at: None,
    }
}

/// The record after the first `k` events: a start sets the run's identity,
/// inputs and start time and marks it running; a completion sets its
/// status, duration, summary and end time; other events change nothing.
pub open spec fn run_upto(run_id: Seq<char>, events: Seq<WriteEvent>, k: int) -> RunModel
    decreases k,
{
    if k <= 0 {
        blank_run(run_id)
    } else {
        let prev = run_upto(run_id, events, k - 1);
        match events[k - 1] {
            WriteEvent::RunStarted {
                flow_id,
                version_id,
                trigger_inputs,
                triggered_by,
                config_hash,
                parent_run_id,
                timestamp,
                ..
            } => RunModel {
                flow_id: flow_id@,
                version_id: version_id@,
                inputs: trigger_inputs@,
                triggered_by: triggered_by@,
                config_hash: opt_text(config_hash),
                parent_run_id: opt_text(parent_run_id),
                started_at: Some(timestamp),
                status: RunStatus::Running,
                ..prev
            },
            WriteEvent::RunCompleted { status, duration_ms, llm_summary, timestamp, .. } => RunModel {
                status,
                duration_ms: Some(duration_ms),
                llm_summary: opt_json(llm_summary),
                completed_at: Some(timestamp),
                ..prev
            },
            _ => prev,
        }
    }
}

fn copy_text(o: &Option<String>) -> (r: Option<String>)
    ensures
        opt_text(r) == opt_text(*o),
{
    match o {
        Some(s) => Some(String::from_str(s.as_str())),
        None => None,
    }
}

fn copy_json(o: &Option<JsonValue>) -> (r: Option<JsonValue>)
    ensures
        opt_json(r) == opt_json(*o),
{
    match o {
        Some(v) => Some(v.duplicate()),
        None => None,
    }
}

/// The record of run `run_id` rebuilt from its ordered events (see
/// `run_upto`); `None` when there are no events.
pub fn reconstruct_run(run_id: &str, events: &Vec<WriteEvent>) -> (r: Option<RunRecord>)
    ensures
        match r {
            None => events@.len() == 0,
            Some(rec) => events@.len() > 0 && run_model(rec) == run_upto(
                run_id@,
                events@,
                events@.len() as int,
            ),
        },
{
    if events.len() == 0 {
        return None;
    }
    let mut rec = RunRecord {
        run_id: String::from_str(run_id),
        flow_id: String::new(),
        version_id: String::new(),
        inputs: JsonValue::Null,
        triggered_by: JsonValue::Null,
        config_hash: None,
        parent_run_id: None,
        started_at: None,
        status: RunStatus::Pending,
        duration_ms: None,
        llm_summary: None,
        completed_at: None,
    };
    assert(rec.flow_id@ =~= Seq::<char>::empty());
    assert(rec.version_id@ =~= Seq::<char>::empty());
    let mut i: usize = 0;
    while i < events.len()
        invariant
            i <= events@.len(),
            run_model(rec) == run_upto(run_id@, events@, i as int),
        decreases events.len() - i,
    {
        match &events[i] {
            WriteEvent::RunStarted {
                flow_id,
                version_id,
                trigger_inputs,
                triggered_by,
                config_hash,
                parent_run_id,
                timestamp,
                ..
            } => {
                rec.flow_id = String::from_str(flow_id.as_str());
                rec.version_id = String::from_str(version_id.as_str());
                rec.inputs = trigger_inputs.duplicate();
                rec.triggered_by = triggered_by.duplicate();
                rec.config_hash = copy_text(config_hash);
                rec.parent_run_id = copy_text(parent_run_id);
                rec.started_at = Some(*timestamp);
                rec.status = RunStatus::Running;
            },
            WriteEvent::RunCompleted { status, duration_ms, llm_summary, timestamp, .. } => {
                rec.status = *status;
                rec.duration_ms = Some(*duration_ms);
                rec.llm_summary = copy_json(llm_summary);
                rec.completed_at = Some(*timestamp);
            },
            _ => {},
        }
        i += 1;
    }
    Some(rec)
}

// ---------------------------------------------------------------------------
// Edge results, custom events, LLM invocations
// ---------------------------------------------------------------------------

/// The outcome of one edge evaluation.
#[derive(Debug)]
pub struct EdgeRunResult {
    pub edge_id: String,
    pub condition: Option<String>,
    pub result: bool,
    pub data_summary: JsonValue,
}

pub open spec fn edge_result_view(e: EdgeRunResult) -> (Seq<char>, Option<Seq<char>>, bool, JsonView) {
    (e.edge_id@, opt_text(e.condition), e.result, e.data_summary@)
}

/// The edge evaluations among the first `k` events, in order.
pub open spec fn edges_upto(events: Seq<WriteEvent>, k: int) -> Seq<
    (Seq<char>, Option<Seq<char>>, bool, JsonView),
>
    decreases k,
{
    if k <= 0 {
        Seq::empty()
    } else {
        let prev = edges_upto(events, k - 1);
        match events[k - 1] {
            WriteEvent::EdgeEvaluated { edge_id, condition, result, data_summary, .. } => prev.push(
                (edge_id@, opt_text(condition), result, data_summary@),
            ),
            _ => prev,
        }
    }
}

/// The edge evaluations of a run's events, in order.
pub fn extract_edge_results(events: &Vec<WriteEvent>) -> (r: Vec<EdgeRunResult>)
    ensures
        r@.map_values(|e: EdgeRunResult| edge_result_view(e)) == edges_upto(
            events@,
            events@.len() as int,
        ),
{
    let mut out: Vec<EdgeRunResult> = Vec::new();
    let mut i: usize = 0;
    while i < events.len()
        invariant
            i <= events@.len(),
            out@.map_values(|e: EdgeRunResult| edge_result_view(e)) == edges_upto(events@, i as int),
        decreases events.len() - i,
    {
        let ghost before = out@;
        match &events[i] {
            WriteEvent::EdgeEvaluated { edge_id, condition, result, data_summary, .. } => {
                out.push(
                    EdgeRunResult {
                        edge_id: String::from_str(edge_id.as_str()),
                        condition: copy_text(condition),
                        result: *result,
                        data_summary: data_summary.duplicate(),
                    },
                );
                assert(out@.map_values(|e: EdgeRunResult| edge_result_view(e)) =~= before.map_values(
                    |e: EdgeRunResult| edge_result_view(e),
                ).push(edge_result_view(out@.last())));
            },
            _ => {},
        }
        i += 1;
    }
    out
}

/// A custom event a node emitted.
#[derive(Debug)]
pub struct CustomEventRecord {
    pub run_id: String,
    pub node_id: Option<String>,
    pub name: String,
    pub data: JsonValue,
    pub seq: u64,
}

pub open spec fn custom_view(c: CustomEventRecord) -> (Seq<char>, Option<Seq<char>>, Seq<char>, JsonView, u64) {
    (c.run_id@, opt_text(c.node_id), c.name@, c.data@, c.seq)
}

/// The custom events among the first `k` events, in order.
pub open spec fn customs_upto(events: Seq<WriteEvent>, k: int) -> Seq<
    (Seq<char>, Option<Seq<char>>, Seq<char>, JsonView, u64),
>
    decreases k,
{
    if k <= 0 {
        Seq::empty()
    } else {
        let prev = customs_upto(events, k - 1);
        match events[k - 1] {
            WriteEvent::Custom { seq, run_id, node_id, name, data, .. } => prev.push(
                (run_id@, opt_text(node_id), name@, data@, seq),
            ),
            _ => prev,
        }
    }
}

/// The custom events of a run's events, in order.
pub fn extract_custom_events(events: &Vec<WriteEvent>) -> (r: Vec<CustomEventRecord>)
    ensures
        r@.map_values(|c: CustomEventRecord| custom_view(c)) == customs_upto(
            events@,
            events@.len() as int,
        ),
{
    let mut out: Vec<CustomEventRecord> = Vec::new();
    let mut i: usize = 0;
    while i < events.len()
        invariant
            i <= events@.len(),
            out@.map_values(|c: CustomEventRecord| custom_view(c)) == customs_upto(events@, i as int),
        decreases events.len() - i,
    {
        let ghost before = out@;
        match &events[i] {
            WriteEvent::Custom { seq, run_id, node_id, name, data, .. } => {
                out.push(
                    CustomEventRecord {
                        run_id: String::from_str(run_id.as_str()),
                        node_id: copy_text(node_id),
                        name: String::from_str(name.as_str()),
                        data: data.duplicate(),
                        seq: *seq,
                    },
                );
                assert(out@.map_values(|c: CustomEventRecord| custom_view(c)) =~= before.map_values(
                    |c: CustomEventRecord| custom_view(c),
                ).push(custom_view(out@.last())));
            },
            _ => {},
        }
        i += 1;
    }
    out
}

/// One LLM call a node made.
#[derive(Debug)]
pub struct LlmInvocationRecord {
    pub run_id: String,
    pub node_id: String,
    pub request: JsonValue,
    pub response: JsonValue,
    pub timestamp: Timestamp,
}

pub open spec fn invocation_view(c: LlmInvocationRecord) -> (Seq<char>, Seq<char>, JsonView, JsonView, Timestamp) {
    (c.run_id@, c.node_id@, c.request@, c.response@, c.timestamp)
}

/// The LLM invocations among the first `k` events, in order.
pub open spec fn invocations_upto(events: Seq<WriteEvent>, k: int) -> Seq<
    (Seq<char>, Seq<char>, JsonView, JsonView, Timestamp),
>
    decreases k,
{
    if k <= 0 {
        Seq::empty()
    } else {
        let prev = invocations_upto(events, k - 1);
        match events[k - 1] {
            WriteEvent::LlmInvocation { run_id, node_id, request, response, timestamp, .. } => prev.push(
                (run_id@, node_id@, request@, response@, timestamp),
            ),
            _ => prev,
        }
    }
}

/// The LLM invocations of a run's events, in order.
pub fn extract_llm_invocations(events: &Vec<WriteEvent>) -> (r: Vec<LlmInvocationRecord>)
    ensures
        r@.map_values(|c: LlmInvocationRecord| invocation_view(c)) == invocations_upto(
            events@,
            events@.len() as int,
        ),
{
    let mut out: Vec<LlmInvocationRecord> = Vec::new();
    let mut i: usize = 0;
    while i < events.len()
        invariant
            i <= events@.len(),
            out@.map_values(|c: LlmInvocationRecord| invocation_view(c)) == invocations_upto(
                events@,
                i as int,
            ),
        decreases events.len() - i,
    {
        let ghost before = out@;
        match &events[i] {
            WriteEvent::LlmInvocation { run_id, node_id, request, response, timestamp, .. } => {
                out.push(
                    LlmInvocationRecord {
                        run_id: String::from_str(run_id.as_str()),
                        node_id: String::from_str(node_id.as_str()),
                        request: request.duplicate(),
                        response: response.duplicate(),
                        timestamp: *timestamp,
                    },
                );
                assert(out@.map_values(|c: LlmInvocationRecord| invocation_view(c))
                    =~= before.map_values(|c: LlmInvocationRecord| invocation_view(c)).push(
                    invocation_view(out@.last()),
                ));
            },
            _ => {},
        }
        i += 1;
    }
    out
}

// ---------------------------------------------------------------------------
// Node results
// ---------------------------------------------------------------------------

/// The latest state of one node in a run.
#[derive(Debug)]
pub struct NodeRunResult {
    pub node_id: String,
    /// `running`, `completed` or `failed`.
    pub status: String,
    pub inputs: JsonValue,
    pub outputs: Option<JsonValue>,
    pub error: Option<String>,
    pub duration_ms: Option<u64>,
    /// The highest attempt number started.
    pub attempts: u32,
}

/// The model of a node result.
pub struct NodeResultModel {
    pub node_id: Seq<char>,
    pub status: Seq<char>,
    pub inputs: JsonView,
    pub outputs: Option<JsonView>,
    pub error: Option<Seq<char>>,
    pub duration_ms: Option<u64>,
    pub attempts: u32,
}

pub open spec fn node_result_model(r: NodeRunResult) -> NodeResultModel {
    NodeResultModel {
        node_id: r.node_id@,
        status: r.status@,
        inputs: r.inputs@,
        outputs: opt_json(r.outputs),
        error: opt_text(r.error),
        duration_ms: r.duration_ms,
        attempts: r.attempts,
    }
}

pub open spec fn node_results_model(s: Seq<NodeRunResult>) -> Seq<NodeResultModel> {
    s.map_values(|r: NodeRunResult| node_result_model(r))
}

/// Whether `i` is the first result for node `id`.
pub open spec fn first_result(rs: Seq<NodeResultModel>, id: Seq<char>, i: int) -> bool {
    &&& 0 <= i < rs.len()
    &&& rs[i].node_id == id
    &&& forall|j: int| 0 <= j < i ==> #[trigger] rs[j].node_id != id
}

/// The index of the result for node `id`.
pub open spec fn result_index(rs: Seq<NodeResultModel>, id: Seq<char>) -> Option<int> {
    if exists|i: int| first_result(rs, id, i) {
        Some(choose|i: int| first_result(rs, id, i))
    } else {
        None
    }
}

/// The node results after the first `k` events, one per node in the order
/// the nodes first started. A start sets the node's inputs and raises its
/// attempt count to the attempt number (a node's first start also makes it
/// `running`); a completion of a started node makes it `completed` with its
/// outputs and duration; a failure that will not be retried makes it
/// `failed` with the error.
pub open spec fn results_upto(events: Seq<WriteEvent>, k: int) -> Seq<NodeResultModel>
    decreases k,
{
    if k <= 0 {
        Seq::empty()
    } else {
        let prev = results_upto(events, k - 1);
        match events[k - 1] {
            WriteEvent::NodeStarted { node_id, inputs, attempt, .. } => match result_index(
                prev,
                node_id@,
            ) {
                Some(i) => prev.update(
                    i,
                    NodeResultModel {
                        inputs: inputs@,
                        attempts: if prev[i].attempts < attempt {
                            attempt
                        } else {
                            prev[i].attempts
                        },
                        ..prev[i]
                    },
                ),
                None => prev.push(
                    NodeResultModel {
                        node_id: node_id@,
                        status: "running"@,
                        inputs: inputs@,
                        outputs: None,
                        error: None,
                        duration_ms: None,
                        attempts: attempt,
                    },
                ),
            },
            WriteEvent::NodeCompleted { node_id, outputs, duration_ms, .. } => match result_index(
                prev,
                node_id@,
            ) {
                Some(i) => prev.update(
                    i,
                    NodeResultModel {
                        status: "completed"@,
                        outputs: Some(outputs@),
                        duration_ms: Some(duration_ms),
                        ..prev[i]
                    },
                ),
                None => prev,
            },
            WriteEvent::NodeFailed { node_id, error, will_retry, .. } => match result_index(
                prev,
                node_id@,
            ) {
                Some(i) => if will_retry {
                    prev
                } else {
                    prev.update(
                        i,
                        NodeResultModel { status: "failed"@, error: Some(error@), ..prev[i] },
                    )
                },
                None => prev,
            },
            _ => prev,
        }
    }
}

proof fn lemma_first_result_unique(rs: Seq<NodeResultModel>, id: Seq<char>, i: int)
    requires
        first_result(rs, id, i),
    ensures
        result_index(rs, id) == Some(i),
{
    let k = choose|k: int| first_result(rs, id, k);
    if k < i {
        assert(rs[k].node_id != id);
    }
    if i < k {
        assert(rs[i].node_id != id);
    }
}

fn find_result(rs: &Vec<NodeRunResult>, id: &str) -> (r: Option<usize>)
    ensures
        match r {
            Some(i) => result_index(node_results_model(rs@), id@) == Some(i as int),
            None => result_index(node_results_model(rs@), id@) is None,
        },
{
    let ghost m = node_results_model(rs@);
    let mut i: usize = 0;
    while i < rs.len()
        invariant
            m == node_results_model(rs@),
            i <= rs@.len(),
            forall|j: int| 0 <= j < i ==> #[trigger] m[j].node_id != id@,
        decreases rs.len() - i,
    {
        if str_eq(rs[i].node_id.as_str(), id) {
            proof {
                lemma_first_result_unique(m, id@, i as int);
            }
            return Some(i);
        }
        i += 1;
    }
    proof {
        if exists|k: int| first_result(m, id@, k) {
            let k = choose|k: int| first_result(m, id@, k);
            assert(m[k].node_id != id@);
        }
    }
    None
}

/// The latest state of every node that started, in the order the nodes
/// first started (see `results_upto`).
pub fn extract_node_results(events: &Vec<WriteEvent>) -> (r: Vec<NodeRunResult>)
    ensures
        node_results_model(r@) == results_upto(events@, events@.len() as int),
{
    let mut out: Vec<NodeRunResult> = Vec::new();
    let mut i: usize = 0;
    while i < events.len()
        invariant
            i <= events@.len(),
            node_results_model(out@) == results_upto(events@, i as int),
        decreases events.len() - i,
    {
        let ghost before = node_results_model(out@);
        match &events[i] {
            WriteEvent::NodeStarted { node_id, inputs, attempt, .. } => {
                match find_result(&out, node_id.as_str()) {
                    Some(j) => {
                        let mut entry = out.remove(j);
                        entry.inputs = inputs.duplicate();
                        if entry.attempts < *attempt {
                            entry.attempts = *attempt;
                        }
                        let ghost em = node_result_model(entry);
                        out.insert(j, entry);
                        assert(node_results_model(out@) =~= before.update(j as int, em));
                    },
                    None => {
                        proof {
                            reveal_strlit("running");
                        }
                        out.push(
                            NodeRunResult {
                                node_id: String::from_str(node_id.as_str()),
                                status: String::from_str("running"),
                                inputs: inputs.duplicate(),
                                outputs: None,
                                error: None,
                                duration_ms: None,
                                attempts: *attempt,
                            },
                        );
                        assert(node_results_model(out@) =~= before.push(node_result_model(out@.last())));
                    },
                }
            },
            WriteEvent::NodeCompleted { node_id, outputs, duration_ms, .. } => {
                match find_result(&out, node_id.as_str()) {
                    Some(j) => {
                        let mut entry = out.remove(j);
                        entry.status = String::from_str("completed");
                        entry.outputs = Some(outputs.duplicate());
                        entry.duration_ms = Some(*duration_ms);
                        let ghost em = node_result_model(entry);
                        out.insert(j, entry);
                        assert(node_results_model(out@) =~= before.update(j as int, em));
                    },
                    None => {},
                }
            },
            WriteEvent::NodeFailed { node_id, error, will_retry, .. } => {
                if !*will_retry {
                    match find_result(&out, node_id.as_str()) {
                        Some(j) => {
                            let mut entry = out.remove(j);
                            entry.status = String::from_str("failed");
                            entry.error = Some(String::from_str(error.as_str()));
                            let ghost em = node_result_model(entry);
                            out.insert(j, entry);
                            assert(node_results_model(out@) =~= before.update(j as int, em));
                        },
                        None => {},
                    }
                }
            },
            _ => {},
        }
        i += 1;
    }
    out
}

// ---------------------------------------------------------------------------
// Node detail
// ---------------------------------------------------------------------------

/// One execution attempt of a node.
#[derive(Debug)]
pub struct NodeAttemptDetail {
    pub attempt: u32,
    pub fan_out_index: Option<u32>,
    pub inputs: JsonValue,
    pub outputs: Option<JsonValue>,
    pub error: Option<String>,
    pub duration_ms: Option<u64>,
}

/// Every execution attempt of one node, in start order.
#[derive(Debug)]
pub struct NodeRunDetail {
    pub node_id: String,
    pub attempts: Vec<NodeAttemptDetail>,
}

/// The model of an attempt.
pub struct AttemptModel {
    pub attempt: u32,
    pub fan_out_index: Option<u32>,
    pub inputs: JsonView,
    pub outputs: Option<JsonView>,
    pub error: Option<Seq<char>>,
    pub duration_ms: Option<u64>,
}

pub open spec fn attempt_model(a: NodeAttemptDetail) -> AttemptModel {
    AttemptModel {
        attempt: a.attempt,
        fan_out_index: a.fan_out_index,
        inputs: a.inputs@,
        outputs: opt_json(a.outputs),
        error: opt_text(a.error),
        duration_ms: a.duration_ms,
    }
}

pub open spec fn attempts_model(s: Seq<NodeAttemptDetail>) -> Seq<AttemptModel> {
    s.map_values(|a: NodeAttemptDetail| attempt_model(a))
}

/// Whether an attempt has neither outputs nor an error yet, and, when `fan`
/// is given, belongs to that fan-out index.
pub open spec fn is_open(a: AttemptModel, fan: Option<Option<u32>>) -> bool {
    a.outputs is None && a.error is None && match fan {
        Some(f) => a.fan_out_index == f,
        None => true,
    }
}

/// The most recent open attempt among the first `k` (see `is_open`).
pub open spec fn last_open(atts: Seq<AttemptModel>, fan: Option<Option<u32>>, k: int) -> Option<int>
    decreases k,
{
    if k <= 0 {
        None
    } else if is_open(atts[k - 1], fan) {
        Some(k - 1)
    } else {
        last_open(atts, fan, k - 1)
    }
}

/// The attempts of node `node_id` after the first `k` events. A start adds
/// an attempt; a completion finishes the most recent open attempt with the
/// same fan-out index; a failure records its error on the most recent open
/// attempt.
pub open spec fn detail_upto(events: Seq<WriteEvent>, node_id: Seq<char>, k: int) -> Seq<AttemptModel>
    decreases k,
{
    if k <= 0 {
        Seq::empty()
    } else {
        let prev = detail_upto(events, node_id, k - 1);
        match events[k - 1] {
            WriteEvent::NodeStarted { node_id: nid, inputs, fan_out_index, attempt, .. } => if nid@
                == node_id {
                prev.push(
                    AttemptModel {
                        attempt,
                        fan_out_index,
                        inputs: inputs@,
                        outputs: None,
                        error: None,
                        duration_ms: None,
                    },
                )
            } else {
                prev
            },
            WriteEvent::NodeCompleted { node_id: nid, outputs, fan_out_index, duration_ms, .. } =>
                if nid@ == node_id {
                match last_open(prev, Some(fan_out_index), prev.len() as int) {
                    Some(j) => prev.update(
                        j,
                        AttemptModel {
                            outputs: Some(outputs@),
                            duration_ms: Some(duration_ms),
                            ..prev[j]
                        },
                    ),
                    None => prev,
                }
            } else {
                prev
            },
            WriteEvent::NodeFailed { node_id: nid, error, .. } => if nid@ == node_id {
                match last_open(prev, None, prev.len() as int) {
                    Some(j) => prev.update(j, AttemptModel { error: Some(error@), ..prev[j] }),
                    None => prev,
                }
            } else {
                prev
            },
            _ => prev,
        }
    }
}

fn find_last_open(atts: &Vec<NodeAttemptDetail>, fan: Option<Option<u32>>) -> (r: Option<usize>)
    ensures
        match r {
            Some(j) => last_open(attempts_model(atts@), fan, atts@.len() as int) == Some(j as int)
                && j < atts@.len(),
            None => last_open(attempts_model(atts@), fan, atts@.len() as int) is None,
        },
{
    let ghost m = attempts_model(atts@);
    let mut k = atts.len();
    while k > 0
        invariant
            m == attempts_model(atts@),
            k <= atts@.len(),
            last_open(m, fan, atts@.len() as int) == last_open(m, fan, k as int),
        decreases k,
    {
        let a = &atts[k - 1];
        let fan_ok = match fan {
            Some(f) => a.fan_out_index == f,
            None => true,
        };
        if a.outputs.is_none() && a.error.is_none() && fan_ok {
            assert(is_open(m[k - 1], fan));
            return Some(k - 1);
        }
        assert(!is_open(m[k - 1], fan));
        k -= 1;
    }
    None
}

/// Every attempt of node `node_id`, in start order (see `detail_upto`);
/// `None` when the node never started.
pub fn extract_node_detail(events: &Vec<WriteEvent>, node_id: &str) -> (r: Option<NodeRunDetail>)
    ensures
        match r {
            None => detail_upto(events@, node_id@, events@.len() as int).len() == 0,
            Some(d) => d.node_id@ == node_id@ && d.attempts@.len() > 0 && attempts_model(d.attempts@)
                == detail_upto(events@, node_id@, events@.len() as int),
        },
{
    let mut atts: Vec<NodeAttemptDetail> = Vec::new();
    let mut i: usize = 0;
    while i < events.len()
        invariant
            i <= events@.len(),
            attempts_model(atts@) == detail_upto(events@, node_id@, i as int),
        decreases events.len() - i,
    {
        let ghost before = attempts_model(atts@);
        match &events[i] {
            WriteEvent::NodeStarted { node_id: nid, inputs, fan_out_index, attempt, .. } => {
                if str_eq(nid.as_str(), node_id) {
                    atts.push(
                        NodeAttemptDetail {
                            attempt: *attempt,
                            fan_out_index: *fan_out_index,
                            inputs: inputs.duplicate(),
                            outputs: None,
                            error: None,
                            duration_ms: None,
                        },
                    );
                    assert(attempts_model(atts@) =~= before.push(attempt_model(atts@.last())));
                }
            },
            WriteEvent::NodeCompleted { node_id: nid, outputs, fan_out_index, duration_ms, .. } => {
                if str_eq(nid.as_str(), node_id) {
                    match find_last_open(&atts, Some(*fan_out_index)) {
                        Some(j) => {
                            let mut a = atts.remove(j);
                            a.outputs = Some(outputs.duplicate());
                            a.duration_ms = Some(*duration_ms);
                            let ghost am = attempt_model(a);
                            atts.insert(j, a);
                            assert(attempts_model(atts@) =~= before.update(j as int, am));
                        },
                        None => {},
                    }
                }
            },
            WriteEvent::NodeFailed { node_id: nid, error, .. } => {
                if str_eq(nid.as_str(), node_id) {
                    match find_last_open(&atts, None) {
                        Some(j) => {
                            let mut a = atts.remove(j);
                            a.error = Some(String::from_str(error.as_str()));
                            let ghost am = attempt_model(a);
                            atts.insert(j, a);
                            assert(attempts_model(atts@) =~= before.update(j as int, am));
                        },
                        None => {},
                    }
                }
            },
            _ => {},
        }
        i += 1;
    }
    if atts.len() == 0 {
        return None;
    }
    Some(NodeRunDetail { node_id: String::from_str(node_id), attempts: atts })
}


/// The starts of node `node_id` among the first `k` events: attempt number,
/// fan-out index and inputs of each, in event order.
pub open spec fn starts_of(events: Seq<WriteEvent>, node_id: Seq<char>, k: int) -> Seq<(u32, Option<u32>, JsonView)>
    decreases k,
{
    if k <= 0 {
        Seq::empty()
    } else {
        let prev = starts_of(events, node_id, k - 1);
        match events[k - 1] {
            WriteEvent::NodeStarted { node_id: nid, inputs, fan_out_index, attempt, .. } => if nid@
                == node_id {
                prev.push((attempt, fan_out_index, inputs@))
            } else {
                prev
            },
            _ => prev,
        }
    }
}

/// Whether an event is a start, completion or failure of node `node_id`.
pub open spec fn concerns_node(e: WriteEvent, node_id: Seq<char>) -> bool {
    match e {
        WriteEvent::NodeStarted { node_id: nid, .. } => nid@ == node_id,
        WriteEvent::NodeCompleted { node_id: nid, .. } => nid@ == node_id,
        WriteEvent::NodeFailed { node_id: nid, .. } => nid@ == node_id,
        _ => false,
    }
}

/// The events among the first `k` that concern node `node_id`, in order.
pub open spec fn node_events(events: Seq<WriteEvent>, node_id: Seq<char>, k: int) -> Seq<WriteEvent>
    decreases k,
{
    if k <= 0 {
        Seq::empty()
    } else {
        let prev = node_events(events, node_id, k - 1);
        if concerns_node(events[k - 1], node_id) {
            prev.push(events[k - 1])
        } else {
            prev
        }
    }
}

proof fn lemma_last_open_range(atts: Seq<AttemptModel>, fan: Option<Option<u32>>, k: int)
    ensures
        last_open(atts, fan, k) matches Some(j) ==> 0 <= j < k,
    decreases k,
{
    if k > 0 {
        lemma_last_open_range(atts, fan, k - 1);
    }
}

proof fn lemma_detail_prefix(a: Seq<WriteEvent>, b: Seq<WriteEvent>, node_id: Seq<char>, m: int)
    requires
        0 <= m <= a.len(),
        m <= b.len(),
        a.take(m) == b.take(m),
    ensures
        detail_upto(a, node_id, m) == detail_upto(b, node_id, m),
    decreases m,
{
    if m > 0 {
        assert(a.take(m - 1) =~= a.take(m).take(m - 1));
        assert(b.take(m - 1) =~= b.take(m).take(m - 1));
        lemma_detail_prefix(a, b, node_id, m - 1);
        assert(a[m - 1] == a.take(m)[m - 1]);
        assert(b[m - 1] == b.take(m)[m - 1]);
    }
}

proof fn lemma_node_events(events: Seq<WriteEvent>, node_id: Seq<char>, k: int)
    requires
        0 <= k <= events.len(),
    ensures
        detail_upto(events, node_id, k) == detail_upto(
            node_events(events, node_id, k),
            node_id,
            node_events(events, node_id, k).len() as int,
        ),
        detail_upto(events, node_id, k).len() == starts_of(events, node_id, k).len(),
        forall|j: int|
            0 <= j < starts_of(events, node_id, k).len() ==> {
                let a = #[trigger] detail_upto(events, node_id, k)[j];
                let st = starts_of(events, node_id, k)[j];
                a.attempt == st.0 && a.fan_out_index == st.1 && a.inputs == st.2
            },
    decreases k,
{
    if k > 0 {
        lemma_node_events(events, node_id, k - 1);
        let ne = node_events(events, node_id, k - 1);
        if concerns_node(events[k - 1], node_id) {
            let ne2 = ne.push(events[k - 1]);
            assert(ne2.take(ne.len() as int) =~= ne.take(ne.len() as int));
            lemma_detail_prefix(ne2, ne, node_id, ne.len() as int);
        }
        let prev = detail_upto(events, node_id, k - 1);
        let cur = detail_upto(events, node_id, k);
        let sp = starts_of(events, node_id, k - 1);
        let sc = starts_of(events, node_id, k);
        assert(cur.len() == sc.len()) by {
            match events[k - 1] {
                WriteEvent::NodeStarted { .. } => {},
                WriteEvent::NodeCompleted { node_id: nid, fan_out_index, .. } => {
                    lemma_last_open_range(prev, Some(fan_out_index), prev.len() as int);
                },
                WriteEvent::NodeFailed { .. } => {
                    lemma_last_open_range(prev, None, prev.len() as int);
                },
                _ => {},
            }
        }
        assert forall|j: int| 0 <= j < sc.len() implies {
            let a = #[trigger] cur[j];
            let st = sc[j];
            a.attempt == st.0 && a.fan_out_index == st.1 && a.inputs == st.2
        } by {
            if j < sp.len() {
                assert(prev[j].attempt == sp[j].0);
                assert(sc[j] == sp[j]);
                match events[k - 1] {
                    WriteEvent::NodeStarted { .. } => {
                        assert(cur[j] == prev[j]);
                    },
                    WriteEvent::NodeCompleted { node_id: nid, outputs, fan_out_index, duration_ms, .. } => {
                        if nid@ == node_id {
                            match last_open(prev, Some(fan_out_index), prev.len() as int) {
                                Some(jj) => {
                                    lemma_last_open_range(prev, Some(fan_out_index), prev.len() as int);
                                    if j == jj {
                                        assert(cur[j].attempt == prev[j].attempt);
                                    } else {
                                        assert(cur[j] == prev[j]);
                                    }
                                },
                                None => {},
                            }
                        }
                    },
                    WriteEvent::NodeFailed { node_id: nid, error, .. } => {
                        if nid@ == node_id {
                            match last_open(prev, None, prev.len() as int) {
                                Some(jj) => {
                                    lemma_last_open_range(prev, None, prev.len() as int);
                                    if j == jj {
                                        assert(cur[j].attempt == prev[j].attempt);
                                    } else {
                                        assert(cur[j] == prev[j]);
                                    }
                                },
                                None => {},
                            }
                        }
                    },
                    _ => {},
                }
            } else {
                match events[k - 1] {
                    WriteEvent::NodeStarted { node_id: nid, inputs, fan_out_index, attempt, .. } => {
                        assert(nid@ == node_id);
                        assert(cur[j].attempt == attempt);
                        assert(sc[j] == (attempt, fan_out_index, inputs@));
                    },
                    _ => {
                        assert(sc == sp);
                    },
                }
            }
        }
    }
}

/// What the detail of a node records: one attempt per start of the node,
/// in event order, with the start's attempt number, fan-out index and
/// inputs; `None` exactly when the node never started; and the events of
/// other nodes, and events of other kinds, change nothing.
pub proof fn law_node_detail(events: Seq<WriteEvent>, node_id: Seq<char>)
    ensures
        detail_upto(events, node_id, events.len() as int).len() == starts_of(
            events,
            node_id,
            events.len() as int,
        ).len(),
        forall|j: int|
            0 <= j < starts_of(events, node_id, events.len() as int).len() ==> {
                let a = #[trigger] detail_upto(events, node_id, events.len() as int)[j];
                let st = starts_of(events, node_id, events.len() as int)[j];
                a.attempt == st.0 && a.fan_out_index == st.1 && a.inputs == st.2
            },
        detail_upto(events, node_id, events.len() as int) == detail_upto(
            node_events(events, node_id, events.len() as int),
            node_id,
            node_events(events, node_id, events.len() as int).len() as int,
        ),
{
    lemma_node_events(events, node_id, events.len() as int);
}

} // verus!
