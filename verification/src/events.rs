//! The events a run writes to its record, in sequence order.
use vstd::prelude::*;
use crate::clock::Timestamp;
use crate::executor::RunStatus;
use crate::json::{JsonValue, JsonView};

verus! {

/// An event of a run's record. Every event carries its sequence number and
/// its run's id. Values the engine only carries through (the trigger source,
/// the LLM summary, LLM requests and responses, stream chunks) are kept in
/// their JSON form.
#[derive(Debug)]
pub enum WriteEvent {
    RunStarted {
        seq: u64,
        run_id: String,
        flow_id: String,
        version_id: String,
        trigger_inputs: JsonValue,
        triggered_by: JsonValue,
        config_hash: Option<String>,
        parent_run_id: Option<String>,
        timestamp: Timestamp,
    },
    RunCompleted {
        seq: u64,
        run_id: String,
        status: RunStatus,
        duration_ms: u64,
        llm_summary: Option<JsonValue>,
        timestamp: Timestamp,
    },
    NodeStarted {
        seq: u64,
        run_id: String,
        node_id: String,
        inputs: JsonValue,
        fan_out_index: Option<u32>,
        attempt: u32,
        timestamp: Timestamp,
    },
    NodeCompleted {
        seq: u64,
        run_id: String,
        node_id: String,
        outputs: JsonValue,
        fan_out_index: Option<u32>,
        duration_ms: u64,
        timestamp: Timestamp,
    },
    NodeFailed {
        seq: u64,
        run_id: String,
        node_id: String,
        error: String,
        will_retry: bool,
        attempt: u32,
        timestamp: Timestamp,
    },
    EdgeEvaluated {
        seq: u64,
        run_id: String,
        edge_id: String,
        condition: Option<String>,
        result: bool,
        data_summary: JsonValue,
        timestamp: Timestamp,
    },
    Checkpoint {
        seq: u64,
        run_id: String,
        node_id: String,
        state_snapshot: JsonValue,
        timestamp: Timestamp,
    },
    Custom {
        seq: u64,
        run_id: String,
        node_id: Option<String>,
        name: String,
        data: JsonValue,
        timestamp: Timestamp,
    },
    LlmInvocation {
        seq: u64,
        run_id: String,
        node_id: String,
        request: JsonValue,
        response: JsonValue,
        timestamp: Timestamp,
    },
    LlmStreamChunk {
        seq: u64,
        run_id: String,
        node_id: String,
        chunk: JsonValue,
        timestamp: Timestamp,
    },
    TopologyHint {
        seq: u64,
        run_id: String,
        nodes: Vec<String>,
        edges: Vec<(String, String)>,
        timestamp: Timestamp,
    },
}

/// The model of an event: each text by its characters, each JSON value by
/// its view.
pub enum EventView {
    RunStarted {
        seq: u64,
        run_id: Seq<char>,
        flow_id: Seq<char>,
        version_id: Seq<char>,
        trigger_inputs: JsonView,
        triggered_by: JsonView,
        config_hash: Option<Seq<char>>,
        parent_run_id: Option<Seq<char>>,
        timestamp: Timestamp,
    },
    RunCompleted {
        seq: u64,
        run_id: Seq<char>,
        status: RunStatus,
        duration_ms: u64,
        llm_summary: Option<JsonView>,
        timestamp: Timestamp,
    },
    NodeStarted {
        seq: u64,
        run_id: Seq<char>,
        node_id: Seq<char>,
        inputs: JsonView,
        fan_out_index: Option<u32>,
        attempt: u32,
        timestamp: Timestamp,
    },
    NodeCompleted {
        seq: u64,
        run_id: Seq<char>,
        node_id: Seq<char>,
        outputs: JsonView,
        fan_out_index: Option<u32>,
        duration_ms: u64,
        timestamp: Timestamp,
    },
    NodeFailed {
        seq: u64,
        run_id: Seq<char>,
        node_id: Seq<char>,
        error: Seq<char>,
        will_retry: bool,
        attempt: u32,
        timestamp: Timestamp,
    },
    EdgeEvaluated {
        seq: u64,
        run_id: Seq<char>,
        edge_id: Seq<char>,
        condition: Option<Seq<char>>,
        result: bool,
        data_summary: JsonView,
        timestamp: Timestamp,
    },
    Checkpoint {
        seq: u64,
        run_id: Seq<char>,
        node_id: Seq<char>,
        state_snapshot: JsonView,
        timestamp: Timestamp,
    },
    Custom {
        seq: u64,
        run_id: Seq<char>,
        node_id: Option<Seq<char>>,
        name: Seq<char>,
        data: JsonView,
        timestamp: Timestamp,
    },
    LlmInvocation {
        seq: u64,
        run_id: Seq<char>,
        node_id: Seq<char>,
        request: JsonView,
        response: JsonView,
        timestamp: Timestamp,
    },
    LlmStreamChunk {
        seq: u64,
        run_id: Seq<char>,
        node_id: Seq<char>,
        chunk: JsonView,
        timestamp: Timestamp,
    },
    TopologyHint {
        seq: u64,
        run_id: Seq<char>,
        nodes: Seq<Seq<char>>,
        edges: Seq<(Seq<char>, Seq<char>)>,
        timestamp: Timestamp,
    },
}

pub open spec fn opt_text_view(o: Option<String>) -> Option<Seq<char>> {
    match o {
        Some(s) => Some(s@),
        None => None,
    }
}

pub open spec fn opt_json_value_view(o: Option<JsonValue>) -> Option<JsonView> {
    match o {
        Some(v) => Some(v@),
        None => None,
    }
}

pub open spec fn texts_view(v: Seq<String>) -> Seq<Seq<char>> {
    v.map_values(|s: String| s@)
}

pub open spec fn pairs_view(v: Seq<(String, String)>) -> Seq<(Seq<char>, Seq<char>)> {
    v.map_values(|p: (String, String)| (p.0@, p.1@))
}

impl View for WriteEvent {
    type V = EventView;

    open spec fn view(&self) -> EventView {
        match *self {
            WriteEvent::RunStarted {
                seq,
                run_id,
                flow_id,
                version_id,
                trigger_inputs,
                triggered_by,
                config_hash,
                parent_run_id,
                timestamp,
            } => EventView::RunStarted {
                seq,
                run_id: run_id@,
                flow_id: flow_id@,
                version_id: version_id@,
                trigger_inputs: trigger_inputs@,
                triggered_by: triggered_by@,
                config_hash: opt_text_view(config_hash),
                parent_run_id: opt_text_view(parent_run_id),
                timestamp,
            },
            WriteEvent::RunCompleted { seq, run_id, status, duration_ms, llm_summary, timestamp } =>
                EventView::RunCompleted {
                seq,
                run_id: run_id@,
                status,
                duration_ms,
                llm_summary: opt_json_value_view(llm_summary),
                timestamp,
            },
            WriteEvent::NodeStarted {
                seq,
                run_id,
                node_id,
                inputs,
                fan_out_index,
                attempt,
                timestamp,
            } => EventView::NodeStarted {
                seq,
                run_id: run_id@,
                node_id: node_id@,
                inputs: inputs@,
                fan_out_index,
                attempt,
                timestamp,
            },
            WriteEvent::NodeCompleted {
                seq,
                run_id,
                node_id,
                outputs,
                fan_out_index,
                duration_ms,
                timestamp,
            } => EventView::NodeCompleted {
                seq,
                run_id: run_id@,
                node_id: node_id@,
                outputs: outputs@,
                fan_out_index,
                duration_ms,
                timestamp,
            },
            WriteEvent::NodeFailed {
                seq,
                run_id,
                node_id,
                error,
                will_retry,
                attempt,
                timestamp,
            } => EventView::NodeFailed {
                seq,
                run_id: run_id@,
                node_id: node_id@,
                error: error@,
                will_retry,
                attempt,
                timestamp,
            },
            WriteEvent::EdgeEvaluated {
                seq,
                run_id,
                edge_id,
                condition,
                result,
                data_summary,
                timestamp,
            } => EventView::EdgeEvaluated {
                seq,
                run_id: run_id@,
                edge_id: edge_id@,
                condition: opt_text_view(condition),
                result,
                data_summary: data_summary@,
                timestamp,
            },
            WriteEvent::Checkpoint { seq, run_id, node_id, state_snapshot, timestamp } =>
                EventView::Checkpoint {
                seq,
                run_id: run_id@,
                node_id: node_id@,
                state_snapshot: state_snapshot@,
                timestamp,
            },
            WriteEvent::Custom { seq, run_id, node_id, name, data, timestamp } => EventView::Custom {
                seq,
                run_id: run_id@,
                node_id: opt_text_view(node_id),
                name: name@,
                data: data@,
                timestamp,
            },
            WriteEvent::LlmInvocation { seq, run_id, node_id, request, response, timestamp } =>
                EventView::LlmInvocation {
                seq,
                run_id: run_id@,
                node_id: node_id@,
                request: request@,
                response: response@,
                timestamp,
            },
            WriteEvent::LlmStreamChunk { seq, run_id, node_id, chunk, timestamp } =>
                EventView::LlmStreamChunk {
                seq,
                run_id: run_id@,
                node_id: node_id@,
                chunk: chunk@,
                timestamp,
            },
            WriteEvent::TopologyHint { seq, run_id, nodes, edges, timestamp } =>
                EventView::TopologyHint {
                seq,
                run_id: run_id@,
                nodes: texts_view(nodes@),
                edges: pairs_view(edges@),
                timestamp,
            },
        }
    }
}

/// The sequence number of an event.
pub open spec fn view_seq(e: EventView) -> u64 {
    match e {
        EventView::RunStarted { seq, .. } => seq,
        EventView::RunCompleted { seq, .. } => seq,
        EventView::NodeStarted { seq, .. } => seq,
        EventView::NodeCompleted { seq, .. } => seq,
        EventView::NodeFailed { seq, .. } => seq,
        EventView::EdgeEvaluated { seq, .. } => seq,
        EventView::Checkpoint { seq, .. } => seq,
        EventView::Custom { seq, .. } => seq,
        EventView::LlmInvocation { seq, .. } => seq,
        EventView::LlmStreamChunk { seq, .. } => seq,
        EventView::TopologyHint { seq, .. } => seq,
    }
}

/// The id of the run an event belongs to.
pub open spec fn view_run(e: EventView) -> Seq<char> {
    match e {
        EventView::RunStarted { run_id, .. } => run_id,
        EventView::RunCompleted { run_id, .. } => run_id,
        EventView::NodeStarted { run_id, .. } => run_id,
        EventView::NodeCompleted { run_id, .. } => run_id,
        EventView::NodeFailed { run_id, .. } => run_id,
        EventView::EdgeEvaluated { run_id, .. } => run_id,
        EventView::Checkpoint { run_id, .. } => run_id,
        EventView::Custom { run_id, .. } => run_id,
        EventView::LlmInvocation { run_id, .. } => run_id,
        EventView::LlmStreamChunk { run_id, .. } => run_id,
        EventView::TopologyHint { run_id, .. } => run_id,
    }
}

/// The views of a sequence of events, event by event.
pub open spec fn events_view(s: Seq<WriteEvent>) -> Seq<EventView> {
    s.map_values(|e: WriteEvent| e@)
}

fn copy_opt_text(o: &Option<String>) -> (r: Option<String>)
    ensures
        opt_text_view(r) == opt_text_view(*o),
{
    match o {
        Some(s) => Some(s.clone()),
        None => None,
    }
}

fn copy_opt_json(o: &Option<JsonValue>) -> (r: Option<JsonValue>)
    ensures
        opt_json_value_view(r) == opt_json_value_view(*o),
{
    match o {
        Some(v) => Some(v.duplicate()),
        None => None,
    }
}

fn copy_texts(v: &Vec<String>) -> (r: Vec<String>)
    ensures
        texts_view(r@) == texts_view(v@),
{
    let mut r: Vec<String> = Vec::new();
    let mut i: usize = 0;
    while i < v.len()
        invariant
            i <= v.len(),
            r@.len() == i,
            forall|k: int| 0 <= k < i ==> #[trigger] r@[k]@ == v@[k]@,
        decreases v.len() - i,
    {
        r.push(v[i].clone());
        i += 1;
    }
    assert(texts_view(r@) =~= texts_view(v@));
    r
}

fn copy_pairs(v: &Vec<(String, String)>) -> (r: Vec<(String, String)>)
    ensures
        pairs_view(r@) == pairs_view(v@),
{
    let mut r: Vec<(String, String)> = Vec::new();
    let mut i: usize = 0;
    while i < v.len()
        invariant
            i <= v.len(),
            r@.len() == i,
            forall|k: int|
                0 <= k < i ==> #[trigger] r@[k].0@ == v@[k].0@ && r@[k].1@ == v@[k].1@,
        decreases v.len() - i,
    {
        r.push((v[i].0.clone(), v[i].1.clone()));
        i += 1;
    }
    assert(pairs_view(r@) =~= pairs_view(v@));
    r
}

impl WriteEvent {
    /// The event's sequence number.
    pub fn seq(&self) -> (r: u64)
        ensures
            r == view_seq(self@),
    {
        match self {
            WriteEvent::RunStarted { seq, .. } => *seq,
            WriteEvent::RunCompleted { seq, .. } => *seq,
            WriteEvent::NodeStarted { seq, .. } => *seq,
            WriteEvent::NodeCompleted { seq, .. } => *seq,
            WriteEvent::NodeFailed { seq, .. } => *seq,
            WriteEvent::EdgeEvaluated { seq, .. } => *seq,
            WriteEvent::Checkpoint { seq, .. } => *seq,
            WriteEvent::Custom { seq, .. } => *seq,
            WriteEvent::LlmInvocation { seq, .. } => *seq,
            WriteEvent::LlmStreamChunk { seq, .. } => *seq,
            WriteEvent::TopologyHint { seq, .. } => *seq,
        }
    }

    /// The id of the run the event belongs to.
    pub fn run_id(&self) -> (r: &str)
        ensures
            r@ == view_run(self@),
    {
        match self {
            WriteEvent::RunStarted { run_id, .. } => run_id.as_str(),
            WriteEvent::RunCompleted { run_id, .. } => run_id.as_str(),
            WriteEvent::NodeStarted { run_id, .. } => run_id.as_str(),
            WriteEvent::NodeCompleted { run_id, .. } => run_id.as_str(),
            WriteEvent::NodeFailed { run_id, .. } => run_id.as_str(),
            WriteEvent::EdgeEvaluated { run_id, .. } => run_id.as_str(),
            WriteEvent::Checkpoint { run_id, .. } => run_id.as_str(),
            WriteEvent::Custom { run_id, .. } => run_id.as_str(),
            WriteEvent::LlmInvocation { run_id, .. } => run_id.as_str(),
            WriteEvent::LlmStreamChunk { run_id, .. } => run_id.as_str(),
            WriteEvent::TopologyHint { run_id, .. } => run_id.as_str(),
        }
    }

    /// A copy of the event.
    pub fn duplicate(&self) -> (r: WriteEvent)
        ensures
            r@ == self@,
    {
        match self {
            WriteEvent::RunStarted {
                seq,
                run_id,
                flow_id,
                version_id,
                trigger_inputs,
                triggered_by,
                config_hash,
                parent_run_id,
                timestamp,
            } => WriteEvent::RunStarted {
                seq: *seq,
                run_id: run_id.clone(),
                flow_id: flow_id.clone(),
                version_id: version_id.clone(),
                trigger_inputs: trigger_inputs.duplicate(),
                triggered_by: triggered_by.duplicate(),
                config_hash: copy_opt_text(config_hash),
                parent_run_id: copy_opt_text(parent_run_id),
                timestamp: *timestamp,
            },
            WriteEvent::RunCompleted { seq, run_id, status, duration_ms, llm_summary, timestamp } =>
                WriteEvent::RunCompleted {
                seq: *seq,
                run_id: run_id.clone(),
                status: *status,
                duration_ms: *duration_ms,
                llm_summary: copy_opt_json(llm_summary),
                timestamp: *timestamp,
            },
            WriteEvent::NodeStarted {
                seq,
                run_id,
                node_id,
                inputs,
                fan_out_index,
                attempt,
                timestamp,
            } => WriteEvent::NodeStarted {
                seq: *seq,
                run_id: run_id.clone(),
                node_id: node_id.clone(),
                inputs: inputs.duplicate(),
                fan_out_index: *fan_out_index,
                attempt: *attempt,
                timestamp: *timestamp,
            },
            WriteEvent::NodeCompleted {
                seq,
                run_id,
                node_id,
                outputs,
                fan_out_index,
                duration_ms,
                timestamp,
            } => WriteEvent::NodeCompleted {
                seq: *seq,
                run_id: run_id.clone(),
                node_id: node_id.clone(),
                outputs: outputs.duplicate(),
                fan_out_index: *fan_out_index,
                duration_ms: *duration_ms,
                timestamp: *timestamp,
            },
            WriteEvent::NodeFailed {
                seq,
                run_id,
                node_id,
                error,
                will_retry,
                attempt,
                timestamp,
            } => WriteEvent::NodeFailed {
                seq: *seq,
                run_id: run_id.clone(),
                node_id: node_id.clone(),
                error: error.clone(),
                will_retry: *will_retry,
                attempt: *attempt,
                timestamp: *timestamp,
            },
            WriteEvent::EdgeEvaluated {
                seq,
                run_id,
                edge_id,
                condition,
                result,
                data_summary,
                timestamp,
            } => WriteEvent::EdgeEvaluated {
                seq: *seq,
                run_id: run_id.clone(),
                edge_id: edge_id.clone(),
                condition: copy_opt_text(condition),
                result: *result,
                data_summary: data_summary.duplicate(),
                timestamp: *timestamp,
            },
            WriteEvent::Checkpoint { seq, run_id, node_id, state_snapshot, timestamp } =>
                WriteEvent::Checkpoint {
                seq: *seq,
                run_id: run_id.clone(),
                node_id: node_id.clone(),
                state_snapshot: state_snapshot.duplicate(),
                timestamp: *timestamp,
            },
            WriteEvent::Custom { seq, run_id, node_id, name, data, timestamp } => WriteEvent::Custom {
                seq: *seq,
                run_id: run_id.clone(),
                node_id: copy_opt_text(node_id),
                name: name.clone(),
                data: data.duplicate(),
                timestamp: *timestamp,
            },
            WriteEvent::LlmInvocation { seq, run_id, node_id, request, response, timestamp } =>
                WriteEvent::LlmInvocation {
                seq: *seq,
                run_id: run_id.clone(),
                node_id: node_id.clone(),
                request: request.duplicate(),
                response: response.duplicate(),
                timestamp: *timestamp,
            },
            WriteEvent::LlmStreamChunk { seq, run_id, node_id, chunk, timestamp } =>
                WriteEvent::LlmStreamChunk {
                seq: *seq,
                run_id: run_id.clone(),
                node_id: node_id.clone(),
                chunk: chunk.duplicate(),
                timestamp: *timestamp,
            },
            WriteEvent::TopologyHint { seq, run_id, nodes, edges, timestamp } =>
                WriteEvent::TopologyHint {
                seq: *seq,
                run_id: run_id.clone(),
                nodes: copy_texts(nodes),
                edges: copy_pairs(edges),
                timestamp: *timestamp,
            },
        }
    }
}

} // verus!
