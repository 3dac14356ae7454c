//! The records a run writes as it goes: node starts, completions and
//! failures, edge evaluations, and the run's completion.
use vstd::prelude::*;
use crate::attempt::AttemptStep;
use crate::clock::Timestamp;
use crate::events::{opt_text_view, view_seq, EventView, WriteEvent};
use crate::executor::{eval_view, final_status_of, EdgeEvaluation, RunState, RunStatus, EvalSpec};
use crate::json::{JsonNumber, JsonValue, JsonView};
use crate::llm_summary::{
    compute_llm_summary, law_models_of_all_requests, law_tools_of_all_calls, models_upto, response_calls,
    tokens_upto, tools_upto, LlmRunSummary,
};
use crate::json::json_get_str;
use crate::reconstruct::LlmInvocationRecord;
use crate::sorted::{strictly_sorted, texts_of};

verus! {

/// The record of one edge evaluation.
pub open spec fn edge_record(seq: u64, run_id: Seq<char>, ev: EvalSpec, timestamp: Timestamp) -> EventView {
    EventView::EdgeEvaluated {
        seq,
        run_id,
        edge_id: ev.0,
        condition: ev.1,
        result: ev.2,
        data_summary: ev.3,
        timestamp,
    }
}

impl EdgeEvaluation {
    /// The record of this evaluation, with sequence number `seq`.
    pub fn to_event(&self, seq: u64, run_id: &str, timestamp: Timestamp) -> (r: WriteEvent)
        ensures
            r@ == edge_record(seq, run_id@, eval_view(*self), timestamp),
    {
        WriteEvent::EdgeEvaluated {
            seq,
            run_id: run_id.to_string(),
            edge_id: self.edge_id.clone(),
            condition: match &self.condition {
                Some(text) => Some(text.clone()),
                None => None,
            },
            result: self.passed,
            data_summary: self.data_summary.duplicate(),
            timestamp,
        }
    }
}

/// The records of the evaluations of a completion's edges, one per
/// evaluation, in order, numbered from `first_seq` on.
pub fn evaluation_events(evals: &Vec<EdgeEvaluation>, first_seq: u64, run_id: &str, timestamp: Timestamp) -> (r:
    Vec<WriteEvent>)
    requires
        first_seq + evals@.len() <= u64::MAX,
    ensures
        r@.len() == evals@.len(),
        forall|i: int|
            0 <= i < evals@.len() ==> (#[trigger] r@[i])@ == edge_record(
                (first_seq + i) as u64,
                run_id@,
                eval_view(evals@[i]),
                timestamp,
            ),
{
    let mut out: Vec<WriteEvent> = Vec::new();
    let mut i: usize = 0;
    while i < evals.len()
        invariant
            i <= evals@.len(),
            out@.len() == i,
            first_seq + evals@.len() <= u64::MAX,
            forall|j: int|
                0 <= j < i ==> (#[trigger] out@[j])@ == edge_record(
                    (first_seq + j) as u64,
                    run_id@,
                    eval_view(evals@[j]),
                    timestamp,
                ),
        decreases evals.len() - i,
    {
        out.push(evals[i].to_event(first_seq + i as u64, run_id, timestamp));
        i += 1;
    }
    out
}

/// The record, numbered `seq`, of the start of attempt `attempt` of a node
/// (of its fan-out instance `fan_out_index`) on `inputs`.
pub fn node_started_event(
    seq: u64,
    run_id: &str,
    node_id: &str,
    inputs: &JsonValue,
    fan_out_index: Option<u32>,
    attempt: u32,
    timestamp: Timestamp,
) -> (r: WriteEvent)
    ensures
        r@ == (EventView::NodeStarted {
            seq,
            run_id: run_id@,
            node_id: node_id@,
            inputs: inputs@,
            fan_out_index,
            attempt,
            timestamp,
        }),
{
    WriteEvent::NodeStarted {
        seq,
        run_id: run_id.to_string(),
        node_id: node_id.to_string(),
        inputs: inputs.duplicate(),
        fan_out_index,
        attempt,
        timestamp,
    }
}

/// The record of how attempt `attempt` ended: the node's completion with
/// its outputs, or the attempt's failure with its message and whether it
/// is retried.
pub open spec fn attempt_record(
    seq: u64,
    run_id: Seq<char>,
    node_id: Seq<char>,
    fan_out_index: Option<u32>,
    attempt: u32,
    step: AttemptStep,
    duration_ms: u64,
    timestamp: Timestamp,
) -> EventView {
    match step {
        AttemptStep::Complete(outputs) => EventView::NodeCompleted {
            seq,
            run_id,
            node_id,
            outputs: outputs@,
            fan_out_index,
            duration_ms,
            timestamp,
        },
        AttemptStep::Failed { message, will_retry } => EventView::NodeFailed {
            seq,
            run_id,
            node_id,
            error: message@,
            will_retry,
            attempt,
            timestamp,
        },
    }
}

/// The record, numbered `seq`, of how an attempt ended (see `attempt_record`).
pub fn attempt_event(
    seq: u64,
    run_id: &str,
    node_id: &str,
    fan_out_index: Option<u32>,
    attempt: u32,
    step: &AttemptStep,
    duration_ms: u64,
    timestamp: Timestamp,
) -> (r: WriteEvent)
    ensures
        r@ == attempt_record(seq, run_id@, node_id@, fan_out_index, attempt, *step, duration_ms, timestamp),
{
    match step {
        AttemptStep::Complete(outputs) => WriteEvent::NodeCompleted {
            seq,
            run_id: run_id.to_string(),
            node_id: node_id.to_string(),
            outputs: outputs.duplicate(),
            fan_out_index,
            duration_ms,
            timestamp,
        },
        AttemptStep::Failed { message, will_retry } => WriteEvent::NodeFailed {
            seq,
            run_id: run_id.to_string(),
            node_id: node_id.to_string(),
            error: message.clone(),
            will_retry: *will_retry,
            attempt,
            timestamp,
        },
    }
}

/// The record, numbered `seq`, of the run's completion with its status
/// and, when the run made LLM calls, their summary.
pub fn run_completed_event(
    seq: u64,
    run_id: &str,
    status: RunStatus,
    duration_ms: u64,
    llm_summary: Option<JsonValue>,
    timestamp: Timestamp,
) -> (r: WriteEvent)
    ensures
        r@ == (EventView::RunCompleted {
            seq,
            run_id: run_id@,
            status,
            duration_ms,
            llm_summary: match llm_summary {
                Some(v) => Some(v@),
                None => None,
            },
            timestamp,
        }),
{
    WriteEvent::RunCompleted { seq, run_id: run_id.to_string(), status, duration_ms, llm_summary, timestamp }
}

/// `s` summarizes the LLM calls `records` (see `compute_llm_summary`).
pub open spec fn summary_of(records: Seq<LlmInvocationRecord>, s: LlmRunSummary) -> bool {
    &&& s.total_llm_calls == #[verifier::truncate] (records.len() as u32)
    &&& s.total_input_tokens == tokens_upto(records, "input_tokens"@, records.len() as int)
    &&& s.total_output_tokens == tokens_upto(records, "output_tokens"@, records.len() as int)
    &&& strictly_sorted(texts_of(s.models_used@))
    &&& texts_of(s.models_used@).to_set() == models_upto(records, records.len() as int).to_set()
    &&& strictly_sorted(texts_of(s.tools_invoked@))
    &&& texts_of(s.tools_invoked@).to_set() == tools_upto(records, records.len() as int).to_set()
}

/// A run's LLM summary lists every tool that any call of any response
/// asked for, and no other, and every model any request named, and no
/// other.
pub proof fn law_summary_lists_tools_and_models(records: Seq<LlmInvocationRecord>, s: LlmRunSummary, t: Seq<char>)
    requires
        summary_of(records, s),
    ensures
        texts_of(s.tools_invoked@).contains(t) <==> exists|i: int, j: int|
            0 <= i < records.len() && 0 <= j < response_calls(records[i].response@).len() && json_get_str(
                #[trigger] response_calls(records[i].response@)[j],
                "tool_name"@,
            ) == Some(t),
        texts_of(s.models_used@).contains(t) <==> exists|i: int|
            0 <= i < records.len() && json_get_str(#[trigger] records[i].request@, "model"@) == Some(t),
{
    law_tools_of_all_calls(records, records.len() as int, t);
    law_models_of_all_requests(records, records.len() as int, t);
    assert(texts_of(s.tools_invoked@).to_set().contains(t) == texts_of(s.tools_invoked@).contains(t));
    assert(tools_upto(records, records.len() as int).to_set().contains(t) == tools_upto(records, records.len() as int).contains(t));
    assert(texts_of(s.models_used@).to_set().contains(t) == texts_of(s.models_used@).contains(t));
    assert(models_upto(records, records.len() as int).to_set().contains(t) == models_upto(records, records.len() as int).contains(t));
}

impl RunState {
    /// How the run ends: its final status (see `final_status`) and, when it
    /// made LLM calls, their summary; no summary when it made none.
    pub fn finish(&self, cancelled: bool, llm_records: &Vec<LlmInvocationRecord>) -> (r: (
        RunStatus,
        Option<LlmRunSummary>,
    ))
        requires
            tokens_upto(llm_records@, "input_tokens"@, llm_records@.len() as int) <= u64::MAX,
            tokens_upto(llm_records@, "output_tokens"@, llm_records@.len() as int) <= u64::MAX,
        ensures
            r.0 == final_status_of(*self, cancelled),
            r.1 is None <==> llm_records@.len() == 0,
            r.1 matches Some(s) ==> summary_of(llm_records@, s),
    {
        let status = self.final_status(cancelled);
        if llm_records.len() == 0 {
            (status, None)
        } else {
            (status, Some(compute_llm_summary(llm_records)))
        }
    }
}


/// The records of how an attempt ended, numbered from `seq` on: a
/// completion is followed by a checkpoint of the node's outputs; a failure
/// is one record (see `attempt_record`).
pub open spec fn attempt_records(
    seq: u64,
    run_id: Seq<char>,
    node_id: Seq<char>,
    fan_out_index: Option<u32>,
    attempt: u32,
    step: AttemptStep,
    duration_ms: u64,
    timestamp: Timestamp,
) -> Seq<EventView> {
    let first = attempt_record(seq, run_id, node_id, fan_out_index, attempt, step, duration_ms, timestamp);
    match step {
        AttemptStep::Complete(outputs) => seq![
            first,
            EventView::Checkpoint {
                seq: (seq + 1) as u64,
                run_id,
                node_id,
                state_snapshot: outputs@,
                timestamp,
            },
        ],
        AttemptStep::Failed { .. } => seq![first],
    }
}

pub open spec fn events_seq_view(s: Seq<WriteEvent>) -> Seq<EventView> {
    s.map_values(|e: WriteEvent| e@)
}

/// The records of how an attempt ended (see `attempt_records`).
pub fn attempt_events(
    seq: u64,
    run_id: &str,
    node_id: &str,
    fan_out_index: Option<u32>,
    attempt: u32,
    step: &AttemptStep,
    duration_ms: u64,
    timestamp: Timestamp,
) -> (r: Vec<WriteEvent>)
    requires
        seq < u64::MAX,
    ensures
        events_seq_view(r@) == attempt_records(
            seq,
            run_id@,
            node_id@,
            fan_out_index,
            attempt,
            *step,
            duration_ms,
            timestamp,
        ),
{
    let mut out: Vec<WriteEvent> = Vec::new();
    out.push(attempt_event(seq, run_id, node_id, fan_out_index, attempt, step, duration_ms, timestamp));
    match step {
        AttemptStep::Complete(outputs) => {
            out.push(
                WriteEvent::Checkpoint {
                    seq: seq + 1,
                    run_id: run_id.to_string(),
                    node_id: node_id.to_string(),
                    state_snapshot: outputs.duplicate(),
                    timestamp,
                },
            );
        },
        AttemptStep::Failed { .. } => {},
    }
    assert(events_seq_view(out@) =~= attempt_records(
        seq,
        run_id@,
        node_id@,
        fan_out_index,
        attempt,
        *step,
        duration_ms,
        timestamp,
    ));
    out
}

/// The record, numbered `seq`, of the start of a run of a flow version on
/// trigger inputs.
pub fn run_started_event(
    seq: u64,
    run_id: &str,
    flow_id: &str,
    version_id: &str,
    trigger_inputs: &JsonValue,
    triggered_by: &JsonValue,
    config_hash: Option<String>,
    parent_run_id: Option<String>,
    timestamp: Timestamp,
) -> (r: WriteEvent)
    ensures
        r@ == (EventView::RunStarted {
            seq,
            run_id: run_id@,
            flow_id: flow_id@,
            version_id: version_id@,
            trigger_inputs: trigger_inputs@,
            triggered_by: triggered_by@,
            config_hash: opt_text_view(config_hash),
            parent_run_id: opt_text_view(parent_run_id),
            timestamp,
        }),
{
    WriteEvent::RunStarted {
        seq,
        run_id: run_id.to_string(),
        flow_id: flow_id.to_string(),
        version_id: version_id.to_string(),
        trigger_inputs: trigger_inputs.duplicate(),
        triggered_by: triggered_by.duplicate(),
        config_hash,
        parent_run_id,
        timestamp,
    }
}

/// The record, numbered `seq`, of one LLM call of a node.
pub fn llm_invocation_event(
    seq: u64,
    run_id: &str,
    node_id: &str,
    request: &JsonValue,
    response: &JsonValue,
    timestamp: Timestamp,
) -> (r: WriteEvent)
    ensures
        r@ == (EventView::LlmInvocation {
            seq,
            run_id: run_id@,
            node_id: node_id@,
            request: request@,
            response: response@,
            timestamp,
        }),
{
    WriteEvent::LlmInvocation {
        seq,
        run_id: run_id.to_string(),
        node_id: node_id.to_string(),
        request: request.duplicate(),
        response: response.duplicate(),
        timestamp,
    }
}

/// A list of texts as a JSON array of strings.
pub open spec fn texts_json(v: Seq<Seq<char>>) -> JsonView {
    JsonView::Array(v.map_values(|t: Seq<char>| JsonView::Str(t)))
}

/// The LLM summary as the run's record keeps it: the counts, the total
/// cost (null when no response reported one) and the models and tools.
pub open spec fn summary_json(s: LlmRunSummary, total_cost: Option<JsonNumber>) -> JsonView {
    JsonView::Object(
        seq![
            ("total_llm_calls"@, JsonView::Number(JsonNumber::PosInt(s.total_llm_calls as u64))),
            ("total_input_tokens"@, JsonView::Number(JsonNumber::PosInt(s.total_input_tokens))),
            ("total_output_tokens"@, JsonView::Number(JsonNumber::PosInt(s.total_output_tokens))),
            ("total_cost_usd"@, match total_cost {
                Some(c) => JsonView::Number(c),
                None => JsonView::Null,
            }),
            ("models_used"@, texts_json(texts_of(s.models_used@))),
            ("tools_invoked"@, texts_json(texts_of(s.tools_invoked@))),
        ],
    )
}

fn texts_to_json(v: &Vec<String>) -> (r: JsonValue)
    ensures
        r@ == texts_json(texts_of(v@)),
{
    broadcast use crate::json::group_json_view;

    let mut items: Vec<JsonValue> = Vec::new();
    let mut i: usize = 0;
    while i < v.len()
        invariant
            i <= v@.len(),
            items@.len() == i,
            forall|j: int| 0 <= j < i ==> #[trigger] items@[j]@ == JsonView::Str(v@[j]@),
        decreases v.len() - i,
    {
        items.push(JsonValue::Str(v[i].clone()));
        i += 1;
    }
    proof {
        crate::json::lemma_json_seq_view(items@);
        assert forall|j: int| 0 <= j < items@.len() implies crate::json::json_seq_view(items@)[j]
            == texts_json(texts_of(v@))->Array_0[j] by {
            crate::json::lemma_json_seq_view_index(items@, j);
            assert(items@[j]@ == JsonView::Str(v@[j]@));
            assert(texts_of(v@)[j] == v@[j]@);
        }
        assert(crate::json::json_seq_view(items@) =~= texts_json(texts_of(v@))->Array_0);
    }
    JsonValue::Array(items)
}

/// The LLM summary in the run record's form (see `summary_json`).
pub fn summary_to_json(s: &LlmRunSummary, total_cost: Option<JsonNumber>) -> (r: JsonValue)
    ensures
        r@ == summary_json(*s, total_cost),
{
    broadcast use crate::json::group_json_view;

    let mut entries: Vec<(String, JsonValue)> = Vec::new();
    entries.push(
        ("total_llm_calls".to_string(), JsonValue::Number(JsonNumber::PosInt(s.total_llm_calls as u64))),
    );
    entries.push(
        ("total_input_tokens".to_string(), JsonValue::Number(JsonNumber::PosInt(s.total_input_tokens))),
    );
    entries.push(
        ("total_output_tokens".to_string(), JsonValue::Number(JsonNumber::PosInt(s.total_output_tokens))),
    );
    entries.push(
        ("total_cost_usd".to_string(), match total_cost {
            Some(c) => JsonValue::Number(c),
            None => JsonValue::Null,
        }),
    );
    entries.push(("models_used".to_string(), texts_to_json(&s.models_used)));
    entries.push(("tools_invoked".to_string(), texts_to_json(&s.tools_invoked)));
    proof {
        crate::json::lemma_json_entries_view(entries@);
        assert forall|i: int| 0 <= i < entries@.len() implies crate::json::json_entries_view(entries@)[i]
            == summary_json(*s, total_cost)->Object_0[i] by {
            crate::json::lemma_json_entries_view_index(entries@, i);
        }
        assert(crate::json::json_entries_view(entries@) =~= summary_json(*s, total_cost)->Object_0);
    }
    JsonValue::Object(entries)
}

impl RunState {
    /// The end of a run: its final status, the summary of its LLM calls
    /// (none when it made none), and the record, numbered `seq`, of its
    /// completion with that status and the summary with `total_cost`.
    pub fn completion(
        &self,
        seq: u64,
        run_id: &str,
        cancelled: bool,
        llm_records: &Vec<LlmInvocationRecord>,
        total_cost: Option<JsonNumber>,
        duration_ms: u64,
        timestamp: Timestamp,
    ) -> (r: (RunStatus, Option<LlmRunSummary>, WriteEvent))
        requires
            tokens_upto(llm_records@, "input_tokens"@, llm_records@.len() as int) <= u64::MAX,
            tokens_upto(llm_records@, "output_tokens"@, llm_records@.len() as int) <= u64::MAX,
        ensures
            r.0 == final_status_of(*self, cancelled),
            r.1 is None <==> llm_records@.len() == 0,
            r.1 matches Some(s) ==> summary_of(llm_records@, s),
            r.2@ == (EventView::RunCompleted {
                seq,
                run_id: run_id@,
                status: r.0,
                duration_ms,
                llm_summary: match r.1 {
                    Some(s) => Some(summary_json(s, total_cost)),
                    None => None,
                },
                timestamp,
            }),
    {
        let (status, summary) = self.finish(cancelled, llm_records);
        let json = match &summary {
            Some(s) => Some(summary_to_json(s, total_cost)),
            None => None,
        };
        let event = run_completed_event(seq, run_id, status, duration_ms, json, timestamp);
        (status, summary, event)
    }
}

/// The greatest sequence number among `events`, 0 when there is none.
pub open spec fn max_seq(events: Seq<EventView>) -> u64
    decreases events.len(),
{
    if events.len() == 0 {
        0
    } else {
        let rest = max_seq(events.drop_last());
        let last = view_seq(events.last());
        if last > rest {
            last
        } else {
            rest
        }
    }
}

/// The record that marks a run found still running at a restart as
/// interrupted: a completion with status `Interrupted`, numbered one past
/// the run's greatest sequence number; `None` when that number is the
/// greatest there is.
pub fn interrupted_event(events: &Vec<WriteEvent>, run_id: &str, timestamp: Timestamp) -> (r: Option<
    WriteEvent,
>)
    ensures
        max_seq(events_seq_view(events@)) == u64::MAX ==> r is None,
        max_seq(events_seq_view(events@)) < u64::MAX ==> (r matches Some(e) && e@ == (
        EventView::RunCompleted {
            seq: (max_seq(events_seq_view(events@)) + 1) as u64,
            run_id: run_id@,
            status: RunStatus::Interrupted,
            duration_ms: 0,
            llm_summary: None,
            timestamp,
        })),
{
    let mut top: u64 = 0;
    let mut i: usize = 0;
    while i < events.len()
        invariant
            i <= events@.len(),
            top == max_seq(events_seq_view(events@).take(i as int)),
        decreases events.len() - i,
    {
        let s = events[i].seq();
        assert(events_seq_view(events@).take(i + 1).drop_last() =~= events_seq_view(events@).take(i as int));
        if s > top {
            top = s;
        }
        i += 1;
    }
    assert(events_seq_view(events@).take(events@.len() as int) =~= events_seq_view(events@));
    if top == u64::MAX {
        None
    } else {
        Some(run_completed_event(top + 1, run_id, RunStatus::Interrupted, 0, None, timestamp))
    }
}

} // verus!
