//! The bookkeeping of an adapter session: pairing the start and end events
//! of LLM and tool calls, and collecting the graph's transitions.
use vstd::prelude::*;
use vstd::string::*;
use crate::adapters::AdapterEvent;
use crate::clock::Timestamp;
use crate::json::{json_entries_view, JsonValue, JsonView};
use crate::sorted::{sorted_unique, strictly_sorted, texts_of};
use crate::text::{join2, str_eq};
use crate::llm_call::{
    parse_llm_request, parse_llm_response, request_model, request_view, response_model, response_view,
    LlmRequestInfo, LlmResponseInfo,
};

verus! {

/// What a session records for an event.
#[derive(Debug)]
pub enum Recording {
    /// An LLM call: the request its start carried (an empty object when no
    /// start was seen) and the response its end carried, each also read
    /// into the fields a run's record keeps.
    LlmCall {
        node_id: String,
        request: JsonValue,
        response: JsonValue,
        duration_ms: u64,
        parsed_request: LlmRequestInfo,
        parsed_response: LlmResponseInfo,
    },
    /// A tool call: the name and inputs its start carried (the end's tool
    /// name and an empty object when no start was seen) and its outputs.
    ToolCall { name: String, inputs: JsonValue, outputs: JsonValue, duration_ms: u64 },
    /// A step with its data.
    Step { name: String, data: JsonValue },
}

/// A tool call that started and has not ended.
#[derive(Debug)]
pub struct PendingTool {
    pub tool_name: String,
    pub inputs: JsonValue,
    pub started: Timestamp,
}

/// The open calls and seen transitions of a session.
#[derive(Debug)]
pub struct AdapterState {
    pending_llm: Vec<(String, JsonValue)>,
    pending_tools: Vec<(String, PendingTool)>,
    seen_edges: Vec<(String, String)>,
}

/// The model of a pending tool call.
pub type PendingToolView = (Seq<char>, JsonView, Timestamp);

/// Whether `i` is the first position of key `k`.
pub open spec fn first_key(keys: Seq<Seq<char>>, k: Seq<char>, i: int) -> bool {
    &&& 0 <= i < keys.len()
    &&& keys[i] == k
    &&& forall|j: int| 0 <= j < i ==> #[trigger] keys[j] != k
}

/// The first position of key `k`.
pub open spec fn key_pos(keys: Seq<Seq<char>>, k: Seq<char>) -> Option<int> {
    if exists|i: int| first_key(keys, k, i) {
        Some(choose|i: int| first_key(keys, k, i))
    } else {
        None
    }
}

pub open spec fn keys_of<V>(m: Seq<(Seq<char>, V)>) -> Seq<Seq<char>> {
    m.map_values(|e: (Seq<char>, V)| e.0)
}

/// Puts `v` under `k`: replaces the value of an existing key in place, else
/// appends.
pub open spec fn assoc_put<V>(m: Seq<(Seq<char>, V)>, k: Seq<char>, v: V) -> Seq<(Seq<char>, V)> {
    match key_pos(keys_of(m), k) {
        Some(i) => m.update(i, (k, v)),
        None => m.push((k, v)),
    }
}

/// Takes the value under `k` out.
pub open spec fn assoc_take<V>(m: Seq<(Seq<char>, V)>, k: Seq<char>) -> (Option<V>, Seq<(Seq<char>, V)>) {
    match key_pos(keys_of(m), k) {
        Some(i) => (Some(m[i].1), m.remove(i)),
        None => (None, m),
    }
}

pub open spec fn tools_view(m: Seq<(String, PendingTool)>) -> Seq<(Seq<char>, PendingToolView)> {
    m.map_values(|e: (String, PendingTool)| (e.0@, (e.1.tool_name@, e.1.inputs@, e.1.started)))
}

pub open spec fn edges_view(m: Seq<(String, String)>) -> Seq<(Seq<char>, Seq<char>)> {
    m.map_values(|e: (String, String)| (e.0@, e.1@))
}

/// The model of a recording.
pub enum RecordingView {
    LlmCall { node_id: Seq<char>, request: JsonView, response: JsonView, duration_ms: u64 },
    ToolCall { name: Seq<char>, inputs: JsonView, outputs: JsonView, duration_ms: u64 },
    Step { name: Seq<char>, data: JsonView },
}

pub open spec fn recording_view(r: Recording) -> RecordingView {
    match r {
        Recording::LlmCall { node_id, request, response, duration_ms, .. } => RecordingView::LlmCall {
            node_id: node_id@,
            request: request@,
            response: response@,
            duration_ms,
        },
        Recording::ToolCall { name, inputs, outputs, duration_ms } => RecordingView::ToolCall {
            name: name@,
            inputs: inputs@,
            outputs: outputs@,
            duration_ms,
        },
        Recording::Step { name, data } => RecordingView::Step { name: name@, data: data@ },
    }
}

/// The model of a session state: open LLM calls, open tool calls and seen
/// transitions.
pub type SessionView = (
    Seq<(Seq<char>, JsonView)>,
    Seq<(Seq<char>, PendingToolView)>,
    Seq<(Seq<char>, Seq<char>)>,
);

/// What an event does to a session and what the session records for it.
///
/// An LLM start opens a call for its node (replacing an open one); its end
/// closes the call and records it. A tool start opens a call for its node;
/// its end closes it and records it. A transition is remembered. A step
/// start or end records a step, the end's name with `_end` appended.
pub open spec fn session_step(s: SessionView, e: crate::adapters::EventView) -> (SessionView, Option<RecordingView>) {
    match e {
        crate::adapters::EventView::LlmStart { node_id, request, .. } => (
            (assoc_put(s.0, node_id, request), s.1, s.2),
            None,
        ),
        crate::adapters::EventView::LlmEnd { node_id, response, duration_ms, .. } => {
            let (req, rest) = assoc_take(s.0, node_id);
            (
                (rest, s.1, s.2),
                Some(
                    RecordingView::LlmCall {
                        node_id,
                        request: match req {
                            Some(r) => r,
                            None => JsonView::Object(Seq::empty()),
                        },
                        response,
                        duration_ms,
                    },
                ),
            )
        },
        crate::adapters::EventView::ToolStart { node_id, tool_name, inputs, timestamp } => (
            (s.0, assoc_put(s.1, node_id, (tool_name, inputs, timestamp)), s.2),
            None,
        ),
        crate::adapters::EventView::ToolEnd { node_id, tool_name, outputs, duration_ms, .. } => {
            let (open, rest) = assoc_take(s.1, node_id);
            let (name, inputs) = match open {
                Some(p) => (p.0, p.1),
                None => (tool_name, JsonView::Object(Seq::empty())),
            };
            (
                (s.0, rest, s.2),
                Some(RecordingView::ToolCall { name, inputs, outputs, duration_ms }),
            )
        },
        crate::adapters::EventView::NodeTransition { from, to, .. } => (
            (s.0, s.1, s.2.push((from, to))),
            None,
        ),
        crate::adapters::EventView::StepStart { name, data, .. } => (
            s,
            Some(RecordingView::Step { name, data }),
        ),
        crate::adapters::EventView::StepEnd { name, data, .. } => (
            s,
            Some(RecordingView::Step { name: name + "_end"@, data }),
        ),
    }
}

proof fn lemma_first_key_unique(keys: Seq<Seq<char>>, k: Seq<char>, i: int)
    requires
        first_key(keys, k, i),
    ensures
        key_pos(keys, k) == Some(i),
{
    let c = choose|c: int| first_key(keys, k, c);
    if c < i {
        assert(keys[c] != k);
    }
    if i < c {
        assert(keys[i] != k);
    }
}

fn find_key<T>(m: &Vec<(String, T)>, k: &str) -> (r: Option<usize>)
    ensures
        match r {
            Some(i) => key_pos(m@.map_values(|e: (String, T)| e.0@), k@) == Some(i as int) && i
                < m@.len(),
            None => key_pos(m@.map_values(|e: (String, T)| e.0@), k@) is None,
        },
{
    let ghost keys = m@.map_values(|e: (String, T)| e.0@);
    let mut i: usize = 0;
    while i < m.len()
        invariant
            keys == m@.map_values(|e: (String, T)| e.0@),
            i <= m@.len(),
            forall|j: int| 0 <= j < i ==> #[trigger] keys[j] != k@,
        decreases m.len() - i,
    {
        assert(keys[i as int] == m@[i as int].0@);
        if str_eq(m[i].0.as_str(), k) {
            proof {
                lemma_first_key_unique(keys, k@, i as int);
            }
            return Some(i);
        }
        i += 1;
    }
    proof {
        if exists|c: int| first_key(keys, k@, c) {
            let c = choose|c: int| first_key(keys, k@, c);
            assert(keys[c] != k@);
        }
    }
    None
}

impl AdapterState {
    /// The model of the state.
    pub closed spec fn view_state(&self) -> SessionView {
        (json_entries_view(self.pending_llm@), tools_view(self.pending_tools@), edges_view(self.seen_edges@))
    }

    /// A session with no open calls and no transitions.
    pub fn new() -> (r: AdapterState)
        ensures
            r.view_state().0.len() == 0,
            r.view_state().1.len() == 0,
            r.view_state().2.len() == 0,
    {
        let r = AdapterState { pending_llm: Vec::new(), pending_tools: Vec::new(), seen_edges: Vec::new() };
        proof {
            crate::json::lemma_json_entries_view(r.pending_llm@);
        }
        r
    }

    /// Applies an event (see `session_step`) and returns what to record.
    pub fn handle_event(&mut self, event: AdapterEvent) -> (r: Option<Recording>)
        ensures
            final(self).view_state() == session_step(old(self).view_state(), crate::adapters::event_view(event)).0,
            match r {
                Some(x) => session_step(old(self).view_state(), crate::adapters::event_view(event)).1
                    == Some(recording_view(x)),
                None => session_step(old(self).view_state(), crate::adapters::event_view(event)).1 is None,
            },
            r matches Some(Recording::LlmCall { request, response, duration_ms, parsed_request, parsed_response, .. })
                ==> request_view(parsed_request) == request_model(request@) && response_view(parsed_response)
                == response_model(response@, duration_ms),
    {
        broadcast use crate::json::group_json_view;

        let ghost s0 = self.view_state();
        match event {
            AdapterEvent::LlmStart { node_id, request, .. } => {
                let ghost rv = request@;
                let ghost e0 = self.pending_llm@;
                match find_key(&self.pending_llm, node_id.as_str()) {
                    Some(i) => {
                        self.pending_llm.set(i, (node_id, request));
                        proof {
                            assert(keys_of(s0.0) =~= e0.map_values(|e: (String, JsonValue)| e.0@));
                            assert(json_entries_view(self.pending_llm@) =~= s0.0.update(
                                i as int,
                                (self.pending_llm@[i as int].0@, rv),
                            ));
                        }
                    },
                    None => {
                        self.pending_llm.push((node_id, request));
                        proof {
                            assert(keys_of(s0.0) =~= e0.map_values(|e: (String, JsonValue)| e.0@));
                            assert(json_entries_view(self.pending_llm@) =~= s0.0.push(
                                (self.pending_llm@.last().0@, rv),
                            ));
                        }
                    },
                }
                None
            },
            AdapterEvent::LlmEnd { node_id, response, duration_ms, .. } => {
                let ghost e0 = self.pending_llm@;
                proof {
                    assert(keys_of(s0.0) =~= e0.map_values(|e: (String, JsonValue)| e.0@));
                }
                let request = match find_key(&self.pending_llm, node_id.as_str()) {
                    Some(i) => {
                        let (_, req) = self.pending_llm.remove(i);
                        proof {
                            assert(json_entries_view(self.pending_llm@) =~= s0.0.remove(i as int));
                        }
                        req
                    },
                    None => JsonValue::Object(Vec::new()),
                };
                proof {
                    let empty: Seq<(String, JsonValue)> = Seq::empty();
                    assert(json_entries_view(empty) =~= Seq::<(Seq<char>, JsonView)>::empty());
                }
                let parsed_request = parse_llm_request(&request);
                let parsed_response = parse_llm_response(&response, duration_ms);
                Some(
                    Recording::LlmCall {
                        node_id,
                        request,
                        response,
                        duration_ms,
                        parsed_request,
                        parsed_response,
                    },
                )
            },
            AdapterEvent::ToolStart { node_id, tool_name, inputs, timestamp } => {
                let ghost e0 = self.pending_tools@;
                proof {
                    assert(keys_of(s0.1) =~= e0.map_values(|e: (String, PendingTool)| e.0@));
                }
                let p = PendingTool { tool_name, inputs, started: timestamp };
                match find_key(&self.pending_tools, node_id.as_str()) {
                    Some(i) => {
                        self.pending_tools.set(i, (node_id, p));
                        assert(tools_view(self.pending_tools@) =~= s0.1.update(
                            i as int,
                            (self.pending_tools@[i as int].0@, (
                                self.pending_tools@[i as int].1.tool_name@,
                                self.pending_tools@[i as int].1.inputs@,
                                timestamp,
                            )),
                        ));
                    },
                    None => {
                        self.pending_tools.push((node_id, p));
                        assert(tools_view(self.pending_tools@) =~= s0.1.push(
                            (self.pending_tools@.last().0@, (
                                self.pending_tools@.last().1.tool_name@,
                                self.pending_tools@.last().1.inputs@,
                                timestamp,
                            )),
                        ));
                    },
                }
                None
            },
            AdapterEvent::ToolEnd { node_id, tool_name, outputs, duration_ms, .. } => {
                let ghost e0 = self.pending_tools@;
                proof {
                    assert(keys_of(s0.1) =~= e0.map_values(|e: (String, PendingTool)| e.0@));
                }
                let (name, inputs) = match find_key(&self.pending_tools, node_id.as_str()) {
                    Some(i) => {
                        let (_, p) = self.pending_tools.remove(i);
                        assert(tools_view(self.pending_tools@) =~= s0.1.remove(i as int));
                        (p.tool_name, p.inputs)
                    },
                    None => {
                        proof {
                            let empty: Seq<(String, JsonValue)> = Seq::empty();
                            assert(json_entries_view(empty) =~= Seq::<(Seq<char>, JsonView)>::empty());
                        }
                        (tool_name, JsonValue::Object(Vec::new()))
                    },
                };
                Some(Recording::ToolCall { name, inputs, outputs, duration_ms })
            },
            AdapterEvent::NodeTransition { from, to, .. } => {
                self.seen_edges.push((from, to));
                assert(edges_view(self.seen_edges@) =~= s0.2.push(
                    (self.seen_edges@.last().0@, self.seen_edges@.last().1@),
                ));
                None
            },
            AdapterEvent::StepStart { name, data, .. } => Some(Recording::Step { name, data }),
            AdapterEvent::StepEnd { name, data, .. } => {
                let n = join2(name.as_str(), "_end");
                Some(Recording::Step { name: n, data })
            },
        }
    }

    /// The topology of the transitions seen, when there were any: the nodes
    /// they connect, sorted, each once, and the transitions in order.
    pub fn topology(&self) -> (r: Option<(Vec<String>, Vec<(String, String)>)>)
        ensures
            match r {
                None => self.view_state().2.len() == 0,
                Some((nodes, edges)) => {
                    &&& self.view_state().2.len() > 0
                    &&& edges_view(edges@) == self.view_state().2
                    &&& strictly_sorted(texts_of(nodes@))
                    &&& texts_of(nodes@).to_set() == endpoints(self.view_state().2).to_set()
                },
            },
    {
        if self.seen_edges.len() == 0 {
            return None;
        }
        let mut ends: Vec<String> = Vec::new();
        let mut edges: Vec<(String, String)> = Vec::new();
        let mut i: usize = 0;
        while i < self.seen_edges.len()
            invariant
                i <= self.seen_edges@.len(),
                texts_of(ends@) == endpoints(edges_view(self.seen_edges@).take(i as int)),
                edges_view(edges@) == edges_view(self.seen_edges@).take(i as int),
            decreases self.seen_edges.len() - i,
        {
            let (a, b) = &self.seen_edges[i];
            ends.push(String::from_str(a.as_str()));
            ends.push(String::from_str(b.as_str()));
            edges.push((String::from_str(a.as_str()), String::from_str(b.as_str())));
            proof {
                let ev = edges_view(self.seen_edges@);
                assert(ev.take(i + 1).drop_last() =~= ev.take(i as int));
                assert(texts_of(ends@) =~= endpoints(ev.take(i + 1)));
                assert(edges_view(edges@) =~= ev.take(i + 1));
            }
            i += 1;
        }
        assert(edges_view(self.seen_edges@).take(self.seen_edges@.len() as int) =~= edges_view(
            self.seen_edges@,
        ));
        let nodes = sorted_unique(&ends);
        Some((nodes, edges))
    }
}

/// The endpoints of a list of transitions, in order.
pub open spec fn endpoints(edges: Seq<(Seq<char>, Seq<char>)>) -> Seq<Seq<char>>
    decreases edges.len(),
{
    if edges.len() == 0 {
        Seq::empty()
    } else {
        endpoints(edges.drop_last()).push(edges.last().0).push(edges.last().1)
    }
}

proof fn lemma_take_after_put<V>(m: Seq<(Seq<char>, V)>, k: Seq<char>, v: V)
    ensures
        assoc_take(assoc_put(m, k, v), k).0 == Some(v),
{
    let keys = keys_of(m);
    let m2 = assoc_put(m, k, v);
    let keys2 = keys_of(m2);
    match key_pos(keys, k) {
        Some(i) => {
            let c = choose|c: int| first_key(keys, k, c);
            assert(first_key(keys, k, c));
            assert forall|j: int| 0 <= j < i implies #[trigger] keys2[j] != k by {
                assert(keys2[j] == keys[j]);
            }
            assert(keys2[i] == k);
            assert(first_key(keys2, k, i));
            lemma_first_key_unique(keys2, k, i);
        },
        None => {
            let n = m.len() as int;
            assert forall|j: int| 0 <= j < n implies #[trigger] keys2[j] != k by {
                assert(keys2[j] == keys[j]);
                if keys[j] == k {
                    lemma_exists_first(keys, k, j);
                }
            }
            assert(keys2[n] == k);
            assert(first_key(keys2, k, n));
            lemma_first_key_unique(keys2, k, n);
        },
    }
}

proof fn lemma_exists_first(keys: Seq<Seq<char>>, k: Seq<char>, j: int)
    requires
        0 <= j < keys.len(),
        keys[j] == k,
    ensures
        exists|w: int| first_key(keys, k, w),
    decreases j,
{
    if forall|x: int| 0 <= x < j ==> #[trigger] keys[x] != k {
        assert(first_key(keys, k, j));
    } else {
        let x = choose|x: int| 0 <= x < j && #[trigger] keys[x] == k;
        lemma_exists_first(keys, k, x);
    }
}

/// An LLM call's end is recorded with the request its start carried: after
/// a start for node `n`, the next event of the session being that node's
/// end records the call with the start's request and the end's response.
pub proof fn law_llm_calls_pair(
    s: SessionView,
    n: Seq<char>,
    request: JsonView,
    response: JsonView,
    duration_ms: u64,
    t1: Timestamp,
    t2: Timestamp,
)
    ensures
        session_step(
            session_step(
                s,
                crate::adapters::EventView::LlmStart { node_id: n, request, timestamp: t1 },
            ).0,
            crate::adapters::EventView::LlmEnd { node_id: n, response, duration_ms, timestamp: t2 },
        ).1 == Some(RecordingView::LlmCall { node_id: n, request, response, duration_ms }),
{
    lemma_take_after_put(s.0, n, request);
}

/// A tool call's end is recorded with the name and inputs its start carried.
pub proof fn law_tool_calls_pair(
    s: SessionView,
    n: Seq<char>,
    tool_name: Seq<char>,
    inputs: JsonView,
    end_name: Seq<char>,
    outputs: JsonView,
    duration_ms: u64,
    t1: Timestamp,
    t2: Timestamp,
)
    ensures
        session_step(
            session_step(
                s,
                crate::adapters::EventView::ToolStart { node_id: n, tool_name, inputs, timestamp: t1 },
            ).0,
            crate::adapters::EventView::ToolEnd {
                node_id: n,
                tool_name: end_name,
                outputs,
                duration_ms,
                timestamp: t2,
            },
        ).1 == Some(RecordingView::ToolCall { name: tool_name, inputs, outputs, duration_ms }),
{
    lemma_take_after_put(s.1, n, (tool_name, inputs, t1));
}

} // verus!
