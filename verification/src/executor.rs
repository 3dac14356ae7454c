//! The decisions of a flow run: which nodes become ready, how edges are
//! traversed, fan-out and fan-in, and the final status.
//!
//! A run is driven from outside: whoever runs the nodes reports each finished
//! node here and receives the nodes to start next. Edge conditions are
//! evaluated outside too; their results are handed in, one per edge.
use vstd::prelude::*;
use vstd::string::*;
use crate::graph::{Edge, GraphDef, NodeInstance};
use crate::json::{json_get, JsonValue, JsonView};
use crate::strset::StrSet;
use crate::text::str_eq;
use crate::events::opt_text_view;

verus! {

/// The status of a run.
#[derive(Debug, Clone, Copy, PartialEq, Eq, Structural)]
pub enum RunStatus {
    Pending,
    Running,
    Completed,
    Failed,
    Cancelled,
    Interrupted,
}

/// The run status a status name stands for: `completed`, `failed` or
/// `cancelled`; any other name counts as completed.
pub fn status_from_str(s: &str) -> (r: RunStatus)
    ensures
        r == (if s@ == "failed"@ {
            RunStatus::Failed
        } else if s@ == "cancelled"@ {
            RunStatus::Cancelled
        } else {
            RunStatus::Completed
        }),
{
    if str_eq(s, "failed") {
        RunStatus::Failed
    } else if str_eq(s, "cancelled") {
        RunStatus::Cancelled
    } else {
        RunStatus::Completed
    }
}

/// How one execution of a node ended.
#[derive(Debug)]
pub enum NodeOutcome {
    Success(JsonValue),
    Failed(String),
}

/// A node execution that finished.
#[derive(Debug)]
pub struct NodeFinished {
    pub node_id: String,
    /// The instance index when the node ran as part of a fan-out.
    pub fan_out_index: Option<u32>,
    pub outcome: NodeOutcome,
}

/// A node execution to start. Without `override_inputs` the node reads its
/// inputs from its upstream nodes' outputs.
#[derive(Debug)]
pub struct SpawnRequest {
    pub node_id: String,
    pub fan_out_index: Option<u32>,
    pub override_inputs: Option<JsonValue>,
}

/// The outcome of evaluating one edge after its source completed: the
/// edge's condition expression, whether the edge passed, and the source's
/// outputs the condition was evaluated on.
#[derive(Debug)]
pub struct EdgeEvaluation {
    pub edge_id: String,
    pub condition: Option<String>,
    pub passed: bool,
    pub data_summary: JsonValue,
}

/// The progress of a node's fan-out instances.
#[derive(Debug)]
pub struct FanOutState {
    pub expected: u32,
    pub results: Vec<Option<JsonValue>>,
    pub completed: u32,
}

/// Whether `i` is the first node with id `id`.
pub open spec fn first_node(nodes: Seq<NodeInstance>, id: Seq<char>, i: int) -> bool {
    &&& 0 <= i < nodes.len()
    &&& nodes[i].instance_id@ == id
    &&& forall|j: int| 0 <= j < i ==> #[trigger] nodes[j].instance_id@ != id
}

/// The index of the first node with id `id`.
pub open spec fn node_slot(nodes: Seq<NodeInstance>, id: Seq<char>) -> Option<int> {
    if exists|i: int| first_node(nodes, id, i) {
        Some(choose|i: int| first_node(nodes, id, i))
    } else {
        None
    }
}

/// Whether `i` is the first edge with id `id`.
pub open spec fn first_edge(edges: Seq<Edge>, id: Seq<char>, i: int) -> bool {
    &&& 0 <= i < edges.len()
    &&& edges[i].id@ == id
    &&& forall|j: int| 0 <= j < i ==> #[trigger] edges[j].id@ != id
}

/// The index of the first edge with id `id`.
pub open spec fn edge_slot(edges: Seq<Edge>, id: Seq<char>) -> Option<int> {
    if exists|i: int| first_edge(edges, id, i) {
        Some(choose|i: int| first_edge(edges, id, i))
    } else {
        None
    }
}

proof fn lemma_first_node_unique(nodes: Seq<NodeInstance>, id: Seq<char>, i: int)
    requires
        first_node(nodes, id, i),
    ensures
        node_slot(nodes, id) == Some(i),
{
    let k = choose|k: int| first_node(nodes, id, k);
    if k < i {
        assert(nodes[k].instance_id@ != id);
    }
    if i < k {
        assert(nodes[i].instance_id@ != id);
    }
}

proof fn lemma_first_edge_unique(edges: Seq<Edge>, id: Seq<char>, i: int)
    requires
        first_edge(edges, id, i),
    ensures
        edge_slot(edges, id) == Some(i),
{
    let k = choose|k: int| first_edge(edges, id, k);
    if k < i {
        assert(edges[k].id@ != id);
    }
    if i < k {
        assert(edges[i].id@ != id);
    }
}

/// The index of the first node with id `id`.
pub fn find_node_slot(nodes: &Vec<NodeInstance>, id: &str) -> (r: Option<usize>)
    ensures
        match r {
            Some(i) => node_slot(nodes@, id@) == Some(i as int),
            None => node_slot(nodes@, id@) is None,
        },
{
    let mut i: usize = 0;
    while i < nodes.len()
        invariant
            i <= nodes@.len(),
            forall|j: int| 0 <= j < i ==> #[trigger] nodes@[j].instance_id@ != id@,
        decreases nodes.len() - i,
    {
        if str_eq(nodes[i].instance_id.as_str(), id) {
            proof {
                lemma_first_node_unique(nodes@, id@, i as int);
            }
            return Some(i);
        }
        i += 1;
    }
    proof {
        if exists|i: int| first_node(nodes@, id@, i) {
            let k = choose|k: int| first_node(nodes@, id@, k);
            assert(nodes@[k].instance_id@ != id@);
        }
    }
    None
}

/// The index of the first edge with id `id`.
pub fn find_edge_slot(edges: &Vec<Edge>, id: &str) -> (r: Option<usize>)
    ensures
        match r {
            Some(i) => edge_slot(edges@, id@) == Some(i as int),
            None => edge_slot(edges@, id@) is None,
        },
{
    let mut i: usize = 0;
    while i < edges.len()
        invariant
            i <= edges@.len(),
            forall|j: int| 0 <= j < i ==> #[trigger] edges@[j].id@ != id@,
        decreases edges.len() - i,
    {
        if str_eq(edges[i].id.as_str(), id) {
            proof {
                lemma_first_edge_unique(edges@, id@, i as int);
            }
            return Some(i);
        }
        i += 1;
    }
    proof {
        if exists|i: int| first_edge(edges@, id@, i) {
            let k = choose|k: int| first_edge(edges@, id@, k);
            assert(edges@[k].id@ != id@);
        }
    }
    None
}

/// The state of a run between node completions.
///
/// Outputs and fan-out progress are kept per node (at the first node with
/// the id), traversal counts per edge (at the first edge with the id).
pub struct RunState {
    pub graph: GraphDef,
    pub max_traversals: u32,
    pub back_edges: StrSet,
    pub completed: StrSet,
    pub failed: StrSet,
    pub running: StrSet,
    pub outputs: Vec<Option<JsonValue>>,
    pub counts: Vec<u32>,
    pub fan_out: Vec<Option<FanOutState>>,
    /// Fan-out targets that are not nodes of the graph: they never finish.
    pub stalled_fan_outs: StrSet,
}

/// The view of an optional value.
pub open spec fn opt_view(o: Option<JsonValue>) -> Option<JsonView> {
    match o {
        Some(v) => Some(v@),
        None => None,
    }
}

impl RunState {
    /// The shapes of the per-node and per-edge tables agree with the graph.
    pub open spec fn wf(&self) -> bool {
        &&& self.outputs@.len() == self.graph.nodes@.len()
        &&& self.fan_out@.len() == self.graph.nodes@.len()
        &&& self.counts@.len() == self.graph.edges@.len()
    }

    /// The latest output of node `id`.
    pub open spec fn output_of(&self, id: Seq<char>) -> Option<JsonView> {
        match node_slot(self.graph.nodes@, id) {
            Some(i) => opt_view(self.outputs@[i]),
            None => None,
        }
    }

    /// Whether node `id` has completed or failed.
    pub open spec fn is_done(&self, id: Seq<char>) -> bool {
        self.completed@.contains(id) || self.failed@.contains(id)
    }
}

/// Whether edge `e` passes its condition: always without one, else by its
/// evaluated result.
pub open spec fn cond_passes(edges: Seq<Edge>, conds: Seq<bool>, e: int) -> bool {
    edges[e].condition is None || conds[e]
}

/// A node is ready when every upstream source of a non-back-edge is done
/// (completed or failed) and at least one such edge from a completed source
/// with an output passes its condition within the traversal limit. A node
/// without incoming edges is always ready.
pub open spec fn node_ready(st: RunState, counts: Seq<u32>, conds: Seq<bool>, target: Seq<char>) -> bool {
    if !(exists|e: int| #[trigger] is_incoming(st, target, e)) {
        true
    } else {
        &&& forall|e: int| #[trigger] considered(st, target, e) ==> st.is_done(st.graph.edges@[e].from_node@)
        &&& exists|e: int| #[trigger] considered(st, target, e) && edge_passing(st, counts, conds, e)
    }
}

/// Whether edge `e` ends at `target`.
pub open spec fn is_incoming(st: RunState, target: Seq<char>, e: int) -> bool {
    0 <= e < st.graph.edges@.len() && st.graph.edges@[e].to_node@ == target
}

/// Whether edge `e` ends at `target` and is not a back-edge.
pub open spec fn considered(st: RunState, target: Seq<char>, e: int) -> bool {
    is_incoming(st, target, e) && !st.back_edges@.contains(st.graph.edges@[e].id@)
}

/// Whether edge `e` comes from a completed node with an output and passes
/// its condition within the traversal limit.
pub open spec fn edge_passing(st: RunState, counts: Seq<u32>, conds: Seq<bool>, e: int) -> bool {
    let edges = st.graph.edges@;
    &&& st.completed@.contains(edges[e].from_node@)
    &&& st.output_of(edges[e].from_node@) is Some
    &&& cond_passes(edges, conds, e)
    &&& count_at(st, counts, edges[e].id@) <= st.max_traversals
}

/// The traversal count of edge id `id` in the table `counts`.
pub open spec fn count_at(st: RunState, counts: Seq<u32>, id: Seq<char>) -> nat {
    match edge_slot(st.graph.edges@, id) {
        Some(i) => counts[i] as nat,
        None => 0,
    }
}

impl RunState {
    fn output_exists(&self, id: &str) -> (r: bool)
        requires
            self.wf(),
        ensures
            r == (self.output_of(id@) is Some),
    {
        match find_node_slot(&self.graph.nodes, id) {
            Some(i) => self.outputs[i].is_some(),
            None => false,
        }
    }

    fn count_in(&self, counts: &Vec<u32>, id: &str) -> (r: u32)
        requires
            counts@.len() == self.graph.edges@.len(),
        ensures
            r as nat == count_at(*self, counts@, id@),
    {
        match find_edge_slot(&self.graph.edges, id) {
            Some(i) => counts[i],
            None => 0,
        }
    }

    /// Whether `target` is ready to run, with traversal counts `counts` and
    /// condition results `conds` (one per edge).
    pub fn is_node_ready(&self, counts: &Vec<u32>, conds: &Vec<bool>, target: &str) -> (r: bool)
        requires
            self.wf(),
            counts@.len() == self.graph.edges@.len(),
            conds@.len() == self.graph.edges@.len(),
        ensures
            r == node_ready(*self, counts@, conds@, target@),
    {
        let edges = &self.graph.edges;
        let mut has_incoming = false;
        let mut has_passing = false;
        let mut e: usize = 0;
        while e < edges.len()
            invariant
                self.wf(),
                edges == &self.graph.edges,
                counts@.len() == edges@.len(),
                conds@.len() == edges@.len(),
                e <= edges@.len(),
                has_incoming == exists|k: int| 0 <= k < e && #[trigger] is_incoming(*self, target@, k),
                forall|k: int|
                    0 <= k < e && #[trigger] considered(*self, target@, k) ==> self.is_done(
                        edges@[k].from_node@,
                    ),
                has_passing == exists|k: int|
                    0 <= k < e && #[trigger] considered(*self, target@, k) && edge_passing(
                        *self,
                        counts@,
                        conds@,
                        k,
                    ),
            decreases edges.len() - e,
        {
            let edge = &edges[e];
            if str_eq(edge.to_node.as_str(), target) {
                has_incoming = true;
                proof {
                    assert(is_incoming(*self, target@, e as int));
                }
                if !self.back_edges.contains(edge.id.as_str()) {
                    let from = edge.from_node.as_str();
                    let source_done = self.completed.contains(from) || self.failed.contains(from);
                    if !source_done {
                        proof {
                            assert(considered(*self, target@, e as int));
                            assert(is_incoming(*self, target@, e as int));
                        }
                        return false;
                    }
                    if self.completed.contains(from) && self.output_exists(from) {
                        let passes = match &edge.condition {
                            None => true,
                            Some(_) => conds[e],
                        };
                        let count = self.count_in(counts, edge.id.as_str());
                        if passes && count <= self.max_traversals {
                            has_passing = true;
                            proof {
                                assert(considered(*self, target@, e as int));
                                assert(edge_passing(*self, counts@, conds@, e as int));
                            }
                        }
                    }
                }
            }
            e += 1;
        }
        if !has_incoming {
            return true;
        }
        proof {
            assert forall|k: int| #[trigger] considered(*self, target@, k) implies self.is_done(
                edges@[k].from_node@,
            ) by {}
        }
        has_passing
    }

    /// The nodes that can still run after `failed_node` failed: for each
    /// edge leaving it, in order, the target when it is not completed,
    /// failed or running, all its sources are done and at least one of them
    /// completed.
    pub fn find_ready_after_failure(&self, failed_node: &str) -> (r: Vec<String>)
        ensures
            texts_of(r@) == ready_after_failure(
                self.graph.edges@,
                self.completed@,
                self.failed@,
                self.running@,
                failed_node@,
            ),
    {
        let edges = &self.graph.edges;
        let ghost (done, bad, busy) = (self.completed@, self.failed@, self.running@);
        let mut ready: Vec<String> = Vec::new();
        let mut e: usize = 0;
        while e < edges.len()
            invariant
                edges == &self.graph.edges,
                done == self.completed@,
                bad == self.failed@,
                busy == self.running@,
                e <= edges@.len(),
                texts_of(ready@) == ready_after_failure_upto(edges@, done, bad, busy, failed_node@, e as int),
            decreases edges.len() - e,
        {
            let edge = &edges[e];
            if str_eq(edge.from_node.as_str(), failed_node) {
                let target = edge.to_node.as_str();
                if !(self.completed.contains(target) || self.failed.contains(target)
                    || self.running.contains(target)) {
                    let (all_done, any_completed) = self.sources_of(target);
                    if all_done && any_completed {
                        ready.push(String::from_str(target));
                    }
                }
            }
            assert(texts_of(ready@) =~= ready_after_failure_upto(edges@, done, bad, busy, failed_node@, e + 1));
            e += 1;
        }
        ready
    }

    /// Whether every source of an edge into `target` is done, and whether
    /// one of them completed.
    fn sources_of(&self, target: &str) -> (r: (bool, bool))
        ensures
            r.0 == forall|k: int|
                0 <= k < self.graph.edges@.len() && #[trigger] self.graph.edges@[k].to_node@ == target@
                    ==> self.is_done(self.graph.edges@[k].from_node@),
            r.1 == exists|k: int|
                0 <= k < self.graph.edges@.len() && #[trigger] self.graph.edges@[k].to_node@ == target@
                    && self.completed@.contains(self.graph.edges@[k].from_node@),
    {
        let edges = &self.graph.edges;
        let mut all_done = true;
        let mut any_completed = false;
        let mut e: usize = 0;
        while e < edges.len()
            invariant
                edges == &self.graph.edges,
                e <= edges@.len(),
                all_done == forall|k: int|
                    0 <= k < e && #[trigger] edges@[k].to_node@ == target@ ==> self.is_done(
                        edges@[k].from_node@,
                    ),
                any_completed == exists|k: int|
                    0 <= k < e && #[trigger] edges@[k].to_node@ == target@ && self.completed@.contains(
                        edges@[k].from_node@,
                    ),
            decreases edges.len() - e,
        {
            let edge = &edges[e];
            if str_eq(edge.to_node.as_str(), target) {
                let from = edge.from_node.as_str();
                let c = self.completed.contains(from);
                if !(c || self.failed.contains(from)) {
                    all_done = false;
                }
                if c {
                    any_completed = true;
                }
                proof {
                    assert(edges@[e as int].to_node@ == target@);
                }
            }
            e += 1;
        }
        (all_done, any_completed)
    }

    /// Whether every node of the graph has completed or failed.
    pub fn all_reachable_done(&self) -> (r: bool)
        ensures
            r == forall|i: int|
                0 <= i < self.graph.nodes@.len() ==> self.is_done(
                    #[trigger] self.graph.nodes@[i].instance_id@,
                ),
    {
        let nodes = &self.graph.nodes;
        let mut i: usize = 0;
        while i < nodes.len()
            invariant
                nodes == &self.graph.nodes,
                i <= nodes@.len(),
                forall|j: int| 0 <= j < i ==> self.is_done(#[trigger] nodes@[j].instance_id@),
            decreases nodes.len() - i,
        {
            let id = nodes[i].instance_id.as_str();
            if !(self.completed.contains(id) || self.failed.contains(id)) {
                return false;
            }
            i += 1;
        }
        true
    }

    /// The status a run ends with: cancelled when cancelled; failed when
    /// nothing runs, some node neither completed nor failed (a deadlock),
    /// or some node failed; completed otherwise.
    pub fn final_status(&self, cancelled: bool) -> (r: RunStatus)
        ensures
            r == final_status_of(*self, cancelled),
    {
        let c = self.completed.len();
        let f = self.failed.len();
        let n = self.graph.nodes.len();
        let short = c < n && f < n - c;
        if cancelled {
            RunStatus::Cancelled
        } else if short && self.running.len() == 0
            && !self.all_reachable_done() {
            RunStatus::Failed
        } else if self.failed.len() == 0 {
            RunStatus::Completed
        } else {
            RunStatus::Failed
        }
    }
}

/// The texts of a list of strings.
pub open spec fn texts_of(v: Seq<String>) -> Seq<Seq<char>> {
    v.map_values(|s: String| s@)
}

/// The targets `find_ready_after_failure` reports among the first `upto`
/// edges, for the given completed, failed and running nodes.
pub open spec fn ready_after_failure_upto(
    edges: Seq<Edge>,
    completed: Set<Seq<char>>,
    failed: Set<Seq<char>>,
    running: Set<Seq<char>>,
    failed_node: Seq<char>,
    upto: int,
) -> Seq<Seq<char>>
    decreases upto,
{
    if upto <= 0 {
        Seq::empty()
    } else {
        let prev = ready_after_failure_upto(edges, completed, failed, running, failed_node, upto - 1);
        let e = upto - 1;
        let target = edges[e].to_node@;
        let done = |n: Seq<char>| completed.contains(n) || failed.contains(n);
        if e < edges.len() && edges[e].from_node@ == failed_node && !done(target)
            && !running.contains(target) && (forall|k: int|
            0 <= k < edges.len() && #[trigger] edges[k].to_node@ == target ==> done(
                edges[k].from_node@,
            )) && (exists|k: int|
            0 <= k < edges.len() && #[trigger] edges[k].to_node@ == target && completed.contains(
                edges[k].from_node@,
            )) {
            prev.push(target)
        } else {
            prev
        }
    }
}

/// The targets `find_ready_after_failure` reports.
pub open spec fn ready_after_failure(
    edges: Seq<Edge>,
    completed: Set<Seq<char>>,
    failed: Set<Seq<char>>,
    running: Set<Seq<char>>,
    failed_node: Seq<char>,
) -> Seq<Seq<char>> {
    ready_after_failure_upto(edges, completed, failed, running, failed_node, edges.len() as int)
}

/// The final status of a run.
pub open spec fn final_status_of(st: RunState, cancelled: bool) -> RunStatus {
    if cancelled {
        RunStatus::Cancelled
    } else if st.completed@.len() + st.failed@.len() < st.graph.nodes@.len() && st.running@.len() == 0
        && !(forall|i: int|
        0 <= i < st.graph.nodes@.len() ==> st.is_done(#[trigger] st.graph.nodes@[i].instance_id@)) {
        RunStatus::Failed
    } else if st.failed@.len() == 0 {
        RunStatus::Completed
    } else {
        RunStatus::Failed
    }
}

/// The views of fan-out results.
pub open spec fn results_view(s: Seq<Option<JsonValue>>) -> Seq<Option<JsonView>> {
    s.map_values(|o: Option<JsonValue>| opt_view(o))
}

/// The model of a fan-out state: expected count, results and completed count.
pub type FanSpec = (u32, Seq<Option<JsonView>>, u32);

/// The view of a fan-out state.
pub open spec fn fan_view(f: Option<FanOutState>) -> Option<FanSpec> {
    match f {
        Some(st) => Some((st.expected, results_view(st.results@), st.completed)),
        None => None,
    }
}

/// The value a fan-out instance contributes: its output, or an error record
/// `{"error": message, "fan_out_index": index}`.
pub open spec fn fan_out_item_result(outcome: NodeOutcome, idx: u32) -> JsonView {
    match outcome {
        NodeOutcome::Success(v) => v@,
        NodeOutcome::Failed(err) => JsonView::Object(
            seq![
                ("error"@, JsonView::Str(err@)),
                ("fan_out_index"@, JsonView::Number(crate::json::JsonNumber::PosInt(idx as u64))),
            ],
        ),
    }
}

/// The fan-in output: the results in index order, missing ones as null.
pub open spec fn merged_view(results: Seq<Option<JsonView>>) -> JsonView {
    JsonView::Array(
        results.map_values(
            |o: Option<JsonView>|
                match o {
                    Some(v) => v,
                    None => JsonView::Null,
                },
        ),
    )
}

/// A completed node whose outgoing edges are to be evaluated.
#[derive(Debug)]
pub struct Completion {
    pub node_id: String,
    pub outputs: JsonValue,
    /// The output is a fan-in merge: arrays in it do not fan out again.
    pub from_fan_in: bool,
}

/// The record of a failed fan-out instance.
fn fan_out_error_record(err: &String, idx: u32) -> (r: JsonValue)
    ensures
        r@ == fan_out_item_result(NodeOutcome::Failed(*err), idx),
{
    let mut entries: Vec<(String, JsonValue)> = Vec::new();
    entries.push((String::from_str("error"), JsonValue::Str(err.clone())));
    entries.push(
        (
            String::from_str("fan_out_index"),
            JsonValue::Number(crate::json::JsonNumber::PosInt(idx as u64)),
        ),
    );
    proof {
        crate::json::lemma_json_entries_view(entries@);
        crate::json::lemma_json_entries_view_index(entries@, 0);
        crate::json::lemma_json_entries_view_index(entries@, 1);
        assert(crate::json::json_entries_view(entries@) =~= seq![
            ("error"@, JsonView::Str(err@)),
            ("fan_out_index"@, JsonView::Number(crate::json::JsonNumber::PosInt(idx as u64))),
        ]);
    }
    JsonValue::Object(entries)
}

/// The fan-in output of a list of results.
fn merge_results(results: &Vec<Option<JsonValue>>) -> (r: JsonValue)
    ensures
        r@ == merged_view(results_view(results@)),
{
    let mut items: Vec<JsonValue> = Vec::new();
    let mut i: usize = 0;
    while i < results.len()
        invariant
            i <= results@.len(),
            items@.len() == i,
            forall|j: int|
                0 <= j < i ==> #[trigger] items@[j]@ == (match results@[j] {
                    Some(v) => v@,
                    None => JsonView::Null,
                }),
        decreases results.len() - i,
    {
        let v = match &results[i] {
            Some(v) => v.duplicate(),
            None => JsonValue::Null,
        };
        items.push(v);
        i += 1;
    }
    let r = JsonValue::Array(items);
    proof {
        crate::json::lemma_json_seq_view(items@);
        assert forall|j: int| 0 <= j < items@.len() implies crate::json::json_seq_view(items@)[j]
            == merged_view(results_view(results@))->Array_0[j] by {
            crate::json::lemma_json_seq_view_index(items@, j);
            assert(results_view(results@)[j] == opt_view(results@[j]));
            assert(items@[j]@ == (match results@[j] {
                Some(v) => v@,
                None => JsonView::Null,
            }));
        }
        assert(crate::json::json_seq_view(items@) =~= merged_view(results_view(results@))->Array_0);
    }
    r
}


/// A finished fan-out instance `idx` of `node_id` can be recorded: its
/// index lies within the node's fan-out results, and the completed count
/// can grow.
pub open spec fn fan_out_index_ok(st: RunState, node_id: Seq<char>, idx: u32) -> bool {
    node_slot(st.graph.nodes@, node_id) matches Some(slot) ==> (st.fan_out@[slot] matches Some(f)
        ==> idx < f.results@.len() && f.completed < u32::MAX)
}

/// `after` is `before` with fan-out instance `idx` of `node_id` recorded as
/// ending with `outcome`, and `r` is what the recording returns: the node's
/// fan-in completion when it was the last instance. A node without a
/// fan-out in progress is left as it was.
pub open spec fn fan_out_recorded(
    before: RunState,
    after: RunState,
    node_id: Seq<char>,
    idx: u32,
    outcome: NodeOutcome,
    r: Option<Completion>,
) -> bool {
    &&& after.graph == before.graph
    &&& after.max_traversals == before.max_traversals
    &&& after.back_edges@ == before.back_edges@
    &&& after.failed@ == before.failed@
    &&& after.counts@ == before.counts@
    &&& after.stalled_fan_outs@ == before.stalled_fan_outs@
    &&& match node_slot(before.graph.nodes@, node_id) {
        None => r is None && after.completed@ == before.completed@ && results_outputs(after.outputs@)
            == results_outputs(before.outputs@) && fans(after.fan_out@) == fans(before.fan_out@),
        Some(slot) => match fan_view(before.fan_out@[slot]) {
            None => r is None && after.completed@ == before.completed@ && results_outputs(after.outputs@)
                == results_outputs(before.outputs@) && fans(after.fan_out@) == fans(before.fan_out@),
            Some((expected, results, done)) => {
                let results2 = results.update(idx as int, Some(fan_out_item_result(outcome, idx)));
                if done + 1 == expected {
                    &&& r matches Some(c) && c.node_id@ == node_id && c.from_fan_in && c.outputs@
                        == merged_view(results2)
                    &&& after.completed@ == before.completed@.insert(node_id)
                    &&& results_outputs(after.outputs@) == results_outputs(before.outputs@).update(
                        slot,
                        Some(merged_view(results2)),
                    )
                    &&& fans(after.fan_out@) == fans(before.fan_out@).update(slot, None)
                } else {
                    &&& r is None
                    &&& after.completed@ == before.completed@
                    &&& results_outputs(after.outputs@) == results_outputs(before.outputs@)
                    &&& fans(after.fan_out@) == fans(before.fan_out@).update(
                        slot,
                        Some((expected, results2, (done + 1) as u32)),
                    )
                }
            },
        },
    }
}

impl RunState {
    /// Records a finished fan-out instance `idx` of `node_id`. When it was
    /// the last one, the node completes with the merged results, which are
    /// returned.
    pub fn handle_fan_out_completion(&mut self, node_id: &str, idx: u32, outcome: NodeOutcome) -> (r:
        Option<Completion>)
        requires
            old(self).wf(),
            fan_out_index_ok(*old(self), node_id@, idx),
        ensures
            final(self).wf(),
            final(self).running@ == old(self).running@,
            fan_out_recorded(*old(self), *final(self), node_id@, idx, outcome, r),
    {
        let slot = match find_node_slot(&self.graph.nodes, node_id) {
            Some(s) => s,
            None => return None,
        };
        let mut taken: Option<FanOutState> = None;
        std::mem::swap(&mut taken, &mut self.fan_out[slot]);
        let mut st = match taken {
            Some(st) => st,
            None => {
                assert(fans(self.fan_out@) =~= fans(old(self).fan_out@));
                return None;
            },
        };
        let ghost results0 = st.results@;
        let value = match outcome {
            NodeOutcome::Success(v) => v,
            NodeOutcome::Failed(err) => fan_out_error_record(&err, idx),
        };
        st.results.set(idx as usize, Some(value));
        st.completed = st.completed + 1;
        assert(results_view(st.results@) =~= results_view(results0).update(
            idx as int,
            Some(fan_out_item_result(outcome, idx)),
        ));
        if st.completed == st.expected {
            let merged = merge_results(&st.results);
            let merged_copy = merged.duplicate();
            self.completed.insert(node_id);
            self.outputs.set(slot, Some(merged_copy));
            assert(results_outputs(self.outputs@) =~= results_outputs(old(self).outputs@).update(
                slot as int,
                Some(merge_view_of(&merged)),
            ));
            assert(fans(self.fan_out@) =~= fans(old(self).fan_out@).update(slot as int, None));
            Some(Completion { node_id: String::from_str(node_id), outputs: merged, from_fan_in: true })
        } else {
            self.fan_out.set(slot, Some(st));
            assert(fans(self.fan_out@) =~= fans(old(self).fan_out@).update(
                slot as int,
                fan_view(self.fan_out@[slot as int]),
            ));
            None
        }
    }
}

spec fn merge_view_of(v: &JsonValue) -> JsonView {
    v@
}

/// The views of the per-node outputs.
pub open spec fn results_outputs(s: Seq<Option<JsonValue>>) -> Seq<Option<JsonView>> {
    results_view(s)
}

/// The views of the per-node fan-out states.
pub open spec fn fans(s: Seq<Option<FanOutState>>) -> Seq<Option<(u32, Seq<Option<JsonView>>, u32)>> {
    s.map_values(|f: Option<FanOutState>| fan_view(f))
}

/// A node found ready after an edge evaluation.
#[derive(Debug)]
pub struct ReadyNode {
    pub node_id: String,
    /// The items to fan out over, one node execution each.
    pub fan_out_items: Option<Vec<JsonValue>>,
    /// The node had completed before: a cycle runs it again.
    pub is_cycle: bool,
}

/// The model of a ready node: id, fan-out items, cycle flag.
pub type ReadySpec = (Seq<char>, Option<Seq<JsonView>>, bool);

/// The model of a spawn request: node id, fan-out index, input override.
pub type SpawnSpec = (Seq<char>, Option<u32>, Option<JsonView>);

pub open spec fn ready_view(r: ReadyNode) -> ReadySpec {
    (
        r.node_id@,
        match r.fan_out_items {
            Some(items) => Some(crate::json::json_seq_view(items@)),
            None => None,
        },
        r.is_cycle,
    )
}

pub open spec fn readies_view(s: Seq<ReadyNode>) -> Seq<ReadySpec> {
    s.map_values(|r: ReadyNode| ready_view(r))
}

pub open spec fn spawn_view(r: SpawnRequest) -> SpawnSpec {
    (r.node_id@, r.fan_out_index, opt_view(r.override_inputs))
}

pub open spec fn spawns_view(s: Seq<SpawnRequest>) -> Seq<SpawnSpec> {
    s.map_values(|r: SpawnRequest| spawn_view(r))
}

/// An edge evaluation as plain values: edge id, condition, result and the
/// data it was evaluated on.
pub type EvalSpec = (Seq<char>, Option<Seq<char>>, bool, JsonView);

pub open spec fn eval_view(r: EdgeEvaluation) -> EvalSpec {
    (r.edge_id@, opt_text_view(r.condition), r.passed, r.data_summary@)
}

pub open spec fn evals_view(s: Seq<EdgeEvaluation>) -> Seq<EvalSpec> {
    s.map_values(|r: EdgeEvaluation| eval_view(r))
}

/// The value flowing through an edge from port `port`: the member of that
/// name when the output has one, else the whole output.
pub open spec fn edge_value(outputs: JsonView, port: Seq<char>) -> JsonView {
    match json_get(outputs, port) {
        Some(v) => v,
        None => outputs,
    }
}

/// The items a target fans out over: a non-empty array flowing through the
/// edge, unless the output is itself a fan-in merge.
pub open spec fn fan_items(outputs: JsonView, from_fan_in: bool, port: Seq<char>) -> Option<Seq<JsonView>> {
    if from_fan_in {
        None
    } else {
        match edge_value(outputs, port) {
            JsonView::Array(items) => if items.len() > 0 {
                Some(items)
            } else {
                None
            },
            _ => None,
        }
    }
}

/// What flows through an edge and what a target fans out over: the edge
/// carries the member named by its port when the output has one, else the
/// whole output; a target fans out over that value exactly when it is an
/// array with at least one item (then over those items, in order), and
/// never over a fan-in merge.
pub proof fn law_fan_out_items(outputs: JsonView, from_fan_in: bool, port: Seq<char>)
    ensures
        json_get(outputs, port) matches Some(v) ==> edge_value(outputs, port) == v,
        json_get(outputs, port) is None ==> edge_value(outputs, port) == outputs,
        from_fan_in ==> fan_items(outputs, from_fan_in, port) is None,
        forall|items: Seq<JsonView>|
            !from_fan_in && edge_value(outputs, port) == JsonView::Array(items) && items.len() >= 1
                ==> fan_items(outputs, from_fan_in, port) == Some(items),
        fan_items(outputs, from_fan_in, port) matches Some(items) ==> !from_fan_in && items.len() >= 1
            && edge_value(outputs, port) == JsonView::Array(items),
        !(edge_value(outputs, port) is Array) ==> fan_items(outputs, from_fan_in, port) is None,
{
}

/// Whether node `id` is in the middle of a fan-out.
pub open spec fn fan_out_running(st: RunState, id: Seq<char>) -> bool {
    match node_slot(st.graph.nodes@, id) {
        Some(i) => match fan_view(st.fan_out@[i]) {
            Some((expected, _r, done)) => done < expected,
            None => false,
        },
        None => st.stalled_fan_outs@.contains(id),
    }
}

/// The state of the edge walk after a completion: traversal counts, targets
/// seen, ready nodes and edge evaluations.
pub type EvalAcc = (Seq<u32>, Set<Seq<char>>, Seq<ReadySpec>, Seq<EvalSpec>);

/// The edge walk over the first `upto` edges after `node` completed with
/// `outputs`. For each edge leaving `node`: it passes when its condition
/// holds and its traversal count is below the limit, and then counts one
/// more traversal. A passing edge readies its target at most once per walk,
/// not while the target runs or fans out; a completed target runs again (a
/// cycle); another target runs when it is ready and has not failed.
pub open spec fn eval_upto(
    st: RunState,
    node: Seq<char>,
    outputs: JsonView,
    from_fan_in: bool,
    conds: Seq<bool>,
    upto: int,
) -> EvalAcc
    decreases upto,
{
    if upto <= 0 {
        (st.counts@, Set::empty(), Seq::empty(), Seq::empty())
    } else {
        eval_step(
            st,
            node,
            outputs,
            from_fan_in,
            conds,
            eval_upto(st, node, outputs, from_fan_in, conds, upto - 1),
            upto - 1,
        )
    }
}

/// One step of the edge walk: edge `k`.
pub open spec fn eval_step(
    st: RunState,
    node: Seq<char>,
    outputs: JsonView,
    from_fan_in: bool,
    conds: Seq<bool>,
    prev: EvalAcc,
    k: int,
) -> EvalAcc {
    let edges = st.graph.edges@;
    let edge = edges[k];
    if k >= edges.len() || edge.from_node@ != node {
        prev
    } else {
        let slot = edge_slot(edges, edge.id@)->0;
        let count = prev.0[slot];
        let passed = cond_passes(edges, conds, k) && count < st.max_traversals;
        let counts2 = if passed {
            prev.0.update(slot, (count + 1) as u32)
        } else {
            prev.0
        };
        let evals2 = prev.3.push((edge.id@, opt_text_view(edge.condition), passed, outputs));
        let target = edge.to_node@;
        if !passed || prev.1.contains(target) {
            (counts2, prev.1, prev.2, evals2)
        } else {
            let seen2 = prev.1.insert(target);
            let items = fan_items(outputs, from_fan_in, edge.from_port@);
            if fan_out_running(st, target) || st.running@.contains(target) {
                (counts2, seen2, prev.2, evals2)
            } else if st.completed@.contains(target) {
                (counts2, seen2, prev.2.push((target, items, true)), evals2)
            } else if !st.failed@.contains(target) && node_ready(st, counts2, conds, target) {
                (counts2, seen2, prev.2.push((target, items, false)), evals2)
            } else {
                (counts2, seen2, prev.2, evals2)
            }
        }
    }
}

/// The edge walk over all edges.
pub open spec fn eval_all(st: RunState, node: Seq<char>, outputs: JsonView, from_fan_in: bool, conds: Seq<bool>) -> EvalAcc {
    eval_upto(st, node, outputs, from_fan_in, conds, st.graph.edges@.len() as int)
}

pub proof fn lemma_edge_slot_exists(edges: Seq<Edge>, k: int)
    requires
        0 <= k < edges.len(),
    ensures
        edge_slot(edges, edges[k].id@) matches Some(i) && 0 <= i <= k && edges[i].id@ == edges[k].id@,
    decreases k,
{
    let id = edges[k].id@;
    if forall|j: int| 0 <= j < k ==> #[trigger] edges[j].id@ != id {
        assert(first_edge(edges, id, k));
        lemma_first_edge_unique(edges, id, k);
    } else {
        let j = choose|j: int| 0 <= j < k && #[trigger] edges[j].id@ != id == false;
        lemma_edge_slot_exists(edges, j);
    }
}

/// The items a target fans out over (see `fan_items`).
pub fn compute_fan_items(outputs: &JsonValue, from_fan_in: bool, port: &str) -> (r: Option<Vec<JsonValue>>)
    ensures
        match r {
            Some(items) => fan_items(outputs@, from_fan_in, port@) == Some(
                crate::json::json_seq_view(items@),
            ),
            None => fan_items(outputs@, from_fan_in, port@) is None,
        },
{
    if from_fan_in {
        return None;
    }
    let v = match outputs.get(port) {
        Some(x) => x,
        None => outputs,
    };
    assert(v@ == edge_value(outputs@, port@));
    match v {
        JsonValue::Array(items) => {
            proof {
                crate::json::lemma_json_seq_view(items@);
            }
            if items.len() > 0 {
                Some(crate::json::duplicate_all(items))
            } else {
                None
            }
        },
        _ => None,
    }
}

impl RunState {
    fn fan_out_running_exec(&self, id: &str) -> (r: bool)
        requires
            self.wf(),
        ensures
            r == fan_out_running(*self, id@),
    {
        match find_node_slot(&self.graph.nodes, id) {
            Some(i) => match &self.fan_out[i] {
                Some(st) => st.completed < st.expected,
                None => false,
            },
            None => self.stalled_fan_outs.contains(id),
        }
    }

    /// Evaluates the edges leaving the completed node (see `eval_upto`).
    /// Returns the new traversal counts, the ready nodes and the edge
    /// evaluations in edge order.
    pub fn evaluate_edges(&self, c: &Completion, conds: &Vec<bool>) -> (r: (
        Vec<u32>,
        Vec<ReadyNode>,
        Vec<EdgeEvaluation>,
    ))
        requires
            self.wf(),
            conds@.len() == self.graph.edges@.len(),
        ensures
            r.0@.len() == self.graph.edges@.len(),
            r.0@ == eval_all(*self, c.node_id@, c.outputs@, c.from_fan_in, conds@).0,
            readies_view(r.1@) == eval_all(*self, c.node_id@, c.outputs@, c.from_fan_in, conds@).2,
            evals_view(r.2@) == eval_all(*self, c.node_id@, c.outputs@, c.from_fan_in, conds@).3,
    {
        let edges = &self.graph.edges;
        let mut counts: Vec<u32> = Vec::new();
        let mut i: usize = 0;
        while i < self.counts.len()
            invariant
                i <= self.counts@.len(),
                counts@ == self.counts@.take(i as int),
            decreases self.counts.len() - i,
        {
            counts.push(self.counts[i]);
            assert(counts@ =~= self.counts@.take(i + 1));
            i += 1;
        }
        assert(counts@ =~= self.counts@);
        let mut seen = StrSet::new();
        let mut ready: Vec<ReadyNode> = Vec::new();
        let mut evals: Vec<EdgeEvaluation> = Vec::new();
        let ghost node = c.node_id@;
        let mut e: usize = 0;
        while e < edges.len()
            invariant
                self.wf(),
                edges == &self.graph.edges,
                conds@.len() == edges@.len(),
                e <= edges@.len(),
                node == c.node_id@,
                counts@.len() == edges@.len(),
                counts@ == eval_upto(*self, node, c.outputs@, c.from_fan_in, conds@, e as int).0,
                seen@ == eval_upto(*self, node, c.outputs@, c.from_fan_in, conds@, e as int).1,
                readies_view(ready@) == eval_upto(*self, node, c.outputs@, c.from_fan_in, conds@, e as int).2,
                evals_view(evals@) == eval_upto(*self, node, c.outputs@, c.from_fan_in, conds@, e as int).3,
            decreases edges.len() - e,
        {
            let ghost prev = eval_upto(*self, node, c.outputs@, c.from_fan_in, conds@, e as int);
            let ghost ready0 = ready@;
            let ghost evals0 = evals@;
            let edge = &edges[e];
            if str_eq(edge.from_node.as_str(), c.node_id.as_str()) {
                let passes_cond = match &edge.condition {
                    None => true,
                    Some(_) => conds[e],
                };
                proof {
                    lemma_edge_slot_exists(edges@, e as int);
                }
                let slot = match find_edge_slot(edges, edge.id.as_str()) {
                    Some(s) => s,
                    None => 0,
                };
                let count = counts[slot];
                let passed = passes_cond && count < self.max_traversals;
                assert(edge_slot(edges@, edges@[e as int].id@) == Some(slot as int));
                assert(prev.0[slot as int] == count);
                assert(passed == (cond_passes(edges@, conds@, e as int) && count < self.max_traversals));
                if passed {
                    counts.set(slot, count + 1);
                }
                assert(counts@ == (if passed {
                    prev.0.update(slot as int, (count + 1) as u32)
                } else {
                    prev.0
                }));
                let condition = match &edge.condition {
                    Some(text) => Some(text.clone()),
                    None => None,
                };
                evals.push(
                    EdgeEvaluation {
                        edge_id: edge.id.clone(),
                        condition,
                        passed,
                        data_summary: c.outputs.duplicate(),
                    },
                );
                assert(evals_view(evals@) =~= evals_view(evals0).push(
                    (edge.id@, opt_text_view(edge.condition), passed, c.outputs@),
                ));
                if passed {
                    let target = edge.to_node.as_str();
                    if !seen.contains(target) {
                        seen.insert(target);
                        let busy = self.fan_out_running_exec(target) || self.running.contains(target);
                        if !busy {
                            if self.completed.contains(target) {
                                let items = compute_fan_items(
                                    &c.outputs,
                                    c.from_fan_in,
                                    edge.from_port.as_str(),
                                );
                                ready.push(
                                    ReadyNode {
                                        node_id: String::from_str(target),
                                        fan_out_items: items,
                                        is_cycle: true,
                                    },
                                );
                                assert(readies_view(ready@) =~= readies_view(ready0).push(
                                    ready_view(ready@[ready@.len() - 1]),
                                ));
                            } else if !self.failed.contains(target) && self.is_node_ready(
                                &counts,
                                conds,
                                target,
                            ) {
                                let items = compute_fan_items(
                                    &c.outputs,
                                    c.from_fan_in,
                                    edge.from_port.as_str(),
                                );
                                ready.push(
                                    ReadyNode {
                                        node_id: String::from_str(target),
                                        fan_out_items: items,
                                        is_cycle: false,
                                    },
                                );
                                assert(readies_view(ready@) =~= readies_view(ready0).push(
                                    ready_view(ready@[ready@.len() - 1]),
                                ));
                            }
                        }
                    }
                }
            }
            proof {
                let next = eval_step(*self, node, c.outputs@, c.from_fan_in, conds@, prev, e as int);
                assert(eval_upto(*self, node, c.outputs@, c.from_fan_in, conds@, e + 1) == next);
                assert(next.0 == counts@);
                assert(next.1 == seen@);
            }
            e += 1;
        }
        (counts, ready, evals)
    }
}

/// The spawn phase's state: completed nodes, running nodes, fan-out
/// states, stalled fan-out targets and spawn requests.
pub type SpawnAcc = (
    Set<Seq<char>>,
    Set<Seq<char>>,
    Seq<Option<(u32, Seq<Option<JsonView>>, u32)>>,
    Set<Seq<char>>,
    Seq<SpawnSpec>,
);

/// The spawn requests for a fan-out over `items`: one per item, with its index.
pub open spec fn fan_out_spawns(id: Seq<char>, items: Seq<JsonView>) -> Seq<SpawnSpec> {
    Seq::new(items.len(), |i: int| (id, Some(i as u32), Some(items[i])))
}

/// Starting one ready node: a cycle target leaves the completed set; a
/// fan-out records a fresh fan-out state and starts one execution per item;
/// any other node starts once and counts as running. Targets that are not
/// nodes of the graph start nothing.
pub open spec fn spawn_step(nodes: Seq<NodeInstance>, prev: SpawnAcc, r: ReadySpec) -> SpawnAcc {
    let completed = if r.2 {
        prev.0.remove(r.0)
    } else {
        prev.0
    };
    let slot = node_slot(nodes, r.0);
    match r.1 {
        Some(items) => {
            let n = #[verifier::truncate] (items.len() as u32);
            match slot {
                Some(i) => (
                    completed,
                    prev.1,
                    prev.2.update(i, Some((n, Seq::new(n as nat, |j: int| None), 0u32))),
                    prev.3,
                    prev.4 + fan_out_spawns(r.0, items),
                ),
                None => (completed, prev.1, prev.2, prev.3.insert(r.0), prev.4),
            }
        },
        None => match slot {
            Some(_) => (completed, prev.1.insert(r.0), prev.2, prev.3, prev.4.push((r.0, None, None))),
            None => (completed, prev.1, prev.2, prev.3, prev.4),
        },
    }
}

/// Starting the first `upto` ready nodes.
pub open spec fn spawn_upto(nodes: Seq<NodeInstance>, init: SpawnAcc, ready: Seq<ReadySpec>, upto: int) -> SpawnAcc
    decreases upto,
{
    if upto <= 0 {
        init
    } else {
        spawn_step(nodes, spawn_upto(nodes, init, ready, upto - 1), ready[upto - 1])
    }
}

/// The spawn phase's starting point for a run state.
pub open spec fn spawn_init(st: RunState) -> SpawnAcc {
    (st.completed@, st.running@, fans(st.fan_out@), st.stalled_fan_outs@, Seq::empty())
}

/// Starting all of `ready`.
pub open spec fn spawn_all(st: RunState, ready: Seq<ReadySpec>) -> SpawnAcc {
    spawn_upto(st.graph.nodes@, spawn_init(st), ready, ready.len() as int)
}

impl RunState {
    /// Starts the ready nodes in order (see `spawn_step`).
    pub fn spawn_ready(&mut self, ready: &Vec<ReadyNode>) -> (r: Vec<SpawnRequest>)
        requires
            old(self).wf(),
        ensures
            final(self).wf(),
            final(self).graph == old(self).graph,
            final(self).max_traversals == old(self).max_traversals,
            final(self).back_edges@ == old(self).back_edges@,
            final(self).failed@ == old(self).failed@,
            final(self).counts@ == old(self).counts@,
            results_outputs(final(self).outputs@) == results_outputs(old(self).outputs@),
            final(self).completed@ == spawn_all(*old(self), readies_view(ready@)).0,
            final(self).running@ == spawn_all(*old(self), readies_view(ready@)).1,
            fans(final(self).fan_out@) == spawn_all(*old(self), readies_view(ready@)).2,
            final(self).stalled_fan_outs@ == spawn_all(*old(self), readies_view(ready@)).3,
            spawns_view(r@) == spawn_all(*old(self), readies_view(ready@)).4,
    {
        let ghost st0 = *self;
        let ghost rv = readies_view(ready@);
        let mut spawns: Vec<SpawnRequest> = Vec::new();
        let mut k: usize = 0;
        assert(fans(self.fan_out@) == fans(st0.fan_out@));
        while k < ready.len()
            invariant
                self.wf(),
                k <= ready@.len(),
                rv == readies_view(ready@),
                self.graph == st0.graph,
                self.max_traversals == st0.max_traversals,
                self.back_edges@ == st0.back_edges@,
                self.failed@ == st0.failed@,
                self.counts@ == st0.counts@,
                results_outputs(self.outputs@) == results_outputs(st0.outputs@),
                rv.len() == ready@.len(),
                self.completed@ == spawn_upto(st0.graph.nodes@, spawn_init(st0), rv, k as int).0,
                self.running@ == spawn_upto(st0.graph.nodes@, spawn_init(st0), rv, k as int).1,
                fans(self.fan_out@) == spawn_upto(st0.graph.nodes@, spawn_init(st0), rv, k as int).2,
                self.stalled_fan_outs@ == spawn_upto(st0.graph.nodes@, spawn_init(st0), rv, k as int).3,
                spawns_view(spawns@) == spawn_upto(st0.graph.nodes@, spawn_init(st0), rv, k as int).4,
            decreases ready.len() - k,
        {
            let ghost prev = spawn_upto(st0.graph.nodes@, spawn_init(st0), rv, k as int);
            let ghost spawns0 = spawns_view(spawns@);
            let ghost fans0 = fans(self.fan_out@);
            let r = &ready[k];
            assert(rv[k as int] == ready_view(*r));
            let id = r.node_id.as_str();
            if r.is_cycle {
                self.completed.remove(id);
            }
            let slot = find_node_slot(&self.graph.nodes, id);
            match &r.fan_out_items {
                Some(items) => {
                    let n = #[verifier::truncate] (items.len() as u32);
                    match slot {
                        Some(i) => {
                            let mut results: Vec<Option<JsonValue>> = Vec::new();
                            let mut j: u32 = 0;
                            while j < n
                                invariant
                                    j <= n,
                                    results@.len() == j,
                                    forall|x: int| 0 <= x < j ==> results@[x] is None,
                                decreases n - j,
                            {
                                results.push(None);
                                j += 1;
                            }
                            assert(results_view(results@) =~= Seq::new(n as nat, |x: int| None::<JsonView>));
                            self.fan_out.set(i, Some(FanOutState { expected: n, results, completed: 0 }));
                            assert(fans(self.fan_out@) =~= fans0.update(
                                i as int,
                                Some((n, Seq::new(n as nat, |x: int| None::<JsonView>), 0u32)),
                            ));
                            proof {
                                crate::json::lemma_json_seq_view(items@);
                            }
                            let mut x: usize = 0;
                            while x < items.len()
                                invariant
                                    x <= items@.len(),
                                    id@ == r.node_id@,
                                    spawns_view(spawns@) == spawns0 + fan_out_spawns(
                                        r.node_id@,
                                        crate::json::json_seq_view(items@),
                                    ).take(x as int),
                                    crate::json::json_seq_view(items@).len() == items@.len(),
                                decreases items.len() - x,
                            {
                                proof {
                                    crate::json::lemma_json_seq_view_index(items@, x as int);
                                }
                                let ghost sv_before = spawns_view(spawns@);
                                let ghost fs = fan_out_spawns(
                                    r.node_id@,
                                    crate::json::json_seq_view(items@),
                                );
                                spawns.push(
                                    SpawnRequest {
                                        node_id: String::from_str(id),
                                        fan_out_index: Some(#[verifier::truncate] (x as u32)),
                                        override_inputs: Some(items[x].duplicate()),
                                    },
                                );
                                assert(spawns_view(spawns@) =~= sv_before.push(
                                    spawn_view(spawns@[spawns@.len() - 1]),
                                ));
                                assert(spawn_view(spawns@[spawns@.len() - 1]) == fs[x as int]);
                                assert(fs.take(x + 1) =~= fs.take(x as int).push(fs[x as int]));
                                assert(spawns_view(spawns@) =~= spawns0 + fs.take(x + 1));
                                x += 1;
                            }
                            assert(fan_out_spawns(r.node_id@, crate::json::json_seq_view(items@)).take(
                                items@.len() as int,
                            ) =~= fan_out_spawns(r.node_id@, crate::json::json_seq_view(items@)));
                        },
                        None => {
                            self.stalled_fan_outs.insert(id);
                        },
                    }
                },
                None => {
                    match slot {
                        Some(_) => {
                            self.running.insert(id);
                            spawns.push(
                                SpawnRequest {
                                    node_id: String::from_str(id),
                                    fan_out_index: None,
                                    override_inputs: None,
                                },
                            );
                            assert(spawns_view(spawns@) =~= spawns0.push((r.node_id@, None, None)));
                        },
                        None => {},
                    }
                },
            }
            k += 1;
        }
        spawns
    }
}

impl RunState {
    /// Evaluates the edges leaving a completed node and starts the nodes it
    /// made ready. Returns the edge evaluations and the executions to start.
    pub fn advance(&mut self, c: &Completion, conds: &Vec<bool>) -> (r: (
        Vec<EdgeEvaluation>,
        Vec<SpawnRequest>,
    ))
        requires
            old(self).wf(),
            conds@.len() == old(self).graph.edges@.len(),
        ensures
            final(self).wf(),
            final(self).graph == old(self).graph,
            final(self).max_traversals == old(self).max_traversals,
            final(self).back_edges@ == old(self).back_edges@,
            final(self).failed@ == old(self).failed@,
            results_outputs(final(self).outputs@) == results_outputs(old(self).outputs@),
            final(self).counts@ == eval_all(*old(self), c.node_id@, c.outputs@, c.from_fan_in, conds@).0,
            evals_view(r.0@) == eval_all(*old(self), c.node_id@, c.outputs@, c.from_fan_in, conds@).3,
            ({
                let ready = eval_all(*old(self), c.node_id@, c.outputs@, c.from_fan_in, conds@).2;
                let acc = spawn_all(*old(self), ready);
                &&& final(self).completed@ == acc.0
                &&& final(self).running@ == acc.1
                &&& fans(final(self).fan_out@) == acc.2
                &&& final(self).stalled_fan_outs@ == acc.3
                &&& spawns_view(r.1@) == acc.4
            }),
    {
        let ghost st0 = *self;
        let (counts, ready, evals) = self.evaluate_edges(c, conds);
        self.counts = counts;
        assert(spawn_init(*self) == spawn_init(st0));
        let spawns = self.spawn_ready(&ready);
        (evals, spawns)
    }
}

} // verus!
