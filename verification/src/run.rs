//! Starting a run, recording finished node executions, and the inputs a node
//! execution receives.
use vstd::prelude::*;
use vstd::string::*;
use crate::executor::{
    fan_out_index_ok, fan_out_recorded, fans, find_node_slot, node_slot, opt_view,
    ready_after_failure, results_outputs, spawn_view, spawns_view, texts_of, Completion,
    FanOutState, FanSpec, NodeFinished, NodeOutcome, RunState, SpawnRequest, SpawnSpec,
};
use crate::errors::ExecutorError;
use crate::graph::{
    back_edge_ids, back_edges_ok, find_back_edges, law_back_edges_are_reachable, reachable, order_in_graph, search_covers, Edge, GraphDef, NodeInstance,
};
use crate::json::{
    json_entries_view, lemma_json_entries_view, lemma_json_entries_view_index, opt_json_view,
    JsonValue, JsonView,
};
use crate::strset::StrSet;
use crate::text::str_eq;

verus! {

/// Whether `i` is the first member with key `key`.
pub open spec fn first_member(m: Seq<(Seq<char>, JsonView)>, key: Seq<char>, i: int) -> bool {
    &&& 0 <= i < m.len()
    &&& m[i].0 == key
    &&& forall|j: int| 0 <= j < i ==> #[trigger] m[j].0 != key
}

/// Puts `value` under `key` in an object's members: a member with that key
/// keeps its place and takes the new value, else the member is appended.
pub open spec fn members_put(m: Seq<(Seq<char>, JsonView)>, key: Seq<char>, value: JsonView) -> Seq<
    (Seq<char>, JsonView),
> {
    if exists|i: int| first_member(m, key, i) {
        m.update(choose|i: int| first_member(m, key, i), (key, value))
    } else {
        m.push((key, value))
    }
}

proof fn lemma_first_member_unique(m: Seq<(Seq<char>, JsonView)>, key: Seq<char>, i: int)
    requires
        first_member(m, key, i),
    ensures
        (choose|k: int| first_member(m, key, k)) == i,
{
    let k = choose|k: int| first_member(m, key, k);
    if k < i {
        assert(m[k].0 != key);
    }
    if i < k {
        assert(m[i].0 != key);
    }
}

/// Puts `value` under `key` (see `members_put`).
fn put_member(entries: &mut Vec<(String, JsonValue)>, key: &str, value: JsonValue)
    ensures
        json_entries_view(final(entries)@) == members_put(json_entries_view(old(entries)@), key@, value@),
{
    let ghost e0 = entries@;
    let ghost v0 = json_entries_view(e0);
    proof {
        lemma_json_entries_view(e0);
    }
    let mut i: usize = 0;
    while i < entries.len()
        invariant
            entries@ == e0,
            e0 == old(entries)@,
            v0 == json_entries_view(e0),
            v0.len() == e0.len(),
            i <= e0.len(),
            forall|j: int| 0 <= j < i ==> #[trigger] v0[j].0 != key@,
        decreases entries.len() - i,
    {
        proof {
            lemma_json_entries_view_index(e0, i as int);
        }
        if str_eq(entries[i].0.as_str(), key) {
            proof {
                assert(first_member(v0, key@, i as int));
                lemma_first_member_unique(v0, key@, i as int);
                assert(members_put(v0, key@, value@) == v0.update(i as int, (key@, value@)));
            }
            let ghost vv = value@;
            let k = String::from_str(key);
            assert(k@ == key@);
            let member = (k, value);
            assert(member.1@ == vv);
            entries.set(i, member);
            proof {
                assert(entries@ == e0.update(i as int, member));
                lemma_json_entries_view(entries@);
                assert forall|j: int| 0 <= j < v0.len() implies json_entries_view(entries@)[j]
                    == v0.update(i as int, (key@, vv))[j] by {
                    lemma_json_entries_view_index(e0, j);
                    lemma_json_entries_view_index(entries@, j);
                }
                assert(json_entries_view(entries@) =~= v0.update(i as int, (key@, vv)));
            }
            return;
        }
        i += 1;
    }
    proof {
        if exists|k: int| first_member(v0, key@, k) {
            let k = choose|k: int| first_member(v0, key@, k);
            assert(v0[k].0 != key@);
        }
    }
    let ghost vv = value@;
    let k = String::from_str(key);
    assert(k@ == key@);
    let member = (k, value);
    assert(member.1@ == vv);
    entries.push(member);
    proof {
        assert(entries@ == e0.push(member));
        lemma_json_entries_view(entries@);
        assert forall|j: int| 0 <= j < v0.len() + 1 implies json_entries_view(entries@)[j]
            == v0.push((key@, vv))[j] by {
            if j < v0.len() {
                lemma_json_entries_view_index(e0, j);
            }
            lemma_json_entries_view_index(entries@, j);
        }
        assert(json_entries_view(entries@) =~= v0.push((key@, vv)));
    }
}

/// The value flowing through an edge from port `port`: the member of that
/// name when the output has one, else the whole output.
pub open spec fn port_value(outputs: JsonView, port: Seq<char>) -> JsonView {
    crate::executor::edge_value(outputs, port)
}

/// The members gathered from the first `upto` edges into `node`: for each
/// edge whose source has an output, the value through the edge under the
/// edge's target port.
pub open spec fn inputs_upto(st: RunState, node: Seq<char>, upto: int) -> Seq<(Seq<char>, JsonView)>
    decreases upto,
{
    if upto <= 0 {
        Seq::empty()
    } else {
        let prev = inputs_upto(st, node, upto - 1);
        let edge = st.graph.edges@[upto - 1];
        if upto - 1 < st.graph.edges@.len() && edge.to_node@ == node {
            match st.output_of(edge.from_node@) {
                Some(out) => members_put(prev, edge.to_port@, port_value(out, edge.from_port@)),
                None => prev,
            }
        } else {
            prev
        }
    }
}

/// The inputs of node `node` from its upstream outputs: a single member is
/// passed on by itself, no member gives an empty object, several give an
/// object of them.
pub open spec fn resolved_inputs(st: RunState, node: Seq<char>) -> JsonView {
    let m = inputs_upto(st, node, st.graph.edges@.len() as int);
    if m.len() == 1 {
        m[0].1
    } else if m.len() == 0 {
        JsonView::Object(Seq::empty())
    } else {
        JsonView::Object(m)
    }
}

impl RunState {
    /// The latest output of node `id`.
    pub fn output_ref(&self, id: &str) -> (r: Option<&JsonValue>)
        requires
            self.wf(),
        ensures
            opt_json_view(r) == self.output_of(id@),
    {
        match find_node_slot(&self.graph.nodes, id) {
            Some(i) => match &self.outputs[i] {
                Some(v) => Some(v),
                None => None,
            },
            None => None,
        }
    }

    /// The inputs of node `node_id` from its upstream outputs (see
    /// `resolved_inputs`).
    pub fn resolve_inputs(&self, node_id: &str) -> (r: JsonValue)
        requires
            self.wf(),
        ensures
            r@ == resolved_inputs(*self, node_id@),
    {
        let edges = &self.graph.edges;
        let mut merged: Vec<(String, JsonValue)> = Vec::new();
        let mut e: usize = 0;
        while e < edges.len()
            invariant
                self.wf(),
                edges == &self.graph.edges,
                e <= edges@.len(),
                json_entries_view(merged@) == inputs_upto(*self, node_id@, e as int),
            decreases edges.len() - e,
        {
            let edge = &edges[e];
            if str_eq(edge.to_node.as_str(), node_id) {
                match self.output_ref(edge.from_node.as_str()) {
                    Some(out) => {
                        let v = match out.get(edge.from_port.as_str()) {
                            Some(x) => x.duplicate(),
                            None => out.duplicate(),
                        };
                        put_member(&mut merged, edge.to_port.as_str(), v);
                    },
                    None => {},
                }
            }
            e += 1;
        }
        proof {
            lemma_json_entries_view(merged@);
        }
        if merged.len() == 1 {
            proof {
                lemma_json_entries_view_index(merged@, 0);
            }
            merged[0].1.duplicate()
        } else if merged.len() == 0 {
            let empty: Vec<(String, JsonValue)> = Vec::new();
            proof {
                lemma_json_entries_view(empty@);
                assert(json_entries_view(empty@) =~= Seq::<(Seq<char>, JsonView)>::empty());
            }
            JsonValue::Object(empty)
        } else {
            JsonValue::Object(merged)
        }
    }
}

/// Whether node id `id` has no incoming edge outside `back`.
pub open spec fn is_entry(g: GraphDef, back: Set<Seq<char>>, id: Seq<char>) -> bool {
    !exists|e: int|
        0 <= e < g.edges@.len() && !back.contains(g.edges@[e].id@) && #[trigger] g.edges@[e].to_node@
            == id
}

/// The entry nodes among the first `upto` nodes, in order.
pub open spec fn entries_upto(g: GraphDef, back: Set<Seq<char>>, upto: int) -> Seq<Seq<char>>
    decreases upto,
{
    if upto <= 0 {
        Seq::empty()
    } else {
        let prev = entries_upto(g, back, upto - 1);
        let id = g.nodes@[upto - 1].instance_id@;
        if upto - 1 < g.nodes@.len() && is_entry(g, back, id) {
            prev.push(id)
        } else {
            prev
        }
    }
}

/// The nodes without incoming edges other than back-edges, in node order.
pub open spec fn entry_nodes(g: GraphDef, back: Set<Seq<char>>) -> Seq<Seq<char>> {
    entries_upto(g, back, g.nodes@.len() as int)
}

/// Whether no edge outside `back` ends at `id`.
fn no_forward_incoming(g: &GraphDef, back: &StrSet, id: &str) -> (r: bool)
    ensures
        r == is_entry(*g, back@, id@),
{
    let mut e: usize = 0;
    while e < g.edges.len()
        invariant
            e <= g.edges@.len(),
            forall|k: int|
                0 <= k < e && !back@.contains(g.edges@[k].id@) ==> #[trigger] g.edges@[k].to_node@
                    != id@,
        decreases g.edges.len() - e,
    {
        let edge = &g.edges[e];
        if !back.contains(edge.id.as_str()) && str_eq(edge.to_node.as_str(), id) {
            assert(g.edges@[e as int].to_node@ == id@);
            return false;
        }
        e += 1;
    }
    true
}

/// The entry nodes of `g` when `back` holds the back-edge ids: the nodes
/// without incoming edges other than back-edges, in node order.
pub fn find_entry_nodes(g: &GraphDef, back: &StrSet) -> (r: Vec<String>)
    ensures
        crate::executor::texts_of(r@) == entry_nodes(*g, back@),
{
    let mut out: Vec<String> = Vec::new();
    let mut i: usize = 0;
    while i < g.nodes.len()
        invariant
            i <= g.nodes@.len(),
            crate::executor::texts_of(out@) == entries_upto(*g, back@, i as int),
        decreases g.nodes.len() - i,
    {
        let id = g.nodes[i].instance_id.as_str();
        if no_forward_incoming(g, back, id) {
            out.push(String::from_str(id));
        }
        assert(crate::executor::texts_of(out@) =~= entries_upto(*g, back@, i + 1));
        i += 1;
    }
    out
}

/// A node entered by an edge that no start node reaches (and whose id no
/// edge from a reached node shares) is no entry node: a part of the graph
/// that the start nodes do not reach does not start on its own, so a cycle
/// there stays waiting and the run can end as deadlocked.
pub proof fn law_unreached_edges_hold_their_targets(g: GraphDef, e: int)
    requires
        0 <= e < g.edges@.len(),
        forall|f: int|
            0 <= f < g.edges@.len() && #[trigger] g.edges@[f].id@ == g.edges@[e].id@ ==> !reachable(
                g,
                g.edges@[f].from_node@,
            ),
    ensures
        !is_entry(g, back_edge_ids(g), g.edges@[e].to_node@),
{
    law_back_edges_are_reachable(g);
    if back_edge_ids(g).contains(g.edges@[e].id@) {
        let f = choose|f: int|
            0 <= f < g.edges@.len() && #[trigger] g.edges@[f].id@ == g.edges@[e].id@ && reachable(
                g,
                g.edges@[f].from_node@,
            );
        assert(false);
    }
    assert(g.edges@[e].to_node@ == g.edges@[e].to_node@);
}

/// What `find_back_edges` guarantees of a back-edge set of `g`.
pub open spec fn back_edge_set(g: GraphDef, back: Set<Seq<char>>) -> bool {
    exists|order: Seq<Seq<char>>|
        back_edges_ok(g.edges@, back, order) && search_covers(g, order) && order_in_graph(g, order)
}

impl RunState {
    /// Starts a run of `graph` on trigger `inputs`: finds the back-edges and
    /// the entry nodes, gives every entry node the trigger inputs as its
    /// output, and starts each entry node once on the trigger inputs.
    pub fn start(graph: GraphDef, inputs: JsonValue, max_traversals: u32) -> (r: (
        RunState,
        Vec<SpawnRequest>,
    ))
        ensures
            r.0.wf(),
            r.0.graph == graph,
            r.0.max_traversals == max_traversals,
            back_edge_set(graph, r.0.back_edges@),
            r.0.back_edges@ == back_edge_ids(graph),
            r.0.completed@ == Set::<Seq<char>>::empty(),
            r.0.failed@ == Set::<Seq<char>>::empty(),
            r.0.stalled_fan_outs@ == Set::<Seq<char>>::empty(),
            r.0.running@ == entry_nodes(graph, r.0.back_edges@).to_set(),
            r.0.counts@ == Seq::new(graph.edges@.len(), |i: int| 0u32),
            fans(r.0.fan_out@) == Seq::new(graph.nodes@.len(), |i: int| None::<FanSpec>),
            forall|i: int|
                0 <= i < graph.nodes@.len() ==> #[trigger] opt_view(r.0.outputs@[i]) == (if is_entry(
                    graph,
                    r.0.back_edges@,
                    graph.nodes@[i].instance_id@,
                ) {
                    Some(inputs@)
                } else {
                    None
                }),
            spawns_view(r.1@) == entry_nodes(graph, r.0.back_edges@).map_values(
                |id: Seq<char>| (id, None::<u32>, Some(inputs@)),
            ),
    {
        let back = find_back_edges(&graph);
        let entries = find_entry_nodes(&graph, &back);
        let ghost ents = entry_nodes(graph, back@);
        let mut outputs: Vec<Option<JsonValue>> = Vec::new();
        let mut fan_out: Vec<Option<FanOutState>> = Vec::new();
        let mut i: usize = 0;
        while i < graph.nodes.len()
            invariant
                i <= graph.nodes@.len(),
                outputs@.len() == i,
                fan_out@.len() == i,
                forall|j: int| 0 <= j < i ==> #[trigger] fan_out@[j] is None,
                forall|j: int|
                    0 <= j < i ==> #[trigger] opt_view(outputs@[j]) == (if is_entry(
                        graph,
                        back@,
                        graph.nodes@[j].instance_id@,
                    ) {
                        Some(inputs@)
                    } else {
                        None
                    }),
            decreases graph.nodes.len() - i,
        {
            if no_forward_incoming(&graph, &back, graph.nodes[i].instance_id.as_str()) {
                outputs.push(Some(inputs.duplicate()));
            } else {
                outputs.push(None);
            }
            fan_out.push(None);
            i += 1;
        }
        let mut counts: Vec<u32> = Vec::new();
        let mut e: usize = 0;
        while e < graph.edges.len()
            invariant
                e <= graph.edges@.len(),
                counts@ == Seq::new(e as nat, |i: int| 0u32),
            decreases graph.edges.len() - e,
        {
            counts.push(0);
            assert(counts@ =~= Seq::new((e + 1) as nat, |i: int| 0u32));
            e += 1;
        }
        let mut running = StrSet::new();
        let mut spawns: Vec<SpawnRequest> = Vec::new();
        let mut k: usize = 0;
        while k < entries.len()
            invariant
                k <= entries@.len(),
                texts_of(entries@) == ents,
                ents.len() == entries@.len(),
                running@ == ents.take(k as int).to_set(),
                spawns_view(spawns@) == ents.take(k as int).map_values(
                    |id: Seq<char>| (id, None::<u32>, Some(inputs@)),
                ),
            decreases entries.len() - k,
        {
            let id = entries[k].as_str();
            assert(ents[k as int] == id@);
            running.insert(id);
            let ghost sp0 = spawns@;
            spawns.push(
                SpawnRequest {
                    node_id: String::from_str(id),
                    fan_out_index: None,
                    override_inputs: Some(inputs.duplicate()),
                },
            );
            proof {
                assert(ents.take(k + 1) =~= ents.take(k as int).push(id@));
                ents.take(k as int).lemma_push_to_set_commute(id@);
                assert(ents.take(k + 1).map_values(|id: Seq<char>| (id, None::<u32>, Some(inputs@)))
                    =~= ents.take(k as int).map_values(
                    |id: Seq<char>| (id, None::<u32>, Some(inputs@)),
                ).push((id@, None::<u32>, Some(inputs@))));
                assert(spawns_view(spawns@) =~= spawns_view(sp0).push(spawn_view(spawns@.last())));
            }
            k += 1;
        }
        assert(ents.take(ents.len() as int) =~= ents);
        assert(fans(fan_out@) =~= Seq::new(graph.nodes@.len(), |i: int| None::<FanSpec>));
        let st = RunState {
            graph,
            max_traversals,
            back_edges: back,
            completed: StrSet::new(),
            failed: StrSet::new(),
            running,
            outputs,
            counts,
            fan_out,
            stalled_fan_outs: StrSet::new(),
        };
        (st, spawns)
    }
}

/// Starting the first `upto` nodes found ready after a failure: each that is
/// a node of the graph starts once on its upstream outputs and counts as
/// running.
pub open spec fn failure_spawns_upto(
    nodes: Seq<NodeInstance>,
    running: Set<Seq<char>>,
    ready: Seq<Seq<char>>,
    upto: int,
) -> (Set<Seq<char>>, Seq<SpawnSpec>)
    decreases upto,
{
    if upto <= 0 {
        (running, Seq::empty())
    } else {
        let prev = failure_spawns_upto(nodes, running, ready, upto - 1);
        let id = ready[upto - 1];
        if node_slot(nodes, id) is Some {
            (prev.0.insert(id), prev.1.push((id, None, None)))
        } else {
            prev
        }
    }
}

/// `after` is `before` with a finished plain execution of `node_id` (not a
/// fan-out instance) recorded, and `r` what the recording returns.
///
/// The node stops running. On success it completes, its output is kept and
/// its completion is returned for edge evaluation. On failure it fails, and
/// the nodes that can still run after the failure start (see
/// `find_ready_after_failure`).
pub open spec fn finish_recorded(
    before: RunState,
    after: RunState,
    node_id: Seq<char>,
    outcome: NodeOutcome,
    r: (Option<Completion>, Seq<SpawnSpec>),
) -> bool {
    let nodes = before.graph.nodes@;
    let running = before.running@.remove(node_id);
    &&& after.graph == before.graph
    &&& after.max_traversals == before.max_traversals
    &&& after.back_edges@ == before.back_edges@
    &&& after.counts@ == before.counts@
    &&& fans(after.fan_out@) == fans(before.fan_out@)
    &&& after.stalled_fan_outs@ == before.stalled_fan_outs@
    &&& match outcome {
        NodeOutcome::Success(out) => {
            &&& r.0 matches Some(c) && c.node_id@ == node_id && c.outputs@ == out@ && !c.from_fan_in
            &&& r.1.len() == 0
            &&& after.completed@ == before.completed@.insert(node_id)
            &&& after.failed@ == before.failed@
            &&& after.running@ == running
            &&& results_outputs(after.outputs@) == match node_slot(nodes, node_id) {
                Some(i) => results_outputs(before.outputs@).update(i, Some(out@)),
                None => results_outputs(before.outputs@),
            }
        },
        NodeOutcome::Failed(_) => {
            let failed = before.failed@.insert(node_id);
            let ready = ready_after_failure(
                before.graph.edges@,
                before.completed@,
                failed,
                running,
                node_id,
            );
            let acc = failure_spawns_upto(nodes, running, ready, ready.len() as int);
            &&& r.0 is None
            &&& after.completed@ == before.completed@
            &&& after.failed@ == failed
            &&& results_outputs(after.outputs@) == results_outputs(before.outputs@)
            &&& after.running@ == acc.0
            &&& r.1 == acc.1
        },
    }
}

impl RunState {
    /// Records a finished node execution. A fan-out instance goes to
    /// `handle_fan_out_completion`; a plain execution is recorded as
    /// `finish_recorded` says. Returns the completion whose outgoing edges
    /// are to be evaluated next, if any, and the executions to start.
    pub fn record_finish(&mut self, f: NodeFinished) -> (r: (Option<Completion>, Vec<SpawnRequest>))
        requires
            old(self).wf(),
            f.fan_out_index matches Some(idx) ==> fan_out_index_ok(*old(self), f.node_id@, idx),
        ensures
            final(self).wf(),
            match f.fan_out_index {
                Some(idx) => {
                    &&& fan_out_recorded(*old(self), *final(self), f.node_id@, idx, f.outcome, r.0)
                    &&& final(self).running@ == old(self).running@
                    &&& r.1@.len() == 0
                },
                None => finish_recorded(
                    *old(self),
                    *final(self),
                    f.node_id@,
                    f.outcome,
                    (r.0, spawns_view(r.1@)),
                ),
            },
    {
        let fan_out_index = f.fan_out_index;
        let node_id = f.node_id;
        let outcome = f.outcome;
        assert(fan_out_index == f.fan_out_index);
        match fan_out_index {
            Some(idx) => {
                let c = self.handle_fan_out_completion(node_id.as_str(), idx, outcome);
                (c, Vec::new())
            },
            None => {
                let id = node_id.as_str();
                self.running.remove(id);
                match outcome {
                    NodeOutcome::Success(out) => {
                        let ghost o0 = results_outputs(self.outputs@);
                        match find_node_slot(&self.graph.nodes, id) {
                            Some(i) => {
                                self.outputs.set(i, Some(out.duplicate()));
                                assert(results_outputs(self.outputs@) =~= o0.update(
                                    i as int,
                                    Some(out@),
                                ));
                            },
                            None => {},
                        }
                        self.completed.insert(id);
                        let c = Completion { node_id: String::from_str(id), outputs: out, from_fan_in: false };
                        (Some(c), Vec::new())
                    },
                    NodeOutcome::Failed(_) => {
                        self.failed.insert(id);
                        let ready = self.find_ready_after_failure(id);
                        let ghost rv = texts_of(ready@);
                        let ghost running0 = self.running@;
                        let ghost st1 = *self;
                        let mut spawns: Vec<SpawnRequest> = Vec::new();
                        let mut k: usize = 0;
                        while k < ready.len()
                            invariant
                                self.wf(),
                                self.graph == st1.graph,
                                self.max_traversals == st1.max_traversals,
                                self.back_edges@ == st1.back_edges@,
                                self.counts@ == st1.counts@,
                                self.fan_out@ == st1.fan_out@,
                                self.outputs@ == st1.outputs@,
                                self.stalled_fan_outs@ == st1.stalled_fan_outs@,
                                self.completed@ == st1.completed@,
                                self.failed@ == st1.failed@,
                                k <= ready@.len(),
                                rv == texts_of(ready@),
                                rv.len() == ready@.len(),
                                (self.running@, spawns_view(spawns@)) == failure_spawns_upto(
                                    self.graph.nodes@,
                                    running0,
                                    rv,
                                    k as int,
                                ),
                            decreases ready.len() - k,
                        {
                            let nid = ready[k].as_str();
                            assert(rv[k as int] == nid@);
                            if find_node_slot(&self.graph.nodes, nid).is_some() {
                                self.running.insert(nid);
                                let ghost sp0 = spawns@;
                                spawns.push(
                                    SpawnRequest {
                                        node_id: String::from_str(nid),
                                        fan_out_index: None,
                                        override_inputs: None,
                                    },
                                );
                                assert(spawns_view(spawns@) =~= spawns_view(sp0).push(
                                    (nid@, None, None),
                                ));
                            }
                            k += 1;
                        }
                        (None, spawns)
                    },
                }
            },
        }
    }
}

/// What a node execution runs: the node's type and configuration and the
/// inputs it receives.
#[derive(Debug)]
pub struct NodeLaunch {
    pub node_type: String,
    pub config: JsonValue,
    pub inputs: JsonValue,
}

impl RunState {
    /// What starting `req` runs: the first node with the requested id, on
    /// the request's override inputs when it has them, else on the node's
    /// upstream outputs (see `resolved_inputs`). `None` when the graph has
    /// no node with that id.
    pub fn launch(&self, req: &SpawnRequest) -> (r: Option<NodeLaunch>)
        requires
            self.wf(),
        ensures
            match node_slot(self.graph.nodes@, req.node_id@) {
                None => r is None,
                Some(i) => r matches Some(l) && l.node_type@ == self.graph.nodes@[i].node_type@
                    && l.config@ == self.graph.nodes@[i].config@ && l.inputs@ == match req.override_inputs {
                    Some(v) => v@,
                    None => resolved_inputs(*self, req.node_id@),
                },
            },
    {
        let i = match find_node_slot(&self.graph.nodes, req.node_id.as_str()) {
            Some(i) => i,
            None => return None,
        };
        let node = &self.graph.nodes[i];
        let inputs = match &req.override_inputs {
            Some(v) => v.duplicate(),
            None => self.resolve_inputs(req.node_id.as_str()),
        };
        Some(
            NodeLaunch {
                node_type: node.node_type.clone(),
                config: node.config.duplicate(),
                inputs,
            },
        )
    }
}

/// Checks that every node's type has a handler among `registered`; the
/// first node, in order, whose type has none gives `NodeNotFound` with that
/// type.
pub fn validate_node_types(graph: &GraphDef, registered: &StrSet) -> (r: Result<(), ExecutorError>)
    ensures
        match r {
            Ok(()) => forall|i: int|
                0 <= i < graph.nodes@.len() ==> registered@.contains(
                    #[trigger] graph.nodes@[i].node_type@,
                ),
            Err(e) => exists|i: int|
                0 <= i < graph.nodes@.len() && !registered@.contains(
                    #[trigger] graph.nodes@[i].node_type@,
                ) && (forall|j: int|
                    0 <= j < i ==> registered@.contains(#[trigger] graph.nodes@[j].node_type@))
                    && (e matches ExecutorError::NodeNotFound { node_type } && node_type@
                    == graph.nodes@[i].node_type@),
        },
{
    let mut i: usize = 0;
    while i < graph.nodes.len()
        invariant
            i <= graph.nodes@.len(),
            forall|j: int| 0 <= j < i ==> registered@.contains(#[trigger] graph.nodes@[j].node_type@),
        decreases graph.nodes.len() - i,
    {
        let t = &graph.nodes[i].node_type;
        if !registered.contains(t.as_str()) {
            let e = ExecutorError::NodeNotFound { node_type: t.clone() };
            assert(!registered@.contains(graph.nodes@[i as int].node_type@));
            return Err(e);
        }
        i += 1;
    }
    Ok(())
}

/// Configuration of the executor.
#[derive(Debug)]
pub struct ExecutorConfig {
    /// The most times one edge may be traversed, bounding cycles.
    pub max_traversals: u32,
}

impl Default for ExecutorConfig {
    /// At most 50 traversals per edge.
    fn default() -> (r: ExecutorConfig)
        ensures
            r.max_traversals == 50,
    {
        ExecutorConfig { max_traversals: 50 }
    }
}

} // verus!
