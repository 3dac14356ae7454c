//! Flow graphs and their structural analysis: back-edges (cycles), entry
//! nodes and edge adjacency.
use vstd::prelude::*;
use vstd::string::*;
use crate::json::JsonValue;
use crate::strset::StrSet;
use crate::text::str_eq;

verus! {

/// A node of a flow graph: an instance of a registered node type.
#[derive(Debug)]
pub struct NodeInstance {
    pub instance_id: String,
    pub node_type: String,
    pub config: JsonValue,
}

/// A directed edge between two node ports, with an optional condition.
#[derive(Debug)]
pub struct Edge {
    pub id: String,
    pub from_node: String,
    pub from_port: String,
    pub to_node: String,
    pub to_port: String,
    /// The condition expression; the edge always passes without one.
    pub condition: Option<String>,
}

/// A flow graph.
#[derive(Debug)]
pub struct GraphDef {
    pub id: String,
    pub nodes: Vec<NodeInstance>,
    pub edges: Vec<Edge>,
}

/// Whether some edge ends at node `n`.
pub open spec fn has_incoming(edges: Seq<Edge>, n: Seq<char>) -> bool {
    exists|e: int| 0 <= e < edges.len() && #[trigger] edges[e].to_node@ == n
}

/// Whether the graph has a node without incoming edges.
pub open spec fn has_entry_node(g: GraphDef) -> bool {
    exists|i: int|
        0 <= i < g.nodes@.len() && !has_incoming(g.edges@, #[trigger] g.nodes@[i].instance_id@)
}

/// What a depth-first search that reports back-edges guarantees, given the
/// nodes it finished, in finishing order:
/// - no node is finished twice;
/// - every edge leaving a finished node ends at a finished node;
/// - every such edge that is not reported ends at a node finished earlier,
///   so the graph without the reported edges has no cycle through them;
/// - every reported id belongs to an edge that leaves a finished node.
pub open spec fn back_edges_ok(edges: Seq<Edge>, back: Set<Seq<char>>, order: Seq<Seq<char>>) -> bool {
    &&& order.no_duplicates()
    &&& forall|i: int, e: int|
        #![trigger order[i], edges[e]]
        0 <= i < order.len() && 0 <= e < edges.len() && edges[e].from_node@ == order[i]
            ==> order.contains(edges[e].to_node@)
    &&& forall|i: int, e: int|
        #![trigger order[i], edges[e]]
        0 <= i < order.len() && 0 <= e < edges.len() && edges[e].from_node@ == order[i]
            && !back.contains(edges[e].id@) ==> exists|j: int|
            0 <= j < i && #[trigger] order[j] == edges[e].to_node@
    &&& forall|x: Seq<char>|
        back.contains(x) ==> exists|e: int|
            0 <= e < edges.len() && #[trigger] edges[e].id@ == x && order.contains(
                edges[e].from_node@,
            )
}

/// Where the search starts: every node without incoming edges, or every
/// node when there is none (a pure cycle).
pub open spec fn search_covers(g: GraphDef, order: Seq<Seq<char>>) -> bool {
    if has_entry_node(g) {
        forall|i: int|
            0 <= i < g.nodes@.len() && !has_incoming(g.edges@, #[trigger] g.nodes@[i].instance_id@)
                ==> order.contains(g.nodes@[i].instance_id@)
    } else {
        forall|i: int| 0 <= i < g.nodes@.len() ==> order.contains(#[trigger] g.nodes@[i].instance_id@)
    }
}

/// Every visited node is a node of the graph or the target of an edge.
pub open spec fn order_in_graph(g: GraphDef, order: Seq<Seq<char>>) -> bool {
    forall|k: int|
        0 <= k < order.len() ==> (exists|i: int|
            0 <= i < g.nodes@.len() && #[trigger] g.nodes@[i].instance_id@ == order[k]) || has_incoming(
            g.edges@,
            order[k],
        )
}

/// The state of a depth-first search: the nodes visited so far, the nodes on
/// the current search path, and the ids of the edges reported as back-edges.
pub struct Search {
    pub visited: Set<Seq<char>>,
    pub on_path: Set<Seq<char>>,
    pub back: Set<Seq<char>>,
}

/// The state before any node is visited.
pub open spec fn search_start() -> Search {
    Search { visited: Set::empty(), on_path: Set::empty(), back: Set::empty() }
}

/// Visits node `u` unless it was visited already: puts it on the path,
/// follows its outgoing edges in edge order, and takes it off the path again.
/// `fuel` bounds the depth of the search.
pub open spec fn visit(edges: Seq<Edge>, fuel: nat, u: Seq<char>, st: Search) -> Search
    decreases fuel, edges.len() + 1,
{
    if fuel == 0 || st.visited.contains(u) {
        st
    } else {
        let marked = Search {
            visited: st.visited.insert(u),
            on_path: st.on_path.insert(u),
            back: st.back,
        };
        let done = scan(edges, fuel, u, 0, marked);
        Search { visited: done.visited, on_path: done.on_path.remove(u), back: done.back }
    }
}

/// Follows the edges of `u` from position `e` on: an edge whose target is on
/// the current path is reported; an edge to a node not yet visited is
/// followed; any other edge is passed over.
pub open spec fn scan(edges: Seq<Edge>, fuel: nat, u: Seq<char>, e: int, st: Search) -> Search
    decreases fuel, edges.len() - e,
{
    if e < 0 || e >= edges.len() {
        st
    } else {
        let edge = edges[e];
        let next = if edge.from_node@ != u {
            st
        } else if st.on_path.contains(edge.to_node@) {
            Search { visited: st.visited, on_path: st.on_path, back: st.back.insert(edge.id@) }
        } else if !st.visited.contains(edge.to_node@) && fuel > 0 {
            visit(edges, (fuel - 1) as nat, edge.to_node@, st)
        } else {
            st
        };
        scan(edges, fuel, u, e + 1, next)
    }
}

/// Whether the search starts at node `id`: every node without incoming
/// edges is a start node; when there is none, every node is.
pub open spec fn is_start(g: GraphDef, id: Seq<char>) -> bool {
    !has_entry_node(g) || !has_incoming(g.edges@, id)
}

/// Runs the search from the start nodes at positions `k..` in graph order.
pub open spec fn search_nodes(g: GraphDef, fuel: nat, k: int, st: Search) -> Search
    decreases g.nodes@.len() - k,
{
    if k < 0 || k >= g.nodes@.len() {
        st
    } else {
        let id = g.nodes@[k].instance_id@;
        let next = if is_start(g, id) {
            visit(g.edges@, fuel, id, st)
        } else {
            st
        };
        search_nodes(g, fuel, k + 1, next)
    }
}

/// The depth bound of the search: more than the number of nodes it can visit.
pub open spec fn search_fuel(g: GraphDef) -> nat {
    (g.nodes@.len() + g.edges@.len() + 1) as nat
}

/// The back-edges of `g`: the ids of the edges that the depth-first search
/// from the start nodes, in graph order, finds pointing to a node on the
/// current path. Nodes that no start node reaches are never visited.
pub open spec fn back_edge_ids(g: GraphDef) -> Set<Seq<char>> {
    search_nodes(g, search_fuel(g), 0, search_start()).back
}

/// Whether `p` is a path of `g` that starts at a start node of the search:
/// each node after the first is the target of an edge from the one before.
pub open spec fn start_path(g: GraphDef, p: Seq<Seq<char>>) -> bool {
    &&& p.len() > 0
    &&& is_start(g, p[0])
    &&& exists|k: int| 0 <= k < g.nodes@.len() && #[trigger] g.nodes@[k].instance_id@ == p[0]
    &&& forall|i: int| 0 <= i < p.len() - 1 ==> linked(g, #[trigger] p[i], p[i + 1])
}

/// Whether some edge of `g` goes from `a` to `b`.
pub open spec fn linked(g: GraphDef, a: Seq<char>, b: Seq<char>) -> bool {
    exists|e: int| 0 <= e < g.edges@.len() && #[trigger] g.edges@[e].from_node@ == a && g.edges@[e].to_node@ == b
}

/// Whether node `x` can be reached from a start node of the search.
pub open spec fn reachable(g: GraphDef, x: Seq<char>) -> bool {
    exists|p: Seq<Seq<char>>| #[trigger] start_path(g, p) && p.last() == x
}

/// What the search keeps true: it has visited only reachable nodes, and
/// every edge id it reported belongs to an edge leaving a reachable node.
pub open spec fn search_sound(g: GraphDef, st: Search) -> bool {
    &&& forall|x: Seq<char>| #[trigger] st.visited.contains(x) ==> reachable(g, x)
    &&& forall|id: Seq<char>|
        #[trigger] st.back.contains(id) ==> exists|e: int|
            0 <= e < g.edges@.len() && #[trigger] g.edges@[e].id@ == id && reachable(g, g.edges@[e].from_node@)
}

proof fn lemma_path_extend(g: GraphDef, u: Seq<char>, e: int)
    requires
        reachable(g, u),
        0 <= e < g.edges@.len(),
        g.edges@[e].from_node@ == u,
    ensures
        reachable(g, g.edges@[e].to_node@),
{
    let p = choose|p: Seq<Seq<char>>| #[trigger] start_path(g, p) && p.last() == u;
    let q = p.push(g.edges@[e].to_node@);
    assert(q[0] == p[0]);
    assert forall|i: int| 0 <= i < q.len() - 1 implies linked(g, #[trigger] q[i], q[i + 1]) by {
        if i < p.len() - 1 {
            assert(q[i] == p[i]);
            assert(q[i + 1] == p[i + 1]);
            assert(linked(g, p[i], p[i + 1]));
        } else {
            assert(q[i] == u);
            assert(g.edges@[e].from_node@ == q[i]);
        }
    }
    assert(start_path(g, q));
    assert(q.last() == g.edges@[e].to_node@);
}

proof fn lemma_visit_sound(g: GraphDef, fuel: nat, u: Seq<char>, st: Search)
    requires
        search_sound(g, st),
        st.visited.contains(u) || reachable(g, u),
    ensures
        search_sound(g, visit(g.edges@, fuel, u, st)),
    decreases fuel, g.edges@.len() + 1,
{
    if fuel > 0 && !st.visited.contains(u) {
        let marked = Search { visited: st.visited.insert(u), on_path: st.on_path.insert(u), back: st.back };
        assert(search_sound(g, marked));
        lemma_scan_sound(g, fuel, u, 0, marked);
    }
}

proof fn lemma_scan_sound(g: GraphDef, fuel: nat, u: Seq<char>, e: int, st: Search)
    requires
        search_sound(g, st),
        reachable(g, u),
    ensures
        search_sound(g, scan(g.edges@, fuel, u, e, st)),
    decreases fuel, g.edges@.len() - e,
{
    let edges = g.edges@;
    if 0 <= e < edges.len() {
        let edge = edges[e];
        if edge.from_node@ == u {
            if st.on_path.contains(edge.to_node@) {
                let next = Search { visited: st.visited, on_path: st.on_path, back: st.back.insert(edge.id@) };
                assert forall|id: Seq<char>| #[trigger] next.back.contains(id) implies exists|f: int|
                    0 <= f < g.edges@.len() && #[trigger] g.edges@[f].id@ == id && reachable(g, g.edges@[f].from_node@) by {
                    if id == edge.id@ {
                        assert(g.edges@[e].id@ == id);
                    }
                }
                lemma_scan_sound(g, fuel, u, e + 1, next);
            } else if !st.visited.contains(edge.to_node@) && fuel > 0 {
                lemma_path_extend(g, u, e);
                lemma_visit_sound(g, (fuel - 1) as nat, edge.to_node@, st);
                lemma_scan_sound(g, fuel, u, e + 1, visit(edges, (fuel - 1) as nat, edge.to_node@, st));
            } else {
                lemma_scan_sound(g, fuel, u, e + 1, st);
            }
        } else {
            lemma_scan_sound(g, fuel, u, e + 1, st);
        }
    }
}

proof fn lemma_search_nodes_sound(g: GraphDef, fuel: nat, k: int, st: Search)
    requires
        search_sound(g, st),
    ensures
        search_sound(g, search_nodes(g, fuel, k, st)),
    decreases g.nodes@.len() - k,
{
    if 0 <= k < g.nodes@.len() {
        let id = g.nodes@[k].instance_id@;
        if is_start(g, id) {
            let p = seq![id];
            assert(start_path(g, p)) by {
                assert(p[0] == id);
                assert(g.nodes@[k].instance_id@ == p[0]);
            }
            assert(reachable(g, id)) by {
                assert(p.last() == id);
            }
            lemma_visit_sound(g, fuel, id, st);
            lemma_search_nodes_sound(g, fuel, k + 1, visit(g.edges@, fuel, id, st));
        } else {
            lemma_search_nodes_sound(g, fuel, k + 1, st);
        }
    }
}

/// The search never leaves what the start nodes reach: every reported
/// back-edge id belongs to an edge whose source a start node reaches. So an
/// edge from a part of the graph that no start node reaches is never a
/// back-edge, and the node it enters keeps it as an incoming edge.
pub proof fn law_back_edges_are_reachable(g: GraphDef)
    ensures
        forall|id: Seq<char>|
            #[trigger] back_edge_ids(g).contains(id) ==> exists|e: int|
                0 <= e < g.edges@.len() && #[trigger] g.edges@[e].id@ == id && reachable(g, g.edges@[e].from_node@),
{
    let st = search_start();
    assert(search_sound(g, st));
    lemma_search_nodes_sound(g, search_fuel(g), 0, st);
}

// ---------------------------------------------------------------------------
// Node names as indices
// ---------------------------------------------------------------------------

/// The position of `s` in `names`.
fn index_of(names: &Vec<String>, s: &str) -> (r: Option<usize>)
    ensures
        match r {
            Some(i) => i < names@.len() && names@[i as int]@ == s@,
            None => forall|j: int| 0 <= j < names@.len() ==> names@[j]@ != s@,
        },
{
    let mut i: usize = 0;
    while i < names.len()
        invariant
            i <= names@.len(),
            forall|j: int| 0 <= j < i ==> names@[j]@ != s@,
        decreases names.len() - i,
    {
        if str_eq(names[i].as_str(), s) {
            return Some(i);
        }
        i += 1;
    }
    None
}

/// The names appear at most once.
pub open spec fn distinct_names(names: Seq<String>) -> bool {
    forall|i: int, j: int|
        0 <= i < names.len() && 0 <= j < names.len() && i != j ==> names[i]@ != names[j]@
}

/// Whether `s` is one of `names`.
pub open spec fn names_contain(names: Seq<String>, s: Seq<char>) -> bool {
    exists|i: int| 0 <= i < names.len() && #[trigger] names[i]@ == s
}

fn push_name(names: &mut Vec<String>, s: &str)
    requires
        distinct_names(old(names)@),
    ensures
        distinct_names(final(names)@),
        names_contain(final(names)@, s@),
        forall|t: Seq<char>| names_contain(final(names)@, t) <==> (names_contain(old(names)@, t) || t == s@),
        final(names)@.len() <= old(names)@.len() + 1,
{
    match index_of(names, s) {
        Some(i) => {
            assert(names@[i as int]@ == s@);
        },
        None => {
            let ghost prev = names@;
            names.push(String::from_str(s));
            assert(names@[prev.len() as int]@ == s@);
            assert forall|t: Seq<char>|
                names_contain(names@, t) <==> (names_contain(prev, t) || t == s@) by {
                if names_contain(names@, t) {
                    let k = choose|k: int| 0 <= k < names@.len() && #[trigger] names@[k]@ == t;
                    if k < prev.len() {
                        assert(prev[k]@ == t);
                    }
                }
                if names_contain(prev, t) {
                    let k = choose|k: int| 0 <= k < prev.len() && #[trigger] prev[k]@ == t;
                    assert(names@[k]@ == t);
                }
            }
        },
    }
}

/// The names the search can visit: node ids, then edge targets.
fn collect_names(g: &GraphDef) -> (names: Vec<String>)
    ensures
        distinct_names(names@),
        names@.len() <= g.nodes@.len() + g.edges@.len(),
        forall|i: int|
            0 <= i < g.nodes@.len() ==> names_contain(names@, #[trigger] g.nodes@[i].instance_id@),
        forall|e: int| 0 <= e < g.edges@.len() ==> names_contain(names@, #[trigger] g.edges@[e].to_node@),
        forall|k: int|
            0 <= k < names@.len() ==> (exists|i: int|
                0 <= i < g.nodes@.len() && #[trigger] g.nodes@[i].instance_id@ == names@[k]@)
                || has_incoming(g.edges@, names@[k]@),
{
    let mut names: Vec<String> = Vec::new();
    let mut i: usize = 0;
    while i < g.nodes.len()
        invariant
            i <= g.nodes@.len(),
            distinct_names(names@),
            names@.len() <= i,
            forall|j: int| 0 <= j < i ==> names_contain(names@, #[trigger] g.nodes@[j].instance_id@),
            forall|t: Seq<char>|
                names_contain(names@, t) ==> exists|j: int|
                    0 <= j < i && #[trigger] g.nodes@[j].instance_id@ == t,
        decreases g.nodes.len() - i,
    {
        push_name(&mut names, g.nodes[i].instance_id.as_str());
        i += 1;
    }
    let mut e: usize = 0;
    while e < g.edges.len()
        invariant
            e <= g.edges@.len(),
            distinct_names(names@),
            names@.len() <= g.nodes@.len() + e,
            forall|j: int|
                0 <= j < g.nodes@.len() ==> names_contain(names@, #[trigger] g.nodes@[j].instance_id@),
            forall|j: int| 0 <= j < e ==> names_contain(names@, #[trigger] g.edges@[j].to_node@),
            forall|t: Seq<char>|
                names_contain(names@, t) ==> (exists|j: int|
                    0 <= j < g.nodes@.len() && #[trigger] g.nodes@[j].instance_id@ == t)
                    || has_incoming(g.edges@, t),
        decreases g.edges.len() - e,
    {
        proof {
            assert(g.edges@[e as int].to_node@ == g.edges@[e as int].to_node@);
        }
        push_name(&mut names, g.edges[e].to_node.as_str());
        i = 0;
        e += 1;
    }
    assert forall|k: int|
        0 <= k < names@.len() implies (exists|i: int|
            0 <= i < g.nodes@.len() && #[trigger] g.nodes@[i].instance_id@ == names@[k]@)
            || has_incoming(g.edges@, names@[k]@) by {
        assert(names_contain(names@, names@[k]@));
    }
    names
}

// ---------------------------------------------------------------------------
// Depth-first search over indices
// ---------------------------------------------------------------------------

/// The number of `false` entries.
pub open spec fn count_false(s: Seq<bool>) -> nat
    decreases s.len(),
{
    if s.len() == 0 {
        0
    } else {
        count_false(s.drop_last()) + if s.last() {
            0nat
        } else {
            1nat
        }
    }
}

proof fn lemma_count_false_le(s: Seq<bool>)
    ensures
        count_false(s) <= s.len(),
    decreases s.len(),
{
    if s.len() > 0 {
        lemma_count_false_le(s.drop_last());
    }
}

proof fn lemma_count_false_mono(a: Seq<bool>, b: Seq<bool>)
    requires
        a.len() == b.len(),
        forall|i: int| 0 <= i < a.len() && a[i] ==> b[i],
    ensures
        count_false(b) <= count_false(a),
    decreases a.len(),
{
    if a.len() > 0 {
        lemma_count_false_mono(a.drop_last(), b.drop_last());
    }
}

proof fn lemma_count_false_strict(a: Seq<bool>, b: Seq<bool>, u: int)
    requires
        a.len() == b.len(),
        forall|i: int| 0 <= i < a.len() && a[i] ==> b[i],
        0 <= u < a.len(),
        !a[u],
        b[u],
    ensures
        count_false(b) < count_false(a),
    decreases a.len(),
{
    if u == a.len() - 1 {
        lemma_count_false_mono(a.drop_last(), b.drop_last());
    } else {
        lemma_count_false_strict(a.drop_last(), b.drop_last(), u);
    }
}

/// The edges as indices into the visitable names; `from` is `n` (the number
/// of names) for an edge whose source is not visitable.
struct Indexed {
    n: usize,
    from: Vec<usize>,
    to: Vec<usize>,
}

spec fn ix_wf(ix: &Indexed) -> bool {
    &&& ix.from@.len() == ix.to@.len()
    &&& forall|e: int| 0 <= e < ix.to@.len() ==> ix.to@[e] < ix.n
    &&& forall|e: int| 0 <= e < ix.from@.len() ==> ix.from@[e] <= ix.n
}

/// Whether some flagged position holds the name `s`.
spec fn marked(names: Seq<String>, flags: Seq<bool>, s: Seq<char>) -> bool {
    exists|k: int| 0 <= k < flags.len() && flags[k] && #[trigger] names[k]@ == s
}

/// Whether some flagged edge has the id `x`.
spec fn flagged_id(edges: Seq<Edge>, flags: Seq<bool>, x: Seq<char>) -> bool {
    exists|e: int| 0 <= e < flags.len() && flags[e] && #[trigger] edges[e].id@ == x
}

/// The search state that the index vectors stand for.
spec fn abs_search(
    names: Seq<String>,
    edges: Seq<Edge>,
    visited: Seq<bool>,
    on_stack: Seq<bool>,
    back: Seq<bool>,
) -> Search {
    Search {
        visited: Set::new(|s: Seq<char>| marked(names, visited, s)),
        on_path: Set::new(|s: Seq<char>| marked(names, on_stack, s)),
        back: Set::new(|x: Seq<char>| flagged_id(edges, back, x)),
    }
}

/// The index vectors agree with the names and edges of the graph.
spec fn links(ix: &Indexed, names: Seq<String>, edges: Seq<Edge>) -> bool {
    &&& distinct_names(names)
    &&& names.len() == ix.n
    &&& edges.len() == ix.to@.len()
    &&& forall|e: int| 0 <= e < ix.to@.len() ==> names[#[trigger] ix.to@[e] as int]@ == edges[e].to_node@
    &&& forall|e: int, k: int|
        0 <= e < ix.from@.len() && 0 <= k < names.len() ==> (#[trigger] ix.from@[e] == k
            <==> #[trigger] names[k]@ == edges[e].from_node@)
}

proof fn lemma_marked_at(names: Seq<String>, flags: Seq<bool>, v: int)
    requires
        distinct_names(names),
        flags.len() == names.len(),
        0 <= v < flags.len(),
    ensures
        marked(names, flags, names[v]@) == flags[v],
{
    if marked(names, flags, names[v]@) {
        let k = choose|k: int| 0 <= k < flags.len() && flags[k] && #[trigger] names[k]@ == names[v]@;
        assert(k == v);
    }
}

proof fn lemma_marked_set_true(names: Seq<String>, flags: Seq<bool>, u: int)
    requires
        flags.len() == names.len(),
        0 <= u < flags.len(),
    ensures
        Set::new(|s: Seq<char>| marked(names, flags.update(u, true), s)) == Set::new(
            |s: Seq<char>| marked(names, flags, s),
        ).insert(names[u]@),
{
    let f2 = flags.update(u, true);
    assert forall|s: Seq<char>| marked(names, f2, s) <==> (marked(names, flags, s) || s == names[u]@) by {
        if marked(names, f2, s) {
            let k = choose|k: int| 0 <= k < f2.len() && f2[k] && #[trigger] names[k]@ == s;
            if k != u {
                assert(flags[k]);
            }
        }
        if marked(names, flags, s) {
            let k = choose|k: int| 0 <= k < flags.len() && flags[k] && #[trigger] names[k]@ == s;
            assert(f2[k]);
        }
        if s == names[u]@ {
            assert(f2[u]);
        }
    }
    assert(Set::new(|s: Seq<char>| marked(names, f2, s)) =~= Set::new(
        |s: Seq<char>| marked(names, flags, s),
    ).insert(names[u]@));
}

proof fn lemma_marked_set_false(names: Seq<String>, flags: Seq<bool>, u: int)
    requires
        distinct_names(names),
        flags.len() == names.len(),
        0 <= u < flags.len(),
    ensures
        Set::new(|s: Seq<char>| marked(names, flags.update(u, false), s)) == Set::new(
            |s: Seq<char>| marked(names, flags, s),
        ).remove(names[u]@),
{
    let f2 = flags.update(u, false);
    assert forall|s: Seq<char>| marked(names, f2, s) <==> (marked(names, flags, s) && s != names[u]@) by {
        if marked(names, f2, s) {
            let k = choose|k: int| 0 <= k < f2.len() && f2[k] && #[trigger] names[k]@ == s;
            assert(k != u);
            assert(flags[k]);
            assert(names[k]@ != names[u]@);
        }
        if marked(names, flags, s) && s != names[u]@ {
            let k = choose|k: int| 0 <= k < flags.len() && flags[k] && #[trigger] names[k]@ == s;
            assert(k != u);
            assert(f2[k]);
        }
    }
    assert(Set::new(|s: Seq<char>| marked(names, f2, s)) =~= Set::new(
        |s: Seq<char>| marked(names, flags, s),
    ).remove(names[u]@));
}

proof fn lemma_flagged_set_true(edges: Seq<Edge>, flags: Seq<bool>, e: int)
    requires
        flags.len() == edges.len(),
        0 <= e < flags.len(),
    ensures
        Set::new(|x: Seq<char>| flagged_id(edges, flags.update(e, true), x)) == Set::new(
            |x: Seq<char>| flagged_id(edges, flags, x),
        ).insert(edges[e].id@),
{
    let f2 = flags.update(e, true);
    assert forall|x: Seq<char>| flagged_id(edges, f2, x) <==> (flagged_id(edges, flags, x) || x == edges[e].id@) by {
        if flagged_id(edges, f2, x) {
            let k = choose|k: int| 0 <= k < f2.len() && f2[k] && #[trigger] edges[k].id@ == x;
            if k != e {
                assert(flags[k]);
            }
        }
        if flagged_id(edges, flags, x) {
            let k = choose|k: int| 0 <= k < flags.len() && flags[k] && #[trigger] edges[k].id@ == x;
            assert(f2[k]);
        }
        if x == edges[e].id@ {
            assert(f2[e]);
        }
    }
    assert(Set::new(|x: Seq<char>| flagged_id(edges, f2, x)) =~= Set::new(
        |x: Seq<char>| flagged_id(edges, flags, x),
    ).insert(edges[e].id@));
}

spec fn dfs_inv(
    ix: &Indexed,
    visited: Seq<bool>,
    on_stack: Seq<bool>,
    back: Seq<bool>,
    finished: Seq<usize>,
) -> bool {
    &&& ix_wf(ix)
    &&& visited.len() == ix.n
    &&& on_stack.len() == ix.n
    &&& back.len() == ix.to@.len()
    &&& finished.no_duplicates()
    &&& forall|i: int| 0 <= i < finished.len() ==> #[trigger] finished[i] < ix.n
    &&& forall|u: int|
        0 <= u < ix.n ==> #[trigger] visited[u] == (on_stack[u] || finished.contains(u as usize))
    &&& forall|u: int| 0 <= u < ix.n && #[trigger] on_stack[u] ==> !finished.contains(u as usize)
    &&& forall|i: int, e: int|
        #![trigger finished[i], ix.from@[e]]
        0 <= i < finished.len() && 0 <= e < ix.to@.len() && ix.from@[e] == finished[i] ==> visited[ix.to@[e] as int] && (back[e] || exists|j: int|
            0 <= j < i && #[trigger] finished[j] == ix.to@[e])
    &&& forall|e: int|
        0 <= e < back.len() && #[trigger] back[e] ==> ix.from@[e] < ix.n && visited[ix.from@[e] as int]
}

fn dfs(
    u: usize,
    ix: &Indexed,
    visited: &mut Vec<bool>,
    on_stack: &mut Vec<bool>,
    back: &mut Vec<bool>,
    finished: &mut Vec<usize>,
    Ghost(budget): Ghost<nat>,
    Ghost(names): Ghost<Seq<String>>,
    Ghost(edges): Ghost<Seq<Edge>>,
)
    requires
        budget == count_false(old(visited)@),
        dfs_inv(ix, old(visited)@, old(on_stack)@, old(back)@, old(finished)@),
        links(ix, names, edges),
        u < ix.n,
        !old(visited)@[u as int],
    ensures
        forall|f: nat|
            f > budget ==> #[trigger] visit(
                edges,
                f,
                names[u as int]@,
                abs_search(names, edges, old(visited)@, old(on_stack)@, old(back)@),
            ) == abs_search(names, edges, final(visited)@, final(on_stack)@, final(back)@),
        dfs_inv(ix, final(visited)@, final(on_stack)@, final(back)@, final(finished)@),
        final(on_stack)@ == old(on_stack)@,
        final(finished)@.len() >= old(finished)@.len(),
        final(finished)@.take(old(finished)@.len() as int) == old(finished)@,
        final(finished)@.contains(u),
        forall|x: int| 0 <= x < old(visited)@.len() && old(visited)@[x] ==> final(visited)@[x],
        forall|e: int| 0 <= e < old(back)@.len() && old(back)@[e] ==> final(back)@[e],
    decreases budget,
{
    let ghost v0 = visited@;
    let ghost f0 = finished@;
    let ghost s0 = on_stack@;
    let ghost b0 = back@;
    visited.set(u, true);
    on_stack.set(u, true);
    let ghost nu = names[u as int]@;
    let ghost a0 = abs_search(names, edges, v0, s0, b0);
    let ghost a1 = abs_search(names, edges, visited@, on_stack@, back@);
    proof {
        lemma_count_false_strict(v0, visited@, u as int);
        assert(!f0.contains(u));
        lemma_marked_set_true(names, v0, u as int);
        lemma_marked_set_true(names, s0, u as int);
        lemma_marked_at(names, v0, u as int);
        assert(a1 == Search { visited: a0.visited.insert(nu), on_path: a0.on_path.insert(nu), back: a0.back });
        assert(!a0.visited.contains(nu));
    }
    let mut e: usize = 0;
    while e < ix.to.len()
        invariant
            dfs_inv(ix, visited@, on_stack@, back@, finished@),
            u < ix.n,
            e <= ix.to@.len(),
            on_stack@ == s0.update(u as int, true),
            visited@[u as int],
            !finished@.contains(u),
            finished@.len() >= f0.len(),
            finished@.take(f0.len() as int) == f0,
            forall|x: int| 0 <= x < v0.len() && v0[x] ==> visited@[x],
            forall|x: int| 0 <= x < b0.len() && b0[x] ==> back@[x],
            count_false(visited@) < count_false(v0),
            budget == count_false(v0),
            v0.len() == visited@.len(),
            s0.len() == ix.n,
            b0.len() == ix.to@.len(),
            forall|k: int|
                0 <= k < e && #[trigger] ix.from@[k] == u ==> visited@[ix.to@[k] as int] && (back@[k]
                    || finished@.contains(ix.to@[k])),
            links(ix, names, edges),
            nu == names[u as int]@,
            forall|f: nat|
                f > budget ==> #[trigger] scan(
                    edges,
                    f,
                    nu,
                    e as int,
                    abs_search(names, edges, visited@, on_stack@, back@),
                ) == scan(edges, f, nu, 0, a1),
        decreases ix.to.len() - e,
    {
        let ghost a = abs_search(names, edges, visited@, on_stack@, back@);
        let ghost ee = e as int;
        let ghost target = edges[ee].to_node@;
        if ix.from[e] == u {
            let v = ix.to[e];
            proof {
                assert(names[v as int]@ == target);
                assert(edges[ee].from_node@ == nu);
                lemma_marked_at(names, on_stack@, v as int);
                lemma_marked_at(names, visited@, v as int);
            }
            if on_stack[v] {
                let ghost bprev = back@;
                back.set(e, true);
                proof {
                    lemma_flagged_set_true(edges, bprev, ee);
                    assert(a.on_path.contains(target));
                    assert forall|f: nat| f > budget implies #[trigger] scan(edges, f, nu, ee, a) == scan(
                        edges,
                        f,
                        nu,
                        ee + 1,
                        abs_search(names, edges, visited@, on_stack@, back@),
                    ) by {
                        assert(abs_search(names, edges, visited@, on_stack@, back@) == Search {
                            visited: a.visited,
                            on_path: a.on_path,
                            back: a.back.insert(edges[ee].id@),
                        });
                    }
                }
            } else if !visited[v] {
                let ghost vb = visited@;
                let ghost fb = finished@;
                let ghost bb = back@;
                assert(count_false(visited@) < count_false(v0));
                dfs(
                    v,
                    ix,
                    visited,
                    on_stack,
                    back,
                    finished,
                    Ghost(count_false(visited@)),
                    Ghost(names),
                    Ghost(edges),
                );
                proof {
                    assert(!a.on_path.contains(target));
                    assert(!a.visited.contains(target));
                    assert forall|f: nat| f > budget implies #[trigger] scan(edges, f, nu, ee, a) == scan(
                        edges,
                        f,
                        nu,
                        ee + 1,
                        abs_search(names, edges, visited@, on_stack@, back@),
                    ) by {
                        let f1 = (f - 1) as nat;
                        assert(f1 > count_false(vb));
                        assert(visit(edges, f1, names[v as int]@, a) == abs_search(
                            names,
                            edges,
                            visited@,
                            on_stack@,
                            back@,
                        ));
                    }
                    assert forall|x: int| 0 <= x < v0.len() && v0[x] implies visited@[x] by {
                        assert(vb[x]);
                    }
                    assert forall|x: int| 0 <= x < b0.len() && b0[x] implies back@[x] by {
                        assert(bb[x]);
                    }
                    lemma_count_false_mono(vb, visited@);
                    assert(finished@.take(f0.len() as int) =~= fb.take(f0.len() as int));
                    assert forall|k: int|
                        0 <= k < e && #[trigger] ix.from@[k] == u implies visited@[ix.to@[k] as int] && (
                        back@[k] || finished@.contains(ix.to@[k])) by {
                        assert(vb[ix.to@[k] as int]);
                        if !bb[k] {
                            let j = choose|j: int| 0 <= j < fb.len() && fb[j] == ix.to@[k];
                            assert(finished@[j] == fb[j]);
                        }
                    }
                    if finished@.contains(u) {
                        let j = choose|j: int| 0 <= j < finished@.len() && finished@[j] == u;
                        assert(on_stack@[u as int]);
                    }
                }
            } else {
                assert(finished@.contains(v));
                proof {
                    assert(!a.on_path.contains(target));
                    assert(a.visited.contains(target));
                    assert forall|f: nat| f > budget implies #[trigger] scan(edges, f, nu, ee, a) == scan(
                        edges,
                        f,
                        nu,
                        ee + 1,
                        abs_search(names, edges, visited@, on_stack@, back@),
                    ) by {}
                }
            }
        } else {
            proof {
                assert(edges[ee].from_node@ != nu);
                assert forall|f: nat| f > budget implies #[trigger] scan(edges, f, nu, ee, a) == scan(
                    edges,
                    f,
                    nu,
                    ee + 1,
                    abs_search(names, edges, visited@, on_stack@, back@),
                ) by {}
            }
        }
        e += 1;
        proof {
            assert forall|f: nat| f > budget implies #[trigger] scan(
                edges,
                f,
                nu,
                e as int,
                abs_search(names, edges, visited@, on_stack@, back@),
            ) == scan(edges, f, nu, 0, a1) by {
                assert(scan(edges, f, nu, ee, a) == scan(edges, f, nu, 0, a1));
            }
        }
    }
    let ghost fin_before = finished@;
    let ghost a_end = abs_search(names, edges, visited@, on_stack@, back@);
    let ghost stack_end = on_stack@;
    on_stack.set(u, false);
    finished.push(u);
    proof {
        lemma_marked_set_false(names, stack_end, u as int);
        assert forall|f: nat| f > budget implies #[trigger] visit(edges, f, nu, a0) == abs_search(
            names,
            edges,
            visited@,
            on_stack@,
            back@,
        ) by {
            assert(scan(edges, f, nu, ix.to@.len() as int, a_end) == a_end);
            assert(scan(edges, f, nu, 0, a1) == a_end);
        }
    }
    proof {
        let i0 = fin_before.len() as int;
        assert(on_stack@ =~= s0) by {
            assert(!s0[u as int]);
        }
        assert forall|a: int, b: int|
            0 <= a < finished@.len() && 0 <= b < finished@.len() && a != b implies finished@[a]
            != finished@[b] by {
            if a < i0 && b < i0 {
                assert(fin_before[a] != fin_before[b]);
            }
        }
        assert forall|i: int, k: int|
            #![trigger finished@[i], ix.from@[k]]
            0 <= i < finished@.len() && 0 <= k < ix.to@.len() && ix.from@[k] == finished@[i] implies visited@[ix.to@[k] as int] && (back@[k] || exists|j: int|
                0 <= j < i && #[trigger] finished@[j] == ix.to@[k]) by {
            if i < i0 {
                assert(fin_before[i] == finished@[i]);
                if !back@[k] {
                    let j = choose|j: int| 0 <= j < i && #[trigger] fin_before[j] == ix.to@[k];
                    assert(finished@[j] == fin_before[j]);
                }
            } else {
                assert(ix.from@[k] == u);
                if !back@[k] {
                    let j = choose|j: int| 0 <= j < fin_before.len() && fin_before[j] == ix.to@[k];
                    assert(finished@[j] == fin_before[j]);
                }
            }
        }
        assert forall|x: int| 0 <= x < ix.n implies #[trigger] visited@[x] == (on_stack@[x]
            || finished@.contains(x as usize)) by {
            if x == u {
                assert(finished@[i0] == u);
            }
            if finished@.contains(x as usize) && x != u {
                let j = choose|j: int| 0 <= j < finished@.len() && finished@[j] == x as usize;
                assert(fin_before[j] == x as usize);
            }
            if fin_before.contains(x as usize) {
                let j = choose|j: int| 0 <= j < fin_before.len() && fin_before[j] == x as usize;
                assert(finished@[j] == x as usize);
            }
        }
        assert forall|x: int| 0 <= x < ix.n && #[trigger] on_stack@[x] implies !finished@.contains(
            x as usize,
        ) by {
            if finished@.contains(x as usize) {
                let j = choose|j: int| 0 <= j < finished@.len() && finished@[j] == x as usize;
                if j < i0 {
                    assert(fin_before[j] == x as usize);
                }
            }
        }
        assert(finished@.take(f0.len() as int) =~= f0) by {
            assert(fin_before.take(f0.len() as int) == f0);
        }
        assert(finished@[i0] == u);
    }
}

spec fn finished_has(names: Seq<String>, finished: Seq<usize>, t: Seq<char>) -> bool {
    exists|x: int| 0 <= x < finished.len() && #[trigger] names[finished[x] as int]@ == t
}

proof fn lemma_finished_has_grows(names: Seq<String>, f0: Seq<usize>, f1: Seq<usize>, t: Seq<char>)
    requires
        f1.len() >= f0.len(),
        f1.take(f0.len() as int) == f0,
        finished_has(names, f0, t),
    ensures
        finished_has(names, f1, t),
{
    let x = choose|x: int| 0 <= x < f0.len() && #[trigger] names[f0[x] as int]@ == t;
    assert(f1.take(f0.len() as int)[x] == f1[x]);
    assert(names[f1[x] as int]@ == t);
}

/// The texts of the finished nodes, in finishing order.
spec fn order_of(names: Seq<String>, finished: Seq<usize>) -> Seq<Seq<char>> {
    Seq::new(finished.len(), |i: int| names[finished[i] as int]@)
}

fn index_edges(g: &GraphDef, names: &Vec<String>) -> (ix: Indexed)
    requires
        distinct_names(names@),
        forall|e: int| 0 <= e < g.edges@.len() ==> names_contain(names@, #[trigger] g.edges@[e].to_node@),
    ensures
        ix_wf(&ix),
        ix.n == names@.len(),
        ix.to@.len() == g.edges@.len(),
        forall|e: int| 0 <= e < ix.to@.len() ==> names@[#[trigger] ix.to@[e] as int]@ == g.edges@[e].to_node@,
        forall|e: int, k: int|
            0 <= e < ix.from@.len() && 0 <= k < names@.len() ==> (#[trigger] ix.from@[e] == k
                <==> #[trigger] names@[k]@ == g.edges@[e].from_node@),
{
    let n = names.len();
    let mut from: Vec<usize> = Vec::new();
    let mut to: Vec<usize> = Vec::new();
    let mut e: usize = 0;
    while e < g.edges.len()
        invariant
            e <= g.edges@.len(),
            n == names@.len(),
            distinct_names(names@),
            forall|e: int| 0 <= e < g.edges@.len() ==> names_contain(names@, #[trigger] g.edges@[e].to_node@),
            from@.len() == e,
            to@.len() == e,
            forall|k: int| 0 <= k < e ==> #[trigger] to@[k] < n && names@[to@[k] as int]@ == g.edges@[k].to_node@,
            forall|k: int| 0 <= k < e ==> #[trigger] from@[k] <= n,
            forall|k: int, m: int|
                0 <= k < e && 0 <= m < n ==> (#[trigger] from@[k] == m <==> #[trigger] names@[m]@
                    == g.edges@[k].from_node@),
        decreases g.edges.len() - e,
    {
        let t = match index_of(names, g.edges[e].to_node.as_str()) {
            Some(i) => i,
            None => {
                proof {
                    assert(names_contain(names@, g.edges@[e as int].to_node@));
                }
                0
            },
        };
        let f = match index_of(names, g.edges[e].from_node.as_str()) {
            Some(i) => i,
            None => n,
        };
        to.push(t);
        from.push(f);
        e += 1;
    }
    Indexed { n, from, to }
}

/// Finds back-edges by a depth-first search from the entry nodes (all
/// nodes when every node has an incoming edge). A back-edge points to a node
/// on the current search path; reporting it breaks the cycle it closes.
/// Nodes not reachable from the entry nodes are not searched.
pub fn find_back_edges(g: &GraphDef) -> (r: StrSet)
    ensures
        r@ == back_edge_ids(*g),
        exists|order: Seq<Seq<char>>|
            back_edges_ok(g.edges@, r@, order) && search_covers(*g, order) && order_in_graph(
                *g,
                order,
            ),
{
    let names = collect_names(g);
    let ix = index_edges(g, &names);
    let n = names.len();
    let mut visited: Vec<bool> = Vec::new();
    let mut on_stack: Vec<bool> = Vec::new();
    let mut i: usize = 0;
    while i < n
        invariant
            i <= n,
            visited@.len() == i,
            on_stack@.len() == i,
            forall|k: int| 0 <= k < i ==> !#[trigger] visited@[k],
            forall|k: int| 0 <= k < i ==> !#[trigger] on_stack@[k],
        decreases n - i,
    {
        visited.push(false);
        on_stack.push(false);
        i += 1;
    }
    let mut back: Vec<bool> = Vec::new();
    let mut e: usize = 0;
    while e < ix.to.len()
        invariant
            e <= ix.to@.len(),
            back@.len() == e,
            forall|k: int| 0 <= k < e ==> !#[trigger] back@[k],
        decreases ix.to.len() - e,
    {
        back.push(false);
        e += 1;
    }
    let mut finished: Vec<usize> = Vec::new();
    let ghost stack0 = on_stack@;
    assert(dfs_inv(&ix, visited@, on_stack@, back@, finished@));
    // Does some node lack incoming edges?
    let mut incoming: Vec<bool> = Vec::new();
    let mut any_entry = false;
    let mut k: usize = 0;
    while k < g.nodes.len()
        invariant
            k <= g.nodes@.len(),
            incoming@.len() == k,
            forall|j: int|
                0 <= j < k ==> #[trigger] incoming@[j] == has_incoming(
                    g.edges@,
                    g.nodes@[j].instance_id@,
                ),
            any_entry == exists|j: int| 0 <= j < k && !#[trigger] incoming@[j],
        decreases g.nodes.len() - k,
    {
        let mut found = false;
        let mut m: usize = 0;
        while m < g.edges.len()
            invariant
                m <= g.edges@.len(),
                k < g.nodes@.len(),
                found == exists|x: int|
                    0 <= x < m && #[trigger] g.edges@[x].to_node@ == g.nodes@[k as int].instance_id@,
            decreases g.edges.len() - m,
        {
            if str_eq(g.edges[m].to_node.as_str(), g.nodes[k].instance_id.as_str()) {
                found = true;
            }
            m += 1;
        }
        let ghost prev_any = any_entry;
        let ghost prev_inc = incoming@;
        incoming.push(found);
        if !found {
            any_entry = true;
        }
        proof {
            assert(incoming@[k as int] == found);
            if !found {
                assert(!incoming@[k as int]);
            }
            if exists|j: int| 0 <= j < k + 1 && !#[trigger] incoming@[j] {
                let j = choose|j: int| 0 <= j < k + 1 && !#[trigger] incoming@[j];
                if j < k {
                    assert(!incoming@[j]);
                }
            }
            if prev_any {
                let j = choose|j: int| 0 <= j < k && !#[trigger] prev_inc[j];
                assert(!incoming@[j]);
            }
        }
        k += 1;
    }
    assert(any_entry == has_entry_node(*g)) by {
        if any_entry {
            let j = choose|j: int| 0 <= j < g.nodes@.len() && !#[trigger] incoming@[j];
            assert(!has_incoming(g.edges@, g.nodes@[j].instance_id@));
        }
        if has_entry_node(*g) {
            let j = choose|j: int|
                0 <= j < g.nodes@.len() && !has_incoming(g.edges@, #[trigger] g.nodes@[j].instance_id@);
            assert(!incoming@[j]);
        }
    }
    let ghost fuel = search_fuel(*g);
    proof {
        assert(links(&ix, names@, g.edges@));
        assert(abs_search(names@, g.edges@, visited@, on_stack@, back@) == search_start()) by {
            assert(Set::new(|s: Seq<char>| marked(names@, visited@, s)) =~= Set::empty());
            assert(Set::new(|s: Seq<char>| marked(names@, on_stack@, s)) =~= Set::empty());
            assert(Set::new(|x: Seq<char>| flagged_id(g.edges@, back@, x)) =~= Set::empty());
        }
    }
    let mut k: usize = 0;
    while k < g.nodes.len()
        invariant
            k <= g.nodes@.len(),
            n == names@.len(),
            ix.n == n,
            links(&ix, names@, g.edges@),
            fuel == search_fuel(*g),
            n < fuel,
            search_nodes(*g, fuel, k as int, abs_search(names@, g.edges@, visited@, on_stack@, back@))
                == search_nodes(*g, fuel, 0, search_start()),
            distinct_names(names@),
            forall|i: int| 0 <= i < g.nodes@.len() ==> names_contain(names@, #[trigger] g.nodes@[i].instance_id@),
            incoming@.len() == g.nodes@.len(),
            forall|j: int|
                0 <= j < g.nodes@.len() ==> #[trigger] incoming@[j] == has_incoming(
                    g.edges@,
                    g.nodes@[j].instance_id@,
                ),
            dfs_inv(&ix, visited@, on_stack@, back@, finished@),
            any_entry == has_entry_node(*g),
            on_stack@ == stack0,
            stack0.len() == n,
            forall|x: int| 0 <= x < n ==> !#[trigger] stack0[x],
            forall|j: int|
                0 <= j < k && (!any_entry || !incoming@[j]) ==> finished_has(
                    names@,
                    finished@,
                    #[trigger] g.nodes@[j].instance_id@,
                ),
        decreases g.nodes.len() - k,
    {
        let ghost a = abs_search(names@, g.edges@, visited@, on_stack@, back@);
        let ghost id = g.nodes@[k as int].instance_id@;
        assert(is_start(*g, id) == (!any_entry || !incoming@[k as int]));
        if !any_entry || !incoming[k] {
            let idx = match index_of(&names, g.nodes[k].instance_id.as_str()) {
                Some(x) => x,
                None => {
                    proof {
                        assert(names_contain(names@, g.nodes@[k as int].instance_id@));
                    }
                    0
                },
            };
            let ghost fb = finished@;
            proof {
                lemma_marked_at(names@, visited@, idx as int);
                lemma_count_false_le(visited@);
            }
            if !visited[idx] {
                let ghost cf = count_false(visited@);
                dfs(
                    idx,
                    &ix,
                    &mut visited,
                    &mut on_stack,
                    &mut back,
                    &mut finished,
                    Ghost(cf),
                    Ghost(names@),
                    Ghost(g.edges@),
                );
            }
            assert(finished@.take(fb.len() as int) =~= fb);
            proof {
                assert(visit(g.edges@, fuel, names@[idx as int]@, a) == abs_search(
                    names@,
                    g.edges@,
                    visited@,
                    on_stack@,
                    back@,
                ));
                assert(search_nodes(*g, fuel, k as int, a) == search_nodes(
                    *g,
                    fuel,
                    k + 1,
                    abs_search(names@, g.edges@, visited@, on_stack@, back@),
                ));
                assert(visited@[idx as int]);
                assert(finished@.contains(idx));
                let x = choose|x: int| 0 <= x < finished@.len() && finished@[x] == idx;
                assert(names@[finished@[x] as int]@ == g.nodes@[k as int].instance_id@);
                assert(finished_has(names@, finished@, g.nodes@[k as int].instance_id@));
                assert forall|j: int|
                    0 <= j < k && (!any_entry || !incoming@[j]) implies finished_has(
                    names@,
                    finished@,
                    #[trigger] g.nodes@[j].instance_id@,
                ) by {
                    lemma_finished_has_grows(names@, fb, finished@, g.nodes@[j].instance_id@);
                }
            }
        } else {
            proof {
                assert(search_nodes(*g, fuel, k as int, a) == search_nodes(*g, fuel, k + 1, a));
            }
        }
        k += 1;
    }
    let ghost a_end = abs_search(names@, g.edges@, visited@, on_stack@, back@);
    assert(a_end.back == back_edge_ids(*g)) by {
        assert(search_nodes(*g, fuel, g.nodes@.len() as int, a_end) == a_end);
    }
    // Report the ids of the back-edges.
    let mut result = StrSet::new();
    let mut e: usize = 0;
    while e < g.edges.len()
        invariant
            e <= g.edges@.len(),
            back@.len() == g.edges@.len(),
            any_entry == has_entry_node(*g),
            a_end == abs_search(names@, g.edges@, visited@, on_stack@, back@),
            forall|x: Seq<char>|
                result@.contains(x) <==> exists|m: int|
                    0 <= m < e && back@[m] && #[trigger] g.edges@[m].id@ == x,
        decreases g.edges.len() - e,
    {
        if back[e] {
            result.insert(g.edges[e].id.as_str());
        }
        proof {
            assert forall|x: Seq<char>|
                result@.contains(x) <==> exists|m: int|
                    0 <= m < e + 1 && back@[m] && #[trigger] g.edges@[m].id@ == x by {
                if x == g.edges@[e as int].id@ && back@[e as int] {
                    assert(g.edges@[e as int].id@ == x);
                }
            }
        }
        e += 1;
    }
    proof {
        let order = order_of(names@, finished@);
        assert forall|a: int, b: int| 0 <= a < order.len() && 0 <= b < order.len() && a != b implies order[a]
            != order[b] by {
            assert(finished@[a] != finished@[b]);
        }
        assert forall|x: int| 0 <= x < n implies (#[trigger] visited@[x] <==> finished@.contains(
            x as usize,
        )) by {
            assert(!on_stack@[x]);
        }
        assert forall|i: int, e: int|
            #![trigger order[i], g.edges@[e]]
            0 <= i < order.len() && 0 <= e < g.edges@.len() && g.edges@[e].from_node@ == order[i] implies order.contains(
                g.edges@[e].to_node@,
            ) && (result@.contains(g.edges@[e].id@) || exists|j: int|
                0 <= j < i && #[trigger] order[j] == g.edges@[e].to_node@) by {
            assert(ix.from@[e] == finished@[i]);
            let t = ix.to@[e];
            assert(visited@[t as int]);
            assert(finished@.contains(t));
            let y = choose|y: int| 0 <= y < finished@.len() && finished@[y] == t;
            assert(order[y] == g.edges@[e].to_node@);
            if !back@[e] {
                let j = choose|j: int| 0 <= j < i && #[trigger] finished@[j] == ix.to@[e];
                assert(order[j] == g.edges@[e].to_node@);
            } else {
                assert(result@.contains(g.edges@[e].id@));
            }
        }
        assert forall|x: Seq<char>| result@.contains(x) implies exists|e: int|
            0 <= e < g.edges@.len() && #[trigger] g.edges@[e].id@ == x && order.contains(
                g.edges@[e].from_node@,
            ) by {
            let m = choose|m: int| 0 <= m < g.edges@.len() && back@[m] && #[trigger] g.edges@[m].id@ == x;
            let f = ix.from@[m];
            assert(visited@[f as int]);
            assert(finished@.contains(f));
            let y = choose|y: int| 0 <= y < finished@.len() && finished@[y] == f;
            assert(order[y] == g.edges@[m].from_node@);
        }
        assert(back_edges_ok(g.edges@, result@, order));
        assert(result@ =~= a_end.back) by {
            assert forall|x: Seq<char>| result@.contains(x) <==> a_end.back.contains(x) by {
                assert(a_end.back.contains(x) == flagged_id(g.edges@, back@, x));
            }
        }
        assert forall|j: int|
            0 <= j < g.nodes@.len() && (!any_entry || !incoming@[j]) implies order.contains(
            g.nodes@[j].instance_id@,
        ) by {
            assert(finished_has(names@, finished@, g.nodes@[j].instance_id@));
            let x = choose|x: int|
                0 <= x < finished@.len() && #[trigger] names@[finished@[x] as int]@
                    == g.nodes@[j].instance_id@;
            assert(order[x] == g.nodes@[j].instance_id@);
        }
        if has_entry_node(*g) {
            assert forall|i: int|
                0 <= i < g.nodes@.len() && !has_incoming(g.edges@, #[trigger] g.nodes@[i].instance_id@)
                    implies order.contains(g.nodes@[i].instance_id@) by {
                assert(!incoming@[i]);
            }
        } else {
            assert forall|i: int| 0 <= i < g.nodes@.len() implies order.contains(
                #[trigger] g.nodes@[i].instance_id@,
            ) by {
                assert(!any_entry);
                assert(finished_has(names@, finished@, g.nodes@[i].instance_id@));
                let x = choose|x: int|
                    0 <= x < finished@.len() && #[trigger] names@[finished@[x] as int]@
                        == g.nodes@[i].instance_id@;
                assert(order[x] == g.nodes@[i].instance_id@);
            }
        }
        assert(search_covers(*g, order));
        assert(order_in_graph(*g, order));
    }
    result
}

} // verus!
