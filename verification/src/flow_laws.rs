//! Properties of edge evaluation that hold for every run state.
use vstd::prelude::*;
use crate::executor::{
    edge_slot, eval_all, eval_step, eval_upto, fan_out_running, lemma_edge_slot_exists, RunState,
    FanSpec, NodeOutcome, fan_out_item_result, fan_out_recorded, fans, merged_view, node_slot,
    results_outputs, Completion, cond_passes, EvalSpec,
};
use crate::events::opt_text_view;
use crate::json::JsonView;

verus! {

proof fn lemma_counts_bounded(
    st: RunState,
    node: Seq<char>,
    outputs: JsonView,
    from_fan_in: bool,
    conds: Seq<bool>,
    upto: int,
)
    requires
        st.wf(),
        0 <= upto <= st.graph.edges@.len(),
        forall|i: int| 0 <= i < st.counts@.len() ==> #[trigger] st.counts@[i] <= st.max_traversals,
    ensures
        ({
            let c = eval_upto(st, node, outputs, from_fan_in, conds, upto).0;
            &&& c.len() == st.counts@.len()
            &&& forall|i: int|
                0 <= i < c.len() ==> st.counts@[i] <= #[trigger] c[i] <= st.max_traversals
        }),
    decreases upto,
{
    if upto > 0 {
        lemma_counts_bounded(st, node, outputs, from_fan_in, conds, upto - 1);
        let k = upto - 1;
        let edges = st.graph.edges@;
        if edges[k].from_node@ == node {
            lemma_edge_slot_exists(edges, k);
            let prev = eval_upto(st, node, outputs, from_fan_in, conds, k);
            let slot = edge_slot(edges, edges[k].id@)->0;
            let next = eval_step(st, node, outputs, from_fan_in, conds, prev, k);
            assert(eval_upto(st, node, outputs, from_fan_in, conds, upto) == next);
            assert forall|i: int| 0 <= i < next.0.len() implies st.counts@[i] <= #[trigger] next.0[i]
                <= st.max_traversals by {
                assert(prev.0[i] >= st.counts@[i]);
            }
        }
    }
}

/// Edge traversal counts only grow and never pass the traversal limit: when
/// every count is within the limit before the edges leaving a completed
/// node are evaluated, every count is within it after, and none is smaller.
pub proof fn law_traversals_within_limit(
    st: RunState,
    node: Seq<char>,
    outputs: JsonView,
    from_fan_in: bool,
    conds: Seq<bool>,
)
    requires
        st.wf(),
        forall|i: int| 0 <= i < st.counts@.len() ==> #[trigger] st.counts@[i] <= st.max_traversals,
    ensures
        ({
            let c = eval_all(st, node, outputs, from_fan_in, conds).0;
            &&& c.len() == st.counts@.len()
            &&& forall|i: int|
                0 <= i < c.len() ==> st.counts@[i] <= #[trigger] c[i] <= st.max_traversals
        }),
{
    lemma_counts_bounded(st, node, outputs, from_fan_in, conds, st.graph.edges@.len() as int);
}

proof fn lemma_ready_props(
    st: RunState,
    node: Seq<char>,
    outputs: JsonView,
    from_fan_in: bool,
    conds: Seq<bool>,
    upto: int,
)
    requires
        st.wf(),
        0 <= upto <= st.graph.edges@.len(),
    ensures
        ({
            let acc = eval_upto(st, node, outputs, from_fan_in, conds, upto);
            let ready = acc.2;
            &&& forall|j: int| 0 <= j < ready.len() ==> acc.1.contains(#[trigger] ready[j].0)
            &&& forall|j: int|
                0 <= j < ready.len() ==> !st.running@.contains(#[trigger] ready[j].0)
                    && !fan_out_running(st, ready[j].0)
            &&& forall|i: int, j: int|
                0 <= i < j < ready.len() ==> #[trigger] ready[i].0 != #[trigger] ready[j].0
            &&& forall|j: int|
                0 <= j < ready.len() ==> (#[trigger] ready[j].2 <==> st.completed@.contains(
                    ready[j].0,
                ))
            &&& forall|j: int|
                0 <= j < ready.len() && !#[trigger] ready[j].2 ==> !st.failed@.contains(ready[j].0)
        }),
    decreases upto,
{
    if upto > 0 {
        lemma_ready_props(st, node, outputs, from_fan_in, conds, upto - 1);
        let k = upto - 1;
        let prev = eval_upto(st, node, outputs, from_fan_in, conds, k);
        let next = eval_step(st, node, outputs, from_fan_in, conds, prev, k);
        assert(eval_upto(st, node, outputs, from_fan_in, conds, upto) == next);
        if next.2.len() > prev.2.len() {
            let t = st.graph.edges@[k].to_node@;
            assert(next.2 == prev.2.push(next.2.last()));
            assert(next.2.last().0 == t);
            assert(!prev.1.contains(t));
            assert forall|i: int, j: int| 0 <= i < j < next.2.len() implies #[trigger] next.2[i].0
                != #[trigger] next.2[j].0 by {
                if j == next.2.len() - 1 {
                    assert(prev.1.contains(prev.2[i].0));
                }
            }
        }
    }
}

/// The nodes readied by evaluating the edges leaving a completed node are
/// distinct, none of them is running or in the middle of a fan-out, a node
/// is readied as a cycle re-run exactly when it had completed, and a node
/// readied for its first run has not failed.
pub proof fn law_ready_nodes_distinct_and_idle(
    st: RunState,
    node: Seq<char>,
    outputs: JsonView,
    from_fan_in: bool,
    conds: Seq<bool>,
)
    requires
        st.wf(),
    ensures
        ({
            let ready = eval_all(st, node, outputs, from_fan_in, conds).2;
            &&& forall|j: int|
                0 <= j < ready.len() ==> !st.running@.contains(#[trigger] ready[j].0)
                    && !fan_out_running(st, ready[j].0)
            &&& forall|i: int, j: int|
                0 <= i < j < ready.len() ==> #[trigger] ready[i].0 != #[trigger] ready[j].0
            &&& forall|j: int|
                0 <= j < ready.len() ==> (#[trigger] ready[j].2 <==> st.completed@.contains(
                    ready[j].0,
                ))
            &&& forall|j: int|
                0 <= j < ready.len() && !#[trigger] ready[j].2 ==> !st.failed@.contains(ready[j].0)
        }),
{
    lemma_ready_props(st, node, outputs, from_fan_in, conds, st.graph.edges@.len() as int);
}

/// The fan-out state after the reports `steps` (instance index and outcome)
/// arrive one after another, starting from `n` expected instances and none
/// reported: each report stores its instance's result at its index and
/// counts one more report.
pub open spec fn fan_after(n: u32, steps: Seq<(u32, NodeOutcome)>) -> FanSpec
    decreases steps.len(),
{
    if steps.len() == 0 {
        (n, Seq::new(n as nat, |i: int| None::<JsonView>), 0)
    } else {
        let prev = fan_after(n, steps.drop_last());
        let idx = steps.last().0;
        (
            prev.0,
            prev.1.update(idx as int, Some(fan_out_item_result(steps.last().1, idx))),
            (prev.2 + 1) as u32,
        )
    }
}

proof fn lemma_fan_after(n: u32, steps: Seq<(u32, NodeOutcome)>)
    requires
        steps.len() <= n,
        forall|i: int| 0 <= i < steps.len() ==> #[trigger] steps[i].0 < n,
        forall|i: int, j: int| 0 <= i < j < steps.len() ==> steps[i].0 != steps[j].0,
    ensures
        fan_after(n, steps).0 == n,
        fan_after(n, steps).2 == steps.len(),
        fan_after(n, steps).1.len() == n,
        forall|i: int|
            0 <= i < steps.len() ==> fan_after(n, steps).1[#[trigger] steps[i].0 as int] == Some(
                fan_out_item_result(steps[i].1, steps[i].0),
            ),
        forall|j: int|
            0 <= j < n && (forall|i: int| 0 <= i < steps.len() ==> #[trigger] steps[i].0 != j)
                ==> fan_after(n, steps).1[j] is None,
    decreases steps.len(),
{
    if steps.len() > 0 {
        let t = steps.drop_last();
        assert forall|i: int| 0 <= i < t.len() implies #[trigger] t[i].0 < n by {
            assert(t[i] == steps[i]);
        }
        assert forall|i: int, j: int| 0 <= i < j < t.len() implies t[i].0 != t[j].0 by {
            assert(t[i] == steps[i]);
            assert(t[j] == steps[j]);
        }
        lemma_fan_after(n, t);
        let last = steps.len() - 1;
        assert(steps.last() == steps[last]);
        assert forall|i: int| 0 <= i < steps.len() implies fan_after(n, steps).1[
            #[trigger] steps[i].0 as int] == Some(fan_out_item_result(steps[i].1, steps[i].0)) by {
            if i < last {
                assert(t[i] == steps[i]);
                assert(steps[i].0 != steps[last].0);
            }
        }
        assert forall|j: int|
            0 <= j < n && (forall|i: int| 0 <= i < steps.len() ==> #[trigger] steps[i].0 != j)
            implies fan_after(n, steps).1[j] is None by {
            assert forall|i: int| 0 <= i < t.len() implies #[trigger] t[i].0 != j by {
                assert(t[i] == steps[i]);
            }
            assert(steps[last].0 != j);
        }
    }
}

/// Whatever order the `n` instances of a fan-out report in, when each reports
/// exactly once: the report count reaches `n`, the expected count, at the
/// last report and at no earlier one, so the node completes then and only
/// then; and the results then hold every instance's result at its own
/// index, none missing.
pub proof fn law_fan_in_complete_in_item_order(n: u32, steps: Seq<(u32, NodeOutcome)>)
    requires
        steps.len() == n,
        forall|i: int| 0 <= i < steps.len() ==> #[trigger] steps[i].0 < n,
        forall|i: int, j: int| 0 <= i < j < steps.len() ==> steps[i].0 != steps[j].0,
    ensures
        forall|k: int|
            0 <= k < n ==> (#[trigger] fan_after(n, steps.take(k)).2 + 1 == fan_after(
                n,
                steps.take(k),
            ).0 <==> k == n - 1),
        fan_after(n, steps).2 == n,
        forall|i: int|
            0 <= i < steps.len() ==> fan_after(n, steps).1[#[trigger] steps[i].0 as int] == Some(
                fan_out_item_result(steps[i].1, steps[i].0),
            ),
        forall|j: int| 0 <= j < n ==> #[trigger] fan_after(n, steps).1[j] is Some,
{
    lemma_fan_after(n, steps);
    assert forall|k: int| 0 <= k < n implies (#[trigger] fan_after(n, steps.take(k)).2 + 1
        == fan_after(n, steps.take(k)).0 <==> k == n - 1) by {
        let t = steps.take(k);
        assert forall|i: int| 0 <= i < t.len() implies #[trigger] t[i].0 < n by {
            assert(t[i] == steps[i]);
        }
        assert forall|i: int, j: int| 0 <= i < j < t.len() implies t[i].0 != t[j].0 by {
            assert(t[i] == steps[i]);
            assert(t[j] == steps[j]);
        }
        lemma_fan_after(n, t);
    }
    let ids = steps.map_values(|s: (u32, NodeOutcome)| s.0 as int);
    assert(ids.no_duplicates()) by {
        assert forall|i: int, j: int| 0 <= i < ids.len() && 0 <= j < ids.len() && i != j implies ids[i]
            != ids[j] by {
            if i < j {
                assert(steps[i].0 != steps[j].0);
            } else {
                assert(steps[j].0 != steps[i].0);
            }
        }
    }
    ids.unique_seq_to_set();
    vstd::seq_lib::seq_to_set_is_finite(ids);
    vstd::set_lib::lemma_int_range(0, n as int);
    let range = vstd::set_lib::set_int_range(0, n as int);
    assert(ids.to_set().subset_of(range)) by {
        assert forall|x: int| ids.to_set().contains(x) implies range.contains(x) by {
            let i = choose|i: int| 0 <= i < ids.len() && ids[i] == x;
            assert(steps[i].0 < n);
        }
    }
    vstd::set_lib::lemma_subset_equality(ids.to_set(), range);
    assert forall|j: int| 0 <= j < n implies #[trigger] fan_after(n, steps).1[j] is Some by {
        assert(range.contains(j));
        assert(ids.to_set().contains(j));
        let i = choose|i: int| 0 <= i < ids.len() && ids[i] == j;
        assert(steps[i].0 as int == j);
        assert(fan_after(n, steps).1[steps[i].0 as int] == Some(
            fan_out_item_result(steps[i].1, steps[i].0),
        ));
    }
}


/// The states a run passes through while the `steps` reports of a fan-out
/// of node `node` (at `slot`) are recorded one after another.
pub open spec fn fan_in_trace(
    node: Seq<char>,
    slot: int,
    n: u32,
    steps: Seq<(u32, NodeOutcome)>,
    states: Seq<RunState>,
    rs: Seq<Option<Completion>>,
) -> bool {
    &&& steps.len() == n
    &&& states.len() == n + 1
    &&& rs.len() == n
    &&& forall|k: int| 0 <= k <= n ==> #[trigger] states[k].wf()
    &&& node_slot(states[0].graph.nodes@, node) == Some(slot)
    &&& fans(states[0].fan_out@)[slot] == Some((n, Seq::new(n as nat, |i: int| None::<JsonView>), 0u32))
    &&& forall|k: int|
        0 <= k < n ==> #[trigger] fan_out_recorded(states[k], states[k + 1], node, steps[k].0, steps[k].1, rs[k])
}

proof fn lemma_fan_after_prefix(n: u32, steps: Seq<(u32, NodeOutcome)>, k: int)
    requires
        steps.len() == n,
        forall|i: int| 0 <= i < steps.len() ==> #[trigger] steps[i].0 < n,
        forall|i: int, j: int| 0 <= i < j < steps.len() ==> steps[i].0 != steps[j].0,
        0 <= k <= n,
    ensures
        fan_after(n, steps.take(k)).0 == n,
        fan_after(n, steps.take(k)).2 == k,
        fan_after(n, steps.take(k)).1.len() == n,
{
    let t = steps.take(k);
    assert forall|i: int| 0 <= i < t.len() implies #[trigger] t[i].0 < n by {
        assert(t[i] == steps[i]);
    }
    assert forall|i: int, j: int| 0 <= i < j < t.len() implies t[i].0 != t[j].0 by {
        assert(t[i] == steps[i]);
        assert(t[j] == steps[j]);
    }
    lemma_fan_after(n, t);
}

proof fn lemma_fan_in_trace(
    node: Seq<char>,
    slot: int,
    n: u32,
    steps: Seq<(u32, NodeOutcome)>,
    states: Seq<RunState>,
    rs: Seq<Option<Completion>>,
    k: int,
)
    requires
        fan_in_trace(node, slot, n, steps, states, rs),
        forall|i: int| 0 <= i < steps.len() ==> #[trigger] steps[i].0 < n,
        forall|i: int, j: int| 0 <= i < j < steps.len() ==> steps[i].0 != steps[j].0,
        0 <= k < n,
    ensures
        node_slot(states[k].graph.nodes@, node) == Some(slot),
        fans(states[k].fan_out@)[slot] == Some(fan_after(n, steps.take(k))),
        forall|j: int| 0 <= j < k ==> #[trigger] rs[j] is None,
    decreases k,
{
    assert(states[k].wf());
    if k == 0 {
        assert(steps.take(0) =~= Seq::<(u32, NodeOutcome)>::empty());
    } else {
        lemma_fan_in_trace(node, slot, n, steps, states, rs, k - 1);
        assert(states[k - 1].wf());
        lemma_fan_after_prefix(n, steps, k - 1);
        let t = steps.take(k - 1);
        assert(fan_after(n, t).2 + 1 != fan_after(n, t).0);
        assert(fan_out_recorded(states[k - 1], states[k], node, steps[k - 1].0, steps[k - 1].1, rs[k - 1]));
        assert(steps.take(k).drop_last() =~= t);
        assert(steps.take(k).last() == steps[k - 1]);
        assert(fan_after(n, steps.take(k)) == (
            fan_after(n, t).0,
            fan_after(n, t).1.update(steps[k - 1].0 as int, Some(fan_out_item_result(steps[k - 1].1, steps[k - 1].0))),
            (fan_after(n, t).2 + 1) as u32,
        ));
        assert forall|j: int| 0 <= j < k implies #[trigger] rs[j] is None by {
            if j < k - 1 {
                assert(rs[j] is None);
            }
        }
    }
}

/// Recording the `n` reports of a fan-out of `n` instances on a run state,
/// in any order, each instance once: no report but the last completes the
/// node; the last one does, with the results merged in instance order, each
/// instance's result (its output, or its error record) at its own index;
/// afterwards the node counts as completed with that merged output, and its
/// fan-out state is gone.
pub proof fn law_fan_in_on_run_state(
    node: Seq<char>,
    slot: int,
    n: u32,
    steps: Seq<(u32, NodeOutcome)>,
    states: Seq<RunState>,
    rs: Seq<Option<Completion>>,
)
    requires
        n > 0,
        fan_in_trace(node, slot, n, steps, states, rs),
        forall|i: int| 0 <= i < steps.len() ==> #[trigger] steps[i].0 < n,
        forall|i: int, j: int| 0 <= i < j < steps.len() ==> steps[i].0 != steps[j].0,
    ensures
        forall|k: int| 0 <= k < n - 1 ==> #[trigger] rs[k] is None,
        rs[n - 1] matches Some(c) && c.node_id@ == node && c.from_fan_in && c.outputs@ == merged_view(
            fan_after(n, steps).1,
        ),
        fan_after(n, steps).1.len() == n,
        forall|i: int|
            0 <= i < steps.len() ==> fan_after(n, steps).1[#[trigger] steps[i].0 as int] == Some(
                fan_out_item_result(steps[i].1, steps[i].0),
            ),
        forall|j: int| 0 <= j < n ==> #[trigger] fan_after(n, steps).1[j] is Some,
        states[n as int].completed@.contains(node),
        fans(states[n as int].fan_out@)[slot] is None,
        results_outputs(states[n as int].outputs@)[slot] == Some(merged_view(fan_after(n, steps).1)),
{
    let last = n - 1;
    lemma_fan_in_trace(node, slot, n, steps, states, rs, last as int);
    law_fan_in_complete_in_item_order(n, steps);
    lemma_fan_after(n, steps);
    lemma_fan_after_prefix(n, steps, last as int);
    assert(states[last as int].wf());
    assert(states[n as int].wf());
    let t = steps.take(last as int);
    assert(fan_after(n, t).2 + 1 == fan_after(n, t).0);
    assert(fan_out_recorded(states[last as int], states[n as int], node, steps[last as int].0, steps[last as int].1, rs[last as int]));
    assert(steps.drop_last() =~= t);
    assert(steps.last() == steps[last as int]);
    assert(fan_after(n, steps) == (
        fan_after(n, t).0,
        fan_after(n, t).1.update(steps[last as int].0 as int, Some(fan_out_item_result(steps[last as int].1, steps[last as int].0))),
        (fan_after(n, t).2 + 1) as u32,
    ));
    assert forall|k: int| 0 <= k < n - 1 implies #[trigger] rs[k] is None by {
        assert(rs[k] is None);
    }
}

/// Whether edge `e` leaves `node` and passes on the traversal counts `c0`:
/// its condition holds and its count is below the limit.
pub open spec fn passes_on_entry(st: RunState, node: Seq<char>, conds: Seq<bool>, e: int) -> bool {
    st.graph.edges@[e].from_node@ == node && cond_passes(st.graph.edges@, conds, e)
        && st.counts@[e] < st.max_traversals
}

/// The edge evaluations of the first `k` edges, when edge ids are
/// distinct: one per edge leaving `node`, in edge order, passing exactly
/// when the edge passes on the counts at entry.
pub open spec fn evals_on_entry(st: RunState, node: Seq<char>, outputs: JsonView, conds: Seq<bool>, k: int) -> Seq<
    EvalSpec,
>
    decreases k,
{
    if k <= 0 {
        Seq::empty()
    } else {
        let prev = evals_on_entry(st, node, outputs, conds, k - 1);
        let edge = st.graph.edges@[k - 1];
        if edge.from_node@ == node {
            prev.push((edge.id@, opt_text_view(edge.condition), passes_on_entry(st, node, conds, k - 1), outputs))
        } else {
            prev
        }
    }
}

/// The traversal counts after the first `k` edges: one more for each of
/// them that passes on the counts at entry.
pub open spec fn counts_on_entry(st: RunState, node: Seq<char>, conds: Seq<bool>, k: int) -> Seq<u32> {
    Seq::new(
        st.counts@.len(),
        |m: int|
            if m < k && passes_on_entry(st, node, conds, m) {
                (st.counts@[m] + 1) as u32
            } else {
                st.counts@[m]
            },
    )
}

proof fn lemma_eval_distinct(
    st: RunState,
    node: Seq<char>,
    outputs: JsonView,
    from_fan_in: bool,
    conds: Seq<bool>,
    k: int,
)
    requires
        st.wf(),
        conds.len() == st.graph.edges@.len(),
        forall|i: int, j: int|
            0 <= i < st.graph.edges@.len() && 0 <= j < st.graph.edges@.len() && i != j
                ==> #[trigger] st.graph.edges@[i].id@ != #[trigger] st.graph.edges@[j].id@,
        0 <= k <= st.graph.edges@.len(),
    ensures
        eval_upto(st, node, outputs, from_fan_in, conds, k).0 == counts_on_entry(st, node, conds, k),
        eval_upto(st, node, outputs, from_fan_in, conds, k).3 == evals_on_entry(st, node, outputs, conds, k),
    decreases k,
{
    if k == 0 {
        assert(counts_on_entry(st, node, conds, 0) =~= st.counts@);
    } else {
        lemma_eval_distinct(st, node, outputs, from_fan_in, conds, k - 1);
        let edges = st.graph.edges@;
        let e = k - 1;
        lemma_edge_slot_exists(edges, e);
        let slot = edge_slot(edges, edges[e].id@)->0;
        if slot != e {
            assert(edges[slot].id@ == edges[e].id@);
        }
        let prev = eval_upto(st, node, outputs, from_fan_in, conds, e);
        assert(eval_upto(st, node, outputs, from_fan_in, conds, k) == eval_step(
            st,
            node,
            outputs,
            from_fan_in,
            conds,
            prev,
            e,
        ));
        if edges[e].from_node@ == node {
            assert(prev.0[e] == st.counts@[e]);
            let passed = cond_passes(edges, conds, e) && st.counts@[e] < st.max_traversals;
            assert(passed == passes_on_entry(st, node, conds, e));
            let c2 = if passed {
                prev.0.update(e, (st.counts@[e] + 1) as u32)
            } else {
                prev.0
            };
            assert(c2 =~= counts_on_entry(st, node, conds, k));
        } else {
            assert(prev.0 =~= counts_on_entry(st, node, conds, k));
        }
    }
}

/// When edge ids are distinct, evaluating the edges of a completed node
/// records one evaluation per outgoing edge, in edge order, with its id,
/// its condition, whether it passed (its condition holds and its count on
/// entry is below the limit) and the node's outputs; and each passing edge
/// counts one more traversal, no other count changing.
pub proof fn law_edge_evaluations(
    st: RunState,
    node: Seq<char>,
    outputs: JsonView,
    from_fan_in: bool,
    conds: Seq<bool>,
)
    requires
        st.wf(),
        conds.len() == st.graph.edges@.len(),
        forall|i: int, j: int|
            0 <= i < st.graph.edges@.len() && 0 <= j < st.graph.edges@.len() && i != j
                ==> #[trigger] st.graph.edges@[i].id@ != #[trigger] st.graph.edges@[j].id@,
    ensures
        eval_all(st, node, outputs, from_fan_in, conds).3 == evals_on_entry(
            st,
            node,
            outputs,
            conds,
            st.graph.edges@.len() as int,
        ),
        eval_all(st, node, outputs, from_fan_in, conds).0 == counts_on_entry(
            st,
            node,
            conds,
            st.graph.edges@.len() as int,
        ),
{
    lemma_eval_distinct(st, node, outputs, from_fan_in, conds, st.graph.edges@.len() as int);
}

} // verus!
