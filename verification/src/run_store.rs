//! The in-memory run store: every run's events kept in sequence order, each
//! sequence number written once, and the queries a run store answers.
use vstd::prelude::*;
use crate::events::{WriteEvent, EventView, view_seq, view_run, events_view};
use crate::errors::RunStoreError;
use crate::executor::RunStatus;
use crate::reconstruct::{RunRecord, RunModel, run_model, run_upto, reconstruct_run, NodeRunResult,
    node_results_model, results_upto, extract_node_results, EdgeRunResult, edge_result_view,
    edges_upto, extract_edge_results, CustomEventRecord, custom_view, customs_upto,
    extract_custom_events, LlmInvocationRecord, invocation_view, invocations_upto,
    extract_llm_invocations, opt_text, opt_json, NodeAttemptDetail, NodeRunDetail, AttemptModel,
    attempt_model, attempts_model};
use crate::json::JsonValue;
use crate::sorted::{text_lt, text_less, lemma_text_lt_irreflexive, lemma_text_lt_transitive,
    lemma_text_lt_total};
use crate::text::str_eq;

verus! {

// ---------------------------------------------------------------------------
// The model of a write
// ---------------------------------------------------------------------------

/// Whether some event of `s` carries sequence number `k`.
pub open spec fn has_seq(s: Seq<EventView>, k: u64) -> bool {
    exists|i: int| 0 <= i < s.len() && view_seq(s[i]) == k
}

/// Whether some event of `batch` belongs to run `r`.
pub open spec fn mentions_run(batch: Seq<EventView>, r: Seq<char>) -> bool {
    exists|i: int| 0 <= i < batch.len() && view_run(batch[i]) == r
}

/// The events of `batch` that belong to run `r`, in batch order.
pub open spec fn events_for(batch: Seq<EventView>, r: Seq<char>) -> Seq<EventView>
    decreases batch.len(),
{
    if batch.len() == 0 {
        Seq::empty()
    } else {
        let prev = events_for(batch.drop_last(), r);
        if view_run(batch.last()) == r {
            prev.push(batch.last())
        } else {
            prev
        }
    }
}

/// The events of `batch` whose sequence number `stored` does not carry yet,
/// in batch order.
pub open spec fn fresh_events(batch: Seq<EventView>, stored: Seq<EventView>) -> Seq<EventView>
    decreases batch.len(),
{
    if batch.len() == 0 {
        Seq::empty()
    } else {
        let prev = fresh_events(batch.drop_last(), stored);
        if has_seq(stored, view_seq(batch.last())) {
            prev
        } else {
            prev.push(batch.last())
        }
    }
}

/// `s` with `e` placed after every event whose sequence number is not
/// greater than its own.
pub open spec fn insert_by_seq(s: Seq<EventView>, e: EventView) -> Seq<EventView>
    decreases s.len(),
{
    if s.len() == 0 || view_seq(s.last()) <= view_seq(e) {
        s.push(e)
    } else {
        insert_by_seq(s.drop_last(), e).push(s.last())
    }
}

/// `s` with the events of `f` placed one after another by `insert_by_seq`.
pub open spec fn insert_all(s: Seq<EventView>, f: Seq<EventView>) -> Seq<EventView>
    decreases f.len(),
{
    if f.len() == 0 {
        s
    } else {
        insert_by_seq(insert_all(s, f.drop_last()), f.last())
    }
}

/// A run's events after `batch` (the batch's events of that run) is written
/// onto the `stored` ones: the events whose sequence number is new join in
/// sequence order, an event after the stored ones of equal number.
pub open spec fn merged(stored: Seq<EventView>, batch: Seq<EventView>) -> Seq<EventView> {
    insert_all(stored, fresh_events(batch, stored))
}

/// Whether the sequence numbers of `s` never decrease.
pub open spec fn sorted_by_seq(s: Seq<EventView>) -> bool {
    forall|i: int, j: int| 0 <= i <= j < s.len() ==> view_seq(s[i]) <= view_seq(s[j])
}

/// The stored events of every run after `batch` is written onto `log`.
pub open spec fn written(log: Map<Seq<char>, Seq<EventView>>, batch: Seq<EventView>) -> Map<
    Seq<char>,
    Seq<EventView>,
> {
    Map::new(
        |r: Seq<char>| log.contains_key(r) || mentions_run(batch, r),
        |r: Seq<char>|
            if mentions_run(batch, r) {
                merged(
                    if log.contains_key(r) {
                        log[r]
                    } else {
                        Seq::empty()
                    },
                    events_for(batch, r),
                )
            } else {
                log[r]
            },
    )
}

// ---------------------------------------------------------------------------
// Lemmas on the model
// ---------------------------------------------------------------------------

proof fn lemma_insert_at(s: Seq<EventView>, e: EventView, p: int)
    requires
        0 <= p <= s.len(),
        forall|i: int| p <= i < s.len() ==> view_seq(#[trigger] s[i]) > view_seq(e),
        p == 0 || view_seq(s[p - 1]) <= view_seq(e),
    ensures
        insert_by_seq(s, e) == s.insert(p, e),
    decreases s.len(),
{
    if p == s.len() {
        assert(s.insert(p, e) =~= s.push(e));
    } else {
        let t = s.drop_last();
        lemma_insert_at(t, e, p);
        assert(s.insert(p, e) =~= t.insert(p, e).push(s.last()));
    }
}

proof fn lemma_insert_by_seq(s: Seq<EventView>, e: EventView)
    ensures
        insert_by_seq(s, e).len() == s.len() + 1,
        forall|x: EventView| #[trigger]
            insert_by_seq(s, e).contains(x) <==> (s.contains(x) || x == e),
        sorted_by_seq(s) ==> sorted_by_seq(insert_by_seq(s, e)),
    decreases s.len(),
{
    let r = insert_by_seq(s, e);
    if s.len() == 0 || view_seq(s.last()) <= view_seq(e) {
        assert forall|x: EventView| r.contains(x) <==> (s.contains(x) || x == e) by {
            if r.contains(x) {
                let i = choose|i: int| 0 <= i < r.len() && r[i] == x;
                if i < s.len() {
                    assert(s.contains(x));
                }
            }
            if s.contains(x) {
                let i = choose|i: int| 0 <= i < s.len() && s[i] == x;
                assert(r[i] == x);
            }
            if x == e {
                assert(r[s.len() as int] == x);
            }
        }
    } else {
        let t = s.drop_last();
        lemma_insert_by_seq(t, e);
        let q = insert_by_seq(t, e);
        assert(r == q.push(s.last()));
        assert forall|x: EventView| r.contains(x) <==> (s.contains(x) || x == e) by {
            if r.contains(x) {
                let i = choose|i: int| 0 <= i < r.len() && r[i] == x;
                if i < q.len() {
                    assert(q.contains(x));
                    if t.contains(x) {
                        let j = choose|j: int| 0 <= j < t.len() && t[j] == x;
                        assert(s[j] == x);
                    }
                } else {
                    assert(s[s.len() - 1] == x);
                }
            }
            if s.contains(x) {
                let i = choose|i: int| 0 <= i < s.len() && s[i] == x;
                if i < t.len() {
                    assert(t[i] == x);
                    assert(t.contains(x));
                    assert(q.contains(x));
                    let j = choose|j: int| 0 <= j < q.len() && q[j] == x;
                    assert(r[j] == x);
                } else {
                    assert(r[q.len() as int] == x);
                }
            }
            if x == e {
                assert(q.contains(e));
                let j = choose|j: int| 0 <= j < q.len() && q[j] == e;
                assert(r[j] == x);
            }
        }
        if sorted_by_seq(s) {
            assert(sorted_by_seq(t));
            assert forall|i: int, j: int| 0 <= i <= j < r.len() implies view_seq(r[i]) <= view_seq(
                r[j],
            ) by {
                if j == r.len() - 1 && i < j {
                    assert(q.contains(q[i]));
                    if q[i] == e {
                    } else {
                        assert(t.contains(q[i]));
                        let k = choose|k: int| 0 <= k < t.len() && t[k] == q[i];
                        assert(s[k] == q[i]);
                    }
                }
            }
        }
    }
}

proof fn lemma_insert_all(s: Seq<EventView>, f: Seq<EventView>)
    ensures
        insert_all(s, f).len() == s.len() + f.len(),
        forall|x: EventView| #[trigger]
            insert_all(s, f).contains(x) <==> (s.contains(x) || f.contains(x)),
        sorted_by_seq(s) ==> sorted_by_seq(insert_all(s, f)),
    decreases f.len(),
{
    if f.len() > 0 {
        let g = f.drop_last();
        lemma_insert_all(s, g);
        lemma_insert_by_seq(insert_all(s, g), f.last());
        assert forall|x: EventView| insert_all(s, f).contains(x) <==> (s.contains(x) || f.contains(
            x,
        )) by {
            if g.contains(x) {
                let i = choose|i: int| 0 <= i < g.len() && g[i] == x;
                assert(f[i] == x);
            }
            if f.contains(x) {
                let i = choose|i: int| 0 <= i < f.len() && f[i] == x;
                if i < g.len() {
                    assert(g[i] == x);
                }
            }
        }
    } else {
        assert forall|x: EventView| insert_all(s, f).contains(x) <==> (s.contains(x) || f.contains(
            x,
        )) by {}
    }
}

/// Placing the events of a sorted sequence one by one onto nothing gives
/// them back as they were.
proof fn lemma_insert_all_sorted(f: Seq<EventView>)
    requires
        sorted_by_seq(f),
    ensures
        insert_all(Seq::empty(), f) == f,
    decreases f.len(),
{
    if f.len() > 0 {
        let g = f.drop_last();
        assert(sorted_by_seq(g));
        lemma_insert_all_sorted(g);
        assert(g.push(f.last()) =~= f);
    }
}

proof fn lemma_push_contains(s: Seq<EventView>, x: EventView)
    requires
        s.len() > 0,
    ensures
        s.contains(x) <==> (s.drop_last().contains(x) || x == s.last()),
{
    let b = s.drop_last();
    if s.contains(x) {
        let i = choose|i: int| 0 <= i < s.len() && s[i] == x;
        if i < b.len() {
            assert(b[i] == x);
        }
    }
    if b.contains(x) {
        let i = choose|i: int| 0 <= i < b.len() && b[i] == x;
        assert(s[i] == x);
    }
    if x == s.last() {
        assert(s[s.len() - 1] == x);
    }
}

proof fn lemma_fresh_events(batch: Seq<EventView>, stored: Seq<EventView>)
    ensures
        forall|x: EventView| #[trigger]
            fresh_events(batch, stored).contains(x) <==> (batch.contains(x) && !has_seq(
                stored,
                view_seq(x),
            )),
    decreases batch.len(),
{
    if batch.len() > 0 {
        let b = batch.drop_last();
        lemma_fresh_events(b, stored);
        let p = fresh_events(b, stored);
        assert forall|x: EventView| fresh_events(batch, stored).contains(x) <==> (batch.contains(x)
            && !has_seq(stored, view_seq(x))) by {
            lemma_push_contains(batch, x);
            assert(p.contains(x) <==> (b.contains(x) && !has_seq(stored, view_seq(x))));
            if !has_seq(stored, view_seq(batch.last())) {
                let q = p.push(batch.last());
                lemma_push_contains(q, x);
                assert(q.drop_last() =~= p);
            }
        }
    } else {
        assert forall|x: EventView| fresh_events(batch, stored).contains(x) <==> (batch.contains(x)
            && !has_seq(stored, view_seq(x))) by {}
    }
}

proof fn lemma_events_for_contains(batch: Seq<EventView>, r: Seq<char>, x: EventView)
    ensures
        events_for(batch, r).contains(x) <==> (batch.contains(x) && view_run(x) == r),
    decreases batch.len(),
{
    if batch.len() > 0 {
        let b = batch.drop_last();
        lemma_events_for_contains(b, r, x);
        lemma_push_contains(batch, x);
        let p = events_for(b, r);
        if view_run(batch.last()) == r {
            let q = p.push(batch.last());
            assert(events_for(batch, r) == q);
            lemma_push_contains(q, x);
            assert(q.drop_last() =~= p);
        } else {
            assert(events_for(batch, r) == p);
        }
    }
}

proof fn lemma_events_for(batch: Seq<EventView>, r: Seq<char>)
    ensures
        forall|x: EventView| #[trigger]
            events_for(batch, r).contains(x) <==> (batch.contains(x) && view_run(x) == r),
        events_for(batch, r).len() > 0 <==> mentions_run(batch, r),
{
    assert forall|x: EventView| #[trigger]
        events_for(batch, r).contains(x) <==> (batch.contains(x) && view_run(x) == r) by {
        lemma_events_for_contains(batch, r, x);
    }
    let f = events_for(batch, r);
    if mentions_run(batch, r) {
        let i = choose|i: int| 0 <= i < batch.len() && view_run(batch[i]) == r;
        let x = batch[i];
        assert(batch.contains(x));
        assert(f.contains(x));
    }
    if f.len() > 0 {
        let x = f[0];
        assert(f.contains(x));
        assert(batch.contains(x));
        let i = choose|i: int| 0 <= i < batch.len() && batch[i] == x;
        assert(view_run(batch[i]) == r);
    }
}

// ---------------------------------------------------------------------------
// Executable pieces of a write
// ---------------------------------------------------------------------------

/// Places `e` into `v` after every event whose sequence number is not
/// greater than its own.
fn insert_sorted(v: &mut Vec<WriteEvent>, e: WriteEvent)
    ensures
        events_view(final(v)@) == insert_by_seq(events_view(old(v)@), e@),
{
    let ghost s = events_view(v@);
    let k = e.seq();
    let mut p: usize = v.len();
    while p > 0 && v[p - 1].seq() > k
        invariant
            p <= v@.len(),
            v@ == old(v)@,
            s == events_view(v@),
            k == view_seq(e@),
            forall|i: int| p <= i < s.len() ==> view_seq(#[trigger] s[i]) > k,
        decreases p,
    {
        p -= 1;
    }
    proof {
        lemma_insert_at(s, e@, p as int);
    }
    let ghost ev = e@;
    v.insert(p, e);
    assert(events_view(v@) =~= s.insert(p as int, ev));
}

/// The sequence numbers of `events`, in order.
fn seqs_of(events: &Vec<WriteEvent>) -> (r: Vec<u64>)
    ensures
        r@.len() == events@.len(),
        forall|i: int| 0 <= i < r@.len() ==> r@[i] == view_seq(#[trigger] events@[i]@),
{
    let mut r: Vec<u64> = Vec::new();
    let mut i: usize = 0;
    while i < events.len()
        invariant
            i <= events@.len(),
            r@.len() == i,
            forall|j: int| 0 <= j < i ==> r@[j] == view_seq(#[trigger] events@[j]@),
        decreases events.len() - i,
    {
        r.push(events[i].seq());
        i += 1;
    }
    r
}

fn contains_u64(v: &Vec<u64>, k: u64) -> (r: bool)
    ensures
        r <==> v@.contains(k),
{
    let mut i: usize = 0;
    while i < v.len()
        invariant
            i <= v@.len(),
            forall|j: int| 0 <= j < i ==> v@[j] != k,
        decreases v.len() - i,
    {
        if v[i] == k {
            return true;
        }
        i += 1;
    }
    false
}

/// Run `run_id`'s events after `batch` is written onto its `stored` ones
/// (see `merged`).
pub fn merge_run(stored: Vec<WriteEvent>, batch: &Vec<WriteEvent>, run_id: &str) -> (r: Vec<
    WriteEvent,
>)
    ensures
        events_view(r@) == merged(events_view(stored@), events_for(events_view(batch@), run_id@)),
{
    let ghost base = events_view(stored@);
    let ghost bv = events_view(batch@);
    let known = seqs_of(&stored);
    let mut out = stored;
    let mut i: usize = 0;
    while i < batch.len()
        invariant
            i <= batch@.len(),
            bv == events_view(batch@),
            known@.len() == base.len(),
            forall|j: int| 0 <= j < known@.len() ==> known@[j] == view_seq(#[trigger] base[j]),
            events_view(out@) == insert_all(
                base,
                fresh_events(events_for(bv.take(i as int), run_id@), base),
            ),
        decreases batch.len() - i,
    {
        let ghost f = events_for(bv.take(i as int), run_id@);
        assert(bv.take(i + 1).drop_last() =~= bv.take(i as int));
        assert(bv.take(i + 1).last() == bv[i as int]);
        let e = &batch[i];
        if str_eq(e.run_id(), run_id) {
            let k = e.seq();
            assert(events_for(bv.take(i + 1), run_id@) == f.push(bv[i as int]));
            assert(f.push(bv[i as int]).drop_last() =~= f);
            let seen = contains_u64(&known, k);
            if seen {
                assert(has_seq(base, k)) by {
                    let j = choose|j: int| 0 <= j < known@.len() && known@[j] == k;
                    assert(view_seq(base[j]) == k);
                }
            } else {
                assert(!has_seq(base, k)) by {
                    if has_seq(base, k) {
                        let j = choose|j: int| 0 <= j < base.len() && view_seq(base[j]) == k;
                        assert(known@[j] == k);
                    }
                }
                let ghost g = fresh_events(f, base);
                assert(fresh_events(f.push(bv[i as int]), base) == g.push(bv[i as int]));
                assert(g.push(bv[i as int]).drop_last() =~= g);
                insert_sorted(&mut out, e.duplicate());
            }
        } else {
            assert(events_for(bv.take(i + 1), run_id@) == f);
        }
        i += 1;
    }
    assert(bv.take(batch@.len() as int) =~= bv);
    out
}

/// The ids of the runs `batch` writes to, each once, in the order of their
/// first event.
pub fn batch_run_ids(batch: &Vec<WriteEvent>) -> (r: Vec<String>)
    ensures
        forall|i: int, j: int| 0 <= i < j < r@.len() ==> r@[i]@ != r@[j]@,
        forall|k: Seq<char>|
            mentions_run(events_view(batch@), k) <==> exists|i: int|
                0 <= i < r@.len() && #[trigger] r@[i]@ == k,
{
    let ghost bv = events_view(batch@);
    let mut r: Vec<String> = Vec::new();
    let mut i: usize = 0;
    while i < batch.len()
        invariant
            i <= batch@.len(),
            bv == events_view(batch@),
            forall|a: int, b: int| 0 <= a < b < r@.len() ==> r@[a]@ != r@[b]@,
            forall|k: Seq<char>|
                mentions_run(bv.take(i as int), k) <==> exists|a: int|
                    0 <= a < r@.len() && #[trigger] r@[a]@ == k,
        decreases batch.len() - i,
    {
        let id = batch[i].run_id();
        let mut found = false;
        let mut j: usize = 0;
        while j < r.len()
            invariant
                j <= r@.len(),
                !found ==> forall|a: int| 0 <= a < j ==> r@[a]@ != id@,
                found ==> exists|a: int| 0 <= a < r@.len() && r@[a]@ == id@,
            decreases r.len() - j,
        {
            if str_eq(r[j].as_str(), id) {
                found = true;
            }
            j += 1;
        }
        let ghost before = r@;
        if !found {
            r.push(id.to_string());
        }
        let ghost t1 = bv.take(i + 1);
        let ghost t0 = bv.take(i as int);
        assert forall|k: Seq<char>| mentions_run(t1, k) <==> exists|a: int|
            0 <= a < r@.len() && #[trigger] r@[a]@ == k by {
            if mentions_run(t1, k) {
                let a = choose|a: int| 0 <= a < t1.len() && view_run(#[trigger] t1[a]) == k;
                if a < i {
                    assert(t0[a] == t1[a]);
                    assert(mentions_run(t0, k));
                    let c = choose|c: int| 0 <= c < before.len() && #[trigger] before[c]@ == k;
                    assert(r@[c] == before[c]);
                } else if !found {
                    assert(r@[before.len() as int]@ == k);
                }
            }
            if exists|a: int| 0 <= a < r@.len() && #[trigger] r@[a]@ == k {
                let a = choose|a: int| 0 <= a < r@.len() && #[trigger] r@[a]@ == k;
                if a < before.len() {
                    assert(before[a]@ == k);
                    assert(mentions_run(t0, k));
                    let c = choose|c: int| 0 <= c < t0.len() && view_run(#[trigger] t0[c]) == k;
                    assert(t1[c] == t0[c]);
                } else {
                    assert(t1[i as int] == bv[i as int]);
                }
            }
        }
        i += 1;
    }
    assert(bv.take(batch@.len() as int) =~= bv);
    r
}

/// The events of `batch` for run `run_id` whose sequence number `existing`
/// does not carry yet, in batch order: what a write appends to that run.
pub fn events_to_append(existing: &Vec<WriteEvent>, batch: &Vec<WriteEvent>, run_id: &str) -> (r:
    Vec<WriteEvent>)
    ensures
        events_view(r@) == fresh_events(
            events_for(events_view(batch@), run_id@),
            events_view(existing@),
        ),
{
    let ghost base = events_view(existing@);
    let ghost bv = events_view(batch@);
    let known = seqs_of(existing);
    let mut out: Vec<WriteEvent> = Vec::new();
    let mut i: usize = 0;
    while i < batch.len()
        invariant
            i <= batch@.len(),
            bv == events_view(batch@),
            base == events_view(existing@),
            known@.len() == base.len(),
            forall|j: int| 0 <= j < known@.len() ==> known@[j] == view_seq(#[trigger] base[j]),
            events_view(out@) == fresh_events(events_for(bv.take(i as int), run_id@), base),
        decreases batch.len() - i,
    {
        let ghost f = events_for(bv.take(i as int), run_id@);
        assert(bv.take(i + 1).drop_last() =~= bv.take(i as int));
        assert(bv.take(i + 1).last() == bv[i as int]);
        let e = &batch[i];
        if str_eq(e.run_id(), run_id) {
            let k = e.seq();
            assert(events_for(bv.take(i + 1), run_id@) == f.push(bv[i as int]));
            assert(f.push(bv[i as int]).drop_last() =~= f);
            let seen = contains_u64(&known, k);
            if seen {
                assert(has_seq(base, k)) by {
                    let j = choose|j: int| 0 <= j < known@.len() && known@[j] == k;
                    assert(view_seq(base[j]) == k);
                }
            } else {
                assert(!has_seq(base, k)) by {
                    if has_seq(base, k) {
                        let j = choose|j: int| 0 <= j < base.len() && view_seq(base[j]) == k;
                        assert(known@[j] == k);
                    }
                }
                let ghost g = fresh_events(f, base);
                assert(fresh_events(f.push(bv[i as int]), base) == g.push(bv[i as int]));
                let ghost before = out@;
                out.push(e.duplicate());
                assert(events_view(out@) =~= events_view(before).push(bv[i as int]));
            }
        } else {
            assert(events_for(bv.take(i + 1), run_id@) == f);
        }
        i += 1;
    }
    assert(bv.take(batch@.len() as int) =~= bv);
    out
}

// ---------------------------------------------------------------------------
// The store
// ---------------------------------------------------------------------------

/// A run's id and its stored events.
pub struct StoredRun {
    pub run_id: String,
    pub events: Vec<WriteEvent>,
}

/// Whether one of the first `k` ids of `ids` is `q`.
pub open spec fn among(ids: Seq<String>, k: int, q: Seq<char>) -> bool {
    exists|i: int| 0 <= i < k && #[trigger] ids[i]@ == q
}

/// Whether no two runs of `runs` share an id.
pub open spec fn ids_unique(runs: Seq<StoredRun>) -> bool {
    forall|i: int, j: int| 0 <= i < j < runs.len() ==> runs[i].run_id@ != runs[j].run_id@
}

/// Whether the run ids of `runs` increase in text order.
pub open spec fn ids_sorted(runs: Seq<StoredRun>) -> bool {
    forall|i: int, j: int|
        0 <= i < j < runs.len() ==> text_lt(#[trigger] runs[i].run_id@, #[trigger] runs[j].run_id@)
}

/// Whether a run's events are a non-empty, sequence-ordered list of events
/// of that very run.
pub open spec fn run_events_ok(id: Seq<char>, ev: Seq<EventView>) -> bool {
    &&& ev.len() > 0
    &&& sorted_by_seq(ev)
    &&& forall|j: int| 0 <= j < ev.len() ==> view_run(#[trigger] ev[j]) == id
}

/// Whether every run of `log` holds a non-empty, sequence-ordered list of
/// its own events.
pub open spec fn log_wf(log: Map<Seq<char>, Seq<EventView>>) -> bool {
    forall|r: Seq<char>| log.contains_key(r) ==> run_events_ok(r, #[trigger] log[r])
}

/// The events of every run of `runs`, by run id.
pub open spec fn runs_log(runs: Seq<StoredRun>) -> Map<Seq<char>, Seq<EventView>>
    decreases runs.len(),
{
    if runs.len() == 0 {
        Map::empty()
    } else {
        runs_log(runs.drop_last()).insert(runs.last().run_id@, events_view(runs.last().events@))
    }
}

proof fn lemma_runs_log(runs: Seq<StoredRun>)
    requires
        ids_unique(runs),
    ensures
        forall|k: Seq<char>| #[trigger]
            runs_log(runs).contains_key(k) <==> exists|i: int|
                0 <= i < runs.len() && runs[i].run_id@ == k,
        forall|i: int|
            0 <= i < runs.len() ==> runs_log(runs)[#[trigger] runs[i].run_id@] == events_view(
                runs[i].events@,
            ),
    decreases runs.len(),
{
    if runs.len() > 0 {
        let t = runs.drop_last();
        assert(ids_unique(t));
        lemma_runs_log(t);
        assert forall|k: Seq<char>| #[trigger]
            runs_log(runs).contains_key(k) <==> exists|i: int|
                0 <= i < runs.len() && runs[i].run_id@ == k by {
            if runs_log(t).contains_key(k) {
                let i = choose|i: int| 0 <= i < t.len() && t[i].run_id@ == k;
                assert(runs[i] == t[i]);
            }
            if exists|i: int| 0 <= i < runs.len() && runs[i].run_id@ == k {
                let i = choose|i: int| 0 <= i < runs.len() && runs[i].run_id@ == k;
                if i < t.len() {
                    assert(t[i] == runs[i]);
                }
            }
        }
        assert forall|i: int| 0 <= i < runs.len() implies runs_log(runs)[#[trigger] runs[i].run_id@]
            == events_view(runs[i].events@) by {
            if i < t.len() {
                assert(t[i] == runs[i]);
                assert(runs[i].run_id@ != runs.last().run_id@);
            }
        }
    }
}

/// The stored events of run `r` among `runs`; none when it is not there.
pub open spec fn runs_raw(runs: Seq<StoredRun>, r: Seq<char>) -> Seq<WriteEvent>
    decreases runs.len(),
{
    if runs.len() == 0 {
        Seq::empty()
    } else if runs.last().run_id@ == r {
        runs.last().events@
    } else {
        runs_raw(runs.drop_last(), r)
    }
}

proof fn lemma_runs_raw(runs: Seq<StoredRun>, r: Seq<char>)
    requires
        ids_unique(runs),
    ensures
        forall|i: int| 0 <= i < runs.len() && runs[i].run_id@ == r ==> runs_raw(runs, r)
            == #[trigger] runs[i].events@,
        (forall|i: int| 0 <= i < runs.len() ==> #[trigger] runs[i].run_id@ != r) ==> runs_raw(
            runs,
            r,
        ) == Seq::<WriteEvent>::empty(),
    decreases runs.len(),
{
    if runs.len() > 0 {
        let t = runs.drop_last();
        assert(ids_unique(t));
        lemma_runs_raw(t, r);
        assert forall|i: int| 0 <= i < runs.len() && runs[i].run_id@ == r implies runs_raw(runs, r)
            == #[trigger] runs[i].events@ by {
            if i < t.len() {
                assert(t[i] == runs[i]);
                assert(runs[i].run_id@ != runs.last().run_id@);
            }
        }
        if forall|i: int| 0 <= i < runs.len() ==> #[trigger] runs[i].run_id@ != r {
            assert forall|i: int| 0 <= i < t.len() implies #[trigger] t[i].run_id@ != r by {
                assert(t[i] == runs[i]);
            }
            assert(runs[runs.len() - 1].run_id@ != r);
        }
    }
}

proof fn lemma_sorted_unique(runs: Seq<StoredRun>)
    requires
        ids_sorted(runs),
    ensures
        ids_unique(runs),
{
    assert forall|i: int, j: int| 0 <= i < j < runs.len() implies runs[i].run_id@
        != runs[j].run_id@ by {
        assert(text_lt(runs[i].run_id@, runs[j].run_id@));
        lemma_text_lt_irreflexive(runs[i].run_id@);
    }
}

/// After one run's entry is put in (added or replaced), the log holds that
/// run's events and every other run's as before.
proof fn lemma_log_put(old: Seq<StoredRun>, new: Seq<StoredRun>, x: StoredRun)
    requires
        ids_unique(old),
        ids_unique(new),
        new.contains(x),
        forall|i: int|
            0 <= i < new.len() && new[i].run_id@ != x.run_id@ ==> old.contains(#[trigger] new[i]),
        forall|i: int|
            0 <= i < old.len() && old[i].run_id@ != x.run_id@ ==> new.contains(#[trigger] old[i]),
    ensures
        runs_log(new) == runs_log(old).insert(x.run_id@, events_view(x.events@)),
{
    lemma_runs_log(old);
    lemma_runs_log(new);
    let a = runs_log(new);
    let b = runs_log(old).insert(x.run_id@, events_view(x.events@));
    let xi = choose|i: int| 0 <= i < new.len() && new[i] == x;
    assert(a.contains_key(new[xi].run_id@));
    assert forall|k: Seq<char>| a.contains_key(k) <==> b.contains_key(k) by {
        if k != x.run_id@ {
            if a.contains_key(k) {
                let i = choose|i: int| 0 <= i < new.len() && new[i].run_id@ == k;
                assert(old.contains(new[i]));
                let j = choose|j: int| 0 <= j < old.len() && old[j] == new[i];
                assert(old[j].run_id@ == k);
                assert(runs_log(old).contains_key(k));
            }
            if runs_log(old).contains_key(k) {
                let i = choose|i: int| 0 <= i < old.len() && old[i].run_id@ == k;
                assert(new.contains(old[i]));
                let j = choose|j: int| 0 <= j < new.len() && new[j] == old[i];
                assert(new[j].run_id@ == k);
            }
        }
    }
    assert forall|k: Seq<char>| a.contains_key(k) implies a[k] == b[k] by {
        if k == x.run_id@ {
            assert(a[new[xi].run_id@] == events_view(new[xi].events@));
        } else {
            let i = choose|i: int| 0 <= i < new.len() && new[i].run_id@ == k;
            assert(a[new[i].run_id@] == events_view(new[i].events@));
            assert(old.contains(new[i]));
            let j = choose|j: int| 0 <= j < old.len() && old[j] == new[i];
            assert(runs_log(old)[old[j].run_id@] == events_view(old[j].events@));
        }
    }
    assert(a =~= b);
}

/// The in-memory run store. It keeps its runs in run-id order, and each
/// run's events in sequence order.
pub struct InMemoryRunStore {
    runs: Vec<StoredRun>,
}

impl InMemoryRunStore {
    /// The stored events of every run, by run id.
    pub closed spec fn log(&self) -> Map<Seq<char>, Seq<EventView>> {
        runs_log(self.runs@)
    }

    /// The store's invariant: runs in id order, each holding a non-empty,
    /// sequence-ordered list of its own events.
    pub closed spec fn wf(&self) -> bool {
        &&& ids_sorted(self.runs@)
        &&& forall|i: int|
            0 <= i < self.runs@.len() ==> run_events_ok(
                #[trigger] self.runs@[i].run_id@,
                events_view(self.runs@[i].events@),
            )
    }

    proof fn lemma_wf_log(&self)
        requires
            self.wf(),
        ensures
            ids_unique(self.runs@),
            log_wf(self.log()),
            forall|k: Seq<char>| #[trigger]
                self.log().contains_key(k) <==> exists|i: int|
                    0 <= i < self.runs@.len() && self.runs@[i].run_id@ == k,
            forall|i: int|
                0 <= i < self.runs@.len() ==> self.log()[#[trigger] self.runs@[i].run_id@]
                    == events_view(self.runs@[i].events@),
    {
        lemma_sorted_unique(self.runs@);
        lemma_runs_log(self.runs@);
        assert forall|r: Seq<char>| self.log().contains_key(r) implies run_events_ok(
            r,
            #[trigger] self.log()[r],
        ) by {
            let i = choose|i: int| 0 <= i < self.runs@.len() && self.runs@[i].run_id@ == r;
            assert(self.log()[self.runs@[i].run_id@] == events_view(self.runs@[i].events@));
        }
    }

    /// An empty store.
    pub fn new() -> (r: InMemoryRunStore)
        ensures
            r.wf(),
            r.log() == Map::<Seq<char>, Seq<EventView>>::empty(),
            log_wf(r.log()),
    {
        InMemoryRunStore { runs: Vec::new() }
    }

    /// Where run `id` stands, or would stand, among the runs: `(true, i)`
    /// when the `i`-th run is `id`, `(false, i)` when `id` belongs before
    /// the `i`-th run.
    fn locate(&self, id: &str) -> (r: (bool, usize))
        requires
            self.wf(),
        ensures
            r.1 <= self.runs@.len(),
            forall|j: int| 0 <= j < r.1 ==> text_lt(#[trigger] self.runs@[j].run_id@, id@),
            r.0 ==> r.1 < self.runs@.len() && self.runs@[r.1 as int].run_id@ == id@,
            !r.0 ==> forall|j: int|
                r.1 <= j < self.runs@.len() ==> text_lt(id@, #[trigger] self.runs@[j].run_id@),
    {
        let mut i: usize = 0;
        while i < self.runs.len() && text_less(self.runs[i].run_id.as_str(), id)
            invariant
                self.wf(),
                i <= self.runs@.len(),
                forall|j: int| 0 <= j < i ==> text_lt(#[trigger] self.runs@[j].run_id@, id@),
            decreases self.runs.len() - i,
        {
            i += 1;
        }
        if i < self.runs.len() && str_eq(self.runs[i].run_id.as_str(), id) {
            return (true, i);
        }
        proof {
            if i < self.runs@.len() {
                let a = self.runs@[i as int].run_id@;
                lemma_text_lt_total(a, id@);
                assert forall|j: int| i <= j < self.runs@.len() implies text_lt(
                    id@,
                    #[trigger] self.runs@[j].run_id@,
                ) by {
                    if j > i {
                        assert(text_lt(a, self.runs@[j].run_id@));
                        lemma_text_lt_transitive(id@, a, self.runs@[j].run_id@);
                    }
                }
            }
        }
        (false, i)
    }

    /// Writes `batch`: each event joins its run's events unless that run
    /// already holds its sequence number; a run's events stay in sequence
    /// order. A write never fails.
    pub fn write_batch(&mut self, batch: &Vec<WriteEvent>) -> (r: Result<(), RunStoreError>)
        requires
            old(self).wf(),
        ensures
            final(self).wf(),
            r is Ok,
            final(self).log() == written(old(self).log(), events_view(batch@)),
            log_wf(final(self).log()),
    {
        let ghost m0 = self.log();
        let ghost bv = events_view(batch@);
        proof {
            self.lemma_wf_log();
        }
        let ids = batch_run_ids(batch);
        let mut k: usize = 0;
        while k < ids.len()
            invariant
                self.wf(),
                k <= ids@.len(),
                bv == events_view(batch@),
                log_wf(m0),
                forall|i: int, j: int| 0 <= i < j < ids@.len() ==> ids@[i]@ != ids@[j]@,
                forall|q: Seq<char>|
                    mentions_run(bv, q) <==> exists|i: int|
                        0 <= i < ids@.len() && #[trigger] ids@[i]@ == q,
                self.log() == Map::new(
                    |q: Seq<char>|
                        m0.contains_key(q) || among(ids@, k as int, q),
                    |q: Seq<char>|
                        if among(ids@, k as int, q) {
                            merged(
                                if m0.contains_key(q) {
                                    m0[q]
                                } else {
                                    Seq::empty()
                                },
                                events_for(bv, q),
                            )
                        } else {
                            m0[q]
                        },
                ),
            decreases ids.len() - k,
        {
            let id = ids[k].as_str();
            assert(!among(ids@, k as int, id@));
            proof {
                self.lemma_wf_log();
            }
            let ghost m = self.log();
            let ghost old_runs = self.runs@;
            assert(m.contains_key(id@) == m0.contains_key(id@));
            assert(m.contains_key(id@) ==> m[id@] == m0[id@]);
            let (found, pos) = self.locate(id);
            let stored = if found {
                let e = self.runs.remove(pos);
                e.events
            } else {
                Vec::new()
            };
            let ghost sv = events_view(stored@);
            assert(sv == (if m0.contains_key(id@) { m0[id@] } else { Seq::<EventView>::empty() })) by {
                if found {
                    assert(m[old_runs[pos as int].run_id@] == events_view(old_runs[pos as int].events@));
                } else {
                    assert(!m.contains_key(id@)) by {
                        if m.contains_key(id@) {
                            let j = choose|j: int| 0 <= j < old_runs.len() && old_runs[j].run_id@ == id@;
                            if j < pos {
                                assert(text_lt(old_runs[j].run_id@, id@));
                            } else {
                                assert(text_lt(id@, old_runs[j].run_id@));
                            }
                            lemma_text_lt_irreflexive(id@);
                        }
                    }
                    assert(sv =~= Seq::<EventView>::empty());
                }
            }
            let events = merge_run(stored, batch, id);
            let ghost mv = events_view(events@);
            proof {
                let f = events_for(bv, id@);
                lemma_events_for(bv, id@);
                assert(mentions_run(bv, id@)) by {
                    assert(ids@[k as int]@ == id@);
                }
                let g = fresh_events(f, sv);
                lemma_fresh_events(f, sv);
                lemma_insert_all(sv, g);
                if sv.len() == 0 {
                    let x = f[0];
                    assert(f.contains(x));
                    assert(!has_seq(sv, view_seq(x)));
                    assert(g.contains(x));
                }
                assert forall|j: int| 0 <= j < mv.len() implies view_run(#[trigger] mv[j]) == id@ by {
                    assert(mv.contains(mv[j]));
                    if sv.contains(mv[j]) {
                        let a = choose|a: int| 0 <= a < sv.len() && sv[a] == mv[j];
                        if found {
                            assert(run_events_ok(old_runs[pos as int].run_id@, sv));
                        }
                    } else {
                        assert(g.contains(mv[j]));
                        assert(f.contains(mv[j]));
                    }
                }
                assert(run_events_ok(id@, mv));
            }
            let entry = StoredRun { run_id: id.to_string(), events };
            let ghost mid = self.runs@;
            self.runs.insert(pos, entry);
            proof {
                let new_runs = self.runs@;
                let x = new_runs[pos as int];
                assert(ids_sorted(new_runs)) by {
                    assert forall|a: int, b: int| 0 <= a < b < new_runs.len() implies text_lt(
                        #[trigger] new_runs[a].run_id@,
                        #[trigger] new_runs[b].run_id@,
                    ) by {
                        if found {
                            if a != pos && b != pos {
                                assert(new_runs[a] == old_runs[a]);
                                assert(new_runs[b] == old_runs[b]);
                            } else if a == pos {
                                assert(new_runs[b] == old_runs[b]);
                                assert(text_lt(old_runs[a].run_id@, old_runs[b].run_id@));
                            } else {
                                assert(new_runs[a] == old_runs[a]);
                                assert(text_lt(old_runs[a].run_id@, old_runs[b].run_id@));
                            }
                        } else {
                            if b < pos {
                                assert(new_runs[a] == old_runs[a]);
                                assert(new_runs[b] == old_runs[b]);
                            } else if b == pos {
                                assert(new_runs[a] == old_runs[a]);
                            } else if a < pos {
                                assert(new_runs[a] == old_runs[a]);
                                assert(new_runs[b] == old_runs[b - 1]);
                                assert(text_lt(old_runs[a].run_id@, id@));
                                assert(text_lt(id@, old_runs[b - 1].run_id@));
                                lemma_text_lt_transitive(old_runs[a].run_id@, id@, old_runs[b - 1].run_id@);
                            } else if a == pos {
                                assert(new_runs[b] == old_runs[b - 1]);
                            } else {
                                assert(new_runs[a] == old_runs[a - 1]);
                                assert(new_runs[b] == old_runs[b - 1]);
                            }
                        }
                    }
                }
                assert forall|i: int| 0 <= i < new_runs.len() implies run_events_ok(
                    #[trigger] new_runs[i].run_id@,
                    events_view(new_runs[i].events@),
                ) by {
                    if i != pos {
                        if found || i < pos {
                            assert(new_runs[i] == old_runs[i]);
                        } else {
                            assert(new_runs[i] == old_runs[i - 1]);
                        }
                    }
                }
                lemma_sorted_unique(old_runs);
                lemma_sorted_unique(new_runs);
                assert(new_runs.contains(x));
                assert forall|i: int|
                    0 <= i < new_runs.len() && new_runs[i].run_id@ != x.run_id@ implies old_runs.contains(
                    #[trigger] new_runs[i],
                ) by {
                    if found || i < pos {
                        assert(new_runs[i] == old_runs[i]);
                    } else {
                        assert(new_runs[i] == old_runs[i - 1]);
                    }
                }
                assert forall|i: int|
                    0 <= i < old_runs.len() && old_runs[i].run_id@ != x.run_id@ implies new_runs.contains(
                    #[trigger] old_runs[i],
                ) by {
                    if found || i < pos {
                        assert(new_runs[i] == old_runs[i]);
                    } else {
                        assert(new_runs[i + 1] == old_runs[i]);
                    }
                }
                lemma_log_put(old_runs, new_runs, x);
                let target = Map::new(
                    |q: Seq<char>|
                        m0.contains_key(q) || among(ids@, k + 1, q),
                    |q: Seq<char>|
                        if among(ids@, k + 1, q) {
                            merged(
                                if m0.contains_key(q) {
                                    m0[q]
                                } else {
                                    Seq::empty()
                                },
                                events_for(bv, q),
                            )
                        } else {
                            m0[q]
                        },
                );
                assert forall|q: Seq<char>| #[trigger] among(ids@, k + 1, q)
                    <==> (among(ids@, k as int, q) || q == id@) by {
                    if among(ids@, k + 1, q) {
                        let i = choose|i: int| 0 <= i < k + 1 && #[trigger] ids@[i]@ == q;
                        if i < k {
                            assert(among(ids@, k as int, q));
                        }
                    }
                    if q == id@ {
                        assert(ids@[k as int]@ == q);
                    }
                    if among(ids@, k as int, q) {
                        let i = choose|i: int| 0 <= i < k && #[trigger] ids@[i]@ == q;
                        assert(0 <= i < k + 1 && ids@[i]@ == q);
                    }
                }
                assert(self.log() =~= target);
            }
            k += 1;
        }
        proof {
            assert forall|q: Seq<char>| (exists|i: int| 0 <= i < ids@.len() && #[trigger] ids@[i]@ == q)
                <==> mentions_run(bv, q) by {}
            assert(self.log() =~= written(m0, bv));
            self.lemma_wf_log();
        }
        Ok(())
    }
}

/// The model of an LLM invocation record.
pub type Invocation = (Seq<char>, Seq<char>, crate::json::JsonView, crate::json::JsonView, crate::clock::Timestamp);

/// The invocations of `s` made by node `node`, in order.
pub open spec fn invocations_of_node(s: Seq<Invocation>, node: Seq<char>) -> Seq<Invocation>
    decreases s.len(),
{
    if s.len() == 0 {
        Seq::empty()
    } else {
        let p = invocations_of_node(s.drop_last(), node);
        if s.last().1 == node {
            p.push(s.last())
        } else {
            p
        }
    }
}

/// What a run filter asks of a run.
pub struct RunFilter {
    pub flow_id: Option<String>,
    pub status: Option<RunStatus>,
    pub version_id: Option<String>,
    pub parent_run_id: Option<String>,
    pub offset: Option<usize>,
    pub limit: Option<usize>,
}

/// One page of runs and the number of runs that matched.
pub struct RunPage {
    pub runs: Vec<RunRecord>,
    pub total: usize,
}

/// The models of a list of run records.
pub open spec fn run_models(s: Seq<RunRecord>) -> Seq<RunModel> {
    s.map_values(|r: RunRecord| run_model(r))
}

/// Whether run `m` passes the flow and status parts of a filter.
pub open spec fn admits_flow_status(
    m: RunModel,
    flow_id: Option<Seq<char>>,
    status: Option<RunStatus>,
) -> bool {
    &&& (flow_id matches Some(f) ==> m.flow_id == f)
    &&& (status matches Some(st) ==> m.status == st)
}

/// Whether run `m` passes all four parts of a filter: flow, status,
/// version and parent run.
pub open spec fn admits_all(
    m: RunModel,
    flow_id: Option<Seq<char>>,
    status: Option<RunStatus>,
    version_id: Option<Seq<char>>,
    parent_run_id: Option<Seq<char>>,
) -> bool {
    &&& admits_flow_status(m, flow_id, status)
    &&& (version_id matches Some(v) ==> m.version_id == v)
    &&& (parent_run_id matches Some(p) ==> m.parent_run_id == Some(p))
}

/// The runs of `s` that pass the flow and status parts of a filter, in
/// order.
pub open spec fn matching_runs(
    s: Seq<RunModel>,
    flow_id: Option<Seq<char>>,
    status: Option<RunStatus>,
) -> Seq<RunModel>
    decreases s.len(),
{
    if s.len() == 0 {
        Seq::empty()
    } else {
        let p = matching_runs(s.drop_last(), flow_id, status);
        if admits_flow_status(s.last(), flow_id, status) {
            p.push(s.last())
        } else {
            p
        }
    }
}

/// The runs of `s` after the first `offset`, at most `limit` of them (all of
/// them when there is no limit).
pub open spec fn page_of(s: Seq<RunModel>, offset: nat, limit: Option<usize>) -> Seq<RunModel> {
    if offset >= s.len() {
        Seq::empty()
    } else {
        let end = match limit {
            Some(l) => if offset + l < s.len() {
                offset + l
            } else {
                s.len() as int
            },
            None => s.len() as int,
        };
        s.subrange(offset as int, end)
    }
}

proof fn lemma_page_push(s: Seq<RunModel>, x: RunModel, offset: nat, limit: Option<usize>)
    ensures
        page_of(s.push(x), offset, limit) == (if offset <= s.len() && (limit matches Some(l) ==> s.len()
            < offset + l) {
            page_of(s, offset, limit).push(x)
        } else {
            page_of(s, offset, limit)
        }),
{
    let t = s.push(x);
    if offset <= s.len() && (limit matches Some(l) ==> s.len() < offset + l) {
        if offset == s.len() {
            assert(page_of(s, offset, limit) =~= Seq::<RunModel>::empty());
            assert(page_of(t, offset, limit) =~= seq![x]);
        } else {
            assert(page_of(t, offset, limit) =~= page_of(s, offset, limit).push(x));
        }
    } else {
        if offset < s.len() {
            assert(page_of(t, offset, limit) =~= page_of(s, offset, limit));
        }
    }
}

/// The models of the runs of `runs`, in order, each rebuilt from its
/// stored events.
pub open spec fn stored_models(runs: Seq<StoredRun>) -> Seq<RunModel> {
    runs.map_values(|e: StoredRun| run_upto(e.run_id@, e.events@, e.events@.len() as int))
}

impl InMemoryRunStore {
    /// The stored events of run `r` as written; none when the store does
    /// not hold it.
    pub closed spec fn stored_events(&self, r: Seq<char>) -> Seq<WriteEvent> {
        runs_raw(self.runs@, r)
    }

    /// Every run of the store, in run-id order, rebuilt from its events.
    pub closed spec fn run_list(&self) -> Seq<RunModel> {
        stored_models(self.runs@)
    }

    /// The stored events of a run are, event by event, those the log holds.
    pub proof fn lemma_stored_events(&self, r: Seq<char>)
        requires
            self.wf(),
        ensures
            events_view(self.stored_events(r)) == (if self.log().contains_key(r) {
                self.log()[r]
            } else {
                Seq::<EventView>::empty()
            }),
            self.log().contains_key(r) ==> self.stored_events(r).len() > 0,
    {
        self.lemma_wf_log();
        lemma_runs_raw(self.runs@, r);
        if self.log().contains_key(r) {
            let i = choose|i: int| 0 <= i < self.runs@.len() && self.runs@[i].run_id@ == r;
            assert(self.log()[self.runs@[i].run_id@] == events_view(self.runs@[i].events@));
            assert(run_events_ok(self.runs@[i].run_id@, events_view(self.runs@[i].events@)));
        } else {
            assert forall|i: int| 0 <= i < self.runs@.len() implies #[trigger] self.runs@[i].run_id@
                != r by {
                if self.runs@[i].run_id@ == r {
                    assert(self.log().contains_key(self.runs@[i].run_id@));
                }
            }
            assert(events_view(Seq::<WriteEvent>::empty()) =~= Seq::<EventView>::empty());
        }
    }

    /// The index of run `run_id` among the runs, if the store holds it.
    fn find(&self, run_id: &str) -> (r: Option<usize>)
        requires
            self.wf(),
        ensures
            match r {
                Some(i) => i < self.runs@.len() && self.runs@[i as int].run_id@ == run_id@
                    && self.log().contains_key(run_id@) && self.stored_events(run_id@)
                    == self.runs@[i as int].events@,
                None => !self.log().contains_key(run_id@) && self.stored_events(run_id@)
                    == Seq::<WriteEvent>::empty(),
            },
    {
        proof {
            self.lemma_wf_log();
            lemma_runs_raw(self.runs@, run_id@);
        }
        let (found, pos) = self.locate(run_id);
        if found {
            assert(self.log().contains_key(self.runs@[pos as int].run_id@));
            Some(pos)
        } else {
            proof {
                assert forall|j: int| 0 <= j < self.runs@.len() implies #[trigger] self.runs@[j].run_id@
                    != run_id@ by {
                    if j < pos {
                        assert(text_lt(self.runs@[j].run_id@, run_id@));
                    } else {
                        assert(text_lt(run_id@, self.runs@[j].run_id@));
                    }
                    lemma_text_lt_irreflexive(run_id@);
                }
            }
            None
        }
    }

    /// The record of run `run_id` rebuilt from its stored events; `None`
    /// when the store does not hold the run.
    pub fn get_run(&self, run_id: &str) -> (r: Option<RunRecord>)
        requires
            self.wf(),
        ensures
            match r {
                None => !self.log().contains_key(run_id@),
                Some(rec) => self.log().contains_key(run_id@) && run_model(rec) == run_upto(
                    run_id@,
                    self.stored_events(run_id@),
                    self.stored_events(run_id@).len() as int,
                ),
            },
    {
        match self.find(run_id) {
            None => None,
            Some(i) => {
                proof {
                    self.lemma_stored_events(run_id@);
                }
                reconstruct_run(run_id, &self.runs[i].events)
            },
        }
    }

    /// The latest state of every node of run `run_id` (see `results_upto`);
    /// none when the store does not hold the run.
    pub fn get_node_results(&self, run_id: &str) -> (r: Vec<NodeRunResult>)
        requires
            self.wf(),
        ensures
            node_results_model(r@) == results_upto(
                self.stored_events(run_id@),
                self.stored_events(run_id@).len() as int,
            ),
    {
        match self.find(run_id) {
            None => {
                let r: Vec<NodeRunResult> = Vec::new();
                assert(node_results_model(r@) =~= results_upto(Seq::<WriteEvent>::empty(), 0));
                r
            },
            Some(i) => extract_node_results(&self.runs[i].events),
        }
    }

    /// The edge evaluations of run `run_id`, in sequence order; none when the
    /// store does not hold the run.
    pub fn get_edge_results(&self, run_id: &str) -> (r: Vec<EdgeRunResult>)
        requires
            self.wf(),
        ensures
            r@.map_values(|e: EdgeRunResult| edge_result_view(e)) == edges_upto(
                self.stored_events(run_id@),
                self.stored_events(run_id@).len() as int,
            ),
    {
        match self.find(run_id) {
            None => {
                let r: Vec<EdgeRunResult> = Vec::new();
                assert(r@.map_values(|e: EdgeRunResult| edge_result_view(e)) =~= edges_upto(
                    Seq::<WriteEvent>::empty(),
                    0,
                ));
                r
            },
            Some(i) => extract_edge_results(&self.runs[i].events),
        }
    }

    /// The custom events of run `run_id`, in sequence order; none when the
    /// store does not hold the run.
    pub fn get_custom_events(&self, run_id: &str) -> (r: Vec<CustomEventRecord>)
        requires
            self.wf(),
        ensures
            r@.map_values(|c: CustomEventRecord| custom_view(c)) == customs_upto(
                self.stored_events(run_id@),
                self.stored_events(run_id@).len() as int,
            ),
    {
        match self.find(run_id) {
            None => {
                let r: Vec<CustomEventRecord> = Vec::new();
                assert(r@.map_values(|c: CustomEventRecord| custom_view(c)) =~= customs_upto(
                    Seq::<WriteEvent>::empty(),
                    0,
                ));
                r
            },
            Some(i) => extract_custom_events(&self.runs[i].events),
        }
    }

    /// The LLM invocations of run `run_id`, in sequence order; none when the
    /// store does not hold the run.
    pub fn get_llm_invocations(&self, run_id: &str) -> (r: Vec<LlmInvocationRecord>)
        requires
            self.wf(),
        ensures
            r@.map_values(|c: LlmInvocationRecord| invocation_view(c)) == invocations_upto(
                self.stored_events(run_id@),
                self.stored_events(run_id@).len() as int,
            ),
    {
        match self.find(run_id) {
            None => {
                let r: Vec<LlmInvocationRecord> = Vec::new();
                assert(r@.map_values(|c: LlmInvocationRecord| invocation_view(c))
                    =~= invocations_upto(Seq::<WriteEvent>::empty(), 0));
                r
            },
            Some(i) => extract_llm_invocations(&self.runs[i].events),
        }
    }

    /// The LLM invocations of run `run_id` made by node `node_id`, in
    /// sequence order.
    pub fn get_llm_invocations_for_node(&self, run_id: &str, node_id: &str) -> (r: Vec<
        LlmInvocationRecord,
    >)
        requires
            self.wf(),
        ensures
            r@.map_values(|c: LlmInvocationRecord| invocation_view(c)) == invocations_of_node(
                invocations_upto(
                    self.stored_events(run_id@),
                    self.stored_events(run_id@).len() as int,
                ),
                node_id@,
            ),
    {
        let all = self.get_llm_invocations(run_id);
        invocations_for_node(&all, node_id)
    }

    /// Copies of the stored events of run `run_id`, in sequence order; none
    /// when the store does not hold the run.
    pub fn events(&self, run_id: &str) -> (r: Vec<WriteEvent>)
        requires
            self.wf(),
        ensures
            events_view(r@) == (if self.log().contains_key(run_id@) {
                self.log()[run_id@]
            } else {
                Seq::<EventView>::empty()
            }),
    {
        proof {
            self.lemma_stored_events(run_id@);
        }
        let mut out: Vec<WriteEvent> = Vec::new();
        match self.find(run_id) {
            None => {
                assert(events_view(out@) =~= Seq::<EventView>::empty());
            },
            Some(k) => {
                let src = &self.runs[k].events;
                let mut i: usize = 0;
                while i < src.len()
                    invariant
                        i <= src@.len(),
                        out@.len() == i,
                        forall|j: int| 0 <= j < i ==> #[trigger] out@[j]@ == src@[j]@,
                    decreases src.len() - i,
                {
                    out.push(src[i].duplicate());
                    i += 1;
                }
                assert(events_view(out@) =~= events_view(src@));
            },
        }
        out
    }

    /// The runs that pass the flow and status parts of `filter`, in run-id
    /// order, paged by its offset and limit; `total` counts every matching
    /// run.
    pub fn list_runs(&self, filter: &RunFilter) -> (r: RunPage)
        requires
            self.wf(),
        ensures
            ({
                let matching = matching_runs(
                    self.run_list(),
                    opt_text(filter.flow_id),
                    filter.status,
                );
                &&& r.total == matching.len()
                &&& run_models(r.runs@) == page_of(
                    matching,
                    (match filter.offset {
                        Some(o) => o as nat,
                        None => 0,
                    }),
                    filter.limit,
                )
            }),
    {
        let ghost all = self.run_list();
        let offset: usize = match filter.offset {
            Some(o) => o,
            None => 0,
        };
        let mut page: Vec<RunRecord> = Vec::new();
        let mut total: usize = 0;
        let mut i: usize = 0;
        while i < self.runs.len()
            invariant
                self.wf(),
                i <= self.runs@.len(),
                all == self.run_list(),
                all.len() == self.runs@.len(),
                total == matching_runs(all.take(i as int), opt_text(filter.flow_id), filter.status).len(),
                total <= i,
                run_models(page@) == page_of(matching_runs(all.take(i as int), opt_text(filter.flow_id), filter.status), offset as nat, filter.limit),
            decreases self.runs.len() - i,
        {
            let entry = &self.runs[i];
            assert(run_events_ok(self.runs@[i as int].run_id@, events_view(entry.events@)));
            let rec = reconstruct_run(entry.run_id.as_str(), &entry.events);
            let ghost t0 = all.take(i as int);
            assert(all[i as int] == run_upto(entry.run_id@, entry.events@, entry.events@.len() as int));
            assert(all.take(i + 1).drop_last() =~= t0);
            match rec {
                Some(rec) => {
                    let keep = match &filter.flow_id {
                        Some(f) => str_eq(rec.flow_id.as_str(), f.as_str()),
                        None => true,
                    } && match filter.status {
                        Some(st) => rec.status == st,
                        None => true,
                    };
                    if keep {
                        let ghost m = run_model(rec);
                        let ghost before = page@;
                        let ghost matched = matching_runs(t0, opt_text(filter.flow_id), filter.status);
                        proof {
                            lemma_page_push(matched, m, offset as nat, filter.limit);
                        }
                        let in_page = total >= offset && match filter.limit {
                            Some(l) => total - offset < l,
                            None => true,
                        };
                        if in_page {
                            page.push(rec);
                            assert(run_models(page@) =~= run_models(before).push(m));
                        }
                        total += 1;
                    }
                },
                None => {
                    assert(false);
                },
            }
            i += 1;
        }
        assert(all.take(self.runs@.len() as int) =~= all);
        RunPage { runs: page, total }
    }
}

// ---------------------------------------------------------------------------
// Laws of a write
// ---------------------------------------------------------------------------

/// Whether no two events of `s` share a sequence number.
pub open spec fn seqs_distinct(s: Seq<EventView>) -> bool {
    forall|i: int, j: int| 0 <= i < j < s.len() ==> view_seq(s[i]) != view_seq(s[j])
}

proof fn lemma_has_seq_of(s: Seq<EventView>, x: EventView)
    requires
        s.contains(x),
    ensures
        has_seq(s, view_seq(x)),
{
    let i = choose|i: int| 0 <= i < s.len() && s[i] == x;
    assert(view_seq(s[i]) == view_seq(x));
}

proof fn lemma_has_seq_member(s: Seq<EventView>, k: u64) -> (x: EventView)
    requires
        has_seq(s, k),
    ensures
        s.contains(x),
        view_seq(x) == k,
{
    let i = choose|i: int| 0 <= i < s.len() && view_seq(s[i]) == k;
    s[i]
}

proof fn lemma_fresh_none(f: Seq<EventView>, s: Seq<EventView>)
    requires
        forall|x: EventView| f.contains(x) ==> has_seq(s, view_seq(x)),
    ensures
        fresh_events(f, s) == Seq::<EventView>::empty(),
{
    lemma_fresh_events(f, s);
    let g = fresh_events(f, s);
    if g.len() > 0 {
        assert(g.contains(g[0]));
    }
    assert(g =~= Seq::<EventView>::empty());
}

/// The events a write leaves in a run: those stored before, and the
/// batch's events of that run whose sequence number was new.
proof fn lemma_merged_contains(stored: Seq<EventView>, f: Seq<EventView>, x: EventView)
    ensures
        merged(stored, f).contains(x) <==> (stored.contains(x) || (f.contains(x) && !has_seq(
            stored,
            view_seq(x),
        ))),
{
    lemma_fresh_events(f, stored);
    lemma_insert_all(stored, fresh_events(f, stored));
}

/// The value a write leaves for a run the batch mentions.
proof fn lemma_written_at(log: Map<Seq<char>, Seq<EventView>>, batch: Seq<EventView>, r: Seq<char>)
    ensures
        written(log, batch).contains_key(r) <==> (log.contains_key(r) || mentions_run(batch, r)),
        mentions_run(batch, r) ==> written(log, batch)[r] == merged(
            (if log.contains_key(r) {
                log[r]
            } else {
                Seq::empty()
            }),
            events_for(batch, r),
        ),
        !mentions_run(batch, r) && log.contains_key(r) ==> written(log, batch)[r] == log[r],
{
}

/// Writing the same batch twice leaves the store as writing it once.
pub proof fn law_write_idempotent(log: Map<Seq<char>, Seq<EventView>>, batch: Seq<EventView>)
    ensures
        written(written(log, batch), batch) == written(log, batch),
{
    let m1 = written(log, batch);
    let m2 = written(m1, batch);
    assert forall|r: Seq<char>| m2.contains_key(r) <==> m1.contains_key(r) by {
        lemma_written_at(log, batch, r);
        lemma_written_at(m1, batch, r);
    }
    assert forall|r: Seq<char>| m1.contains_key(r) implies m2[r] == m1[r] by {
        lemma_written_at(log, batch, r);
        lemma_written_at(m1, batch, r);
        if mentions_run(batch, r) {
            let e = if log.contains_key(r) {
                log[r]
            } else {
                Seq::<EventView>::empty()
            };
            let f = events_for(batch, r);
            lemma_events_for(batch, r);
            assert forall|x: EventView| f.contains(x) implies has_seq(m1[r], view_seq(x)) by {
                lemma_merged_contains(e, f, x);
                if has_seq(e, view_seq(x)) {
                    let y = lemma_has_seq_member(e, view_seq(x));
                    lemma_merged_contains(e, f, y);
                    lemma_has_seq_of(m1[r], y);
                } else {
                    lemma_has_seq_of(m1[r], x);
                }
            }
            lemma_fresh_none(f, m1[r]);
        }
    }
    assert(m2 =~= m1);
}

/// A write loses no stored event.
pub proof fn law_write_keeps_stored(
    log: Map<Seq<char>, Seq<EventView>>,
    batch: Seq<EventView>,
    r: Seq<char>,
    x: EventView,
)
    requires
        log.contains_key(r),
        log[r].contains(x),
    ensures
        written(log, batch).contains_key(r),
        written(log, batch)[r].contains(x),
{
    lemma_written_at(log, batch, r);
    if mentions_run(batch, r) {
        lemma_merged_contains(log[r], events_for(batch, r), x);
    }
}

/// After a write, the run of every batch event holds that event's sequence
/// number, and holds the event itself when the number was new to it.
pub proof fn law_write_stores_batch(
    log: Map<Seq<char>, Seq<EventView>>,
    batch: Seq<EventView>,
    i: int,
)
    requires
        0 <= i < batch.len(),
    ensures
        written(log, batch).contains_key(view_run(batch[i])),
        has_seq(written(log, batch)[view_run(batch[i])], view_seq(batch[i])),
        !(log.contains_key(view_run(batch[i])) && has_seq(
            log[view_run(batch[i])],
            view_seq(batch[i]),
        )) ==> written(log, batch)[view_run(batch[i])].contains(batch[i]),
{
    let x = batch[i];
    let r = view_run(x);
    assert(batch.contains(x));
    assert(mentions_run(batch, r));
    lemma_written_at(log, batch, r);
    lemma_events_for(batch, r);
    let e = if log.contains_key(r) {
        log[r]
    } else {
        Seq::<EventView>::empty()
    };
    let f = events_for(batch, r);
    lemma_merged_contains(e, f, x);
    if has_seq(e, view_seq(x)) {
        let y = lemma_has_seq_member(e, view_seq(x));
        lemma_merged_contains(e, f, y);
        lemma_has_seq_of(merged(e, f), y);
    } else {
        lemma_has_seq_of(merged(e, f), x);
    }
}

/// A write adds no event but the batch's own.
pub proof fn law_write_adds_only_batch(
    log: Map<Seq<char>, Seq<EventView>>,
    batch: Seq<EventView>,
    r: Seq<char>,
    x: EventView,
)
    requires
        written(log, batch).contains_key(r),
        written(log, batch)[r].contains(x),
    ensures
        (log.contains_key(r) && log[r].contains(x)) || (batch.contains(x) && view_run(x) == r),
{
    lemma_written_at(log, batch, r);
    if mentions_run(batch, r) {
        let e = if log.contains_key(r) {
            log[r]
        } else {
            Seq::<EventView>::empty()
        };
        lemma_merged_contains(e, events_for(batch, r), x);
        lemma_events_for(batch, r);
    }
}

/// A write leaves every run the batch does not mention as it was.
pub proof fn law_write_other_runs(
    log: Map<Seq<char>, Seq<EventView>>,
    batch: Seq<EventView>,
    r: Seq<char>,
)
    requires
        !mentions_run(batch, r),
    ensures
        written(log, batch).contains_key(r) == log.contains_key(r),
        log.contains_key(r) ==> written(log, batch)[r] == log[r],
{
    lemma_written_at(log, batch, r);
}

/// A write keeps every run a non-empty, sequence-ordered list of its own
/// events.
pub proof fn law_write_keeps_order(log: Map<Seq<char>, Seq<EventView>>, batch: Seq<EventView>)
    requires
        log_wf(log),
    ensures
        log_wf(written(log, batch)),
{
    let m = written(log, batch);
    assert forall|r: Seq<char>| m.contains_key(r) implies run_events_ok(r, #[trigger] m[r]) by {
        lemma_written_at(log, batch, r);
        if mentions_run(batch, r) {
            let e = if log.contains_key(r) {
                log[r]
            } else {
                Seq::<EventView>::empty()
            };
            let f = events_for(batch, r);
            lemma_events_for(batch, r);
            lemma_fresh_events(f, e);
            lemma_insert_all(e, fresh_events(f, e));
            if e.len() == 0 {
                let x = f[0];
                assert(f.contains(x));
                assert(fresh_events(f, e).contains(x));
            }
            assert forall|j: int| 0 <= j < m[r].len() implies view_run(#[trigger] m[r][j]) == r by {
                let x = m[r][j];
                assert(m[r].contains(x));
                lemma_merged_contains(e, f, x);
                if e.contains(x) {
                    let a = choose|a: int| 0 <= a < e.len() && e[a] == x;
                    assert(run_events_ok(r, e));
                }
            }
        }
    }
}

/// Writing a batch whose events of run `r` come in sequence order onto a
/// store that does not hold `r` stores exactly those events.
pub proof fn law_write_read_back(batch: Seq<EventView>, r: Seq<char>)
    requires
        mentions_run(batch, r),
        sorted_by_seq(events_for(batch, r)),
    ensures
        written(Map::<Seq<char>, Seq<EventView>>::empty(), batch).contains_key(r),
        written(Map::<Seq<char>, Seq<EventView>>::empty(), batch)[r] == events_for(batch, r),
{
    let f = events_for(batch, r);
    let e = Seq::<EventView>::empty();
    lemma_written_at(Map::empty(), batch, r);
    lemma_fresh_all(f, e);
    lemma_insert_all_sorted(f);
}

proof fn lemma_fresh_all(f: Seq<EventView>, e: Seq<EventView>)
    requires
        e.len() == 0,
    ensures
        fresh_events(f, e) == f,
    decreases f.len(),
{
    if f.len() > 0 {
        lemma_fresh_all(f.drop_last(), e);
        assert(f.drop_last().push(f.last()) =~= f);
    }
}

proof fn lemma_fresh_distinct(f: Seq<EventView>, s: Seq<EventView>)
    requires
        seqs_distinct(f),
    ensures
        seqs_distinct(fresh_events(f, s)),
        forall|k: u64| has_seq(fresh_events(f, s), k) ==> has_seq(f, k) && !has_seq(s, k),
    decreases f.len(),
{
    lemma_fresh_events(f, s);
    if f.len() > 0 {
        let t = f.drop_last();
        assert(seqs_distinct(t));
        lemma_fresh_distinct(t, s);
        let g = fresh_events(t, s);
        assert forall|k: u64| has_seq(fresh_events(f, s), k) implies has_seq(f, k) && !has_seq(s, k) by {
            let y = lemma_has_seq_member(fresh_events(f, s), k);
            lemma_has_seq_of(f, y);
        }
        if !has_seq(s, view_seq(f.last())) {
            assert(!has_seq(g, view_seq(f.last()))) by {
                if has_seq(g, view_seq(f.last())) {
                    let j = choose|j: int| 0 <= j < t.len() && view_seq(t[j]) == view_seq(f.last());
                    assert(view_seq(f[j]) == view_seq(f[f.len() - 1]));
                }
            }
            let h = g.push(f.last());
            assert forall|i: int, j: int| 0 <= i < j < h.len() implies view_seq(h[i]) != view_seq(
                h[j],
            ) by {
                if j == h.len() - 1 {
                    assert(h[i] == g[i]);
                    if view_seq(g[i]) == view_seq(f.last()) {
                        assert(has_seq(g, view_seq(f.last())));
                    }
                }
            }
        }
    }
}

proof fn lemma_insert_distinct(s: Seq<EventView>, e: EventView)
    requires
        seqs_distinct(s),
        !has_seq(s, view_seq(e)),
    ensures
        seqs_distinct(insert_by_seq(s, e)),
        forall|k: u64| has_seq(insert_by_seq(s, e), k) <==> (has_seq(s, k) || k == view_seq(e)),
    decreases s.len(),
{
    lemma_insert_by_seq(s, e);
    let r = insert_by_seq(s, e);
    assert forall|k: u64| has_seq(r, k) <==> (has_seq(s, k) || k == view_seq(e)) by {
        if has_seq(r, k) {
            let y = lemma_has_seq_member(r, k);
            if y != e {
                lemma_has_seq_of(s, y);
            }
        }
        if has_seq(s, k) {
            let y = lemma_has_seq_member(s, k);
            lemma_has_seq_of(r, y);
        }
        if k == view_seq(e) {
            lemma_has_seq_of(r, e);
        }
    }
    if s.len() == 0 || view_seq(s.last()) <= view_seq(e) {
        assert forall|i: int, j: int| 0 <= i < j < r.len() implies view_seq(r[i]) != view_seq(
            r[j],
        ) by {
            if j == s.len() {
                assert(r[i] == s[i]);
            } else {
                assert(r[i] == s[i]);
                assert(r[j] == s[j]);
            }
        }
    } else {
        let t = s.drop_last();
        assert(seqs_distinct(t));
        assert(!has_seq(t, view_seq(e))) by {
            if has_seq(t, view_seq(e)) {
                let j = choose|j: int| 0 <= j < t.len() && view_seq(t[j]) == view_seq(e);
                assert(s[j] == t[j]);
            }
        }
        lemma_insert_distinct(t, e);
        let q = insert_by_seq(t, e);
        assert(!has_seq(q, view_seq(s.last()))) by {
            if has_seq(q, view_seq(s.last())) {
                if has_seq(t, view_seq(s.last())) {
                    let j = choose|j: int| 0 <= j < t.len() && view_seq(t[j]) == view_seq(s.last());
                    assert(view_seq(s[j]) == view_seq(s[s.len() - 1]));
                }
            }
        }
        assert forall|i: int, j: int| 0 <= i < j < r.len() implies view_seq(r[i]) != view_seq(
            r[j],
        ) by {
            assert(r == q.push(s.last()));
            if j == r.len() - 1 {
                assert(r[i] == q[i]);
                if view_seq(q[i]) == view_seq(s.last()) {
                    assert(has_seq(q, view_seq(s.last())));
                }
            } else {
                assert(r[i] == q[i]);
                assert(r[j] == q[j]);
            }
        }
    }
}

proof fn lemma_insert_all_distinct(s: Seq<EventView>, f: Seq<EventView>)
    requires
        seqs_distinct(s),
        seqs_distinct(f),
        forall|k: u64| has_seq(f, k) ==> !has_seq(s, k),
    ensures
        seqs_distinct(insert_all(s, f)),
        forall|k: u64| has_seq(insert_all(s, f), k) <==> (has_seq(s, k) || has_seq(f, k)),
    decreases f.len(),
{
    if f.len() > 0 {
        let t = f.drop_last();
        assert(seqs_distinct(t));
        assert forall|k: u64| has_seq(t, k) implies !has_seq(s, k) by {
            let j = choose|j: int| 0 <= j < t.len() && view_seq(t[j]) == k;
            assert(f[j] == t[j]);
            assert(has_seq(f, k));
        }
        lemma_insert_all_distinct(s, t);
        let q = insert_all(s, t);
        let x = f.last();
        assert(has_seq(f, view_seq(x))) by {
            assert(view_seq(f[f.len() - 1]) == view_seq(x));
        }
        assert(!has_seq(q, view_seq(x))) by {
            if has_seq(t, view_seq(x)) {
                let j = choose|j: int| 0 <= j < t.len() && view_seq(t[j]) == view_seq(x);
                assert(view_seq(f[j]) == view_seq(f[f.len() - 1]));
            }
        }
        lemma_insert_distinct(q, x);
        assert forall|k: u64| has_seq(insert_all(s, f), k) <==> (has_seq(s, k) || has_seq(f, k)) by {
            if has_seq(f, k) {
                let j = choose|j: int| 0 <= j < f.len() && view_seq(f[j]) == k;
                if j < t.len() {
                    assert(t[j] == f[j]);
                }
            }
            if has_seq(t, k) {
                let j = choose|j: int| 0 <= j < t.len() && view_seq(t[j]) == k;
                assert(f[j] == t[j]);
            }
        }
    } else {
        assert forall|k: u64| has_seq(insert_all(s, f), k) <==> (has_seq(s, k) || has_seq(f, k)) by {}
    }
}

/// A write keeps a run's sequence numbers distinct when they were distinct
/// before and distinct among the batch's events of that run.
pub proof fn law_write_keeps_seqs_distinct(
    log: Map<Seq<char>, Seq<EventView>>,
    batch: Seq<EventView>,
    r: Seq<char>,
)
    requires
        written(log, batch).contains_key(r),
        log.contains_key(r) ==> seqs_distinct(log[r]),
        seqs_distinct(events_for(batch, r)),
    ensures
        seqs_distinct(written(log, batch)[r]),
{
    lemma_written_at(log, batch, r);
    if mentions_run(batch, r) {
        let e = if log.contains_key(r) {
            log[r]
        } else {
            Seq::<EventView>::empty()
        };
        let f = events_for(batch, r);
        lemma_fresh_distinct(f, e);
        lemma_insert_all_distinct(e, fresh_events(f, e));
    }
}

// ---------------------------------------------------------------------------
// A node's attempts, one per attempt number and fan-out index
// ---------------------------------------------------------------------------

/// The key of an attempt: its number and its fan-out index.
pub open spec fn attempt_key(a: AttemptModel) -> (u32, Option<u32>) {
    (a.attempt, a.fan_out_index)
}

/// The order of attempt keys: by attempt number, then by fan-out index,
/// no index before any index.
pub open spec fn key_lt(a: (u32, Option<u32>), b: (u32, Option<u32>)) -> bool {
    a.0 < b.0 || (a.0 == b.0 && match (a.1, b.1) {
        (None, Some(_)) => true,
        (Some(x), Some(y)) => x < y,
        _ => false,
    })
}

/// Whether some attempt of `s` has key `k`.
pub open spec fn has_key(s: Seq<AttemptModel>, k: (u32, Option<u32>)) -> bool {
    exists|i: int| 0 <= i < s.len() && attempt_key(s[i]) == k
}

/// `s` with `a` placed after every attempt whose key is not greater.
pub open spec fn insert_attempt(s: Seq<AttemptModel>, a: AttemptModel) -> Seq<AttemptModel>
    decreases s.len(),
{
    if s.len() == 0 || !key_lt(attempt_key(a), attempt_key(s.last())) {
        s.push(a)
    } else {
        insert_attempt(s.drop_last(), a).push(s.last())
    }
}

/// `a` finished with `outputs` after `duration_ms` when it has fan-out index
/// `fan`; `a` unchanged otherwise.
pub open spec fn completed_if(
    a: AttemptModel,
    fan: Option<u32>,
    outputs: crate::json::JsonView,
    duration_ms: u64,
) -> AttemptModel {
    if a.fan_out_index == fan {
        AttemptModel { outputs: Some(outputs), duration_ms: Some(duration_ms), ..a }
    } else {
        a
    }
}

/// `a` with error `error` when its key is `k`; `a` unchanged otherwise.
pub open spec fn failed_if(a: AttemptModel, k: (u32, Option<u32>), error: Seq<char>) -> AttemptModel {
    if attempt_key(a) == k {
        AttemptModel { error: Some(error), ..a }
    } else {
        a
    }
}

/// The attempts of node `node_id` after the first `k` events, one per key,
/// in key order. A start adds an attempt unless its key is there already; a
/// completion finishes every attempt with its fan-out index; a failure
/// records its error on the attempt of its number with no fan-out index.
pub open spec fn keyed_upto(events: Seq<WriteEvent>, node_id: Seq<char>, k: int) -> Seq<AttemptModel>
    decreases k,
{
    if k <= 0 {
        Seq::empty()
    } else {
        let prev = keyed_upto(events, node_id, k - 1);
        match events[k - 1] {
            WriteEvent::NodeStarted { node_id: nid, inputs, fan_out_index, attempt, .. } => if nid@
                == node_id && !has_key(prev, (attempt, fan_out_index)) {
                insert_attempt(
                    prev,
                    AttemptModel {
                        attempt,
                        fan_out_index,
                        inputs: inputs@,
                        outputs: None,
                        error: None,
                        duration_ms: None,
                    },
                )
            } else {
                prev
            },
            WriteEvent::NodeCompleted { node_id: nid, outputs, fan_out_index, duration_ms, .. } =>
                if nid@ == node_id {
                prev.map_values(|a: AttemptModel| completed_if(a, fan_out_index, outputs@, duration_ms))
            } else {
                prev
            },
            WriteEvent::NodeFailed { node_id: nid, error, attempt, .. } => if nid@ == node_id {
                prev.map_values(|a: AttemptModel| failed_if(a, (attempt, None), error@))
            } else {
                prev
            },
            _ => prev,
        }
    }
}

/// Whether the keys of `s` strictly increase.
pub open spec fn keys_sorted(s: Seq<AttemptModel>) -> bool {
    forall|i: int, j: int| 0 <= i < j < s.len() ==> key_lt(attempt_key(s[i]), attempt_key(s[j]))
}

proof fn lemma_insert_attempt_at(s: Seq<AttemptModel>, a: AttemptModel, p: int)
    requires
        0 <= p <= s.len(),
        forall|i: int| p <= i < s.len() ==> key_lt(attempt_key(a), attempt_key(#[trigger] s[i])),
        p == 0 || !key_lt(attempt_key(a), attempt_key(s[p - 1])),
    ensures
        insert_attempt(s, a) == s.insert(p, a),
    decreases s.len(),
{
    if p == s.len() {
        assert(s.insert(p, a) =~= s.push(a));
    } else {
        let t = s.drop_last();
        lemma_insert_attempt_at(t, a, p);
        assert(s.insert(p, a) =~= t.insert(p, a).push(s.last()));
    }
}

proof fn lemma_insert_attempt_sorted(s: Seq<AttemptModel>, a: AttemptModel)
    requires
        keys_sorted(s),
        !has_key(s, attempt_key(a)),
    ensures
        keys_sorted(insert_attempt(s, a)),
        forall|k: (u32, Option<u32>)| has_key(insert_attempt(s, a), k) <==> (has_key(s, k) || k
            == attempt_key(a)),
    decreases s.len(),
{
    let r = insert_attempt(s, a);
    if s.len() == 0 || !key_lt(attempt_key(a), attempt_key(s.last())) {
        if s.len() > 0 {
            assert(attempt_key(s.last()) != attempt_key(a)) by {
                assert(attempt_key(s[s.len() - 1]) == attempt_key(s.last()));
            }
        }
        assert forall|i: int, j: int| 0 <= i < j < r.len() implies key_lt(
            attempt_key(r[i]),
            attempt_key(r[j]),
        ) by {
            if j == s.len() {
                assert(r[i] == s[i]);
                if i < s.len() - 1 {
                    assert(key_lt(attempt_key(s[i]), attempt_key(s[s.len() - 1])));
                }
            } else {
                assert(r[i] == s[i]);
                assert(r[j] == s[j]);
            }
        }
        assert forall|k: (u32, Option<u32>)| has_key(r, k) <==> (has_key(s, k) || k == attempt_key(a)) by {
            if has_key(r, k) {
                let i = choose|i: int| 0 <= i < r.len() && attempt_key(r[i]) == k;
                if i < s.len() {
                    assert(r[i] == s[i]);
                }
            }
            if has_key(s, k) {
                let i = choose|i: int| 0 <= i < s.len() && attempt_key(s[i]) == k;
                assert(r[i] == s[i]);
            }
            if k == attempt_key(a) {
                assert(r[s.len() as int] == a);
            }
        }
    } else {
        let t = s.drop_last();
        assert(keys_sorted(t));
        assert(!has_key(t, attempt_key(a))) by {
            if has_key(t, attempt_key(a)) {
                let i = choose|i: int| 0 <= i < t.len() && attempt_key(t[i]) == attempt_key(a);
                assert(s[i] == t[i]);
            }
        }
        lemma_insert_attempt_sorted(t, a);
        let q = insert_attempt(t, a);
        assert(r == q.push(s.last()));
        assert forall|k: (u32, Option<u32>)| has_key(r, k) <==> (has_key(s, k) || k == attempt_key(a)) by {
            if has_key(r, k) {
                let i = choose|i: int| 0 <= i < r.len() && attempt_key(r[i]) == k;
                if i < q.len() {
                    assert(r[i] == q[i]);
                    assert(has_key(q, k));
                    if has_key(t, k) {
                        let j = choose|j: int| 0 <= j < t.len() && attempt_key(t[j]) == k;
                        assert(s[j] == t[j]);
                    }
                } else {
                    assert(s[s.len() - 1] == r[i]);
                }
            }
            if has_key(s, k) {
                let i = choose|i: int| 0 <= i < s.len() && attempt_key(s[i]) == k;
                if i < t.len() {
                    assert(t[i] == s[i]);
                    assert(attempt_key(t[i]) == k);
                    assert(has_key(t, k));
                    assert(has_key(q, k));
                    let j = choose|j: int| 0 <= j < q.len() && attempt_key(q[j]) == k;
                    assert(r[j] == q[j]);
                } else {
                    assert(r[q.len() as int] == s[i]);
                }
            }
            if k == attempt_key(a) {
                assert(has_key(q, k));
                let j = choose|j: int| 0 <= j < q.len() && attempt_key(q[j]) == k;
                assert(r[j] == q[j]);
            }
        }
        assert forall|i: int, j: int| 0 <= i < j < r.len() implies key_lt(
            attempt_key(r[i]),
            attempt_key(r[j]),
        ) by {
            if j == r.len() - 1 {
                assert(r[i] == q[i]);
                assert(has_key(q, attempt_key(q[i])));
                if attempt_key(q[i]) == attempt_key(a) {
                } else {
                    assert(has_key(t, attempt_key(q[i])));
                    let m = choose|m: int| 0 <= m < t.len() && attempt_key(t[m]) == attempt_key(q[i]);
                    assert(s[m] == t[m]);
                    assert(key_lt(attempt_key(s[m]), attempt_key(s[s.len() - 1])));
                }
            } else {
                assert(r[i] == q[i]);
                assert(r[j] == q[j]);
            }
        }
    }
}

proof fn lemma_keyed_sorted(events: Seq<WriteEvent>, node_id: Seq<char>, k: int)
    ensures
        keys_sorted(keyed_upto(events, node_id, k)),
    decreases k,
{
    if k > 0 {
        lemma_keyed_sorted(events, node_id, k - 1);
        let prev = keyed_upto(events, node_id, k - 1);
        let cur = keyed_upto(events, node_id, k);
        match events[k - 1] {
            WriteEvent::NodeStarted { node_id: nid, inputs, fan_out_index, attempt, .. } => {
                if nid@ == node_id && !has_key(prev, (attempt, fan_out_index)) {
                    lemma_insert_attempt_sorted(
                        prev,
                        AttemptModel {
                            attempt,
                            fan_out_index,
                            inputs: inputs@,
                            outputs: None,
                            error: None,
                            duration_ms: None,
                        },
                    );
                }
            },
            WriteEvent::NodeCompleted { node_id: nid, .. } => {
                if nid@ == node_id {
                    assert forall|i: int, j: int| 0 <= i < j < cur.len() implies key_lt(
                        attempt_key(cur[i]),
                        attempt_key(cur[j]),
                    ) by {
                        assert(attempt_key(cur[i]) == attempt_key(prev[i]));
                        assert(attempt_key(cur[j]) == attempt_key(prev[j]));
                    }
                }
            },
            WriteEvent::NodeFailed { node_id: nid, .. } => {
                if nid@ == node_id {
                    assert forall|i: int, j: int| 0 <= i < j < cur.len() implies key_lt(
                        attempt_key(cur[i]),
                        attempt_key(cur[j]),
                    ) by {
                        assert(attempt_key(cur[i]) == attempt_key(prev[i]));
                        assert(attempt_key(cur[j]) == attempt_key(prev[j]));
                    }
                }
            },
            _ => {},
        }
    }
}

fn key_less(a: u32, fa: Option<u32>, b: u32, fb: Option<u32>) -> (r: bool)
    ensures
        r == key_lt((a, fa), (b, fb)),
{
    if a < b {
        true
    } else if a > b {
        false
    } else {
        match (fa, fb) {
            (None, Some(_)) => true,
            (Some(x), Some(y)) => x < y,
            _ => false,
        }
    }
}

fn copy_opt_string(o: &Option<String>) -> (r: Option<String>)
    ensures
        opt_text(r) == opt_text(*o),
{
    match o {
        Some(s) => Some(s.clone()),
        None => None,
    }
}

fn copy_opt_value(o: &Option<JsonValue>) -> (r: Option<JsonValue>)
    ensures
        opt_json(r) == opt_json(*o),
{
    match o {
        Some(v) => Some(v.duplicate()),
        None => None,
    }
}

/// The attempts of node `node_id` among `events`, one per key, in key order
/// (see `keyed_upto`).
pub fn keyed_attempts(events: &Vec<WriteEvent>, node_id: &str) -> (r: Vec<NodeAttemptDetail>)
    ensures
        attempts_model(r@) == keyed_upto(events@, node_id@, events@.len() as int),
        keys_sorted(attempts_model(r@)),
{
    let mut atts: Vec<NodeAttemptDetail> = Vec::new();
    let mut i: usize = 0;
    while i < events.len()
        invariant
            i <= events@.len(),
            attempts_model(atts@) == keyed_upto(events@, node_id@, i as int),
        decreases events.len() - i,
    {
        let ghost prev = attempts_model(atts@);
        match &events[i] {
            WriteEvent::NodeStarted { node_id: nid, inputs, fan_out_index, attempt, .. } => {
                if str_eq(nid.as_str(), node_id) {
                    let mut present = false;
                    let mut j: usize = 0;
                    while j < atts.len()
                        invariant
                            j <= atts@.len(),
                            prev == attempts_model(atts@),
                            present <==> exists|x: int|
                                0 <= x < j && attempt_key(prev[x]) == (*attempt, *fan_out_index),
                        decreases atts.len() - j,
                    {
                        if atts[j].attempt == *attempt && atts[j].fan_out_index == *fan_out_index {
                            assert(attempt_key(prev[j as int]) == (*attempt, *fan_out_index));
                            present = true;
                        }
                        j += 1;
                    }
                    if !present {
                        let ghost a = AttemptModel {
                            attempt: *attempt,
                            fan_out_index: *fan_out_index,
                            inputs: inputs@,
                            outputs: None,
                            error: None,
                            duration_ms: None,
                        };
                        let mut p: usize = atts.len();
                        while p > 0 && key_less(
                            *attempt,
                            *fan_out_index,
                            atts[p - 1].attempt,
                            atts[p - 1].fan_out_index,
                        )
                            invariant
                                p <= atts@.len(),
                                prev == attempts_model(atts@),
                                a.attempt == *attempt && a.fan_out_index == *fan_out_index,
                                forall|x: int|
                                    p <= x < prev.len() ==> key_lt(
                                        attempt_key(a),
                                        attempt_key(#[trigger] prev[x]),
                                    ),
                            decreases p,
                        {
                            assert(attempt_key(prev[p - 1]) == (atts@[p - 1].attempt, atts@[p
                                - 1].fan_out_index));
                            p -= 1;
                        }
                        proof {
                            if p > 0 {
                                assert(attempt_key(prev[p - 1]) == (atts@[p - 1].attempt, atts@[p
                                    - 1].fan_out_index));
                            }
                            lemma_insert_attempt_at(prev, a, p as int);
                        }
                        atts.insert(
                            p,
                            NodeAttemptDetail {
                                attempt: *attempt,
                                fan_out_index: *fan_out_index,
                                inputs: inputs.duplicate(),
                                outputs: None,
                                error: None,
                                duration_ms: None,
                            },
                        );
                        assert(attempts_model(atts@) =~= prev.insert(p as int, a));
                    }
                }
            },
            WriteEvent::NodeCompleted { node_id: nid, outputs, fan_out_index, duration_ms, .. } => {
                if str_eq(nid.as_str(), node_id) {
                    let ghost target = prev.map_values(
                        |a: AttemptModel| completed_if(a, *fan_out_index, outputs@, *duration_ms),
                    );
                    let mut j: usize = 0;
                    while j < atts.len()
                        invariant
                            j <= atts@.len(),
                            atts@.len() == prev.len(),
                            target.len() == prev.len(),
                            forall|x: int|
                                0 <= x < prev.len() ==> #[trigger] target[x] == completed_if(prev[x], *fan_out_index, outputs@, *duration_ms),
                            forall|x: int|
                                0 <= x < j ==> attempt_model(#[trigger] atts@[x]) == target[x],
                            forall|x: int|
                                j <= x < atts@.len() ==> attempt_model(#[trigger] atts@[x])
                                    == prev[x],
                        decreases atts.len() - j,
                    {
                        if atts[j].fan_out_index == *fan_out_index {
                            let d = NodeAttemptDetail {
                                attempt: atts[j].attempt,
                                fan_out_index: atts[j].fan_out_index,
                                inputs: atts[j].inputs.duplicate(),
                                outputs: Some(outputs.duplicate()),
                                error: copy_opt_string(&atts[j].error),
                                duration_ms: Some(*duration_ms),
                            };
                            atts.set(j, d);
                        }
                        j += 1;
                    }
                    assert(attempts_model(atts@) =~= target);
                }
            },
            WriteEvent::NodeFailed { node_id: nid, error, attempt, .. } => {
                if str_eq(nid.as_str(), node_id) {
                    let ghost target = prev.map_values(
                        |a: AttemptModel| failed_if(a, (*attempt, None), error@),
                    );
                    let mut j: usize = 0;
                    while j < atts.len()
                        invariant
                            j <= atts@.len(),
                            atts@.len() == prev.len(),
                            target.len() == prev.len(),
                            forall|x: int|
                                0 <= x < prev.len() ==> #[trigger] target[x] == failed_if(prev[x], (*attempt, None), error@),
                            forall|x: int|
                                0 <= x < j ==> attempt_model(#[trigger] atts@[x]) == target[x],
                            forall|x: int|
                                j <= x < atts@.len() ==> attempt_model(#[trigger] atts@[x])
                                    == prev[x],
                        decreases atts.len() - j,
                    {
                        if atts[j].attempt == *attempt && atts[j].fan_out_index.is_none() {
                            let d = NodeAttemptDetail {
                                attempt: atts[j].attempt,
                                fan_out_index: atts[j].fan_out_index,
                                inputs: atts[j].inputs.duplicate(),
                                outputs: copy_opt_value(&atts[j].outputs),
                                error: Some(error.clone()),
                                duration_ms: atts[j].duration_ms,
                            };
                            atts.set(j, d);
                        }
                        j += 1;
                    }
                    assert(attempts_model(atts@) =~= target);
                }
            },
            _ => {},
        }
        i += 1;
    }
    proof {
        lemma_keyed_sorted(events@, node_id@, events@.len() as int);
    }
    atts
}

impl InMemoryRunStore {
    /// Every attempt of node `node_id` in run `run_id`, one per attempt
    /// number and fan-out index, ordered by them (see `keyed_upto`); `None`
    /// when the node never started or the store does not hold the run.
    pub fn get_node_detail(&self, run_id: &str, node_id: &str) -> (r: Option<NodeRunDetail>)
        requires
            self.wf(),
        ensures
            match r {
                None => keyed_upto(
                    self.stored_events(run_id@),
                    node_id@,
                    self.stored_events(run_id@).len() as int,
                ).len() == 0,
                Some(d) => d.node_id@ == node_id@ && d.attempts@.len() > 0 && attempts_model(
                    d.attempts@,
                ) == keyed_upto(
                    self.stored_events(run_id@),
                    node_id@,
                    self.stored_events(run_id@).len() as int,
                ) && keys_sorted(attempts_model(d.attempts@)),
            },
    {
        match self.find(run_id) {
            None => None,
            Some(i) => {
                let atts = keyed_attempts(&self.runs[i].events, node_id);
                if atts.len() == 0 {
                    None
                } else {
                    Some(NodeRunDetail { node_id: node_id.to_string(), attempts: atts })
                }
            },
        }
    }
}

// ---------------------------------------------------------------------------
// Pieces of a file-backed store: ordering what was read, selecting runs
// ---------------------------------------------------------------------------

/// `events` in sequence order; events of equal number keep their order.
pub fn sort_by_seq(events: Vec<WriteEvent>) -> (r: Vec<WriteEvent>)
    ensures
        events_view(r@) == insert_all(Seq::empty(), events_view(events@)),
        sorted_by_seq(events_view(r@)),
        events_view(r@).len() == events@.len(),
        forall|x: EventView| #[trigger]
            events_view(r@).contains(x) <==> events_view(events@).contains(x),
{
    let ghost all = events_view(events@);
    let mut rest = events;
    let mut out: Vec<WriteEvent> = Vec::new();
    let ghost mut k: int = 0;
    while rest.len() > 0
        invariant
            0 <= k <= all.len(),
            events_view(rest@) == all.skip(k),
            events_view(out@) == insert_all(Seq::empty(), all.take(k)),
        decreases rest.len(),
    {
        let ghost before = rest@;
        assert(events_view(before)[0] == before[0]@);
        assert(all.skip(k).len() == before.len());
        let e = rest.remove(0);
        assert(all.skip(k)[0] == e@);
        assert(all.take(k + 1).drop_last() =~= all.take(k));
        assert(all.take(k + 1).last() == e@);
        insert_sorted(&mut out, e);
        assert forall|i: int| 0 <= i < rest@.len() implies #[trigger] events_view(rest@)[i] == all.skip(
            k + 1,
        )[i] by {
            assert(rest@[i] == before[i + 1]);
            assert(events_view(before)[i + 1] == before[i + 1]@);
        }
        assert(events_view(rest@) =~= all.skip(k + 1));
        proof {
            k = k + 1;
        }
    }
    assert(all.skip(k).len() == 0);
    assert(all.take(k) =~= all);
    proof {
        lemma_insert_all(Seq::empty(), all);
        assert forall|x: EventView| #[trigger] Seq::<EventView>::empty().contains(x) == false by {}
    }
    out
}

/// The runs of `s` that pass all four parts of a filter, in order.
pub open spec fn matching_all(
    s: Seq<RunModel>,
    flow_id: Option<Seq<char>>,
    status: Option<RunStatus>,
    version_id: Option<Seq<char>>,
    parent_run_id: Option<Seq<char>>,
) -> Seq<RunModel>
    decreases s.len(),
{
    if s.len() == 0 {
        Seq::empty()
    } else {
        let p = matching_all(s.drop_last(), flow_id, status, version_id, parent_run_id);
        if admits_all(s.last(), flow_id, status, version_id, parent_run_id) {
            p.push(s.last())
        } else {
            p
        }
    }
}

impl RunFilter {
    /// Whether `rec` passes all four parts of the filter: flow, status,
    /// version and parent run.
    pub fn admits(&self, rec: &RunRecord) -> (r: bool)
        ensures
            r == admits_all(
                run_model(*rec),
                opt_text(self.flow_id),
                self.status,
                opt_text(self.version_id),
                opt_text(self.parent_run_id),
            ),
    {
        let flow_ok = match &self.flow_id {
            Some(f) => str_eq(rec.flow_id.as_str(), f.as_str()),
            None => true,
        };
        let status_ok = match self.status {
            Some(st) => rec.status == st,
            None => true,
        };
        let version_ok = match &self.version_id {
            Some(v) => str_eq(rec.version_id.as_str(), v.as_str()),
            None => true,
        };
        let parent_ok = match &self.parent_run_id {
            Some(p) => match &rec.parent_run_id {
                Some(q) => str_eq(q.as_str(), p.as_str()),
                None => false,
            },
            None => true,
        };
        flow_ok && status_ok && version_ok && parent_ok
    }
}

/// The records of `records` that pass all four parts of `filter`, in
/// order, paged by its offset and limit; `total` counts every match.
pub fn select_runs(records: Vec<RunRecord>, filter: &RunFilter) -> (r: RunPage)
    ensures
        ({
            let matching = matching_all(
                run_models(records@),
                opt_text(filter.flow_id),
                filter.status,
                opt_text(filter.version_id),
                opt_text(filter.parent_run_id),
            );
            &&& r.total == matching.len()
            &&& run_models(r.runs@) == page_of(
                matching,
                (match filter.offset {
                    Some(o) => o as nat,
                    None => 0,
                }),
                filter.limit,
            )
        }),
{
    let ghost all = run_models(records@);
    let count = records.len();
    let ghost n = records@.len();
    let offset: usize = match filter.offset {
        Some(o) => o,
        None => 0,
    };
    let mut rest = records;
    let mut page: Vec<RunRecord> = Vec::new();
    let mut total: usize = 0;
    let ghost mut k: int = 0;
    while rest.len() > 0
        invariant
            0 <= k <= n,
            n == count,
            all.len() == n,
            run_models(rest@) == all.skip(k),
            rest@.len() == n - k,
            total <= k,
            total == matching_all(
                all.take(k),
                opt_text(filter.flow_id),
                filter.status,
                opt_text(filter.version_id),
                opt_text(filter.parent_run_id),
            ).len(),
            run_models(page@) == page_of(
                matching_all(
                    all.take(k),
                    opt_text(filter.flow_id),
                    filter.status,
                    opt_text(filter.version_id),
                    opt_text(filter.parent_run_id),
                ),
                offset as nat,
                filter.limit,
            ),
        decreases rest.len(),
    {
        let ghost before = rest@;
        assert(run_models(before)[0] == run_model(before[0]));
        assert(all.skip(k).len() == before.len());
        let rec = rest.remove(0);
        let ghost m = run_model(rec);
        assert(all.skip(k)[0] == m);
        assert(all.take(k + 1).drop_last() =~= all.take(k));
        assert(all.take(k + 1).last() == m);
        assert forall|i: int| 0 <= i < rest@.len() implies #[trigger] run_models(rest@)[i] == all.skip(
            k + 1,
        )[i] by {
            assert(rest@[i] == before[i + 1]);
            assert(run_models(before)[i + 1] == run_model(before[i + 1]));
        }
        assert(run_models(rest@) =~= all.skip(k + 1));
        if filter.admits(&rec) {
            let ghost matched = matching_all(
                all.take(k),
                opt_text(filter.flow_id),
                filter.status,
                opt_text(filter.version_id),
                opt_text(filter.parent_run_id),
            );
            proof {
                lemma_page_push(matched, m, offset as nat, filter.limit);
            }
            let in_page = total >= offset && match filter.limit {
                Some(l) => total - offset < l,
                None => true,
            };
            let ghost before = page@;
            if in_page {
                page.push(rec);
                assert(run_models(page@) =~= run_models(before).push(m));
            }
            total += 1;
        }
        proof {
            k = k + 1;
        }
    }
    assert(all.take(k) =~= all);
    RunPage { runs: page, total }
}

/// How many runs of `s` belong to flow `flow` at version `v`.
pub open spec fn version_count(s: Seq<RunModel>, flow: Seq<char>, v: Seq<char>) -> nat
    decreases s.len(),
{
    if s.len() == 0 {
        0
    } else {
        version_count(s.drop_last(), flow, v) + if s.last().flow_id == flow && s.last().version_id
            == v {
            1nat
        } else {
            0nat
        }
    }
}

proof fn lemma_version_count_bound(s: Seq<RunModel>, flow: Seq<char>, v: Seq<char>)
    ensures
        version_count(s, flow, v) <= s.len(),
    decreases s.len(),
{
    if s.len() > 0 {
        lemma_version_count_bound(s.drop_last(), flow, v);
    }
}

/// The number of runs of flow `flow_id` per version, one entry per version
/// that has any, in version order.
pub fn count_runs_by_version(records: &Vec<RunRecord>, flow_id: &str) -> (r: Vec<(String, usize)>)
    ensures
        forall|i: int, j: int| 0 <= i < j < r@.len() ==> text_lt(r@[i].0@, r@[j].0@),
        forall|i: int|
            0 <= i < r@.len() ==> #[trigger] r@[i].1 == version_count(
                run_models(records@),
                flow_id@,
                r@[i].0@,
            ) && r@[i].1 > 0,
        forall|v: Seq<char>|
            version_count(run_models(records@), flow_id@, v) > 0 ==> exists|i: int|
                0 <= i < r@.len() && #[trigger] r@[i].0@ == v,
{
    let ghost all = run_models(records@);
    let mut out: Vec<(String, usize)> = Vec::new();
    let mut k: usize = 0;
    while k < records.len()
        invariant
            k <= records@.len(),
            all == run_models(records@),
            forall|i: int, j: int| 0 <= i < j < out@.len() ==> text_lt(out@[i].0@, out@[j].0@),
            forall|i: int|
                0 <= i < out@.len() ==> #[trigger] out@[i].1 == version_count(
                    all.take(k as int),
                    flow_id@,
                    out@[i].0@,
                ) && out@[i].1 > 0,
            forall|v: Seq<char>|
                version_count(all.take(k as int), flow_id@, v) > 0 ==> exists|i: int|
                    0 <= i < out@.len() && #[trigger] out@[i].0@ == v,
        decreases records.len() - k,
    {
        let rec = &records[k];
        let ghost t0 = all.take(k as int);
        let ghost t1 = all.take(k + 1);
        assert(t1.drop_last() =~= t0);
        assert(t1.last() == run_model(*rec));
        let ghost before = out@;
        if str_eq(rec.flow_id.as_str(), flow_id) {
            let v = rec.version_id.as_str();
            proof {
                lemma_version_count_bound(t0, flow_id@, v@);
            }
            let mut p: usize = 0;
            while p < out.len() && text_less(out[p].0.as_str(), v)
                invariant
                    p <= out@.len(),
                    out@ == before,
                    forall|j: int| 0 <= j < p ==> text_lt(#[trigger] out@[j].0@, v@),
                decreases out.len() - p,
            {
                p += 1;
            }
            if p < out.len() && str_eq(out[p].0.as_str(), v) {
                assert(out@[p as int].1 == version_count(t0, flow_id@, v@));
                assert(out@[p as int].1 < records@.len());
                let (name, n) = out.remove(p);
                out.insert(p, (name, n + 1));
                proof {
                    assert forall|i: int| 0 <= i < out@.len() implies #[trigger] out@[i].1
                        == version_count(t1, flow_id@, out@[i].0@) && out@[i].1 > 0 by {
                        if i != p {
                            assert(out@[i] == before[i]);
                            assert(before[i].0@ != v@) by {
                                if i < p {
                                    assert(text_lt(before[i].0@, before[p as int].0@));
                                } else {
                                    assert(text_lt(before[p as int].0@, before[i].0@));
                                }
                                lemma_text_lt_irreflexive(v@);
                            }
                        }
                    }
                    assert forall|i: int, j: int| 0 <= i < j < out@.len() implies text_lt(
                        out@[i].0@,
                        out@[j].0@,
                    ) by {
                        assert(out@[i].0@ == before[i].0@);
                        assert(out@[j].0@ == before[j].0@);
                    }
                    assert forall|w: Seq<char>| version_count(t1, flow_id@, w) > 0 implies exists|i: int|
                        0 <= i < out@.len() && #[trigger] out@[i].0@ == w by {
                        if w == v@ {
                            assert(out@[p as int].0@ == w);
                        } else {
                            assert(version_count(t0, flow_id@, w) > 0);
                            let i = choose|i: int| 0 <= i < before.len() && #[trigger] before[i].0@ == w;
                            assert(out@[i].0@ == before[i].0@);
                        }
                    }
                }
            } else {
                proof {
                    assert(version_count(t0, flow_id@, v@) == 0) by {
                        if version_count(t0, flow_id@, v@) > 0 {
                            let i = choose|i: int| 0 <= i < before.len() && #[trigger] before[i].0@ == v@;
                            if i < p {
                                assert(text_lt(before[i].0@, v@));
                            } else if i == p {
                            } else {
                                assert(text_lt(before[p as int].0@, before[i].0@));
                                lemma_text_lt_total(before[p as int].0@, v@);
                                lemma_text_lt_transitive(v@, before[p as int].0@, before[i].0@);
                            }
                            lemma_text_lt_irreflexive(v@);
                        }
                    }
                    if p < before.len() {
                        lemma_text_lt_total(before[p as int].0@, v@);
                    }
                }
                out.insert(p, (rec.version_id.clone(), 1));
                proof {
                    assert forall|i: int| 0 <= i < out@.len() implies #[trigger] out@[i].1
                        == version_count(t1, flow_id@, out@[i].0@) && out@[i].1 > 0 by {
                        if i < p {
                            assert(out@[i] == before[i]);
                        } else if i > p {
                            assert(out@[i] == before[i - 1]);
                            assert(text_lt(before[p as int].0@, before[i - 1].0@) || i - 1 == p);
                            assert(before[i - 1].0@ != v@) by {
                                if p < before.len() {
                                    assert(text_lt(v@, before[p as int].0@));
                                    if i - 1 > p {
                                        lemma_text_lt_transitive(v@, before[p as int].0@, before[i - 1].0@);
                                    }
                                }
                                lemma_text_lt_irreflexive(v@);
                            }
                        }
                    }
                    assert forall|i: int, j: int| 0 <= i < j < out@.len() implies text_lt(
                        out@[i].0@,
                        out@[j].0@,
                    ) by {
                        if j < p {
                            assert(out@[i] == before[i]);
                            assert(out@[j] == before[j]);
                        } else if j == p {
                            assert(out@[i] == before[i]);
                        } else if i < p {
                            assert(out@[i] == before[i]);
                            assert(out@[j] == before[j - 1]);
                            assert(text_lt(v@, before[p as int].0@));
                            if j - 1 > p {
                                lemma_text_lt_transitive(v@, before[p as int].0@, before[j - 1].0@);
                            }
                            lemma_text_lt_transitive(before[i].0@, v@, before[j - 1].0@);
                        } else if i == p {
                            assert(out@[j] == before[j - 1]);
                            assert(text_lt(v@, before[p as int].0@));
                            if j - 1 > p {
                                lemma_text_lt_transitive(v@, before[p as int].0@, before[j - 1].0@);
                            }
                        } else {
                            assert(out@[i] == before[i - 1]);
                            assert(out@[j] == before[j - 1]);
                        }
                    }
                    assert forall|w: Seq<char>| version_count(t1, flow_id@, w) > 0 implies exists|i: int|
                        0 <= i < out@.len() && #[trigger] out@[i].0@ == w by {
                        if w == v@ {
                            assert(out@[p as int].0@ == w);
                        } else {
                            assert(version_count(t0, flow_id@, w) > 0);
                            let i = choose|i: int| 0 <= i < before.len() && #[trigger] before[i].0@ == w;
                            if i < p {
                                assert(out@[i] == before[i]);
                            } else {
                                assert(out@[i + 1] == before[i]);
                            }
                        }
                    }
                }
            }
        } else {
            proof {
                assert forall|i: int| 0 <= i < out@.len() implies #[trigger] out@[i].1 == version_count(
                    t1,
                    flow_id@,
                    out@[i].0@,
                ) && out@[i].1 > 0 by {}
                assert forall|w: Seq<char>| version_count(t1, flow_id@, w) > 0 implies exists|i: int|
                    0 <= i < out@.len() && #[trigger] out@[i].0@ == w by {
                    assert(version_count(t0, flow_id@, w) > 0);
                }
            }
        }
        k += 1;
    }
    assert(all.take(records@.len() as int) =~= all);
    out
}

/// The invocations of `all` made by node `node_id`, in order.
pub fn invocations_for_node(all: &Vec<LlmInvocationRecord>, node_id: &str) -> (r: Vec<
    LlmInvocationRecord,
>)
    ensures
        r@.map_values(|c: LlmInvocationRecord| invocation_view(c)) == invocations_of_node(
            all@.map_values(|c: LlmInvocationRecord| invocation_view(c)),
            node_id@,
        ),
{
    let ghost full = all@.map_values(|c: LlmInvocationRecord| invocation_view(c));
    let mut out: Vec<LlmInvocationRecord> = Vec::new();
    let mut i: usize = 0;
    while i < all.len()
        invariant
            i <= all@.len(),
            full == all@.map_values(|c: LlmInvocationRecord| invocation_view(c)),
            out@.map_values(|c: LlmInvocationRecord| invocation_view(c)) == invocations_of_node(
                full.take(i as int),
                node_id@,
            ),
        decreases all.len() - i,
    {
        let c = &all[i];
        let ghost before = out@;
        assert(full.take(i + 1).drop_last() =~= full.take(i as int));
        assert(full.take(i + 1).last() == invocation_view(all@[i as int]));
        if str_eq(c.node_id.as_str(), node_id) {
            out.push(
                LlmInvocationRecord {
                    run_id: c.run_id.clone(),
                    node_id: c.node_id.clone(),
                    request: c.request.duplicate(),
                    response: c.response.duplicate(),
                    timestamp: c.timestamp,
                },
            );
            assert(out@.map_values(|c: LlmInvocationRecord| invocation_view(c)) =~= before.map_values(
                |c: LlmInvocationRecord| invocation_view(c),
            ).push(invocation_view(all@[i as int])));
        }
        i += 1;
    }
    assert(full.take(all@.len() as int) =~= full);
    out
}

proof fn lemma_fresh_events_covered(b: Seq<EventView>, stored: Seq<EventView>, k: u64)
    requires
        has_seq(b, k),
    ensures
        has_seq(stored + fresh_events(b, stored), k),
    decreases b.len(),
{
    let f = fresh_events(b, stored);
    if has_seq(stored, k) {
        let i = choose|i: int| 0 <= i < stored.len() && view_seq(stored[i]) == k;
        assert((stored + f)[i] == stored[i]);
    } else {
        let j = choose|j: int| 0 <= j < b.len() && view_seq(b[j]) == k;
        let rest = b.drop_last();
        let f0 = fresh_events(rest, stored);
        if j < b.len() - 1 {
            assert(rest[j] == b[j]);
            lemma_fresh_events_covered(rest, stored, k);
            let i = choose|i: int| 0 <= i < (stored + f0).len() && view_seq((stored + f0)[i]) == k;
            if i < stored.len() {
                assert((stored + f)[i] == stored[i]);
            } else {
                assert(f0 == f.take(f0.len() as int) || f == f0) by {
                    if !has_seq(stored, view_seq(b.last())) {
                        assert(f == f0.push(b.last()));
                        assert(f.take(f0.len() as int) =~= f0);
                    }
                }
                assert(f[i - stored.len()] == f0[i - stored.len()]);
                assert((stored + f)[i] == f[i - stored.len()]);
            }
        } else {
            assert(f == f0.push(b.last()));
            assert((stored + f)[stored.len() + f0.len() as int] == b.last());
        }
    }
}

proof fn lemma_fresh_empty(b: Seq<EventView>, stored: Seq<EventView>)
    requires
        forall|i: int| 0 <= i < b.len() ==> has_seq(stored, view_seq(#[trigger] b[i])),
    ensures
        fresh_events(b, stored) == Seq::<EventView>::empty(),
    decreases b.len(),
{
    if b.len() > 0 {
        let rest = b.drop_last();
        assert forall|i: int| 0 <= i < rest.len() implies has_seq(stored, view_seq(#[trigger] rest[i])) by {
            assert(rest[i] == b[i]);
        }
        lemma_fresh_empty(rest, stored);
        assert(has_seq(stored, view_seq(b[b.len() - 1])));
    }
}

/// Appending what a write would append makes the same write append
/// nothing: writing a batch twice stores it once.
pub proof fn law_append_idempotent(batch: Seq<EventView>, stored: Seq<EventView>)
    ensures
        fresh_events(batch, stored + fresh_events(batch, stored)) == Seq::<EventView>::empty(),
{
    assert forall|i: int| 0 <= i < batch.len() implies has_seq(
        stored + fresh_events(batch, stored),
        view_seq(#[trigger] batch[i]),
    ) by {
        assert(has_seq(batch, view_seq(batch[i])));
        lemma_fresh_events_covered(batch, stored, view_seq(batch[i]));
    }
    lemma_fresh_empty(batch, stored + fresh_events(batch, stored));
}

} // verus!
