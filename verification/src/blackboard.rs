//! Namespaced shared memory for agents of one run.
//!
//! Keys are stored as `namespace:key` in the run's state, so agents can
//! share one state store without their keys colliding.
use vstd::prelude::*;
use vstd::string::*;
use crate::errors::{NodeError, StateError};
use crate::json::{JsonValue, JsonView, json_entries_view};
use crate::redactor::Sensitivity;
use crate::state::{StateStore, Scratch, state_get, state_set, scratch_at, values_of, pairs_values,
    opt_value};
use crate::text::{join2, join3};

verus! {

/// The semantic role of a node in a multi-agent graph.
#[derive(Debug, Clone, Copy, PartialEq, Eq, Structural)]
pub enum AgentRole {
    /// Delegates work to workers.
    Supervisor,
    /// Does a task for a supervisor.
    Worker,
}

/// A namespaced view of one run's state.
#[derive(Debug)]
pub struct Blackboard {
    pub run_id: String,
}

/// Whether `s` starts with `p`.
pub open spec fn starts_with(s: Seq<char>, p: Seq<char>) -> bool {
    p.len() <= s.len() && s.subrange(0, p.len() as int) == p
}

/// The entries of a state snapshot that belong to `namespace`, in order,
/// with the `namespace:` prefix taken off their keys.
pub open spec fn namespace_entries(snapshot: Seq<(Seq<char>, JsonView)>, namespace: Seq<char>) -> Seq<
    (Seq<char>, JsonView),
>
    decreases snapshot.len(),
{
    if snapshot.len() == 0 {
        Seq::empty()
    } else {
        let prev = namespace_entries(snapshot.drop_last(), namespace);
        let (k, v) = snapshot.last();
        let p = namespace + ":"@;
        if starts_with(k, p) {
            prev.push((k.subrange(p.len() as int, k.len() as int), v))
        } else {
            prev
        }
    }
}

fn starts_with_exec(s: &str, p: &str) -> (r: bool)
    ensures
        r == starts_with(s@, p@),
{
    let sc = crate::expression::chars_of(s);
    let pc = crate::expression::chars_of(p);
    if pc.len() > sc.len() {
        return false;
    }
    let mut i: usize = 0;
    while i < pc.len()
        invariant
            sc@ == s@,
            pc@ == p@,
            i <= pc@.len(),
            pc@.len() <= sc@.len(),
            forall|j: int| 0 <= j < i ==> sc@[j] == #[trigger] pc@[j],
        decreases pc.len() - i,
    {
        if sc[i] != pc[i] {
            assert(sc@.subrange(0, pc@.len() as int)[i as int] != pc@[i as int]);
            assert(sc@.subrange(0, pc@.len() as int) != pc@);
            return false;
        }
        i += 1;
    }
    assert(sc@.subrange(0, pc@.len() as int) =~= pc@);
    true
}

impl Blackboard {
    /// A blackboard over the state of run `run_id`.
    pub fn new(run_id: String) -> (r: Blackboard)
        ensures
            r.run_id@ == run_id@,
    {
        Blackboard { run_id }
    }

    /// The state key of `key` in `namespace`: `namespace:key`.
    pub fn full_key(&self, namespace: &str, key: &str) -> (r: String)
        ensures
            r@ == namespace@ + ":"@ + key@,
    {
        join3(namespace, ":", key)
    }

    /// The entries of a state snapshot in `namespace`, keys without the
    /// namespace prefix (see `namespace_entries`).
    pub fn namespace_entries(&self, snapshot: &Vec<(String, JsonValue)>, namespace: &str) -> (r: Vec<
        (String, JsonValue),
    >)
        ensures
            crate::json::json_entries_view(r@) == namespace_entries(
                crate::json::json_entries_view(snapshot@),
                namespace@,
            ),
    {
        let prefix = join2(namespace, ":");
        let ghost sv = crate::json::json_entries_view(snapshot@);
        proof {
            crate::json::lemma_json_entries_view(snapshot@);
        }
        let mut out: Vec<(String, JsonValue)> = Vec::new();
        let mut i: usize = 0;
        while i < snapshot.len()
            invariant
                i <= snapshot@.len(),
                sv == crate::json::json_entries_view(snapshot@),
                sv.len() == snapshot@.len(),
                forall|j: int| 0 <= j < sv.len() ==> #[trigger] sv[j] == (snapshot@[j].0@, snapshot@[j].1@),
                prefix@ == namespace@ + ":"@,
                crate::json::json_entries_view(out@) == namespace_entries(sv.take(i as int), namespace@),
            decreases snapshot.len() - i,
        {
            let (k, v) = &snapshot[i];
            let ghost before = out@;
            assert(sv.take(i + 1).drop_last() =~= sv.take(i as int));
            assert(sv.take(i + 1).last() == (k@, v@));
            if starts_with_exec(k.as_str(), prefix.as_str()) {
                let kc = crate::expression::chars_of(k.as_str());
                let pl = crate::expression::chars_of(prefix.as_str()).len();
                let rest = String::from_str(k.as_str().substring_char(pl, kc.len()));
                out.push((rest, v.duplicate()));
                proof {
                    crate::json::lemma_json_entries_view(out@);
                    crate::json::lemma_json_entries_view(before);
                    assert(crate::json::json_entries_view(out@) =~= crate::json::json_entries_view(
                        before,
                    ).push((k@.subrange(prefix@.len() as int, k@.len() as int), v@)));
                }
            }
            i += 1;
        }
        assert(sv.take(sv.len() as int) =~= sv);
        out
    }
}

/// The error of a failed blackboard read.
pub fn read_error(e: &StateError) -> (r: NodeError)
    ensures
        r matches NodeError::Fatal { message } && message@ == "blackboard read error: "@
            + e.spec_text(),
{
    let t = e.to_string();
    NodeError::Fatal { message: join2("blackboard read error: ", t.as_str()) }
}

/// The error of a failed blackboard write.
pub fn write_error(e: &StateError) -> (r: NodeError)
    ensures
        r matches NodeError::Fatal { message } && message@ == "blackboard write error: "@
            + e.spec_text(),
{
    let t = e.to_string();
    NodeError::Fatal { message: join2("blackboard write error: ", t.as_str()) }
}

/// The error of a failed snapshot of the run's state.
pub fn snapshot_error(e: &StateError) -> (r: NodeError)
    ensures
        r matches NodeError::Fatal { message } && message@ == "blackboard snapshot error: "@
            + e.spec_text(),
{
    let t = e.to_string();
    NodeError::Fatal { message: join2("blackboard snapshot error: ", t.as_str()) }
}

/// What is written under `key` in a namespace is read back under `key`: the
/// namespace's entries of a snapshot holding only the key `namespace:key`
/// are that key, without the prefix, and its value.
pub proof fn law_namespace_roundtrip(namespace: Seq<char>, key: Seq<char>, value: JsonView)
    ensures
        namespace_entries(seq![(namespace + ":"@ + key, value)], namespace) == seq![(key, value)],
{
    let full = namespace + ":"@ + key;
    let p = namespace + ":"@;
    let snap = seq![(full, value)];
    assert(snap.drop_last() =~= Seq::<(Seq<char>, JsonView)>::empty());
    assert(full.subrange(0, p.len() as int) =~= p);
    assert(full.subrange(p.len() as int, full.len() as int) =~= key);
    assert(namespace_entries(Seq::<(Seq<char>, JsonView)>::empty(), namespace) =~= Seq::<(Seq<char>, JsonView)>::empty());
    assert(Seq::<(Seq<char>, JsonView)>::empty().push((key, value)) =~= seq![(key, value)]);
}

/// Keys of other namespaces are not read: an entry whose key does not start
/// with `namespace:` contributes nothing to that namespace.
pub proof fn law_other_namespaces_hidden(
    snapshot: Seq<(Seq<char>, JsonView)>,
    namespace: Seq<char>,
    key: Seq<char>,
    value: JsonView,
)
    requires
        !starts_with(key, namespace + ":"@),
    ensures
        namespace_entries(snapshot.push((key, value)), namespace) == namespace_entries(snapshot, namespace),
{
    assert(snapshot.push((key, value)).drop_last() =~= snapshot);
}

/// The values a list of entries gives its keys, later entries winning.
pub open spec fn entries_values(s: Seq<(Seq<char>, JsonView)>) -> Map<Seq<char>, JsonView>
    decreases s.len(),
{
    if s.len() == 0 {
        Map::empty()
    } else {
        entries_values(s.drop_last()).insert(s.last().0, s.last().1)
    }
}

/// The values of a namespace within the values of a run: each key of the
/// form `namespace:key`, seen as `key`.
pub open spec fn namespace_values(vals: Map<Seq<char>, JsonView>, namespace: Seq<char>) -> Map<
    Seq<char>,
    JsonView,
> {
    Map::new(
        |k: Seq<char>| vals.contains_key(namespace + ":"@ + k),
        |k: Seq<char>| vals[namespace + ":"@ + k],
    )
}

proof fn lemma_pairs_entries_values(p: Seq<(String, JsonValue)>)
    ensures
        pairs_values(p) == entries_values(json_entries_view(p)),
    decreases p.len(),
{
    crate::json::lemma_json_entries_view(p);
    if p.len() > 0 {
        lemma_pairs_entries_values(p.drop_last());
        crate::json::lemma_json_entries_view(p.drop_last());
        assert(json_entries_view(p).drop_last() =~= json_entries_view(p.drop_last()));
    }
}

proof fn lemma_prefix_cancel(p: Seq<char>, a: Seq<char>, b: Seq<char>)
    ensures
        (p + a == p + b) == (a == b),
{
    if p + a == p + b {
        assert(a =~= (p + a).subrange(p.len() as int, (p + a).len() as int));
        assert(b =~= (p + b).subrange(p.len() as int, (p + b).len() as int));
    }
}

proof fn lemma_namespace_entries_values(s: Seq<(Seq<char>, JsonView)>, namespace: Seq<char>)
    ensures
        entries_values(namespace_entries(s, namespace)) == namespace_values(entries_values(s), namespace),
        forall|i: int|
            0 <= i < namespace_entries(s, namespace).len() ==> entries_values(s).contains_key(
                namespace + ":"@ + #[trigger] namespace_entries(s, namespace)[i].0,
            ),
    decreases s.len(),
{
    let p = namespace + ":"@;
    assert forall|k: Seq<char>| #[trigger] (namespace + ":"@ + k) == p + k by {
        assert(namespace + ":"@ + k =~= p + k);
    }
    if s.len() > 0 {
        let t = s.drop_last();
        lemma_namespace_entries_values(t, namespace);
        let (k0, v0) = s.last();
        let prev = namespace_entries(t, namespace);
        let ev = entries_values(s);
        if starts_with(k0, p) {
            let rest = k0.subrange(p.len() as int, k0.len() as int);
            assert(k0 =~= p + rest);
            let lhs = entries_values(namespace_entries(s, namespace));
            let rhs = namespace_values(ev, namespace);
            assert(namespace_entries(s, namespace) == prev.push((rest, v0)));
            assert(prev.push((rest, v0)).drop_last() =~= prev);
            assert forall|k: Seq<char>| lhs.contains_key(k) <==> rhs.contains_key(k) by {
                lemma_prefix_cancel(p, k, rest);
            }
            assert forall|k: Seq<char>| lhs.contains_key(k) implies lhs[k] == rhs[k] by {
                lemma_prefix_cancel(p, k, rest);
            }
            assert(lhs =~= rhs);
            assert forall|i: int| 0 <= i < namespace_entries(s, namespace).len() implies ev.contains_key(
                namespace + ":"@ + #[trigger] namespace_entries(s, namespace)[i].0,
            ) by {
                if i < prev.len() {
                    assert(namespace_entries(s, namespace)[i] == prev[i]);
                    assert(entries_values(t).contains_key(namespace + ":"@ + prev[i].0));
                }
            }
        } else {
            let lhs = entries_values(namespace_entries(s, namespace));
            let rhs = namespace_values(ev, namespace);
            assert forall|k: Seq<char>| (p + k) != k0 by {
                if p + k == k0 {
                    assert(k0.subrange(0, p.len() as int) =~= p);
                }
            }
            assert(lhs =~= rhs);
            assert forall|i: int| 0 <= i < namespace_entries(s, namespace).len() implies ev.contains_key(
                namespace + ":"@ + #[trigger] namespace_entries(s, namespace)[i].0,
            ) by {
                assert(entries_values(t).contains_key(namespace + ":"@ + prev[i].0));
            }
        }
    } else {
        assert(entries_values(namespace_entries(s, namespace)) =~= namespace_values(
            entries_values(s),
            namespace,
        ));
    }
}

impl Blackboard {
    /// The value under `key` in `namespace`, read from run `run_id`'s
    /// scratchpad under `namespace:key`. A failed read of the store comes
    /// back as a fatal node error.
    pub fn read<S: StateStore>(&self, state: &S, namespace: &str, key: &str) -> (r: Result<
        Option<JsonValue>,
        NodeError,
    >)
        requires
            state.store_ok(),
        ensures
            match r {
                Ok(v) => opt_value(v) == state_get(
                    state.store_model(),
                    self.run_id@,
                    namespace@ + ":"@ + key@,
                ),
                Err(e) => exists|se: StateError|
                    e matches NodeError::Fatal { message } && message@ == "blackboard read error: "@
                        + #[trigger] se.spec_text(),
            },
    {
        let full = self.full_key(namespace, key);
        match state.get(self.run_id.as_str(), full.as_str()) {
            Ok(v) => Ok(v),
            Err(e) => Err(read_error(&e)),
        }
    }

    /// Writes `value` under `key` in `namespace`: run `run_id`'s scratchpad
    /// gets it under `namespace:key`, as a public value. A failed write comes
    /// back as a fatal node error.
    pub fn write<S: StateStore>(&self, state: &mut S, namespace: &str, key: &str, value: JsonValue) -> (r:
        Result<(), NodeError>)
        requires
            old(state).store_ok(),
        ensures
            final(state).store_ok(),
            match r {
                Ok(_) => final(state).store_model() == state_set(
                    old(state).store_model(),
                    self.run_id@,
                    namespace@ + ":"@ + key@,
                    value@,
                    Sensitivity::Public,
                ),
                Err(e) => exists|se: StateError|
                    e matches NodeError::Fatal { message } && message@ == "blackboard write error: "@
                        + #[trigger] se.spec_text(),
            },
    {
        let full = self.full_key(namespace, key);
        match state.set(self.run_id.as_str(), full.as_str(), value, Sensitivity::Public) {
            Ok(()) => Ok(()),
            Err(e) => Err(write_error(&e)),
        }
    }

    /// Every value of `namespace` in run `run_id`'s scratchpad, keys without
    /// the `namespace:` prefix, one pair per key. A failed snapshot comes back
    /// as a fatal node error.
    pub fn read_all<S: StateStore>(&self, state: &S, namespace: &str) -> (r: Result<
        Vec<(String, JsonValue)>,
        NodeError,
    >)
        requires
            state.store_ok(),
        ensures
            match r {
                Ok(pairs) => pairs_values(pairs@) == namespace_values(
                    values_of(scratch_at(state.store_model(), self.run_id@)),
                    namespace@,
                ) && forall|i: int, j: int|
                    0 <= i < j < pairs@.len() ==> pairs@[i].0@ != pairs@[j].0@,
                Err(e) => exists|se: StateError|
                    e matches NodeError::Fatal { message } && message@
                        == "blackboard snapshot error: "@ + #[trigger] se.spec_text(),
            },
    {
        match state.snapshot(self.run_id.as_str()) {
            Err(e) => Err(snapshot_error(&e)),
            Ok(snap) => {
                let out = self.namespace_entries(&snap, namespace);
                proof {
                    let sv = json_entries_view(snap@);
                    let ov = json_entries_view(out@);
                    crate::json::lemma_json_entries_view(snap@);
                    crate::json::lemma_json_entries_view(out@);
                    lemma_pairs_entries_values(snap@);
                    lemma_pairs_entries_values(out@);
                    lemma_namespace_entries_values(sv, namespace@);
                    lemma_namespace_keys_unique(sv, namespace@);
                    assert forall|i: int, j: int| 0 <= i < j < out@.len() implies out@[i].0@
                        != out@[j].0@ by {
                        assert(ov[i].0 == out@[i].0@);
                        assert(ov[j].0 == out@[j].0@);
                    }
                }
                Ok(out)
            },
        }
    }
}

/// The keys `namespace_entries` keeps are distinct when the snapshot's keys
/// are.
proof fn lemma_namespace_keys_unique(s: Seq<(Seq<char>, JsonView)>, namespace: Seq<char>)
    requires
        forall|i: int, j: int| 0 <= i < j < s.len() ==> s[i].0 != s[j].0,
    ensures
        forall|i: int, j: int|
            0 <= i < j < namespace_entries(s, namespace).len() ==> namespace_entries(s, namespace)[i].0
                != namespace_entries(s, namespace)[j].0,
        forall|i: int|
            0 <= i < namespace_entries(s, namespace).len() ==> exists|k: int|
                0 <= k < s.len() && s[k].0 == namespace + ":"@ + #[trigger] namespace_entries(
                    s,
                    namespace,
                )[i].0,
    decreases s.len(),
{
    let p = namespace + ":"@;
    if s.len() > 0 {
        let t = s.drop_last();
        assert forall|i: int, j: int| 0 <= i < j < t.len() implies t[i].0 != t[j].0 by {
            assert(t[i] == s[i]);
            assert(t[j] == s[j]);
        }
        lemma_namespace_keys_unique(t, namespace);
        let prev = namespace_entries(t, namespace);
        let ne = namespace_entries(s, namespace);
        let (k0, v0) = s.last();
        if starts_with(k0, p) {
            let rest = k0.subrange(p.len() as int, k0.len() as int);
            assert(k0 =~= p + rest);
            assert(ne == prev.push((rest, v0)));
            assert forall|i: int| 0 <= i < ne.len() implies exists|k: int|
                0 <= k < s.len() && s[k].0 == namespace + ":"@ + #[trigger] ne[i].0 by {
                if i < prev.len() {
                    assert(ne[i] == prev[i]);
                    let k = choose|k: int| 0 <= k < t.len() && t[k].0 == namespace + ":"@ + #[trigger] prev[i].0;
                    assert(s[k] == t[k]);
                } else {
                    assert(ne[i].0 == rest);
                    assert(s[s.len() - 1].0 == namespace + ":"@ + rest);
                }
            }
            assert forall|i: int, j: int| 0 <= i < j < ne.len() implies ne[i].0 != ne[j].0 by {
                if j == ne.len() - 1 {
                    assert(ne[i] == prev[i]);
                    let k = choose|k: int| 0 <= k < t.len() && t[k].0 == namespace + ":"@ + #[trigger] prev[i].0;
                    if prev[i].0 == rest {
                        assert(t[k].0 == k0);
                        assert(s[k] == t[k]);
                        assert(s[k].0 == s[s.len() - 1].0);
                    }
                } else {
                    assert(ne[i] == prev[i]);
                    assert(ne[j] == prev[j]);
                }
            }
        } else {
            assert(ne == prev);
            assert forall|i: int| 0 <= i < ne.len() implies exists|k: int|
                0 <= k < s.len() && s[k].0 == namespace + ":"@ + #[trigger] ne[i].0 by {
                let k = choose|k: int| 0 <= k < t.len() && t[k].0 == namespace + ":"@ + #[trigger] prev[i].0;
                assert(s[k] == t[k]);
            }
        }
    }
}

/// What is written to a namespace key is read back from it.
pub proof fn law_blackboard_write_read(
    m: Map<Seq<char>, Scratch>,
    run_id: Seq<char>,
    namespace: Seq<char>,
    key: Seq<char>,
    v: JsonView,
)
    ensures
        state_get(
            state_set(m, run_id, namespace + ":"@ + key, v, Sensitivity::Public),
            run_id,
            namespace + ":"@ + key,
        ) == Some(v),
{
}

/// Two namespaces without `:` in their names never share a state key.
pub proof fn law_namespaces_disjoint(n1: Seq<char>, k1: Seq<char>, n2: Seq<char>, k2: Seq<char>)
    requires
        n1 != n2,
        !n1.contains(':'),
        !n2.contains(':'),
    ensures
        n1 + ":"@ + k1 != n2 + ":"@ + k2,
{
    let a = n1 + ":"@ + k1;
    let b = n2 + ":"@ + k2;
    reveal_strlit(":");
    if a == b {
        if n1.len() == n2.len() {
            assert(n1 =~= a.subrange(0, n1.len() as int));
            assert(n2 =~= b.subrange(0, n2.len() as int));
        } else if n1.len() < n2.len() {
            assert(a[n1.len() as int] == ':');
            assert(b[n1.len() as int] == n2[n1.len() as int]);
            assert(n2.contains(n2[n1.len() as int]));
        } else {
            assert(b[n2.len() as int] == ':');
            assert(a[n2.len() as int] == n1[n2.len() as int]);
            assert(n1.contains(n1[n2.len() as int]));
        }
    }
}

/// A write to one namespace leaves every key of another namespace as it was,
/// when neither name holds `:`.
pub proof fn law_namespace_write_isolated(
    m: Map<Seq<char>, Scratch>,
    run_id: Seq<char>,
    n1: Seq<char>,
    k1: Seq<char>,
    v: JsonView,
    n2: Seq<char>,
    k2: Seq<char>,
)
    requires
        n1 != n2,
        !n1.contains(':'),
        !n2.contains(':'),
    ensures
        state_get(state_set(m, run_id, n1 + ":"@ + k1, v, Sensitivity::Public), run_id, n2 + ":"@ + k2)
            == state_get(m, run_id, n2 + ":"@ + k2),
{
    law_namespaces_disjoint(n1, k1, n2, k2);
}


/// Namespaced keys do not collide: two (namespace, key) pairs give the same
/// stored key only when they are the same pair, as long as neither
/// namespace contains `:`.
pub proof fn law_namespaced_keys_distinct(ns1: Seq<char>, k1: Seq<char>, ns2: Seq<char>, k2: Seq<char>)
    requires
        forall|i: int| 0 <= i < ns1.len() ==> ns1[i] != ':',
        forall|i: int| 0 <= i < ns2.len() ==> ns2[i] != ':',
    ensures
        (ns1 + ":"@ + k1 == ns2 + ":"@ + k2) <==> (ns1 == ns2 && k1 == k2),
{
    reveal_strlit(":");
    let a = ns1 + ":"@ + k1;
    let b = ns2 + ":"@ + k2;
    if a == b {
        if ns1.len() < ns2.len() {
            assert(a[ns1.len() as int] == ':');
            assert(b[ns1.len() as int] == ns2[ns1.len() as int]);
        } else if ns2.len() < ns1.len() {
            assert(b[ns2.len() as int] == ':');
            assert(a[ns2.len() as int] == ns1[ns2.len() as int]);
        } else {
            assert(ns1 =~= a.subrange(0, ns1.len() as int));
            assert(ns2 =~= b.subrange(0, ns2.len() as int));
            assert(k1 =~= a.subrange(ns1.len() as int + 1, a.len() as int));
            assert(k2 =~= b.subrange(ns2.len() as int + 1, b.len() as int));
        }
    }
}

} // verus!
