//! The in-memory state store: a scratchpad of values per run, keyed by name,
//! each kept with its sensitivity.
use vstd::prelude::*;
use crate::errors::StateError;
use crate::json::{JsonValue, JsonView};
use crate::redactor::Sensitivity;
use crate::text::str_eq;

verus! {

/// One run's scratchpad: every key's value and sensitivity.
pub type Scratch = Map<Seq<char>, (JsonView, Sensitivity)>;

// ---------------------------------------------------------------------------
// The model of the operations
// ---------------------------------------------------------------------------

/// The scratchpad of `run` in `m`; empty when `m` has none.
pub open spec fn scratch_at(m: Map<Seq<char>, Scratch>, run: Seq<char>) -> Scratch {
    if m.contains_key(run) {
        m[run]
    } else {
        Map::empty()
    }
}

/// The value stored under `key` for `run`, if any.
pub open spec fn state_get(m: Map<Seq<char>, Scratch>, run: Seq<char>, key: Seq<char>) -> Option<
    JsonView,
> {
    if scratch_at(m, run).contains_key(key) {
        Some(scratch_at(m, run)[key].0)
    } else {
        None
    }
}

/// The state after `key` of `run` is set to `v` with sensitivity `s`.
pub open spec fn state_set(
    m: Map<Seq<char>, Scratch>,
    run: Seq<char>,
    key: Seq<char>,
    v: JsonView,
    s: Sensitivity,
) -> Map<Seq<char>, Scratch> {
    m.insert(run, scratch_at(m, run).insert(key, (v, s)))
}

/// The scratchpad a list of key-value pairs makes, later pairs winning, every
/// value public.
pub open spec fn pairs_scratch(pairs: Seq<(String, JsonValue)>) -> Scratch
    decreases pairs.len(),
{
    if pairs.len() == 0 {
        Map::empty()
    } else {
        pairs_scratch(pairs.drop_last()).insert(
            pairs.last().0@,
            (pairs.last().1@, Sensitivity::Public),
        )
    }
}

/// The values a list of key-value pairs gives its keys, later pairs winning.
pub open spec fn pairs_values(pairs: Seq<(String, JsonValue)>) -> Map<Seq<char>, JsonView>
    decreases pairs.len(),
{
    if pairs.len() == 0 {
        Map::empty()
    } else {
        pairs_values(pairs.drop_last()).insert(pairs.last().0@, pairs.last().1@)
    }
}

/// The values of a scratchpad, without their sensitivity.
pub open spec fn values_of(s: Scratch) -> Map<Seq<char>, JsonView> {
    Map::new(|k: Seq<char>| s.contains_key(k), |k: Seq<char>| s[k].0)
}

/// The state after `run`'s scratchpad is replaced by `pairs`.
pub open spec fn state_restore(
    m: Map<Seq<char>, Scratch>,
    run: Seq<char>,
    pairs: Seq<(String, JsonValue)>,
) -> Map<Seq<char>, Scratch> {
    m.insert(run, pairs_scratch(pairs))
}

/// The state after `run`'s scratchpad is dropped.
pub open spec fn state_cleanup(m: Map<Seq<char>, Scratch>, run: Seq<char>) -> Map<
    Seq<char>,
    Scratch,
> {
    m.remove(run)
}

// ---------------------------------------------------------------------------
// Storage
// ---------------------------------------------------------------------------

/// A value kept under a key, with its sensitivity.
pub struct StateEntry {
    pub key: String,
    pub value: JsonValue,
    pub sensitivity: Sensitivity,
}

/// The scratchpad of one run.
pub struct ScratchRun {
    pub run_id: String,
    pub entries: Vec<StateEntry>,
}

pub open spec fn keys_unique(entries: Seq<StateEntry>) -> bool {
    forall|i: int, j: int| 0 <= i < j < entries.len() ==> entries[i].key@ != entries[j].key@
}

pub open spec fn entries_map(entries: Seq<StateEntry>) -> Scratch
    decreases entries.len(),
{
    if entries.len() == 0 {
        Map::empty()
    } else {
        entries_map(entries.drop_last()).insert(
            entries.last().key@,
            (entries.last().value@, entries.last().sensitivity),
        )
    }
}

pub open spec fn runs_unique(runs: Seq<ScratchRun>) -> bool {
    forall|i: int, j: int| 0 <= i < j < runs.len() ==> runs[i].run_id@ != runs[j].run_id@
}

pub open spec fn runs_ok(runs: Seq<ScratchRun>) -> bool {
    &&& runs_unique(runs)
    &&& forall|i: int| 0 <= i < runs.len() ==> keys_unique(#[trigger] runs[i].entries@)
}

pub open spec fn runs_map(runs: Seq<ScratchRun>) -> Map<Seq<char>, Scratch>
    decreases runs.len(),
{
    if runs.len() == 0 {
        Map::empty()
    } else {
        runs_map(runs.drop_last()).insert(runs.last().run_id@, entries_map(runs.last().entries@))
    }
}

proof fn lemma_entries_map(entries: Seq<StateEntry>)
    requires
        keys_unique(entries),
    ensures
        forall|k: Seq<char>| #[trigger]
            entries_map(entries).contains_key(k) <==> exists|i: int|
                0 <= i < entries.len() && entries[i].key@ == k,
        forall|i: int|
            0 <= i < entries.len() ==> entries_map(entries)[#[trigger] entries[i].key@] == (
                entries[i].value@,
                entries[i].sensitivity,
            ),
    decreases entries.len(),
{
    if entries.len() > 0 {
        let t = entries.drop_last();
        assert(keys_unique(t));
        lemma_entries_map(t);
        assert forall|k: Seq<char>| #[trigger]
            entries_map(entries).contains_key(k) <==> exists|i: int|
                0 <= i < entries.len() && entries[i].key@ == k by {
            if entries_map(t).contains_key(k) {
                let i = choose|i: int| 0 <= i < t.len() && t[i].key@ == k;
                assert(entries[i] == t[i]);
            }
            if exists|i: int| 0 <= i < entries.len() && entries[i].key@ == k {
                let i = choose|i: int| 0 <= i < entries.len() && entries[i].key@ == k;
                if i < t.len() {
                    assert(t[i] == entries[i]);
                }
            }
        }
        assert forall|i: int| 0 <= i < entries.len() implies entries_map(entries)[
            #[trigger] entries[i].key@] == (entries[i].value@, entries[i].sensitivity) by {
            if i < t.len() {
                assert(t[i] == entries[i]);
                assert(entries[i].key@ != entries.last().key@);
            }
        }
    }
}

proof fn lemma_runs_map(runs: Seq<ScratchRun>)
    requires
        runs_unique(runs),
    ensures
        forall|k: Seq<char>| #[trigger]
            runs_map(runs).contains_key(k) <==> exists|i: int|
                0 <= i < runs.len() && runs[i].run_id@ == k,
        forall|i: int|
            0 <= i < runs.len() ==> runs_map(runs)[#[trigger] runs[i].run_id@] == entries_map(
                runs[i].entries@,
            ),
    decreases runs.len(),
{
    if runs.len() > 0 {
        let t = runs.drop_last();
        assert(runs_unique(t));
        lemma_runs_map(t);
        assert forall|k: Seq<char>| #[trigger]
            runs_map(runs).contains_key(k) <==> exists|i: int|
                0 <= i < runs.len() && runs[i].run_id@ == k by {
            if runs_map(t).contains_key(k) {
                let i = choose|i: int| 0 <= i < t.len() && t[i].run_id@ == k;
                assert(runs[i] == t[i]);
            }
            if exists|i: int| 0 <= i < runs.len() && runs[i].run_id@ == k {
                let i = choose|i: int| 0 <= i < runs.len() && runs[i].run_id@ == k;
                if i < t.len() {
                    assert(t[i] == runs[i]);
                }
            }
        }
        assert forall|i: int| 0 <= i < runs.len() implies runs_map(runs)[#[trigger] runs[i].run_id@]
            == entries_map(runs[i].entries@) by {
            if i < t.len() {
                assert(t[i] == runs[i]);
                assert(runs[i].run_id@ != runs.last().run_id@);
            }
        }
    }
}

fn find_entry(entries: &Vec<StateEntry>, key: &str) -> (r: Option<usize>)
    ensures
        match r {
            Some(j) => j < entries@.len() && entries@[j as int].key@ == key@,
            None => forall|i: int| 0 <= i < entries@.len() ==> #[trigger] entries@[i].key@ != key@,
        },
{
    let mut i: usize = 0;
    while i < entries.len()
        invariant
            i <= entries@.len(),
            forall|j: int| 0 <= j < i ==> #[trigger] entries@[j].key@ != key@,
        decreases entries.len() - i,
    {
        if str_eq(entries[i].key.as_str(), key) {
            return Some(i);
        }
        i += 1;
    }
    None
}

/// Sets `key` to `value` with `sensitivity` among `entries`, replacing what
/// the key held.
fn put_entry(entries: &mut Vec<StateEntry>, key: &str, value: JsonValue, sensitivity: Sensitivity)
    requires
        keys_unique(old(entries)@),
    ensures
        keys_unique(final(entries)@),
        entries_map(final(entries)@) == entries_map(old(entries)@).insert(
            key@,
            (value@, sensitivity),
        ),
{
    let ghost old_entries = entries@;
    let ghost vv = value@;
    let ghost sv = sensitivity;
    match find_entry(entries, key) {
        Some(j) => {
            entries.set(j, StateEntry { key: key.to_string(), value, sensitivity });
            proof {
                let new_entries = entries@;
                assert(keys_unique(new_entries)) by {
                    assert forall|a: int, b: int| 0 <= a < b < new_entries.len() implies new_entries[a].key@
                        != new_entries[b].key@ by {
                        if a != j && b != j {
                            assert(new_entries[a] == old_entries[a]);
                            assert(new_entries[b] == old_entries[b]);
                        } else if a == j {
                            assert(new_entries[b] == old_entries[b]);
                        } else {
                            assert(new_entries[a] == old_entries[a]);
                        }
                    }
                }
                lemma_entries_map(old_entries);
                lemma_entries_map(new_entries);
                let target = entries_map(old_entries).insert(key@, (vv, sv));
                assert forall|k: Seq<char>| entries_map(new_entries).contains_key(k)
                    <==> target.contains_key(k) by {
                    if entries_map(new_entries).contains_key(k) {
                        let i = choose|i: int| 0 <= i < new_entries.len() && new_entries[i].key@ == k;
                        if i != j {
                            assert(new_entries[i] == old_entries[i]);
                        }
                    }
                    if entries_map(old_entries).contains_key(k) {
                        let i = choose|i: int| 0 <= i < old_entries.len() && old_entries[i].key@ == k;
                        if i != j {
                            assert(new_entries[i] == old_entries[i]);
                        }
                        assert(new_entries[i].key@ == k);
                    }
                    if k == key@ {
                        assert(new_entries[j as int].key@ == k);
                    }
                }
                assert forall|k: Seq<char>| entries_map(new_entries).contains_key(k) implies entries_map(
                    new_entries,
                )[k] == target[k] by {
                    let i = choose|i: int| 0 <= i < new_entries.len() && new_entries[i].key@ == k;
                    assert(entries_map(new_entries)[new_entries[i].key@] == (
                        new_entries[i].value@,
                        new_entries[i].sensitivity,
                    ));
                    if i != j {
                        assert(new_entries[i] == old_entries[i]);
                        assert(entries_map(old_entries)[old_entries[i].key@] == (
                            old_entries[i].value@,
                            old_entries[i].sensitivity,
                        ));
                    }
                }
                assert(entries_map(new_entries) =~= target);
            }
        },
        None => {
            entries.push(StateEntry { key: key.to_string(), value, sensitivity });
            proof {
                let new_entries = entries@;
                assert(new_entries.drop_last() =~= old_entries);
                assert(keys_unique(new_entries)) by {
                    assert forall|a: int, b: int| 0 <= a < b < new_entries.len() implies new_entries[a].key@
                        != new_entries[b].key@ by {
                        assert(new_entries[a] == old_entries[a]);
                        if b < old_entries.len() {
                            assert(new_entries[b] == old_entries[b]);
                        }
                    }
                }
            }
        },
    }
}

/// The in-memory state store.
pub struct InMemoryState {
    runs: Vec<ScratchRun>,
}

impl InMemoryState {
    /// Every run's scratchpad, by run id.
    pub closed spec fn model(&self) -> Map<Seq<char>, Scratch> {
        runs_map(self.runs@)
    }

    /// The store's invariant: one scratchpad per run, one entry per key.
    pub closed spec fn wf(&self) -> bool {
        runs_ok(self.runs@)
    }

    /// An empty store.
    pub fn new() -> (r: InMemoryState)
        ensures
            r.wf(),
            r.model() == Map::<Seq<char>, Scratch>::empty(),
    {
        InMemoryState { runs: Vec::new() }
    }

    fn find_run(&self, run_id: &str) -> (r: Option<usize>)
        requires
            self.wf(),
        ensures
            match r {
                Some(i) => i < self.runs@.len() && self.runs@[i as int].run_id@ == run_id@
                    && self.model().contains_key(run_id@) && self.model()[run_id@] == entries_map(
                    self.runs@[i as int].entries@,
                ),
                None => !self.model().contains_key(run_id@),
            },
    {
        let mut i: usize = 0;
        while i < self.runs.len()
            invariant
                self.wf(),
                i <= self.runs@.len(),
                forall|j: int| 0 <= j < i ==> #[trigger] self.runs@[j].run_id@ != run_id@,
            decreases self.runs.len() - i,
        {
            if str_eq(self.runs[i].run_id.as_str(), run_id) {
                proof {
                    lemma_runs_map(self.runs@);
                }
                assert(self.model()[self.runs@[i as int].run_id@] == entries_map(
                    self.runs@[i as int].entries@,
                ));
                return Some(i);
            }
            i += 1;
        }
        proof {
            lemma_runs_map(self.runs@);
        }
        None
    }

    /// Replaces the scratchpad of `run_id` (adding it when absent) by the
    /// one `entries` holds.
    fn put_run(&mut self, run_id: &str, entries: Vec<StateEntry>)
        requires
            old(self).wf(),
            keys_unique(entries@),
        ensures
            final(self).wf(),
            final(self).model() == old(self).model().insert(run_id@, entries_map(entries@)),
    {
        let ghost old_runs = self.runs@;
        let ghost em = entries_map(entries@);
        let slot = ScratchRun { run_id: run_id.to_string(), entries };
        match self.find_run(run_id) {
            Some(i) => {
                self.runs.set(i, slot);
                proof {
                    let new_runs = self.runs@;
                    assert forall|a: int, b: int| 0 <= a < b < new_runs.len() implies new_runs[a].run_id@
                        != new_runs[b].run_id@ by {
                        if a != i && b != i {
                            assert(new_runs[a] == old_runs[a]);
                            assert(new_runs[b] == old_runs[b]);
                        } else if a == i {
                            assert(new_runs[b] == old_runs[b]);
                        } else {
                            assert(new_runs[a] == old_runs[a]);
                        }
                    }
                    assert forall|a: int| 0 <= a < new_runs.len() implies keys_unique(
                        #[trigger] new_runs[a].entries@,
                    ) by {
                        if a != i {
                            assert(new_runs[a] == old_runs[a]);
                        }
                    }
                    lemma_runs_map(old_runs);
                    lemma_runs_map(new_runs);
                    let target = runs_map(old_runs).insert(run_id@, em);
                    assert forall|k: Seq<char>| runs_map(new_runs).contains_key(k)
                        <==> target.contains_key(k) by {
                        if runs_map(new_runs).contains_key(k) {
                            let a = choose|a: int| 0 <= a < new_runs.len() && new_runs[a].run_id@ == k;
                            if a != i {
                                assert(new_runs[a] == old_runs[a]);
                            }
                        }
                        if runs_map(old_runs).contains_key(k) {
                            let a = choose|a: int| 0 <= a < old_runs.len() && old_runs[a].run_id@ == k;
                            if a != i {
                                assert(new_runs[a] == old_runs[a]);
                            }
                            assert(new_runs[a].run_id@ == k);
                        }
                        if k == run_id@ {
                            assert(new_runs[i as int].run_id@ == k);
                        }
                    }
                    assert forall|k: Seq<char>| runs_map(new_runs).contains_key(k) implies runs_map(
                        new_runs,
                    )[k] == target[k] by {
                        let a = choose|a: int| 0 <= a < new_runs.len() && new_runs[a].run_id@ == k;
                        assert(runs_map(new_runs)[new_runs[a].run_id@] == entries_map(
                            new_runs[a].entries@,
                        ));
                        if a != i {
                            assert(new_runs[a] == old_runs[a]);
                            assert(runs_map(old_runs)[old_runs[a].run_id@] == entries_map(
                                old_runs[a].entries@,
                            ));
                        }
                    }
                    assert(runs_map(new_runs) =~= target);
                }
            },
            None => {
                self.runs.push(slot);
                proof {
                    let new_runs = self.runs@;
                    assert(new_runs.drop_last() =~= old_runs);
                    lemma_runs_map(old_runs);
                    assert forall|a: int, b: int| 0 <= a < b < new_runs.len() implies new_runs[a].run_id@
                        != new_runs[b].run_id@ by {
                        assert(new_runs[a] == old_runs[a]);
                        if b < old_runs.len() {
                            assert(new_runs[b] == old_runs[b]);
                        } else {
                            assert(runs_map(old_runs).contains_key(old_runs[a].run_id@));
                        }
                    }
                    assert forall|a: int| 0 <= a < new_runs.len() implies keys_unique(
                        #[trigger] new_runs[a].entries@,
                    ) by {
                        if a < old_runs.len() {
                            assert(new_runs[a] == old_runs[a]);
                        }
                    }
                }
            },
        }
    }

    /// The value stored under `key` for run `run_id`, if any.
    pub fn get(&self, run_id: &str, key: &str) -> (r: Result<Option<JsonValue>, StateError>)
        requires
            self.wf(),
        ensures
            r matches Ok(v) && match v {
                Some(x) => state_get(self.model(), run_id@, key@) == Some(x@),
                None => state_get(self.model(), run_id@, key@) is None,
            },
    {
        match self.find_run(run_id) {
            None => Ok(None),
            Some(i) => {
                let entries = &self.runs[i].entries;
                proof {
                    assert(keys_unique(self.runs@[i as int].entries@));
                    lemma_entries_map(entries@);
                }
                match find_entry(entries, key) {
                    None => Ok(None),
                    Some(j) => {
                        assert(entries_map(entries@)[entries@[j as int].key@] == (
                            entries@[j as int].value@,
                            entries@[j as int].sensitivity,
                        ));
                        Ok(Some(entries[j].value.duplicate()))
                    },
                }
            },
        }
    }

    /// Stores `value` under `key` for run `run_id`, with its sensitivity.
    pub fn set(&mut self, run_id: &str, key: &str, value: JsonValue, sensitivity: Sensitivity) -> (r:
        Result<(), StateError>)
        requires
            old(self).wf(),
        ensures
            final(self).wf(),
            r is Ok,
            final(self).model() == state_set(old(self).model(), run_id@, key@, value@, sensitivity),
    {
        let ghost vv = value@;
        let ghost sv = sensitivity;
        let mut entries: Vec<StateEntry> = Vec::new();
        match self.find_run(run_id) {
            Some(i) => {
                assert(keys_unique(self.runs@[i as int].entries@));
                let mut j: usize = 0;
                let src = &self.runs[i].entries;
                while j < src.len()
                    invariant
                        j <= src@.len(),
                        keys_unique(src@),
                        entries@.len() == j,
                        forall|a: int|
                            0 <= a < j ==> #[trigger] entries@[a].key@ == src@[a].key@
                                && entries@[a].value@ == src@[a].value@
                                && entries@[a].sensitivity == src@[a].sensitivity,
                    decreases src.len() - j,
                {
                    entries.push(
                        StateEntry {
                            key: src[j].key.clone(),
                            value: src[j].value.duplicate(),
                            sensitivity: copy_sensitivity(&src[j].sensitivity),
                        },
                    );
                    j += 1;
                }
                proof {
                    lemma_same_entries(entries@, src@);
                }
            },
            None => {
                assert(entries_map(entries@) =~= Map::<Seq<char>, (JsonView, Sensitivity)>::empty());
            },
        }
        put_entry(&mut entries, key, value, sensitivity);
        self.put_run(run_id, entries);
        Ok(())
    }

    /// A copy of run `run_id`'s values, one pair per key; none when the run
    /// has no scratchpad.
    pub fn snapshot(&self, run_id: &str) -> (r: Result<Vec<(String, JsonValue)>, StateError>)
        requires
            self.wf(),
        ensures
            r matches Ok(pairs) && pairs_values(pairs@) == values_of(
                scratch_at(self.model(), run_id@),
            ) && forall|i: int, j: int|
                0 <= i < j < pairs@.len() ==> pairs@[i].0@ != pairs@[j].0@,
    {
        let mut out: Vec<(String, JsonValue)> = Vec::new();
        match self.find_run(run_id) {
            None => {
                assert(pairs_values(out@) =~= values_of(scratch_at(self.model(), run_id@)));
            },
            Some(i) => {
                let src = &self.runs[i].entries;
                assert(keys_unique(src@));
                let mut j: usize = 0;
                while j < src.len()
                    invariant
                        j <= src@.len(),
                        keys_unique(src@),
                        out@.len() == j,
                        forall|a: int|
                            0 <= a < j ==> #[trigger] out@[a].0@ == src@[a].key@ && out@[a].1@
                                == src@[a].value@,
                    decreases src.len() - j,
                {
                    out.push((src[j].key.clone(), src[j].value.duplicate()));
                    j += 1;
                }
                proof {
                    lemma_pairs_of_entries(out@, src@);
                }
            },
        }
        Ok(out)
    }

    /// Replaces run `run_id`'s scratchpad by `snapshot`'s pairs, later pairs
    /// winning, every value public.
    pub fn restore(&mut self, run_id: &str, snapshot: Vec<(String, JsonValue)>) -> (r: Result<
        (),
        StateError,
    >)
        requires
            old(self).wf(),
        ensures
            final(self).wf(),
            r is Ok,
            final(self).model() == state_restore(old(self).model(), run_id@, snapshot@),
    {
        let ghost all = snapshot@;
        let mut rest = snapshot;
        let mut entries: Vec<StateEntry> = Vec::new();
        let ghost mut k: int = 0;
        assert(entries_map(entries@) =~= pairs_scratch(all.take(0)));
        while rest.len() > 0
            invariant
                0 <= k <= all.len(),
                rest@ == all.skip(k),
                keys_unique(entries@),
                entries_map(entries@) == pairs_scratch(all.take(k)),
            decreases rest.len(),
        {
            let (key, value) = rest.remove(0);
            assert(all.take(k + 1).drop_last() =~= all.take(k));
            assert(all.take(k + 1).last() == all[k]);
            put_entry(&mut entries, key.as_str(), value, Sensitivity::Public);
            assert(rest@ =~= all.skip(k + 1));
            proof {
                k = k + 1;
            }
        }
        assert(all.take(k) =~= all);
        self.put_run(run_id, entries);
        Ok(())
    }

    /// Drops run `run_id`'s scratchpad.
    pub fn cleanup(&mut self, run_id: &str) -> (r: Result<(), StateError>)
        requires
            old(self).wf(),
        ensures
            final(self).wf(),
            r is Ok,
            final(self).model() == state_cleanup(old(self).model(), run_id@),
    {
        match self.find_run(run_id) {
            None => {
                assert(self.model() =~= self.model().remove(run_id@));
            },
            Some(i) => {
                let ghost old_runs = self.runs@;
                self.runs.remove(i);
                proof {
                    let new_runs = self.runs@;
                    assert forall|a: int, b: int| 0 <= a < b < new_runs.len() implies new_runs[a].run_id@
                        != new_runs[b].run_id@ by {
                        let a0 = if a < i { a } else { a + 1 };
                        let b0 = if b < i { b } else { b + 1 };
                        assert(new_runs[a] == old_runs[a0]);
                        assert(new_runs[b] == old_runs[b0]);
                    }
                    assert forall|a: int| 0 <= a < new_runs.len() implies keys_unique(
                        #[trigger] new_runs[a].entries@,
                    ) by {
                        let a0 = if a < i { a } else { a + 1 };
                        assert(new_runs[a] == old_runs[a0]);
                    }
                    lemma_runs_map(old_runs);
                    lemma_runs_map(new_runs);
                    let target = runs_map(old_runs).remove(run_id@);
                    assert forall|key: Seq<char>| runs_map(new_runs).contains_key(key)
                        <==> target.contains_key(key) by {
                        if runs_map(new_runs).contains_key(key) {
                            let a = choose|a: int| 0 <= a < new_runs.len() && new_runs[a].run_id@ == key;
                            let a0 = if a < i { a } else { a + 1 };
                            assert(new_runs[a] == old_runs[a0]);
                            assert(old_runs[a0].run_id@ != old_runs[i as int].run_id@);
                        }
                        if target.contains_key(key) {
                            let a = choose|a: int| 0 <= a < old_runs.len() && old_runs[a].run_id@ == key;
                            assert(a != i);
                            let a1 = if a < i { a } else { a - 1 };
                            assert(new_runs[a1] == old_runs[a]);
                        }
                    }
                    assert forall|key: Seq<char>| runs_map(new_runs).contains_key(key) implies runs_map(
                        new_runs,
                    )[key] == target[key] by {
                        let a = choose|a: int| 0 <= a < new_runs.len() && new_runs[a].run_id@ == key;
                        let a0 = if a < i { a } else { a + 1 };
                        assert(new_runs[a] == old_runs[a0]);
                        assert(runs_map(new_runs)[new_runs[a].run_id@] == entries_map(
                            new_runs[a].entries@,
                        ));
                        assert(runs_map(old_runs)[old_runs[a0].run_id@] == entries_map(
                            old_runs[a0].entries@,
                        ));
                    }
                    assert(runs_map(new_runs) =~= target);
                }
            },
        }
        Ok(())
    }
}

fn copy_sensitivity(s: &Sensitivity) -> (r: Sensitivity)
    ensures
        r == *s,
{
    match s {
        Sensitivity::Public => Sensitivity::Public,
        Sensitivity::Secret => Sensitivity::Secret,
        Sensitivity::Masked => Sensitivity::Masked,
        Sensitivity::Pii => Sensitivity::Pii,
        Sensitivity::Custom(name) => Sensitivity::Custom(name.clone()),
    }
}

proof fn lemma_same_entries(a: Seq<StateEntry>, b: Seq<StateEntry>)
    requires
        a.len() == b.len(),
        forall|i: int|
            0 <= i < a.len() ==> #[trigger] a[i].key@ == b[i].key@ && a[i].value@ == b[i].value@
                && a[i].sensitivity == b[i].sensitivity,
        keys_unique(b),
    ensures
        keys_unique(a),
        entries_map(a) == entries_map(b),
    decreases a.len(),
{
    if a.len() > 0 {
        let ta = a.drop_last();
        let tb = b.drop_last();
        assert forall|i: int| 0 <= i < ta.len() implies #[trigger] ta[i].key@ == tb[i].key@
            && ta[i].value@ == tb[i].value@ && ta[i].sensitivity == tb[i].sensitivity by {
            assert(ta[i] == a[i]);
            assert(tb[i] == b[i]);
        }
        assert(keys_unique(tb));
        lemma_same_entries(ta, tb);
        assert(a.last().key@ == b.last().key@);
    }
    assert forall|i: int, j: int| 0 <= i < j < a.len() implies a[i].key@ != a[j].key@ by {
        assert(a[i].key@ == b[i].key@);
        assert(a[j].key@ == b[j].key@);
    }
}

proof fn lemma_pairs_of_entries(p: Seq<(String, JsonValue)>, e: Seq<StateEntry>)
    requires
        p.len() == e.len(),
        forall|i: int| 0 <= i < p.len() ==> #[trigger] p[i].0@ == e[i].key@ && p[i].1@ == e[i].value@,
        keys_unique(e),
    ensures
        pairs_values(p) == values_of(entries_map(e)),
        forall|i: int, j: int| 0 <= i < j < p.len() ==> p[i].0@ != p[j].0@,
    decreases p.len(),
{
    if p.len() > 0 {
        let tp = p.drop_last();
        let te = e.drop_last();
        assert forall|i: int| 0 <= i < tp.len() implies #[trigger] tp[i].0@ == te[i].key@ && tp[i].1@
            == te[i].value@ by {
            assert(tp[i] == p[i]);
            assert(te[i] == e[i]);
        }
        assert(keys_unique(te));
        lemma_pairs_of_entries(tp, te);
        assert(p.last().0@ == e.last().key@);
        assert(pairs_values(p) =~= values_of(entries_map(e)));
    } else {
        assert(pairs_values(p) =~= values_of(entries_map(e)));
    }
    assert forall|i: int, j: int| 0 <= i < j < p.len() implies p[i].0@ != p[j].0@ by {
        assert(p[i].0@ == e[i].key@);
        assert(p[j].0@ == e[j].key@);
    }
}

// ---------------------------------------------------------------------------
// The state store interface
// ---------------------------------------------------------------------------

/// The view of an optional value.
pub open spec fn opt_value(v: Option<JsonValue>) -> Option<JsonView> {
    match v {
        Some(x) => Some(x@),
        None => None,
    }
}

/// A store of per-run scratchpads. What an implementation promises, when a
/// call succeeds, is stated over its `store_model`: reads give what the
/// model holds, writes change it as `state_set`, `state_restore` and
/// `state_cleanup` say.
pub trait StateStore {
    /// Every run's scratchpad, by run id.
    spec fn store_model(&self) -> Map<Seq<char>, Scratch>;

    /// The store's own invariant.
    spec fn store_ok(&self) -> bool;

    /// The value stored under `key` for run `run_id`, if any.
    fn get(&self, run_id: &str, key: &str) -> (r: Result<Option<JsonValue>, StateError>)
        requires
            self.store_ok(),
        ensures
            r matches Ok(v) ==> opt_value(v) == state_get(self.store_model(), run_id@, key@),
    ;

    /// Stores `value` under `key` for run `run_id`, with its sensitivity.
    fn set(&mut self, run_id: &str, key: &str, value: JsonValue, sensitivity: Sensitivity) -> (r:
        Result<(), StateError>)
        requires
            old(self).store_ok(),
        ensures
            final(self).store_ok(),
            r is Ok ==> final(self).store_model() == state_set(
                old(self).store_model(),
                run_id@,
                key@,
                value@,
                sensitivity,
            ),
    ;

    /// Run `run_id`'s values, one pair per key.
    fn snapshot(&self, run_id: &str) -> (r: Result<Vec<(String, JsonValue)>, StateError>)
        requires
            self.store_ok(),
        ensures
            r matches Ok(pairs) ==> pairs_values(pairs@) == values_of(
                scratch_at(self.store_model(), run_id@),
            ) && forall|i: int, j: int|
                0 <= i < j < pairs@.len() ==> pairs@[i].0@ != pairs@[j].0@,
    ;

    /// Replaces run `run_id`'s scratchpad by `snapshot`'s pairs.
    fn restore(&mut self, run_id: &str, snapshot: Vec<(String, JsonValue)>) -> (r: Result<
        (),
        StateError,
    >)
        requires
            old(self).store_ok(),
        ensures
            final(self).store_ok(),
            r is Ok ==> final(self).store_model() == state_restore(
                old(self).store_model(),
                run_id@,
                snapshot@,
            ),
    ;

    /// Drops run `run_id`'s scratchpad.
    fn cleanup(&mut self, run_id: &str) -> (r: Result<(), StateError>)
        requires
            old(self).store_ok(),
        ensures
            final(self).store_ok(),
            r is Ok ==> final(self).store_model() == state_cleanup(old(self).store_model(), run_id@),
    ;
}

impl StateStore for InMemoryState {
    open spec fn store_model(&self) -> Map<Seq<char>, Scratch> {
        self.model()
    }

    open spec fn store_ok(&self) -> bool {
        self.wf()
    }

    fn get(&self, run_id: &str, key: &str) -> (r: Result<Option<JsonValue>, StateError>)
        ensures
            r matches Ok(v) && opt_value(v) == state_get(self.store_model(), run_id@, key@),
    {
        InMemoryState::get(self, run_id, key)
    }

    fn set(&mut self, run_id: &str, key: &str, value: JsonValue, sensitivity: Sensitivity) -> (r:
        Result<(), StateError>)
        ensures
            r is Ok,
            final(self).store_model() == state_set(
                old(self).store_model(),
                run_id@,
                key@,
                value@,
                sensitivity,
            ),
    {
        InMemoryState::set(self, run_id, key, value, sensitivity)
    }

    fn snapshot(&self, run_id: &str) -> (r: Result<Vec<(String, JsonValue)>, StateError>)
        ensures
            r matches Ok(pairs) && pairs_values(pairs@) == values_of(
                scratch_at(self.store_model(), run_id@),
            ) && forall|i: int, j: int|
                0 <= i < j < pairs@.len() ==> pairs@[i].0@ != pairs@[j].0@,
    {
        InMemoryState::snapshot(self, run_id)
    }

    fn restore(&mut self, run_id: &str, snapshot: Vec<(String, JsonValue)>) -> (r: Result<
        (),
        StateError,
    >)
        ensures
            r is Ok,
            final(self).store_model() == state_restore(old(self).store_model(), run_id@, snapshot@),
    {
        InMemoryState::restore(self, run_id, snapshot)
    }

    fn cleanup(&mut self, run_id: &str) -> (r: Result<(), StateError>)
        ensures
            r is Ok,
            final(self).store_model() == state_cleanup(old(self).store_model(), run_id@),
    {
        InMemoryState::cleanup(self, run_id)
    }
}

// ---------------------------------------------------------------------------
// Laws
// ---------------------------------------------------------------------------

/// A value read right after it was set is the value set.
pub proof fn law_get_after_set(
    m: Map<Seq<char>, Scratch>,
    run: Seq<char>,
    key: Seq<char>,
    v: JsonView,
    s: Sensitivity,
)
    ensures
        state_get(state_set(m, run, key, v, s), run, key) == Some(v),
{
}

/// Setting one key of one run changes no other key of any run.
pub proof fn law_set_keeps_others(
    m: Map<Seq<char>, Scratch>,
    run: Seq<char>,
    key: Seq<char>,
    v: JsonView,
    s: Sensitivity,
    run2: Seq<char>,
    key2: Seq<char>,
)
    requires
        run2 != run || key2 != key,
    ensures
        state_get(state_set(m, run, key, v, s), run2, key2) == state_get(m, run2, key2),
{
}

/// After a restore, a run holds exactly the restored pairs: keys it held
/// before and the pairs do not name are gone.
pub proof fn law_restore_replaces(
    m: Map<Seq<char>, Scratch>,
    run: Seq<char>,
    pairs: Seq<(String, JsonValue)>,
    key: Seq<char>,
)
    ensures
        state_get(state_restore(m, run, pairs), run, key) == (if pairs_values(pairs).contains_key(
            key,
        ) {
            Some(pairs_values(pairs)[key])
        } else {
            None
        }),
{
    lemma_pairs_values(pairs);
}

proof fn lemma_pairs_values(pairs: Seq<(String, JsonValue)>)
    ensures
        values_of(pairs_scratch(pairs)) == pairs_values(pairs),
    decreases pairs.len(),
{
    if pairs.len() > 0 {
        lemma_pairs_values(pairs.drop_last());
    }
    assert(values_of(pairs_scratch(pairs)) =~= pairs_values(pairs));
}

/// Restoring a run from a snapshot of its values gives every key back the
/// value it had.
pub proof fn law_snapshot_restore_roundtrip(
    m: Map<Seq<char>, Scratch>,
    run: Seq<char>,
    pairs: Seq<(String, JsonValue)>,
    key: Seq<char>,
)
    requires
        pairs_values(pairs) == values_of(scratch_at(m, run)),
    ensures
        state_get(state_restore(m, run, pairs), run, key) == state_get(m, run, key),
{
    law_restore_replaces(m, run, pairs, key);
}

/// After a cleanup a run holds nothing, and every other run is as it was.
pub proof fn law_cleanup_forgets(
    m: Map<Seq<char>, Scratch>,
    run: Seq<char>,
    run2: Seq<char>,
    key: Seq<char>,
)
    ensures
        state_get(state_cleanup(m, run), run, key) is None,
        run2 != run ==> state_get(state_cleanup(m, run), run2, key) == state_get(m, run2, key),
{
}

} // verus!
