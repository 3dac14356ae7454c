//! The dispatch decision for trigger events: an event that carries an
//! idempotency key runs its flow only the first time that key is seen.
use vstd::prelude::*;
use crate::strset::StrSet;

verus! {

/// Whether an event with idempotency key `key` runs, given the keys `seen`
/// before it: always without a key, only for a new key with one.
pub open spec fn dispatched(seen: Set<Seq<char>>, key: Option<Seq<char>>) -> bool {
    match key {
        None => true,
        Some(k) => !seen.contains(k),
    }
}

/// The keys seen after an event with idempotency key `key`.
pub open spec fn seen_after(seen: Set<Seq<char>>, key: Option<Seq<char>>) -> Set<Seq<char>> {
    match key {
        None => seen,
        Some(k) => seen.insert(k),
    }
}

/// The idempotency keys a dispatch loop has seen.
pub struct TriggerDispatch {
    pub seen: StrSet,
}

impl TriggerDispatch {
    /// A dispatch loop that has seen no key.
    pub fn new() -> (r: TriggerDispatch)
        ensures
            r.seen@ == Set::<Seq<char>>::empty(),
    {
        TriggerDispatch { seen: StrSet::new() }
    }

    /// Whether an event with idempotency key `key` runs its flow; the key
    /// is remembered.
    pub fn should_dispatch(&mut self, key: Option<&str>) -> (r: bool)
        ensures
            r == dispatched(old(self).seen@, match key {
                Some(k) => Some(k@),
                None => None,
            }),
            final(self).seen@ == seen_after(old(self).seen@, match key {
                Some(k) => Some(k@),
                None => None,
            }),
    {
        match key {
            None => true,
            Some(k) => {
                if self.seen.contains(k) {
                    assert(self.seen@.insert(k@) =~= self.seen@);
                    self.seen.insert(k);
                    false
                } else {
                    self.seen.insert(k);
                    true
                }
            },
        }
    }
}

/// An event with a key is dispatched at most once: once any event with key
/// `k` has been dispatched, no later event with `k` is.
pub proof fn law_key_dispatched_once(seen: Set<Seq<char>>, k: Seq<char>, later: Seq<Option<Seq<char>>>)
    ensures
        !dispatched(seen_after(seen, Some(k)), Some(k)),
        !dispatched(seen_after_all(seen_after(seen, Some(k)), later), Some(k)),
{
    lemma_seen_grows(seen_after(seen, Some(k)), later);
}

/// The keys seen after events with keys `keys`, one after another.
pub open spec fn seen_after_all(seen: Set<Seq<char>>, keys: Seq<Option<Seq<char>>>) -> Set<
    Seq<char>,
>
    decreases keys.len(),
{
    if keys.len() == 0 {
        seen
    } else {
        seen_after(seen_after_all(seen, keys.drop_last()), keys.last())
    }
}

proof fn lemma_seen_grows(seen: Set<Seq<char>>, keys: Seq<Option<Seq<char>>>)
    ensures
        seen.subset_of(seen_after_all(seen, keys)),
    decreases keys.len(),
{
    if keys.len() > 0 {
        lemma_seen_grows(seen, keys.drop_last());
    }
}

/// Events without a key are always dispatched.
pub proof fn law_keyless_always_dispatched(seen: Set<Seq<char>>)
    ensures
        dispatched(seen, None),
        seen_after(seen, None) == seen,
{
}


proof fn lemma_seen_after_all(keys: Seq<Option<Seq<char>>>, k: Seq<char>)
    ensures
        seen_after_all(Set::empty(), keys).contains(k) <==> exists|j: int| 0 <= j < keys.len() && keys[j] == Some(k),
    decreases keys.len(),
{
    if keys.len() > 0 {
        let rest = keys.drop_last();
        lemma_seen_after_all(rest, k);
        if exists|j: int| 0 <= j < rest.len() && rest[j] == Some(k) {
            let j = choose|j: int| 0 <= j < rest.len() && rest[j] == Some(k);
            assert(keys[j] == Some(k));
        }
        if exists|j: int| 0 <= j < keys.len() && keys[j] == Some(k) {
            let j = choose|j: int| 0 <= j < keys.len() && keys[j] == Some(k);
            if j < rest.len() {
                assert(rest[j] == Some(k));
            }
        }
    }
}

/// Of a stream of trigger events, a dispatch loop that starts with no key
/// seen runs event `i` exactly when it carries no idempotency key or its key
/// came with no earlier event.
pub proof fn law_dispatch_first_of_each_key(keys: Seq<Option<Seq<char>>>, i: int)
    requires
        0 <= i < keys.len(),
    ensures
        dispatched(seen_after_all(Set::empty(), keys.take(i)), keys[i]) <==> match keys[i] {
            None => true,
            Some(k) => !exists|j: int| 0 <= j < i && keys[j] == Some(k),
        },
{
    match keys[i] {
        None => {},
        Some(k) => {
            lemma_seen_after_all(keys.take(i), k);
            if exists|j: int| 0 <= j < i && keys[j] == Some(k) {
                let j = choose|j: int| 0 <= j < i && keys[j] == Some(k);
                assert(keys.take(i)[j] == Some(k));
            }
            if exists|j: int| 0 <= j < keys.take(i).len() && keys.take(i)[j] == Some(k) {
                let j = choose|j: int| 0 <= j < keys.take(i).len() && keys.take(i)[j] == Some(k);
                assert(keys[j] == Some(k));
            }
        },
    }
}

/// Whether the trigger system can still start: it starts once, and only
/// when triggers were registered.
pub struct TriggerStartup {
    pub pending: bool,
}

impl TriggerStartup {
    /// The startup state of an engine, with or without registered triggers.
    pub fn new(has_triggers: bool) -> (r: TriggerStartup)
        ensures
            r.pending == has_triggers,
    {
        TriggerStartup { pending: has_triggers }
    }

    /// Whether this call starts the trigger system: only the first call,
    /// and only when triggers were registered; every later call does
    /// nothing.
    pub fn begin(&mut self) -> (r: bool)
        ensures
            r == old(self).pending,
            !final(self).pending,
    {
        let r = self.pending;
        self.pending = false;
        r
    }
}

} // verus!
