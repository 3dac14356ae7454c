//! A JSON document model that the flow engine's logic reads and builds.
//!
//! Numbers keep the three shapes a JSON number can take: a non-negative
//! integer, a negative integer, or a binary64 floating value held by its
//! IEEE-754 bit pattern (the library never computes with it).
use vstd::prelude::*;

verus! {

/// A JSON number.
#[derive(Clone, Copy, PartialEq, Eq, Structural, Debug)]
pub enum JsonNumber {
    /// A non-negative integer.
    PosInt(u64),
    /// A negative integer.
    NegInt(i64),
    /// A floating value, by its IEEE-754 binary64 bit pattern.
    Float(u64),
}

/// The mathematical model of a JSON value.
pub enum JsonView {
    Null,
    Bool(bool),
    Number(JsonNumber),
    Str(Seq<char>),
    Array(Seq<JsonView>),
    Object(Seq<(Seq<char>, JsonView)>),
}

/// A JSON value. Objects keep their entries in order.
#[derive(Debug)]
pub enum JsonValue {
    Null,
    Bool(bool),
    Number(JsonNumber),
    Str(String),
    Array(Vec<JsonValue>),
    Object(Vec<(String, JsonValue)>),
}

pub open spec fn json_view(v: JsonValue) -> JsonView
    decreases v,
{
    match v {
        JsonValue::Null => JsonView::Null,
        JsonValue::Bool(b) => JsonView::Bool(b),
        JsonValue::Number(n) => JsonView::Number(n),
        JsonValue::Str(s) => JsonView::Str(s@),
        JsonValue::Array(items) => JsonView::Array(json_seq_view(items@)),
        JsonValue::Object(entries) => JsonView::Object(json_entries_view(entries@)),
    }
}

/// The views of a sequence of values, item by item.
pub open spec fn json_seq_view(s: Seq<JsonValue>) -> Seq<JsonView>
    decreases s,
{
    if s.len() == 0 {
        Seq::empty()
    } else {
        json_seq_view(s.drop_last()).push(json_view(s.last()))
    }
}

/// The views of an object's entries, entry by entry.
pub open spec fn json_entries_view(s: Seq<(String, JsonValue)>) -> Seq<(Seq<char>, JsonView)>
    decreases s,
{
    if s.len() == 0 {
        Seq::empty()
    } else {
        json_entries_view(s.drop_last()).push((s.last().0@, json_view(s.last().1)))
    }
}

pub broadcast proof fn lemma_json_seq_view(s: Seq<JsonValue>)
    ensures
        #[trigger] json_seq_view(s).len() == s.len(),
        forall|i: int| 0 <= i < s.len() ==> #[trigger] json_seq_view(s)[i] == json_view(s[i]),
    decreases s.len(),
{
    if s.len() > 0 {
        lemma_json_seq_view(s.drop_last());
    }
}

pub broadcast proof fn lemma_json_entries_view(s: Seq<(String, JsonValue)>)
    ensures
        #[trigger] json_entries_view(s).len() == s.len(),
        forall|i: int|
            0 <= i < s.len() ==> #[trigger] json_entries_view(s)[i] == (s[i].0@, json_view(s[i].1)),
    decreases s.len(),
{
    if s.len() > 0 {
        lemma_json_entries_view(s.drop_last());
    }
}

pub broadcast proof fn lemma_json_seq_view_index(s: Seq<JsonValue>, i: int)
    requires
        0 <= i < s.len(),
    ensures
        #[trigger] json_seq_view(s)[i] == json_view(s[i]),
{
    lemma_json_seq_view(s);
}

pub broadcast proof fn lemma_json_entries_view_index(s: Seq<(String, JsonValue)>, i: int)
    requires
        0 <= i < s.len(),
    ensures
        #[trigger] json_entries_view(s)[i] == (s[i].0@, json_view(s[i].1)),
{
    lemma_json_entries_view(s);
}

pub broadcast group group_json_view {
    lemma_json_seq_view,
    lemma_json_entries_view,
    lemma_json_seq_view_index,
    lemma_json_entries_view_index,
}

impl View for JsonValue {
    type V = JsonView;

    open spec fn view(&self) -> JsonView {
        json_view(*self)
    }
}

/// The view of an optional reference to a JSON value.
pub open spec fn opt_json_view(o: Option<&JsonValue>) -> Option<JsonView> {
    match o {
        Some(v) => Some(v@),
        None => None,
    }
}

/// The value stored under `key` in an entry list: the first entry with that key.
pub open spec fn entries_lookup(entries: Seq<(Seq<char>, JsonView)>, key: Seq<char>) -> Option<
    JsonView,
>
    decreases entries.len(),
{
    if entries.len() == 0 {
        None
    } else if entries[0].0 == key {
        Some(entries[0].1)
    } else {
        entries_lookup(entries.drop_first(), key)
    }
}

/// `v.get(key)`: the member `key` of an object; `None` for a missing key or a non-object.
pub open spec fn json_get(v: JsonView, key: Seq<char>) -> Option<JsonView> {
    match v {
        JsonView::Object(entries) => entries_lookup(entries, key),
        _ => None,
    }
}

/// `v.as_str()`: the text of a string value.
pub open spec fn json_as_str(v: JsonView) -> Option<Seq<char>> {
    match v {
        JsonView::Str(s) => Some(s),
        _ => None,
    }
}

/// The text under `key` when that member exists and is a string.
pub open spec fn json_get_str(v: JsonView, key: Seq<char>) -> Option<Seq<char>> {
    match json_get(v, key) {
        Some(m) => json_as_str(m),
        None => None,
    }
}

/// `v.as_array()`: the items of an array value.
pub open spec fn json_as_array(v: JsonView) -> Option<Seq<JsonView>> {
    match v {
        JsonView::Array(items) => Some(items),
        _ => None,
    }
}

/// `v.as_u64()`: a non-negative integer number.
pub open spec fn json_as_u64(v: JsonView) -> Option<u64> {
    match v {
        JsonView::Number(JsonNumber::PosInt(n)) => Some(n),
        _ => None,
    }
}

proof fn lemma_lookup_skip(entries: Seq<(Seq<char>, JsonView)>, key: Seq<char>, i: int)
    requires
        0 <= i < entries.len(),
        entries[i].0 != key,
    ensures
        entries_lookup(entries.skip(i), key) == entries_lookup(entries.skip(i + 1), key),
{
    assert(entries.skip(i).drop_first() =~= entries.skip(i + 1));
}

impl JsonValue {
    /// Member `key` of an object (the first entry with that key).
    pub fn get(&self, key: &str) -> (r: Option<&JsonValue>)
        ensures
            opt_json_view(r) == json_get(self@, key@),
    {
        broadcast use group_json_view;

        match self {
            JsonValue::Object(entries) => {
                let ghost ev = json_entries_view(entries@);
                assert(self@ == JsonView::Object(ev));
                assert(ev.len() == entries@.len());
                assert(entries_lookup(ev, key@) == entries_lookup(ev.skip(0), key@)) by {
                    assert(ev.skip(0) =~= ev);
                }
                let mut i: usize = 0;
                while i < entries.len()
                    invariant
                        i <= entries@.len(),
                        ev == json_entries_view(entries@),
                        self@ == JsonView::Object(ev),
                        ev.len() == entries@.len(),
                        *self == JsonValue::Object(*entries),
                        entries_lookup(ev, key@) == entries_lookup(ev.skip(i as int), key@),
                    decreases entries.len() - i,
                {
                    let (k, v) = &entries[i];
                    proof {
                        lemma_json_entries_view_index(entries@, i as int);
                    }
                    if crate::text::str_eq(k.as_str(), key) {
                        proof {
                            assert(ev[i as int].0 == k@);
                            assert(ev.skip(i as int)[0] == ev[i as int]);
                        }
                        return Some(v);
                    }
                    proof {
                        lemma_lookup_skip(ev, key@, i as int);
                    }
                    i += 1;
                }
                None
            },
            _ => None,
        }
    }

    /// The text of a string value.
    pub fn as_str(&self) -> (r: Option<&str>)
        ensures
            match r {
                Some(s) => json_as_str(self@) == Some(s@),
                None => json_as_str(self@) is None,
            },
    {
        match self {
            JsonValue::Str(s) => Some(s.as_str()),
            _ => None,
        }
    }

    /// The items of an array value.
    pub fn as_array(&self) -> (r: Option<&Vec<JsonValue>>)
        ensures
            match r {
                Some(items) => json_as_array(self@) == Some(json_seq_view(items@))
                    && self@ == JsonView::Array(json_seq_view(items@)),
                None => json_as_array(self@) is None,
            },
    {
        match self {
            JsonValue::Array(items) => Some(items),
            _ => None,
        }
    }

    /// A non-negative integer number.
    pub fn as_u64(&self) -> (r: Option<u64>)
        ensures
            r == json_as_u64(self@),
    {
        match self {
            JsonValue::Number(JsonNumber::PosInt(n)) => Some(*n),
            _ => None,
        }
    }

    /// A copy of this value.
    pub fn duplicate(&self) -> (r: JsonValue)
        ensures
            r@ == self@,
        decreases self,
    {
        broadcast use group_json_view;

        match self {
            JsonValue::Null => JsonValue::Null,
            JsonValue::Bool(b) => JsonValue::Bool(*b),
            JsonValue::Number(n) => JsonValue::Number(*n),
            JsonValue::Str(s) => JsonValue::Str(s.clone()),
            JsonValue::Array(items) => {
                let mut out: Vec<JsonValue> = Vec::new();
                let mut i: usize = 0;
                assert(decreases_to!(*self => *items));
                while i < items.len()
                    invariant
                        i <= items@.len(),
                        out@.len() == i,
                        decreases_to!(*self => *items),
                        forall|j: int| 0 <= j < i ==> #[trigger] out@[j]@ == items@[j]@,
                    decreases items.len() - i,
                {
                    proof {
                        vstd::std_specs::vec::axiom_vec_index_decreases(*items, i as int);
                        assert(decreases_to!(*items => items@[i as int]));
                        assert(decreases_to!(*self => items@[i as int]));
                    }
                    let c = items[i].duplicate();
                    out.push(c);
                    i += 1;
                }
                let r = JsonValue::Array(out);
                assert(json_seq_view(out@).len() == json_seq_view(items@).len());
                assert forall|j: int| 0 <= j < out@.len() implies json_seq_view(out@)[j]
                    == json_seq_view(items@)[j] by {
                    lemma_json_seq_view_index(out@, j);
                    lemma_json_seq_view_index(items@, j);
                    assert(out@[j]@ == items@[j]@);
                }
                assert(json_seq_view(out@) =~= json_seq_view(items@));
                r
            },
            JsonValue::Object(entries) => {
                let mut out: Vec<(String, JsonValue)> = Vec::new();
                let mut i: usize = 0;
                assert(decreases_to!(*self => *entries));
                while i < entries.len()
                    invariant
                        i <= entries@.len(),
                        out@.len() == i,
                        decreases_to!(*self => *entries),
                        forall|j: int|
                            0 <= j < i ==> #[trigger] out@[j].0@ == entries@[j].0@ && out@[j].1@
                                == entries@[j].1@,
                    decreases entries.len() - i,
                {
                    let k = entries[i].0.clone();
                    proof {
                        vstd::std_specs::vec::axiom_vec_index_decreases(*entries, i as int);
                        assert(decreases_to!(*entries => entries@[i as int]));
                        assert(decreases_to!(entries@[i as int] => entries@[i as int].1));
                        assert(decreases_to!(*self => entries@[i as int].1));
                    }
                    let v = entries[i].1.duplicate();
                    out.push((k, v));
                    i += 1;
                }
                let r = JsonValue::Object(out);
                assert(json_entries_view(out@).len() == json_entries_view(entries@).len());
                assert(forall|j: int|
                    0 <= j < out@.len() ==> json_entries_view(out@)[j] == json_entries_view(
                        entries@,
                    )[j]);
                assert(json_entries_view(out@) =~= json_entries_view(entries@));
                r
            },
        }
    }
}

/// Copies of a list of values.
pub fn duplicate_all(items: &Vec<JsonValue>) -> (r: Vec<JsonValue>)
    ensures
        json_seq_view(r@) == json_seq_view(items@),
{
    broadcast use group_json_view;

    let mut out: Vec<JsonValue> = Vec::new();
    let mut i: usize = 0;
    while i < items.len()
        invariant
            i <= items@.len(),
            out@.len() == i,
            forall|j: int| 0 <= j < i ==> #[trigger] out@[j]@ == items@[j]@,
        decreases items.len() - i,
    {
        out.push(items[i].duplicate());
        i += 1;
    }
    assert forall|j: int| 0 <= j < out@.len() implies json_seq_view(out@)[j] == json_seq_view(
        items@,
    )[j] by {
        lemma_json_seq_view_index(out@, j);
        lemma_json_seq_view_index(items@, j);
        assert(out@[j]@ == items@[j]@);
    }
    assert(json_seq_view(out@) =~= json_seq_view(items@));
    out
}

} // verus!
