//! Framework adapters: translating the callback payloads of outside agent
//! frameworks (LangChain, LangGraph, Semantic Kernel), given as JSON, into
//! normalized events.
use vstd::prelude::*;
use vstd::string::*;
use crate::clock::{utc_now, Timestamp};
use crate::expression::{chars_of, scan};
use crate::json::{
    json_as_array, json_as_str, json_as_u64, json_entries_view, json_get, json_get_str,
    lemma_json_entries_view, lemma_json_seq_view, JsonValue, JsonView,
};
use crate::text::{join2, join3, str_eq};

verus! {

/// A normalized event from a framework callback.
#[derive(Debug)]
pub enum AdapterEvent {
    LlmStart { node_id: String, request: JsonValue, timestamp: Timestamp },
    LlmEnd { node_id: String, response: JsonValue, duration_ms: u64, timestamp: Timestamp },
    ToolStart { node_id: String, tool_name: String, inputs: JsonValue, timestamp: Timestamp },
    ToolEnd {
        node_id: String,
        tool_name: String,
        outputs: JsonValue,
        duration_ms: u64,
        timestamp: Timestamp,
    },
    NodeTransition { from: String, to: String, timestamp: Timestamp },
    StepStart { name: String, data: JsonValue, timestamp: Timestamp },
    StepEnd { name: String, data: JsonValue, timestamp: Timestamp },
}

/// The model of an adapter event.
pub enum EventView {
    LlmStart { node_id: Seq<char>, request: JsonView, timestamp: Timestamp },
    LlmEnd { node_id: Seq<char>, response: JsonView, duration_ms: u64, timestamp: Timestamp },
    ToolStart { node_id: Seq<char>, tool_name: Seq<char>, inputs: JsonView, timestamp: Timestamp },
    ToolEnd {
        node_id: Seq<char>,
        tool_name: Seq<char>,
        outputs: JsonView,
        duration_ms: u64,
        timestamp: Timestamp,
    },
    NodeTransition { from: Seq<char>, to: Seq<char>, timestamp: Timestamp },
    StepStart { name: Seq<char>, data: JsonView, timestamp: Timestamp },
    StepEnd { name: Seq<char>, data: JsonView, timestamp: Timestamp },
}

pub open spec fn event_view(e: AdapterEvent) -> EventView {
    match e {
        AdapterEvent::LlmStart { node_id, request, timestamp } => EventView::LlmStart {
            node_id: node_id@,
            request: request@,
            timestamp,
        },
        AdapterEvent::LlmEnd { node_id, response, duration_ms, timestamp } => EventView::LlmEnd {
            node_id: node_id@,
            response: response@,
            duration_ms,
            timestamp,
        },
        AdapterEvent::ToolStart { node_id, tool_name, inputs, timestamp } => EventView::ToolStart {
            node_id: node_id@,
            tool_name: tool_name@,
            inputs: inputs@,
            timestamp,
        },
        AdapterEvent::ToolEnd { node_id, tool_name, outputs, duration_ms, timestamp } =>
            EventView::ToolEnd {
            node_id: node_id@,
            tool_name: tool_name@,
            outputs: outputs@,
            duration_ms,
            timestamp,
        },
        AdapterEvent::NodeTransition { from, to, timestamp } => EventView::NodeTransition {
            from: from@,
            to: to@,
            timestamp,
        },
        AdapterEvent::StepStart { name, data, timestamp } => EventView::StepStart {
            name: name@,
            data: data@,
            timestamp,
        },
        AdapterEvent::StepEnd { name, data, timestamp } => EventView::StepEnd {
            name: name@,
            data: data@,
            timestamp,
        },
    }
}

pub open spec fn events_view(s: Seq<AdapterEvent>) -> Seq<EventView> {
    s.map_values(|e: AdapterEvent| event_view(e))
}

/// A framework adapter: translates one callback payload into events.
pub trait FrameworkAdapter {
    /// The events one callback payload stands for.
    fn translate(&self, raw: &JsonValue) -> Vec<AdapterEvent>;

    /// The framework's name.
    fn framework_name(&self) -> &'static str;
}

// ---------------------------------------------------------------------------
// Reading payloads
// ---------------------------------------------------------------------------

/// Member `key`, or null when it is missing.
pub open spec fn member_or_null(v: JsonView, key: Seq<char>) -> JsonView {
    match json_get(v, key) {
        Some(m) => m,
        None => JsonView::Null,
    }
}

/// The text of member `key` when it is a string, else `default`.
pub open spec fn text_or(v: JsonView, key: Seq<char>, default: Seq<char>) -> Seq<char> {
    match json_get_str(v, key) {
        Some(s) => s,
        None => default,
    }
}

/// Member `key` when it is a non-negative integer, else 0.
pub open spec fn count_or_zero(v: JsonView, key: Seq<char>) -> u64 {
    match json_get(v, key) {
        Some(m) => match json_as_u64(m) {
            Some(n) => n,
            None => 0,
        },
        None => 0,
    }
}

/// The first of two options that is present.
pub open spec fn either<A>(a: Option<A>, b: Option<A>) -> Option<A> {
    if a is Some {
        a
    } else {
        b
    }
}

fn member_or_null_exec(v: &JsonValue, key: &str) -> (r: JsonValue)
    ensures
        r@ == member_or_null(v@, key@),
{
    match v.get(key) {
        Some(m) => m.duplicate(),
        None => JsonValue::Null,
    }
}

fn text_or_exec(v: &JsonValue, key: &str, default: &str) -> (r: String)
    ensures
        r@ == text_or(v@, key@, default@),
{
    match v.get(key) {
        Some(m) => match m.as_str() {
            Some(s) => String::from_str(s),
            None => String::from_str(default),
        },
        None => String::from_str(default),
    }
}

fn count_or_zero_exec(v: &JsonValue, key: &str) -> (r: u64)
    ensures
        r == count_or_zero(v@, key@),
{
    match v.get(key) {
        Some(m) => match m.as_u64() {
            Some(n) => n,
            None => 0,
        },
        None => 0,
    }
}

/// An object of three members, in the order given.
fn object3(k1: &str, v1: JsonValue, k2: &str, v2: JsonValue, k3: &str, v3: JsonValue) -> (r:
    JsonValue)
    ensures
        r@ == JsonView::Object(seq![(k1@, v1@), (k2@, v2@), (k3@, v3@)]),
{
    let ghost (w1, w2, w3) = (v1@, v2@, v3@);
    let mut m: Vec<(String, JsonValue)> = Vec::new();
    m.push((String::from_str(k1), v1));
    m.push((String::from_str(k2), v2));
    m.push((String::from_str(k3), v3));
    proof {
        lemma_json_entries_view(m@);
        assert(json_entries_view(m@) =~= seq![(k1@, w1), (k2@, w2), (k3@, w3)]);
    }
    JsonValue::Object(m)
}

/// An empty string value.
fn empty_text() -> (r: JsonValue)
    ensures
        r@ == JsonView::Str(Seq::empty()),
{
    proof {
        reveal_strlit("");
        assert(""@ =~= Seq::<char>::empty());
    }
    JsonValue::Str(String::from_str(""))
}

// ---------------------------------------------------------------------------
// Text search
// ---------------------------------------------------------------------------

/// Whether `p` occurs in `s` at position `i`.
pub open spec fn occurs_at(s: Seq<char>, p: Seq<char>, i: int) -> bool {
    0 <= i && i + p.len() <= s.len() && s.subrange(i, i + p.len()) == p
}

/// The first position at or after `j` where `p` occurs in `s`.
pub open spec fn find_from(s: Seq<char>, p: Seq<char>, j: int) -> Option<int>
    decreases s.len() + 1 - j,
{
    if j < 0 || j + p.len() > s.len() {
        None
    } else if occurs_at(s, p, j) {
        Some(j)
    } else {
        find_from(s, p, j + 1)
    }
}

/// Whether `s` starts with `p`.
pub open spec fn has_prefix(s: Seq<char>, p: Seq<char>) -> bool {
    occurs_at(s, p, 0)
}

fn occurs_at_exec(s: &Vec<char>, p: &Vec<char>, i: usize) -> (r: bool)
    requires
        i <= s@.len(),
    ensures
        r == occurs_at(s@, p@, i as int),
{
    if p.len() > s.len() - i {
        return false;
    }
    let mut k: usize = 0;
    while k < p.len()
        invariant
            k <= p@.len(),
            i <= s@.len(),
            s@.len() == s.len(),
            i + p@.len() <= s@.len(),
            forall|m: int| 0 <= m < k ==> s@[i + m] == #[trigger] p@[m],
        decreases p.len() - k,
    {
        if s[i + k] != p[k] {
            assert(s@.subrange(i as int, i + p@.len())[k as int] != p@[k as int]);
            return false;
        }
        k += 1;
    }
    assert(s@.subrange(i as int, i + p@.len()) =~= p@);
    true
}

fn find_from_exec(s: &Vec<char>, p: &Vec<char>, j: usize) -> (r: Option<usize>)
    requires
        j <= s@.len(),
        p@.len() > 0,
    ensures
        match r {
            Some(i) => find_from(s@, p@, j as int) == Some(i as int) && i <= s@.len(),
            None => find_from(s@, p@, j as int) is None,
        },
{
    let mut k = j;
    while k <= s.len() && p.len() <= s.len() - k
        invariant
            j <= k,
            p@.len() > 0,
            k <= s@.len() + 1,
            find_from(s@, p@, j as int) == find_from(s@, p@, k as int),
        decreases s@.len() + 1 - k,
    {
        if occurs_at_exec(s, p, k) {
            return Some(k);
        }
        k += 1;
    }
    None
}

/// The text after `prefix` when `s` starts with it.
fn strip_prefix_exec(s: &str, prefix: &str) -> (r: Option<String>)
    ensures
        match r {
            Some(t) => has_prefix(s@, prefix@) && t@ == s@.subrange(prefix@.len() as int, s@.len() as int),
            None => !has_prefix(s@, prefix@),
        },
{
    let cs = chars_of(s);
    let ps = chars_of(prefix);
    if occurs_at_exec(&cs, &ps, 0) {
        Some(String::from_str(s.substring_char(ps.len(), cs.len())))
    } else {
        None
    }
}

// ---------------------------------------------------------------------------
// LangChain
// ---------------------------------------------------------------------------

/// LangChain callback events (`on_llm_start`, `on_llm_end`, `on_tool_start`,
/// `on_tool_end`, `on_chain_start`, `on_chain_end`).
#[derive(Debug)]
pub struct LangChainAdapter;

/// The model name a LangChain `repr` string embeds, as in
/// `ChatOllama(callbacks=[...], model='ministral-3:3b')`: the text after the
/// first `model=` (up to any later `model=`) must open with a quote, and
/// the name runs to the next such quote; an empty name counts as none.
pub open spec fn repr_model(serialized: JsonView) -> Option<Seq<char>> {
    match json_get_str(serialized, "repr"@) {
        None => None,
        Some(repr) => match find_from(repr, "model="@, 0) {
            None => None,
            Some(a) => {
                let start = a + 6;
                let end = match find_from(repr, "model="@, start) {
                    Some(b) => b,
                    None => repr.len() as int,
                };
                let after = repr.subrange(start, end);
                if after.len() == 0 {
                    None
                } else {
                    let q = after[0];
                    if q != '\'' && q != '"' {
                        None
                    } else {
                        let inner = after.subrange(1, after.len() as int);
                        let model = inner.subrange(0, scan(inner, 0, 0, q));
                        if model.len() == 0 {
                            None
                        } else {
                            Some(model)
                        }
                    }
                }
            },
        },
    }
}

/// The text of the first item of member `id` when it is an array whose first
/// item is a string.
pub open spec fn id_first(serialized: JsonView) -> Option<Seq<char>> {
    match json_get(serialized, "id"@) {
        Some(ids) => match json_as_array(ids) {
            Some(a) => if a.len() > 0 {
                json_as_str(a[0])
            } else {
                None
            },
            None => None,
        },
        None => None,
    }
}

/// The text of the last item of member `id` when it is an array whose last
/// item is a string.
pub open spec fn id_last(serialized: JsonView) -> Option<Seq<char>> {
    match json_get(serialized, "id"@) {
        Some(ids) => match json_as_array(ids) {
            Some(a) => if a.len() > 0 {
                json_as_str(a[a.len() - 1])
            } else {
                None
            },
            None => None,
        },
        None => None,
    }
}

/// The model of an `on_llm_start` payload: from the first of `model_name`,
/// `model`, or the nested `kwargs` `model_name` / `model` present in
/// `kwargs` (when that is a string), else from the `repr` string, else the
/// last `id` item, else `unknown`.
pub open spec fn llm_start_model(serialized: JsonView) -> Seq<char> {
    let picked = match json_get(serialized, "kwargs"@) {
        Some(k) => either(
            json_get(k, "model_name"@),
            either(
                json_get(k, "model"@),
                match json_get(k, "kwargs"@) {
                    Some(kk) => either(json_get(kk, "model_name"@), json_get(kk, "model"@)),
                    None => None,
                },
            ),
        ),
        None => None,
    };
    let from_kwargs = match picked {
        Some(v) => json_as_str(v),
        None => None,
    };
    match either(from_kwargs, either(repr_model(serialized), id_last(serialized))) {
        Some(m) => m,
        None => "unknown"@,
    }
}

/// The provider of an `on_llm_start` payload: the first `id` item without a
/// `langchain_` or `langchain-` prefix, else `langchain`.
pub open spec fn llm_start_provider(serialized: JsonView) -> Seq<char> {
    match id_first(serialized) {
        Some(s) => if has_prefix(s, "langchain_"@) {
            s.subrange(10, s.len() as int)
        } else if has_prefix(s, "langchain-"@) {
            s.subrange(10, s.len() as int)
        } else {
            s
        },
        None => "langchain"@,
    }
}

/// The first generation of an `on_llm_end` response: the first item of the
/// first item of `generations`, when those are arrays.
pub open spec fn first_generation(response: JsonView) -> Option<JsonView> {
    match json_get(response, "generations"@) {
        Some(g) => match json_as_array(g) {
            Some(gens) => if gens.len() > 0 {
                match json_as_array(gens[0]) {
                    Some(a) => if a.len() > 0 {
                        Some(a[0])
                    } else {
                        None
                    },
                    None => None,
                }
            } else {
                None
            },
            None => None,
        },
        None => None,
    }
}

/// The value, or null.
pub open spec fn or_null(v: Option<JsonView>) -> JsonView {
    match v {
        Some(x) => x,
        None => JsonView::Null,
    }
}

/// The normalized response of an `on_llm_end` payload: the first
/// generation's text (empty when missing), the model (from `llm_output`
/// `model_name` or `model`, else the first generation's
/// `generation_info.model`, when a string, else `unknown`) and the token
/// usage counts (null when missing).
pub open spec fn llm_end_response(response: JsonView) -> JsonView {
    let gen = first_generation(response);
    let content = match gen {
        Some(g) => match json_get(g, "text"@) {
            Some(t) => t,
            None => JsonView::Str(Seq::empty()),
        },
        None => JsonView::Str(Seq::empty()),
    };
    let llm_output = member_or_null(response, "llm_output"@);
    let usage = member_or_null(llm_output, "token_usage"@);
    let picked = either(
        json_get(llm_output, "model_name"@),
        either(
            json_get(llm_output, "model"@),
            match gen {
                Some(g) => match json_get(g, "generation_info"@) {
                    Some(gi) => json_get(gi, "model"@),
                    None => None,
                },
                None => None,
            },
        ),
    );
    let model = match picked {
        Some(v) => match json_as_str(v) {
            Some(s) => s,
            None => "unknown"@,
        },
        None => "unknown"@,
    };
    JsonView::Object(
        seq![
            ("content"@, content),
            ("model"@, JsonView::Str(model)),
            (
                "usage"@,
                JsonView::Object(
                    seq![
                        ("completion_tokens"@, or_null(json_get(usage, "completion_tokens"@))),
                        ("prompt_tokens"@, or_null(json_get(usage, "prompt_tokens"@))),
                        ("total_tokens"@, or_null(json_get(usage, "total_tokens"@))),
                    ],
                ),
            ),
        ],
    )
}

/// The name of a chain in `on_chain_start` / `on_chain_end`: the last `id`
/// item of `serialized`, else `chain`.
pub open spec fn chain_name(raw: JsonView) -> Seq<char> {
    match id_last(member_or_null(raw, "serialized"@)) {
        Some(n) => n,
        None => "chain"@,
    }
}

/// The events a LangChain callback payload stands for, at time `now`. The
/// node id of LLM and tool events is the payload's `run_id` (`unknown` when
/// missing). A payload without a `callback` string, or with another
/// callback, stands for no event.
pub open spec fn langchain_events(raw: JsonView, now: Timestamp) -> Seq<EventView> {
    let run_id = text_or(raw, "run_id"@, "unknown"@);
    match json_get_str(raw, "callback"@) {
        None => Seq::empty(),
        Some(cb) => if cb == "on_llm_start"@ {
            let serialized = member_or_null(raw, "serialized"@);
            seq![
                EventView::LlmStart {
                    node_id: run_id,
                    request: JsonView::Object(
                        seq![
                            ("messages"@, member_or_null(raw, "prompts"@)),
                            ("model"@, JsonView::Str(llm_start_model(serialized))),
                            ("provider"@, JsonView::Str(llm_start_provider(serialized))),
                        ],
                    ),
                    timestamp: now,
                },
            ]
        } else if cb == "on_llm_end"@ {
            seq![
                EventView::LlmEnd {
                    node_id: run_id,
                    response: llm_end_response(member_or_null(raw, "response"@)),
                    duration_ms: count_or_zero(raw, "duration_ms"@),
                    timestamp: now,
                },
            ]
        } else if cb == "on_tool_start"@ {
            seq![
                EventView::ToolStart {
                    node_id: run_id,
                    tool_name: text_or(member_or_null(raw, "serialized"@), "name"@, "unknown"@),
                    inputs: match json_get(raw, "input_str"@) {
                        Some(v) => v,
                        None => JsonView::Str(Seq::empty()),
                    },
                    timestamp: now,
                },
            ]
        } else if cb == "on_tool_end"@ {
            seq![
                EventView::ToolEnd {
                    node_id: run_id,
                    tool_name: "unknown"@,
                    outputs: member_or_null(raw, "output"@),
                    duration_ms: count_or_zero(raw, "duration_ms"@),
                    timestamp: now,
                },
            ]
        } else if cb == "on_chain_start"@ {
            seq![
                EventView::StepStart {
                    name: chain_name(raw),
                    data: member_or_null(raw, "inputs"@),
                    timestamp: now,
                },
            ]
        } else if cb == "on_chain_end"@ {
            seq![
                EventView::StepEnd {
                    name: chain_name(raw),
                    data: member_or_null(raw, "outputs"@),
                    timestamp: now,
                },
            ]
        } else {
            Seq::empty()
        },
    }
}

proof fn lemma_find_from(s: Seq<char>, p: Seq<char>, j: int)
    ensures
        find_from(s, p, j) matches Some(i) ==> j <= i && occurs_at(s, p, i),
    decreases s.len() + 1 - j,
{
    if !(j < 0 || j + p.len() > s.len()) && !occurs_at(s, p, j) {
        lemma_find_from(s, p, j + 1);
    }
}

proof fn lemma_scan_window(cs: Seq<char>, lo: int, hi: int, k: int, q: char)
    requires
        0 <= lo <= k <= hi <= cs.len(),
    ensures
        scan(cs.subrange(lo, hi), k - lo, 0, q) + lo == if scan(cs, k, 0, q) < hi {
            scan(cs, k, 0, q)
        } else {
            hi
        },
    decreases hi - k,
{
    let sub = cs.subrange(lo, hi);
    crate::expression::lemma_scan_bounds(cs, k, 0, q);
    if k < hi {
        assert(sub[k - lo] == cs[k]);
        if crate::expression::in_run(0, q, cs[k]) {
            lemma_scan_window(cs, lo, hi, k + 1, q);
        }
    }
}

/// The model name a `repr` string embeds (see `repr_model`).
fn repr_model_exec(serialized: &JsonValue) -> (r: Option<String>)
    ensures
        match r {
            Some(m) => repr_model(serialized@) == Some(m@),
            None => repr_model(serialized@) is None,
        },
{
    let repr = match serialized.get("repr") {
        Some(v) => match v.as_str() {
            Some(s) => s,
            None => return None,
        },
        None => return None,
    };
    let cs = chars_of(repr);
    let pat = chars_of("model=");
    proof {
        reveal_strlit("model=");
    }
    let a = match find_from_exec(&cs, &pat, 0) {
        Some(a) => a,
        None => return None,
    };
    proof {
        lemma_find_from(cs@, pat@, 0);
        assert(pat@.len() == 6);
        assert(occurs_at(cs@, pat@, a as int));
        assert(a + 6 <= cs@.len());
    }
    let n = cs.len();
    assert(a + 6 <= n);
    let start = a + 6;
    let end = match find_from_exec(&cs, &pat, start) {
        Some(b) => b,
        None => cs.len(),
    };
    proof {
        lemma_find_from(cs@, pat@, start as int);
    }
    let ghost after = cs@.subrange(start as int, end as int);
    if end == start {
        return None;
    }
    let q = cs[start];
    assert(after[0] == q);
    if q != '\'' && q != '"' {
        return None;
    }
    let e = crate::expression::scan_exec(&cs, start + 1, 0, q);
    let stop = if e < end {
        e
    } else {
        end
    };
    proof {
        lemma_scan_window(cs@, start + 1, end as int, start + 1, q);
        assert(after.subrange(1, after.len() as int) =~= cs@.subrange(start + 1, end as int));
        assert(after.subrange(1, after.len() as int).subrange(0, stop - start - 1) =~= cs@.subrange(
            start + 1,
            stop as int,
        ));
    }
    if stop == start + 1 {
        return None;
    }
    Some(String::from_str(repr.substring_char(start + 1, stop)))
}

fn id_item_exec(serialized: &JsonValue, last: bool) -> (r: Option<String>)
    ensures
        match r {
            Some(s) => (if last {
                id_last(serialized@)
            } else {
                id_first(serialized@)
            }) == Some(s@),
            None => (if last {
                id_last(serialized@)
            } else {
                id_first(serialized@)
            }) is None,
        },
{
    let ids = match serialized.get("id") {
        Some(v) => v,
        None => return None,
    };
    let a = match ids.as_array() {
        Some(a) => a,
        None => return None,
    };
    proof {
        lemma_json_seq_view(a@);
    }
    if a.len() == 0 {
        return None;
    }
    let item = if last {
        &a[a.len() - 1]
    } else {
        &a[0]
    };
    match item.as_str() {
        Some(s) => Some(String::from_str(s)),
        None => None,
    }
}

fn llm_start_model_exec(serialized: &JsonValue) -> (r: String)
    ensures
        r@ == llm_start_model(serialized@),
{
    let picked: Option<&JsonValue> = match serialized.get("kwargs") {
        Some(k) => match k.get("model_name") {
            Some(v) => Some(v),
            None => match k.get("model") {
                Some(v) => Some(v),
                None => match k.get("kwargs") {
                    Some(kk) => match kk.get("model_name") {
                        Some(v) => Some(v),
                        None => kk.get("model"),
                    },
                    None => None,
                },
            },
        },
        None => None,
    };
    let from_kwargs = match picked {
        Some(v) => v.as_str(),
        None => None,
    };
    proof {
        reveal_strlit("unknown");
    }
    match from_kwargs {
        Some(m) => String::from_str(m),
        None => match repr_model_exec(serialized) {
            Some(m) => m,
            None => match id_item_exec(serialized, true) {
                Some(m) => m,
                None => String::from_str("unknown"),
            },
        },
    }
}

fn llm_start_provider_exec(serialized: &JsonValue) -> (r: String)
    ensures
        r@ == llm_start_provider(serialized@),
{
    proof {
        reveal_strlit("langchain_");
        reveal_strlit("langchain-");
    }
    match id_item_exec(serialized, false) {
        Some(s) => match strip_prefix_exec(s.as_str(), "langchain_") {
            Some(t) => t,
            None => match strip_prefix_exec(s.as_str(), "langchain-") {
                Some(t) => t,
                None => s,
            },
        },
        None => String::from_str("langchain"),
    }
}

fn first_generation_exec(response: &JsonValue) -> (r: Option<&JsonValue>)
    ensures
        crate::json::opt_json_view(r) == first_generation(response@),
{
    let g = match response.get("generations") {
        Some(g) => g,
        None => return None,
    };
    let gens = match g.as_array() {
        Some(a) => a,
        None => return None,
    };
    proof {
        lemma_json_seq_view(gens@);
    }
    if gens.len() == 0 {
        return None;
    }
    let a = match gens[0].as_array() {
        Some(a) => a,
        None => return None,
    };
    proof {
        lemma_json_seq_view(a@);
    }
    if a.len() == 0 {
        return None;
    }
    Some(&a[0])
}

fn or_null_exec(v: Option<&JsonValue>) -> (r: JsonValue)
    ensures
        r@ == or_null(crate::json::opt_json_view(v)),
{
    match v {
        Some(x) => x.duplicate(),
        None => JsonValue::Null,
    }
}

fn llm_end_response_exec(response: &JsonValue) -> (r: JsonValue)
    ensures
        r@ == llm_end_response(response@),
{
    let gen = first_generation_exec(response);
    let content = match gen {
        Some(g) => match g.get("text") {
            Some(t) => t.duplicate(),
            None => empty_text(),
        },
        None => empty_text(),
    };
    let llm_output = member_or_null_exec(response, "llm_output");
    let usage = member_or_null_exec(&llm_output, "token_usage");
    let picked: Option<&JsonValue> = match llm_output.get("model_name") {
        Some(v) => Some(v),
        None => match llm_output.get("model") {
            Some(v) => Some(v),
            None => match gen {
                Some(g) => match g.get("generation_info") {
                    Some(gi) => gi.get("model"),
                    None => None,
                },
                None => None,
            },
        },
    };
    proof {
        reveal_strlit("unknown");
    }
    let model = match picked {
        Some(v) => match v.as_str() {
            Some(s) => String::from_str(s),
            None => String::from_str("unknown"),
        },
        None => String::from_str("unknown"),
    };
    let usage_obj = object3(
        "completion_tokens",
        or_null_exec(usage.get("completion_tokens")),
        "prompt_tokens",
        or_null_exec(usage.get("prompt_tokens")),
        "total_tokens",
        or_null_exec(usage.get("total_tokens")),
    );
    object3("content", content, "model", JsonValue::Str(model), "usage", usage_obj)
}

fn chain_name_exec(raw: &JsonValue) -> (r: String)
    ensures
        r@ == chain_name(raw@),
{
    let serialized = member_or_null_exec(raw, "serialized");
    match id_item_exec(&serialized, true) {
        Some(n) => n,
        None => String::from_str("chain"),
    }
}

impl LangChainAdapter {
    /// The events a callback payload stands for at time `now` (see
    /// `langchain_events`).
    pub fn translate_at(&self, raw: &JsonValue, now: Timestamp) -> (r: Vec<AdapterEvent>)
        ensures
            events_view(r@) == langchain_events(raw@, now),
    {
        let cb = match raw.get("callback") {
            Some(v) => match v.as_str() {
                Some(s) => s,
                None => return Vec::new(),
            },
            None => return Vec::new(),
        };
        let run_id = text_or_exec(raw, "run_id", "unknown");
        let event = if str_eq(cb, "on_llm_start") {
            let serialized = member_or_null_exec(raw, "serialized");
            let request = object3(
                "messages",
                member_or_null_exec(raw, "prompts"),
                "model",
                JsonValue::Str(llm_start_model_exec(&serialized)),
                "provider",
                JsonValue::Str(llm_start_provider_exec(&serialized)),
            );
            AdapterEvent::LlmStart { node_id: run_id, request, timestamp: now }
        } else if str_eq(cb, "on_llm_end") {
            let response = member_or_null_exec(raw, "response");
            AdapterEvent::LlmEnd {
                node_id: run_id,
                response: llm_end_response_exec(&response),
                duration_ms: count_or_zero_exec(raw, "duration_ms"),
                timestamp: now,
            }
        } else if str_eq(cb, "on_tool_start") {
            let serialized = member_or_null_exec(raw, "serialized");
            let inputs = match raw.get("input_str") {
                Some(v) => v.duplicate(),
                None => empty_text(),
            };
            AdapterEvent::ToolStart {
                node_id: run_id,
                tool_name: text_or_exec(&serialized, "name", "unknown"),
                inputs,
                timestamp: now,
            }
        } else if str_eq(cb, "on_tool_end") {
            AdapterEvent::ToolEnd {
                node_id: run_id,
                tool_name: String::from_str("unknown"),
                outputs: member_or_null_exec(raw, "output"),
                duration_ms: count_or_zero_exec(raw, "duration_ms"),
                timestamp: now,
            }
        } else if str_eq(cb, "on_chain_start") {
            AdapterEvent::StepStart {
                name: chain_name_exec(raw),
                data: member_or_null_exec(raw, "inputs"),
                timestamp: now,
            }
        } else if str_eq(cb, "on_chain_end") {
            AdapterEvent::StepEnd {
                name: chain_name_exec(raw),
                data: member_or_null_exec(raw, "outputs"),
                timestamp: now,
            }
        } else {
            return Vec::new();
        };
        let ghost ev = event_view(event);
        let mut out: Vec<AdapterEvent> = Vec::new();
        out.push(event);
        assert(events_view(out@) =~= seq![ev]);
        out
    }
}

impl FrameworkAdapter for LangChainAdapter {
    /// The events a callback payload stands for, stamped with the current
    /// time.
    fn translate(&self, raw: &JsonValue) -> (r: Vec<AdapterEvent>)
        ensures
            exists|now: Timestamp|
                now.nanos < 1_000_000_000 && events_view(r@) == langchain_events(raw@, now),
    {
        let now = utc_now();
        self.translate_at(raw, now)
    }

    fn framework_name(&self) -> (r: &'static str)
        ensures
            r@ == "langchain"@,
    {
        "langchain"
    }
}

// ---------------------------------------------------------------------------
// LangGraph
// ---------------------------------------------------------------------------

/// LangGraph callback events (`node_start`, `node_end`, `edge`,
/// `on_llm_start`, `on_llm_end`, `state_update`).
#[derive(Debug)]
pub struct LangGraphAdapter;

/// The events a LangGraph callback payload stands for, at time `now`. A
/// payload without a `callback` string, or with another callback, stands
/// for no event.
pub open spec fn langgraph_events(raw: JsonView, now: Timestamp) -> Seq<EventView> {
    let node = text_or(raw, "node"@, "unknown"@);
    match json_get_str(raw, "callback"@) {
        None => Seq::empty(),
        Some(cb) => if cb == "node_start"@ {
            seq![EventView::StepStart { name: node, data: member_or_null(raw, "state"@), timestamp: now }]
        } else if cb == "node_end"@ {
            seq![EventView::StepEnd { name: node, data: member_or_null(raw, "state"@), timestamp: now }]
        } else if cb == "edge"@ {
            seq![
                EventView::NodeTransition {
                    from: text_or(raw, "from"@, "unknown"@),
                    to: text_or(raw, "to"@, "unknown"@),
                    timestamp: now,
                },
            ]
        } else if cb == "on_llm_start"@ {
            seq![
                EventView::LlmStart {
                    node_id: node,
                    request: member_or_null(raw, "request"@),
                    timestamp: now,
                },
            ]
        } else if cb == "on_llm_end"@ {
            seq![
                EventView::LlmEnd {
                    node_id: node,
                    response: member_or_null(raw, "response"@),
                    duration_ms: count_or_zero(raw, "duration_ms"@),
                    timestamp: now,
                },
            ]
        } else if cb == "state_update"@ {
            seq![
                EventView::StepStart {
                    name: text_or(raw, "node"@, "state"@) + "_state_update"@,
                    data: member_or_null(raw, "updates"@),
                    timestamp: now,
                },
            ]
        } else {
            Seq::empty()
        },
    }
}

impl LangGraphAdapter {
    /// The events a callback payload stands for at time `now` (see
    /// `langgraph_events`).
    pub fn translate_at(&self, raw: &JsonValue, now: Timestamp) -> (r: Vec<AdapterEvent>)
        ensures
            events_view(r@) == langgraph_events(raw@, now),
    {
        let cb = match raw.get("callback") {
            Some(v) => match v.as_str() {
                Some(s) => s,
                None => return Vec::new(),
            },
            None => return Vec::new(),
        };
        let event = if str_eq(cb, "node_start") {
            AdapterEvent::StepStart {
                name: text_or_exec(raw, "node", "unknown"),
                data: member_or_null_exec(raw, "state"),
                timestamp: now,
            }
        } else if str_eq(cb, "node_end") {
            AdapterEvent::StepEnd {
                name: text_or_exec(raw, "node", "unknown"),
                data: member_or_null_exec(raw, "state"),
                timestamp: now,
            }
        } else if str_eq(cb, "edge") {
            AdapterEvent::NodeTransition {
                from: text_or_exec(raw, "from", "unknown"),
                to: text_or_exec(raw, "to", "unknown"),
                timestamp: now,
            }
        } else if str_eq(cb, "on_llm_start") {
            AdapterEvent::LlmStart {
                node_id: text_or_exec(raw, "node", "unknown"),
                request: member_or_null_exec(raw, "request"),
                timestamp: now,
            }
        } else if str_eq(cb, "on_llm_end") {
            AdapterEvent::LlmEnd {
                node_id: text_or_exec(raw, "node", "unknown"),
                response: member_or_null_exec(raw, "response"),
                duration_ms: count_or_zero_exec(raw, "duration_ms"),
                timestamp: now,
            }
        } else if str_eq(cb, "state_update") {
            let node = text_or_exec(raw, "node", "state");
            AdapterEvent::StepStart {
                name: join2(node.as_str(), "_state_update"),
                data: member_or_null_exec(raw, "updates"),
                timestamp: now,
            }
        } else {
            return Vec::new();
        };
        let ghost ev = event_view(event);
        let mut out: Vec<AdapterEvent> = Vec::new();
        out.push(event);
        assert(events_view(out@) =~= seq![ev]);
        out
    }
}

impl FrameworkAdapter for LangGraphAdapter {
    /// The events a callback payload stands for, stamped with the current
    /// time.
    fn translate(&self, raw: &JsonValue) -> (r: Vec<AdapterEvent>)
        ensures
            exists|now: Timestamp|
                now.nanos < 1_000_000_000 && events_view(r@) == langgraph_events(raw@, now),
    {
        let now = utc_now();
        self.translate_at(raw, now)
    }

    fn framework_name(&self) -> (r: &'static str)
        ensures
            r@ == "langgraph"@,
    {
        "langgraph"
    }
}

// ---------------------------------------------------------------------------
// Semantic Kernel
// ---------------------------------------------------------------------------

/// Semantic Kernel hook events (`function_invoking`, `function_invoked`,
/// `prompt_rendering`, `prompt_rendered`, `on_llm_start`, `on_llm_end`).
#[derive(Debug)]
pub struct SemanticKernelAdapter;

/// The events a Semantic Kernel callback payload stands for, at time `now`.
/// A function's node id is `plugin.function`. A payload without a
/// `callback` string, or with another callback, stands for no event.
pub open spec fn semantic_kernel_events(raw: JsonView, now: Timestamp) -> Seq<EventView> {
    let plugin = text_or(raw, "plugin_name"@, "unknown"@);
    let function = text_or(raw, "function_name"@, "unknown"@);
    let service = text_or(raw, "service_id"@, "llm"@);
    match json_get_str(raw, "callback"@) {
        None => Seq::empty(),
        Some(cb) => if cb == "function_invoking"@ {
            seq![
                EventView::ToolStart {
                    node_id: plugin + "."@ + function,
                    tool_name: function,
                    inputs: member_or_null(raw, "arguments"@),
                    timestamp: now,
                },
            ]
        } else if cb == "function_invoked"@ {
            seq![
                EventView::ToolEnd {
                    node_id: plugin + "."@ + function,
                    tool_name: function,
                    outputs: member_or_null(raw, "result"@),
                    duration_ms: count_or_zero(raw, "duration_ms"@),
                    timestamp: now,
                },
            ]
        } else if cb == "prompt_rendering"@ {
            seq![
                EventView::StepStart {
                    name: "prompt_rendering"@,
                    data: member_or_null(raw, "template"@),
                    timestamp: now,
                },
            ]
        } else if cb == "prompt_rendered"@ {
            seq![
                EventView::StepEnd {
                    name: "prompt_rendering"@,
                    data: member_or_null(raw, "rendered_prompt"@),
                    timestamp: now,
                },
            ]
        } else if cb == "on_llm_start"@ {
            seq![
                EventView::LlmStart {
                    node_id: service,
                    request: member_or_null(raw, "request"@),
                    timestamp: now,
                },
            ]
        } else if cb == "on_llm_end"@ {
            seq![
                EventView::LlmEnd {
                    node_id: service,
                    response: member_or_null(raw, "response"@),
                    duration_ms: count_or_zero(raw, "duration_ms"@),
                    timestamp: now,
                },
            ]
        } else {
            Seq::empty()
        },
    }
}

impl SemanticKernelAdapter {
    /// The events a callback payload stands for at time `now` (see
    /// `semantic_kernel_events`).
    pub fn translate_at(&self, raw: &JsonValue, now: Timestamp) -> (r: Vec<AdapterEvent>)
        ensures
            events_view(r@) == semantic_kernel_events(raw@, now),
    {
        let cb = match raw.get("callback") {
            Some(v) => match v.as_str() {
                Some(s) => s,
                None => return Vec::new(),
            },
            None => return Vec::new(),
        };
        let event = if str_eq(cb, "function_invoking") || str_eq(cb, "function_invoked") {
            let plugin = text_or_exec(raw, "plugin_name", "unknown");
            let function = text_or_exec(raw, "function_name", "unknown");
            let node_id = join3(plugin.as_str(), ".", function.as_str());
            if str_eq(cb, "function_invoking") {
                AdapterEvent::ToolStart {
                    node_id,
                    tool_name: function,
                    inputs: member_or_null_exec(raw, "arguments"),
                    timestamp: now,
                }
            } else {
                AdapterEvent::ToolEnd {
                    node_id,
                    tool_name: function,
                    outputs: member_or_null_exec(raw, "result"),
                    duration_ms: count_or_zero_exec(raw, "duration_ms"),
                    timestamp: now,
                }
            }
        } else if str_eq(cb, "prompt_rendering") {
            AdapterEvent::StepStart {
                name: String::from_str("prompt_rendering"),
                data: member_or_null_exec(raw, "template"),
                timestamp: now,
            }
        } else if str_eq(cb, "prompt_rendered") {
            AdapterEvent::StepEnd {
                name: String::from_str("prompt_rendering"),
                data: member_or_null_exec(raw, "rendered_prompt"),
                timestamp: now,
            }
        } else if str_eq(cb, "on_llm_start") {
            AdapterEvent::LlmStart {
                node_id: text_or_exec(raw, "service_id", "llm"),
                request: member_or_null_exec(raw, "request"),
                timestamp: now,
            }
        } else if str_eq(cb, "on_llm_end") {
            AdapterEvent::LlmEnd {
                node_id: text_or_exec(raw, "service_id", "llm"),
                response: member_or_null_exec(raw, "response"),
                duration_ms: count_or_zero_exec(raw, "duration_ms"),
                timestamp: now,
            }
        } else {
            return Vec::new();
        };
        let ghost ev = event_view(event);
        let mut out: Vec<AdapterEvent> = Vec::new();
        out.push(event);
        assert(events_view(out@) =~= seq![ev]);
        out
    }
}

impl FrameworkAdapter for SemanticKernelAdapter {
    /// The events a callback payload stands for, stamped with the current
    /// time.
    fn translate(&self, raw: &JsonValue) -> (r: Vec<AdapterEvent>)
        ensures
            exists|now: Timestamp|
                now.nanos < 1_000_000_000 && events_view(r@) == semantic_kernel_events(raw@, now),
    {
        let now = utc_now();
        self.translate_at(raw, now)
    }

    fn framework_name(&self) -> (r: &'static str)
        ensures
            r@ == "semantic_kernel"@,
    {
        "semantic_kernel"
    }
}

} // verus!
