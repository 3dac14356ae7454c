//! The LLM usage summary of a run.
use vstd::prelude::*;
use crate::json::{json_as_array, json_as_u64, json_get, json_get_str, JsonValue, JsonView};
use crate::reconstruct::LlmInvocationRecord;
use crate::sorted::{sorted_unique, strictly_sorted, texts_of};

verus! {

/// Counts over a run's LLM calls. (The total cost, a sum of fractional
/// amounts, is added by whoever reports the summary.)
#[derive(Debug)]
pub struct LlmRunSummary {
    pub total_llm_calls: u32,
    pub total_input_tokens: u64,
    pub total_output_tokens: u64,
    /// The models called, sorted, each once.
    pub models_used: Vec<String>,
    /// The tools the responses asked for, sorted, each once.
    pub tools_invoked: Vec<String>,
}

/// A token count of a response, 0 when it is missing.
pub open spec fn token_count(response: JsonView, key: Seq<char>) -> nat {
    match json_get(response, key) {
        Some(v) => match json_as_u64(v) {
            Some(n) => n as nat,
            None => 0,
        },
        None => 0,
    }
}

/// The sum of a token count over the first `k` records.
pub open spec fn tokens_upto(records: Seq<LlmInvocationRecord>, key: Seq<char>, k: int) -> nat
    decreases k,
{
    if k <= 0 {
        0
    } else {
        tokens_upto(records, key, k - 1) + token_count(records[k - 1].response@, key)
    }
}

/// The model names of the first `k` requests (a request without a model
/// name contributes none).
pub open spec fn models_upto(records: Seq<LlmInvocationRecord>, k: int) -> Seq<Seq<char>>
    decreases k,
{
    if k <= 0 {
        Seq::empty()
    } else {
        match json_get_str(records[k - 1].request@, "model"@) {
            Some(m) => models_upto(records, k - 1).push(m),
            None => models_upto(records, k - 1),
        }
    }
}

/// The tool names a response asks for: the `tool_name` of each of its
/// `tool_calls` that has one.
pub open spec fn tool_names(calls: Seq<JsonView>, k: int) -> Seq<Seq<char>>
    decreases k,
{
    if k <= 0 {
        Seq::empty()
    } else {
        match json_get_str(calls[k - 1], "tool_name"@) {
            Some(t) => tool_names(calls, k - 1).push(t),
            None => tool_names(calls, k - 1),
        }
    }
}

/// The tool names the first `k` responses ask for.
pub open spec fn tools_upto(records: Seq<LlmInvocationRecord>, k: int) -> Seq<Seq<char>>
    decreases k,
{
    if k <= 0 {
        Seq::empty()
    } else {
        let calls = match json_get(records[k - 1].response@, "tool_calls"@) {
            Some(v) => match json_as_array(v) {
                Some(a) => a,
                None => Seq::empty(),
            },
            None => Seq::empty(),
        };
        tools_upto(records, k - 1) + tool_names(calls, calls.len() as int)
    }
}

/// The tool calls a response carries: its `tool_calls` array, else none.
pub open spec fn response_calls(response: JsonView) -> Seq<JsonView> {
    match json_get(response, "tool_calls"@) {
        Some(v) => match json_as_array(v) {
            Some(a) => a,
            None => Seq::empty(),
        },
        None => Seq::empty(),
    }
}

proof fn lemma_tool_names(calls: Seq<JsonView>, k: int, t: Seq<char>)
    requires
        0 <= k <= calls.len(),
    ensures
        tool_names(calls, k).contains(t) <==> exists|j: int|
            0 <= j < k && json_get_str(#[trigger] calls[j], "tool_name"@) == Some(t),
    decreases k,
{
    if k > 0 {
        lemma_tool_names(calls, k - 1, t);
        let prev = tool_names(calls, k - 1);
        match json_get_str(calls[k - 1], "tool_name"@) {
            Some(x) => {
                assert(tool_names(calls, k) == prev.push(x));
                if prev.contains(t) {
                    let i = choose|i: int| 0 <= i < prev.len() && prev[i] == t;
                    assert(prev.push(x)[i] == t);
                }
                if x == t {
                    assert(prev.push(x)[prev.len() as int] == t);
                }
                if prev.push(x).contains(t) {
                    let i = choose|i: int| 0 <= i < prev.len() + 1 && prev.push(x)[i] == t;
                    if i < prev.len() {
                        assert(prev[i] == t);
                    }
                }
            },
            None => {},
        }
    }
}

/// The tools of the first `k` responses are exactly the `tool_name`s of
/// all their tool calls: every call's name is among them, whichever
/// response and whichever position in its `tool_calls` it has, and nothing
/// else is.
pub proof fn law_tools_of_all_calls(records: Seq<LlmInvocationRecord>, k: int, t: Seq<char>)
    requires
        0 <= k <= records.len(),
    ensures
        tools_upto(records, k).contains(t) <==> exists|i: int, j: int|
            0 <= i < k && 0 <= j < response_calls(records[i].response@).len() && json_get_str(
                #[trigger] response_calls(records[i].response@)[j],
                "tool_name"@,
            ) == Some(t),
    decreases k,
{
    if k > 0 {
        law_tools_of_all_calls(records, k - 1, t);
        let prev = tools_upto(records, k - 1);
        let calls = response_calls(records[k - 1].response@);
        let names = tool_names(calls, calls.len() as int);
        lemma_tool_names(calls, calls.len() as int, t);
        assert(tools_upto(records, k) == prev + names);
        if (prev + names).contains(t) {
            let x = choose|x: int| 0 <= x < (prev + names).len() && (prev + names)[x] == t;
            if x < prev.len() {
                assert(prev[x] == t);
            } else {
                assert(names[x - prev.len()] == t);
                assert(names.contains(t));
            }
        }
        if prev.contains(t) {
            let x = choose|x: int| 0 <= x < prev.len() && prev[x] == t;
            assert((prev + names)[x] == t);
        }
        if names.contains(t) {
            let x = choose|x: int| 0 <= x < names.len() && names[x] == t;
            assert((prev + names)[prev.len() + x] == t);
        }
        if exists|i: int, j: int|
            0 <= i < k && 0 <= j < response_calls(records[i].response@).len() && json_get_str(
                #[trigger] response_calls(records[i].response@)[j],
                "tool_name"@,
            ) == Some(t) {
            let (i, j) = choose|i: int, j: int|
                0 <= i < k && 0 <= j < response_calls(records[i].response@).len() && json_get_str(
                    #[trigger] response_calls(records[i].response@)[j],
                    "tool_name"@,
                ) == Some(t);
            if i == k - 1 {
                assert(json_get_str(calls[j], "tool_name"@) == Some(t));
            }
        }
    }
}

/// Token totals add up: the tokens of two lists of calls together are the
/// tokens of the one plus those of the other, and a single call counts its
/// response's own count (0 when it reports none).
pub proof fn law_tokens_add_up(a: Seq<LlmInvocationRecord>, b: Seq<LlmInvocationRecord>, key: Seq<char>)
    ensures
        tokens_upto(a + b, key, (a + b).len() as int) == tokens_upto(a, key, a.len() as int) + tokens_upto(
            b,
            key,
            b.len() as int,
        ),
        b.len() == 1 ==> tokens_upto(b, key, 1) == token_count(b[0].response@, key),
    decreases b.len(),
{
    if b.len() > 0 {
        let b0 = b.drop_last();
        law_tokens_add_up(a, b0, key);
        assert((a + b).drop_last() =~= a + b0);
        lemma_tokens_prefix(a + b, key, (a + b).len() - 1);
        lemma_tokens_prefix(b, key, b.len() - 1);
        assert((a + b).take((a + b).len() - 1) =~= a + b0);
        assert(b.take(b.len() - 1) =~= b0);
        assert((a + b)[(a + b).len() - 1] == b[b.len() - 1]);
    }
}

/// The tokens of the first `k` records only look at those records.
proof fn lemma_tokens_prefix(s: Seq<LlmInvocationRecord>, key: Seq<char>, k: int)
    requires
        0 <= k <= s.len(),
    ensures
        tokens_upto(s, key, k) == tokens_upto(s.take(k), key, k),
    decreases k,
{
    if k > 0 {
        lemma_tokens_prefix(s, key, k - 1);
        lemma_tokens_prefix(s.take(k), key, k - 1);
        assert(s.take(k).take(k - 1) =~= s.take(k - 1));
        assert(s.take(k)[k - 1] == s[k - 1]);
    }
}

/// The models of the first `k` requests are exactly their `model` names.
pub proof fn law_models_of_all_requests(records: Seq<LlmInvocationRecord>, k: int, m: Seq<char>)
    requires
        0 <= k <= records.len(),
    ensures
        models_upto(records, k).contains(m) <==> exists|i: int|
            0 <= i < k && json_get_str(#[trigger] records[i].request@, "model"@) == Some(m),
    decreases k,
{
    if k > 0 {
        law_models_of_all_requests(records, k - 1, m);
        let prev = models_upto(records, k - 1);
        match json_get_str(records[k - 1].request@, "model"@) {
            Some(x) => {
                if prev.contains(m) {
                    let i = choose|i: int| 0 <= i < prev.len() && prev[i] == m;
                    assert(prev.push(x)[i] == m);
                }
                if x == m {
                    assert(prev.push(x)[prev.len() as int] == m);
                }
                if prev.push(x).contains(m) {
                    let i = choose|i: int| 0 <= i < prev.len() + 1 && prev.push(x)[i] == m;
                    if i < prev.len() {
                        assert(prev[i] == m);
                    }
                }
            },
            None => {},
        }
    }
}

fn token_count_exec(response: &JsonValue, key: &str) -> (r: u64)
    ensures
        r as nat == token_count(response@, key@),
{
    match response.get(key) {
        Some(v) => match v.as_u64() {
            Some(n) => n,
            None => 0,
        },
        None => 0,
    }
}

/// The summary of a run's LLM calls: how many there were (as a 32-bit
/// count, wrapping), the input and output tokens they used, and the models
/// and tools involved.
pub fn compute_llm_summary(records: &Vec<LlmInvocationRecord>) -> (r: LlmRunSummary)
    requires
        tokens_upto(records@, "input_tokens"@, records@.len() as int) <= u64::MAX,
        tokens_upto(records@, "output_tokens"@, records@.len() as int) <= u64::MAX,
    ensures
        r.total_llm_calls == #[verifier::truncate] (records@.len() as u32),
        r.total_input_tokens == tokens_upto(records@, "input_tokens"@, records@.len() as int),
        r.total_output_tokens == tokens_upto(records@, "output_tokens"@, records@.len() as int),
        strictly_sorted(texts_of(r.models_used@)),
        texts_of(r.models_used@).to_set() == models_upto(records@, records@.len() as int).to_set(),
        strictly_sorted(texts_of(r.tools_invoked@)),
        texts_of(r.tools_invoked@).to_set() == tools_upto(records@, records@.len() as int).to_set(),
{
    let mut input: u64 = 0;
    let mut output: u64 = 0;
    let mut models: Vec<String> = Vec::new();
    let mut tools: Vec<String> = Vec::new();
    let mut k: usize = 0;
    while k < records.len()
        invariant
            k <= records@.len(),
            tokens_upto(records@, "input_tokens"@, records@.len() as int) <= u64::MAX,
            tokens_upto(records@, "output_tokens"@, records@.len() as int) <= u64::MAX,
            input as nat == tokens_upto(records@, "input_tokens"@, k as int),
            output as nat == tokens_upto(records@, "output_tokens"@, k as int),
            texts_of(models@) == models_upto(records@, k as int),
            texts_of(tools@) == tools_upto(records@, k as int),
        decreases records.len() - k,
    {
        proof {
            lemma_tokens_mono(records@, "input_tokens"@, k + 1, records@.len() as int);
            lemma_tokens_mono(records@, "output_tokens"@, k + 1, records@.len() as int);
        }
        let rec = &records[k];
        input = input + token_count_exec(&rec.response, "input_tokens");
        output = output + token_count_exec(&rec.response, "output_tokens");
        match rec.request.get("model") {
            Some(v) => match v.as_str() {
                Some(m) => {
                    models.push(String::from_str(m));
                    assert(texts_of(models@) =~= models_upto(records@, k + 1));
                },
                None => {},
            },
            None => {},
        }
        let ghost tools0 = texts_of(tools@);
        let calls: Option<&Vec<JsonValue>> = match rec.response.get("tool_calls") {
            Some(v) => v.as_array(),
            None => None,
        };
        let ghost cv: Seq<JsonView> = match calls {
            Some(a) => crate::json::json_seq_view(a@),
            None => Seq::empty(),
        };
        match calls {
            Some(a) => {
                proof {
                    crate::json::lemma_json_seq_view(a@);
                }
                let mut j: usize = 0;
                while j < a.len()
                    invariant
                        j <= a@.len(),
                        cv == crate::json::json_seq_view(a@),
                        cv.len() == a@.len(),
                        forall|i: int| 0 <= i < cv.len() ==> #[trigger] cv[i] == a@[i]@,
                        texts_of(tools@) == tools0 + tool_names(cv, j as int),
                    decreases a.len() - j,
                {
                    assert(cv[j as int] == a@[j as int]@);
                    match a[j].get("tool_name") {
                        Some(t) => match t.as_str() {
                            Some(name) => {
                                let ghost t0 = texts_of(tools@);
                                assert(json_get_str(cv[j as int], "tool_name"@) == Some(name@));
                                assert(tool_names(cv, j + 1) == tool_names(cv, j as int).push(name@));
                                tools.push(String::from_str(name));
                                assert(texts_of(tools@) =~= t0.push(name@));
                                assert(texts_of(tools@) =~= tools0 + tool_names(cv, j + 1));
                            },
                            None => {},
                        },
                        None => {},
                    }
                    j += 1;
                }
            },
            None => {
                assert(tool_names(cv, 0) =~= Seq::<Seq<char>>::empty());
                assert(tools0 + tool_names(cv, 0) =~= tools0);
            },
        }
        assert(texts_of(tools@) =~= tools_upto(records@, k + 1));
        k += 1;
    }
    LlmRunSummary {
        total_llm_calls: #[verifier::truncate] (records.len() as u32),
        total_input_tokens: input,
        total_output_tokens: output,
        models_used: sorted_unique(&models),
        tools_invoked: sorted_unique(&tools),
    }
}

proof fn lemma_tokens_mono(records: Seq<LlmInvocationRecord>, key: Seq<char>, a: int, b: int)
    requires
        0 <= a <= b,
    ensures
        tokens_upto(records, key, a) <= tokens_upto(records, key, b),
    decreases b - a,
{
    if a < b {
        lemma_tokens_mono(records, key, a, b - 1);
    }
}

} // verus!
