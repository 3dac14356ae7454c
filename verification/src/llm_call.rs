//! Reading the LLM request and response that a framework reports into the
//! fields a run's record keeps of an LLM call.
use vstd::prelude::*;
use crate::json::{
    duplicate_all, json_as_u64, json_get, json_seq_view, opt_json_view, JsonNumber, JsonValue, JsonView,
};

verus! {

/// An LLM request as a run's record keeps it. Sampling parameters keep the
/// number the framework reported.
#[derive(Debug)]
pub struct LlmRequestInfo {
    pub provider: String,
    pub model: String,
    pub messages: JsonValue,
    pub tools: Option<Vec<JsonValue>>,
    pub temperature: Option<JsonNumber>,
    pub top_p: Option<JsonNumber>,
    pub max_tokens: Option<u32>,
    pub response_format: Option<JsonValue>,
    pub seed: Option<u64>,
}

/// An LLM response as a run's record keeps it.
#[derive(Debug)]
pub struct LlmResponseInfo {
    pub content: JsonValue,
    pub model_used: String,
    pub input_tokens: Option<u32>,
    pub output_tokens: Option<u32>,
    pub total_tokens: Option<u32>,
    pub finish_reason: String,
    pub latency_ms: u64,
    pub provider_request_id: Option<String>,
}

/// The text of a member that is a string, else `default`.
pub open spec fn text_or(v: Option<JsonView>, default: Seq<char>) -> Seq<char> {
    match v {
        Some(JsonView::Str(s)) => s,
        _ => default,
    }
}

/// The number of a member that is a number.
pub open spec fn number_of(v: Option<JsonView>) -> Option<JsonNumber> {
    match v {
        Some(JsonView::Number(n)) => Some(n),
        _ => None,
    }
}

/// A member that is a non-negative integer.
pub open spec fn u64_of(v: Option<JsonView>) -> Option<u64> {
    match v {
        Some(x) => json_as_u64(x),
        None => None,
    }
}

/// A member that is a non-negative integer, cut to its low 32 bits.
pub open spec fn u32_of(v: Option<JsonView>) -> Option<u32> {
    match u64_of(v) {
        Some(n) => Some(#[verifier::truncate] (n as u32)),
        None => None,
    }
}

/// Member `a` when present, else member `b`.
pub open spec fn either_member(v: JsonView, a: Seq<char>, b: Seq<char>) -> Option<JsonView> {
    match json_get(v, a) {
        Some(x) => Some(x),
        None => json_get(v, b),
    }
}

/// The model of a request record.
pub struct RequestModel {
    pub provider: Seq<char>,
    pub model: Seq<char>,
    pub messages: JsonView,
    pub tools: Option<Seq<JsonView>>,
    pub temperature: Option<JsonNumber>,
    pub top_p: Option<JsonNumber>,
    pub max_tokens: Option<u32>,
    pub response_format: Option<JsonView>,
    pub seed: Option<u64>,
}

/// The model of a response record.
pub struct ResponseModel {
    pub content: JsonView,
    pub model_used: Seq<char>,
    pub input_tokens: Option<u32>,
    pub output_tokens: Option<u32>,
    pub total_tokens: Option<u32>,
    pub finish_reason: Seq<char>,
    pub latency_ms: u64,
    pub provider_request_id: Option<Seq<char>>,
}

pub open spec fn request_view(r: LlmRequestInfo) -> RequestModel {
    RequestModel {
        provider: r.provider@,
        model: r.model@,
        messages: r.messages@,
        tools: match r.tools {
            Some(items) => Some(json_seq_view(items@)),
            None => None,
        },
        temperature: r.temperature,
        top_p: r.top_p,
        max_tokens: r.max_tokens,
        response_format: match r.response_format {
            Some(v) => Some(v@),
            None => None,
        },
        seed: r.seed,
    }
}

pub open spec fn response_view(r: LlmResponseInfo) -> ResponseModel {
    ResponseModel {
        content: r.content@,
        model_used: r.model_used@,
        input_tokens: r.input_tokens,
        output_tokens: r.output_tokens,
        total_tokens: r.total_tokens,
        finish_reason: r.finish_reason@,
        latency_ms: r.latency_ms,
        provider_request_id: match r.provider_request_id {
            Some(s) => Some(s@),
            None => None,
        },
    }
}

/// What a run's record keeps of a reported request: provider and model
/// (`unknown` when missing), the messages (an empty array when missing),
/// the tools when they are an array, the sampling numbers, the token limit
/// (cut to 32 bits), the response format and the seed.
pub open spec fn request_model(raw: JsonView) -> RequestModel {
    RequestModel {
        provider: text_or(json_get(raw, "provider"@), "unknown"@),
        model: text_or(json_get(raw, "model"@), "unknown"@),
        messages: match json_get(raw, "messages"@) {
            Some(m) => m,
            None => JsonView::Array(Seq::empty()),
        },
        tools: match json_get(raw, "tools"@) {
            Some(JsonView::Array(items)) => Some(items),
            _ => None,
        },
        temperature: number_of(json_get(raw, "temperature"@)),
        top_p: number_of(json_get(raw, "top_p"@)),
        max_tokens: u32_of(json_get(raw, "max_tokens"@)),
        response_format: json_get(raw, "response_format"@),
        seed: u64_of(json_get(raw, "seed"@)),
    }
}

/// What a run's record keeps of a reported response that took
/// `duration_ms`: the content (else the text, else an empty string), the
/// model (`unknown` when missing), the token counts under `usage` (prompt or
/// input tokens, completion or output tokens, total tokens; cut to 32 bits),
/// the finish reason (else the stop reason; `stop` when missing) and the
/// provider's request id.
pub open spec fn response_model(raw: JsonView, duration_ms: u64) -> ResponseModel {
    let usage = json_get(raw, "usage"@);
    ResponseModel {
        content: match either_member(raw, "content"@, "text"@) {
            Some(c) => c,
            None => JsonView::Str(Seq::empty()),
        },
        model_used: text_or(json_get(raw, "model"@), "unknown"@),
        input_tokens: match usage {
            Some(u) => u32_of(either_member(u, "prompt_tokens"@, "input_tokens"@)),
            None => None,
        },
        output_tokens: match usage {
            Some(u) => u32_of(either_member(u, "completion_tokens"@, "output_tokens"@)),
            None => None,
        },
        total_tokens: match usage {
            Some(u) => u32_of(json_get(u, "total_tokens"@)),
            None => None,
        },
        finish_reason: text_or(either_member(raw, "finish_reason"@, "stop_reason"@), "stop"@),
        latency_ms: duration_ms,
        provider_request_id: match json_get(raw, "id"@) {
            Some(JsonView::Str(s)) => Some(s),
            _ => None,
        },
    }
}

fn text_or_exec(v: Option<&JsonValue>, default: &str) -> (r: String)
    ensures
        r@ == text_or(opt_json_view(v), default@),
{
    match v {
        Some(JsonValue::Str(s)) => s.clone(),
        _ => default.to_string(),
    }
}

fn number_of_exec(v: Option<&JsonValue>) -> (r: Option<JsonNumber>)
    ensures
        r == number_of(opt_json_view(v)),
{
    match v {
        Some(JsonValue::Number(n)) => Some(*n),
        _ => None,
    }
}

fn u64_of_exec(v: Option<&JsonValue>) -> (r: Option<u64>)
    ensures
        r == u64_of(opt_json_view(v)),
{
    match v {
        Some(x) => x.as_u64(),
        None => None,
    }
}

fn u32_of_exec(v: Option<&JsonValue>) -> (r: Option<u32>)
    ensures
        r == u32_of(opt_json_view(v)),
{
    match u64_of_exec(v) {
        Some(n) => Some(#[verifier::truncate] (n as u32)),
        None => None,
    }
}

fn either_member_exec<'a>(v: &'a JsonValue, a: &str, b: &str) -> (r: Option<&'a JsonValue>)
    ensures
        opt_json_view(r) == either_member(v@, a@, b@),
{
    match v.get(a) {
        Some(x) => Some(x),
        None => v.get(b),
    }
}

/// Reads a reported request (see `request_model`).
pub fn parse_llm_request(raw: &JsonValue) -> (r: LlmRequestInfo)
    ensures
        request_view(r) == request_model(raw@),
{
    let empty: Vec<JsonValue> = Vec::new();
    proof {
        crate::json::lemma_json_seq_view(empty@);
        assert(json_seq_view(empty@) =~= Seq::<JsonView>::empty());
    }
    let messages = match raw.get("messages") {
        Some(m) => m.duplicate(),
        None => JsonValue::Array(empty),
    };
    let tools = match raw.get("tools") {
        Some(JsonValue::Array(items)) => Some(duplicate_all(items)),
        _ => None,
    };
    let response_format = match raw.get("response_format") {
        Some(v) => Some(v.duplicate()),
        None => None,
    };
    LlmRequestInfo {
        provider: text_or_exec(raw.get("provider"), "unknown"),
        model: text_or_exec(raw.get("model"), "unknown"),
        messages,
        tools,
        temperature: number_of_exec(raw.get("temperature")),
        top_p: number_of_exec(raw.get("top_p")),
        max_tokens: u32_of_exec(raw.get("max_tokens")),
        response_format,
        seed: u64_of_exec(raw.get("seed")),
    }
}

/// Reads a reported response that took `duration_ms` (see `response_model`).
pub fn parse_llm_response(raw: &JsonValue, duration_ms: u64) -> (r: LlmResponseInfo)
    ensures
        response_view(r) == response_model(raw@, duration_ms),
{
    let content = match either_member_exec(raw, "content", "text") {
        Some(c) => c.duplicate(),
        None => JsonValue::Str(String::new()),
    };
    let (input_tokens, output_tokens, total_tokens) = match raw.get("usage") {
        Some(u) => (
            u32_of_exec(either_member_exec(u, "prompt_tokens", "input_tokens")),
            u32_of_exec(either_member_exec(u, "completion_tokens", "output_tokens")),
            u32_of_exec(u.get("total_tokens")),
        ),
        None => (None, None, None),
    };
    let provider_request_id = match raw.get("id") {
        Some(JsonValue::Str(s)) => Some(s.clone()),
        _ => None,
    };
    LlmResponseInfo {
        content,
        model_used: text_or_exec(raw.get("model"), "unknown"),
        input_tokens,
        output_tokens,
        total_tokens,
        finish_reason: text_or_exec(either_member_exec(raw, "finish_reason", "stop_reason"), "stop"),
        latency_ms: duration_ms,
        provider_request_id,
    }
}

} // verus!
