//! Reading what a node in a dynamic library returns: its outputs, or an
//! error object it reports instead.
use vstd::prelude::*;
use crate::errors::NodeError;
use crate::json::{json_get, JsonValue, JsonView};
use crate::text::str_eq;

verus! {

/// What a library node's result means: an object whose `type` is the
/// string `error` reports an error with its `message` (`unknown dylib
/// error` when that is not a string), retryable when its `retryable` is
/// `true`; any other value is the node's outputs.
pub open spec fn dylib_outcome(v: JsonView) -> Result<JsonView, (bool, Seq<char>)> {
    match json_get(v, "type"@) {
        Some(JsonView::Str(t)) => if t == "error"@ {
            let message = match json_get(v, "message"@) {
                Some(JsonView::Str(m)) => m,
                _ => "unknown dylib error"@,
            };
            let retryable = match json_get(v, "retryable"@) {
                Some(JsonView::Bool(b)) => b,
                _ => false,
            };
            Err((retryable, message))
        } else {
            Ok(v)
        },
        _ => Ok(v),
    }
}

/// Reads a library node's result (see `dylib_outcome`).
pub fn dylib_result(value: JsonValue) -> (r: Result<JsonValue, NodeError>)
    ensures
        match dylib_outcome(value@) {
            Ok(v) => r matches Ok(x) && x@ == v,
            Err((true, m)) => r matches Err(NodeError::Retryable { message }) && message@ == m,
            Err((false, m)) => r matches Err(NodeError::Fatal { message }) && message@ == m,
        },
{
    let is_error = match value.get("type") {
        Some(JsonValue::Str(t)) => str_eq(t.as_str(), "error"),
        _ => false,
    };
    if !is_error {
        return Ok(value);
    }
    let message = match value.get("message") {
        Some(JsonValue::Str(m)) => m.clone(),
        _ => "unknown dylib error".to_string(),
    };
    let retryable = match value.get("retryable") {
        Some(JsonValue::Bool(b)) => *b,
        _ => false,
    };
    if retryable {
        Err(NodeError::Retryable { message })
    } else {
        Err(NodeError::Fatal { message })
    }
}

} // verus!
