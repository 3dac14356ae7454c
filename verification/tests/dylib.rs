use cleargate_flow::dylib::dylib_result;
use cleargate_flow::errors::NodeError;
use cleargate_flow::json::{JsonNumber, JsonValue};

fn obj(entries: Vec<(&str, JsonValue)>) -> JsonValue {
    JsonValue::Object(entries.into_iter().map(|(k, v)| (k.to_string(), v)).collect())
}

fn text(s: &str) -> JsonValue {
    JsonValue::Str(s.to_string())
}

#[test]
fn library_results_are_outputs_unless_they_report_an_error() {
    let out = dylib_result(obj(vec![("answer", JsonValue::Number(JsonNumber::PosInt(42)))])).unwrap();
    assert!(out.get("answer").is_some());
    let typed = dylib_result(obj(vec![("type", text("result"))])).unwrap();
    assert!(typed.get("type").is_some());
    let fatal = dylib_result(obj(vec![("type", text("error")), ("message", text("bad input"))])).unwrap_err();
    assert!(matches!(fatal, NodeError::Fatal { ref message } if message == "bad input"));
    let retry = dylib_result(obj(vec![
        ("type", text("error")),
        ("message", text("busy")),
        ("retryable", JsonValue::Bool(true)),
    ]))
    .unwrap_err();
    assert!(matches!(retry, NodeError::Retryable { ref message } if message == "busy"));
    let unknown = dylib_result(obj(vec![("type", text("error"))])).unwrap_err();
    assert!(matches!(unknown, NodeError::Fatal { ref message } if message == "unknown dylib error"));
}
