use cleargate_flow::json::JsonValue;
use cleargate_flow::redactor::{DefaultRedactor, Sensitivity};

fn text(s: &str) -> JsonValue {
    JsonValue::Str(s.into())
}

fn as_text(v: &JsonValue) -> &str {
    match v {
        JsonValue::Str(s) => s,
        other => panic!("expected a string, got {other:?}"),
    }
}

fn member<'a>(v: &'a JsonValue, key: &str) -> &'a JsonValue {
    v.get(key).expect("member")
}

fn message(role: &str, content: &str) -> JsonValue {
    JsonValue::Object(vec![("role".into(), text(role)), ("content".into(), text(content))])
}

#[test]
fn test_none_passthrough() {
    let r = DefaultRedactor;
    let result = r.redact("field", &Sensitivity::Public, &text("sensitive data"));
    assert_eq!(as_text(&result), "sensitive data");
}

#[test]
fn test_secret_redacted() {
    let r = DefaultRedactor;
    let result = r.redact("field", &Sensitivity::Secret, &text("my_api_key_12345"));
    assert_eq!(as_text(&result), "[REDACTED]");
}

#[test]
fn test_masked_keeps_last4() {
    let r = DefaultRedactor;
    let result = r.redact("field", &Sensitivity::Masked, &text("mysecretkey"));
    assert_eq!(as_text(&result), "****tkey");
}

#[test]
fn test_masked_short_string() {
    let r = DefaultRedactor;
    let result = r.redact("field", &Sensitivity::Masked, &text("ab"));
    assert_eq!(as_text(&result), "[MASKED]");
}

#[test]
fn test_masked_non_string() {
    let r = DefaultRedactor;
    let v = JsonValue::Number(cleargate_flow::json::JsonNumber::PosInt(42));
    let result = r.redact("field", &Sensitivity::Masked, &v);
    assert_eq!(as_text(&result), "[MASKED]");
}

#[test]
fn test_pii_redacted() {
    let r = DefaultRedactor;
    let result = r.redact("field", &Sensitivity::Pii, &text("john.doe@example.com"));
    assert_eq!(as_text(&result), "[PII_REDACTED]");
}

#[test]
fn test_custom_redacted() {
    let r = DefaultRedactor;
    let result = r.redact("field", &Sensitivity::Custom("hipaa".into()), &text("hipaa data"));
    assert_eq!(as_text(&result), "[CUSTOM_REDACTED]");
}

#[test]
fn test_redact_llm_messages_preserves_structure() {
    let r = DefaultRedactor;
    let mut third = message("assistant", "Here is the info");
    if let JsonValue::Object(m) = &mut third {
        m.push(("tool_call_id".into(), text("call_1")));
    }
    let messages = JsonValue::Array(vec![
        message("system", "You are a helpful assistant"),
        message("user", "Tell me about user@example.com"),
        third,
    ]);
    let result = r.redact_llm_messages(&messages, &Sensitivity::Pii);
    let arr = result.as_array().expect("should be array");
    assert_eq!(arr.len(), 3);
    assert_eq!(as_text(member(&arr[0], "role")), "system");
    assert_eq!(as_text(member(&arr[0], "content")), "[PII_REDACTED]");
    assert_eq!(as_text(member(&arr[1], "role")), "user");
    assert_eq!(as_text(member(&arr[1], "content")), "[PII_REDACTED]");
    assert_eq!(as_text(member(&arr[2], "role")), "assistant");
    assert_eq!(as_text(member(&arr[2], "content")), "[PII_REDACTED]");
    assert_eq!(as_text(member(&arr[2], "tool_call_id")), "call_1");
}

#[test]
fn test_redact_llm_messages_none_passthrough() {
    let r = DefaultRedactor;
    let messages = JsonValue::Array(vec![message("user", "hello")]);
    let result = r.redact_llm_messages(&messages, &Sensitivity::Public);
    let arr = result.as_array().unwrap();
    assert_eq!(as_text(member(&arr[0], "content")), "hello");
}

#[test]
fn masked_keeps_last_four_characters_of_unicode() {
    let r = DefaultRedactor;
    let result = r.redact("f", &Sensitivity::Masked, &text("héllo!"));
    assert_eq!(as_text(&result), "****llo!");
    let result = r.redact("f", &Sensitivity::Masked, &text("abc€"));
    assert_eq!(as_text(&result), "****abc€");
    let result = r.redact("f", &Sensitivity::Masked, &text("€€€€"));
    assert_eq!(as_text(&result), "****€€€€");
    let result = r.redact("f", &Sensitivity::Masked, &text("x€€€€"));
    assert_eq!(as_text(&result), "****€€€€");
    // Three characters are too few, however many bytes they take.
    let result = r.redact("f", &Sensitivity::Masked, &text("abé"));
    assert_eq!(as_text(&result), "[MASKED]");
}

#[test]
fn masked_exactly_four_characters() {
    let r = DefaultRedactor;
    let result = r.redact("f", &Sensitivity::Masked, &text("abcd"));
    assert_eq!(as_text(&result), "****abcd");
}

#[test]
fn non_array_messages_are_redacted_whole() {
    let r = DefaultRedactor;
    let result = r.redact_llm_messages(&text("raw prompt"), &Sensitivity::Secret);
    assert_eq!(as_text(&result), "[REDACTED]");
    let arr = JsonValue::Array(vec![text("not an object")]);
    let result = r.redact_llm_messages(&arr, &Sensitivity::Secret);
    assert_eq!(as_text(&result.as_array().unwrap()[0]), "not an object");
}
