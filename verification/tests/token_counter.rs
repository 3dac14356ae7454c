use cleargate_flow::json::{JsonNumber, JsonValue};
use cleargate_flow::token_counter::{count_messages, CharEstimateCounter, ChatMessage, TokenCounter};

fn from_json(v: &serde_json::Value) -> JsonValue {
    match v {
        serde_json::Value::Null => JsonValue::Null,
        serde_json::Value::Bool(b) => JsonValue::Bool(*b),
        serde_json::Value::Number(n) => {
            if let Some(u) = n.as_u64() {
                JsonValue::Number(JsonNumber::PosInt(u))
            } else if let Some(i) = n.as_i64() {
                JsonValue::Number(JsonNumber::NegInt(i))
            } else {
                JsonValue::Number(JsonNumber::Float(n.as_f64().unwrap().to_bits()))
            }
        }
        serde_json::Value::String(s) => JsonValue::Str(s.clone()),
        serde_json::Value::Array(a) => JsonValue::Array(a.iter().map(from_json).collect()),
        serde_json::Value::Object(m) => {
            JsonValue::Object(m.iter().map(|(k, v)| (k.clone(), from_json(v))).collect())
        }
    }
}

fn message(text: &str) -> ChatMessage {
    let v: serde_json::Value = serde_json::from_str(text).unwrap();
    let content = v.get("content").filter(|c| !c.is_string()).map(|c| c.to_string());
    let tool_calls = v.get("tool_calls").map(|t| t.to_string());
    ChatMessage::new(from_json(&v), content, tool_calls)
}

#[test]
fn char_estimate_empty_string() {
    let counter = CharEstimateCounter;
    assert_eq!(counter.count_tokens(""), 0);
}

#[test]
fn char_estimate_short_string() {
    let counter = CharEstimateCounter;
    assert_eq!(counter.count_tokens("hello"), 2);
}

#[test]
fn char_estimate_long_string() {
    let counter = CharEstimateCounter;
    let text = "a".repeat(1000);
    assert_eq!(counter.count_tokens(&text), 250);
}

#[test]
fn char_estimate_unicode() {
    let counter = CharEstimateCounter;
    let text = "🎉🎊🎈🎁";
    assert_eq!(counter.count_tokens(text), (4 + 3) / 4);
}

#[test]
fn count_messages_single() {
    let counter = CharEstimateCounter;
    let msgs = vec![message(r#"{"role": "user", "content": "hello world"}"#)];
    assert_eq!(count_messages(&counter, &msgs), 1 + 3);
}

#[test]
fn count_messages_array() {
    let counter = CharEstimateCounter;
    let msgs = vec![
        message(r#"{"role": "system", "content": "You are helpful."}"#),
        message(r#"{"role": "user", "content": "Hi"}"#),
    ];
    let count = count_messages(&counter, &msgs);
    assert!(count > 0);
    assert_eq!(count, 6 + 2);
}

#[test]
fn count_messages_with_tool_calls() {
    let counter = CharEstimateCounter;
    let msgs = vec![message(
        r#"{"role": "assistant", "content": "ok", "tool_calls": [{"id": "1", "name": "search", "arguments": {"q": "test"}}]}"#,
    )];
    assert!(count_messages(&counter, &msgs) > 2);
}

#[test]
fn count_messages_empty_array() {
    let counter = CharEstimateCounter;
    assert_eq!(count_messages(&counter, &[]), 0);
}

#[test]
fn five_chars_round_up_to_two_tokens() {
    let counter = CharEstimateCounter;
    assert_eq!(counter.count_tokens("abcd"), 1);
    assert_eq!(counter.count_tokens("abcde"), 2);
}

#[test]
fn message_parts_are_read() {
    let m = message(r#"{"role": "system", "content": "be brief"}"#);
    assert!(m.is_system());
    assert_eq!(m.role(), "system");
    assert_eq!(m.content(), "be brief");
    let u = message(r#"{"content": 7}"#);
    assert!(!u.is_system());
    assert_eq!(u.role(), "");
    assert_eq!(u.content(), "7");
}

#[test]
fn token_counts_add_up_over_concatenation() {
    let counter = CharEstimateCounter;
    let m1 = r#"{"role":"user","content":"hello there"}"#;
    let m2 = r#"{"role":"assistant","content":"x"}"#;
    let m3 = r#"{"role":"user","content":"a longer message body"}"#;
    let a = vec![message(m1), message(m2)];
    let b = vec![message(m3)];
    let both = vec![message(m1), message(m2), message(m3)];
    assert_eq!(
        count_messages(&counter, &both),
        count_messages(&counter, &a) + count_messages(&counter, &b)
    );
}
