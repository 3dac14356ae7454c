use cleargate_flow::json::{JsonNumber, JsonValue};
use cleargate_flow::memory::{apply_message_count, apply_token_budget, plan_summarize, summarize_outcome, PreparedMessages};
use cleargate_flow::errors::NodeError;
use cleargate_flow::token_counter::{CharEstimateCounter, ChatMessage};

fn from_json(v: &serde_json::Value) -> JsonValue {
    match v {
        serde_json::Value::Null => JsonValue::Null,
        serde_json::Value::Bool(b) => JsonValue::Bool(*b),
        serde_json::Value::Number(n) => {
            if let Some(u) = n.as_u64() {
                JsonValue::Number(JsonNumber::PosInt(u))
            } else if let Some(i) = n.as_i64() {
                JsonValue::Number(JsonNumber::NegInt(i))
            } else {
                JsonValue::Number(JsonNumber::Float(n.as_f64().unwrap().to_bits()))
            }
        }
        serde_json::Value::String(s) => JsonValue::Str(s.clone()),
        serde_json::Value::Array(a) => JsonValue::Array(a.iter().map(from_json).collect()),
        serde_json::Value::Object(m) => {
            JsonValue::Object(m.iter().map(|(k, v)| (k.clone(), from_json(v))).collect())
        }
    }
}

fn make_msg(role: &str, content: &str) -> ChatMessage {
    let mut m = serde_json::Map::new();
    m.insert("role".into(), serde_json::Value::String(role.into()));
    m.insert("content".into(), serde_json::Value::String(content.into()));
    ChatMessage::new(from_json(&serde_json::Value::Object(m)), None, None)
}

fn make_messages(count: usize) -> Vec<ChatMessage> {
    let mut msgs = vec![make_msg("system", "You are helpful.")];
    for i in 0..count {
        let role = if i % 2 == 0 { "user" } else { "assistant" };
        msgs.push(make_msg(role, &format!("Message {i}")));
    }
    msgs
}

#[test]
fn message_count_under_limit() {
    let msgs = make_messages(3);
    let n = msgs.len();
    let result = apply_message_count(msgs, 5);
    assert_eq!(result.len(), n);
}

#[test]
fn message_count_exact_limit() {
    let msgs = make_messages(5);
    let n = msgs.len();
    let result = apply_message_count(msgs, 5);
    assert_eq!(result.len(), n);
}

#[test]
fn message_count_over_limit() {
    let msgs = make_messages(10);
    let result = apply_message_count(msgs, 5);
    assert_eq!(result.len(), 6);
    assert_eq!(result[0].role(), "system");
    assert_eq!(result[5].content(), "Message 9");
}

#[test]
fn message_count_preserves_system_message() {
    let msgs = make_messages(10);
    let result = apply_message_count(msgs, 3);
    assert_eq!(result[0].role(), "system");
    assert_eq!(result[0].content(), "You are helpful.");
}

#[test]
fn message_count_no_system_message() {
    let msgs = vec![make_msg("user", "Hello"), make_msg("assistant", "Hi"), make_msg("user", "Bye")];
    let result = apply_message_count(msgs, 2);
    assert_eq!(result.len(), 2);
    assert_eq!(result[0].role(), "assistant");
    assert_eq!(result[1].role(), "user");
}

#[test]
fn message_count_limit_one() {
    let msgs = make_messages(5);
    let result = apply_message_count(msgs, 1);
    assert_eq!(result.len(), 2);
    assert_eq!(result[0].role(), "system");
    assert_eq!(result[1].content(), "Message 4");
}

#[test]
fn token_budget_all_fit() {
    let counter = CharEstimateCounter;
    let msgs = make_messages(3);
    let n = msgs.len();
    let result = apply_token_budget(msgs, 10000, true, &counter);
    assert_eq!(result.len(), n);
}

#[test]
fn token_budget_trims_oldest_first() {
    let counter = CharEstimateCounter;
    let msgs = make_messages(10);
    let result = apply_token_budget(msgs, 10, true, &counter);
    assert!(result.len() < 11);
    assert_eq!(result[0].role(), "system");
    assert_eq!(result.last().unwrap().content(), "Message 9");
}

#[test]
fn token_budget_preserves_system_with_reserve() {
    let counter = CharEstimateCounter;
    let msgs = vec![make_msg("system", &"x".repeat(100)), make_msg("user", "Hi")];
    let result = apply_token_budget(msgs, 5, true, &counter);
    assert_eq!(result.len(), 2);
}

#[test]
fn token_budget_system_counts_when_not_reserved() {
    let counter = CharEstimateCounter;
    let msgs = vec![
        make_msg("system", &"x".repeat(100)),
        make_msg("user", "Hi"),
        make_msg("assistant", "Hello"),
    ];
    let result = apply_token_budget(msgs, 5, false, &counter);
    assert_eq!(result[0].role(), "system");
}

#[test]
fn token_budget_single_message_exceeds() {
    let counter = CharEstimateCounter;
    let msgs = vec![make_msg("user", &"x".repeat(1000))];
    let result = apply_token_budget(msgs, 1, true, &counter);
    assert_eq!(result.len(), 1);
}

#[test]
fn token_budget_zero_budget() {
    let counter = CharEstimateCounter;
    let msgs = make_messages(3);
    let result = apply_token_budget(msgs, 0, true, &counter);
    assert!(result.len() >= 2);
    assert_eq!(result[0].role(), "system");
}

// Each of "user"/"assistant" and "Message i" costs 1 + 3 or 3 + 3 tokens.
#[test]
fn token_budget_kept_messages_fit_the_budget() {
    let counter = CharEstimateCounter;
    let msgs = make_messages(6);
    // Newest first: "assistant"+"Message 5" = 3 + 3, "user"+"Message 4" = 1 + 3.
    let result = apply_token_budget(msgs, 10, true, &counter);
    assert_eq!(result.len(), 3);
    assert_eq!(result[1].content(), "Message 4");
    assert_eq!(result[2].content(), "Message 5");
}

#[test]
fn token_budget_unreserved_system_shrinks_the_budget() {
    let counter = CharEstimateCounter;
    // System: "system" (2) + 16 chars (4) = 6 tokens; budget 10 leaves 4.
    let msgs = make_messages(6);
    let result = apply_token_budget(msgs, 10, false, &counter);
    assert_eq!(result.len(), 2);
    assert_eq!(result[1].content(), "Message 5");
}

#[test]
fn message_count_window_keeps_newest() {
    let msgs = vec![make_msg("user", "a"), make_msg("user", "b"), make_msg("user", "c")];
    let result = apply_message_count(msgs, 0);
    assert_eq!(result.len(), 0);
    let msgs = vec![make_msg("user", "a"), make_msg("user", "b"), make_msg("user", "c")];
    let result = apply_message_count(msgs, 2);
    assert_eq!(result[0].content(), "b");
    assert_eq!(result[1].content(), "c");
}

#[test]
fn empty_history_stays_empty() {
    let counter = CharEstimateCounter;
    assert_eq!(apply_message_count(Vec::new(), 3).len(), 0);
    assert_eq!(apply_token_budget(Vec::new(), 3, true, &counter).len(), 0);
}

#[test]
fn summarize_below_threshold_leaves_messages_unchanged() {
    let msgs = make_messages(3);
    match plan_summarize(msgs, 10, 2) {
        PreparedMessages::Ready(v) => assert_eq!(v.len(), 4),
        _ => panic!("nothing to summarize"),
    }
}

#[test]
fn summarize_outcomes_of_the_provider() {
    let e = summarize_outcome(None, vec![make_msg("user", "hi")], "openai", None).unwrap_err();
    assert!(matches!(e, NodeError::Fatal { ref message } if message.contains("not registered")));
    let e = summarize_outcome(None, vec![], "openai", Some(Err("timeout".into()))).unwrap_err();
    assert!(matches!(e, NodeError::Retryable { ref message } if message.contains("summarization")));
    let ok = summarize_outcome(Some(make_msg("system", "be brief")), vec![make_msg("user", "hi")], "openai", Some(Ok("short".into()))).unwrap();
    assert_eq!(ok.len(), 3);
}
