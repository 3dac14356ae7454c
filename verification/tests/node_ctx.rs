use cleargate_flow::errors::{ExecutorError, NodeError, QueueError, SecretsError};
use cleargate_flow::json::{JsonNumber, JsonValue};
use cleargate_flow::node_ctx::{
    human_input_unavailable, input_receiver_dropped, input_sender_missing, publish_error,
    secret_result, NodeCtx, SecretsProvider,
};
use cleargate_flow::state::InMemoryState;

struct MapSecrets {
    entries: Vec<(String, String)>,
}

impl SecretsProvider for MapSecrets {
    fn get(&self, key: &str) -> Result<Option<String>, SecretsError> {
        Ok(self.entries.iter().find(|(k, _)| k == key).map(|(_, v)| v.clone()))
    }
}

struct BrokenSecrets;

impl SecretsProvider for BrokenSecrets {
    fn get(&self, _key: &str) -> Result<Option<String>, SecretsError> {
        Err(SecretsError::Provider { message: "vault sealed".into() })
    }
}

fn ctx() -> NodeCtx {
    NodeCtx::new("run-1".into(), "node-1".into())
}

#[test]
fn test_secret_found() {
    let secrets = MapSecrets { entries: vec![("API_KEY".into(), "sk-xxx".into())] };
    assert_eq!(ctx().secret(&secrets, "API_KEY").unwrap(), "sk-xxx");
}

#[test]
fn test_secret_not_found() {
    let secrets = MapSecrets { entries: vec![] };
    match ctx().secret(&secrets, "MISSING").unwrap_err() {
        NodeError::Fatal { message } => assert!(message.contains("not found"), "got: {message}"),
        other => panic!("expected Fatal, got: {other:?}"),
    }
}

#[test]
fn secret_provider_failure_is_fatal() {
    match ctx().secret(&BrokenSecrets, "API_KEY").unwrap_err() {
        NodeError::Fatal { message } => {
            assert_eq!(message, "secrets provider error: secrets provider error: vault sealed")
        }
        other => panic!("expected Fatal, got: {other:?}"),
    }
    assert!(matches!(
        secret_result("K", Ok(None)),
        Err(NodeError::Fatal { message }) if message == "secret not found: K"
    ));
}

#[test]
fn test_state_get_set() {
    let mut state = InMemoryState::new();
    let c = ctx();
    c.state_set(&mut state, "counter", JsonValue::Number(JsonNumber::PosInt(42))).unwrap();
    let val = c.state_get(&state, "counter").unwrap();
    assert!(matches!(val, Some(JsonValue::Number(JsonNumber::PosInt(42)))));
    let snapshot = state.snapshot("run-1").unwrap();
    assert_eq!(snapshot.len(), 1);
    assert_eq!(snapshot[0].0, "counter");
}

#[test]
fn test_state_set_secret() {
    let mut state = InMemoryState::new();
    let c = ctx();
    c.state_set_secret(&mut state, "token", JsonValue::Str("sensitive-value".into())).unwrap();
    let val = c.state_get(&state, "token").unwrap();
    assert!(matches!(val, Some(JsonValue::Str(s)) if s == "sensitive-value"));
}

#[test]
fn context_ids_and_publish_errors() {
    let c = ctx();
    assert_eq!(c.run_id(), "run-1");
    assert_eq!(c.node_instance_id(), "node-1");
    let e = publish_error(&QueueError::Queue { message: "full".into() });
    assert!(matches!(e, NodeError::Fatal { message } if message == "queue publish error: queue error: full"));
}

#[test]
fn human_input_error_messages() {
    assert!(matches!(
        input_sender_missing("run-1", "approve"),
        ExecutorError::Execution { message } if message == "no human input sender registered for run=run-1 node=approve"
    ));
    assert!(matches!(
        input_receiver_dropped(),
        ExecutorError::Execution { message } if message == "human input receiver dropped"
    ));
    assert!(matches!(
        human_input_unavailable(),
        NodeError::Fatal { message } if message == "human input registry not available"
    ));
}
