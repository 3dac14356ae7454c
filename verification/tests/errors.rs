use cleargate_flow::errors::{
    ExecutorError, ExpressionError, FlowStoreError, McpError, NodeError, QueueError, RunStoreError,
    SecretsError, StateError, TriggerError,
};

#[test]
fn connection_error_maps_to_retryable() {
    let err: NodeError = McpError::Connection { message: "conn failed".into() }.into();
    assert!(matches!(err, NodeError::Retryable { .. }));
}

#[test]
fn protocol_error_maps_to_fatal() {
    let err: NodeError = McpError::Protocol { message: "bad response".into() }.into();
    assert!(matches!(err, NodeError::Fatal { .. }));
}

#[test]
fn timeout_error_maps_to_timeout() {
    let err: NodeError = McpError::Timeout { elapsed_ms: 5000 }.into();
    assert!(matches!(err, NodeError::Timeout { elapsed_ms: 5000 }));
}

#[test]
fn error_display() {
    let e = McpError::Connection { message: "refused".into() };
    assert_eq!(e.to_string(), "MCP connection error: refused");

    let e = McpError::Protocol { message: "invalid".into() };
    assert_eq!(e.to_string(), "MCP protocol error: invalid");

    let e = McpError::Timeout { elapsed_ms: 3000 };
    assert_eq!(e.to_string(), "MCP timeout after 3000ms");
}

#[test]
fn mcp_error_messages_keep_the_detail() {
    let err: NodeError = McpError::Connection { message: "conn failed".into() }.into();
    match err {
        NodeError::Retryable { message } => assert_eq!(message, "conn failed"),
        other => panic!("unexpected {other:?}"),
    }
}

#[test]
fn provider_error_messages() {
    assert_eq!(SecretsError::NotFound { key: "k".into() }.to_string(), "secret not found: k");
    assert_eq!(
        SecretsError::Provider { message: "down".into() }.to_string(),
        "secrets provider error: down"
    );
    assert_eq!(StateError::Store { message: "x".into() }.to_string(), "state store error: x");
    assert_eq!(QueueError::Queue { message: "q".into() }.to_string(), "queue error: q");
    assert_eq!(FlowStoreError::NotFound { id: "f1".into() }.to_string(), "flow not found: f1");
    assert_eq!(RunStoreError::NotFound { id: "r1".into() }.to_string(), "run not found: r1");
    assert_eq!(
        TriggerError::Config { message: "bad".into() }.to_string(),
        "trigger config error: bad"
    );
    assert_eq!(
        ExpressionError::Parse { message: "empty expression".into() }.to_string(),
        "parse error: empty expression"
    );
    assert_eq!(
        ExecutorError::NodeNotFound { node_type: "llm".into() }.to_string(),
        "node type not found in registry: llm"
    );
}

#[test]
fn node_error_messages() {
    assert!(NodeError::Timeout { elapsed_ms: 250 }.to_string().contains("timeout"));
    assert!(NodeError::Timeout { elapsed_ms: 250 }.to_string().contains("250"));
    assert!(NodeError::Fatal { message: "required_field".into() }
        .to_string()
        .contains("required_field"));
}
