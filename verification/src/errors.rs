//! Error types of the engine's providers, and their messages.
use vstd::prelude::*;
use crate::text::{decimal_text, join2, join3, u64_to_decimal};

verus! {

/// Errors from a secrets provider.
#[derive(Debug)]
pub enum SecretsError {
    NotFound { key: String },
    Provider { message: String },
}

/// Errors from a state store.
#[derive(Debug)]
pub enum StateError {
    Store { message: String },
}

/// Errors from a queue provider.
#[derive(Debug)]
pub enum QueueError {
    Queue { message: String },
}

/// Errors from a flow store.
#[derive(Debug)]
pub enum FlowStoreError {
    NotFound { id: String },
    Store { message: String },
}

/// Errors from a run store.
#[derive(Debug)]
pub enum RunStoreError {
    NotFound { id: String },
    Store { message: String },
}

/// Errors from trigger implementations.
#[derive(Debug)]
pub enum TriggerError {
    Config { message: String },
    Runtime { message: String },
}

/// The error a node reports: it decides whether the executor retries.
#[derive(Debug)]
pub enum NodeError {
    /// May succeed when attempted again.
    Retryable { message: String },
    /// Will not succeed on retry.
    Fatal { message: String },
    /// The node ran past its time limit.
    Timeout { elapsed_ms: u64 },
}

/// Errors from MCP operations.
#[derive(Debug)]
pub enum McpError {
    /// Transport or network error; may succeed on retry.
    Connection { message: String },
    /// Protocol-level error; fatal.
    Protocol { message: String },
    /// The operation timed out.
    Timeout { elapsed_ms: u64 },
}

/// Errors from expression evaluation.
#[derive(Debug)]
pub enum ExpressionError {
    Parse { message: String },
    Eval { message: String },
}

/// Errors from the executor.
#[derive(Debug)]
pub enum ExecutorError {
    /// A node type referenced in the graph has no handler registered.
    NodeNotFound { node_type: String },
    /// General execution error.
    Execution { message: String },
    /// The event write channel closed.
    WriteHandle { message: String },
}

impl SecretsError {
    pub open spec fn spec_text(&self) -> Seq<char> {
        match self {
            SecretsError::NotFound { key } => "secret not found: "@ + key@,
            SecretsError::Provider { message } => "secrets provider error: "@ + message@,
        }
    }

    /// The error's message.
    pub fn to_string(&self) -> (r: String)
        ensures
            r@ == self.spec_text(),
    {
        match self {
            SecretsError::NotFound { key } => join2("secret not found: ", key.as_str()),
            SecretsError::Provider { message } => join2(
                "secrets provider error: ",
                message.as_str(),
            ),
        }
    }
}

impl StateError {
    pub open spec fn spec_text(&self) -> Seq<char> {
        match self {
            StateError::Store { message } => "state store error: "@ + message@,
        }
    }

    /// The error's message.
    pub fn to_string(&self) -> (r: String)
        ensures
            r@ == self.spec_text(),
    {
        match self {
            StateError::Store { message } => join2("state store error: ", message.as_str()),
        }
    }
}

impl QueueError {
    pub open spec fn spec_text(&self) -> Seq<char> {
        match self {
            QueueError::Queue { message } => "queue error: "@ + message@,
        }
    }

    /// The error's message.
    pub fn to_string(&self) -> (r: String)
        ensures
            r@ == self.spec_text(),
    {
        match self {
            QueueError::Queue { message } => join2("queue error: ", message.as_str()),
        }
    }
}

impl FlowStoreError {
    pub open spec fn spec_text(&self) -> Seq<char> {
        match self {
            FlowStoreError::NotFound { id } => "flow not found: "@ + id@,
            FlowStoreError::Store { message } => "flow store error: "@ + message@,
        }
    }

    /// The error's message.
    pub fn to_string(&self) -> (r: String)
        ensures
            r@ == self.spec_text(),
    {
        match self {
            FlowStoreError::NotFound { id } => join2("flow not found: ", id.as_str()),
            FlowStoreError::Store { message } => join2("flow store error: ", message.as_str()),
        }
    }
}

impl RunStoreError {
    pub open spec fn spec_text(&self) -> Seq<char> {
        match self {
            RunStoreError::NotFound { id } => "run not found: "@ + id@,
            RunStoreError::Store { message } => "run store error: "@ + message@,
        }
    }

    /// The error's message.
    pub fn to_string(&self) -> (r: String)
        ensures
            r@ == self.spec_text(),
    {
        match self {
            RunStoreError::NotFound { id } => join2("run not found: ", id.as_str()),
            RunStoreError::Store { message } => join2("run store error: ", message.as_str()),
        }
    }
}

impl TriggerError {
    pub open spec fn spec_text(&self) -> Seq<char> {
        match self {
            TriggerError::Config { message } => "trigger config error: "@ + message@,
            TriggerError::Runtime { message } => "trigger runtime error: "@ + message@,
        }
    }

    /// The error's message.
    pub fn to_string(&self) -> (r: String)
        ensures
            r@ == self.spec_text(),
    {
        match self {
            TriggerError::Config { message } => join2("trigger config error: ", message.as_str()),
            TriggerError::Runtime { message } => join2(
                "trigger runtime error: ",
                message.as_str(),
            ),
        }
    }
}

impl NodeError {
    pub open spec fn spec_text(&self) -> Seq<char> {
        match self {
            NodeError::Retryable { message } => "retryable error: "@ + message@,
            NodeError::Fatal { message } => "fatal error: "@ + message@,
            NodeError::Timeout { elapsed_ms } => "timeout after "@ + decimal_text(*elapsed_ms as nat)
                + "ms"@,
        }
    }

    /// The error's message.
    pub fn to_string(&self) -> (r: String)
        ensures
            r@ == self.spec_text(),
    {
        match self {
            NodeError::Retryable { message } => join2("retryable error: ", message.as_str()),
            NodeError::Fatal { message } => join2("fatal error: ", message.as_str()),
            NodeError::Timeout { elapsed_ms } => {
                let n = u64_to_decimal(*elapsed_ms);
                join3("timeout after ", n.as_str(), "ms")
            },
        }
    }
}

impl McpError {
    pub open spec fn spec_text(&self) -> Seq<char> {
        match self {
            McpError::Connection { message } => "MCP connection error: "@ + message@,
            McpError::Protocol { message } => "MCP protocol error: "@ + message@,
            McpError::Timeout { elapsed_ms } => "MCP timeout after "@ + decimal_text(
                *elapsed_ms as nat,
            ) + "ms"@,
        }
    }

    /// The error's message.
    pub fn to_string(&self) -> (r: String)
        ensures
            r@ == self.spec_text(),
    {
        match self {
            McpError::Connection { message } => join2("MCP connection error: ", message.as_str()),
            McpError::Protocol { message } => join2("MCP protocol error: ", message.as_str()),
            McpError::Timeout { elapsed_ms } => {
                let n = u64_to_decimal(*elapsed_ms);
                join3("MCP timeout after ", n.as_str(), "ms")
            },
        }
    }
}

impl ExpressionError {
    pub open spec fn spec_text(&self) -> Seq<char> {
        match self {
            ExpressionError::Parse { message } => "parse error: "@ + message@,
            ExpressionError::Eval { message } => "evaluation error: "@ + message@,
        }
    }

    /// The error's message.
    pub fn to_string(&self) -> (r: String)
        ensures
            r@ == self.spec_text(),
    {
        match self {
            ExpressionError::Parse { message } => join2("parse error: ", message.as_str()),
            ExpressionError::Eval { message } => join2("evaluation error: ", message.as_str()),
        }
    }
}

impl ExecutorError {
    pub open spec fn spec_text(&self) -> Seq<char> {
        match self {
            ExecutorError::NodeNotFound { node_type } => "node type not found in registry: "@
                + node_type@,
            ExecutorError::Execution { message } => "execution error: "@ + message@,
            ExecutorError::WriteHandle { message } => "write handle error: "@ + message@,
        }
    }

    /// The error's message.
    pub fn to_string(&self) -> (r: String)
        ensures
            r@ == self.spec_text(),
    {
        match self {
            ExecutorError::NodeNotFound { node_type } => join2(
                "node type not found in registry: ",
                node_type.as_str(),
            ),
            ExecutorError::Execution { message } => join2("execution error: ", message.as_str()),
            ExecutorError::WriteHandle { message } => join2(
                "write handle error: ",
                message.as_str(),
            ),
        }
    }
}

/// How an MCP error is reported by the node that met it.
pub open spec fn mcp_error_to_node_error(e: McpError) -> NodeError {
    match e {
        McpError::Connection { message } => NodeError::Retryable { message },
        McpError::Protocol { message } => NodeError::Fatal { message },
        McpError::Timeout { elapsed_ms } => NodeError::Timeout { elapsed_ms },
    }
}

impl From<McpError> for NodeError {
    fn from(e: McpError) -> (r: NodeError) {
        match e {
            McpError::Connection { message } => NodeError::Retryable { message },
            McpError::Protocol { message } => NodeError::Fatal { message },
            McpError::Timeout { elapsed_ms } => NodeError::Timeout { elapsed_ms },
        }
    }
}

impl vstd::std_specs::convert::FromSpecImpl<McpError> for NodeError {
    open spec fn obeys_from_spec() -> bool {
        true
    }

    open spec fn from_spec(v: McpError) -> NodeError {
        mcp_error_to_node_error(v)
    }
}

} // verus!
