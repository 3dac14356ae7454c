//! What a node's context decides for the node it serves: which run and node
//! instance it acts for, how the node's state reads and writes reach the
//! run's state store, and what a secret lookup gives back.
use vstd::prelude::*;
use vstd::string::*;
use crate::errors::{ExecutorError, NodeError, QueueError, SecretsError, StateError};
use crate::json::JsonValue;
use crate::redactor::Sensitivity;
use crate::state::{StateStore, state_get, state_set, opt_value};
use crate::text::{join2, join3};

verus! {

/// A source of secrets: the value of a key, if it has one.
pub trait SecretsProvider {
    fn get(&self, key: &str) -> Result<Option<String>, SecretsError>;
}

/// The secret a lookup of `key` gave: its value; a fatal error when the key
/// has none or the provider failed.
pub fn secret_result(key: &str, looked_up: Result<Option<String>, SecretsError>) -> (r: Result<
    String,
    NodeError,
>)
    ensures
        match looked_up {
            Ok(Some(v)) => r matches Ok(s) && s@ == v@,
            Ok(None) => r matches Err(NodeError::Fatal { message }) && message@ == "secret not found: "@
                + key@,
            Err(e) => r matches Err(NodeError::Fatal { message }) && message@
                == "secrets provider error: "@ + e.spec_text(),
        },
{
    match looked_up {
        Ok(Some(v)) => Ok(v),
        Ok(None) => Err(NodeError::Fatal { message: join2("secret not found: ", key) }),
        Err(e) => {
            let t = e.to_string();
            Err(NodeError::Fatal { message: join2("secrets provider error: ", t.as_str()) })
        },
    }
}

/// The error of a failed publish to a queue.
pub fn publish_error(e: &QueueError) -> (r: NodeError)
    ensures
        r matches NodeError::Fatal { message } && message@ == "queue publish error: "@ + e.spec_text(),
{
    let t = e.to_string();
    NodeError::Fatal { message: join2("queue publish error: ", t.as_str()) }
}

fn state_error(prefix: &str, e: &StateError) -> (r: NodeError)
    ensures
        r matches NodeError::Fatal { message } && message@ == prefix@ + e.spec_text(),
{
    let t = e.to_string();
    NodeError::Fatal { message: join2(prefix, t.as_str()) }
}

/// The run and node instance a node acts for.
#[derive(Debug)]
pub struct NodeCtx {
    pub run_id: String,
    pub node_instance_id: String,
}

impl NodeCtx {
    /// The context of node instance `node_instance_id` in run `run_id`.
    pub fn new(run_id: String, node_instance_id: String) -> (r: NodeCtx)
        ensures
            r.run_id@ == run_id@,
            r.node_instance_id@ == node_instance_id@,
    {
        NodeCtx { run_id, node_instance_id }
    }

    /// The run's id.
    pub fn run_id(&self) -> (r: &str)
        ensures
            r@ == self.run_id@,
    {
        self.run_id.as_str()
    }

    /// The node instance's id.
    pub fn node_instance_id(&self) -> (r: &str)
        ensures
            r@ == self.node_instance_id@,
    {
        self.node_instance_id.as_str()
    }

    /// The secret `key` from `provider`; a fatal error when it has none or
    /// the provider failed.
    pub fn secret<P: SecretsProvider>(&self, provider: &P, key: &str) -> (r: Result<String, NodeError>)
        ensures
            r matches Err(e) ==> e matches NodeError::Fatal { message } && (message@
                == "secret not found: "@ + key@ || exists|se: SecretsError|
                message@ == "secrets provider error: "@ + #[trigger] se.spec_text()),
    {
        let looked_up = provider.get(key);
        secret_result(key, looked_up)
    }

    /// The value under `key` in the run's state.
    pub fn state_get<S: StateStore>(&self, state: &S, key: &str) -> (r: Result<
        Option<JsonValue>,
        NodeError,
    >)
        requires
            state.store_ok(),
        ensures
            match r {
                Ok(v) => opt_value(v) == state_get(state.store_model(), self.run_id@, key@),
                Err(e) => exists|se: StateError|
                    e matches NodeError::Fatal { message } && message@ == "state get error: "@
                        + #[trigger] se.spec_text(),
            },
    {
        match state.get(self.run_id.as_str(), key) {
            Ok(v) => Ok(v),
            Err(e) => Err(state_error("state get error: ", &e)),
        }
    }

    /// Stores `value` under `key` in the run's state, as a public value.
    pub fn state_set<S: StateStore>(&self, state: &mut S, key: &str, value: JsonValue) -> (r: Result<
        (),
        NodeError,
    >)
        requires
            old(state).store_ok(),
        ensures
            final(state).store_ok(),
            match r {
                Ok(_) => final(state).store_model() == state_set(
                    old(state).store_model(),
                    self.run_id@,
                    key@,
                    value@,
                    Sensitivity::Public,
                ),
                Err(e) => exists|se: StateError|
                    e matches NodeError::Fatal { message } && message@ == "state set error: "@
                        + #[trigger] se.spec_text(),
            },
    {
        match state.set(self.run_id.as_str(), key, value, Sensitivity::Public) {
            Ok(()) => Ok(()),
            Err(e) => Err(state_error("state set error: ", &e)),
        }
    }

    /// Stores `value` under `key` in the run's state, marked secret.
    pub fn state_set_secret<S: StateStore>(&self, state: &mut S, key: &str, value: JsonValue) -> (r:
        Result<(), NodeError>)
        requires
            old(state).store_ok(),
        ensures
            final(state).store_ok(),
            match r {
                Ok(_) => final(state).store_model() == state_set(
                    old(state).store_model(),
                    self.run_id@,
                    key@,
                    value@,
                    Sensitivity::Secret,
                ),
                Err(e) => exists|se: StateError|
                    e matches NodeError::Fatal { message } && message@ == "state set error: "@
                        + #[trigger] se.spec_text(),
            },
    {
        match state.set(self.run_id.as_str(), key, value, Sensitivity::Secret) {
            Ok(()) => Ok(()),
            Err(e) => Err(state_error("state set error: ", &e)),
        }
    }
}

/// The error of a node that waits for human input where the run offers no
/// place to register its wait.
pub fn human_input_unavailable() -> (r: NodeError)
    ensures
        r matches NodeError::Fatal { message } && message@ == "human input registry not available"@,
{
    NodeError::Fatal { message: String::from_str("human input registry not available") }
}

/// The error of input given to node `node_id` of run `run_id` when no node
/// instance there waits for it.
pub fn input_sender_missing(run_id: &str, node_id: &str) -> (r: ExecutorError)
    ensures
        r matches ExecutorError::Execution { message } && message@
            == "no human input sender registered for run="@ + run_id@ + " node="@ + node_id@,
{
    let head = join3("no human input sender registered for run=", run_id, " node=");
    ExecutorError::Execution { message: join2(head.as_str(), node_id) }
}

/// The error of input whose waiting node has stopped waiting.
pub fn input_receiver_dropped() -> (r: ExecutorError)
    ensures
        r matches ExecutorError::Execution { message } && message@ == "human input receiver dropped"@,
{
    ExecutorError::Execution { message: String::from_str("human input receiver dropped") }
}

} // verus!
