//! Verified core of a graph-based workflow engine.
use vstd::prelude::*;

pub mod json;
pub mod text;
pub mod errors;
pub mod token_counter;
pub mod memory;
pub mod memory_laws;
pub mod strset;
pub mod graph;
pub mod executor;
pub mod run;
pub mod attempt;
pub mod flow_laws;
pub mod expression;
pub mod clock;
pub mod adapters;
pub mod adapter_session;
pub mod events;
pub mod reconstruct;
pub mod otel;
pub mod redactor;
pub mod mcp;
pub mod blackboard;
pub mod sorted;
pub mod llm_summary;
pub mod run_store;
pub mod state;
pub mod node_ctx;
pub mod trigger;
pub mod records;
pub mod engine;
pub mod llm_call;
pub mod condition;
pub mod handoff;
pub mod versions;
pub mod dylib;

verus! {

} // verus!
