# cleargate_flow

The core of a graph-based workflow engine for AI agents, written in Verus:
every function of the library carries a contract, and Verus proves the code
against it.

## Layout

- `src/` — the verified library.
  - `json`, `text`, `sorted`, `strset`: the JSON model, text helpers, text
    order and a set of strings.
  - `graph`, `run`, `executor`, `attempt`, `flow_laws`: graph analysis (entry
    nodes, back edges), the run state machine (which nodes become ready, edge
    traversal limits, fan-out and fan-in, retries) and its laws.
  - `records`: the records a run writes (its start, node starts,
    completions with their checkpoints, failures, LLM calls, edge
    evaluations, the run's completion with its LLM summary, and the mark of
    an interrupted run).
  - `expression`, `condition`: the edge-condition language's lexer, parser
    and path lookup, and its evaluation; the caller answers only the
    questions about numbers (comparisons and truth on floating-point
    values).
  - `memory`, `memory_laws`, `token_counter`: conversation-history strategies
    (message window, token budget, summarization framing) and token counts.
  - `events`, `reconstruct`, `run_store`: run events, the queries rebuilt
    from them, and the in-memory run store with its write laws (idempotent
    writes, sequence order, nothing lost).
  - `state`, `blackboard`, `node_ctx`: the per-run state store, the
    namespaced blackboard over it, and a node's access to state and secrets.
  - `adapters`, `adapter_session`, `llm_call`: framework callback adapters,
    the session that pairs their start and end events, and the reading of
    the LLM requests and responses they report.
  - `engine`, `versions`, `handoff`, `dylib`: the node-type catalog of an
    engine (which registration serves each type) and the runs a restart
    interrupts, the newest-first listing of flow versions, agent handoffs
    carried in node outputs, and the reading of a library node's result.
  - `otel`, `redactor`, `mcp`, `llm_summary`, `trigger`, `clock`, `errors`:
    span ids, redaction, the MCP client's protocol logic, LLM usage
    summaries, trigger deduplication, time and error types.
- `tests/` — tests run against the compiled library.
- `app/` — the asynchronous runtime around the library: conversion to and
  from `serde_json`, the run loop that writes the run's records, node
  execution with timeouts, numeric condition comparison over floating-point
  numbers, MCP tool listing over a transport, the trigger loop, and the
  default providers: run, flow and tag stores kept in files, secrets from
  the environment and an in-process queue.
