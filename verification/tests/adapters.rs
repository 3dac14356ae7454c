use cleargate_flow::adapters::{
    AdapterEvent, FrameworkAdapter, LangChainAdapter, LangGraphAdapter, SemanticKernelAdapter,
};
use cleargate_flow::clock::Timestamp;
use cleargate_flow::json::{JsonNumber, JsonValue};

fn from_json(v: &serde_json::Value) -> JsonValue {
    match v {
        serde_json::Value::Null => JsonValue::Null,
        serde_json::Value::Bool(b) => JsonValue::Bool(*b),
        serde_json::Value::Number(n) => {
            if let Some(u) = n.as_u64() {
                JsonValue::Number(JsonNumber::PosInt(u))
            } else if let Some(i) = n.as_i64() {
                JsonValue::Number(JsonNumber::NegInt(i))
            } else {
                JsonValue::Number(JsonNumber::Float(n.as_f64().unwrap().to_bits()))
            }
        }
        serde_json::Value::String(s) => JsonValue::Str(s.clone()),
        serde_json::Value::Array(a) => JsonValue::Array(a.iter().map(from_json).collect()),
        serde_json::Value::Object(m) => {
            JsonValue::Object(m.iter().map(|(k, v)| (k.clone(), from_json(v))).collect())
        }
    }
}

fn to_json(v: &JsonValue) -> serde_json::Value {
    match v {
        JsonValue::Null => serde_json::Value::Null,
        JsonValue::Bool(b) => serde_json::Value::Bool(*b),
        JsonValue::Number(JsonNumber::PosInt(u)) => serde_json::Value::from(*u),
        JsonValue::Number(JsonNumber::NegInt(i)) => serde_json::Value::from(*i),
        JsonValue::Number(JsonNumber::Float(bits)) => serde_json::Value::from(f64::from_bits(*bits)),
        JsonValue::Str(s) => serde_json::Value::String(s.clone()),
        JsonValue::Array(a) => serde_json::Value::Array(a.iter().map(to_json).collect()),
        JsonValue::Object(m) => {
            serde_json::Value::Object(m.iter().map(|(k, v)| (k.clone(), to_json(v))).collect())
        }
    }
}

fn raw(text: &str) -> JsonValue {
    from_json(&serde_json::from_str::<serde_json::Value>(text).unwrap())
}

const NOW: Timestamp = Timestamp { secs: 1_767_225_600, nanos: 0 };

#[test]
fn test_on_llm_start() {
    let adapter = LangChainAdapter;
    let events = adapter.translate(&raw(
        r#"{"callback": "on_llm_start", "run_id": "run-123",
            "serialized": {"id": ["langchain_openai", "chat_models", "ChatOpenAI"],
                           "kwargs": {"model_name": "gpt-4o"}},
            "prompts": ["Hello, how are you?"]}"#,
    ));
    assert_eq!(events.len(), 1);
    if let AdapterEvent::LlmStart { node_id, request, .. } = &events[0] {
        let request = to_json(request);
        assert_eq!(node_id, "run-123");
        assert_eq!(request["model"], "gpt-4o");
        assert_eq!(request["provider"], "openai");
    } else {
        panic!("expected LlmStart");
    }
}

#[test]
fn test_on_llm_end() {
    let adapter = LangChainAdapter;
    let events = adapter.translate(&raw(
        r#"{"callback": "on_llm_end", "run_id": "run-123",
            "response": {"generations": [[{"text": "I'm fine!"}]],
                         "llm_output": {"model_name": "gpt-4o",
                                        "token_usage": {"prompt_tokens": 10, "completion_tokens": 5, "total_tokens": 15}}},
            "duration_ms": 200}"#,
    ));
    assert_eq!(events.len(), 1);
    if let AdapterEvent::LlmEnd { response, duration_ms, .. } = &events[0] {
        let response = to_json(response);
        assert_eq!(response["content"], "I'm fine!");
        assert_eq!(response["model"], "gpt-4o");
        assert_eq!(*duration_ms, 200);
    } else {
        panic!("expected LlmEnd");
    }
}

#[test]
fn test_on_chain_start() {
    let adapter = LangChainAdapter;
    let events = adapter.translate(&raw(
        r#"{"callback": "on_chain_start",
            "serialized": {"id": ["langchain", "chains", "RetrievalQA"]},
            "inputs": {"query": "what is rust?"}}"#,
    ));
    assert_eq!(events.len(), 1);
    assert!(matches!(&events[0], AdapterEvent::StepStart { name, .. } if name == "RetrievalQA"));
}

#[test]
fn test_on_llm_start_model_fallback() {
    let adapter = LangChainAdapter;
    let events = adapter.translate(&raw(
        r#"{"callback": "on_llm_start", "run_id": "run-ollama",
            "serialized": {"id": ["langchain", "llms", "ollama", "ChatOllama"],
                           "kwargs": {"model": "llama3"}},
            "prompts": ["Hello"]}"#,
    ));
    assert_eq!(events.len(), 1);
    if let AdapterEvent::LlmStart { request, .. } = &events[0] {
        let request = to_json(request);
        assert_eq!(request["model"], "llama3");
        assert_eq!(request["provider"], "langchain");
    } else {
        panic!("expected LlmStart");
    }
}

#[test]
fn test_on_llm_start_repr_extraction() {
    let adapter = LangChainAdapter;
    let events = adapter.translate(&raw(
        r#"{"callback": "on_llm_start", "run_id": "run-ollama-repr",
            "serialized": {"lc": 1, "type": "not_implemented",
                           "id": ["langchain_ollama", "chat_models", "ChatOllama"],
                           "repr": "ChatOllama(callbacks=[...], model='ministral-3:3b')",
                           "name": "ChatOllama"},
            "prompts": ["Hello"]}"#,
    ));
    assert_eq!(events.len(), 1);
    if let AdapterEvent::LlmStart { request, .. } = &events[0] {
        let request = to_json(request);
        assert_eq!(request["model"], "ministral-3:3b");
        assert_eq!(request["provider"], "ollama");
    } else {
        panic!("expected LlmStart");
    }
}

#[test]
fn test_on_llm_end_model_fallback() {
    let adapter = LangChainAdapter;
    let events = adapter.translate(&raw(
        r#"{"callback": "on_llm_end", "run_id": "run-ollama",
            "response": {"generations": [[{"text": "Hello!"}]],
                         "llm_output": {"model": "llama3",
                                        "token_usage": {"prompt_tokens": 5, "completion_tokens": 3, "total_tokens": 8}}},
            "duration_ms": 100}"#,
    ));
    assert_eq!(events.len(), 1);
    if let AdapterEvent::LlmEnd { response, .. } = &events[0] {
        assert_eq!(to_json(response)["model"], "llama3");
    } else {
        panic!("expected LlmEnd");
    }
}

#[test]
fn test_on_chain_end_preserves_name() {
    let adapter = LangChainAdapter;
    let events = adapter.translate(&raw(
        r#"{"callback": "on_chain_end",
            "serialized": {"id": ["langchain", "chains", "RetrievalQA"]},
            "outputs": {"result": "Rust is a systems programming language."}}"#,
    ));
    assert_eq!(events.len(), 1);
    assert!(matches!(&events[0], AdapterEvent::StepEnd { name, .. } if name == "RetrievalQA"));
}

#[test]
fn test_on_chain_end_fallback() {
    let adapter = LangChainAdapter;
    let events =
        adapter.translate(&raw(r#"{"callback": "on_chain_end", "outputs": {"result": "done"}}"#));
    assert_eq!(events.len(), 1);
    assert!(matches!(&events[0], AdapterEvent::StepEnd { name, .. } if name == "chain"));
}

#[test]
fn test_unknown_callback() {
    let adapter = LangChainAdapter;
    let events = adapter.translate(&raw(r#"{"callback": "on_something_else"}"#));
    assert!(events.is_empty());
}

#[test]
fn test_node_lifecycle() {
    let adapter = LangGraphAdapter;
    let start = adapter
        .translate(&raw(r#"{"callback": "node_start", "node": "agent", "state": {"messages": []}}"#));
    assert_eq!(start.len(), 1);
    assert!(matches!(&start[0], AdapterEvent::StepStart { name, .. } if name == "agent"));
    let end = adapter
        .translate(&raw(r#"{"callback": "node_end", "node": "agent", "state": {"messages": ["hi"]}}"#));
    assert_eq!(end.len(), 1);
    assert!(matches!(&end[0], AdapterEvent::StepEnd { name, .. } if name == "agent"));
}

#[test]
fn test_edge_transition() {
    let adapter = LangGraphAdapter;
    let events = adapter.translate(&raw(r#"{"callback": "edge", "from": "agent", "to": "tools"}"#));
    assert_eq!(events.len(), 1);
    if let AdapterEvent::NodeTransition { from, to, .. } = &events[0] {
        assert_eq!(from, "agent");
        assert_eq!(to, "tools");
    } else {
        panic!("expected NodeTransition");
    }
}

#[test]
fn test_llm_within_node() {
    let adapter = LangGraphAdapter;
    let events = adapter.translate(&raw(
        r#"{"callback": "on_llm_start", "node": "agent", "request": {"model": "gpt-4", "messages": []}}"#,
    ));
    assert_eq!(events.len(), 1);
    assert!(matches!(&events[0], AdapterEvent::LlmStart { node_id, .. } if node_id == "agent"));
}

#[test]
fn test_function_lifecycle() {
    let adapter = SemanticKernelAdapter;
    let invoking = adapter.translate(&raw(
        r#"{"callback": "function_invoking", "plugin_name": "SearchPlugin",
            "function_name": "search", "arguments": {"query": "rust lang"}}"#,
    ));
    assert_eq!(invoking.len(), 1);
    if let AdapterEvent::ToolStart { node_id, tool_name, .. } = &invoking[0] {
        assert_eq!(node_id, "SearchPlugin.search");
        assert_eq!(tool_name, "search");
    } else {
        panic!("expected ToolStart");
    }
    let invoked = adapter.translate(&raw(
        r#"{"callback": "function_invoked", "plugin_name": "SearchPlugin",
            "function_name": "search", "result": {"text": "Rust is a systems language"},
            "duration_ms": 150}"#,
    ));
    assert_eq!(invoked.len(), 1);
    if let AdapterEvent::ToolEnd { duration_ms, .. } = &invoked[0] {
        assert_eq!(*duration_ms, 150);
    } else {
        panic!("expected ToolEnd");
    }
}

#[test]
fn test_prompt_rendering() {
    let adapter = SemanticKernelAdapter;
    let rendering = adapter
        .translate(&raw(r#"{"callback": "prompt_rendering", "template": "Tell me about {{$topic}}"}"#));
    assert_eq!(rendering.len(), 1);
    assert!(matches!(&rendering[0], AdapterEvent::StepStart { name, .. } if name == "prompt_rendering"));
    let rendered = adapter
        .translate(&raw(r#"{"callback": "prompt_rendered", "rendered_prompt": "Tell me about Rust"}"#));
    assert_eq!(rendered.len(), 1);
    assert!(matches!(&rendered[0], AdapterEvent::StepEnd { name, .. } if name == "prompt_rendering"));
}

#[test]
fn translate_at_stamps_the_given_time() {
    let events = LangGraphAdapter
        .translate_at(&raw(r#"{"callback": "edge", "from": "a", "to": "b"}"#), NOW);
    assert!(matches!(&events[0], AdapterEvent::NodeTransition { timestamp, .. } if *timestamp == NOW));
}

#[test]
fn langchain_llm_end_usage_and_missing_parts() {
    let events = LangChainAdapter.translate_at(
        &raw(r#"{"callback": "on_llm_end", "response": {"llm_output": {"token_usage": {"prompt_tokens": 4}}}}"#),
        NOW,
    );
    if let AdapterEvent::LlmEnd { node_id, response, duration_ms, .. } = &events[0] {
        let response = to_json(response);
        assert_eq!(node_id, "unknown");
        assert_eq!(response["content"], "");
        assert_eq!(response["model"], "unknown");
        assert_eq!(response["usage"]["prompt_tokens"], 4);
        assert!(response["usage"]["completion_tokens"].is_null());
        assert_eq!(*duration_ms, 0);
    } else {
        panic!("expected LlmEnd");
    }
}

#[test]
fn langchain_model_from_generation_info() {
    let events = LangChainAdapter.translate_at(
        &raw(r#"{"callback": "on_llm_end", "response": {"generations": [[{"text": "x", "generation_info": {"model": "qwen"}}]]}}"#),
        NOW,
    );
    if let AdapterEvent::LlmEnd { response, .. } = &events[0] {
        assert_eq!(to_json(response)["model"], "qwen");
    } else {
        panic!("expected LlmEnd");
    }
}

#[test]
fn langchain_repr_without_quote_falls_back_to_id() {
    let events = LangChainAdapter.translate_at(
        &raw(r#"{"callback": "on_llm_start", "serialized": {"repr": "X(model=abc)", "id": ["langchain-foo", "Bar"]}}"#),
        NOW,
    );
    if let AdapterEvent::LlmStart { request, .. } = &events[0] {
        let request = to_json(request);
        assert_eq!(request["model"], "Bar");
        assert_eq!(request["provider"], "foo");
        assert!(request["messages"].is_null());
    } else {
        panic!("expected LlmStart");
    }
}

#[test]
fn langchain_repr_double_quotes() {
    let events = LangChainAdapter.translate_at(
        &raw(r#"{"callback": "on_llm_start", "serialized": {"repr": "X(model=\"m1\", temperature=0)"}}"#),
        NOW,
    );
    if let AdapterEvent::LlmStart { request, .. } = &events[0] {
        let request = to_json(request);
        assert_eq!(request["model"], "m1");
        assert_eq!(request["provider"], "langchain");
    } else {
        panic!("expected LlmStart");
    }
}

#[test]
fn langchain_tools() {
    let start = LangChainAdapter.translate_at(
        &raw(r#"{"callback": "on_tool_start", "run_id": "t1", "serialized": {"name": "search"}, "input_str": "q"}"#),
        NOW,
    );
    assert!(matches!(&start[0], AdapterEvent::ToolStart { node_id, tool_name, .. } if node_id == "t1" && tool_name == "search"));
    let end = LangChainAdapter
        .translate_at(&raw(r#"{"callback": "on_tool_end", "run_id": "t1", "output": "r", "duration_ms": 9}"#), NOW);
    assert!(matches!(&end[0], AdapterEvent::ToolEnd { tool_name, duration_ms: 9, .. } if tool_name == "unknown"));
}

#[test]
fn payload_without_callback_gives_nothing() {
    assert!(LangChainAdapter.translate_at(&raw(r#"{"run_id": "x"}"#), NOW).is_empty());
    assert!(LangGraphAdapter.translate_at(&raw(r#"{"callback": 3}"#), NOW).is_empty());
    assert!(SemanticKernelAdapter.translate_at(&raw(r#"[]"#), NOW).is_empty());
}

#[test]
fn langgraph_state_update_and_semantic_kernel_llm() {
    let e = LangGraphAdapter.translate_at(&raw(r#"{"callback": "state_update", "updates": {"k": 1}}"#), NOW);
    assert!(matches!(&e[0], AdapterEvent::StepStart { name, .. } if name == "state_state_update"));
    let e = SemanticKernelAdapter.translate_at(&raw(r#"{"callback": "on_llm_end", "duration_ms": 5}"#), NOW);
    assert!(matches!(&e[0], AdapterEvent::LlmEnd { node_id, duration_ms: 5, .. } if node_id == "llm"));
}

#[test]
fn framework_names() {
    assert_eq!(LangChainAdapter.framework_name(), "langchain");
    assert_eq!(LangGraphAdapter.framework_name(), "langgraph");
    assert_eq!(SemanticKernelAdapter.framework_name(), "semantic_kernel");
}
