use cleargate_flow::errors::McpError;
use cleargate_flow::json::{JsonNumber, JsonValue};
use cleargate_flow::mcp::{
    collect_discovered, discover_tools_from, mcp_tool_to_tool_def, next_page_cursor,
    response_result, JsonRpcError, JsonRpcResponse, McpClient, McpServer, McpServerConfig, McpServerRegistry,
    McpTool, ToolType, add_tools_page, tools_list_params,
};

#[test]
fn test_mcp_tool_to_tool_def() {
    let mcp_tool = McpTool {
        name: "read_file".into(),
        description: "Read a file from disk".into(),
        input_schema: JsonValue::Object(vec![("type".into(), JsonValue::Str("object".into()))]),
    };
    let def = mcp_tool_to_tool_def("filesystem", mcp_tool);
    assert_eq!(def.name, "read_file");
    assert_eq!(def.description, "Read a file from disk");
    match &def.tool_type {
        ToolType::Mcp { server, tool_name } => {
            assert_eq!(server, "filesystem");
            assert_eq!(tool_name, "read_file");
        }
        other => panic!("expected Mcp tool type, got: {other:?}"),
    }
    assert!(def.metadata.is_empty());
}

#[test]
fn request_ids_count_up_from_one() {
    let mut c = McpClient::new();
    let r1 = c.request("initialize", None);
    let r2 = c.request("tools/list", None);
    assert_eq!(r1.id, 1);
    assert_eq!(r2.id, 2);
    assert_eq!(r1.jsonrpc, "2.0");
    assert_eq!(r2.method, "tools/list");
    assert_eq!(c.next_id(), 3);
    assert!(!c.initialized());
    c.mark_initialized();
    assert!(c.initialized());
}

fn response(result: Option<JsonValue>, error: Option<JsonRpcError>) -> JsonRpcResponse {
    JsonRpcResponse { jsonrpc: "2.0".into(), id: Some(1), result, error }
}

#[test]
fn test_json_rpc_error() {
    let err = response_result(response(
        None,
        Some(JsonRpcError { code: -32601, message: "method not found".into(), data: None }),
    ))
    .unwrap_err();
    match err {
        McpError::Protocol { message } => {
            assert!(message.contains("-32601"));
            assert!(message.contains("method not found"));
            assert_eq!(message, "JSON-RPC error -32601: method not found");
        }
        other => panic!("expected Protocol error, got: {other:?}"),
    }
}

#[test]
fn results_and_empty_replies() {
    let ok = response_result(response(Some(JsonValue::Number(JsonNumber::PosInt(4))), None)).unwrap();
    assert!(matches!(ok, JsonValue::Number(JsonNumber::PosInt(4))));
    match response_result(response(None, None)) {
        Err(McpError::Protocol { message }) => {
            assert_eq!(message, "JSON-RPC response has neither result nor error")
        }
        other => panic!("unexpected {other:?}"),
    }
    let e = response_result(response(
        Some(JsonValue::Null),
        Some(JsonRpcError { code: 7, message: "m".into(), data: None }),
    ));
    assert!(matches!(e, Err(McpError::Protocol { message }) if message == "JSON-RPC error 7: m"));
}

#[test]
fn pagination_stops_on_missing_or_empty_cursor() {
    assert_eq!(next_page_cursor(Some("page2".into())).as_deref(), Some("page2"));
    assert!(next_page_cursor(Some(String::new())).is_none());
    assert!(next_page_cursor(None).is_none());
}

fn tool(name: &str) -> McpTool {
    McpTool {
        name: name.into(),
        description: format!("{name} tool"),
        input_schema: JsonValue::Null,
    }
}

#[test]
fn discovered_tools_keep_listing_order_and_server() {
    let defs = discover_tools_from("fs", vec![tool("read"), tool("write")]);
    let names: Vec<&str> = defs.iter().map(|d| d.name.as_str()).collect();
    assert_eq!(names, vec!["read", "write"]);
    for d in &defs {
        match &d.tool_type {
            ToolType::Mcp { server, tool_name } => {
                assert_eq!(server, "fs");
                assert_eq!(tool_name, &d.name);
            }
            _ => panic!("expected an MCP tool"),
        }
    }
}

#[test]
fn failed_servers_are_skipped_in_discovery() {
    let results = vec![
        Ok(discover_tools_from("a", vec![tool("x")])),
        Err(McpError::Connection { message: "refused".into() }),
        Ok(discover_tools_from("b", vec![tool("y"), tool("z")])),
        Err(McpError::Timeout { elapsed_ms: 5 }),
    ];
    let all = collect_discovered(results);
    let names: Vec<&str> = all.iter().map(|d| d.name.as_str()).collect();
    assert_eq!(names, vec!["x", "y", "z"]);
    assert!(collect_discovered(vec![Err(McpError::Protocol { message: "bad".into() })]).is_empty());
}

#[test]
fn server_config_variants() {
    let stdio = McpServerConfig::Stdio {
        command: "mcp-fs".into(),
        args: vec!["--root".into(), "/tmp".into()],
        env: vec![("LOG".into(), "debug".into())],
    };
    let sse = McpServerConfig::Sse { url: "http://localhost:9000/sse".into(), headers: vec![] };
    assert!(matches!(stdio, McpServerConfig::Stdio { ref args, .. } if args.len() == 2));
    assert!(matches!(sse, McpServerConfig::Sse { ref url, .. } if url.ends_with("/sse")));
}

#[test]
fn registry_keeps_the_last_registration_of_a_name() {
    let mut reg = McpServerRegistry::new();
    assert!(reg.is_empty());
    reg.register("fs".into(), McpServerConfig::Sse { url: "http://a".into(), headers: vec![] });
    reg.register("git".into(), McpServerConfig::Sse { url: "http://b".into(), headers: vec![] });
    reg.register("fs".into(), McpServerConfig::Sse { url: "http://c".into(), headers: vec![] });
    assert!(!reg.is_empty());
    assert!(matches!(reg.get("fs").map(|s| &s.config), Some(McpServerConfig::Sse { url, .. }) if url == "http://c"));
    assert!(matches!(reg.get("git").map(|s| &s.config), Some(McpServerConfig::Sse { url, .. }) if url == "http://b"));
    assert_eq!(reg.get("fs").map(|s| s.name()), Some("fs"));
    assert!(reg.get("none").is_none());
}

#[test]
fn registry_new_is_empty() {
    let reg = McpServerRegistry::new();
    assert!(reg.is_empty());
    assert!(reg.get("anything").is_none());
}

#[test]
fn registry_register_and_get() {
    let mut reg = McpServerRegistry::new();
    reg.register(
        "fs".to_string(),
        McpServerConfig::Stdio { command: "echo".into(), args: vec![], env: vec![] },
    );
    assert!(!reg.is_empty());
    assert!(reg.get("fs").is_some());
    assert!(reg.get("other").is_none());
}

#[test]
fn server_name() {
    let server = McpServer::new(
        "my-server".to_string(),
        McpServerConfig::Sse { url: "http://localhost:8080".into(), headers: vec![] },
    );
    assert_eq!(server.name(), "my-server");
}

#[test]
fn tool_listing_follows_cursors_until_the_last_page() {
    let mut all = Vec::new();
    assert!(tools_list_params(&None).is_none());
    let next = add_tools_page(&mut all, vec![tool("a"), tool("b")], Some("page2".into()));
    assert_eq!(next.as_deref(), Some("page2"));
    let params = tools_list_params(&next).unwrap();
    assert!(matches!(params.get("cursor"), Some(JsonValue::Str(c)) if c == "page2"));
    let next = add_tools_page(&mut all, vec![tool("c")], Some(String::new()));
    assert!(next.is_none());
    let names: Vec<&str> = all.iter().map(|t| t.name.as_str()).collect();
    assert_eq!(names, vec!["a", "b", "c"]);
}
