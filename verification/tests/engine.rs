use cleargate_flow::engine::{node_catalog, node_sources, runs_to_interrupt, Source};
use cleargate_flow::executor::RunStatus;
use cleargate_flow::json::JsonValue;
use cleargate_flow::reconstruct::RunRecord;
use cleargate_flow::run_store::RunPage;

fn texts(v: &[&str]) -> Vec<String> {
    v.iter().map(|s| s.to_string()).collect()
}

fn run(id: &str, status: RunStatus) -> RunRecord {
    RunRecord {
        run_id: id.into(),
        flow_id: "f".into(),
        version_id: "v".into(),
        inputs: JsonValue::Null,
        triggered_by: JsonValue::Null,
        config_hash: None,
        parent_run_id: None,
        started_at: None,
        status,
        duration_ms: None,
        llm_summary: None,
        completed_at: None,
    }
}

#[test]
fn user_node_types_are_never_replaced() {
    let user = texts(&["llm_call", "custom"]);
    let dylib = texts(&["plugin", "custom"]);
    let builtin = texts(&["llm_call", "http", "jq"]);
    let types = node_catalog(&user, &dylib, &builtin);
    assert_eq!(types, texts(&["llm_call", "custom", "plugin", "http", "jq"]));
}

#[test]
fn catalog_holds_each_type_once() {
    let types = node_catalog(&texts(&["a", "a"]), &texts(&["b", "b"]), &texts(&[]));
    assert_eq!(types, texts(&["a", "b"]));
    assert!(node_catalog(&vec![], &vec![], &vec![]).is_empty());
}

#[test]
fn restart_interrupts_the_running_runs_in_order() {
    let page = RunPage {
        runs: vec![
            run("r1", RunStatus::Running),
            run("r2", RunStatus::Completed),
            run("r3", RunStatus::Running),
            run("r4", RunStatus::Failed),
        ],
        total: 4,
    };
    assert_eq!(runs_to_interrupt(&page), texts(&["r1", "r3"]));
    assert!(runs_to_interrupt(&RunPage { runs: vec![], total: 0 }).is_empty());
}

#[test]
fn test_duplicate_node_registration() {
    let user = texts(&["echo", "echo"]);
    let sources = node_sources(&user, &texts(&["echo", "plugin", "plugin"]), &texts(&["echo", "http"]));
    let echo: Vec<_> = sources.iter().filter(|(t, _)| t == "echo").collect();
    assert_eq!(echo.len(), 1);
    assert_eq!(echo[0].1, Source::User(1));
    let plugin: Vec<_> = sources.iter().filter(|(t, _)| t == "plugin").collect();
    assert_eq!(plugin[0].1, Source::Dylib(1));
    let http: Vec<_> = sources.iter().filter(|(t, _)| t == "http").collect();
    assert_eq!(http[0].1, Source::Builtin(1));
}
