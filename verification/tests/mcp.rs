use commonplace::mcp::{
    cap_query, effective_k, fetch_count, parse_vault, plan_tool, read_request, reply_of, route, Route,
    ToolPlan,
};

fn args(v: &[&str]) -> Vec<String> {
    v.iter().map(|s| s.to_string()).collect()
}

#[test]
fn requests_are_read_from_lines() {
    assert!(read_request("   ").is_none());
    assert!(read_request("not json").is_none());
    let q = read_request(
        r#"  {"jsonrpc":"2.0","id":7,"method":"tools/call","params":{"name":"search","arguments":{"query":"q","k":3,"rel":"a.md"}}}  "#,
    )
    .unwrap();
    assert!(q.has_id);
    assert_eq!(q.method, "tools/call");
    assert_eq!(q.tool, "search");
    assert_eq!(q.query.as_deref(), Some("q"));
    assert_eq!(q.rel.as_deref(), Some("a.md"));
    assert_eq!(q.k, Some(3));
    let n = read_request(r#"{"jsonrpc":"2.0","method":"notifications/initialized"}"#).unwrap();
    assert!(!n.has_id);
    let z = read_request(r#"{"id":null,"method":"ping"}"#).unwrap();
    assert!(!z.has_id);
    let e = read_request(r#"{"id":1}"#).unwrap();
    assert_eq!(e.method, "");
    assert_eq!(e.tool, "");
    assert!(e.query.is_none());
    assert_eq!(e.k, None);
}

#[test]
fn requests_are_routed() {
    assert!(matches!(route(false, "ping"), Route::Silent));
    assert!(matches!(route(true, "initialize"), Route::Initialize));
    assert!(matches!(route(true, "ping"), Route::Ping));
    assert!(matches!(route(true, "tools/list"), Route::ListTools));
    assert!(matches!(route(true, "tools/call"), Route::CallTool));
    assert!(matches!(route(true, "tools/other"), Route::MethodNotFound));
    assert!(matches!(route(true, ""), Route::MethodNotFound));
}

#[test]
fn tool_calls_are_planned() {
    assert!(matches!(plan_tool("list_notes", None, None, None), ToolPlan::ListNotes));
    match plan_tool("read_note", Some("a.md"), None, None) {
        ToolPlan::ReadNote { rel } => assert_eq!(rel, "a.md"),
        _ => panic!("expected a read"),
    }
    match plan_tool("read_note", None, None, None) {
        ToolPlan::Fail { message } => assert_eq!(message, "missing required argument: rel"),
        _ => panic!("expected a failure"),
    }
    match plan_tool("search", None, Some("hello"), Some(0)) {
        ToolPlan::Search { query, k } => {
            assert_eq!(query, "hello");
            assert_eq!(k, 5);
        }
        _ => panic!("expected a search"),
    }
    match plan_tool("search", None, None, None) {
        ToolPlan::Fail { message } => assert_eq!(message, "missing required argument: query"),
        _ => panic!("expected a failure"),
    }
    match plan_tool("related_notes", Some("b.md"), None, Some(9)) {
        ToolPlan::Related { rel, k } => {
            assert_eq!(rel, "b.md");
            assert_eq!(k, 9);
        }
        _ => panic!("expected related"),
    }
    match plan_tool("write_note", None, None, None) {
        ToolPlan::Fail { message } => assert_eq!(message, "unknown tool: write_note"),
        _ => panic!("expected a failure"),
    }
}

#[test]
fn limits_and_caps() {
    assert_eq!(effective_k(None, 5), 5);
    assert_eq!(effective_k(Some(0), 5), 5);
    assert_eq!(effective_k(Some(12), 5), 12);
    assert_eq!(fetch_count(5), 30);
    let long = "é".repeat(2500);
    assert_eq!(cap_query(&long).chars().count(), 2000);
    assert_eq!(cap_query("short"), "short");
}

#[test]
fn vault_argument() {
    assert_eq!(parse_vault(&args(&["mcp", "--vault", "/v"]), None).as_deref(), Some("/v"));
    assert_eq!(parse_vault(&args(&["mcp", "--vault=/w"]), Some("/env")).as_deref(), Some("/w"));
    assert_eq!(parse_vault(&args(&["mcp"]), Some("/env")).as_deref(), Some("/env"));
    assert_eq!(parse_vault(&args(&["mcp", "--vault"]), Some("/env")), None);
    assert_eq!(parse_vault(&args(&["--vault", "/prog"]), None), None);
    assert_eq!(parse_vault(&args(&["mcp", "x", "--vault", "/v", "--vault", "/u"]), None).as_deref(), Some("/v"));
}

#[test]
fn replies_mark_errors() {
    let ok = reply_of(Ok("text".to_string()));
    assert_eq!(ok.text, "text");
    assert!(!ok.is_error);
    let err = reply_of(Err("bad".to_string()));
    assert_eq!(err.text, "bad");
    assert!(err.is_error);
}

#[test]
fn the_tool_list_is_the_four_read_tools() {
    let specs = commonplace::mcp::tool_specs();
    let names: Vec<&str> = specs.iter().map(|t| t.name.as_str()).collect();
    assert_eq!(names, vec!["list_notes", "read_note", "search", "related_notes"]);
    let required: Vec<Vec<String>> = specs.iter().map(|t| t.required.clone()).collect();
    assert_eq!(required, vec![vec![], vec!["rel".to_string()], vec!["query".to_string()], vec!["rel".to_string()]]);
    for t in &specs {
        let plan = commonplace::mcp::plan_tool(&t.name, Some("a.md"), Some("q"), None);
        assert!(!matches!(plan, commonplace::mcp::ToolPlan::Fail { .. }));
    }
    assert!(matches!(
        commonplace::mcp::plan_tool("write_note", Some("a.md"), None, None),
        commonplace::mcp::ToolPlan::Fail { .. }
    ));
}
