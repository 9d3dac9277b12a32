use neurolithe::mcp::{route_request, ArgValue, McpRoute, QueryScope, ToolArgs, DEFAULT_K, METHOD_NOT_FOUND, PARSE_ERROR};
use neurolithe::models::TimeFilter;

fn args(entries: Vec<(&str, ArgValue)>) -> ToolArgs {
    ToolArgs {
        entries: entries.into_iter().map(|(k, v)| (k.to_string(), v)).collect(),
        time_filter: None,
    }
}

fn text(s: &str) -> ArgValue {
    ArgValue::Text(s.to_string())
}

#[test]
fn store_memory_defaults() {
    let r = route_request("tools/call", Some("store_memory"), &args(vec![("fact_text", text("User likes tea"))]));
    match r {
        McpRoute::StoreMemory { tenant_id, fact_text, tags, ccl } => {
            assert_eq!(tenant_id, "jarvis");
            assert_eq!(fact_text, "User likes tea");
            assert!(tags.is_empty());
            assert_eq!(ccl, "reality");
        }
        other => panic!("unexpected {other:?}"),
    }
}

#[test]
fn store_memory_keeps_only_string_tags() {
    let a = args(vec![
        ("tenant_id", text("t1")),
        ("tags", ArgValue::List(vec![Some("a".into()), None, Some("b".into())])),
        ("ccl", text("dream")),
    ]);
    match route_request("tools/call", Some("store_memory"), &a) {
        McpRoute::StoreMemory { tenant_id, fact_text, tags, ccl } => {
            assert_eq!(tenant_id, "t1");
            assert_eq!(fact_text, "");
            assert_eq!(tags, vec!["a", "b"]);
            assert_eq!(ccl, "dream");
        }
        other => panic!("unexpected {other:?}"),
    }
}

#[test]
fn push_dialogue_defaults_session() {
    match route_request("tools/call", Some("push_dialogue"), &args(vec![("new_message", text("hi"))])) {
        McpRoute::PushDialogue { tenant_id, session_id, new_message, ccl } => {
            assert_eq!(tenant_id, "jarvis");
            assert_eq!(session_id, "default");
            assert_eq!(new_message, "hi");
            assert_eq!(ccl, "reality");
        }
        other => panic!("unexpected {other:?}"),
    }
}

#[test]
fn query_tools_share_defaults_and_differ_in_scope() {
    let mut a = args(vec![
        ("query", text("dog")),
        ("k", ArgValue::Integer(3)),
        ("ccl_filter", ArgValue::List(vec![Some("reality".into())])),
    ]);
    a.time_filter = Some(TimeFilter { after: Some("2024-01-01".into()), before: None });
    let q1 = match route_request("tools/call", Some("query_memory"), &a) {
        McpRoute::QueryMemory(q) => q,
        other => panic!("unexpected {other:?}"),
    };
    let q2 = match route_request("tools/call", Some("recall_ltm"), &a) {
        McpRoute::RecallLtm(q) => q,
        other => panic!("unexpected {other:?}"),
    };
    assert_eq!(q1.scope, QueryScope::Stm);
    assert_eq!(q2.scope, QueryScope::Ltm);
    for q in [&q1, &q2] {
        assert_eq!(q.tenant, "jarvis");
        assert_eq!(q.query, "dog");
        assert_eq!(q.k, 3);
        assert_eq!(q.ccl, vec!["reality"]);
        assert_eq!(q.time_filter.after.as_deref(), Some("2024-01-01"));
        assert_eq!(q.time_filter.before, None);
        assert_eq!(q.context_key, None);
    }
}

#[test]
fn negative_or_missing_k_falls_back_to_default() {
    let q = match route_request("tools/call", Some("query_memory"), &args(vec![("k", ArgValue::Integer(-1))])) {
        McpRoute::QueryMemory(q) => q,
        other => panic!("unexpected {other:?}"),
    };
    assert_eq!(q.k, DEFAULT_K);
    assert_eq!(q.query, "");
    assert_eq!(q.ccl, vec!["reality"]);
}

#[test]
fn introspection_tools_and_their_defaults() {
    assert!(matches!(route_request("tools/call", Some("memory_stats"), &args(vec![])), McpRoute::MemoryStats));
    assert!(matches!(route_request("tools/call", Some("health"), &args(vec![])), McpRoute::Health));
    assert!(matches!(
        route_request("tools/call", Some("placement_debug"), &args(vec![])),
        McpRoute::PlacementDebug { sample: 30 }
    ));
    assert!(matches!(
        route_request("tools/call", Some("ltm_map"), &args(vec![])),
        McpRoute::LtmMap { depth: 3 }
    ));
    match route_request("tools/call", Some("stm_list"), &args(vec![("status", text("archived")), ("offset", ArgValue::Integer(5))])) {
        McpRoute::StmList { limit, offset, status, contains } => {
            assert_eq!(limit, 20);
            assert_eq!(offset, 5);
            assert_eq!(status.as_deref(), Some("archived"));
            assert_eq!(contains, None);
        }
        other => panic!("unexpected {other:?}"),
    }
    match route_request("tools/call", Some("trace_dataId"), &args(vec![("dataId", text("doc_1"))])) {
        McpRoute::TraceDataId { data_id } => assert_eq!(data_id, "doc_1"),
        other => panic!("unexpected {other:?}"),
    }
}

#[test]
fn inspect_node_needs_an_integer_id() {
    match route_request("tools/call", Some("inspect_node"), &args(vec![("id", ArgValue::Integer(12)), ("child_limit", ArgValue::Integer(5))])) {
        McpRoute::InspectNode { id, child_limit, child_offset, summary_max_chars } => {
            assert_eq!(id, 12);
            assert_eq!(child_limit, Some(5));
            assert_eq!(child_offset, 0);
            assert_eq!(summary_max_chars, None);
        }
        other => panic!("unexpected {other:?}"),
    }
    match route_request("tools/call", Some("inspect_node"), &args(vec![("id", text("12"))])) {
        McpRoute::ToolError(e) => assert_eq!(e, "inspect_node requires an integer 'id'"),
        other => panic!("unexpected {other:?}"),
    }
    match route_request("tools/call", Some("subtree"), &args(vec![])) {
        McpRoute::ToolError(e) => assert_eq!(e, "subtree requires an integer 'node'"),
        other => panic!("unexpected {other:?}"),
    }
    assert!(matches!(
        route_request("tools/call", Some("subtree"), &args(vec![("node", ArgValue::Integer(1))])),
        McpRoute::Subtree { node: 1, depth: 2 }
    ));
}

#[test]
fn unknown_tools_and_methods() {
    match route_request("tools/call", Some("nope"), &args(vec![])) {
        McpRoute::ToolError(e) => assert_eq!(e, "Unknown tool: nope"),
        other => panic!("unexpected {other:?}"),
    }
    match route_request("tools/call", None, &args(vec![])) {
        McpRoute::ToolError(e) => assert_eq!(e, "Unknown tool: "),
        other => panic!("unexpected {other:?}"),
    }
    assert!(matches!(route_request("initialize", None, &args(vec![])), McpRoute::Initialize));
    assert!(matches!(route_request("tools/list", None, &args(vec![])), McpRoute::ToolsList));
    match route_request("resources/list", None, &args(vec![])) {
        McpRoute::MethodNotFound(m) => assert_eq!(m, "Method not found: resources/list"),
        other => panic!("unexpected {other:?}"),
    }
    assert_eq!(METHOD_NOT_FOUND, -32601);
    assert_eq!(PARSE_ERROR, -32700);
}

#[test]
fn ccl_filter_given_as_an_array_is_taken_as_it_is() {
    let q = match route_request("tools/call", Some("recall_ltm"), &args(vec![("ccl_filter", ArgValue::List(vec![Some("dream".into())]))])) {
        McpRoute::RecallLtm(q) => q,
        other => panic!("unexpected {other:?}"),
    };
    assert_eq!(q.ccl, vec!["dream"]);
    let q = match route_request("tools/call", Some("query_memory"), &args(vec![("ccl_filter", text("dream"))])) {
        McpRoute::QueryMemory(q) => q,
        other => panic!("unexpected {other:?}"),
    };
    assert_eq!(q.ccl, vec!["reality"]);
}
