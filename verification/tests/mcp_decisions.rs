use codebase_recall::commands::mcp::{
    depth_arg, graph_depth_arg, method_not_found, parse_error, replies, resolve_project, route,
    search_limit_arg, tool_name, tool_of, tools, unknown_tool, Route, Tool, METHOD_NOT_FOUND,
    PARSE_ERROR, PROTOCOL_VERSION, SERVER_NAME,
};
use codebase_recall::commands::sync::SyncStats;

#[test]
fn methods_route_to_their_handlers() {
    assert_eq!(route("initialize"), Route::Initialize);
    assert_eq!(route("ping"), Route::Ping);
    assert_eq!(route("tools/list"), Route::ListTools);
    assert_eq!(route("tools/call"), Route::CallTool);
    assert_eq!(route("notifications/initialized"), Route::Acknowledge);
    assert_eq!(route("initialized"), Route::Acknowledge);
    assert_eq!(route("non_existent_method"), Route::Unknown);
    assert_eq!(route("Ping"), Route::Unknown);
    assert_eq!(PROTOCOL_VERSION, "2024-11-05");
    assert_eq!(SERVER_NAME, "code-rcl");
}

#[test]
fn notifications_and_the_initialized_notice_get_no_answer() {
    assert!(replies(true, Route::Ping));
    assert!(replies(true, Route::Unknown));
    assert!(!replies(false, Route::Ping));
    assert!(!replies(true, Route::Acknowledge));
}

#[test]
fn error_texts_carry_their_subject() {
    assert_eq!(METHOD_NOT_FOUND, -32601);
    assert_eq!(PARSE_ERROR, -32700);
    assert_eq!(method_not_found("non_existent_method"), "Method not found: non_existent_method");
    assert_eq!(parse_error("EOF while parsing"), "Parse error: EOF while parsing");
    assert_eq!(unknown_tool("code_rcl_nope"), "Unknown tool: code_rcl_nope");
}

#[test]
fn the_nine_tools_are_found_by_name() {
    let all = tools();
    assert_eq!(all.len(), 9);
    let names: Vec<&str> = all.iter().map(|t| tool_name(*t)).collect();
    for n in [
        "code_rcl_digest", "code_rcl_impact", "code_rcl_path", "code_rcl_explain", "code_rcl_report",
        "code_rcl_dump", "code_rcl_search", "code_rcl_sync", "code_rcl_graph",
    ] {
        assert!(names.contains(&n));
        assert_eq!(tool_of(n).map(tool_name), Some(n));
    }
    assert_eq!(tool_of("code_rcl_explain"), Some(Tool::Explain));
    assert_eq!(tool_of("digest"), None);
}

#[test]
fn tool_arguments_take_their_defaults_and_bounds() {
    assert_eq!(depth_arg(None, 1, 8, 2), 2);
    assert_eq!(depth_arg(Some(0), 1, 8, 2), 1);
    assert_eq!(depth_arg(Some(5), 1, 8, 2), 5);
    assert_eq!(depth_arg(Some(50), 1, 8, 2), 8);
    // the number is cut to 32 bits before it is bounded
    assert_eq!(depth_arg(Some((1u64 << 32) + 3), 1, 20, 8), 3);
    assert_eq!(graph_depth_arg(None), 2);
    assert_eq!(graph_depth_arg(Some(7)), 7);
    assert_eq!(search_limit_arg(None), 25);
    assert_eq!(search_limit_arg(Some(0)), 1);
    assert_eq!(search_limit_arg(Some(1000)), 100);
    assert_eq!(search_limit_arg(Some((1u64 << 32) + 3)), 100);
}

#[test]
fn a_call_names_its_project_or_gets_the_servers() {
    assert_eq!(resolve_project("/srv/app", Some("/tmp/other")), "/tmp/other");
    assert_eq!(resolve_project("/srv/app", Some("")), "/srv/app");
    assert_eq!(resolve_project("/srv/app", None), "/srv/app");
}

#[test]
fn a_finished_sync_is_summed_up_with_the_cache_totals() {
    let s = SyncStats { scanned: 12, added: 1, changed: 2, unchanged: 9, removed: 0, symbols: 80, imports: 31, unsupported: 0 };
    assert_eq!(
        s.completed_text(300, 90),
        "Sync completed: 12 scanned (+1 added, ~2 changed, =9 unchanged, -0 removed), 300 symbols (80 re-parsed), 90 imports (31 re-parsed)"
    );
}
