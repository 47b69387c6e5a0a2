//! The decisions of the stdio JSON-RPC server: which method a request asks
//! for and whether it is answered, which tool a call names, the defaults and
//! bounds of tool arguments, and the texts of its errors.

use vstd::prelude::*;
use crate::commands::digest::markdown::push_str;
use crate::text::{str_eq, string_of};

verus! {

pub const PROTOCOL_VERSION: &'static str = "2024-11-05";
pub const SERVER_NAME: &'static str = "code-rcl";
/// JSON-RPC: the request line is no JSON the server can read.
pub const PARSE_ERROR: i64 = -32700;
/// JSON-RPC: the server has no such method.
pub const METHOD_NOT_FOUND: i64 = -32601;

/// What a request's method asks of the server.
#[derive(Debug, Clone, Copy, PartialEq, Eq, Structural)]
pub enum Route {
    Initialize,
    /// The client's `initialized` notice: nothing to answer.
    Acknowledge,
    Ping,
    ListTools,
    CallTool,
    Unknown,
}

pub open spec fn spec_route(method: Seq<char>) -> Route {
    if method == "initialize"@ {
        Route::Initialize
    } else if method == "notifications/initialized"@ || method == "initialized"@ {
        Route::Acknowledge
    } else if method == "ping"@ {
        Route::Ping
    } else if method == "tools/list"@ {
        Route::ListTools
    } else if method == "tools/call"@ {
        Route::CallTool
    } else {
        Route::Unknown
    }
}

/// See [`spec_route`].
pub fn route(method: &str) -> (r: Route)
    ensures
        r == spec_route(method@),
{
    if str_eq(method, "initialize") {
        Route::Initialize
    } else if str_eq(method, "notifications/initialized") || str_eq(method, "initialized") {
        Route::Acknowledge
    } else if str_eq(method, "ping") {
        Route::Ping
    } else if str_eq(method, "tools/list") {
        Route::ListTools
    } else if str_eq(method, "tools/call") {
        Route::CallTool
    } else {
        Route::Unknown
    }
}

/// Whether a response goes out: never to a notification (a request without
/// an id), never to the `initialized` notice.
pub fn replies(has_id: bool, r: Route) -> (b: bool)
    ensures
        b == (has_id && r != Route::Acknowledge),
{
    has_id && !matches!(r, Route::Acknowledge)
}

/// The text of the error that answers an unknown method.
pub fn method_not_found(method: &str) -> (r: String)
    ensures
        r@ == "Method not found: "@ + method@,
{
    let mut out: Vec<char> = Vec::new();
    push_str(&mut out, "Method not found: ");
    push_str(&mut out, method);
    string_of(out.as_slice())
}

/// The text of the error that answers an unreadable request line.
pub fn parse_error(detail: &str) -> (r: String)
    ensures
        r@ == "Parse error: "@ + detail@,
{
    let mut out: Vec<char> = Vec::new();
    push_str(&mut out, "Parse error: ");
    push_str(&mut out, detail);
    string_of(out.as_slice())
}

/// The tools the server offers.
#[derive(Debug, Clone, Copy, PartialEq, Eq, Structural)]
pub enum Tool {
    Digest,
    Impact,
    Path,
    Explain,
    Report,
    Dump,
    Search,
    Sync,
    Graph,
}

pub open spec fn spec_tool_name(t: Tool) -> Seq<char> {
    match t {
        Tool::Digest => "code_rcl_digest"@,
        Tool::Impact => "code_rcl_impact"@,
        Tool::Path => "code_rcl_path"@,
        Tool::Explain => "code_rcl_explain"@,
        Tool::Report => "code_rcl_report"@,
        Tool::Dump => "code_rcl_dump"@,
        Tool::Search => "code_rcl_search"@,
        Tool::Sync => "code_rcl_sync"@,
        Tool::Graph => "code_rcl_graph"@,
    }
}

/// The name a tool is called by.
pub fn tool_name(t: Tool) -> (r: &'static str)
    ensures
        r@ == spec_tool_name(t),
{
    match t {
        Tool::Digest => "code_rcl_digest",
        Tool::Impact => "code_rcl_impact",
        Tool::Path => "code_rcl_path",
        Tool::Explain => "code_rcl_explain",
        Tool::Report => "code_rcl_report",
        Tool::Dump => "code_rcl_dump",
        Tool::Search => "code_rcl_search",
        Tool::Sync => "code_rcl_sync",
        Tool::Graph => "code_rcl_graph",
    }
}

pub open spec fn all_tools() -> Seq<Tool> {
    seq![
        Tool::Digest, Tool::Impact, Tool::Path, Tool::Explain, Tool::Report, Tool::Dump,
        Tool::Search, Tool::Sync, Tool::Graph,
    ]
}

/// Every tool, in the order the tool list gives them.
pub fn tools() -> (r: Vec<Tool>)
    ensures
        r@ == all_tools(),
{
    let r = vec![
        Tool::Digest, Tool::Impact, Tool::Path, Tool::Explain, Tool::Report, Tool::Dump,
        Tool::Search, Tool::Sync, Tool::Graph,
    ];
    assert(r@ =~= all_tools());
    r
}

/// The tool a call names, if any.
pub fn tool_of(name: &str) -> (r: Option<Tool>)
    ensures
        r matches Some(t) ==> spec_tool_name(t) == name@,
        r is None ==> forall|t: Tool| spec_tool_name(t) != name@,
{
    let all = tools();
    let mut i: usize = 0;
    while i < all.len()
        invariant
            0 <= i <= all@.len(),
            all@ == all_tools(),
            forall|j: int| 0 <= j < i ==> spec_tool_name(#[trigger] all@[j]) != name@,
        decreases all@.len() - i,
    {
        if str_eq(tool_name(all[i]), name) {
            return Some(all[i]);
        }
        i = i + 1;
    }
    assert forall|t: Tool| spec_tool_name(t) != name@ by {
        let k: int = match t {
            Tool::Digest => 0,
            Tool::Impact => 1,
            Tool::Path => 2,
            Tool::Explain => 3,
            Tool::Report => 4,
            Tool::Dump => 5,
            Tool::Search => 6,
            Tool::Sync => 7,
            Tool::Graph => 8,
        };
        assert(all@[k] == t);
    }
    None
}

/// Each tool goes by its own name, so the listed name of a tool calls that
/// tool: no two tools share a name.
pub proof fn law_tool_names_are_distinct(a: Tool, b: Tool)
    ensures
        spec_tool_name(a) == spec_tool_name(b) ==> a == b,
{
    reveal_strlit("code_rcl_digest");
    reveal_strlit("code_rcl_impact");
    reveal_strlit("code_rcl_path");
    reveal_strlit("code_rcl_explain");
    reveal_strlit("code_rcl_report");
    reveal_strlit("code_rcl_dump");
    reveal_strlit("code_rcl_search");
    reveal_strlit("code_rcl_sync");
    reveal_strlit("code_rcl_graph");
    if a != b {
        let x = spec_tool_name(a);
        let y = spec_tool_name(b);
        assert(x[9] != y[9] || x[10] != y[10]);
    }
}

/// The text of the error a call to an unknown tool gets.
pub fn unknown_tool(name: &str) -> (r: String)
    ensures
        r@ == "Unknown tool: "@ + name@,
{
    let mut out: Vec<char> = Vec::new();
    push_str(&mut out, "Unknown tool: ");
    push_str(&mut out, name);
    string_of(out.as_slice())
}

/// `v` held within `lo..=hi`.
pub open spec fn clamp(v: int, lo: int, hi: int) -> int {
    if v < lo { lo } else if v > hi { hi } else { v }
}

/// A hop depth from a tool call: the number given, cut to 32 bits and then
/// held within `lo..=hi`, or `default` when none was given.
pub fn depth_arg(given: Option<u64>, lo: u32, hi: u32, default: u32) -> (r: u32)
    requires
        lo <= hi,
    ensures
        r == match given {
            Some(d) => clamp((d as u32) as int, lo as int, hi as int),
            None => default as int,
        },
{
    match given {
        Some(d) => {
            let t = d as u32;
            if t < lo { lo } else if t > hi { hi } else { t }
        },
        None => default,
    }
}

/// The depth a graph call walks: the number given, cut to 32 bits, or 2.
pub fn graph_depth_arg(given: Option<u64>) -> (r: u32)
    ensures
        r == match given {
            Some(d) => d as u32,
            None => 2u32,
        },
{
    match given {
        Some(d) => d as u32,
        None => 2,
    }
}

/// How many results a search call asks for: the number given (25 when none
/// is) held within `1..=100`.
pub fn search_limit_arg(given: Option<u64>) -> (r: usize)
    ensures
        r == clamp(match given { Some(n) => n as int, None => 25 }, 1, 100),
{
    let n: u64 = match given {
        Some(n) => n,
        None => 25,
    };
    let c: u64 = if n < 1 { 1 } else if n > 100 { 100 } else { n };
    c as usize
}

/// The project a call works on: the one it names, unless that is empty, or
/// the server's own.
pub fn resolve_project(default_project: &str, given: Option<&str>) -> (r: String)
    ensures
        r@ == match given {
            Some(p) => if p@.len() > 0 { p@ } else { default_project@ },
            None => default_project@,
        },
{
    match given {
        Some(p) => {
            if !p.is_empty() {
                return p.to_string();
            }
            default_project.to_string()
        },
        None => default_project.to_string(),
    }
}

} // verus!
