use codebase_recall::commands::impact::models::{ImpactItem, ImpactReport};
use codebase_recall::commands::impact::render::{item_location, render_ascii};
use codebase_recall::commands::impact::report::{direction_walks, impact_report};
use codebase_recall::commands::impact::traversal::{RiskContext, Traversal};
use codebase_recall::graph::{Edge, Node};

fn item(path: &str, site: Option<&str>, line: Option<i64>) -> ImpactItem {
    ImpactItem {
        id: "x".to_string(),
        label: "x".to_string(),
        kind: "function".to_string(),
        path: Some(path.to_string()),
        line,
        site_path: site.map(str::to_string),
        edge_kind: "calls".to_string(),
        confidence_milli: 900,
        snippet: None,
        depth: 1,
        is_exported: false,
        low_confidence: false,
        crosses_module: false,
        community: None,
        callers: Vec::new(),
    }
}

#[test]
fn caller_shows_its_own_file_and_line() {
    let it = item("src/a.rs", Some("src/a.rs"), Some(7));
    assert_eq!(item_location(&it), "  src/a.rs:7");
}

#[test]
fn callee_shows_definition_and_the_call_site_separately() {
    let it = item("src/service.rs", Some("src/impact/mod.rs"), Some(98));
    assert_eq!(item_location(&it), "  src/service.rs  (called at src/impact/mod.rs:98)");
}

fn node(id: &str, path: &str, exported: bool, community: Option<u32>) -> Node {
    Node {
        id: id.to_string(),
        kind: "function".to_string(),
        label: id.to_string(),
        path: Some(path.to_string()),
        dir: None,
        language: Some("rust".to_string()),
        exported,
        lines: None,
        degree: None,
        community,
    }
}

fn edge(source: &str, target: &str, milli: u32, line: i64) -> Edge {
    Edge {
        source: source.to_string(),
        target: target.to_string(),
        kind: "calls".to_string(),
        confidence_milli: milli,
        external: None,
        line: Some(line),
    }
}

/// a -> b -> c -> a (a cycle), d -> b
fn graph() -> (Vec<Node>, Vec<Edge>) {
    let nodes = vec![
        node("a", "src/a.rs", true, Some(1)),
        node("b", "src/b.rs", false, Some(1)),
        node("c", "lib/c.rs", false, Some(2)),
        node("d", "src/d.rs", false, None),
    ];
    let edges = vec![edge("a", "b", 1000, 2), edge("b", "c", 600, 3), edge("c", "a", 900, 1), edge("d", "b", 1000, 1)];
    (nodes, edges)
}

fn walk(outgoing: bool, max_depth: u32, target: &Node) -> Traversal {
    let (nodes, edges) = graph();
    let mut adjacency: Vec<(String, Vec<Edge>)> = Vec::new();
    for n in &nodes {
        let list: Vec<Edge> = edges
            .iter()
            .filter(|e| if outgoing { e.source == n.id } else { e.target == n.id })
            .cloned()
            .collect();
        adjacency.push((n.id.clone(), list));
    }
    let files = vec![
        ("src/a.rs".to_string(), vec!["fn a() {".to_string(), "    b();".to_string()]),
        ("src/b.rs".to_string(), vec!["".to_string(), "".to_string(), "  c()  ".to_string()]),
    ];
    let labels = vec![(1u32, "core".to_string()), (2u32, "lib".to_string())];
    Traversal {
        adjacency,
        nodes,
        files,
        max_depth,
        outgoing,
        ctx: RiskContext::for_target(target, labels),
    }
}

#[test]
fn callees_are_walked_without_cycles_and_flag_risks() {
    let (nodes, _) = graph();
    let a = nodes[0].clone();
    let down = walk(true, 5, &a);
    let up = walk(false, 5, &a);
    let r = impact_report(&a, "forward", &up, &down);
    assert!(r.callers.is_empty());
    assert_eq!(r.callees.len(), 1);
    let b = &r.callees[0];
    assert_eq!(b.id, "b");
    assert_eq!(b.depth, 1);
    assert_eq!(b.site_path.as_deref(), Some("src/a.rs"));
    assert_eq!(b.snippet.as_deref(), Some("b();"));
    assert!(!b.crosses_module);
    let c = &b.callers[0];
    assert_eq!(c.id, "c");
    assert_eq!(c.depth, 2);
    assert!(c.low_confidence);
    assert!(c.crosses_module);
    assert_eq!(c.community.as_deref(), Some("lib"));
    assert_eq!(c.snippet.as_deref(), Some("c()"));
    // c -> a is cut: a is on the path already
    assert!(c.callers.is_empty());
    assert_eq!(r.total_callees_count, 2);
    assert_eq!(r.total_affected_count, 2);
    assert_eq!(r.total_affected_files, 2);
    assert_eq!(r.max_depth_reached, 2);
    assert_eq!(r.risky_affected_count, 1);
    assert_eq!(r.target_community.as_deref(), Some("core"));
}

#[test]
fn callers_respect_the_depth_limit() {
    let (nodes, _) = graph();
    let b = nodes[1].clone();
    let up = walk(false, 1, &b);
    let down = walk(true, 1, &b);
    let r = impact_report(&b, "callers", &up, &down);
    let ids: Vec<&str> = r.callers.iter().map(|i| i.id.as_str()).collect();
    assert_eq!(ids, vec!["a", "d"]);
    assert!(r.callers.iter().all(|i| i.callers.is_empty()));
    assert_eq!(r.direct_callers_count, 2);
    assert_eq!(r.total_callers_count, 2);
    assert!(r.callees.is_empty());
    // only a is risky: it is exported; d is neither weak nor in another module
    assert_eq!(r.risky_affected_count, 1);
}

#[test]
fn directions_choose_the_walks() {
    assert_eq!(direction_walks("Both"), (true, true));
    assert_eq!(direction_walks("upstream"), (true, false));
    assert_eq!(direction_walks("CALLEES"), (false, true));
    assert_eq!(direction_walks(""), (false, false));
}

#[test]
fn ascii_report_draws_trees_and_marks_repeats() {
    let mut leaf = item("src/c.rs", Some("src/b.rs"), Some(3));
    leaf.id = "c".into();
    leaf.label = "c".into();
    leaf.depth = 2;
    leaf.confidence_milli = 600;
    leaf.low_confidence = true;
    let mut mid = item("src/b.rs", Some("src/a.rs"), Some(2));
    mid.id = "b".into();
    mid.label = "b".into();
    mid.snippet = Some("b();".into());
    mid.is_exported = true;
    mid.callers = vec![leaf];
    let mut again = item("src/b.rs", None, None);
    again.id = "b".into();
    again.label = "b".into();
    let report = ImpactReport {
        target_symbol: "a".into(),
        target_id: "a".into(),
        target_kind: "function".into(),
        target_path: Some("src/a.rs".into()),
        direction: "forward".into(),
        direct_callers_count: 0,
        total_callers_count: 0,
        callers: vec![],
        direct_callees_count: 2,
        total_callees_count: 2,
        callees: vec![mid, again],
        total_affected_count: 2,
        total_affected_files: 2,
        risky_affected_count: 2,
        target_community: None,
        max_depth_reached: 2,
    };
    let heavy = "══════════════════════════════════════════════════════════════════";
    let light = "──────────────────────────────────────────────────────────────────";
    let lines = [
        heavy.to_string(),
        "  IMPACT ANALYSIS: a  [function]".to_string(),
        "  src/a.rs".to_string(),
        light.to_string(),
        "  Direct callers : 0      Direct callees : 2".to_string(),
        "  Total affected : 2 symbols across 2 file(s)".to_string(),
        "  Max depth      : 2".to_string(),
        "  Risk flags     : 2 item(s) touch public API, low-confidence edges, or cross module boundaries".to_string(),
        heavy.to_string(),
        "".to_string(),
        "▼ DOWNSTREAM CALLEES".to_string(),
        "  ├── ○ b  [calls → function]  src/b.rs  (called at src/a.rs:2)  (conf 0.90)  ⚠ public".to_string(),
        "  │   │ b();".to_string(),
        "  │   └── ◆ c  [calls → function]  src/c.rs  (called at src/b.rs:3)  (conf 0.60)  ⚠ low-conf".to_string(),
        "  └── ◆ b  [calls → function]  src/b.rs  (conf 0.90)".to_string(),
        "      └── (already traced above)".to_string(),
        "".to_string(),
    ];
    let expected = lines.join("\n") + "\n";
    assert_eq!(render_ascii(&vec![report]), expected);
}
