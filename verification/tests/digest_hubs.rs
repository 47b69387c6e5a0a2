use codebase_recall::commands::digest::{hubs_from_graph, is_trivial_hub};
use codebase_recall::graph::{CodeGraph, Edge, Node};

fn node(id: &str, kind: &str, label: &str) -> Node {
    Node {
        id: id.to_string(),
        kind: kind.to_string(),
        label: label.to_string(),
        path: None,
        dir: None,
        language: None,
        exported: true,
        lines: None,
        degree: None,
        community: None,
    }
}

fn edge(source: &str, target: &str) -> Edge {
    Edge {
        source: source.to_string(),
        target: target.to_string(),
        kind: "calls".to_string(),
        confidence_milli: 900,
        external: None,
        line: None,
    }
}

#[test]
fn hubs_skip_trivial_accessor_methods() {
    let mut nodes = vec![node("as_str", "method", "as_str"), node("build", "function", "build")];
    let mut edges = Vec::new();
    for i in 0..4 {
        let caller = format!("c{i}");
        nodes.push(node(&caller, "function", &caller));
        edges.push(edge(&caller, "as_str"));
        edges.push(edge(&caller, "build"));
    }
    let graph = CodeGraph {
        version: 2,
        root: String::new(),
        generated_at: 0,
        nodes,
        edges,
        communities: Vec::new(),
    };
    let labels: Vec<_> = hubs_from_graph(&graph).into_iter().map(|h| h.label).collect();
    assert_eq!(labels, vec!["build"]);
}

#[test]
fn hubs_are_ranked_by_degree_then_label_and_capped_at_ten() {
    let mut nodes = Vec::new();
    let mut edges = Vec::new();
    // hub k gets 3 + (k % 3) edge ends
    for k in 0..14 {
        let id = format!("h{k:02}");
        nodes.push(node(&id, "function", &id));
        for j in 0..(3 + k % 3) {
            edges.push(edge(&format!("x{k}_{j}"), &id));
        }
    }
    nodes.push(node("dir", "directory", "dir"));
    for j in 0..5 {
        edges.push(edge(&format!("d{j}"), "dir"));
    }
    let graph = CodeGraph { version: 2, root: String::new(), generated_at: 0, nodes, edges, communities: Vec::new() };
    let hubs = hubs_from_graph(&graph);
    assert_eq!(hubs.len(), 10);
    let labels: Vec<&str> = hubs.iter().map(|h| h.label.as_str()).collect();
    assert_eq!(labels, ["h02", "h05", "h08", "h11", "h01", "h04", "h07", "h10", "h13", "h00"]);
    assert_eq!(hubs[0].degree, 5);
    assert!(is_trivial_hub(&node("x", "method", "len")));
    assert!(!is_trivial_hub(&node("x", "function", "len")));
}

#[test]
fn a_hub_keeps_its_file_path() {
    let mut hub = node("run", "function", "run");
    hub.path = Some("src/main.rs".to_string());
    let mut nodes = vec![hub];
    let mut edges = Vec::new();
    for i in 0..3 {
        let caller = format!("c{i}");
        nodes.push(node(&caller, "function", &caller));
        edges.push(edge(&caller, "run"));
    }
    let graph = CodeGraph {
        version: 2,
        root: String::new(),
        generated_at: 0,
        nodes,
        edges,
        communities: Vec::new(),
    };
    let hubs = hubs_from_graph(&graph);
    assert_eq!(hubs.len(), 1);
    assert_eq!(hubs[0].path.as_deref(), Some("src/main.rs"));
    assert_eq!(hubs[0].degree, 3);
}
