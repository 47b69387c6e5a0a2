use codebase_recall::cache::models::SymbolRow;
use codebase_recall::commands::impact::targets::{adjacency, changed_targets, find_targets};
use codebase_recall::graph::{Edge, Node};

fn node(id: &str, label: &str, path: Option<&str>, first_line: Option<i64>) -> Node {
    Node {
        id: id.to_string(),
        kind: "function".to_string(),
        label: label.to_string(),
        path: path.map(|p| p.to_string()),
        dir: None,
        language: None,
        exported: true,
        lines: first_line.map(|l| (l, l + 3)),
        degree: None,
        community: None,
    }
}

fn edge(source: &str, target: &str, kind: &str) -> Edge {
    Edge {
        source: source.to_string(),
        target: target.to_string(),
        kind: kind.to_string(),
        confidence_milli: 1000,
        external: None,
        line: None,
    }
}

fn row(file_id: i64, name: &str, start_line: Option<i64>) -> SymbolRow {
    SymbolRow {
        id: 1,
        file_id,
        name: name.to_string(),
        kind: "function".to_string(),
        parent_symbol_id: None,
        is_exported: true,
        start_line,
        end_line: None,
        start_byte: None,
        end_byte: None,
        signature: None,
        param_count: None,
        owner_type: None,
    }
}

#[test]
fn a_symbol_names_nodes_by_id_label_or_path() {
    let nodes = vec![
        node("src/a.rs::run", "run", Some("src/a.rs"), Some(1)),
        node("src/b.rs::helper", "helper", Some("src/b.rs"), Some(5)),
        node("src/c.rs::run", "run", Some("src/c.rs"), Some(9)),
    ];
    assert_eq!(find_targets(&nodes, "run"), vec![0, 2]);
    assert_eq!(find_targets(&nodes, "src/b.rs::helper"), vec![1]);
    assert_eq!(find_targets(&nodes, "src/c.rs"), vec![2]);
    assert!(find_targets(&nodes, "missing").is_empty());
}

#[test]
fn changed_symbols_pick_the_nodes_in_their_file_at_their_line() {
    let nodes = vec![
        node("a::run", "run", Some("src/a.rs"), Some(1)),
        node("b::run", "run", Some("src/b.rs"), Some(1)),
        node("a::other", "other", Some("src/a.rs"), Some(7)),
    ];
    let files = vec![(1, "src/a.rs".to_string()), (2, "src/b.rs".to_string())];
    assert_eq!(changed_targets(&nodes, &vec![row(2, "run", Some(1))], &files), vec![1]);
    assert_eq!(changed_targets(&nodes, &vec![row(1, "other", Some(8))], &files), Vec::<usize>::new());
    assert_eq!(changed_targets(&nodes, &vec![row(1, "run", Some(1)), row(1, "other", Some(7))], &files), vec![0, 2]);
}

#[test]
fn edges_are_filed_by_endpoint_for_the_kinds_asked() {
    let edges = vec![
        edge("a", "b", "calls"),
        edge("a", "c", "imports"),
        edge("d", "b", "Calls"),
        edge("a", "b", "contains"),
    ];
    let kinds = vec![" CALLS ".to_string()];
    let out = adjacency(&edges, &kinds, true);
    assert_eq!(out, vec![("a".to_string(), vec![0]), ("d".to_string(), vec![2])]);
    let inc = adjacency(&edges, &kinds, false);
    assert_eq!(inc, vec![("b".to_string(), vec![0, 2])]);
    let all = adjacency(&edges, &Vec::new(), true);
    assert_eq!(all, vec![("a".to_string(), vec![0, 1, 3]), ("d".to_string(), vec![2])]);
}
