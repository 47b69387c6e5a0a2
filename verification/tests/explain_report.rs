use codebase_recall::cache::models::{FileRow, SymbolRow};
use codebase_recall::commands::explain::models::{ExplainReport, MemberInfo};
use codebase_recall::commands::explain::render::{render_ascii, section_title};
use codebase_recall::commands::explain::{explain_report, members_of, pick_symbol, symbol_line};
use codebase_recall::commands::impact::models::{ImpactItem, ImpactReport};

fn sym(id: i64, name: &str, kind: &str, parent: Option<i64>, owner: Option<&str>, line: Option<i64>) -> SymbolRow {
    SymbolRow {
        id,
        file_id: 1,
        name: name.to_string(),
        kind: kind.to_string(),
        parent_symbol_id: parent,
        is_exported: id % 2 == 0,
        start_line: line,
        end_line: line.map(|l| l + 2),
        start_byte: None,
        end_byte: None,
        signature: None,
        param_count: None,
        owner_type: owner.map(str::to_string),
    }
}

fn relations(id: &str, path: Option<&str>) -> ImpactReport {
    ImpactReport {
        target_symbol: "Widget".to_string(),
        target_id: id.to_string(),
        target_kind: "struct".to_string(),
        target_path: path.map(str::to_string),
        direction: "both".to_string(),
        direct_callers_count: 0,
        total_callers_count: 0,
        callers: Vec::new(),
        direct_callees_count: 0,
        total_callees_count: 0,
        callees: Vec::new(),
        total_affected_count: 0,
        total_affected_files: 0,
        risky_affected_count: 0,
        target_community: None,
        max_depth_reached: 0,
    }
}

fn item(label: &str, edge_kind: &str) -> ImpactItem {
    ImpactItem {
        id: label.to_string(),
        label: label.to_string(),
        kind: "function".to_string(),
        path: Some("src/main.rs".to_string()),
        line: Some(4),
        site_path: Some("src/main.rs".to_string()),
        edge_kind: edge_kind.to_string(),
        confidence_milli: 1000,
        snippet: None,
        depth: 1,
        is_exported: false,
        low_confidence: false,
        crosses_module: false,
        community: None,
        callers: Vec::new(),
    }
}

fn names(ms: &[MemberInfo]) -> Vec<&str> {
    ms.iter().map(|m| m.name.as_str()).collect()
}

#[test]
fn members_are_nested_symbols_and_same_file_methods_ordered_by_line() {
    let owner = sym(10, "Widget", "struct", None, None, Some(3));
    let mut other_file = sym(15, "paint", "method", None, Some("Widget"), Some(1));
    other_file.file_id = 2;
    let all = vec![
        owner.clone(),
        sym(11, "resize", "method", None, Some("Widget"), Some(20)),
        sym(12, "width", "field", Some(10), None, Some(4)),
        sym(13, "helper", "function", None, None, Some(5)),
        sym(14, "new", "method", None, Some("Widget"), Some(9)),
        other_file,
        sym(16, "height", "field", Some(10), None, Some(4)),
        sym(17, "macro_made", "method", None, Some("Widget"), None),
        sym(18, "Gadget_new", "method", None, Some("Gadget"), Some(2)),
    ];
    let ms = members_of(&all, &owner);
    // no line first; the two members on line 4 stay in their order
    assert_eq!(names(&ms), vec!["macro_made", "width", "height", "new", "resize"]);
    assert_eq!(ms[1].kind, "field");
    assert_eq!(ms[1].line, Some(4));
    assert!(ms[1].is_exported);
    assert!(!ms[4].is_exported);
    assert!(members_of(&all, &sym(99, "Nothing", "struct", None, None, Some(1))).is_empty());
}

#[test]
fn only_symbol_nodes_with_a_path_and_a_line_are_located() {
    assert_eq!(symbol_line(&relations("sym:src/w.rs::Widget@3", Some("src/w.rs"))), Some(3));
    assert_eq!(symbol_line(&relations("sym:a@b@42", Some("src/w.rs"))), Some(42));
    assert_eq!(symbol_line(&relations("sym:src/w.rs::Widget@3", None)), None);
    assert_eq!(symbol_line(&relations("file:src/w.rs", Some("src/w.rs"))), None);
    assert_eq!(symbol_line(&relations("sym:src/w.rs::Widget", Some("src/w.rs"))), None);
    assert_eq!(symbol_line(&relations("sym:src/w.rs::Widget@x3", Some("src/w.rs"))), None);
}

#[test]
fn the_first_symbol_with_the_name_on_the_line_is_picked() {
    let c = vec![
        sym(1, "Other", "struct", None, None, Some(3)),
        sym(2, "Widget", "struct", None, None, Some(2)),
        sym(3, "Widget", "struct", None, None, Some(3)),
        sym(4, "Widget", "impl", None, None, Some(3)),
    ];
    assert_eq!(pick_symbol(&c, "Widget", 3), Some(2));
    assert_eq!(pick_symbol(&c, "Widget", 7), None);
}

fn lines() -> Vec<String> {
    vec![
        "/// A thing that draws.".to_string(),
        "/// Second line.".to_string(),
        "pub struct Widget {".to_string(),
        "    width: u32,".to_string(),
        "}".to_string(),
    ]
}

fn file() -> FileRow {
    FileRow {
        id: 1,
        path: "src/w.rs".to_string(),
        language: "rust".to_string(),
        content_hash: "h".to_string(),
        mtime: None,
        size: None,
        parsed_ok: true,
        precise_synced_at: None,
    }
}

#[test]
fn a_located_symbol_brings_its_signature_docs_and_members() {
    let owner = sym(10, "Widget", "struct", None, None, Some(3));
    let all = vec![owner.clone(), sym(12, "width", "field", Some(10), None, Some(4))];
    let r = explain_report(relations("sym:src/w.rs::Widget@3", Some("src/w.rs")), Some((file(), owner)), &lines(), &all);
    assert_eq!(r.symbol, "Widget");
    assert_eq!(r.language.as_deref(), Some("rust"));
    assert_eq!((r.start_line, r.end_line), (Some(3), Some(5)));
    assert!(r.is_exported);
    assert_eq!(r.signature.as_deref(), Some("pub struct Widget"));
    assert_eq!(r.doc.as_deref(), Some("A thing that draws.\nSecond line."));
    assert_eq!(names(&r.members), vec!["width"]);

    let bare = explain_report(relations("file:src/w.rs", Some("src/w.rs")), None, &lines(), &all);
    assert_eq!(bare.language, None);
    assert_eq!(bare.signature, None);
    assert!(bare.members.is_empty());
    assert!(bare.is_exported);
}

#[test]
fn section_titles_say_uses_once_a_relation_is_not_a_call() {
    assert_eq!(section_title("▲", &vec![item("a", "calls")], "CALLED BY", "USED BY"), "▲ CALLED BY");
    assert_eq!(
        section_title("▲", &vec![item("a", "calls"), item("T", "references")], "CALLED BY", "USED BY"),
        "▲ USED BY"
    );
    assert_eq!(section_title("▼", &Vec::new(), "CALLS", "USES"), "▼ CALLS");
}

#[test]
fn an_explain_report_renders_every_part() {
    let mut rel = relations("sym:src/w.rs::Widget@3", Some("src/w.rs"));
    rel.callers = vec![item("main", "calls")];
    rel.direct_callers_count = 1;
    rel.risky_affected_count = 2;
    let r = ExplainReport {
        symbol: "Widget".to_string(),
        id: rel.target_id.clone(),
        kind: "struct".to_string(),
        path: Some("src/w.rs".to_string()),
        language: Some("rust".to_string()),
        start_line: Some(3),
        end_line: Some(5),
        is_exported: false,
        community: Some("ui".to_string()),
        signature: Some("pub struct Widget {".to_string()),
        doc: Some("A thing.\r\nSecond.".to_string()),
        members: vec![
            MemberInfo { name: "width".to_string(), kind: "field".to_string(), line: Some(4), is_exported: true },
            MemberInfo { name: "gen".to_string(), kind: "method".to_string(), line: None, is_exported: false },
        ],
        relations: rel,
    };
    let heavy = "══════════════════════════════════════════════════════════════════";
    let light = "──────────────────────────────────────────────────────────────────";
    let expected = format!(
        "{heavy}\n  EXPLAIN: Widget  [struct]\n  src/w.rs:3-5\n{light}\n  Visibility     : private\n  Community      : ui\n  Language       : rust\n  Signature      : pub struct Widget {{\n  Direct callers : 1      Direct callees : 0\n  Risk flags     : 2 item(s) touch public API, low-confidence edges, or cross module boundaries\n{heavy}\n\nDOCS\n  A thing.\n  Second.\n\nMEMBERS (2)\n  pub width  [field]  line 4\n      gen  [method]\n\n▲ CALLED BY\n  └── ◆ main  [calls → function]  src/main.rs:4  (conf 1.00)\n\n▼ CALLS\n  (no outgoing calls or references found)\n\n"
    );
    assert_eq!(render_ascii(&vec![r]), expected);
}

#[test]
fn a_one_line_symbol_shows_a_single_line_number() {
    let r = explain_report(relations("file:src/w.rs", Some("src/w.rs")), None, &Vec::new(), &Vec::new());
    let text = render_ascii(&vec![r]);
    assert!(text.contains("  EXPLAIN: Widget  [struct]\n  src/w.rs\n"));
    assert!(text.contains("  Visibility     : public\n"));
    assert!(!text.contains("DOCS"));
    assert!(!text.contains("MEMBERS"));
    assert!(text.contains("▲ CALLED BY\n  (no incoming callers or references found)\n"));
}
