use codebase_recall::cache::models::SymbolRow;
use codebase_recall::commands::digest::assemble::{
    digest_report, file_digest, group_modules, in_digest, language_counts, module_dir, module_key,
};
use codebase_recall::commands::digest::models::FileDigest;

fn sym(name: &str, kind: &str, exported: bool, line: i64, owner: Option<&str>) -> SymbolRow {
    SymbolRow {
        id: line,
        file_id: 1,
        name: name.to_string(),
        kind: kind.to_string(),
        parent_symbol_id: None,
        is_exported: exported,
        start_line: Some(line),
        end_line: Some(line),
        start_byte: None,
        end_byte: None,
        signature: None,
        param_count: None,
        owner_type: owner.map(str::to_string),
    }
}

fn lines() -> Vec<String> {
    [
        "/// A shape.",
        "pub struct Shape {",
        "pub fn area(&self) -> f64 {",
        "fn hidden() {",
        "pub fn helper(x: u32) -> u32 {",
        "pub fn stray(&self) {",
        "pub enum Color {",
        "pub struct Shape;",
    ]
    .iter()
    .map(|s| s.to_string())
    .collect()
}

fn symbols() -> Vec<SymbolRow> {
    vec![
        sym("Shape", "struct", true, 2, None),
        sym("area", "method", true, 3, Some("Shape")),
        sym("hidden", "function", false, 4, None),
        sym("helper", "function", true, 5, None),
        sym("stray", "method", true, 6, Some("Missing")),
        sym("Color", "enum", true, 7, None),
        sym("Shape", "struct", true, 8, None),
        sym("mod_a", "module", true, 1, None),
    ]
}

#[test]
fn a_file_lists_one_type_per_name_in_name_order_with_its_methods() {
    let (fd, counted, public) = file_digest("src\\shapes.rs", "rust", &lines(), &symbols(), false, 3);
    assert_eq!(fd.path, "src/shapes.rs");
    assert_eq!(fd.language, "rust");
    let names: Vec<&str> = fd.types.iter().map(|t| t.name.as_str()).collect();
    assert_eq!(names, vec!["Color", "Shape"]);
    // the later declaration of Shape replaced the earlier one
    assert_eq!(fd.types[1].signature, "pub struct Shape;");
    assert_eq!(fd.types[1].doc, None);
    assert_eq!(fd.types[1].methods.len(), 1);
    assert_eq!(fd.types[1].methods[0].signature, "pub fn area(&self) -> f64");
    assert_eq!(fd.types[0].signature, "pub enum Color");
    // functions first, then methods of a type that is not listed
    let fns: Vec<&str> = fd.functions.iter().map(|f| f.name.as_str()).collect();
    assert_eq!(fns, vec!["helper", "stray"]);
    // modules are not counted; the private function is
    assert_eq!((counted, public), (7, 6));

    let (every, _, _) = file_digest("src/shapes.rs", "rust", &lines(), &symbols(), true, 3);
    let fns: Vec<&str> = every.functions.iter().map(|f| f.name.as_str()).collect();
    assert_eq!(fns, vec!["hidden", "helper", "stray"]);
}

#[test]
fn a_type_without_a_signature_line_falls_back_to_kind_and_name() {
    let (fd, _, _) = file_digest("a.rs", "rust", &Vec::new(), &vec![sym("T", "trait", true, 1, None), sym("f", "function", true, 2, None)], false, 0);
    assert_eq!(fd.types[0].signature, "trait T");
    assert_eq!(fd.functions[0].signature, "fn f");
}

#[test]
fn the_first_doc_line_is_kept_for_a_type() {
    let syms = vec![sym("Shape", "struct", true, 2, None)];
    let (fd, _, _) = file_digest("src/shapes.rs", "rust", &lines(), &syms, false, 3);
    assert_eq!(fd.types[0].doc.as_deref(), Some("A shape."));
}

#[test]
fn files_are_kept_under_the_sub_path() {
    assert!(in_digest("src/a.rs", ""));
    assert!(in_digest("src\\analysis\\a.rs", "src/analysis"));
    assert!(!in_digest("lib/a.rs", "src"));
}

#[test]
fn directories_come_from_the_parent() {
    assert_eq!(module_key(Some("src\\a")), "src/a");
    assert_eq!(module_key(Some("")), ".");
    assert_eq!(module_key(None), ".");
    assert_eq!(module_dir("src/analysis/a.rs"), "src/analysis");
    assert_eq!(module_dir("main.rs"), ".");
    assert_eq!(module_dir(""), ".");
}

#[test]
fn languages_are_counted_once_each() {
    let langs: Vec<String> = ["rust", "python", "rust", "go", "rust"].iter().map(|s| s.to_string()).collect();
    let mut counts = language_counts(&langs);
    counts.sort();
    assert_eq!(counts, vec![("go".to_string(), 1), ("python".to_string(), 1), ("rust".to_string(), 3)]);
}

fn fd(path: &str) -> FileDigest {
    FileDigest { path: path.to_string(), language: "rust".to_string(), types: Vec::new(), functions: Vec::new() }
}

#[test]
fn files_are_grouped_by_directory_in_order() {
    let entries = vec![
        ("src/b".to_string(), fd("src/b/x.rs")),
        ("src".to_string(), fd("src/lib.rs")),
        ("src/b".to_string(), fd("src/b/a.rs")),
        (".".to_string(), fd("build.rs")),
    ];
    let ms = group_modules(entries);
    let dirs: Vec<&str> = ms.iter().map(|m| m.directory.as_str()).collect();
    assert_eq!(dirs, vec![".", "src", "src/b"]);
    let b: Vec<&str> = ms[2].files.iter().map(|f| f.path.as_str()).collect();
    assert_eq!(b, vec!["src/b/x.rs", "src/b/a.rs"]);
}

#[test]
fn a_report_sums_the_file_counts() {
    let entries = vec![("src".to_string(), fd("src/a.rs")), ("src".to_string(), fd("src/b.rs"))];
    let r = digest_report("demo".to_string(), vec![("rust".to_string(), 2)], Vec::new(), entries, &vec![(3, 1), (4, 2)]);
    assert_eq!(r.project, "demo");
    assert_eq!(r.total_files, 2);
    assert_eq!((r.total_symbols, r.public_symbols), (7, 3));
    assert_eq!(r.modules.len(), 1);
    assert_eq!(r.modules[0].files.len(), 2);
}
