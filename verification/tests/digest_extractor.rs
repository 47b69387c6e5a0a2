use codebase_recall::commands::digest::extractor::{
    check_body_has_diagram, extract_docs_and_diagram, extract_signature, is_comment_line,
    is_diagram_fence_opening, is_fence_delimiter, strip_doc_prefix,
};

fn lines(v: &[&str]) -> Vec<String> {
    v.iter().map(|s| s.to_string()).collect()
}

#[test]
fn test_extract_docs_and_diagram_strips_fences_and_flags_diagram() {
    let lines: Vec<String> = vec![
        "/// First line of doc".to_string(),
        "/// Second line of doc".to_string(),
        "/// ```text".to_string(),
        "/// [A] -> [B]".to_string(),
        "/// ```".to_string(),
        "/// Post diagram note".to_string(),
        "pub fn test_target() {}".to_string(),
    ];

    let (doc, has_diag) = extract_docs_and_diagram(&lines, Some(7), Some(7), "rust", 3);
    assert!(has_diag, "Should detect fenced code block diagram");
    assert!(doc.is_some());
    let d = doc.unwrap();
    assert!(d.contains("First line of doc"));
    assert!(d.contains("Second line of doc"));
    assert!(
        !d.contains("[A] -> [B]"),
        "Fenced code block content must be stripped from doc preview"
    );
}

#[test]
fn test_extract_docs_limit_zero() {
    let lines: Vec<String> = vec![
        "/// First line of doc".to_string(),
        "pub fn test_target() {}".to_string(),
    ];

    let (doc, has_diag) = extract_docs_and_diagram(&lines, Some(2), Some(2), "rust", 0);
    assert_eq!(doc, None);
    assert!(!has_diag);
}

#[test]
fn test_has_diagram_ignores_shell_and_rust_fences() {
    let lines: Vec<String> = vec![
        "/// Example usage:".to_string(),
        "/// ```sh".to_string(),
        "/// jj interdiff --from x --to y".to_string(),
        "/// ```".to_string(),
        "/// Also shell:".to_string(),
        "/// ```shell".to_string(),
        "/// cargo run".to_string(),
        "/// ```".to_string(),
        "/// Also rust:".to_string(),
        "/// ```rust".to_string(),
        "/// let x = 1;".to_string(),
        "/// ```".to_string(),
        "pub struct RunArgs {}".to_string(),
    ];

    let (doc, has_diag) = extract_docs_and_diagram(&lines, Some(13), Some(13), "rust", 5);
    assert!(!has_diag, "Should NOT flag shell or rust code fences as diagrams");
    assert!(doc.is_some());
    let d = doc.unwrap();
    assert!(d.contains("Example usage:"));
    assert!(!d.contains("jj interdiff"));
    assert!(!d.contains("cargo run"));
}

#[test]
fn test_has_diagram_in_fields_ignores_shell() {
    let lines: Vec<String> = vec![
        "/// Struct doc".to_string(),
        "pub struct MetaeditArgs {".to_string(),
        "    /// Example shell:".to_string(),
        "    /// ```shell".to_string(),
        "    /// jj metaedit".to_string(),
        "    /// ```".to_string(),
        "    pub author: Option<String>,".to_string(),
        "}".to_string(),
    ];

    let has_diag_fields = check_body_has_diagram(&lines, Some(2), Some(8));
    assert!(!has_diag_fields, "Should NOT flag ```shell in fields as diagram");
}

#[test]
fn a_text_fence_in_a_field_is_a_body_diagram() {
    let l = lines(&[
        "/// Top-level struct doc without diagram",
        "pub struct NewArgs {",
        "    /// Insert after commit",
        "    /// ```text",
        "    ///   A -> B",
        "    /// ```",
        "    pub insert_after: Option<String>,",
        "}",
    ]);
    assert!(check_body_has_diagram(&l, Some(2), Some(8)));
    assert!(!check_body_has_diagram(&l, Some(2), None));
    assert!(!check_body_has_diagram(&l, Some(20), Some(30)));
}

#[test]
fn signatures_stop_at_the_body() {
    let l = lines(&[
        "/// doc",
        "pub fn run(",
        "    a: u32,   b: u32,",
        ") -> u32 {",
        "    a + b",
        "}",
    ]);
    assert_eq!(extract_signature(&l, Some(2), Some(6)), "pub fn run( a: u32, b: u32, ) -> u32");
    assert_eq!(extract_signature(&l, None, None), "");
    assert_eq!(extract_signature(&l, Some(40), None), "");
    let c = lines(&["const MAX: usize = 4;", "let x = 5"]);
    assert_eq!(extract_signature(&c, Some(1), Some(1)), "const MAX: usize = 4;");
    let p = lines(&["def f(x) = x"]);
    assert_eq!(extract_signature(&p, Some(1), Some(1)), "def f(x)");
}

#[test]
fn python_docstrings_are_read_after_the_def() {
    let l = lines(&[
        "def build(x):",
        "    \"\"\"Build the thing.",
        "",
        "    More words.",
        "    \"\"\"",
        "    return x",
    ]);
    let (doc, diag) = extract_docs_and_diagram(&l, Some(1), Some(6), "Python", 5);
    assert_eq!(doc.as_deref(), Some("Build the thing.\nMore words."));
    assert!(!diag);
}

#[test]
fn doc_prefixes_and_fences_are_recognised() {
    assert_eq!(strip_doc_prefix("   /// hello */"), "hello");
    assert_eq!(strip_doc_prefix("* item"), "item");
    assert!(is_fence_delimiter("/// ```"));
    assert!(is_fence_delimiter("~~~~ text"));
    assert!(!is_fence_delimiter("/// ``"));
    assert!(is_diagram_fence_opening("/// ```Mermaid,ignore"));
    assert!(!is_diagram_fence_opening("/// ```"));
    assert!(!is_diagram_fence_opening("/// ```rust"));
    assert!(is_comment_line("   # note"));
    assert!(!is_comment_line("let x = 1;"));
}
