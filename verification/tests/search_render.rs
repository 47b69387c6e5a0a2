use codebase_recall::commands::search::{
    grep_files, render_search_result, search_signature, wants_fuzzy, wants_grep, wants_string_literals,
    FuzzySearchItem, GrepSearchItem, SearchResult, StringLiteralSearchItem, SymbolSearchItem,
};

fn empty(query: &str) -> SearchResult {
    SearchResult {
        query: query.to_string(),
        exact_symbols: vec![],
        string_literals: vec![],
        fuzzy_suggestions: vec![],
        grep_matches: vec![],
    }
}

#[test]
fn symbol_hits_render_as_a_table_with_escaped_pipes() {
    let mut res = empty("open");
    res.exact_symbols.push(SymbolSearchItem {
        name: "open".to_string(),
        kind: "function".to_string(),
        path: "src/db.rs".to_string(),
        line: Some(12),
        is_exported: true,
        signature: "pub fn open(a: u8 | b)".to_string(),
    });
    res.exact_symbols.push(SymbolSearchItem {
        name: "open".to_string(),
        kind: "method".to_string(),
        path: "src/x.rs".to_string(),
        line: None,
        is_exported: false,
        signature: "fn open()".to_string(),
    });
    let md = render_search_result(&res);
    assert_eq!(
        md,
        "Found 2 symbol(s) matching `open`:\n\n\
| Symbol | Kind | Location | Visibility | Signature |\n\
| :--- | :--- | :--- | :--- | :--- |\n\
| **`open`** | `function` | `src/db.rs:L12` | public | `pub fn open(a: u8 \\| b)` |\n\
| **`open`** | `method` | `src/x.rs` | private | `fn open()` |\n\n"
    );
}

#[test]
fn literal_hits_follow_symbol_hits() {
    let mut res = empty("PORT");
    res.string_literals.push(StringLiteralSearchItem {
        value: "PORT".to_string(),
        callee: Some("env::var".to_string()),
        path: "src/main.rs".to_string(),
        line: Some(3),
    });
    res.string_literals.push(StringLiteralSearchItem {
        value: "PORT".to_string(),
        callee: None,
        path: "a.toml".to_string(),
        line: Some(-1),
    });
    let md = render_search_result(&res);
    assert_eq!(
        md,
        "Found 2 string literal argument(s) matching `PORT`:\n\n\
| String Literal | Callee / Pattern | Location |\n\
| :--- | :--- | :--- |\n\
| \"`PORT`\" | `env::var` | `src/main.rs:L3` |\n\
| \"`PORT`\" | `-` | `a.toml:L-1` |\n\n"
    );
}

#[test]
fn no_match_lists_suggestions_and_text_hits() {
    let mut res = empty("opne");
    res.fuzzy_suggestions.push(FuzzySearchItem {
        name: "open".to_string(),
        kind: "function".to_string(),
        path: "src/db.rs".to_string(),
        line: Some(4),
        distance: 2,
    });
    res.fuzzy_suggestions.push(FuzzySearchItem {
        name: "one".to_string(),
        kind: "const".to_string(),
        path: "src/n.rs".to_string(),
        line: None,
        distance: 2,
    });
    res.grep_matches.push(GrepSearchItem { path: "README.md".to_string(), line: 7, snippet: "opne it".to_string() });
    let md = render_search_result(&res);
    assert_eq!(
        md,
        "No exact matches found for `opne`.\n\n\
Did you mean: `open` (function), `one` (const)?\n\n\
| Suggested Symbol | Kind | Location | Edit Distance |\n\
| :--- | :--- | :--- | :--- |\n\
| **`open`** | `function` | `src/db.rs:L4` | 2 |\n\
| **`one`** | `const` | `src/n.rs` | 2 |\n\n\
Hybrid search fallback: found 1 line(s) via full-text grep:\n\n\
- `README.md:7`: `opne it`\n\n"
    );
}

#[test]
fn nothing_found_at_all() {
    assert_eq!(render_search_result(&empty("zz")), "No exact matches found for `zz`.\n\n");
}

#[test]
fn grep_matches_lines_case_insensitively_up_to_the_limit() {
    let files = vec![
        ("a.rs".to_string(), "fn main() {\n    Open();\r\n}\n".to_string()),
        ("b.rs".to_string(), "open\nOPEN again\nopen thrice\n".to_string()),
    ];
    let hits = grep_files(&files, "oPeN", 3);
    let got: Vec<(String, usize, String)> = hits.into_iter().map(|g| (g.path, g.line, g.snippet)).collect();
    assert_eq!(
        got,
        vec![
            ("a.rs".to_string(), 2, "Open();".to_string()),
            ("b.rs".to_string(), 1, "open".to_string()),
            ("b.rs".to_string(), 2, "OPEN again".to_string()),
        ]
    );
    let all = grep_files(&files, "open", 15);
    assert_eq!(all.len(), 4);
    // a limit of 0 still stops after the first hit
    assert_eq!(grep_files(&files, "open", 0).len(), 1);
    assert!(grep_files(&files, "absent", 15).is_empty());
}

#[test]
fn signature_falls_back_to_source_then_name() {
    let lines: Vec<String> = vec!["/// doc".to_string(), "pub fn  run(x: u8)".to_string(), "{".to_string()];
    assert_eq!(search_signature(Some("stored".to_string()), &lines, Some(2), Some(3), "run"), "stored");
    assert_eq!(search_signature(None, &lines, Some(2), Some(2), "run"), "pub fn run(x: u8)");
    assert_eq!(search_signature(None, &lines, Some(9), None, "run"), "run");
}

#[test]
fn search_stages_follow_what_was_found() {
    assert!(wants_string_literals(false, 0));
    assert!(wants_string_literals(true, 3));
    assert!(!wants_string_literals(false, 3));
    assert!(wants_fuzzy(0, false));
    assert!(!wants_fuzzy(0, true));
    assert!(!wants_fuzzy(1, false));
    assert!(wants_grep(0, 0, false));
    assert!(!wants_grep(0, 1, false));
    assert!(!wants_grep(0, 0, true));
}
