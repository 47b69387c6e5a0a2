use codebase_recall::cache::models::SymbolRow;
use codebase_recall::commands::impact::diffscan::{dedupe_symbols, diff_paths, diff_ranges, parse_plus_line};
use codebase_recall::commands::impact::{check_impact_args, no_match_message, ImpactArgError};

const DIFF: &str = "diff --git a/src/a.rs b/src/a.rs
index 1..2 100644
--- a/src/a.rs
+++ b/src/a.rs
@@ -1,2 +3,4 @@ fn foo() {
+x
@@ -10,0 +15 @@
@@ -5,2 +7,0 @@
diff --git a/gone.rs b/gone.rs
--- a/gone.rs
+++ /dev/null
@@ -1,3 +0,0 @@
diff --git a/other/b.rs b/other/b.rs
+++ b/other/b.rs
@@ -1 +1,2 @@
";

#[test]
fn plus_lines_name_the_new_file() {
    assert_eq!(parse_plus_line("+++ b/src/a.rs"), Some(Some("src/a.rs".to_string())));
    assert_eq!(parse_plus_line("+++ /dev/null"), Some(None));
    assert_eq!(parse_plus_line("+++  x.rs "), Some(Some("x.rs".to_string())));
    assert_eq!(parse_plus_line("--- a/src/a.rs"), None);
}

#[test]
fn the_diff_names_its_files() {
    assert_eq!(diff_paths(DIFF), vec!["src/a.rs".to_string(), "other/b.rs".to_string()]);
}

#[test]
fn changed_ranges_follow_their_file_and_skip_deletions() {
    let places = vec![("src/a.rs".to_string(), Some("a.rs".to_string())), ("other/b.rs".to_string(), None)];
    let r = diff_ranges(DIFF, &places);
    let got: Vec<(&str, i64, i64)> = r.iter().map(|c| (c.path.as_str(), c.start_line, c.end_line)).collect();
    assert_eq!(got, vec![("a.rs", 3, 6), ("a.rs", 15, 15)]);
}

fn row(id: i64, name: &str) -> SymbolRow {
    SymbolRow {
        id,
        file_id: 1,
        name: name.to_string(),
        kind: "function".to_string(),
        parent_symbol_id: None,
        is_exported: true,
        start_line: Some(1),
        end_line: Some(2),
        start_byte: None,
        end_byte: None,
        signature: None,
        param_count: None,
        owner_type: None,
    }
}

#[test]
fn overlapping_symbols_come_once_each() {
    let out = dedupe_symbols(vec![row(1, "a"), row(2, "b"), row(1, "a"), row(3, "c"), row(2, "b")]);
    let ids: Vec<i64> = out.iter().map(|s| s.id).collect();
    assert_eq!(ids, vec![1, 2, 3]);
}

#[test]
fn an_impact_run_takes_a_symbol_or_diff() {
    assert_eq!(check_impact_args(false, false), Err(ImpactArgError::NoTarget));
    assert_eq!(check_impact_args(true, true), Err(ImpactArgError::BothTargets));
    assert_eq!(check_impact_args(true, false), Ok(()));
    assert_eq!(check_impact_args(false, true), Ok(()));
    assert!(ImpactArgError::NoTarget.message().starts_with("impact requires either a <SYMBOL>"));
    assert_eq!(
        no_match_message("foo"),
        "No symbol or file matching 'foo' found in graph. Run `code-rcl graph` to inspect available symbols."
    );
}
