use codebase_recall::commands::impact::diffscan::{parse_hunk_header, ChangedRange};
use codebase_recall::commands::impact::traversal::module_root;
use codebase_recall::commands::impact::{diff_trim_plan, DiffTrim, DIFF_TARGET_LIMIT};

#[test]
fn parses_hunk_header_with_explicit_count() {
    assert_eq!(parse_hunk_header("@@ -1,2 +3,4 @@ fn foo() {"), Some((3, 4)));
}

#[test]
fn parses_hunk_header_with_omitted_count() {
    assert_eq!(parse_hunk_header("@@ -10,0 +15 @@"), Some((15, 1)));
}

#[test]
fn parses_pure_deletion_hunk_as_zero_count() {
    assert_eq!(parse_hunk_header("@@ -5,2 +7,0 @@"), Some((7, 0)));
}

#[test]
fn ignores_non_hunk_lines() {
    assert_eq!(parse_hunk_header("diff --git a/foo.rs b/foo.rs"), None);
    assert_eq!(parse_hunk_header("Binary files a/x and b/x differ"), None);
}

#[test]
fn malformed_hunk_numbers_are_rejected() {
    assert_eq!(parse_hunk_header("@@ -1 +x,2 @@"), None);
    assert_eq!(parse_hunk_header("@@ -1 +3,y @@"), None);
    assert_eq!(parse_hunk_header("@@ -1 +3"), None);
    assert_eq!(parse_hunk_header("@@ -1 +99999999999999999999 @@"), None);
    assert_eq!(parse_hunk_header("@@ -1 +-4,2 @@"), Some((-4, 2)));
    let r = ChangedRange { path: "src/a.rs".to_string(), start_line: 3, end_line: 6 };
    assert_eq!(r.end_line - r.start_line, 3);
}

#[test]
fn module_root_groups_by_top_level_directory() {
    assert_eq!(module_root("src/commands/impact/mod.rs"), "src");
    assert_eq!(module_root("src/graph/mod.rs"), "src");
    assert_eq!(module_root("main.rs"), "");
    assert_eq!(module_root("util.rs"), "");
}

fn names(v: &[&str]) -> Vec<String> {
    v.iter().map(|s| s.to_string()).collect()
}

#[test]
fn diff_trim_drops_isolated_sorts_and_caps() {
    let n = names(&["lone", "small", "big", "mid"]);
    let (kept, trim) = diff_trim_plan(&[0, 1, 9, 4], &n, 2);
    let shown: Vec<&str> = kept.iter().map(|&i| n[i].as_str()).collect();
    assert_eq!(shown, ["big", "mid"]);
    assert_eq!(trim, DiffTrim { isolated: 1, over_limit: 1 });
    assert!(trim.note().is_some());
}

#[test]
fn diff_trim_is_silent_when_nothing_is_dropped() {
    let (kept, trim) = diff_trim_plan(&[3], &names(&["a"]), 20);
    assert_eq!(kept, vec![0]);
    assert_eq!(trim, DiffTrim::default());
    assert!(trim.note().is_none());
}

#[test]
fn diff_trim_breaks_ties_by_name_then_order() {
    let n = names(&["b", "a", "b", "c"]);
    let (kept, _) = diff_trim_plan(&[2, 2, 2, 5], &n, 10);
    assert_eq!(kept, vec![3, 1, 0, 2]);
}

#[test]
fn diff_trim_note_spells_out_the_counts() {
    let t = DiffTrim { isolated: 3, over_limit: 12 };
    assert_eq!(
        t.note().unwrap(),
        format!(
            "note: showing the {} most-affected changed symbols; omitted 3 with no callers or callees and 12 more beyond the limit (run `impact <SYMBOL>` to inspect any of them).",
            DIFF_TARGET_LIMIT
        )
    );
}
