use codebase_recall::analysis::lang::{is_config_group, Language};
use codebase_recall::analysis::toml::parse;
use codebase_recall::cache::utils::{fuzzy_ranking, innermost_symbol, levenshtein, unix_secs};
use codebase_recall::cache::models::NewSymbol;
use codebase_recall::cache::{ctx_dir, db_path};

#[test]
fn keys_are_indexed_under_their_table() {
    let src = r#"
# a comment
edition = "2024"

[revsets]
run = "@"          # trailing comment
"log" = "x"

[[bin]]
name = "code-rcl"

[tool.ruff.lint]
select = ["E"]
"#;
    let p = parse(src);
    assert!(p.parse_ok);
    let keys: Vec<&str> = p.string_literals.iter().map(|s| s.value.as_str()).collect();

    assert!(keys.contains(&"edition"), "root key: {keys:?}");
    assert!(keys.contains(&"revsets.run"), "table key: {keys:?}");
    assert!(keys.contains(&"revsets.log"), "quoted key: {keys:?}");
    assert!(keys.contains(&"bin.name"), "array-of-tables key: {keys:?}");
    assert!(keys.contains(&"tool.ruff.lint.select"), "nested: {keys:?}");

    assert!(p.symbols.is_empty());
    assert!(p.refs.is_empty());
}

#[test]
fn a_hash_inside_a_string_is_not_a_comment() {
    let p = parse("[colors]\naccent = \"#ff0000\"\n");
    let keys: Vec<&str> = p.string_literals.iter().map(|s| s.value.as_str()).collect();
    assert_eq!(keys, vec!["colors.accent"]);
}

#[test]
fn the_line_number_points_at_the_definition() {
    let p = parse("[a]\nb = 1\n");
    assert_eq!(p.string_literals[0].line, Some(2));
}

#[test]
fn toml_keys_carry_the_definition_marker_and_skip_continuations() {
    let p = parse("a = [\n  \"x y\" ,\n]\nb c = 1\n[ 'q' . r ]\ns=2\r\n");
    let keys: Vec<&str> = p.string_literals.iter().map(|s| s.value.as_str()).collect();
    assert_eq!(keys, vec!["a", "q.r.s"]);
    assert_eq!(p.string_literals[1].line, Some(6));
    assert_eq!(p.string_literals[0].callee.as_deref(), Some("<toml-key>"));
}

#[test]
fn test_levenshtein_distance() {
    assert_eq!(levenshtein("kitten", "sitting"), 3);
    assert_eq!(levenshtein("build_graph", "build_grap"), 1);
    assert_eq!(levenshtein("same", "same"), 0);
    assert_eq!(levenshtein("", "test"), 4);
}

#[test]
fn levenshtein_ignores_ascii_case_and_is_symmetric() {
    assert_eq!(levenshtein("Build_Graph", "build_grap"), 1);
    assert_eq!(levenshtein("abc", ""), 3);
    assert_eq!(levenshtein("flaw", "lawn"), levenshtein("lawn", "flaw"));
    assert_eq!(levenshtein("flaw", "lawn"), 2);
}

fn sym(start: i64, end: i64) -> NewSymbol {
    NewSymbol {
        name: "s".to_string(),
        kind: "function".to_string(),
        parent_index: None,
        is_exported: false,
        start_line: 1,
        end_line: 1,
        start_byte: start,
        end_byte: end,
        signature: None,
        param_count: None,
        owner_type: None,
    }
}

#[test]
fn innermost_symbol_picks_the_narrowest_cover() {
    let syms = vec![sym(0, 100), sym(10, 50), sym(20, 30), sym(10, 50)];
    let ids = vec![7, 8, 9, 10];
    assert_eq!(innermost_symbol(&syms, &ids, 25), Some(9));
    assert_eq!(innermost_symbol(&syms, &ids, 40), Some(8));
    assert_eq!(innermost_symbol(&syms, &ids, 5), Some(7));
    assert_eq!(innermost_symbol(&syms, &ids, 100), None);
}

#[test]
fn unix_secs_reads_the_clock_value() {
    assert_eq!(unix_secs(Some(1_700_000_000)), 1_700_000_000);
    assert_eq!(unix_secs(None), 0);
}

#[test]
fn extensions_follow_path_components() {
    assert_eq!(Language::from_path("x.rs/."), Some(Language::Rust));
    assert_eq!(Language::from_path("src//lib.rs/"), Some(Language::Rust));
    assert_eq!(Language::from_path("a/b.rs/.."), None);
    assert_eq!(Language::from_path("."), None);
    assert_eq!(Language::from_path("/"), None);
}

#[test]
fn languages_come_from_extensions() {
    assert_eq!(Language::from_path("src/main.RS"), Some(Language::Rust));
    assert_eq!(Language::from_path("web/app.mjs"), Some(Language::JavaScript));
    assert_eq!(Language::from_path("a/b.tsx"), Some(Language::Tsx));
    assert_eq!(Language::from_path("Cargo.toml"), Some(Language::Toml));
    assert_eq!(Language::from_path(".gitignore"), None);
    assert_eq!(Language::from_path("README"), None);
    assert_eq!(Language::from_path("x.md"), None);
    assert_eq!(Language::Jsx.group(), "javascript");
    assert!(Language::Tsx.matches_filter(" TS "));
    assert!(Language::Python.matches_filter("python"));
    assert!(!Language::Python.matches_filter("js"));
    assert!(is_config_group("toml"));
    assert!(!is_config_group("rust"));
    assert!(Language::Go.is_supported());
}

#[test]
fn cache_paths_sit_under_the_project() {
    assert_eq!(ctx_dir("/work/proj"), "/work/proj/.code-rcl");
    assert_eq!(ctx_dir("/work/proj/"), "/work/proj/.code-rcl");
    assert_eq!(db_path("proj"), "proj/.code-rcl/cache.db");
}

#[test]
fn fuzzy_suggestions_come_nearest_first() {
    let names: Vec<String> = ["build_graph", "BuildGraph", "build", "render", "xgraph", "graph_build"]
        .iter()
        .map(|s| s.to_string())
        .collect();
    assert_eq!(fuzzy_ranking(&names, "build_grap", 6), vec![(0, 1), (1, 2)]);
    // names holding the query count at any distance; equal distances keep their order
    assert_eq!(fuzzy_ranking(&names, "graph", 6), vec![(4, 1), (1, 5), (0, 6), (5, 6)]);
    assert_eq!(fuzzy_ranking(&names, "graph", 3), vec![(4, 1), (1, 5), (0, 6)]);
    assert_eq!(fuzzy_ranking(&names, "zzzzzzzzzz", 6), vec![]);
}
