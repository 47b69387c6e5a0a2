use codebase_recall::commands::digest::models::HubItem;
use codebase_recall::commands::report::{
    path_of, questions_of, render_markdown, report_due, report_needs_write, report_path, Bridge, LinkInfo, Question, ReportData, Subsystem,
};

fn sample() -> ReportData {
    ReportData {
        project: "demo".into(),
        total_files: 6,
        total_symbols: 9,
        public_symbols: 7,
        languages: vec![("rust".to_string(), 6)],
        hubs: vec![HubItem {
            label: "apply".into(),
            kind: "function".into(),
            path: Some("tax.rs".into()),
            degree: 4,
        }],
        subsystems: vec![Subsystem {
            id: 0,
            label: "billing".into(),
            files: 3,
            key_files: vec!["invoice.rs".into()],
            cohesion_percent: 86,
            internal_links: 6,
            external_links: 1,
            depends_on: vec![LinkInfo { subsystem: "shipping".into(), links: 1 }],
        }],
        unclustered_files: 0,
        bridges: vec![Bridge {
            file: "invoice.rs".into(),
            touches: vec!["billing".into(), "shipping".into()],
        }],
        questions: vec![Question {
            question: "What breaks if `apply` changes?".into(),
            command: "code-rcl impact apply".into(),
        }],
    }
}

#[test]
fn markdown_has_every_section_and_is_stable() {
    let md = render_markdown(&sample());
    for needle in [
        "# Code Report: demo",
        "**Summary**: 6 files | 9 symbols (7 public) | Languages: rust (6)",
        "## Core hubs",
        "| `apply` | function | `tax.rs` | 4 |",
        "### 1. billing (3 files)",
        "Cohesion: 86%",
        "`shipping` (1 links)",
        "## Bridges",
        "## Suggested questions",
        "`code-rcl impact apply`",
    ] {
        assert!(md.contains(needle), "missing {needle:?} in:\n{md}");
    }
    assert_eq!(md, render_markdown(&sample()), "rendering must be deterministic");
}

#[test]
fn empty_report_still_renders() {
    let mut d = sample();
    d.hubs.clear();
    d.subsystems.clear();
    d.bridges.clear();
    d.questions.clear();
    let md = render_markdown(&d);
    assert!(md.contains("No subsystems detected"));
    assert!(!md.contains("## Core hubs"));
}

#[test]
fn report_markdown_exact_text() {
    let mut d = sample();
    d.languages = vec![("python".to_string(), 2), ("rust".to_string(), 6), ("toml".to_string(), 2)];
    d.unclustered_files = 2;
    let md = render_markdown(&d);
    assert_eq!(
        md,
        "# Code Report: demo\n\n\
_Generated by code-rcl. Refresh with `code-rcl report --write`; `code-rcl sync` keeps it current._\n\n\
**Summary**: 6 files | 9 symbols (7 public) | Languages: rust (6), python (2), toml (2)\n\n\
## Core hubs\n\nMost connected nodes; changes here reach the furthest.\n\n\
| Symbol | Kind | File | Degree |\n| :--- | :--- | :--- | :--- |\n\
| `apply` | function | `tax.rs` | 4 |\n\n\
## Subsystems\n\n\
Groups of files that depend on each other far more than on the rest (detected from imports and calls).\n\n\
### 1. billing (3 files)\n\n\
- Key files: `invoice.rs`\n\
- Cohesion: 86% (6 internal links, 1 to other subsystems)\n\
- Linked to: `shipping` (1 links)\n\n\
_2 file(s) belong to no subsystem (no links to other files)._\n\n\
## Bridges\n\nFiles with links into other subsystems, most far-reaching first; the seams to be careful with.\n\n\
| File | Reaches into |\n| :--- | :--- |\n\
| `invoice.rs` | `billing`, `shipping` |\n\n\
## Suggested questions\n\n\
- What breaks if `apply` changes? `code-rcl impact apply`\n"
    );
}

fn hub(label: &str) -> HubItem {
    HubItem { label: label.into(), kind: "function".into(), path: None, degree: 1 }
}

fn subsystem(id: u32, key: &str) -> Subsystem {
    Subsystem {
        id,
        label: format!("s{id}"),
        files: 1,
        key_files: vec![key.to_string()],
        cohesion_percent: 100,
        internal_links: 0,
        external_links: 0,
        depends_on: vec![],
    }
}

#[test]
fn questions_cover_hubs_bridges_and_the_busiest_pair() {
    let hubs = vec![hub("apply"), hub("total")];
    let subs = vec![subsystem(0, "a.rs"), subsystem(1, "b.rs"), subsystem(2, "c.rs")];
    let labels = vec![(0u32, "billing".to_string()), (1, "shipping".to_string()), (2, "tax".to_string())];
    let links = vec![((0u32, 1u32), 3usize), ((0, 2), 5), ((1, 2), 5)];
    let bridges = vec![Bridge { file: "x.rs".into(), touches: vec!["billing".into(), "tax".into()] }];
    let qs = questions_of(&hubs, &subs, &labels, &links, &bridges);
    let got: Vec<(String, String)> = qs.into_iter().map(|q| (q.question, q.command)).collect();
    assert_eq!(
        got,
        vec![
            ("What breaks if `apply` changes?".to_string(), "code-rcl impact apply".to_string()),
            ("How do `apply` and `total` connect?".to_string(), "code-rcl path apply total".to_string()),
            ("Why does `x.rs` reach into 2 other subsystem(s)?".to_string(), "code-rcl explain x.rs".to_string()),
            (
                "How is `billing` wired to `tax` (the most connected pair)?".to_string(),
                "code-rcl path a.rs c.rs --direction any".to_string()
            ),
            ("What do my uncommitted changes affect?".to_string(), "code-rcl impact --diff".to_string()),
        ]
    );
}

#[test]
fn with_nothing_known_only_the_diff_question_is_left() {
    let qs = questions_of(&vec![], &vec![], &vec![], &vec![((0, 1), 2)], &vec![]);
    assert_eq!(qs.len(), 1);
    assert_eq!(qs[0].command, "code-rcl impact --diff");
}

#[test]
fn report_lives_in_the_context_dir() {
    assert_eq!(report_path("proj"), "proj/.code-rcl/REPORT.md");
    assert_eq!(path_of("file:src/a.rs"), "src/a.rs");
    assert_eq!(path_of("sym:x"), "sym:x");
}

#[test]
fn languages_with_equal_counts_are_listed_by_name() {
    let mut d = sample();
    d.languages = vec![("toml".to_string(), 2), ("go".to_string(), 2), ("rust".to_string(), 6)];
    let md = render_markdown(&d);
    assert!(md.contains("| Languages: rust (6), go (2), toml (2)\n"));
}

#[test]
fn the_report_is_rewritten_only_after_a_change() {
    assert!(!report_due(0, 0, 0, false, true));
    assert!(report_due(1, 0, 0, false, true));
    assert!(report_due(0, 2, 0, false, true));
    assert!(report_due(0, 0, 3, false, true));
    assert!(report_due(0, 0, 0, true, true));
    assert!(report_due(0, 0, 0, false, false));
    assert!(!report_needs_write(Some("# Code Report: demo\n"), "# Code Report: demo\n"));
    assert!(report_needs_write(Some("old"), "new"));
    assert!(report_needs_write(None, ""));
}
