use codebase_recall::commands::digest::markdown::format_markdown_digest;
use codebase_recall::commands::digest::models::{
    DigestReport, FileDigest, HubItem, ModuleDigest, SymbolItem, TypeDigest,
};

fn item(sig: &str, doc: Option<&str>, diagram: bool) -> SymbolItem {
    SymbolItem {
        name: "x".to_string(),
        kind: "function".to_string(),
        signature: sig.to_string(),
        line: Some(1),
        is_exported: true,
        doc: doc.map(str::to_string),
        has_diagram: diagram,
    }
}

#[test]
fn the_digest_document_has_every_section() {
    let report = DigestReport {
        project: "demo".to_string(),
        total_files: 3,
        total_symbols: 12,
        public_symbols: 7,
        languages: vec![("python".to_string(), 1), ("rust".to_string(), 2), ("go".to_string(), 1)],
        hubs: vec![HubItem { label: "run".to_string(), kind: "function".to_string(), path: None, degree: 4 }],
        modules: vec![
            ModuleDigest {
                directory: ".".to_string(),
                files: vec![FileDigest {
                    path: "main.rs".to_string(),
                    language: "rust".to_string(),
                    types: vec![],
                    functions: vec![item("fn main()", Some("Entry.\nSecond"), false)],
                }],
            },
            ModuleDigest {
                directory: "src".to_string(),
                files: vec![FileDigest {
                    path: "src/lib.rs".to_string(),
                    language: "rust".to_string(),
                    types: vec![TypeDigest {
                        name: "Job".to_string(),
                        kind: "struct".to_string(),
                        signature: "pub struct Job".to_string(),
                        doc: Some("A job.".to_string()),
                        has_diagram: true,
                        has_diagram_in_fields: false,
                        methods: vec![item("pub fn start(&self)", None, false)],
                    }],
                    functions: vec![item("pub fn helper()", None, true)],
                }],
            },
        ],
    };
    let md = format_markdown_digest(&report);
    let expected = "# Architecture Digest: demo\n\n\
**Summary**: 3 files | 12 symbols (7 public) | Languages: rust (2), go (1), python (1)\n\n\
## Core Architecture Hubs\n\n\
| Symbol | Kind | File | Degree |\n\
| :--- | :--- | :--- | :--- |\n\
| `run` | function | `-` | 4 |\n\n\
## Modules & Public APIs\n\n\
### Root Directory (`.`)\n\n\
#### `main.rs` (rust)\n\n\
- `fn main()`\n  > Entry.\n  > Second\n\n\
### Directory: `src`\n\n\
#### `src/lib.rs` (rust)\n\n\
- **`pub struct Job`** `[diagram]`\n  > A job.\n  - `pub fn start(&self)`\n\
- **Functions**:\n  - `pub fn helper()` `[diagram]`\n\n";
    assert_eq!(md, expected);
}

#[test]
fn an_empty_digest_says_none() {
    let report = DigestReport {
        project: "p".to_string(),
        total_files: 0,
        total_symbols: 0,
        public_symbols: 0,
        languages: vec![],
        hubs: vec![],
        modules: vec![],
    };
    assert_eq!(
        format_markdown_digest(&report),
        "# Architecture Digest: p\n\n**Summary**: 0 files | 0 symbols (0 public) | Languages: none\n\n## Modules & Public APIs\n\n"
    );
}
