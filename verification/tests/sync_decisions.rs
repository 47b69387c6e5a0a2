use codebase_recall::analysis::lang::Language;
use codebase_recall::commands::sync::{content_hash, file_change, keep_for_sync, removed_paths, FileChange, SyncStats};

#[test]
fn content_hash_is_lowercase_blake3_hex() {
    assert_eq!(content_hash(b""), "af1349b9f5f9a1a6a0404dea36dcc9499bcb25c9adc112b7cc9a93cae41f3262");
    assert_eq!(content_hash(b"abc"), "6437b3ac38465133ffb63b75273a8db548c558465d79db03fd359c6cd5bd9d85");
    assert_ne!(content_hash(b"abc"), content_hash(b"abd"));
}

#[test]
fn files_are_classified_against_the_cache() {
    assert_eq!(file_change(None, "aa"), FileChange::Added);
    assert_eq!(file_change(Some("aa"), "aa"), FileChange::Unchanged);
    assert_eq!(file_change(Some("ab"), "aa"), FileChange::Changed);
}

#[test]
fn sync_keeps_known_small_unminified_selected_files() {
    let none: Vec<String> = vec![];
    assert_eq!(keep_for_sync("src/main.rs", &none, 10, 512), Some(Language::Rust));
    assert_eq!(keep_for_sync("web/App.VUE", &none, 10, 512), Some(Language::Vue));
    assert_eq!(keep_for_sync("README.md", &none, 10, 512), None);
    assert_eq!(keep_for_sync("dist/d3.min.js", &none, 10, 512), None);
    assert_eq!(keep_for_sync("src/big.rs", &none, 512 * 1024 + 1, 512), None);
    assert_eq!(keep_for_sync("src/edge.rs", &none, 512 * 1024, 512), Some(Language::Rust));
    let ts = vec![" TS ".to_string()];
    assert_eq!(keep_for_sync("a.tsx", &ts, 1, 1), Some(Language::Tsx));
    assert_eq!(keep_for_sync("a.rs", &ts, 1, 1), None);
    assert_eq!(keep_for_sync("a.rs", &vec!["py".to_string(), "rust".to_string()], 1, 1), Some(Language::Rust));
    assert_eq!(keep_for_sync("huge.rs", &none, u64::MAX, u64::MAX), Some(Language::Rust));
}

#[test]
fn paths_gone_from_disk_are_removed() {
    let cached = vec!["a.rs".to_string(), "b.rs".to_string(), "c.rs".to_string()];
    let disk = vec!["c.rs".to_string(), "a.rs".to_string()];
    assert_eq!(removed_paths(&cached, &disk), vec!["b.rs".to_string()]);
    assert!(removed_paths(&cached, &cached).is_empty());
}

#[test]
fn stats_count_and_summarise() {
    let mut s = SyncStats::new(4);
    s.record_removed();
    s.record_change(FileChange::Unchanged);
    s.record_analysis(5, 2, true);
    s.record_change(FileChange::Added);
    s.record_analysis(1, 0, false);
    s.record_change(FileChange::Changed);
    assert_eq!(s.summary(), "sync: 4 source files (+1 ~1 =1 -1), 6 symbols, 2 imports");
    assert_eq!(
        s.unsupported_note().as_deref(),
        Some("note: 1 files recorded without analysis (analyzer not implemented yet)")
    );
    assert!(s.changed_anything());
    assert!(SyncStats::new(3).unsupported_note().is_none());
    assert!(!SyncStats::new(3).changed_anything());
}

#[test]
fn a_second_sync_over_the_same_tree_changes_nothing() {
    let paths = vec!["src/a.rs".to_string(), "src/b.rs".to_string()];
    assert!(removed_paths(&paths, &paths).is_empty());
    let h = content_hash(b"fn main() {}\n");
    assert_eq!(file_change(Some(h.as_str()), content_hash(b"fn main() {}\n").as_str()), FileChange::Unchanged);
    let mut stats = SyncStats::new(2);
    stats.record_change(FileChange::Unchanged);
    stats.record_change(FileChange::Unchanged);
    assert!(!stats.changed_anything());
}
