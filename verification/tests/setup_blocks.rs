use codebase_recall::commands::setup_integrations::{
    foreign_interpreter, git_hook_body, newline_of, only_shebang_left, plan_remove, plan_upsert, shell_path,
    Change, MarkerError, RemovePlan, MD_BEGIN, MD_END, SH_BEGIN, SH_END,
};

#[test]
fn upsert_is_idempotent_and_preserves_user_text() {
    let (first, ch) = plan_upsert(Some("# My notes\n\nkeep me\n"), MD_BEGIN, MD_END, "hello").unwrap();
    assert_eq!(ch, Change::Updated);
    assert!(first.starts_with("# My notes\n\nkeep me\n"));
    assert!(first.contains("hello"));

    assert_eq!(plan_upsert(Some(&first), MD_BEGIN, MD_END, "hello").unwrap(), (first.clone(), Change::Unchanged));

    let (updated, ch) = plan_upsert(Some(&first), MD_BEGIN, MD_END, "changed").unwrap();
    assert_eq!(ch, Change::Updated);
    assert!(updated.contains("changed") && !updated.contains("hello"));
    assert_eq!(updated.matches(MD_BEGIN).count(), 1);
}

#[test]
fn remove_restores_original_content() {
    let original = "# Agents\n\nrules here\n";
    let (with_block, _) = plan_upsert(Some(original), MD_BEGIN, MD_END, "body").unwrap();
    assert!(with_block.contains("<!-- code-rcl:begin -->\nbody\n<!-- code-rcl:end -->"));
    assert_eq!(plan_remove(Some(&with_block), MD_BEGIN, MD_END), Ok(RemovePlan::Write(original.to_string())));
    assert_eq!(plan_remove(Some(original), MD_BEGIN, MD_END), Ok(RemovePlan::NotPresent));
}

#[test]
fn remove_deletes_file_we_created() {
    let (content, ch) = plan_upsert(None, MD_BEGIN, MD_END, "body").unwrap();
    assert_eq!(ch, Change::Created);
    assert_eq!(plan_remove(Some(&content), MD_BEGIN, MD_END), Ok(RemovePlan::Delete));
}

#[test]
fn a_new_shell_file_holds_only_the_block() {
    let (content, ch) = plan_upsert(None, SH_BEGIN, SH_END, "a\nb").unwrap();
    assert_eq!(ch, Change::Created);
    assert_eq!(content, "# code-rcl:begin\na\nb\n# code-rcl:end\n");
    assert_eq!(plan_remove(Some(&content), SH_BEGIN, SH_END), Ok(RemovePlan::Delete));
    assert_eq!(plan_remove(None, SH_BEGIN, SH_END), Ok(RemovePlan::NotPresent));
    assert_eq!(plan_remove(Some("plain\n"), SH_BEGIN, SH_END), Ok(RemovePlan::NotPresent));
}

#[test]
fn unpaired_markers_abort_without_touching_the_file() {
    let broken = format!("intro\n{MD_BEGIN}\nhalf a block\n");
    assert!(plan_upsert(Some(&broken), MD_BEGIN, MD_END, "x").is_err());
    assert!(plan_remove(Some(&broken), MD_BEGIN, MD_END).is_err());
    assert_eq!(
        plan_upsert(Some(&broken), MD_BEGIN, MD_END, "x"),
        Err(MarkerError::Unpaired { begins: 1, ends: 0 })
    );
    let reversed = format!("{MD_END}\n{MD_BEGIN}\n");
    assert_eq!(plan_remove(Some(&reversed), MD_BEGIN, MD_END), Err(MarkerError::OutOfOrder));
}

#[test]
fn crlf_files_keep_their_line_endings() {
    let (out, _) = plan_upsert(Some("line one\r\nline two\r\n"), MD_BEGIN, MD_END, "a\nb").unwrap();
    assert!(!out.replace("\r\n", "").contains('\n'), "mixed line endings: {out:?}");
    assert_eq!(newline_of(&out), "\r\n");
    assert_eq!(newline_of("x\ny"), "\n");
}

#[test]
fn describing_changes_and_shell_paths() {
    assert_eq!(Change::Unchanged.describe(), "already up to date");
    assert_eq!(Change::NotPresent.describe(), "nothing to remove");
    assert_eq!(shell_path("C:\\bin\\code-rcl.exe"), "C:/bin/code-rcl.exe");
}

#[test]
fn removal_keeps_the_line_break_a_file_had_to_gain() {
    let original = "last line without break";
    let (with_block, _) = plan_upsert(Some(original), MD_BEGIN, MD_END, "rules").unwrap();
    assert_eq!(
        plan_remove(Some(&with_block), MD_BEGIN, MD_END),
        Ok(RemovePlan::Write(format!("{original}\n")))
    );
    let crlf = "a\r\nb\r\n";
    let (with_block, _) = plan_upsert(Some(crlf), SH_BEGIN, SH_END, "x\ny").unwrap();
    assert_eq!(plan_upsert(Some(&with_block), SH_BEGIN, SH_END, "x\ny").unwrap().1, Change::Unchanged);
    assert_eq!(plan_remove(Some(&with_block), SH_BEGIN, SH_END), Ok(RemovePlan::Write(crlf.to_string())));
}

#[test]
fn the_hook_block_runs_sync_in_the_background() {
    assert_eq!(
        git_hook_body("C:\\tools\\code-rcl.exe"),
        "# Keep the code-rcl cache fresh in the background; never block or fail the commit.\n(\"C:/tools/code-rcl.exe\" sync >/dev/null 2>&1 &) || true"
    );
}

#[test]
fn hooks_for_other_interpreters_are_refused() {
    assert!(!foreign_interpreter("#!/bin/sh\necho hi\n"));
    assert!(!foreign_interpreter("#!/usr/bin/env bash\n"));
    assert!(foreign_interpreter("#!/usr/bin/env python3\nprint(1)\n"));
    assert!(foreign_interpreter("#!/usr/bin/fish\n"));
    assert!(!foreign_interpreter("echo no shebang\n"));
    assert!(!foreign_interpreter(""));
}

#[test]
fn a_hook_left_with_only_its_shebang_can_go() {
    assert!(only_shebang_left("#!/bin/sh\n\n"));
    assert!(!only_shebang_left("#!/bin/sh\necho mine\n"));
}


#[test]
fn empty_markers_count_every_boundary() {
    assert_eq!(
        plan_upsert(Some("abc"), "", MD_END, "x").unwrap_err(),
        MarkerError::Unpaired { begins: 4, ends: 0 }
    );
    let (text, change) = plan_upsert(Some(""), "", "", "x").unwrap();
    assert_eq!(text, "\nx\n");
    assert_eq!(change, Change::Updated);
    assert!(matches!(plan_remove(Some("abc"), "", ""), Err(MarkerError::Unpaired { begins: 4, ends: 4 })));
}

#[test]
fn rewriting_an_existing_block_is_a_fixed_point() {
    let old = format!("intro\r\n{MD_BEGIN}\r\nold body\r\n{MD_END}\r\ntail\r\n");
    let (first, ch) = plan_upsert(Some(&old), MD_BEGIN, MD_END, "new\nbody").unwrap();
    assert_eq!(ch, Change::Updated);
    assert_eq!(first, format!("intro\r\n{MD_BEGIN}\r\nnew\r\nbody\r\n{MD_END}\r\ntail\r\n"));
    assert_eq!(plan_upsert(Some(&first), MD_BEGIN, MD_END, "new\nbody").unwrap(), (first.clone(), Change::Unchanged));
}
