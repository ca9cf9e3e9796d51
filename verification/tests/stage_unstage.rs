use git_core::model::{ChangeStatus, FileChange, SkipReason, WorkingStatus};
use git_core::status::{working_status, StatusEntry, StatusFlags};
use git_core::write::{
    normalise_all, stage_action, unstage_action, vanished, write_outcome, write_preflight,
    StageAction, UnstageAction,
};
use git_core::CoreError;

fn flags() -> StatusFlags {
    StatusFlags {
        conflicted: false,
        index_new: false,
        index_deleted: false,
        index_renamed: false,
        index_typechange: false,
        index_modified: false,
        wt_new: false,
        wt_deleted: false,
        wt_renamed: false,
        wt_typechange: false,
        wt_modified: false,
    }
}

fn entry(path: &str, flags: StatusFlags) -> StatusEntry {
    StatusEntry { path: path.to_string(), flags }
}

fn paths(list: &[FileChange]) -> Vec<&str> {
    list.iter().map(|f| f.path.as_str()).collect()
}

#[test]
fn a_file_on_disk_is_added_and_listed_as_staged() {
    let normal = normalise_all(&vec!["src/main.rs".to_string()]).unwrap();
    assert_eq!(normal, vec!["src/main.rs"]);
    // The file is on disk: it is added to the index.
    assert_eq!(stage_action(true, true), StageAction::Add);
    // The status walk afterwards sees the index change only.
    let status = working_status(vec![entry(
        "src/main.rs",
        StatusFlags { index_modified: true, ..flags() },
    )]);
    let outcome = write_outcome(status, &Vec::new(), &Vec::new());
    assert_eq!(paths(&outcome.status.staged), vec!["src/main.rs"]);
    assert_eq!(outcome.status.staged[0].status, ChangeStatus::Modified);
    assert!(outcome.status.unstaged.is_empty());
    assert!(outcome.skipped.is_empty());
}

#[test]
fn a_path_in_head_is_restored_from_head() {
    // In HEAD: the index entry is restored from the HEAD tree; the working
    // tree is never involved.
    assert_eq!(unstage_action(true, true), UnstageAction::RestoreFromHead);
    let status = working_status(vec![entry(
        "tracked.txt",
        StatusFlags { wt_modified: true, ..flags() },
    )]);
    assert!(status.staged.is_empty());
    assert_eq!(paths(&status.unstaged), vec!["tracked.txt"]);
}

#[test]
fn the_staged_listing_holds_only_index_changes() {
    let listed = vec!["one.txt".to_string(), "two.txt".to_string(), "three.txt".to_string()];
    let normal = normalise_all(&listed).unwrap();
    assert_eq!(normal, listed);
    let status = working_status(vec![
        entry("build-artifact.log", StatusFlags { wt_new: true, ..flags() }),
        entry("one.txt", StatusFlags { index_new: true, ..flags() }),
        entry("three.txt", StatusFlags { index_new: true, ..flags() }),
        entry("two.txt", StatusFlags { index_new: true, ..flags() }),
    ]);
    assert_eq!(paths(&status.staged), vec!["one.txt", "three.txt", "two.txt"]);
    assert_eq!(
        paths(&status.unstaged),
        vec!["build-artifact.log"],
        "the un-listed artifact must remain untracked, not staged"
    );
    assert_eq!(status.unstaged[0].status, ChangeStatus::Untracked);
}

#[test]
fn a_bracketed_path_is_a_literal_path() {
    let normal = normalise_all(&vec!["a[b].txt".to_string()]).unwrap();
    assert_eq!(normal, vec!["a[b].txt"], "a bracket is a literal, never a glob");
    let status = working_status(vec![
        entry("a[b].txt", StatusFlags { index_new: true, ..flags() }),
        entry("ab.txt", StatusFlags { wt_new: true, ..flags() }),
    ]);
    assert_eq!(paths(&status.staged), vec!["a[b].txt"]);
    assert_eq!(paths(&status.unstaged), vec!["ab.txt"], "sibling must stay untouched");

    assert_eq!(unstage_action(false, true), UnstageAction::Remove);
    let status = working_status(vec![
        entry("ab.txt", StatusFlags { wt_new: true, ..flags() }),
        entry("a[b].txt", StatusFlags { wt_new: true, ..flags() }),
    ]);
    assert!(status.staged.is_empty());
    assert_eq!(paths(&status.unstaged), vec!["a[b].txt", "ab.txt"]);
}

#[test]
fn without_head_an_indexed_path_is_removed() {
    // No HEAD tree at all, but the index has the new file.
    assert_eq!(unstage_action(false, true), UnstageAction::Remove);
    let status = working_status(vec![entry("new.txt", StatusFlags { wt_new: true, ..flags() })]);
    assert!(status.staged.is_empty());
    assert_eq!(paths(&status.unstaged), vec!["new.txt"]);
}

#[test]
fn a_skipped_path_is_reported_as_vanished() {
    assert_eq!(stage_action(true, false), StageAction::Add);
    assert_eq!(stage_action(false, false), StageAction::Skip);
    let status = working_status(vec![entry("real.txt", StatusFlags { index_new: true, ..flags() })]);
    let listed = vec!["real.txt".to_string(), "ghost.txt".to_string()];
    let outcome = write_outcome(status, &listed, &vec![false, true]);
    assert_eq!(paths(&outcome.status.staged), vec!["real.txt"]);
    assert_eq!(outcome.skipped.len(), 1);
    assert_eq!(outcome.skipped[0].path, "ghost.txt");
    assert_eq!(outcome.skipped[0].reason, SkipReason::Vanished);
}

#[test]
fn conflicts_refuse_a_write_naming_the_paths() {
    let status = working_status(vec![entry(
        "shared.txt",
        StatusFlags { conflicted: true, index_modified: true, wt_modified: true, ..flags() },
    )]);
    assert!(!status.conflicted.is_empty(), "test setup must produce a conflict");
    assert!(status.staged.is_empty() && status.unstaged.is_empty());
    match write_preflight(false, status.conflicted.clone(), None) {
        Err(CoreError::ConflictsPresent { paths }) => assert_eq!(paths, vec!["shared.txt"]),
        other => panic!("expected ConflictsPresent, got {other:?}"),
    }
}

#[test]
fn a_write_outcome_lists_staged_paths_in_path_order() {
    let status = working_status(vec![
        entry("zeta.txt", StatusFlags { index_new: true, ..flags() }),
        entry("alpha.txt", StatusFlags { index_new: true, ..flags() }),
    ]);
    let via_write = write_outcome(status, &Vec::new(), &Vec::new());
    assert_eq!(paths(&via_write.status.staged), vec!["alpha.txt", "zeta.txt"]);
}

#[test]
fn bare_repository_refuses_writes() {
    assert!(matches!(
        write_preflight(true, vec!["a".to_string()], Some(".git/index.lock".to_string())),
        Err(CoreError::BareRepository)
    ));
    assert!(write_preflight(false, Vec::new(), None).is_ok());
}

#[test]
fn the_first_escaping_path_refuses_the_whole_batch() {
    let listed = vec![
        "ok.txt".to_string(),
        "../escape.txt".to_string(),
        "/etc/hosts".to_string(),
    ];
    match normalise_all(&listed) {
        Err(CoreError::PathOutsideRepo { path }) => assert_eq!(path, "../escape.txt"),
        other => panic!("expected PathOutsideRepo, got {other:?}"),
    }
    let normal = normalise_all(&vec!["a/./b".to_string(), "c/../d".to_string()]).unwrap();
    assert_eq!(normal, vec!["a/b", "d"]);
}

#[test]
fn skipped_paths_are_sorted() {
    let empty = WorkingStatus { staged: Vec::new(), unstaged: Vec::new(), conflicted: Vec::new() };
    let listed = vec!["z.txt".to_string(), "kept.txt".to_string(), "a.txt".to_string(), "m.txt".to_string()];
    let outcome = write_outcome(empty, &listed, &vec![true, false, true, true]);
    let skipped: Vec<&str> = outcome.skipped.iter().map(|s| s.path.as_str()).collect();
    assert_eq!(skipped, vec!["a.txt", "m.txt", "z.txt"]);
}

#[test]
fn a_live_index_lock_refuses_a_write_naming_the_lock() {
    match write_preflight(false, Vec::new(), Some("/repo/.git/index.lock".to_string())) {
        Err(CoreError::IndexLocked { lock_path }) => assert_eq!(lock_path, "/repo/.git/index.lock"),
        other => panic!("expected IndexLocked, got {other:?}"),
    }
    // Conflicts are reported before the lock.
    assert!(matches!(
        write_preflight(false, vec!["c.txt".to_string()], Some("/repo/.git/index.lock".to_string())),
        Err(CoreError::ConflictsPresent { .. })
    ));
}

#[test]
fn vanished_records_the_path() {
    let skipped = vanished("gone.txt".to_string());
    assert_eq!(skipped.path, "gone.txt");
    assert_eq!(skipped.reason, SkipReason::Vanished);
}
