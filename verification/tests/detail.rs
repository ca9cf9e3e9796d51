use git_core::detail::{
    change_status, commit_detail, commit_id, file_change, file_changes, DeltaKind, DiffFile, DiffLine,
};
use git_core::CoreError;
use git_core::model::{ChangeStatus, Commit, Signature};

fn commit() -> Commit {
    let sig = Signature { name: "A".into(), email: "a@example.com".into(), timestamp: 1, offset_minutes: 60 };
    Commit {
        id: "abc".into(),
        short_id: "abc".into(),
        summary: "s".into(),
        body: String::new(),
        author: sig.clone(),
        committer: sig,
        parents: vec![],
        refs: vec![],
    }
}

#[test]
fn change_status_maps_every_delta() {
    assert_eq!(change_status(DeltaKind::Added), ChangeStatus::Added);
    assert_eq!(change_status(DeltaKind::Deleted), ChangeStatus::Deleted);
    assert_eq!(change_status(DeltaKind::Renamed), ChangeStatus::Renamed);
    assert_eq!(change_status(DeltaKind::Copied), ChangeStatus::Copied);
    assert_eq!(change_status(DeltaKind::Typechange), ChangeStatus::TypeChange);
    assert_eq!(change_status(DeltaKind::Untracked), ChangeStatus::Untracked);
    assert_eq!(change_status(DeltaKind::Conflicted), ChangeStatus::Conflicted);
    assert_eq!(change_status(DeltaKind::Modified), ChangeStatus::Modified);
    assert_eq!(change_status(DeltaKind::Unmodified), ChangeStatus::Modified);
    assert_eq!(change_status(DeltaKind::Ignored), ChangeStatus::Modified);
    assert_eq!(change_status(DeltaKind::Unreadable), ChangeStatus::Modified);
}

#[test]
fn old_path_is_kept_only_when_it_differs() {
    let renamed = file_change("new.rs".into(), Some("old.rs".into()), DeltaKind::Renamed, (3, 1), false);
    assert_eq!(renamed.old_path.as_deref(), Some("old.rs"));
    assert_eq!(renamed.status, ChangeStatus::Renamed);
    assert_eq!((renamed.insertions, renamed.deletions), (3, 1));
    let same = file_change("a.rs".into(), Some("a.rs".into()), DeltaKind::Modified, (0, 0), true);
    assert_eq!(same.old_path, None);
    assert!(same.is_binary);
}

#[test]
fn lines_are_counted_per_file_and_origin() {
    let line = |path: &str, origin: char| DiffLine { path: path.to_string(), origin };
    let lines = vec![
        line("a.txt", '+'),
        line("b.txt", '-'),
        line("a.txt", '+'),
        line("a.txt", '-'),
        line("a.txt", ' '),
        line("c.txt", '+'),
    ];
    let files = vec![
        DiffFile { path: "a.txt".into(), old_path: Some("a.txt".into()), delta: DeltaKind::Modified, is_binary: false },
        DiffFile { path: "b.txt".into(), old_path: Some("old-b.txt".into()), delta: DeltaKind::Renamed, is_binary: false },
        DiffFile { path: "d.bin".into(), old_path: None, delta: DeltaKind::Added, is_binary: true },
    ];
    let changes = file_changes(files, &lines);
    assert_eq!(changes.len(), 3);
    assert_eq!((changes[0].path.as_str(), changes[0].insertions, changes[0].deletions), ("a.txt", 2, 1));
    assert_eq!(changes[0].old_path, None);
    assert_eq!((changes[1].insertions, changes[1].deletions), (0, 1));
    assert_eq!(changes[1].old_path.as_deref(), Some("old-b.txt"));
    assert_eq!(changes[1].status, ChangeStatus::Renamed);
    assert_eq!((changes[2].insertions, changes[2].deletions), (0, 0));
    assert!(changes[2].is_binary);
}

#[test]
fn a_commit_id_must_be_hex() {
    assert_eq!(commit_id("0a4ed91abcc1f495967477fd6192e477f68b21f5").unwrap(), "0a4ed91abcc1f495967477fd6192e477f68b21f5");
    assert_eq!(commit_id("0A4E").unwrap(), "0A4E");
    for bad in ["", "xyz", "0a4ed91g", "0a4ed91abcc1f495967477fd6192e477f68b21f50"] {
        match commit_id(bad) {
            Err(CoreError::Invalid(message)) => assert_eq!(message, format!("Invalid commit id: {bad}")),
            other => panic!("expected Invalid for {bad:?}, got {other:?}"),
        }
    }
}

#[test]
fn detail_sorts_files_and_sums_lines() {
    let files = vec![
        file_change("z.txt".into(), None, DeltaKind::Added, (5, 0), false),
        file_change("a.txt".into(), None, DeltaKind::Modified, (2, 3), false),
        file_change("m/x.txt".into(), None, DeltaKind::Deleted, (0, 7), false),
    ];
    let detail = commit_detail(commit(), files);
    let paths: Vec<&str> = detail.files.iter().map(|f| f.path.as_str()).collect();
    assert_eq!(paths, vec!["a.txt", "m/x.txt", "z.txt"]);
    assert_eq!(detail.insertions, 7);
    assert_eq!(detail.deletions, 10);
    assert_eq!(detail.commit.id, "abc");
}
