use git_core::model::ChangeStatus;
use git_core::status::{
    index_status, simple_change, working_status, workdir_status, StatusEntry, StatusFlags,
};

fn none() -> StatusFlags {
    StatusFlags {
        conflicted: false,
        index_new: false,
        index_deleted: false,
        index_renamed: false,
        index_typechange: false,
        index_modified: false,
        wt_new: false,
        wt_deleted: false,
        wt_renamed: false,
        wt_typechange: false,
        wt_modified: false,
    }
}

#[test]
fn index_status_follows_precedence() {
    assert_eq!(index_status(none()), None);
    assert_eq!(index_status(StatusFlags { index_new: true, index_modified: true, ..none() }), Some(ChangeStatus::Added));
    assert_eq!(index_status(StatusFlags { index_deleted: true, ..none() }), Some(ChangeStatus::Deleted));
    assert_eq!(index_status(StatusFlags { index_renamed: true, index_modified: true, ..none() }), Some(ChangeStatus::Renamed));
    assert_eq!(index_status(StatusFlags { index_typechange: true, ..none() }), Some(ChangeStatus::TypeChange));
    assert_eq!(index_status(StatusFlags { index_modified: true, ..none() }), Some(ChangeStatus::Modified));
    assert_eq!(index_status(StatusFlags { wt_new: true, ..none() }), None);
}

#[test]
fn workdir_status_follows_precedence() {
    assert_eq!(workdir_status(none()), None);
    assert_eq!(workdir_status(StatusFlags { wt_new: true, wt_modified: true, ..none() }), Some(ChangeStatus::Untracked));
    assert_eq!(workdir_status(StatusFlags { wt_deleted: true, ..none() }), Some(ChangeStatus::Deleted));
    assert_eq!(workdir_status(StatusFlags { wt_renamed: true, ..none() }), Some(ChangeStatus::Renamed));
    assert_eq!(workdir_status(StatusFlags { wt_typechange: true, ..none() }), Some(ChangeStatus::TypeChange));
    assert_eq!(workdir_status(StatusFlags { wt_modified: true, ..none() }), Some(ChangeStatus::Modified));
    assert_eq!(workdir_status(StatusFlags { index_new: true, ..none() }), None);
}

#[test]
fn simple_change_has_no_extras() {
    let change = simple_change("a.txt".to_string(), ChangeStatus::Added);
    assert_eq!(change.path, "a.txt");
    assert_eq!(change.old_path, None);
    assert_eq!(change.status, ChangeStatus::Added);
    assert_eq!(change.insertions, 0);
    assert_eq!(change.deletions, 0);
    assert!(!change.is_binary);
}

#[test]
fn a_path_can_be_staged_and_unstaged_at_once() {
    let status = working_status(vec![StatusEntry {
        path: "both.txt".to_string(),
        flags: StatusFlags { index_modified: true, wt_modified: true, ..none() },
    }]);
    assert_eq!(status.staged.len(), 1);
    assert_eq!(status.unstaged.len(), 1);
    assert!(status.conflicted.is_empty());
}

#[test]
fn listings_sort_bytewise_not_case_insensitively() {
    let status = working_status(vec![
        StatusEntry { path: "b.txt".into(), flags: StatusFlags { wt_new: true, ..none() } },
        StatusEntry { path: "B.txt".into(), flags: StatusFlags { wt_new: true, ..none() } },
        StatusEntry { path: "a.txt".into(), flags: StatusFlags { wt_new: true, ..none() } },
        StatusEntry { path: "z".into(), flags: StatusFlags { conflicted: true, ..none() } },
        StatusEntry { path: "Y".into(), flags: StatusFlags { conflicted: true, ..none() } },
    ]);
    let unstaged: Vec<&str> = status.unstaged.iter().map(|f| f.path.as_str()).collect();
    assert_eq!(unstaged, vec!["B.txt", "a.txt", "b.txt"]);
    assert_eq!(status.conflicted, vec!["Y", "z"]);
}
