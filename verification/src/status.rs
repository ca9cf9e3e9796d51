//! The working-directory listing: staged, unstaged and conflicted paths.

use vstd::prelude::*;

use crate::model::{ChangeStatus, FileChange, WorkingStatus};
use crate::sort::{slice_less, sort_by_key, stably_sorted, SortKey};

verus! {

/// The bytes `str::cmp` compares.
pub open spec fn text_key(s: String) -> Seq<u8> {
    vstd::utf8::encode_utf8(s@)
}

fn text_less(a: &String, b: &String) -> (r: bool)
    ensures
        r == crate::sort::bytes_lt(text_key(*a), text_key(*b)),
{
    slice_less(a.as_str().as_bytes(), b.as_str().as_bytes())
}

impl SortKey for String {
    open spec fn sort_key(&self) -> Seq<u8> {
        text_key(*self)
    }

    fn key_less(&self, other: &Self) -> (r: bool) {
        text_less(self, other)
    }
}

impl SortKey for FileChange {
    open spec fn sort_key(&self) -> Seq<u8> {
        text_key(self.path)
    }

    fn key_less(&self, other: &Self) -> (r: bool) {
        text_less(&self.path, &other.path)
    }
}

/// Changed files are listed in the byte order of their paths, the order
/// `str::cmp` gives: in a sorted listing no path comes after a larger one.
pub proof fn changes_list_in_path_order(files: Seq<FileChange>, i: int, j: int)
    requires
        crate::sort::sorted_by_key(files),
        0 <= i < j < files.len(),
    ensures
        crate::sort::bytes_le(
            vstd::utf8::encode_utf8(files[i].path@),
            vstd::utf8::encode_utf8(files[j].path@),
        ),
{
    assert(crate::sort::bytes_le(files[i].sort_key(), files[j].sort_key()));
}

/// Conflicted paths are listed in the byte order of the paths.
pub proof fn paths_list_in_byte_order(paths: Seq<String>, i: int, j: int)
    requires
        crate::sort::sorted_by_key(paths),
        0 <= i < j < paths.len(),
    ensures
        crate::sort::bytes_le(
            vstd::utf8::encode_utf8(paths[i]@),
            vstd::utf8::encode_utf8(paths[j]@),
        ),
{
    assert(crate::sort::bytes_le(paths[i].sort_key(), paths[j].sort_key()));
}

/// What the status walk reports for one path, as plain flags.
#[derive(Debug, Clone, Copy)]
pub struct StatusFlags {
    pub conflicted: bool,
    pub index_new: bool,
    pub index_deleted: bool,
    pub index_renamed: bool,
    pub index_typechange: bool,
    pub index_modified: bool,
    pub wt_new: bool,
    pub wt_deleted: bool,
    pub wt_renamed: bool,
    pub wt_typechange: bool,
    pub wt_modified: bool,
}

/// One path of the status walk.
#[derive(Debug, Clone)]
pub struct StatusEntry {
    pub path: String,
    pub flags: StatusFlags,
}

/// The change between `HEAD` and the index, in order of precedence.
pub open spec fn index_status_of(flags: StatusFlags) -> Option<ChangeStatus> {
    if flags.index_new {
        Some(ChangeStatus::Added)
    } else if flags.index_deleted {
        Some(ChangeStatus::Deleted)
    } else if flags.index_renamed {
        Some(ChangeStatus::Renamed)
    } else if flags.index_typechange {
        Some(ChangeStatus::TypeChange)
    } else if flags.index_modified {
        Some(ChangeStatus::Modified)
    } else {
        None
    }
}

/// The change between the index and the working tree, in order of
/// precedence; a new file in the working tree is untracked.
pub open spec fn workdir_status_of(flags: StatusFlags) -> Option<ChangeStatus> {
    if flags.wt_new {
        Some(ChangeStatus::Untracked)
    } else if flags.wt_deleted {
        Some(ChangeStatus::Deleted)
    } else if flags.wt_renamed {
        Some(ChangeStatus::Renamed)
    } else if flags.wt_typechange {
        Some(ChangeStatus::TypeChange)
    } else if flags.wt_modified {
        Some(ChangeStatus::Modified)
    } else {
        None
    }
}

pub fn index_status(flags: StatusFlags) -> (r: Option<ChangeStatus>)
    ensures
        r == index_status_of(flags),
{
    if flags.index_new {
        Some(ChangeStatus::Added)
    } else if flags.index_deleted {
        Some(ChangeStatus::Deleted)
    } else if flags.index_renamed {
        Some(ChangeStatus::Renamed)
    } else if flags.index_typechange {
        Some(ChangeStatus::TypeChange)
    } else if flags.index_modified {
        Some(ChangeStatus::Modified)
    } else {
        None
    }
}

pub fn workdir_status(flags: StatusFlags) -> (r: Option<ChangeStatus>)
    ensures
        r == workdir_status_of(flags),
{
    if flags.wt_new {
        Some(ChangeStatus::Untracked)
    } else if flags.wt_deleted {
        Some(ChangeStatus::Deleted)
    } else if flags.wt_renamed {
        Some(ChangeStatus::Renamed)
    } else if flags.wt_typechange {
        Some(ChangeStatus::TypeChange)
    } else if flags.wt_modified {
        Some(ChangeStatus::Modified)
    } else {
        None
    }
}

/// A listed change with no rename source, no line counts and no binary flag.
pub open spec fn simple_change_of(path: String, status: ChangeStatus) -> FileChange {
    FileChange {
        path,
        old_path: None,
        status,
        insertions: 0,
        deletions: 0,
        is_binary: false,
    }
}

pub fn simple_change(path: String, status: ChangeStatus) -> (change: FileChange)
    ensures
        change == simple_change_of(path, status),
{
    FileChange { path, old_path: None, status, insertions: 0, deletions: 0, is_binary: false }
}

/// Staged changes of the walk, in walk order: every entry that is not
/// conflicted and differs between `HEAD` and the index.
pub open spec fn staged_of(entries: Seq<StatusEntry>) -> Seq<FileChange>
    decreases entries.len(),
{
    if entries.len() == 0 {
        Seq::empty()
    } else {
        let prev = staged_of(entries.drop_last());
        let e = entries.last();
        if !e.flags.conflicted && index_status_of(e.flags) is Some {
            prev.push(simple_change_of(e.path, index_status_of(e.flags)->0))
        } else {
            prev
        }
    }
}

/// Unstaged changes of the walk, in walk order: every entry that is not
/// conflicted and differs between the index and the working tree.
pub open spec fn unstaged_of(entries: Seq<StatusEntry>) -> Seq<FileChange>
    decreases entries.len(),
{
    if entries.len() == 0 {
        Seq::empty()
    } else {
        let prev = unstaged_of(entries.drop_last());
        let e = entries.last();
        if !e.flags.conflicted && workdir_status_of(e.flags) is Some {
            prev.push(simple_change_of(e.path, workdir_status_of(e.flags)->0))
        } else {
            prev
        }
    }
}

/// Conflicted paths of the walk, in walk order.
pub open spec fn conflicted_of(entries: Seq<StatusEntry>) -> Seq<String>
    decreases entries.len(),
{
    if entries.len() == 0 {
        Seq::empty()
    } else {
        let prev = conflicted_of(entries.drop_last());
        let e = entries.last();
        if e.flags.conflicted {
            prev.push(e.path)
        } else {
            prev
        }
    }
}

/// An entry the index changed: not conflicted, and new, deleted, renamed,
/// retyped or modified in the index.
pub open spec fn index_changed() -> spec_fn(StatusEntry) -> bool {
    |e: StatusEntry|
        !e.flags.conflicted && (e.flags.index_new || e.flags.index_deleted || e.flags.index_renamed
            || e.flags.index_typechange || e.flags.index_modified)
}

/// An entry the working tree changed: not conflicted, and new, deleted,
/// renamed, retyped or modified in the working tree.
pub open spec fn worktree_changed() -> spec_fn(StatusEntry) -> bool {
    |e: StatusEntry|
        !e.flags.conflicted && (e.flags.wt_new || e.flags.wt_deleted || e.flags.wt_renamed
            || e.flags.wt_typechange || e.flags.wt_modified)
}

/// A conflicted entry.
pub open spec fn in_conflict() -> spec_fn(StatusEntry) -> bool {
    |e: StatusEntry| e.flags.conflicted
}

/// What the listing holds, entry by entry: one staged change for each entry
/// the index changed and one unstaged change for each entry the working tree
/// changed, in walk order, each with that entry's path, no rename source, no
/// line counts and no binary mark; a file new to the index is staged as
/// added, one new to the working tree is unstaged as untracked; and the
/// conflicted list holds the paths of exactly the conflicted entries, which
/// appear in neither other list.
pub proof fn the_listing_holds_each_entry_where_it_changed(entries: Seq<StatusEntry>)
    ensures
        staged_of(entries).len() == entries.filter(index_changed()).len(),
        forall|k: int|
            0 <= k < staged_of(entries).len() ==> {
                let e = entries.filter(index_changed())[k];
                let c = #[trigger] staged_of(entries)[k];
                &&& c.path == e.path
                &&& c.old_path is None && c.insertions == 0 && c.deletions == 0 && !c.is_binary
                &&& e.flags.index_new ==> c.status == ChangeStatus::Added
                &&& !e.flags.conflicted
            },
        unstaged_of(entries).len() == entries.filter(worktree_changed()).len(),
        forall|k: int|
            0 <= k < unstaged_of(entries).len() ==> {
                let e = entries.filter(worktree_changed())[k];
                let c = #[trigger] unstaged_of(entries)[k];
                &&& c.path == e.path
                &&& c.old_path is None && c.insertions == 0 && c.deletions == 0 && !c.is_binary
                &&& e.flags.wt_new ==> c.status == ChangeStatus::Untracked
                &&& !e.flags.conflicted
            },
        conflicted_of(entries).len() == entries.filter(in_conflict()).len(),
        forall|k: int|
            0 <= k < conflicted_of(entries).len() ==> #[trigger] conflicted_of(entries)[k]
                == entries.filter(in_conflict())[k].path,
    decreases entries.len(),
{
    reveal(Seq::filter);
    if entries.len() > 0 {
        the_listing_holds_each_entry_where_it_changed(entries.drop_last());
    }
}

/// Staged, unstaged and conflicted paths in the working directory, each list
/// sorted by path. A conflicted path appears in the conflicted list only; any
/// other path appears among the staged changes when the index differs from
/// `HEAD` and among the unstaged ones when the working tree differs from the
/// index.
pub fn working_status(entries: Vec<StatusEntry>) -> (status: WorkingStatus)
    ensures
        stably_sorted(status.staged@, staged_of(entries@)),
        stably_sorted(status.unstaged@, unstaged_of(entries@)),
        stably_sorted(status.conflicted@, conflicted_of(entries@)),
{
    let mut staged: Vec<FileChange> = Vec::new();
    let mut unstaged: Vec<FileChange> = Vec::new();
    let mut conflicted: Vec<String> = Vec::new();
    let mut i: usize = 0;
    while i < entries.len()
        invariant
            0 <= i <= entries@.len(),
            staged@ == staged_of(entries@.subrange(0, i as int)),
            unstaged@ == unstaged_of(entries@.subrange(0, i as int)),
            conflicted@ == conflicted_of(entries@.subrange(0, i as int)),
        decreases entries@.len() - i,
    {
        let ghost prefix = entries@.subrange(0, i + 1);
        assert(prefix.drop_last() =~= entries@.subrange(0, i as int));
        assert(prefix.last() == entries@[i as int]);
        let entry = &entries[i];
        let path = entry.path.clone();
        let flags = entry.flags;
        if flags.conflicted {
            conflicted.push(path);
        } else {
            if let Some(status) = index_status(flags) {
                staged.push(simple_change(path.clone(), status));
            }
            if let Some(status) = workdir_status(flags) {
                unstaged.push(simple_change(path, status));
            }
        }
        i += 1;
    }
    assert(entries@.subrange(0, entries@.len() as int) =~= entries@);
    // The walk's own order follows the filesystem's case sensitivity; sorting
    // here makes the same repository report the same order everywhere.
    WorkingStatus {
        staged: sort_by_key(staged),
        unstaged: sort_by_key(unstaged),
        conflicted: sort_by_key(conflicted),
    }
}

} // verus!
