//! Decisions behind staging and unstaging.
//!
//! Every refusal fires before any mutation: a bare repository, unresolved
//! conflicts or a live index lock refuse the whole write, and every requested
//! path is normalised
//! before the first one is touched. Each listed path is then staged or
//! unstaged on its own; a path that no longer exists anywhere is skipped and
//! reported instead of failing the batch.

use vstd::prelude::*;

use crate::error::{CoreError, Result};
use crate::model::{SkipReason, SkippedPath, WorkingStatus, WriteOutcome};
use crate::paths::{normalise_repo_path, normalised};
use crate::sort::{lemma_arrangement_covers, sort_by_key, sorted_by_key, stable_arrangement, stably_sorted, SortKey};
use crate::status::text_key;

verus! {

impl SortKey for SkippedPath {
    open spec fn sort_key(&self) -> Seq<u8> {
        text_key(self.path)
    }

    fn key_less(&self, other: &Self) -> (r: bool) {
        crate::sort::slice_less(self.path.as_str().as_bytes(), other.path.as_str().as_bytes())
    }
}

/// Skipped paths are listed in the byte order of their paths.
pub proof fn skipped_list_in_path_order(skipped: Seq<SkippedPath>, i: int, j: int)
    requires
        crate::sort::sorted_by_key(skipped),
        0 <= i < j < skipped.len(),
    ensures
        crate::sort::bytes_le(
            vstd::utf8::encode_utf8(skipped[i].path@),
            vstd::utf8::encode_utf8(skipped[j].path@),
        ),
{
    assert(crate::sort::bytes_le(skipped[i].sort_key(), skipped[j].sort_key()));
}

/// Refusals of a write, in order, before anything is changed: a bare
/// repository, unresolved conflicts (named), then a live `index.lock`
/// (named; it is never removed). `index_lock` is the lock file's path when
/// it exists.
pub fn write_preflight(is_bare: bool, conflicted: Vec<String>, index_lock: Option<String>) -> (r:
    Result<()>)
    ensures
        is_bare ==> r matches Err(CoreError::BareRepository),
        !is_bare && conflicted@.len() > 0 ==> (r matches Err(CoreError::ConflictsPresent { paths })
            && paths@ == conflicted@),
        !is_bare && conflicted@.len() == 0 && index_lock is Some ==> (r matches Err(
            CoreError::IndexLocked { lock_path },
        ) && lock_path == index_lock->0),
        !is_bare && conflicted@.len() == 0 && index_lock is None ==> r is Ok,
{
    if is_bare {
        return Err(CoreError::BareRepository);
    }
    if conflicted.len() > 0 {
        return Err(CoreError::ConflictsPresent { paths: conflicted });
    }
    match index_lock {
        Some(lock_path) => Err(CoreError::IndexLocked { lock_path }),
        None => Ok(()),
    }
}

/// Every path normalised, or the refusal of the first one that escapes.
pub fn normalise_all(paths: &Vec<String>) -> (r: Result<Vec<String>>)
    ensures
        match r {
            Ok(normal) => normal@.len() == paths@.len() && forall|i: int|
                0 <= i < paths@.len() ==> normalised(paths@[i]@) == Some(#[trigger] normal@[i]@),
            Err(e) => exists|i: int|
                {
                    &&& 0 <= i < paths@.len()
                    &&& normalised(#[trigger] paths@[i]@) is None
                    &&& forall|j: int| 0 <= j < i ==> normalised(paths@[j]@) is Some
                    &&& e matches CoreError::PathOutsideRepo { path } && path@ == paths@[i]@
                },
        },
{
    let mut normal: Vec<String> = Vec::new();
    let mut i: usize = 0;
    while i < paths.len()
        invariant
            0 <= i <= paths@.len(),
            normal@.len() == i,
            forall|j: int| 0 <= j < i ==> normalised(paths@[j]@) == Some(#[trigger] normal@[j]@),
        decreases paths@.len() - i,
    {
        match normalise_repo_path(paths[i].as_str()) {
            Ok(path) => normal.push(path),
            Err(e) => {
                assert(normalised(paths@[i as int]@) is None);
                assert(forall|j: int| 0 <= j < i ==> normalised(paths@[j]@) is Some) by {
                    assert forall|j: int| 0 <= j < i implies normalised(paths@[j]@) is Some by {
                        assert(normalised(paths@[j]@) == Some(normal@[j]@));
                    }
                }
                return Err(e);
            },
        }
        i += 1;
    }
    Ok(normal)
}

/// What staging one listed path does.
#[derive(Debug, Clone, Copy, PartialEq, Eq, Structural)]
pub enum StageAction {
    /// The file is on disk: stage its content, added or modified alike.
    Add,
    /// Gone from disk but still in the index or in `HEAD`: stage the deletion.
    Remove,
    /// In neither the working tree, the index nor `HEAD`: already gone.
    Skip,
}

pub fn stage_action(on_disk: bool, known: bool) -> (action: StageAction)
    ensures
        on_disk ==> action == StageAction::Add,
        !on_disk && known ==> action == StageAction::Remove,
        !on_disk && !known ==> action == StageAction::Skip,
{
    if on_disk {
        StageAction::Add
    } else if known {
        StageAction::Remove
    } else {
        StageAction::Skip
    }
}

/// What unstaging one listed path does. The file on disk is never read,
/// written or deleted.
#[derive(Debug, Clone, Copy, PartialEq, Eq, Structural)]
pub enum UnstageAction {
    /// The path is in the `HEAD` tree: restore its index entry from there.
    RestoreFromHead,
    /// `HEAD` is unborn or lacks the path, but the index has it: the file
    /// becomes untracked again.
    Remove,
    /// Neither `HEAD` nor the index has it.
    Skip,
}

pub fn unstage_action(in_head: bool, in_index: bool) -> (action: UnstageAction)
    ensures
        in_head ==> action == UnstageAction::RestoreFromHead,
        !in_head && in_index ==> action == UnstageAction::Remove,
        !in_head && !in_index ==> action == UnstageAction::Skip,
{
    if in_head {
        UnstageAction::RestoreFromHead
    } else if in_index {
        UnstageAction::Remove
    } else {
        UnstageAction::Skip
    }
}

/// The record of a listed path that was skipped because it vanished.
pub fn vanished(path: String) -> (skipped: SkippedPath)
    ensures
        skipped.path == path,
        skipped.reason == SkipReason::Vanished,
{
    SkippedPath { path, reason: SkipReason::Vanished }
}

/// The paths of a batch that were skipped, in listing order: those whose
/// flag in `skip` is set, each recorded as vanished.
pub open spec fn skipped_of(paths: Seq<String>, skip: Seq<bool>) -> Seq<SkippedPath>
    decreases paths.len(),
{
    if paths.len() == 0 {
        Seq::empty()
    } else {
        let prev = skipped_of(paths.drop_last(), skip.drop_last());
        if skip.last() {
            prev.push(SkippedPath { path: paths.last(), reason: SkipReason::Vanished })
        } else {
            prev
        }
    }
}

/// `skipped` names `p`.
pub open spec fn reports_path(skipped: Seq<SkippedPath>, p: String) -> bool {
    exists|k: int| 0 <= k < skipped.len() && (#[trigger] skipped[k]).path == p
}

/// `p` was listed, and was neither on disk nor known to the index or `HEAD`.
pub open spec fn vanished_in(paths: Seq<String>, on_disk: Seq<bool>, known: Seq<bool>, p: String) -> bool {
    exists|i: int| 0 <= i < paths.len() && !on_disk[i] && !known[i] && #[trigger] paths[i] == p
}

proof fn lemma_skipped_of_members(paths: Seq<String>, skip: Seq<bool>)
    requires
        skip.len() == paths.len(),
    ensures
        forall|k: int|
            0 <= k < skipped_of(paths, skip).len() ==> exists|i: int|
                0 <= i < paths.len() && skip[i] && #[trigger] skipped_of(paths, skip)[k]
                    == (SkippedPath { path: paths[i], reason: SkipReason::Vanished }),
        forall|i: int|
            0 <= i < paths.len() && #[trigger] skip[i] ==> exists|k: int|
                0 <= k < skipped_of(paths, skip).len() && skipped_of(paths, skip)[k].path
                    == paths[i],
    decreases paths.len(),
{
    if paths.len() > 0 {
        let init = paths.drop_last();
        let sinit = skip.drop_last();
        lemma_skipped_of_members(init, sinit);
        let prev = skipped_of(init, sinit);
        let cur = skipped_of(paths, skip);
        assert forall|k: int| 0 <= k < cur.len() implies exists|i: int|
            0 <= i < paths.len() && skip[i] && #[trigger] cur[k] == (SkippedPath {
                path: paths[i],
                reason: SkipReason::Vanished,
            }) by {
            if k < prev.len() {
                let i = choose|i: int|
                    0 <= i < init.len() && sinit[i] && #[trigger] prev[k] == (SkippedPath {
                        path: init[i],
                        reason: SkipReason::Vanished,
                    });
                assert(cur[k] == prev[k]);
                assert(paths[i] == init[i] && skip[i] == sinit[i]);
            } else {
                assert(cur[k] == (SkippedPath {
                    path: paths[paths.len() - 1],
                    reason: SkipReason::Vanished,
                }));
            }
        }
        assert forall|i: int| 0 <= i < paths.len() && #[trigger] skip[i] implies exists|k: int|
            0 <= k < cur.len() && cur[k].path == paths[i] by {
            if i < paths.len() - 1 {
                assert(sinit[i] == skip[i]);
                let k = choose|k: int| 0 <= k < prev.len() && prev[k].path == init[i];
                assert(cur[k] == prev[k]);
            } else {
                assert(cur[prev.len() as int].path == paths[i]);
            }
        }
    }
}

/// A write reports exactly its vanished paths: when each listed path is
/// flagged as skipped exactly when it was neither on disk nor known to the
/// index or `HEAD` (as `stage_action` decides), the outcome's skipped list
/// names those paths and no others, each as vanished, in path order.
pub proof fn a_write_reports_exactly_its_vanished_paths(
    paths: Seq<String>,
    on_disk: Seq<bool>,
    known: Seq<bool>,
    skip: Seq<bool>,
    skipped: Seq<SkippedPath>,
)
    requires
        on_disk.len() == paths.len(),
        known.len() == paths.len(),
        skip.len() == paths.len(),
        forall|i: int| 0 <= i < paths.len() ==> skip[i] == (!on_disk[i] && !known[i]),
        stably_sorted(skipped, skipped_of(paths, skip)),
    ensures
        sorted_by_key(skipped),
        forall|k: int| 0 <= k < skipped.len() ==> (#[trigger] skipped[k]).reason == SkipReason::Vanished,
        forall|p: String| #[trigger]
            reports_path(skipped, p) <==> vanished_in(paths, on_disk, known, p),
{
    let inp = skipped_of(paths, skip);
    lemma_skipped_of_members(paths, skip);
    let idx = choose|idx: Seq<int>| stable_arrangement(skipped, inp, idx);
    assert forall|k: int| 0 <= k < skipped.len() implies (#[trigger] skipped[k]).reason
        == SkipReason::Vanished by {
        assert(skipped[k] == inp[idx[k]]);
        let i = choose|i: int|
            0 <= i < paths.len() && skip[i] && #[trigger] inp[idx[k]] == (SkippedPath {
                path: paths[i],
                reason: SkipReason::Vanished,
            });
    }
    assert forall|p: String| #[trigger] reports_path(skipped, p) implies vanished_in(
        paths,
        on_disk,
        known,
        p,
    ) by {
        let k = choose|k: int| 0 <= k < skipped.len() && (#[trigger] skipped[k]).path == p;
        assert(skipped[k] == inp[idx[k]]);
        let i = choose|i: int|
            0 <= i < paths.len() && skip[i] && #[trigger] inp[idx[k]] == (SkippedPath {
                path: paths[i],
                reason: SkipReason::Vanished,
            });
        assert(paths[i] == p);
    }
    assert forall|p: String| #[trigger] vanished_in(paths, on_disk, known, p) implies reports_path(
        skipped,
        p,
    ) by {
        let i = choose|i: int| 0 <= i < paths.len() && !on_disk[i] && !known[i] && #[trigger] paths[i] == p;
        assert(skip[i]);
        let t = choose|t: int| 0 <= t < inp.len() && inp[t].path == paths[i];
        lemma_arrangement_covers(skipped, inp, idx, t);
        let k = choose|k: int| 0 <= k < idx.len() && idx[k] == t;
        assert(skipped[k] == inp[t]);
    }
}

/// The result of a write: the recomputed listing, and exactly the listed
/// paths that were skipped (`skip[i]` for `paths[i]`), sorted by path like
/// every other list.
pub fn write_outcome(status: WorkingStatus, paths: &Vec<String>, skip: &Vec<bool>) -> (outcome:
    WriteOutcome)
    requires
        skip@.len() == paths@.len(),
    ensures
        outcome.status == status,
        stably_sorted(outcome.skipped@, skipped_of(paths@, skip@)),
{
    let mut skipped: Vec<SkippedPath> = Vec::new();
    let mut i: usize = 0;
    while i < paths.len()
        invariant
            skip@.len() == paths@.len(),
            0 <= i <= paths@.len(),
            skipped@ == skipped_of(paths@.take(i as int), skip@.take(i as int)),
        decreases paths@.len() - i,
    {
        proof {
            assert(paths@.take(i + 1).drop_last() =~= paths@.take(i as int));
            assert(skip@.take(i + 1).drop_last() =~= skip@.take(i as int));
        }
        if skip[i] {
            skipped.push(vanished(paths[i].clone()));
        }
        i += 1;
    }
    assert(paths@.take(paths@.len() as int) =~= paths@);
    assert(skip@.take(skip@.len() as int) =~= skip@);
    WriteOutcome { status, skipped: sort_by_key(skipped) }
}

} // verus!
