//! Decisions behind committing through the user's own `git`.
//!
//! The refusals run in a fixed order before `git` is ever spawned, and the
//! outcome of a commit attempt is never read from the exit code alone:
//! whether `HEAD` moved decides whether a commit landed, and the exit code
//! only decides which failure or warning is reported.

use vstd::prelude::*;

use vstd::string::{StrSliceExecFns, StringExecFns};

use crate::error::{CoreError, Result};
use crate::model::{CommitOutcome, CommitWarning};

verus! {

/// Abbreviated object id, as git shows it by default: the first seven
/// characters.
pub open spec fn short_of(id: Seq<char>) -> Seq<char> {
    if id.len() < 7 {
        id
    } else {
        id.take(7)
    }
}

pub fn short(id: &str) -> (r: &str)
    ensures
        r@ == short_of(id@),
{
    let n = id.unicode_len();
    let end = if n < 7 {
        n
    } else {
        7
    };
    let r = id.substring_char(0, end);
    assert(id@.subrange(0, n as int) =~= id@);
    r
}

/// Refusals of a commit, in order: a bare repository, unresolved conflicts
/// (named), nothing staged, then a live `index.lock` (named). `index_lock`
/// is the lock file's path when it exists.
pub fn commit_preflight(
    is_bare: bool,
    conflicted: Vec<String>,
    nothing_staged: bool,
    index_lock: Option<String>,
) -> (r: Result<()>)
    ensures
        is_bare ==> r matches Err(CoreError::BareRepository),
        !is_bare && conflicted@.len() > 0 ==> (r matches Err(CoreError::ConflictsPresent { paths })
            && paths@ == conflicted@),
        !is_bare && conflicted@.len() == 0 && nothing_staged ==> r matches Err(
            CoreError::NothingStaged,
        ),
        !is_bare && conflicted@.len() == 0 && !nothing_staged && index_lock is Some ==> (
        r matches Err(CoreError::IndexLocked { lock_path }) && lock_path == index_lock->0),
        !is_bare && conflicted@.len() == 0 && !nothing_staged && index_lock is None ==> r is Ok,
{
    if is_bare {
        return Err(CoreError::BareRepository);
    }
    if conflicted.len() > 0 {
        return Err(CoreError::ConflictsPresent { paths: conflicted });
    }
    if nothing_staged {
        return Err(CoreError::NothingStaged);
    }
    match index_lock {
        Some(lock_path) => Err(CoreError::IndexLocked { lock_path }),
        None => Ok(()),
    }
}

/// The author-identity pre-flight: `git var GIT_AUTHOR_IDENT` could not be
/// run at all (`ran` false), succeeded, or refused.
pub fn identity_outcome(ran: bool, succeeded: bool, git_path: String) -> (r: Result<()>)
    ensures
        !ran ==> (r matches Err(CoreError::GitUnavailable { looked_for }) && looked_for == git_path),
        ran && succeeded ==> r is Ok,
        ran && !succeeded ==> r matches Err(CoreError::IdentityMissing),
{
    if !ran {
        Err(CoreError::GitUnavailable { looked_for: git_path })
    } else if succeeded {
        Ok(())
    } else {
        Err(CoreError::IdentityMissing)
    }
}

/// What the commit subprocess itself reported. `exit_code` is `None` when
/// it was stopped by the timeout or died by a signal.
pub struct CommitAttempt {
    pub exit_code: Option<i32>,
    pub stdout: String,
    pub stderr: String,
}

/// `HEAD` before and after differ (an unborn `HEAD` is `None`).
pub open spec fn head_moved(before: Option<String>, after: Option<String>) -> bool {
    match (before, after) {
        (Some(b), Some(a)) => b@ != a@,
        (None, None) => false,
        _ => true,
    }
}

fn heads_differ(before: &Option<String>, after: &Option<String>) -> (r: bool)
    ensures
        r == head_moved(*before, *after),
{
    match (before, after) {
        (Some(b), Some(a)) => !(*b == *a),
        (None, None) => false,
        _ => true,
    }
}

/// The landed commit: the new `HEAD` and its abbreviation.
fn success(head_after: Option<String>, warning: Option<CommitWarning>) -> (outcome: CommitOutcome)
    requires
        head_after is Some,
    ensures
        outcome.id == head_after->0,
        outcome.short_id@ == short_of(head_after->0@),
        outcome.warning == warning,
{
    let id = head_after.unwrap();
    let short_id = String::from_str(short(id.as_str()));
    CommitOutcome { id, short_id, warning }
}

/// The outcome of a commit attempt. `HEAD` alone decides whether a commit
/// landed; the exit code only picks the failure or the warning:
///
/// - exit 0 and `HEAD` moved: success;
/// - non-zero exit and `HEAD` moved: success, with a warning;
/// - stopped by the timeout and `HEAD` moved: success, with a warning;
/// - `HEAD` did not move: `CommitFailed` with the exit code, or
///   `CommitTimedOut` when the process was stopped.
///
/// Output text is carried through verbatim and never inspected. `HEAD`
/// cannot disappear by a commit, so a move always ends on a commit.
pub fn outcome_from(
    head_before: Option<String>,
    head_after: Option<String>,
    attempt: CommitAttempt,
    timeout_seconds: u64,
) -> (r: Result<CommitOutcome>)
    requires
        head_moved(head_before, head_after) ==> head_after is Some,
    ensures
        r is Ok <==> head_moved(head_before, head_after),
        r matches Ok(outcome) ==> {
            &&& outcome.id == head_after->0
            &&& outcome.short_id@ == short_of(head_after->0@)
            &&& attempt.exit_code == Some(0i32) ==> outcome.warning is None
            &&& (attempt.exit_code matches Some(code) && code != 0) ==> outcome.warning == Some(
                CommitWarning::NonZeroExitButHeadMoved {
                    exit_code: attempt.exit_code->0,
                    stderr: attempt.stderr,
                },
            )
            &&& attempt.exit_code is None ==> outcome.warning == Some(
                CommitWarning::TimedOutButHeadMoved { stderr: attempt.stderr },
            )
        },
        r matches Err(e) ==> {
            &&& attempt.exit_code is Some ==> e == CoreError::CommitFailed {
                exit_code: attempt.exit_code,
                stderr: attempt.stderr,
                stdout: attempt.stdout,
            }
            &&& attempt.exit_code is None ==> e == CoreError::CommitTimedOut {
                seconds: timeout_seconds,
                stderr: attempt.stderr,
            }
        },
{
    let moved = heads_differ(&head_before, &head_after);
    match attempt.exit_code {
        Some(code) => {
            if moved {
                if code == 0 {
                    Ok(success(head_after, None))
                } else {
                    Ok(
                        success(
                            head_after,
                            Some(
                                CommitWarning::NonZeroExitButHeadMoved {
                                    exit_code: code,
                                    stderr: attempt.stderr,
                                },
                            ),
                        ),
                    )
                }
            } else {
                Err(
                    CoreError::CommitFailed {
                        exit_code: Some(code),
                        stderr: attempt.stderr,
                        stdout: attempt.stdout,
                    },
                )
            }
        },
        None => {
            if moved {
                Ok(
                    success(
                        head_after,
                        Some(CommitWarning::TimedOutButHeadMoved { stderr: attempt.stderr }),
                    ),
                )
            } else {
                Err(CoreError::CommitTimedOut { seconds: timeout_seconds, stderr: attempt.stderr })
            }
        },
    }
}

/// Where the wait for the commit subprocess stands: within the timeout,
/// within the grace period after `SIGTERM`, or after `SIGKILL`.
#[derive(Debug, Clone, Copy, PartialEq, Eq, Structural)]
pub enum WaitStage {
    Waiting,
    Terminating,
    Killing,
}

/// What to do once a wait for the subprocess has returned.
#[derive(Debug, Clone, Copy, PartialEq, Eq, Structural)]
pub enum WaitStep {
    /// The process is gone; `exit_code` is `None` when it died by a signal.
    Finished { exit_code: Option<i32> },
    /// Send `SIGTERM` to the process group, then wait out the grace period.
    SendTerm,
    /// Send `SIGKILL` to the process group, then wait without a deadline.
    SendKill,
}

/// The timeout ladder. `exited` is what the wait in `stage` observed: the
/// process's exit code when it finished (itself `None` for a signal death),
/// or `None` when the deadline passed first. After `SIGKILL` the wait has no
/// deadline, so anything it returns ends the ladder.
pub fn next_wait_step(stage: WaitStage, exited: Option<Option<i32>>) -> (step: WaitStep)
    ensures
        step == next_wait_step_spec(stage, exited),
{
    match exited {
        Some(code) => WaitStep::Finished { exit_code: code },
        None => match stage {
            WaitStage::Waiting => WaitStep::SendTerm,
            WaitStage::Terminating => WaitStep::SendKill,
            WaitStage::Killing => WaitStep::Finished { exit_code: None },
        },
    }
}

/// The stage a wait is in after a step was taken from `stage`.
pub open spec fn stage_after(stage: WaitStage, step: WaitStep) -> WaitStage {
    match step {
        WaitStep::SendTerm => WaitStage::Terminating,
        WaitStep::SendKill => WaitStage::Killing,
        WaitStep::Finished { .. } => stage,
    }
}

/// The ladder always ends: from any stage, whatever each wait observes,
/// at most two signals are sent (`SIGTERM` strictly before `SIGKILL`) and
/// the third wait finishes.
pub proof fn the_wait_ladder_ends(
    first: Option<Option<i32>>,
    second: Option<Option<i32>>,
    third: Option<Option<i32>>,
)
    ensures
        ({
            let s1 = next_wait_step_spec(WaitStage::Waiting, first);
            let st1 = stage_after(WaitStage::Waiting, s1);
            let s2 = next_wait_step_spec(st1, second);
            let st2 = stage_after(st1, s2);
            let s3 = next_wait_step_spec(st2, third);
            &&& s1 is Finished || s1 == WaitStep::SendTerm
            &&& s1 == WaitStep::SendTerm ==> (s2 is Finished || s2 == WaitStep::SendKill)
            &&& s1 == WaitStep::SendTerm && s2 == WaitStep::SendKill ==> s3 is Finished
        }),
{
}

/// The ladder's decision as a spec function.
pub open spec fn next_wait_step_spec(stage: WaitStage, exited: Option<Option<i32>>) -> WaitStep {
    match exited {
        Some(code) => WaitStep::Finished { exit_code: code },
        None => match stage {
            WaitStage::Waiting => WaitStep::SendTerm,
            WaitStage::Terminating => WaitStep::SendKill,
            WaitStage::Killing => WaitStep::Finished { exit_code: None },
        },
    }
}


/// A short id is the id's first seven characters, or the whole id when it
/// is shorter: a prefix of the id, of length `min(7, len)`.
pub proof fn a_short_id_is_a_prefix_of_seven(id: Seq<char>)
    ensures
        short_of(id).len() == if id.len() < 7 {
            id.len()
        } else {
            7
        },
        forall|k: int| 0 <= k < short_of(id).len() ==> short_of(id)[k] == id[k],
{
}

/// `HEAD` moved exactly when the readings before and after differ: one is
/// unborn and the other not, or both name commits with different ids.
pub proof fn head_moves_exactly_when_it_changes(before: Option<String>, after: Option<String>)
    ensures
        head_moved(before, after) <==> !(match (before, after) {
            (Some(b), Some(a)) => b@ == a@,
            (None, None) => true,
            _ => false,
        }),
        head_moved(before, after) == head_moved(after, before),
{
}

/// The ladder only ever escalates when a deadline passed: any exit the wait
/// observes ends it with exactly that exit code; a deadline passing while
/// waiting sends `SIGTERM`, and one passing in the grace period sends
/// `SIGKILL`.
pub proof fn the_ladder_escalates_only_on_deadlines(stage: WaitStage, code: Option<i32>)
    ensures
        next_wait_step_spec(stage, Some(code)) == (WaitStep::Finished { exit_code: code }),
        next_wait_step_spec(WaitStage::Waiting, None) == WaitStep::SendTerm,
        next_wait_step_spec(WaitStage::Terminating, None) == WaitStep::SendKill,
        next_wait_step_spec(WaitStage::Killing, None) is Finished,
{
}

} // verus!
