use git_core::commit::{
    commit_preflight, identity_outcome, next_wait_step, outcome_from, short, CommitAttempt,
    WaitStage, WaitStep,
};
use git_core::model::CommitWarning;
use git_core::CoreError;

const HEAD_A: &str = "05ac0b6171bf93e5417b5c6f642f6fd685859c67";
const HEAD_B: &str = "0a4ed91abcc1f495967477fd6192e477f68b21f5";

fn attempt(exit_code: Option<i32>, stdout: &str, stderr: &str) -> CommitAttempt {
    CommitAttempt {
        exit_code,
        stdout: stdout.to_string(),
        stderr: stderr.to_string(),
    }
}

#[test]
fn a_rejected_attempt_that_leaves_head_alone_is_commit_failed() {
    // The hook exits 1 and HEAD stays put: a failure carrying the hook's stderr.
    let err = outcome_from(
        Some(HEAD_A.to_string()),
        Some(HEAD_A.to_string()),
        attempt(Some(1), "", "HOOK RAN — rejecting\n"),
        120,
    )
    .unwrap_err();
    match err {
        CoreError::CommitFailed { stderr, .. } => {
            assert!(
                stderr.contains("HOOK RAN — rejecting"),
                "expected the hook's own stderr verbatim, got: {stderr}"
            );
        }
        other => panic!("expected CommitFailed, got {other:?}"),
    }
    // Positive control: the identical path with a passing hook succeeds.
    let outcome = outcome_from(
        Some(HEAD_A.to_string()),
        Some(HEAD_B.to_string()),
        attempt(Some(0), "", ""),
        120,
    )
    .expect("a passing hook must let the commit through");
    assert!(outcome.warning.is_none());
}

#[test]
fn a_first_head_after_an_unborn_one_is_a_success() {
    let outcome = outcome_from(None, Some(HEAD_A.to_string()), attempt(Some(0), "", ""), 120)
        .expect("commit must succeed on an unborn branch");
    assert!(outcome.warning.is_none());
    assert_eq!(outcome.id, HEAD_A);
    assert_eq!(outcome.short_id, "05ac0b6");
}

#[test]
fn a_moved_detached_head_is_a_success() {
    let outcome = outcome_from(
        Some(HEAD_A.to_string()),
        Some(HEAD_B.to_string()),
        attempt(Some(0), "[detached HEAD 0a4ed91] detached commit\n", ""),
        120,
    )
    .expect("commit must succeed on a detached HEAD");
    assert_eq!(outcome.id, HEAD_B);
    assert!(outcome.warning.is_none());
}

#[test]
fn a_timeout_without_a_head_move_is_commit_timed_out() {
    let err = outcome_from(
        Some(HEAD_A.to_string()),
        Some(HEAD_A.to_string()),
        attempt(None, "", ""),
        0,
    )
    .unwrap_err();
    match err {
        CoreError::CommitTimedOut { seconds, .. } => assert_eq!(seconds, 0),
        other => panic!("expected CommitTimedOut, got {other:?}"),
    }
}

#[test]
fn a_timeout_after_a_head_move_is_a_warning() {
    let outcome = outcome_from(
        Some(HEAD_A.to_string()),
        Some(HEAD_B.to_string()),
        attempt(None, "", "still hanging"),
        0,
    )
    .expect("HEAD moved — this must be Ok with a warning, never an Err");
    assert!(matches!(
        outcome.warning,
        Some(CommitWarning::TimedOutButHeadMoved { .. })
    ));
    assert_eq!(outcome.id, HEAD_B);
}

#[test]
fn a_nonzero_exit_without_a_head_move_is_commit_failed() {
    let err = outcome_from(
        Some(HEAD_A.to_string()),
        Some(HEAD_A.to_string()),
        attempt(Some(128), "", "gpg failed to sign the data\n"),
        120,
    )
    .unwrap_err();
    match err {
        CoreError::CommitFailed {
            exit_code, stderr, ..
        } => {
            assert_eq!(exit_code, Some(128));
            assert!(stderr.contains("gpg failed to sign the data"));
        }
        other => panic!("expected CommitFailed, got {other:?}"),
    }
}

#[test]
fn nonzero_exit_but_head_moved_is_a_warning() {
    let outcome = outcome_from(
        Some(HEAD_A.to_string()),
        Some(HEAD_B.to_string()),
        attempt(Some(1), "", "post-commit hook grumbled"),
        120,
    )
    .unwrap();
    match outcome.warning {
        Some(CommitWarning::NonZeroExitButHeadMoved { exit_code, stderr }) => {
            assert_eq!(exit_code, 1);
            assert_eq!(stderr, "post-commit hook grumbled");
        }
        other => panic!("expected NonZeroExitButHeadMoved, got {other:?}"),
    }
}

#[test]
fn exit_zero_without_a_head_move_is_still_a_failure() {
    let err = outcome_from(None, None, attempt(Some(0), "nothing", "err"), 120).unwrap_err();
    match err {
        CoreError::CommitFailed { exit_code, stderr, stdout } => {
            assert_eq!(exit_code, Some(0));
            assert_eq!(stderr, "err");
            assert_eq!(stdout, "nothing");
        }
        other => panic!("expected CommitFailed, got {other:?}"),
    }
}

#[test]
fn an_identity_check_that_cannot_run_is_git_unavailable() {
    let err = identity_outcome(false, false, "/tmp/no-such-file-here".to_string()).unwrap_err();
    assert!(matches!(err, CoreError::GitUnavailable { .. }));
}

#[test]
fn a_refused_identity_check_is_identity_missing() {
    let err = identity_outcome(true, false, "/tmp/fake-git".to_string()).unwrap_err();
    assert!(matches!(err, CoreError::IdentityMissing));
    assert!(identity_outcome(true, true, "/tmp/fake-git".to_string()).is_ok());
}

#[test]
fn nothing_staged_is_refused() {
    let err = commit_preflight(false, Vec::new(), true, None).unwrap_err();
    assert!(matches!(err, CoreError::NothingStaged));
}

#[test]
fn preflight_refusals_come_in_order() {
    assert!(matches!(
        commit_preflight(true, vec!["a".into()], true, Some("lock".into())),
        Err(CoreError::BareRepository)
    ));
    match commit_preflight(false, vec!["a".into(), "b".into()], true, Some("lock".into())) {
        Err(CoreError::ConflictsPresent { paths }) => assert_eq!(paths, vec!["a", "b"]),
        other => panic!("expected ConflictsPresent, got {other:?}"),
    }
    match commit_preflight(false, Vec::new(), false, Some("/r/.git/index.lock".into())) {
        Err(CoreError::IndexLocked { lock_path }) => assert_eq!(lock_path, "/r/.git/index.lock"),
        other => panic!("expected IndexLocked, got {other:?}"),
    }
    assert!(commit_preflight(false, Vec::new(), false, None).is_ok());
}

#[test]
fn short_ids_are_seven_characters() {
    assert_eq!(short(HEAD_A), "05ac0b6");
    assert_eq!(short("abc"), "abc");
    assert_eq!(short(""), "");
}

#[test]
fn the_timeout_ladder_escalates_then_ends() {
    assert_eq!(next_wait_step(WaitStage::Waiting, Some(Some(0))), WaitStep::Finished { exit_code: Some(0) });
    assert_eq!(next_wait_step(WaitStage::Waiting, None), WaitStep::SendTerm);
    assert_eq!(next_wait_step(WaitStage::Terminating, Some(None)), WaitStep::Finished { exit_code: None });
    assert_eq!(next_wait_step(WaitStage::Terminating, None), WaitStep::SendKill);
    assert_eq!(next_wait_step(WaitStage::Killing, None), WaitStep::Finished { exit_code: None });
    assert_eq!(next_wait_step(WaitStage::Killing, Some(Some(9))), WaitStep::Finished { exit_code: Some(9) });
}
