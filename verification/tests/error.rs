use std::collections::HashSet;

use git_core::error::decimal_text;
use git_core::CoreError;

#[test]
fn code_is_distinct_per_variant() {
    let samples = [
        CoreError::NotARepository("x".into()),
        CoreError::Invalid("x".into()),
        CoreError::GitUnavailable {
            looked_for: "git".into(),
        },
        CoreError::CommitFailed {
            exit_code: Some(1),
            stderr: String::new(),
            stdout: String::new(),
        },
        CoreError::CommitTimedOut {
            seconds: 1,
            stderr: String::new(),
        },
        CoreError::IdentityMissing,
        CoreError::ConflictsPresent { paths: vec![] },
        CoreError::IndexLocked {
            lock_path: "x".into(),
        },
        CoreError::BareRepository,
        CoreError::NothingStaged,
        CoreError::PathOutsideRepo { path: "x".into() },
    ];
    let codes: HashSet<&'static str> = samples.iter().map(CoreError::code).collect();
    assert_eq!(codes.len(), samples.len(), "duplicate `code()` value found");
}

#[test]
fn codes_are_the_wire_strings() {
    let git_error = git2::Error::from_str("boom");
    assert_eq!(CoreError::Git(git_error).code(), "git");
    assert_eq!(CoreError::NotARepository("x".into()).code(), "notARepository");
    assert_eq!(CoreError::Invalid("x".into()).code(), "invalid");
    assert_eq!(
        CoreError::GitUnavailable { looked_for: "git".into() }.code(),
        "gitUnavailable"
    );
    assert_eq!(
        CoreError::CommitFailed { exit_code: None, stderr: String::new(), stdout: String::new() }
            .code(),
        "commitFailed"
    );
    assert_eq!(
        CoreError::CommitTimedOut { seconds: 3, stderr: String::new() }.code(),
        "commitTimedOut"
    );
    assert_eq!(CoreError::IdentityMissing.code(), "identityMissing");
    assert_eq!(
        CoreError::ConflictsPresent { paths: vec!["a".into()] }.code(),
        "conflictsPresent"
    );
    assert_eq!(CoreError::IndexLocked { lock_path: "l".into() }.code(), "indexLocked");
    assert_eq!(CoreError::BareRepository.code(), "bareRepository");
    assert_eq!(CoreError::NothingStaged.code(), "nothingStaged");
    assert_eq!(CoreError::PathOutsideRepo { path: "p".into() }.code(), "pathOutsideRepo");
}

#[test]
fn messages_read_as_before() {
    let failed = CoreError::CommitFailed { exit_code: Some(-3), stderr: String::new(), stdout: String::new() };
    assert_eq!(failed.message(), "git exited with status Some(-3)");
    let failed = CoreError::CommitFailed { exit_code: None, stderr: String::new(), stdout: String::new() };
    assert_eq!(failed.message(), "git exited with status None");
    let failed = CoreError::CommitFailed { exit_code: Some(i32::MIN), stderr: String::new(), stdout: String::new() };
    assert_eq!(failed.message(), format!("git exited with status {:?}", Some(i32::MIN)));
    let timed = CoreError::CommitTimedOut { seconds: 120, stderr: String::new() };
    assert_eq!(timed.message(), "git did not finish within 120 seconds and was stopped");
    assert_eq!(
        CoreError::GitUnavailable { looked_for: "git".into() }.message(),
        "git executable not found (looked for git)"
    );
    assert_eq!(
        CoreError::IndexLocked { lock_path: "/r/.git/index.lock".into() }.message(),
        "the index is locked by another git process (/r/.git/index.lock)"
    );
    assert_eq!(CoreError::PathOutsideRepo { path: "../x".into() }.message(), "../x is outside the repository");
    assert_eq!(CoreError::Invalid("boom".into()).message(), "boom");
    assert_eq!(CoreError::NothingStaged.message(), "nothing is staged");
    assert_eq!(
        CoreError::IdentityMissing.message(),
        "no author identity configured — set user.name and user.email"
    );
    assert!(CoreError::Git(git2::Error::from_str("bad ref")).message().starts_with("bad ref"));
    assert!(CoreError::ConflictsPresent { paths: vec![] }.has_details());
    assert!(!CoreError::BareRepository.has_details());
}

#[test]
fn decimals_are_written_like_display() {
    for n in [0u64, 7, 10, 99, 120, 1_000_000, u64::MAX] {
        assert_eq!(decimal_text(n), n.to_string());
    }
}
