use git_core::commit::identity_outcome;
use git_core::git_binary::{
    commit_arguments, commit_timeout_secs, parse_u64, probe, removed_env_vars, resolve, set_env_vars,
    version_line, GRACE_SECS, POLL_MILLIS,
};
use git_core::CoreError;

#[test]
fn explicit_override_beats_env_var() {
    let resolved = resolve(
        Some("/definitely/not/a/real/git/path/from/override"),
        Some("/definitely/not/a/real/git/path/from/env".to_string()),
        Some("/usr/bin/git".to_string()),
    )
    .expect("resolve with an explicit override never fails — validation is probe's job");
    assert_eq!(resolved.path, "/definitely/not/a/real/git/path/from/override");
}

#[test]
fn env_var_beats_path_when_no_override_given() {
    let resolved = resolve(
        None,
        Some("/definitely/not/a/real/git/path/from/env".to_string()),
        Some("/usr/bin/git".to_string()),
    )
    .expect("resolve with only an env var never fails");
    assert_eq!(resolved.path, "/definitely/not/a/real/git/path/from/env");
}

#[test]
fn path_lookup_is_used_when_nothing_else_is_given() {
    let resolved = resolve(None, None, Some("/usr/bin/git".to_string()))
        .expect("a `git` found on PATH resolves");
    assert_eq!(resolved.path, "/usr/bin/git");
    // Empty values count as absent.
    let resolved = resolve(Some(""), Some(String::new()), Some("/usr/bin/git".to_string()))
        .expect("empty override and env var fall through to PATH");
    assert_eq!(resolved.path, "/usr/bin/git");
}

#[test]
fn nothing_resolved_is_git_unavailable() {
    match resolve(None, None, None) {
        Err(CoreError::GitUnavailable { looked_for }) => assert_eq!(
            looked_for,
            "git (explicit override, GITVISOR_GIT_PATH, then PATH) — none resolved"
        ),
        other => panic!("expected GitUnavailable, got {:?}", other.map(|r| r.path)),
    }
}

#[test]
fn probe_rejects_a_candidate_pointed_at_a_non_git_executable() {
    // `/bin/ls --version` runs fine but does not announce itself as git.
    let resolved = resolve(Some("/bin/ls"), None, None).unwrap();
    let version = version_line(true, "ls (GNU coreutils) 9.4\nCopyright ...\n");
    let probed = probe(Some(resolved.path), version);
    assert!(
        !probed.available,
        "probe must reject a candidate whose --version output is not git's"
    );
    assert_eq!(probed.path.as_deref(), Some("/bin/ls"));
    assert_eq!(probed.version, None);
}

#[test]
fn probe_rejects_a_candidate_pointed_at_a_directory() {
    // A directory is never run: it fails validation with no version line.
    let resolved = resolve(Some("/tmp/some-directory"), None, None).unwrap();
    let probed = probe(Some(resolved.path), None);
    assert!(!probed.available, "probe must reject a directory");
}

#[test]
fn probe_reports_the_real_git_as_available() {
    let version = version_line(true, "git version 2.43.0\n");
    let probed = probe(Some("/usr/bin/git".to_string()), version);
    assert!(probed.available);
    assert!(probed
        .version
        .as_deref()
        .is_some_and(|v| v.starts_with("git version ")));
    assert_eq!(probed.version.as_deref(), Some("git version 2.43.0"));
}

#[test]
fn probe_without_a_candidate_reports_nothing() {
    let probed = probe(None, Some("git version 1".to_string()));
    assert!(!probed.available);
    assert_eq!(probed.path, None);
    assert_eq!(probed.version, None);
}

#[test]
fn version_line_needs_success_and_the_git_prefix() {
    assert_eq!(version_line(false, "git version 2.43.0\n"), None);
    assert_eq!(version_line(true, "git versio"), None);
    assert_eq!(version_line(true, " git version 2.43.0"), None);
    assert_eq!(
        version_line(true, "git version 2.39.3 (Apple Git-146)\n\t "),
        Some("git version 2.39.3 (Apple Git-146)".to_string())
    );
    assert_eq!(version_line(true, "git version "), Some("git version".to_string()));
}

#[test]
fn git_unavailable_names_what_was_looked_for() {
    // An override pointing at a missing file resolves, and then cannot be run.
    let missing = "/tmp/sandbox/no-such-git-binary";
    let resolved = resolve(Some(missing), None, None).unwrap();
    match identity_outcome(false, false, resolved.path) {
        Err(CoreError::GitUnavailable { looked_for }) => {
            assert!(
                looked_for.contains("no-such-git-binary"),
                "expected the refusal to name the path that was looked for, got: {looked_for}"
            );
        }
        other => panic!("expected GitUnavailable, got {other:?}"),
    }
}

#[test]
fn the_commit_timeout_setting_is_a_decimal_u64() {
    assert_eq!(commit_timeout_secs(None), 120);
    assert_eq!(commit_timeout_secs(Some("30")), 30);
    assert_eq!(commit_timeout_secs(Some("+7")), 7);
    assert_eq!(commit_timeout_secs(Some("")), 120);
    assert_eq!(commit_timeout_secs(Some("+")), 120);
    assert_eq!(commit_timeout_secs(Some(" 30")), 120);
    assert_eq!(commit_timeout_secs(Some("-1")), 120);
    assert_eq!(commit_timeout_secs(Some("1.5")), 120);
    assert_eq!(parse_u64("18446744073709551615"), Some(u64::MAX));
    assert_eq!(parse_u64("18446744073709551616"), None);
    assert_eq!(parse_u64("0018446744073709551615"), Some(u64::MAX));
    for text in ["0", "42", "+99", "x", "", "99999999999999999999"] {
        assert_eq!(parse_u64(text), text.parse::<u64>().ok(), "{text:?}");
    }
}

#[test]
fn every_invocation_gets_the_same_settings() {
    assert_eq!(commit_arguments(), vec!["--no-pager", "commit", "--file=-", "--cleanup=whitespace"]);
    assert_eq!(
        set_env_vars(),
        vec![("GIT_TERMINAL_PROMPT", "0"), ("GIT_EDITOR", ":"), ("GIT_SEQUENCE_EDITOR", ":")]
    );
    let removed = removed_env_vars();
    assert_eq!(removed.len(), 7);
    assert!(removed.contains(&"GIT_DIR") && removed.contains(&"GIT_INDEX_FILE"));
    assert_eq!((GRACE_SECS, POLL_MILLIS), (5, 50));
}
