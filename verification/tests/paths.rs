use git_core::paths::normalise_repo_path;
use git_core::CoreError;

#[test]
fn inside_path_is_accepted() {
    assert_eq!(normalise_repo_path("inside.txt").unwrap(), "inside.txt");
}

#[test]
fn parent_escape_is_refused() {
    assert!(matches!(
        normalise_repo_path("../outside.txt"),
        Err(CoreError::PathOutsideRepo { .. })
    ));
}

#[test]
fn absolute_path_is_refused() {
    assert!(matches!(
        normalise_repo_path("/etc/hosts"),
        Err(CoreError::PathOutsideRepo { .. })
    ));
}

#[test]
fn internal_dotdot_that_stays_inside_is_accepted() {
    assert_eq!(
        normalise_repo_path("sub/../inside.txt").unwrap(),
        "inside.txt"
    );
}

#[test]
fn bracketed_filename_is_accepted_literally() {
    assert_eq!(normalise_repo_path("a[b].txt").unwrap(), "a[b].txt");
}

#[test]
fn dot_git_first_component_is_refused() {
    assert!(matches!(
        normalise_repo_path(".git/config"),
        Err(CoreError::PathOutsideRepo { .. })
    ));
}

#[test]
fn nul_byte_is_refused() {
    assert!(matches!(
        normalise_repo_path("inside\0.txt"),
        Err(CoreError::PathOutsideRepo { .. })
    ));
}

#[test]
fn empty_stack_pop_is_refused() {
    assert!(matches!(
        normalise_repo_path(".."),
        Err(CoreError::PathOutsideRepo { .. })
    ));
}

#[test]
fn empty_string_is_refused() {
    assert!(matches!(
        normalise_repo_path(""),
        Err(CoreError::PathOutsideRepo { .. })
    ));
}

#[test]
fn dot_alone_is_refused() {
    assert!(matches!(
        normalise_repo_path("."),
        Err(CoreError::PathOutsideRepo { .. })
    ));
}

#[test]
fn refusal_names_the_input_verbatim() {
    match normalise_repo_path("a/../../b") {
        Err(CoreError::PathOutsideRepo { path }) => assert_eq!(path, "a/../../b"),
        other => panic!("expected PathOutsideRepo, got {other:?}"),
    }
}

#[test]
fn separators_and_dots_collapse() {
    assert_eq!(normalise_repo_path("a//b/./c").unwrap(), "a/b/c");
    assert_eq!(normalise_repo_path("a\\b\\c.txt").unwrap(), "a/b/c.txt");
    assert_eq!(normalise_repo_path("a/b/").unwrap(), "a/b");
    assert_eq!(normalise_repo_path("./a").unwrap(), "a");
    assert_eq!(normalise_repo_path("a/b/../../c").unwrap(), "c");
}

#[test]
fn backslash_and_drive_prefixes_are_refused() {
    assert!(normalise_repo_path("\\windows").is_err());
    assert!(normalise_repo_path("C:\\windows").is_err());
    assert!(normalise_repo_path("c:relative").is_err());
    assert!(normalise_repo_path("a/..").is_err());
    assert!(normalise_repo_path("sub/.GIT/x").is_ok());
    assert!(normalise_repo_path("x/../.GiT/config").is_err());
    assert_eq!(normalise_repo_path(".gitignore").unwrap(), ".gitignore");
}

#[test]
fn non_ascii_names_are_kept() {
    assert_eq!(normalise_repo_path("ñandú/../días.txt").unwrap(), "días.txt");
}

#[test]
fn normalising_twice_gives_the_same_path() {
    for input in ["sub/../inside.txt", "a//b/./c", "a\\b", "x/./y/../z"] {
        let once = normalise_repo_path(input).unwrap();
        let twice = normalise_repo_path(&once).unwrap();
        assert_eq!(once, twice);
    }
    // The one exception the law leaves out: a drive-like first component.
    let once = normalise_repo_path("x/../C:y").unwrap();
    assert_eq!(once, "C:y");
    assert!(normalise_repo_path(&once).is_err());
}
