use git_core::fixtures::commits;
use git_core::manifest::{first_row_alias, manifest_commit};

#[test]
fn a_manifest_entry_collects_summary_lane_and_short_id() {
    let specs = commits();
    let rows = vec![
        ("a9214624572004adc825f586b788cb2bfa7d1f19".to_string(), 0),
        ("eb7506a8d164ac0d5917a846a3d0c2f4b68f334f".to_string(), 2),
        ("a9214624572004adc825f586b788cb2bfa7d1f19".to_string(), 1),
    ];
    let entry = manifest_commit(
        "m4".to_string(),
        "a9214624572004adc825f586b788cb2bfa7d1f19".to_string(),
        &specs,
        &rows,
    );
    assert_eq!(entry.alias, "m4");
    assert_eq!(entry.short_id, "a921462");
    assert_eq!(entry.summary, "main tip");
    assert_eq!(entry.lane, 1, "the last row drawing the id wins");

    let unknown = manifest_commit("zz".to_string(), "abc".to_string(), &specs, &rows);
    assert_eq!(unknown.summary, "");
    assert_eq!(unknown.lane, 0);
    assert_eq!(unknown.short_id, "abc");
}

#[test]
fn the_first_row_alias_is_the_first_built_commit_with_that_id() {
    let built = vec![
        ("c1".to_string(), "111".to_string()),
        ("m4".to_string(), "444".to_string()),
        ("dup".to_string(), "444".to_string()),
    ];
    assert_eq!(first_row_alias(&built, &"444".to_string()).as_deref(), Some("m4"));
    assert_eq!(first_row_alias(&built, &"999".to_string()), None);
}
