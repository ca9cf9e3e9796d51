use git_core::fixtures::{commit_oid, commit_oids, commits, local_branches, remote_refs, tag, writes_commits, HEAD_ALIAS};

#[test]
fn recorded_oids_are_found_by_alias() {
    assert_eq!(commit_oid("c1"), "05ac0b6171bf93e5417b5c6f642f6fd685859c67");
    assert_eq!(commit_oid("m4"), "a9214624572004adc825f586b788cb2bfa7d1f19");
    assert_eq!(commit_oid("merge1"), "931d4a54e1ee511f4a67cd6f4de17b33b4c8ba16");
}

#[test]
fn the_history_recipe_has_one_recorded_oid_per_commit() {
    let specs = commits();
    let table = commit_oids();
    assert_eq!(specs.len(), 16);
    assert_eq!(table.len(), specs.len());
    for (spec, (alias, _)) in specs.iter().zip(table.iter()) {
        assert_eq!(spec.alias, *alias);
    }
    assert_eq!(specs.last().unwrap().alias, HEAD_ALIAS);
    let merge = specs.iter().find(|s| s.alias == "merge1").unwrap();
    assert_eq!(merge.parents, &["m2", "rp2"]);
    assert_eq!(specs[0].content, b"# history fixture\n\nDeterministic repository used by the e2e harness.\n");
}

#[test]
fn refs_and_writes_recipe() {
    assert_eq!(local_branches().len(), 4);
    assert_eq!(remote_refs()[1], ("origin/feature-a", "fa3"));
    assert_eq!(tag(), ("v0.1.0", "m1"));
    let writes = writes_commits();
    assert_eq!(writes.len(), 3);
    assert_eq!(writes[2].file, "tracked-b.txt");
}
