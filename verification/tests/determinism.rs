//! The history recipe, written object by object into an in-memory object
//! database, must give exactly the recorded object ids: every commit, the
//! tree of `HEAD`, and the annotated tag. Nothing on disk and no ambient
//! configuration takes part, so what is checked is what the recipe and the
//! library's tables decide.

use std::collections::HashMap;

use git2::{ObjectType, Odb, Oid, Repository, Signature, Time};

use git_core::fixtures::{
    commit_oid, commit_oids, commits, tag, AUTHOR_EMAIL, AUTHOR_NAME, COMMITTER_EMAIL,
    COMMITTER_NAME, HEAD_ALIAS, HEAD_TREE, TAGGER_EMAIL, TAGGER_NAME, TAG_V0_1_0,
};
use git_core::recipe::{commit_time, file_tables, tree_level, FileEntry};

struct Built {
    head_oid: Oid,
    head_tree_oid: Oid,
    tag_oid: Oid,
    commit_oids: Vec<(String, Oid)>,
}

fn write_tree(repo: &Repository, table: &Vec<FileEntry>, blobs: &[Oid]) -> Oid {
    let level = tree_level(table);
    let mut builder = repo.treebuilder(None).expect("tree builder");
    for file in &level.files {
        builder
            .insert(file.path, blobs[file.source], 0o100_644)
            .expect("insert a file");
    }
    for subtree in &level.subtrees {
        let oid = write_tree(repo, &subtree.entries, blobs);
        builder.insert(subtree.name, oid, 0o040_000).expect("insert a subtree");
    }
    builder.write().expect("write a tree")
}

fn build_in_memory() -> Built {
    let odb = Odb::new().expect("object database");
    odb.add_new_mempack_backend(1000).expect("in-memory backend");
    let repo = Repository::from_odb(odb).expect("repository over the object database");

    let specs = commits();
    let tables = file_tables(&specs);
    let mut oids: HashMap<&'static str, Oid> = HashMap::new();
    let mut blobs: Vec<Oid> = Vec::new();
    let mut order: Vec<(String, Oid)> = Vec::new();

    for (index, (spec, table)) in specs.iter().zip(tables.iter()).enumerate() {
        let when = Time::new(commit_time(index), 0);
        let author = Signature::new(AUTHOR_NAME, AUTHOR_EMAIL, &when).expect("author");
        let committer = Signature::new(COMMITTER_NAME, COMMITTER_EMAIL, &when).expect("committer");
        blobs.push(repo.blob(spec.content).expect("blob"));
        let tree_oid = write_tree(&repo, table, &blobs);
        let tree = repo.find_tree(tree_oid).expect("tree");
        let parents: Vec<git2::Commit<'_>> = spec
            .parents
            .iter()
            .map(|alias| repo.find_commit(oids[alias]).expect("parent"))
            .collect();
        let parent_refs: Vec<&git2::Commit<'_>> = parents.iter().collect();
        let oid = repo
            .commit(None, &author, &committer, spec.summary, &tree, &parent_refs)
            .expect("commit");
        oids.insert(spec.alias, oid);
        order.push((spec.alias.to_string(), oid));
    }

    let (tag_name, tag_alias) = tag();
    let target = repo
        .find_object(oids[tag_alias], Some(ObjectType::Commit))
        .expect("tag target");
    let tag_when = Time::new(commit_time(specs.len()), 0);
    let tagger = Signature::new(TAGGER_NAME, TAGGER_EMAIL, &tag_when).expect("tagger");
    let tag_oid = repo
        .tag_annotation_create(
            tag_name,
            &target,
            &tagger,
            "fixture: annotated tag on a non-tip commit",
        )
        .expect("tag");

    let head_oid = oids[HEAD_ALIAS];
    let head_tree_oid = repo.find_commit(head_oid).expect("head").tree_id();
    Built { head_oid, head_tree_oid, tag_oid, commit_oids: order }
}

#[test]
fn fixture_oids_are_deterministic() {
    let result = build_in_memory();
    let mut mismatches = Vec::new();

    assert_eq!(result.commit_oids.len(), commit_oids().len(), "commit count drifted");
    for (alias, oid) in &result.commit_oids {
        let expected = commit_oid(alias);
        let actual = oid.to_string();
        if expected != actual {
            mismatches.push(format!("commit `{alias}`: expected {expected}, got {actual}"));
        }
    }
    let actual_tag = result.tag_oid.to_string();
    if TAG_V0_1_0 != actual_tag {
        mismatches.push(format!("tag `v0.1.0`: expected {TAG_V0_1_0}, got {actual_tag}"));
    }
    let actual_head_tree = result.head_tree_oid.to_string();
    if HEAD_TREE != actual_head_tree {
        mismatches.push(format!("HEAD tree: expected {HEAD_TREE}, got {actual_head_tree}"));
    }
    assert!(mismatches.is_empty(), "fixture OIDs drifted:\n{}", mismatches.join("\n"));
}

#[test]
fn ambient_state_cannot_leak_in() {
    let first = build_in_memory();
    let second = build_in_memory();
    assert_eq!(first.head_oid, second.head_oid);
    assert_eq!(first.head_tree_oid, second.head_tree_oid);
    assert_eq!(first.tag_oid, second.tag_oid);
    assert_eq!(first.commit_oids, second.commit_oids);
}
