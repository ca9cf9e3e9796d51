use std::collections::BTreeMap;

use git_core::fixtures::{commits, writes_commits, CommitSpec};
use git_core::recipe::{commit_time, file_tables, tree_level, FileEntry};

fn as_map(table: &[FileEntry]) -> BTreeMap<String, usize> {
    let map: BTreeMap<String, usize> = table
        .iter()
        .map(|e| (e.path.to_string(), e.source))
        .collect();
    assert_eq!(map.len(), table.len(), "a path is listed twice");
    map
}

fn expect(pairs: &[(&str, usize)]) -> BTreeMap<String, usize> {
    pairs.iter().map(|(p, s)| (p.to_string(), *s)).collect()
}

fn spec(alias: &'static str, parents: &'static [&'static str], file: &'static str) -> CommitSpec {
    CommitSpec { alias, parents, file, content: b"x\n", summary: alias }
}

#[test]
fn commit_times_step_by_a_minute_from_the_epoch() {
    assert_eq!(commit_time(0), 1_700_000_000);
    assert_eq!(commit_time(1), 1_700_000_060);
    assert_eq!(commit_time(16), 1_700_000_960);
}

#[test]
fn the_linear_run_accumulates_files() {
    let specs = commits();
    let tables = file_tables(&specs);
    assert_eq!(tables.len(), 16);
    assert_eq!(as_map(&tables[0]), expect(&[("README.md", 0)]));
    assert_eq!(
        as_map(&tables[2]),
        expect(&[("README.md", 0), ("notes/c2.txt", 1), ("notes/c3.txt", 2)])
    );
}

#[test]
fn a_merge_carries_the_files_of_both_parents() {
    let specs = commits();
    let tables = file_tables(&specs);
    assert_eq!(specs[11].alias, "merge1");
    assert_eq!(
        as_map(&tables[11]),
        expect(&[
            ("README.md", 0),
            ("notes/c2.txt", 1),
            ("notes/c3.txt", 2),
            ("notes/base.txt", 3),
            ("notes/m1.txt", 4),
            ("notes/rp1.txt", 6),
            ("notes/m2.txt", 7),
            ("notes/rp2.txt", 9),
            ("notes/merge1.txt", 11),
        ])
    );
    // A branch does not see its sibling's files.
    assert!(!as_map(&tables[10]).contains_key("notes/m1.txt"));
}

#[test]
fn the_writes_recipe_tables() {
    let specs = writes_commits();
    let tables = file_tables(&specs);
    assert_eq!(
        as_map(&tables[2]),
        expect(&[("README.md", 0), ("tracked-a.txt", 1), ("tracked-b.txt", 2)])
    );
}

#[test]
fn a_later_parent_and_the_own_file_win_a_shared_path() {
    let specs = vec![
        spec("a", &[], "x.txt"),
        spec("b", &[], "x.txt"),
        spec("c", &["a", "b"], "y.txt"),
        spec("d", &["c"], "x.txt"),
        spec("e", &["b", "a", "unknown"], "z.txt"),
    ];
    let tables = file_tables(&specs);
    assert_eq!(as_map(&tables[2]), expect(&[("x.txt", 1), ("y.txt", 2)]));
    assert_eq!(as_map(&tables[3]), expect(&[("x.txt", 3), ("y.txt", 2)]));
    assert_eq!(as_map(&tables[4]), expect(&[("x.txt", 0), ("z.txt", 4)]));
}

#[test]
fn a_parent_alias_names_the_last_earlier_commit_with_it() {
    let specs = vec![
        spec("a", &[], "one.txt"),
        spec("a", &[], "two.txt"),
        spec("b", &["a"], "three.txt"),
    ];
    let tables = file_tables(&specs);
    assert_eq!(as_map(&tables[2]), expect(&[("two.txt", 1), ("three.txt", 2)]));
}

#[test]
fn a_level_splits_into_files_and_subtrees() {
    let table = vec![
        FileEntry { path: "README.md", source: 0 },
        FileEntry { path: "notes/c2.txt", source: 1 },
        FileEntry { path: "notes/deep/c3.txt", source: 2 },
        FileEntry { path: "docs/a.md", source: 3 },
    ];
    let level = tree_level(&table);
    assert_eq!(as_map(&level.files), expect(&[("README.md", 0)]));
    assert_eq!(level.subtrees.len(), 2);
    let notes = level.subtrees.iter().find(|s| s.name == "notes").unwrap();
    assert_eq!(as_map(&notes.entries), expect(&[("c2.txt", 1), ("deep/c3.txt", 2)]));
    let docs = level.subtrees.iter().find(|s| s.name == "docs").unwrap();
    assert_eq!(as_map(&docs.entries), expect(&[("a.md", 3)]));

    let deeper = tree_level(&notes.entries);
    assert_eq!(as_map(&deeper.files), expect(&[("c2.txt", 1)]));
    assert_eq!(deeper.subtrees.len(), 1);
    assert_eq!(deeper.subtrees[0].name, "deep");
    assert_eq!(as_map(&deeper.subtrees[0].entries), expect(&[("c3.txt", 2)]));
}

#[test]
fn an_empty_table_is_an_empty_level() {
    let level = tree_level(&Vec::new());
    assert!(level.files.is_empty());
    assert!(level.subtrees.is_empty());
}
