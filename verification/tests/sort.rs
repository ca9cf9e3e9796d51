use git_core::model::{ChangeStatus, FileChange};
use git_core::sort::{slice_less, sort_by_key};

fn change(path: &str, insertions: u32) -> FileChange {
    FileChange {
        path: path.to_string(),
        old_path: None,
        status: ChangeStatus::Modified,
        insertions,
        deletions: 0,
        is_binary: false,
    }
}

#[test]
fn bytes_compare_lexicographically() {
    assert!(slice_less(b"a", b"b"));
    assert!(slice_less(b"a", b"ab"));
    assert!(!slice_less(b"ab", b"a"));
    assert!(!slice_less(b"a", b"a"));
    assert!(slice_less(b"", b"a"));
    assert!(slice_less(b"B", b"a"));
}

#[test]
fn equal_keys_keep_their_order() {
    let sorted = sort_by_key(vec![change("b", 1), change("a", 2), change("b", 3), change("a", 4)]);
    let seen: Vec<(&str, u32)> = sorted.iter().map(|c| (c.path.as_str(), c.insertions)).collect();
    assert_eq!(seen, vec![("a", 2), ("a", 4), ("b", 1), ("b", 3)]);
}

#[test]
fn sorting_strings_matches_std() {
    let input: Vec<String> = vec!["é", "e", "Z", "zz", "z", "", "ä"].into_iter().map(String::from).collect();
    let mut expected = input.clone();
    expected.sort();
    assert_eq!(sort_by_key(input), expected);
}
