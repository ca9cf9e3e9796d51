//! Metadata plus the changed-file list of a single commit.

use vstd::prelude::*;

use vstd::string::StringExecFns;

use crate::error::{CoreError, Result};
use crate::model::{ChangeStatus, Commit, CommitDetail, FileChange};
use crate::sort::{sort_by_key, stably_sorted, SortKey};

verus! {

/// A hexadecimal digit, in either case.
pub open spec fn is_hex(c: char) -> bool {
    ||| '0' <= c <= '9'
    ||| 'a' <= c <= 'f'
    ||| 'A' <= c <= 'F'
}

/// Text an object id parses from: one to forty hexadecimal digits.
pub open spec fn oid_text_ok(s: Seq<char>) -> bool {
    0 < s.len() <= 40 && forall|i: int| 0 <= i < s.len() ==> is_hex(s[i])
}

/// Whether `git2::Oid::from_str` accepts `id`. Its documentation says it
/// fails exactly when the text is empty, longer than forty hex characters,
/// or holds a character that is not hex; the parsed id itself is not used.
#[verifier::external_body]
fn oid_parses(id: &str) -> (r: bool)
    ensures
        r == oid_text_ok(id@),
{
    git2::Oid::from_str(id).is_ok()
}

/// The id a commit is asked for by: accepted when it parses as an object id,
/// refused as invalid, naming it, when it does not.
pub fn commit_id(id: &str) -> (r: Result<String>)
    ensures
        oid_text_ok(id@) ==> (r matches Ok(s) && s@ == id@),
        !oid_text_ok(id@) ==> (r matches Err(CoreError::Invalid(m)) && m@ == "Invalid commit id: "@
            + id@),
{
    if oid_parses(id) {
        Ok(String::from_str(id))
    } else {
        let mut message = String::from_str("Invalid commit id: ");
        message.append(id);
        Err(CoreError::Invalid(message))
    }
}

/// How a file differs between a commit and its first parent, as the diff
/// reports it.
#[derive(Debug, Clone, Copy, PartialEq, Eq, Structural)]
pub enum DeltaKind {
    Unmodified,
    Added,
    Deleted,
    Modified,
    Renamed,
    Copied,
    Ignored,
    Untracked,
    Typechange,
    Unreadable,
    Conflicted,
}

pub open spec fn change_status_of(delta: DeltaKind) -> ChangeStatus {
    match delta {
        DeltaKind::Added => ChangeStatus::Added,
        DeltaKind::Deleted => ChangeStatus::Deleted,
        DeltaKind::Renamed => ChangeStatus::Renamed,
        DeltaKind::Copied => ChangeStatus::Copied,
        DeltaKind::Typechange => ChangeStatus::TypeChange,
        DeltaKind::Untracked => ChangeStatus::Untracked,
        DeltaKind::Conflicted => ChangeStatus::Conflicted,
        _ => ChangeStatus::Modified,
    }
}

/// The listed status of a diff entry; anything else reads as modified.
pub fn change_status(delta: DeltaKind) -> (status: ChangeStatus)
    ensures
        status == change_status_of(delta),
{
    match delta {
        DeltaKind::Added => ChangeStatus::Added,
        DeltaKind::Deleted => ChangeStatus::Deleted,
        DeltaKind::Renamed => ChangeStatus::Renamed,
        DeltaKind::Copied => ChangeStatus::Copied,
        DeltaKind::Typechange => ChangeStatus::TypeChange,
        DeltaKind::Untracked => ChangeStatus::Untracked,
        DeltaKind::Conflicted => ChangeStatus::Conflicted,
        _ => ChangeStatus::Modified,
    }
}

/// A changed file of a commit. The previous path is kept only when it
/// differs from the current one (a rename or a copy).
pub fn file_change(
    path: String,
    old_path: Option<String>,
    delta: DeltaKind,
    counts: (u32, u32),
    is_binary: bool,
) -> (change: FileChange)
    ensures
        change.path == path,
        old_path matches Some(old) && old@ != path@ ==> change.old_path == old_path,
        !(old_path matches Some(old) && old@ != path@) ==> change.old_path is None,
        change.status == change_status_of(delta),
        change.insertions == counts.0,
        change.deletions == counts.1,
        change.is_binary == is_binary,
{
    let old_path = match old_path {
        Some(old) => if old == path {
            None
        } else {
            Some(old)
        },
        None => None,
    };
    FileChange {
        path,
        old_path,
        status: change_status(delta),
        insertions: counts.0,
        deletions: counts.1,
        is_binary,
    }
}

/// One line of a commit's diff: the file it belongs to and its origin
/// (`+` added, `-` removed, anything else context).
pub struct DiffLine {
    pub path: String,
    pub origin: char,
}

/// One changed file of a commit's diff, as the diff reports it.
pub struct DiffFile {
    pub path: String,
    pub old_path: Option<String>,
    pub delta: DeltaKind,
    pub is_binary: bool,
}

/// How many lines of `path` have this origin.
pub open spec fn line_count(lines: Seq<DiffLine>, path: Seq<char>, origin: char) -> int
    decreases lines.len(),
{
    if lines.len() == 0 {
        0
    } else {
        line_count(lines.drop_last(), path, origin) + if lines.last().path@ == path
            && lines.last().origin == origin {
            1int
        } else {
            0int
        }
    }
}

proof fn lemma_line_count_bounded(lines: Seq<DiffLine>, path: Seq<char>, origin: char)
    ensures
        0 <= line_count(lines, path, origin) <= lines.len(),
    decreases lines.len(),
{
    if lines.len() > 0 {
        lemma_line_count_bounded(lines.drop_last(), path, origin);
    }
}

/// The number of lines of `path` with this origin.
fn count_lines(lines: &Vec<DiffLine>, path: &String, origin: char) -> (r: u64)
    ensures
        r == line_count(lines@, path@, origin),
{
    let mut count: u64 = 0;
    let mut i: usize = 0;
    while i < lines.len()
        invariant
            0 <= i <= lines@.len(),
            count == line_count(lines@.take(i as int), path@, origin),
        decreases lines@.len() - i,
    {
        proof {
            assert(lines@.take(i + 1).drop_last() =~= lines@.take(i as int));
            lemma_line_count_bounded(lines@.take(i as int), path@, origin);
        }
        if lines[i].path == *path && lines[i].origin == origin {
            count = count + 1;
        }
        i += 1;
    }
    assert(lines@.take(lines@.len() as int) =~= lines@);
    count
}

/// The diff lines that belong to `path` with this origin.
pub open spec fn line_of(path: Seq<char>, origin: char) -> spec_fn(DiffLine) -> bool {
    |l: DiffLine| l.path@ == path && l.origin == origin
}

/// A file's count of added or removed lines is the number of diff lines
/// with exactly that path and that origin: a line of any other path never
/// counts for it, and each line of that path and origin counts once.
pub proof fn line_counts_match_exact_paths(
    lines: Seq<DiffLine>,
    path: Seq<char>,
    origin: char,
    extra: DiffLine,
)
    ensures
        line_count(lines, path, origin) == lines.filter(line_of(path, origin)).len(),
        extra.path@ != path ==> line_count(lines.push(extra), path, origin) == line_count(
            lines,
            path,
            origin,
        ),
        extra.path@ == path && extra.origin == origin ==> line_count(lines.push(extra), path, origin)
            == line_count(lines, path, origin) + 1,
    decreases lines.len(),
{
    reveal(Seq::filter);
    if lines.len() > 0 {
        line_counts_match_exact_paths(lines.drop_last(), path, origin, extra);
    }
    assert(lines.push(extra).drop_last() =~= lines);
}

/// The changed files of a commit, in the diff's order, each with the count of
/// its added (`+`) and removed (`-`) lines.
pub fn file_changes(files: Vec<DiffFile>, lines: &Vec<DiffLine>) -> (changes: Vec<FileChange>)
    requires
        forall|i: int|
            0 <= i < files@.len() ==> line_count(lines@, (#[trigger] files@[i]).path@, '+')
                <= u32::MAX && line_count(lines@, files@[i].path@, '-') <= u32::MAX,
    ensures
        changes@.len() == files@.len(),
        forall|i: int|
            0 <= i < files@.len() ==> {
                let f = #[trigger] files@[i];
                let c = changes@[i];
                &&& c.path == f.path
                &&& (f.old_path matches Some(old) && old@ != f.path@) ==> c.old_path == f.old_path
                &&& !(f.old_path matches Some(old) && old@ != f.path@) ==> c.old_path is None
                &&& c.status == change_status_of(f.delta)
                &&& c.insertions == line_count(lines@, f.path@, '+')
                &&& c.deletions == line_count(lines@, f.path@, '-')
                &&& c.is_binary == f.is_binary
            },
{
    let ghost input = files@;
    let mut files = files;
    let mut reversed: Vec<FileChange> = Vec::new();
    // Taken from the back, so each file is moved into its change.
    while files.len() > 0
        invariant
            files@ == input.subrange(0, files@.len() as int),
            reversed@.len() + files@.len() == input.len(),
            forall|i: int|
                0 <= i < input.len() ==> line_count(lines@, (#[trigger] input[i]).path@, '+')
                    <= u32::MAX && line_count(lines@, input[i].path@, '-') <= u32::MAX,
            forall|j: int|
                0 <= j < reversed@.len() ==> {
                    let f = #[trigger] input[input.len() - 1 - j];
                    let c = reversed@[j];
                    &&& c.path == f.path
                    &&& (f.old_path matches Some(old) && old@ != f.path@) ==> c.old_path
                        == f.old_path
                    &&& !(f.old_path matches Some(old) && old@ != f.path@) ==> c.old_path is None
                    &&& c.status == change_status_of(f.delta)
                    &&& c.insertions == line_count(lines@, f.path@, '+')
                    &&& c.deletions == line_count(lines@, f.path@, '-')
                    &&& c.is_binary == f.is_binary
                },
        decreases files@.len(),
    {
        let ghost k = files@.len() - 1;
        let f = files.pop().unwrap();
        assert(f == input[k]);
        let added = count_lines(lines, &f.path, '+');
        let removed = count_lines(lines, &f.path, '-');
        let change = file_change(f.path, f.old_path, f.delta, (added as u32, removed as u32), f.is_binary);
        reversed.push(change);
    }
    let mut changes: Vec<FileChange> = Vec::new();
    while reversed.len() > 0
        invariant
            reversed@.len() + changes@.len() == input.len(),
            forall|j: int|
                0 <= j < reversed@.len() ==> {
                    let f = #[trigger] input[input.len() - 1 - j];
                    let c = reversed@[j];
                    &&& c.path == f.path
                    &&& (f.old_path matches Some(old) && old@ != f.path@) ==> c.old_path
                        == f.old_path
                    &&& !(f.old_path matches Some(old) && old@ != f.path@) ==> c.old_path is None
                    &&& c.status == change_status_of(f.delta)
                    &&& c.insertions == line_count(lines@, f.path@, '+')
                    &&& c.deletions == line_count(lines@, f.path@, '-')
                    &&& c.is_binary == f.is_binary
                },
            forall|i: int|
                0 <= i < changes@.len() ==> {
                    let f = #[trigger] input[i];
                    let c = changes@[i];
                    &&& c.path == f.path
                    &&& (f.old_path matches Some(old) && old@ != f.path@) ==> c.old_path
                        == f.old_path
                    &&& !(f.old_path matches Some(old) && old@ != f.path@) ==> c.old_path is None
                    &&& c.status == change_status_of(f.delta)
                    &&& c.insertions == line_count(lines@, f.path@, '+')
                    &&& c.deletions == line_count(lines@, f.path@, '-')
                    &&& c.is_binary == f.is_binary
                },
        decreases reversed@.len(),
    {
        let ghost j = reversed@.len() - 1;
        let c = reversed.pop().unwrap();
        assert(input.len() - 1 - j == changes@.len());
        changes.push(c);
    }
    changes
}

pub open spec fn total_insertions(files: Seq<FileChange>) -> int
    decreases files.len(),
{
    if files.len() == 0 {
        0
    } else {
        total_insertions(files.drop_last()) + files.last().insertions
    }
}

pub open spec fn total_deletions(files: Seq<FileChange>) -> int
    decreases files.len(),
{
    if files.len() == 0 {
        0
    } else {
        total_deletions(files.drop_last()) + files.last().deletions
    }
}

/// The totals are sums: nothing for no files, and adding a file adds its
/// own counts, whatever comes before; and they do not depend on the order
/// of the files.
pub proof fn totals_are_sums(files: Seq<FileChange>, f: FileChange)
    ensures
        total_insertions(Seq::<FileChange>::empty()) == 0,
        total_deletions(Seq::<FileChange>::empty()) == 0,
        total_insertions(files.push(f)) == total_insertions(files) + f.insertions,
        total_deletions(files.push(f)) == total_deletions(files) + f.deletions,
        total_insertions(seq![f] + files) == f.insertions + total_insertions(files),
        total_deletions(seq![f] + files) == f.deletions + total_deletions(files),
        total_insertions(files) >= 0,
        total_deletions(files) >= 0,
    decreases files.len(),
{
    assert(files.push(f).drop_last() =~= files);
    if files.len() > 0 {
        totals_are_sums(files.drop_last(), f);
        assert((seq![f] + files).drop_last() =~= seq![f] + files.drop_last());
    } else {
        assert(seq![f] + files =~= seq![f]);
        assert(seq![f].drop_last() =~= Seq::<FileChange>::empty());
    }
}

proof fn lemma_totals_grow(files: Seq<FileChange>, i: int)
    requires
        0 <= i <= files.len(),
    ensures
        0 <= total_insertions(files.subrange(0, i)) <= total_insertions(files),
        0 <= total_deletions(files.subrange(0, i)) <= total_deletions(files),
    decreases files.len(),
{
    if i == files.len() {
        assert(files.subrange(0, i) =~= files);
        if files.len() > 0 {
            lemma_totals_grow(files.drop_last(), i - 1);
            assert(files.drop_last().subrange(0, i - 1) =~= files.drop_last());
        }
    } else {
        lemma_totals_grow(files.drop_last(), i);
        assert(files.drop_last().subrange(0, i) =~= files.subrange(0, i));
    }
}

/// Totals are the same whatever order the files are listed in.
proof fn lemma_totals_rearranged(out: Seq<FileChange>, inp: Seq<FileChange>)
    requires
        stably_sorted(out, inp),
    ensures
        total_insertions(out) == total_insertions(inp),
        total_deletions(out) == total_deletions(inp),
{
    let idx = choose|idx: Seq<int>| crate::sort::stable_arrangement(out, inp, idx);
    lemma_rearranged_sums(out, inp, idx);
}

proof fn lemma_rearranged_sums(out: Seq<FileChange>, inp: Seq<FileChange>, idx: Seq<int>)
    requires
        crate::sort::stable_arrangement(out, inp, idx),
    ensures
        total_insertions(out) == total_insertions(inp),
        total_deletions(out) == total_deletions(inp),
    decreases out.len(),
{
    broadcast use vstd::seq_lib::group_seq_properties;

    if out.len() > 0 {
        let last = idx.last();
        let inp2 = inp.remove(last);
        let idx2 = Seq::new(
            (idx.len() - 1) as nat,
            |k: int|
                if idx[k] < last {
                    idx[k]
                } else {
                    idx[k] - 1
                },
        );
        let out2 = out.drop_last();
        inp.remove_ensures(last);
        assert(crate::sort::stable_arrangement(out2, inp2, idx2)) by {
            assert forall|k: int| 0 <= k < idx2.len() implies out2[k] == inp2[#[trigger] idx2[k]] by {
                assert(idx[k] != last);
            }
            assert forall|a: int, b: int| 0 <= a < b < idx2.len() implies #[trigger] idx2[a]
                != #[trigger] idx2[b] by {
                assert(idx[a] != last && idx[b] != last && idx[a] != idx[b]);
            }
            assert forall|a: int, b: int|
                0 <= a < b < idx2.len() && (#[trigger] out2[a]).sort_key() == (
                #[trigger] out2[b]).sort_key() implies idx2[a] < idx2[b] by {
                assert(out2[a] == out[a] && out2[b] == out[b]);
                assert(idx[a] != last && idx[b] != last);
            }
            assert forall|k: int| 0 <= k < idx2.len() implies 0 <= #[trigger] idx2[k] < inp2.len() by {
                assert(idx[k] != last);
            }
        }
        lemma_rearranged_sums(out2, inp2, idx2);
        lemma_remove_sums(inp, last);
    }
}

proof fn lemma_remove_sums(s: Seq<FileChange>, i: int)
    requires
        0 <= i < s.len(),
    ensures
        total_insertions(s) == total_insertions(s.remove(i)) + s[i].insertions,
        total_deletions(s) == total_deletions(s.remove(i)) + s[i].deletions,
    decreases s.len(),
{
    broadcast use vstd::seq_lib::group_seq_properties;

    s.remove_ensures(i);
    if i < s.len() - 1 {
        lemma_remove_sums(s.drop_last(), i);
        assert(s.remove(i).drop_last() =~= s.drop_last().remove(i));
        assert(s.remove(i).last() == s.last());
    } else {
        assert(s.remove(i) =~= s.drop_last());
    }
}

/// The commit with its changed files sorted by path and the line totals
/// summed over them.
pub fn commit_detail(commit: Commit, files: Vec<FileChange>) -> (detail: CommitDetail)
    requires
        total_insertions(files@) <= u32::MAX,
        total_deletions(files@) <= u32::MAX,
    ensures
        detail.commit == commit,
        stably_sorted(detail.files@, files@),
        detail.insertions == total_insertions(files@),
        detail.deletions == total_deletions(files@),
{
    // The diff's own order is platform dependent; sort like every listing.
    let files_in = files;
    let ghost inp = files_in@;
    let files = sort_by_key(files_in);
    proof {
        lemma_totals_rearranged(files@, inp);
    }
    let mut insertions: u32 = 0;
    let mut deletions: u32 = 0;
    let mut i: usize = 0;
    while i < files.len()
        invariant
            0 <= i <= files@.len(),
            total_insertions(files@) <= u32::MAX,
            total_deletions(files@) <= u32::MAX,
            insertions == total_insertions(files@.subrange(0, i as int)),
            deletions == total_deletions(files@.subrange(0, i as int)),
        decreases files@.len() - i,
    {
        proof {
            lemma_totals_grow(files@, i + 1);
            assert(files@.subrange(0, i + 1).drop_last() =~= files@.subrange(0, i as int));
        }
        insertions = insertions + files[i].insertions;
        deletions = deletions + files[i].deletions;
        i += 1;
    }
    assert(files@.subrange(0, files@.len() as int) =~= files@);
    CommitDetail { commit, files, insertions, deletions }
}

} // verus!
