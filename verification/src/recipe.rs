//! What each commit of a fixture recipe holds, and how a flat table of files
//! splits into the entries and subtrees of one tree level.
//!
//! Every commit of a recipe carries the union of its parents' files, taken in
//! parent order with a later parent winning a shared path, plus its own one
//! file. A tree is written one level at a time: the paths without a `/` are
//! the level's own files, the others are grouped by their first segment into
//! subtrees, each with that segment taken off its paths.

use vstd::prelude::*;

use crate::fixtures::{same_text, CommitSpec, EPOCH};

verus! {

/// The timestamp of the commit at `index` in a recipe: `EPOCH + index * 60`.
/// The tag written after a recipe's `n` commits is stamped `commit_time(n)`.
pub fn commit_time(index: usize) -> (t: i64)
    requires
        EPOCH + index * 60 <= i64::MAX,
    ensures
        t == EPOCH + index * 60,
{
    EPOCH + (index as i64) * 60
}

/// One file of a commit's tree: its path, and the index of the recipe commit
/// whose content it holds.
#[derive(Clone, Copy, Debug, PartialEq, Eq)]
pub struct FileEntry {
    pub path: &'static str,
    pub source: usize,
}

/// No path is listed twice.
pub open spec fn distinct_paths(t: Seq<FileEntry>) -> bool {
    forall|a: int, b: int| 0 <= a < b < t.len() ==> t[a].path@ != t[b].path@
}

/// A table read as a map from path to source commit.
pub open spec fn entries_map(t: Seq<FileEntry>) -> Map<Seq<char>, int>
    decreases t.len(),
{
    if t.len() == 0 {
        Map::empty()
    } else {
        entries_map(t.drop_last()).insert(t.last().path@, t.last().source as int)
    }
}

/// The index of the last commit before `i` with this alias, if any.
pub open spec fn latest(specs: Seq<CommitSpec>, alias: Seq<char>, i: int) -> Option<int>
    decreases i,
{
    if i <= 0 {
        None
    } else if specs[i - 1].alias@ == alias {
        Some(i - 1)
    } else {
        latest(specs, alias, i - 1)
    }
}

/// The files commit `i` takes over from its first `k` parents, `tables[j]`
/// being the files of commit `j`: a parent is the last earlier commit with
/// that alias, one that has none contributes nothing, and a later parent
/// wins a path two of them share.
pub open spec fn inherited(
    specs: Seq<CommitSpec>,
    tables: Seq<Map<Seq<char>, int>>,
    i: int,
    k: int,
) -> Map<Seq<char>, int>
    decreases k,
{
    if k <= 0 {
        Map::empty()
    } else {
        let acc = inherited(specs, tables, i, k - 1);
        match latest(specs, specs[i].parents@[k - 1]@, i) {
            Some(j) => acc.union_prefer_right(tables[j]),
            None => acc,
        }
    }
}

/// The files of commit `i`: what its parents carry, then its own file.
pub open spec fn files_of(specs: Seq<CommitSpec>, tables: Seq<Map<Seq<char>, int>>, i: int) -> Map<
    Seq<char>,
    int,
> {
    inherited(specs, tables, i, specs[i].parents@.len() as int).insert(specs[i].file@, i)
}

/// The files of each of the first `n` commits of a recipe.
pub open spec fn recipe_files(specs: Seq<CommitSpec>, n: int) -> Seq<Map<Seq<char>, int>>
    decreases n,
{
    if n <= 0 {
        Seq::empty()
    } else {
        let earlier = recipe_files(specs, n - 1);
        earlier.push(files_of(specs, earlier, n - 1))
    }
}

proof fn lemma_latest_before(specs: Seq<CommitSpec>, alias: Seq<char>, i: int)
    ensures
        latest(specs, alias, i) matches Some(j) ==> 0 <= j < i,
    decreases i,
{
    if i > 0 {
        lemma_latest_before(specs, alias, i - 1);
    }
}

proof fn lemma_entries_map_update(t: Seq<FileEntry>, p: int, e: FileEntry)
    requires
        distinct_paths(t),
        0 <= p < t.len(),
        t[p].path@ == e.path@,
    ensures
        entries_map(t.update(p, e)) == entries_map(t).insert(e.path@, e.source as int),
    decreases t.len(),
{
    let u = t.update(p, e);
    if p == t.len() - 1 {
        assert(u.drop_last() =~= t.drop_last());
        assert(entries_map(u) =~= entries_map(t).insert(e.path@, e.source as int));
    } else {
        assert(u.drop_last() =~= t.drop_last().update(p, e));
        lemma_entries_map_update(t.drop_last(), p, e);
        assert(t.last().path@ != e.path@);
        assert(entries_map(u) =~= entries_map(t).insert(e.path@, e.source as int));
    }
}

proof fn lemma_entries_map_dom(t: Seq<FileEntry>, q: Seq<char>)
    ensures
        entries_map(t).dom().contains(q) <==> exists|a: int| 0 <= a < t.len() && t[a].path@ == q,
    decreases t.len(),
{
    if t.len() > 0 {
        lemma_entries_map_dom(t.drop_last(), q);
        if entries_map(t).dom().contains(q) && q != t.last().path@ {
            let a = choose|a: int| 0 <= a < t.drop_last().len() && t.drop_last()[a].path@ == q;
            assert(t[a].path@ == q);
        }
        if exists|a: int| 0 <= a < t.len() && t[a].path@ == q {
            let a = choose|a: int| 0 <= a < t.len() && t[a].path@ == q;
            if a < t.len() - 1 {
                assert(t.drop_last()[a].path@ == q);
            }
        }
    }
}

proof fn lemma_recipe_len(specs: Seq<CommitSpec>, n: int)
    requires
        n >= 0,
    ensures
        recipe_files(specs, n).len() == n,
    decreases n,
{
    if n > 0 {
        lemma_recipe_len(specs, n - 1);
    }
}

/// The files of commit `i` do not depend on how many later commits follow.
proof fn lemma_recipe_prefix(specs: Seq<CommitSpec>, n: int, i: int)
    requires
        0 <= i < n,
    ensures
        recipe_files(specs, n)[i] == files_of(specs, recipe_files(specs, i), i),
    decreases n,
{
    lemma_recipe_len(specs, n - 1);
    if i < n - 1 {
        lemma_recipe_prefix(specs, n - 1, i);
    }
}

proof fn lemma_inherited_covers(
    specs: Seq<CommitSpec>,
    tables: Seq<Map<Seq<char>, int>>,
    i: int,
    k: int,
    m: int,
    j: int,
    path: Seq<char>,
)
    requires
        0 <= k < m,
        latest(specs, specs[i].parents@[k]@, i) == Some(j),
        tables[j].dom().contains(path),
    ensures
        inherited(specs, tables, i, m).dom().contains(path),
    decreases m,
{
    if k < m - 1 {
        lemma_inherited_covers(specs, tables, i, k, m - 1, j, path);
    }
}

/// A commit's tree holds every path of each of its parents (a parent being
/// the last earlier commit with that alias), and its own file with its own
/// content.
pub proof fn a_commit_keeps_its_parents_paths(
    specs: Seq<CommitSpec>,
    i: int,
    k: int,
    path: Seq<char>,
)
    requires
        0 <= i < specs.len(),
        0 <= k < specs[i].parents@.len(),
    ensures
        recipe_files(specs, specs.len() as int)[i].dom().contains(specs[i].file@),
        recipe_files(specs, specs.len() as int)[i][specs[i].file@] == i,
        latest(specs, specs[i].parents@[k]@, i) matches Some(j) && recipe_files(
            specs,
            specs.len() as int,
        )[j].dom().contains(path) ==> recipe_files(specs, specs.len() as int)[i].dom().contains(
            path,
        ),
{
    let n = specs.len() as int;
    let earlier = recipe_files(specs, i);
    lemma_recipe_prefix(specs, n, i);
    lemma_recipe_len(specs, i);
    if let Some(j) = latest(specs, specs[i].parents@[k]@, i) {
        lemma_latest_before(specs, specs[i].parents@[k]@, i);
        lemma_recipe_prefix(specs, n, j);
        lemma_recipe_prefix(specs, i, j);
        if recipe_files(specs, n)[j].dom().contains(path) {
            lemma_inherited_covers(
                specs,
                earlier,
                i,
                k,
                specs[i].parents@.len() as int,
                j,
                path,
            );
        }
    }
}

proof fn lemma_inherited_value(
    specs: Seq<CommitSpec>,
    tables: Seq<Map<Seq<char>, int>>,
    i: int,
    k: int,
    m: int,
    j: int,
    path: Seq<char>,
)
    requires
        0 <= k < m,
        latest(specs, specs[i].parents@[k]@, i) == Some(j),
        tables[j].dom().contains(path),
        forall|k2: int|
            k < k2 < m ==> match latest(specs, #[trigger] specs[i].parents@[k2]@, i) {
                Some(j2) => !tables[j2].dom().contains(path),
                None => true,
            },
    ensures
        inherited(specs, tables, i, m).dom().contains(path),
        inherited(specs, tables, i, m)[path] == tables[j][path],
    decreases m,
{
    if k < m - 1 {
        lemma_inherited_value(specs, tables, i, k, m - 1, j, path);
        let _ = specs[i].parents@[m - 1];
    }
}

/// A path that several parents carry takes its content from the last of
/// them in parent order, unless it is the commit's own file, which always
/// holds the commit's own content.
pub proof fn a_later_parent_wins_a_shared_path(
    specs: Seq<CommitSpec>,
    i: int,
    k: int,
    j: int,
    path: Seq<char>,
)
    requires
        0 <= i < specs.len(),
        0 <= k < specs[i].parents@.len(),
        latest(specs, specs[i].parents@[k]@, i) == Some(j),
        recipe_files(specs, specs.len() as int)[j].dom().contains(path),
        path != specs[i].file@,
        forall|k2: int|
            k < k2 < specs[i].parents@.len() ==> match latest(
                specs,
                #[trigger] specs[i].parents@[k2]@,
                i,
            ) {
                Some(j2) => !recipe_files(specs, specs.len() as int)[j2].dom().contains(path),
                None => true,
            },
    ensures
        recipe_files(specs, specs.len() as int)[i].dom().contains(path),
        recipe_files(specs, specs.len() as int)[i][path] == recipe_files(
            specs,
            specs.len() as int,
        )[j][path],
{
    let n = specs.len() as int;
    let earlier = recipe_files(specs, i);
    lemma_recipe_prefix(specs, n, i);
    lemma_recipe_len(specs, i);
    lemma_latest_before(specs, specs[i].parents@[k]@, i);
    lemma_recipe_prefix(specs, n, j);
    lemma_recipe_prefix(specs, i, j);
    assert forall|k2: int|
        k < k2 < specs[i].parents@.len() implies match latest(
            specs,
            #[trigger] specs[i].parents@[k2]@,
            i,
        ) {
            Some(j2) => !earlier[j2].dom().contains(path),
            None => true,
        } by {
        if let Some(j2) = latest(specs, specs[i].parents@[k2]@, i) {
            lemma_latest_before(specs, specs[i].parents@[k2]@, i);
            lemma_recipe_prefix(specs, n, j2);
            lemma_recipe_prefix(specs, i, j2);
        }
    }
    lemma_inherited_value(specs, earlier, i, k, specs[i].parents@.len() as int, j, path);
}

/// Put `e` in the table, replacing the entry with the same path if there is one.
fn upsert(table: &mut Vec<FileEntry>, e: FileEntry)
    requires
        distinct_paths(old(table)@),
    ensures
        distinct_paths(final(table)@),
        entries_map(final(table)@) == entries_map(old(table)@).insert(e.path@, e.source as int),
{
    let ghost t0 = table@;
    let mut p: usize = 0;
    while p < table.len()
        invariant
            table@ == t0,
            t0 == old(table)@,
            distinct_paths(t0),
            0 <= p <= t0.len(),
            forall|q: int| 0 <= q < p ==> t0[q].path@ != e.path@,
        decreases t0.len() - p,
    {
        if same_text(table[p].path, e.path) {
            proof {
                lemma_entries_map_update(t0, p as int, e);
            }
            table.set(p, e);
            assert(table@ == t0.update(p as int, e));
            return;
        }
        p += 1;
    }
    table.push(e);
    proof {
        assert(table@.drop_last() =~= t0);
    }
}

/// Add every entry of `other` to the table, `other` winning a shared path.
fn merge_into(table: &mut Vec<FileEntry>, other: &Vec<FileEntry>)
    requires
        distinct_paths(old(table)@),
    ensures
        distinct_paths(final(table)@),
        entries_map(final(table)@) == entries_map(old(table)@).union_prefer_right(
            entries_map(other@),
        ),
{
    let ghost start = entries_map(table@);
    let mut k: usize = 0;
    assert(start.union_prefer_right(entries_map(other@.take(0))) =~= start);
    while k < other.len()
        invariant
            0 <= k <= other@.len(),
            distinct_paths(table@),
            entries_map(table@) == start.union_prefer_right(entries_map(other@.take(k as int))),
        decreases other@.len() - k,
    {
        let e = other[k];
        upsert(table, e);
        proof {
            let next = other@.take(k + 1);
            assert(next.drop_last() =~= other@.take(k as int));
            assert(next.last() == e);
            assert(start.union_prefer_right(entries_map(next)) =~= start.union_prefer_right(
                entries_map(other@.take(k as int)),
            ).insert(e.path@, e.source as int));
        }
        k += 1;
    }
    assert(other@.take(other@.len() as int) =~= other@);
}

/// The index of the last commit before `i` whose alias is `alias`.
fn find_latest(specs: &Vec<CommitSpec>, alias: &str, i: usize) -> (r: Option<usize>)
    requires
        i <= specs@.len(),
    ensures
        match r {
            Some(j) => latest(specs@, alias@, i as int) == Some(j as int),
            None => latest(specs@, alias@, i as int) is None,
        },
{
    let mut j: usize = i;
    while j > 0
        invariant
            j <= i <= specs@.len(),
            latest(specs@, alias@, i as int) == latest(specs@, alias@, j as int),
        decreases j,
    {
        if same_text(specs[j - 1].alias, alias) {
            return Some(j - 1);
        }
        j -= 1;
    }
    None
}

/// The files of every commit of a recipe, in recipe order: each commit's
/// table holds its parents' files, a later parent winning a shared path, and
/// its own file, whose content is its own. Entries are in no particular
/// order; a tree orders its entries itself.
pub fn file_tables(specs: &Vec<CommitSpec>) -> (tables: Vec<Vec<FileEntry>>)
    ensures
        tables@.len() == specs@.len(),
        forall|i: int|
            0 <= i < specs@.len() ==> distinct_paths(#[trigger] tables@[i]@) && entries_map(
                tables@[i]@,
            ) == recipe_files(specs@, specs@.len() as int)[i],
{
    let mut tables: Vec<Vec<FileEntry>> = Vec::new();
    let mut i: usize = 0;
    while i < specs.len()
        invariant
            0 <= i <= specs@.len(),
            tables@.len() == i,
            recipe_files(specs@, i as int).len() == i,
            forall|q: int|
                0 <= q < i ==> distinct_paths(#[trigger] tables@[q]@) && entries_map(tables@[q]@)
                    == recipe_files(specs@, i as int)[q],
        decreases specs@.len() - i,
    {
        let ghost earlier = recipe_files(specs@, i as int);
        let c = &specs[i];
        let mut table: Vec<FileEntry> = Vec::new();
        let mut k: usize = 0;
        while k < c.parents.len()
            invariant
                i < specs@.len(),
                *c == specs@[i as int],
                0 <= k <= c.parents@.len(),
                tables@.len() == i,
                earlier.len() == i,
                forall|q: int|
                    0 <= q < i ==> distinct_paths(#[trigger] tables@[q]@) && entries_map(
                        tables@[q]@,
                    ) == earlier[q],
                distinct_paths(table@),
                entries_map(table@) == inherited(specs@, earlier, i as int, k as int),
            decreases c.parents@.len() - k,
        {
            let found = find_latest(specs, c.parents[k], i);
            match found {
                Some(j) => {
                    proof {
                        lemma_latest_before(specs@, c.parents@[k as int]@, i as int);
                    }
                    merge_into(&mut table, &tables[j]);
                },
                None => {},
            }
            k += 1;
        }
        upsert(&mut table, FileEntry { path: c.file, source: i });
        let ghost before = tables@;
        tables.push(table);
        proof {
            assert(recipe_files(specs@, i + 1) == earlier.push(files_of(specs@, earlier, i as int)));
            assert forall|q: int| 0 <= q < i + 1 implies distinct_paths(#[trigger] tables@[q]@)
                && entries_map(tables@[q]@) == recipe_files(specs@, i + 1)[q] by {
                if q < i {
                    assert(tables@[q] == before[q]);
                }
            }
        }
        i += 1;
    }
    tables
}

/// A path with no `/` in it.
pub open spec fn no_slash(p: Seq<char>) -> bool {
    !p.contains('/')
}

/// `d/r`.
pub open spec fn joined(d: Seq<char>, r: Seq<char>) -> Seq<char> {
    d + seq!['/'] + r
}

/// The files of one tree level: the paths without a `/`.
pub open spec fn level_files(m: Map<Seq<char>, int>) -> Map<Seq<char>, int> {
    m.restrict(Set::new(|p: Seq<char>| no_slash(p)))
}

/// The table of subtree `d`: the paths under `d/`, with `d/` taken off.
pub open spec fn subtree_of(m: Map<Seq<char>, int>, d: Seq<char>) -> Map<Seq<char>, int> {
    Map::new(|r: Seq<char>| m.dom().contains(joined(d, r)), |r: Seq<char>| m[joined(d, r)])
}

/// The subtrees of one level: the first segments of the paths with a `/`.
pub open spec fn is_subtree_name(m: Map<Seq<char>, int>, d: Seq<char>) -> bool {
    no_slash(d) && exists|r: Seq<char>| m.dom().contains(#[trigger] joined(d, r))
}

/// One subtree of a level: its name and its own table.
pub struct Subtree {
    pub name: &'static str,
    pub entries: Vec<FileEntry>,
}

/// One level of a tree: its own files, and its subtrees.
pub struct TreeLevel {
    pub files: Vec<FileEntry>,
    pub subtrees: Vec<Subtree>,
}

/// A path splits at its first `/` in one way only.
proof fn lemma_split_unique(d: Seq<char>, r: Seq<char>, d2: Seq<char>, r2: Seq<char>)
    requires
        no_slash(d),
        no_slash(d2),
        joined(d, r) == joined(d2, r2),
    ensures
        d == d2,
        r == r2,
{
    let p = joined(d, r);
    if d.len() < d2.len() {
        assert(p[d.len() as int] == '/');
        assert(d2[d.len() as int] == p[d.len() as int]);
        assert(d2.contains('/'));
    } else if d2.len() < d.len() {
        assert(p[d2.len() as int] == '/');
        assert(d[d2.len() as int] == p[d2.len() as int]);
        assert(d.contains('/'));
    }
    assert(d =~= p.subrange(0, d.len() as int));
    assert(d2 =~= p.subrange(0, d.len() as int));
    assert(r =~= p.subrange(d.len() as int + 1, p.len() as int));
    assert(r2 =~= p.subrange(d.len() as int + 1, p.len() as int));
}

/// A path with no `/` is under no subtree.
proof fn lemma_no_slash_not_joined(p: Seq<char>, d: Seq<char>, r: Seq<char>)
    requires
        no_slash(p),
    ensures
        p != joined(d, r),
{
    if p == joined(d, r) {
        assert(p[d.len() as int] == '/');
    }
}

/// Where the first `/` of `p` stands.
fn first_slash(p: &str) -> (r: Option<usize>)
    ensures
        match r {
            Some(s) => s < p@.len() && p@[s as int] == '/' && no_slash(p@.subrange(0, s as int)),
            None => no_slash(p@),
        },
{
    let n = p.unicode_len();
    let mut s: usize = 0;
    while s < n
        invariant
            n == p@.len(),
            0 <= s <= n,
            forall|k: int| 0 <= k < s ==> p@[k] != '/',
        decreases n - s,
    {
        if p.get_char(s) == '/' {
            proof {
                let front = p@.subrange(0, s as int);
                if front.contains('/') {
                    let k = choose|k: int| 0 <= k < front.len() && front[k] == '/';
                    assert(p@[k] == '/');
                }
            }
            return Some(s);
        }
        s += 1;
    }
    proof {
        if p@.contains('/') {
            let k = choose|k: int| 0 <= k < p@.len() && p@[k] == '/';
            assert(p@[k] != '/');
        }
    }
    None
}

/// The subtree named `name`, if the level has one.
fn find_subtree(subtrees: &Vec<Subtree>, name: &str) -> (r: Option<usize>)
    ensures
        match r {
            Some(q) => q < subtrees@.len() && subtrees@[q as int].name@ == name@,
            None => forall|a: int| 0 <= a < subtrees@.len() ==> subtrees@[a].name@ != name@,
        },
{
    let mut q: usize = 0;
    while q < subtrees.len()
        invariant
            0 <= q <= subtrees@.len(),
            forall|a: int| 0 <= a < q ==> subtrees@[a].name@ != name@,
        decreases subtrees@.len() - q,
    {
        if same_text(subtrees[q].name, name) {
            return Some(q);
        }
        q += 1;
    }
    None
}

/// What a level built from `m` holds: its files are `files`, and `subtrees`
/// lists each subtree of `m` once, with its own table.
pub open spec fn level_of(m: Map<Seq<char>, int>, files: Seq<FileEntry>, subtrees: Seq<Subtree>) -> bool {
    &&& distinct_paths(files)
    &&& entries_map(files) == level_files(m)
    &&& forall|a: int, b: int|
        0 <= a < b < subtrees.len() ==> subtrees[a].name@ != subtrees[b].name@
    &&& forall|a: int|
        0 <= a < subtrees.len() ==> distinct_paths(#[trigger] subtrees[a].entries@)
            && entries_map(subtrees[a].entries@) == subtree_of(m, subtrees[a].name@)
    &&& forall|d: Seq<char>|
        is_subtree_name(m, d) <==> exists|a: int|
            0 <= a < subtrees.len() && (#[trigger] subtrees[a]).name@ == d
}

proof fn lemma_first_slash_exists(p: Seq<char>) -> (s: int)
    requires
        p.contains('/'),
    ensures
        0 <= s < p.len(),
        p[s] == '/',
        !p.take(s).contains('/'),
    decreases p.len(),
{
    if p.last() == '/' && !p.drop_last().contains('/') {
        assert(p.take(p.len() - 1) =~= p.drop_last());
        p.len() - 1
    } else {
        if !p.drop_last().contains('/') {
            let k = choose|k: int| 0 <= k < p.len() && p[k] == '/';
            assert(k == p.len() - 1 || p.drop_last()[k] == '/');
        }
        let s = lemma_first_slash_exists(p.drop_last());
        assert(p.take(s) =~= p.drop_last().take(s));
        s
    }
}

/// One level holds exactly its table: each path without a `/` is one of the
/// level's files with the same source, and each of its files is such a path;
/// each path with a `/` is, under the subtree named by its first segment,
/// the rest of the path with the same source; and every entry of a subtree
/// is such a path of the table.
pub proof fn a_level_holds_exactly_its_table(
    entries: Seq<FileEntry>,
    files: Seq<FileEntry>,
    subtrees: Seq<Subtree>,
    p: Seq<char>,
)
    requires
        level_of(entries_map(entries), files, subtrees),
    ensures
        entries_map(entries).dom().contains(p) && !p.contains('/') ==> entries_map(files).dom().contains(
            p,
        ) && entries_map(files)[p] == entries_map(entries)[p],
        entries_map(files).dom().contains(p) ==> !p.contains('/') && entries_map(
            entries,
        ).dom().contains(p) && entries_map(files)[p] == entries_map(entries)[p],
        entries_map(entries).dom().contains(p) && p.contains('/') ==> exists|a: int, r: Seq<char>|
            0 <= a < subtrees.len() && #[trigger] (subtrees[a].name@ + seq!['/'] + r) == p
                && !subtrees[a].name@.contains('/') && entries_map(
                subtrees[a].entries@,
            ).dom().contains(r) && entries_map(subtrees[a].entries@)[r] == entries_map(entries)[p],
        forall|a: int, r: Seq<char>|
            0 <= a < subtrees.len() && entries_map(subtrees[a].entries@).dom().contains(r) ==> {
                &&& !subtrees[a].name@.contains('/')
                &&& entries_map(entries).dom().contains(#[trigger] (subtrees[a].name@ + seq!['/'] + r))
                &&& entries_map(entries)[subtrees[a].name@ + seq!['/'] + r] == entries_map(
                    subtrees[a].entries@,
                )[r]
            },
{
    let m = entries_map(entries);
    if m.dom().contains(p) && p.contains('/') {
        let s = lemma_first_slash_exists(p);
        let d = p.take(s);
        let r = p.skip(s + 1);
        assert(joined(d, r) =~= p);
        assert(is_subtree_name(m, d));
        let a = choose|a: int| 0 <= a < subtrees.len() && (#[trigger] subtrees[a]).name@ == d;
        assert(subtrees[a].name@ + seq!['/'] + r == p);
        assert(subtree_of(m, d).dom().contains(r));
    }
    assert forall|a: int, r: Seq<char>|
        0 <= a < subtrees.len() && entries_map(subtrees[a].entries@).dom().contains(r) implies {
            &&& !subtrees[a].name@.contains('/')
            &&& entries_map(entries).dom().contains(#[trigger] (subtrees[a].name@ + seq!['/'] + r))
            &&& entries_map(entries)[subtrees[a].name@ + seq!['/'] + r] == entries_map(
                subtrees[a].entries@,
            )[r]
        } by {
        let d = subtrees[a].name@;
        assert(is_subtree_name(m, d));
        assert(joined(d, r) == d + seq!['/'] + r);
    }
}

/// Split a table into one tree level: the paths without a `/` are the
/// level's own files; the others are grouped by their first segment, each
/// group listing the rest of its paths.
pub fn tree_level(entries: &Vec<FileEntry>) -> (level: TreeLevel)
    requires
        distinct_paths(entries@),
    ensures
        level_of(entries_map(entries@), level.files@, level.subtrees@),
{
    let mut files: Vec<FileEntry> = Vec::new();
    let mut subtrees: Vec<Subtree> = Vec::new();
    let mut k: usize = 0;
    proof {
        assert(level_files(entries_map(entries@.take(0))) =~= entries_map(files@));
    }
    while k < entries.len()
        invariant
            0 <= k <= entries@.len(),
            distinct_paths(entries@),
            level_of(entries_map(entries@.take(k as int)), files@, subtrees@),
        decreases entries@.len() - k,
    {
        let e = entries[k];
        let ghost m = entries_map(entries@.take(k as int));
        let ghost m2 = m.insert(e.path@, e.source as int);
        proof {
            let next = entries@.take(k + 1);
            assert(next.drop_last() =~= entries@.take(k as int));
            assert(next.last() == e);
            assert(entries_map(next) == m2);
            lemma_entries_map_dom(entries@.take(k as int), e.path@);
            assert(!m.dom().contains(e.path@));
        }
        match first_slash(e.path) {
            None => {
                let ghost before = files@;
                files.push(FileEntry { path: e.path, source: e.source });
                proof {
                    assert(files@.drop_last() =~= before);
                    assert(level_files(m2) =~= level_files(m).insert(e.path@, e.source as int));
                    assert forall|a: int, b: int| 0 <= a < b < files@.len() implies files@[a].path@
                        != files@[b].path@ by {
                        if b == files@.len() - 1 {
                            lemma_entries_map_dom(before, files@[a].path@);
                            assert(before[a] == files@[a]);
                        }
                    }
                    assert forall|d: Seq<char>| #[trigger] subtree_of(m2, d) == subtree_of(m, d) by {
                        assert forall|r: Seq<char>| joined(d, r) != e.path@ by {
                            lemma_no_slash_not_joined(e.path@, d, r);
                        }
                        assert(subtree_of(m2, d) =~= subtree_of(m, d));
                    }
                    assert forall|d: Seq<char>| is_subtree_name(m2, d) <==> is_subtree_name(m, d) by {
                        if is_subtree_name(m2, d) {
                            let r = choose|r: Seq<char>| m2.dom().contains(#[trigger] joined(d, r));
                            lemma_no_slash_not_joined(e.path@, d, r);
                        }
                    }
                }
            },
            Some(s) => {
                let n = e.path.unicode_len();
                let name = e.path.substring_char(0, s);
                let rest = e.path.substring_char(s + 1, n);
                let ghost d0 = name@;
                let ghost r0 = rest@;
                proof {
                    assert(joined(d0, r0) =~= e.path@);
                    assert(level_files(m2) =~= level_files(m));
                    assert forall|d: Seq<char>, r: Seq<char>|
                        no_slash(d) && joined(d, r) == e.path@ implies d == d0 && r == r0 by {
                        lemma_split_unique(d, r, d0, r0);
                    }
                }
                let entry = FileEntry { path: rest, source: e.source };
                match find_subtree(&subtrees, name) {
                    Some(q) => {
                        let ghost before = subtrees@;
                        let mut st = subtrees.remove(q);
                        let ghost old_entries = st.entries@;
                        st.entries.push(entry);
                        subtrees.insert(q, st);
                        proof {
                            assert(subtrees@ =~= before.update(q as int, subtrees@[q as int]));
                            assert(st.entries@.drop_last() =~= old_entries);
                            assert(subtrees@[q as int].entries@ == old_entries.push(entry));
                            assert(entries_map(old_entries) == subtree_of(m, d0));
                            assert(!subtree_of(m, d0).dom().contains(r0));
                            assert(subtree_of(m2, d0) =~= subtree_of(m, d0).insert(r0, e.source as int));
                            assert forall|a: int, b: int| 0 <= a < b < old_entries.len() + 1 implies
                                (old_entries.push(entry))[a].path@ != (old_entries.push(entry))[b].path@ by {
                                if b == old_entries.len() {
                                    lemma_entries_map_dom(old_entries, old_entries[a].path@);
                                }
                            }
                            assert forall|a: int| 0 <= a < subtrees@.len() implies distinct_paths(
                                #[trigger] subtrees@[a].entries@,
                            ) && entries_map(subtrees@[a].entries@) == subtree_of(
                                m2,
                                subtrees@[a].name@,
                            ) by {
                                if a != q {
                                    assert(subtrees@[a] == before[a]);
                                    let d = subtrees@[a].name@;
                                    assert(d != d0);
                                    assert(is_subtree_name(m, d));
                                    assert(subtree_of(m2, d) =~= subtree_of(m, d));
                                }
                            }
                            assert forall|d: Seq<char>| is_subtree_name(m2, d) <==> is_subtree_name(m, d) by {
                                if is_subtree_name(m2, d) && !is_subtree_name(m, d) {
                                    let r = choose|r: Seq<char>| m2.dom().contains(#[trigger] joined(d, r));
                                    assert(d == d0);
                                    assert(subtree_of(m, d0).dom().contains(old_entries[0].path@)) by {
                                        lemma_entries_map_dom(old_entries, old_entries[0].path@);
                                    }
                                    assert(false);
                                }
                            }
                            assert forall|d: Seq<char>| is_subtree_name(m2, d) <==> exists|a: int|
                                0 <= a < subtrees@.len() && (#[trigger] subtrees@[a]).name@ == d by {
                                if exists|a: int| 0 <= a < before.len() && (#[trigger] before[a]).name@ == d {
                                    let a = choose|a: int| 0 <= a < before.len() && (#[trigger] before[a]).name@ == d;
                                    assert(subtrees@[a].name@ == d);
                                }
                                if exists|a: int| 0 <= a < subtrees@.len() && (#[trigger] subtrees@[a]).name@ == d {
                                    let a = choose|a: int| 0 <= a < subtrees@.len() && (#[trigger] subtrees@[a]).name@ == d;
                                    assert(before[a].name@ == d);
                                }
                            }
                        }
                    },
                    None => {
                        let ghost before = subtrees@;
                        let mut fresh: Vec<FileEntry> = Vec::new();
                        fresh.push(entry);
                        subtrees.push(Subtree { name, entries: fresh });
                        proof {
                            assert(subtrees@.drop_last() =~= before);
                            assert(!is_subtree_name(m, d0));
                            assert(subtree_of(m, d0) =~= Map::<Seq<char>, int>::empty());
                            assert(fresh@.drop_last() =~= Seq::<FileEntry>::empty());
                            assert(subtree_of(m2, d0) =~= subtree_of(m, d0).insert(r0, e.source as int));
                            assert(fresh@.last() == entry);
                            assert(entries_map(Seq::<FileEntry>::empty()) == Map::<Seq<char>, int>::empty());
                            assert(entries_map(fresh@) =~= Map::<Seq<char>, int>::empty().insert(r0, e.source as int));
                            assert(subtree_of(m2, d0) =~= entries_map(fresh@));
                            assert forall|a: int| 0 <= a < subtrees@.len() implies distinct_paths(
                                #[trigger] subtrees@[a].entries@,
                            ) && entries_map(subtrees@[a].entries@) == subtree_of(
                                m2,
                                subtrees@[a].name@,
                            ) by {
                                if a < before.len() {
                                    assert(subtrees@[a] == before[a]);
                                    let d = subtrees@[a].name@;
                                    assert(d != d0);
                                    assert(is_subtree_name(m, d));
                                    assert(subtree_of(m2, d) =~= subtree_of(m, d));
                                }
                            }
                            assert(is_subtree_name(m2, d0)) by {
                                assert(m2.dom().contains(joined(d0, r0)));
                            }
                            assert forall|d: Seq<char>| is_subtree_name(m2, d) <==> exists|a: int|
                                0 <= a < subtrees@.len() && (#[trigger] subtrees@[a]).name@ == d by {
                                if d == d0 {
                                    assert(subtrees@[before.len() as int].name@ == d0);
                                }
                                if is_subtree_name(m2, d) && d != d0 {
                                    let r = choose|r: Seq<char>| m2.dom().contains(#[trigger] joined(d, r));
                                    if joined(d, r) == e.path@ {
                                        lemma_split_unique(d, r, d0, r0);
                                    }
                                    assert(m.dom().contains(joined(d, r)));
                                    assert(is_subtree_name(m, d));
                                    let a = choose|a: int| 0 <= a < before.len() && (#[trigger] before[a]).name@ == d;
                                    assert(subtrees@[a].name@ == d);
                                }
                                if exists|a: int| 0 <= a < subtrees@.len() && (#[trigger] subtrees@[a]).name@ == d {
                                    let a = choose|a: int| 0 <= a < subtrees@.len() && (#[trigger] subtrees@[a]).name@ == d;
                                    if a < before.len() {
                                        assert(before[a].name@ == d);
                                        assert(is_subtree_name(m, d));
                                        let r = choose|r: Seq<char>| m.dom().contains(#[trigger] joined(d, r));
                                        assert(m2.dom().contains(joined(d, r)));
                                    }
                                }
                            }
                        }
                    },
                }
            },
        }
        k += 1;
    }
    assert(entries@.take(entries@.len() as int) =~= entries@);
    TreeLevel { files, subtrees }
}

} // verus!
