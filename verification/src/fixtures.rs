//! The deterministic fixture history, as data.
//!
//! Sixteen commits chosen to exercise the lane allocator: a linear root run,
//! two branches diverging from `base` and both surviving to the tip, one
//! branch that reconverges through a merge commit, an annotated tag on a
//! non-tip commit, and a remote-tracking ref ahead of its local branch. A
//! second, three-commit recipe serves the write-path specs. The expected
//! object ids of the history recipe are recorded here too, so a drift points
//! at the commit that changed.

use vstd::prelude::*;

verus! {

/// Literal epoch. Every commit's timestamp is `EPOCH + index * 60`, offset `0`.
pub const EPOCH: i64 = 1_700_000_000;

pub const AUTHOR_NAME: &'static str = "Fixture Author";

pub const AUTHOR_EMAIL: &'static str = "fixture-author@example.com";

pub const COMMITTER_NAME: &'static str = "Fixture Committer";

pub const COMMITTER_EMAIL: &'static str = "fixture-committer@example.com";

pub const TAGGER_NAME: &'static str = "Fixture Tagger";

pub const TAGGER_EMAIL: &'static str = "fixture-tagger@example.com";

/// One commit in the fixture, described declaratively.
pub struct CommitSpec {
    /// Stable identifier used by tests and the manifest; never a real OID.
    pub alias: &'static str,
    /// Parent aliases, in order (first parent is the "staying" branch for a merge).
    pub parents: &'static [&'static str],
    /// Path of the one file this commit adds/changes, relative to the worktree root.
    pub file: &'static str,
    /// Literal file content. LF only.
    pub content: &'static [u8],
    pub summary: &'static str,
}

/// A recipe commit read as plain values: alias, parent aliases, file, content
/// and summary.
pub open spec fn recipe_entry(c: CommitSpec) -> (Seq<char>, Seq<Seq<char>>, Seq<char>, Seq<u8>, Seq<char>) {
    (c.alias@, c.parents@.map_values(|a: &'static str| a@), c.file@, c.content@, c.summary@)
}

/// A recipe read as plain values.
pub open spec fn recipe_entries(specs: Seq<CommitSpec>) -> Seq<(Seq<char>, Seq<Seq<char>>, Seq<char>, Seq<u8>, Seq<char>)> {
    specs.map_values(|c: CommitSpec| recipe_entry(c))
}

/// The `history` recipe.
pub open spec fn history_recipe() -> Seq<(Seq<char>, Seq<Seq<char>>, Seq<char>, Seq<u8>, Seq<char>)> {
    seq![
        ("c1"@, seq![], "README.md"@, vstd::utf8::encode_utf8("# history fixture\n\nDeterministic repository used by the e2e harness.\n"@), "root commit"@),
        ("c2"@, seq!["c1"@], "notes/c2.txt"@, vstd::utf8::encode_utf8("commit c2\n"@), "second commit on the linear run"@),
        ("c3"@, seq!["c2"@], "notes/c3.txt"@, vstd::utf8::encode_utf8("commit c3\n"@), "third commit on the linear run"@),
        ("base"@, seq!["c3"@], "notes/base.txt"@, vstd::utf8::encode_utf8("commit base\n"@), "base commit for the branch fan-out"@),
        ("m1"@, seq!["base"@], "notes/m1.txt"@, vstd::utf8::encode_utf8("commit m1\n"@), "main continues past the fan-out"@),
        ("fa1"@, seq!["base"@], "notes/fa1.txt"@, vstd::utf8::encode_utf8("commit fa1\n"@), "feature-a diverges from base"@),
        ("rp1"@, seq!["m1"@], "notes/rp1.txt"@, vstd::utf8::encode_utf8("commit rp1\n"@), "refactor/parser diverges from main"@),
        ("m2"@, seq!["m1"@], "notes/m2.txt"@, vstd::utf8::encode_utf8("commit m2\n"@), "main continues under lane contention"@),
        ("fa2"@, seq!["fa1"@], "notes/fa2.txt"@, vstd::utf8::encode_utf8("commit fa2\n"@), "feature-a continues"@),
        ("rp2"@, seq!["rp1"@], "notes/rp2.txt"@, vstd::utf8::encode_utf8("commit rp2\n"@), "refactor/parser continues"@),
        ("fb1"@, seq!["base"@], "notes/fb1.txt"@, vstd::utf8::encode_utf8("commit fb1\n"@), "feature-b diverges from base"@),
        ("merge1"@, seq!["m2"@, "rp2"@], "notes/merge1.txt"@, vstd::utf8::encode_utf8("commit merge1\n"@), "merge refactor/parser into main"@),
        ("m3"@, seq!["merge1"@], "notes/m3.txt"@, vstd::utf8::encode_utf8("commit m3\n"@), "main continues after the merge"@),
        ("fa3"@, seq!["fa2"@], "notes/fa3.txt"@, vstd::utf8::encode_utf8("commit fa3\n"@), "feature-a, one commit ahead of its local branch tip"@),
        ("fb2"@, seq!["fb1"@], "notes/fb2.txt"@, vstd::utf8::encode_utf8("commit fb2\n"@), "feature-b tip"@),
        ("m4"@, seq!["m3"@], "notes/m4.txt"@, vstd::utf8::encode_utf8("commit m4\n"@), "main tip"@),
    ]
}

/// The `writes` recipe.
pub open spec fn writes_recipe() -> Seq<(Seq<char>, Seq<Seq<char>>, Seq<char>, Seq<u8>, Seq<char>)> {
    seq![
        ("w1"@, seq![], "README.md"@, vstd::utf8::encode_utf8("# writes fixture\n\nDeterministic repository used by write-path e2e specs.\n"@), "root commit"@),
        ("w2"@, seq!["w1"@], "tracked-a.txt"@, vstd::utf8::encode_utf8("tracked a, version 1\n"@), "add tracked-a.txt"@),
        ("w3"@, seq!["w2"@], "tracked-b.txt"@, vstd::utf8::encode_utf8("tracked b, version 1\n"@), "add tracked-b.txt"@),
    ]
}

/// The `history` recipe, in build order.
pub fn commits() -> (specs: Vec<CommitSpec>)
    ensures
        recipe_entries(specs@) == history_recipe(),
{
    let specs = vec![
        CommitSpec {
            alias: "c1",
            parents: &[],
            file: "README.md",
            content: "# history fixture\n\nDeterministic repository used by the e2e harness.\n".as_bytes(),
            summary: "root commit",
        },
        CommitSpec {
            alias: "c2",
            parents: &["c1"],
            file: "notes/c2.txt",
            content: "commit c2\n".as_bytes(),
            summary: "second commit on the linear run",
        },
        CommitSpec {
            alias: "c3",
            parents: &["c2"],
            file: "notes/c3.txt",
            content: "commit c3\n".as_bytes(),
            summary: "third commit on the linear run",
        },
        CommitSpec {
            alias: "base",
            parents: &["c3"],
            file: "notes/base.txt",
            content: "commit base\n".as_bytes(),
            summary: "base commit for the branch fan-out",
        },
        CommitSpec {
            alias: "m1",
            parents: &["base"],
            file: "notes/m1.txt",
            content: "commit m1\n".as_bytes(),
            summary: "main continues past the fan-out",
        },
        CommitSpec {
            alias: "fa1",
            parents: &["base"],
            file: "notes/fa1.txt",
            content: "commit fa1\n".as_bytes(),
            summary: "feature-a diverges from base",
        },
        CommitSpec {
            alias: "rp1",
            parents: &["m1"],
            file: "notes/rp1.txt",
            content: "commit rp1\n".as_bytes(),
            summary: "refactor/parser diverges from main",
        },
        CommitSpec {
            alias: "m2",
            parents: &["m1"],
            file: "notes/m2.txt",
            content: "commit m2\n".as_bytes(),
            summary: "main continues under lane contention",
        },
        CommitSpec {
            alias: "fa2",
            parents: &["fa1"],
            file: "notes/fa2.txt",
            content: "commit fa2\n".as_bytes(),
            summary: "feature-a continues",
        },
        CommitSpec {
            alias: "rp2",
            parents: &["rp1"],
            file: "notes/rp2.txt",
            content: "commit rp2\n".as_bytes(),
            summary: "refactor/parser continues",
        },
        CommitSpec {
            alias: "fb1",
            parents: &["base"],
            file: "notes/fb1.txt",
            content: "commit fb1\n".as_bytes(),
            summary: "feature-b diverges from base",
        },
        CommitSpec {
            alias: "merge1",
            parents: &["m2", "rp2"],
            file: "notes/merge1.txt",
            content: "commit merge1\n".as_bytes(),
            summary: "merge refactor/parser into main",
        },
        CommitSpec {
            alias: "m3",
            parents: &["merge1"],
            file: "notes/m3.txt",
            content: "commit m3\n".as_bytes(),
            summary: "main continues after the merge",
        },
        CommitSpec {
            alias: "fa3",
            parents: &["fa2"],
            file: "notes/fa3.txt",
            content: "commit fa3\n".as_bytes(),
            summary: "feature-a, one commit ahead of its local branch tip",
        },
        CommitSpec {
            alias: "fb2",
            parents: &["fb1"],
            file: "notes/fb2.txt",
            content: "commit fb2\n".as_bytes(),
            summary: "feature-b tip",
        },
        CommitSpec {
            alias: "m4",
            parents: &["m3"],
            file: "notes/m4.txt",
            content: "commit m4\n".as_bytes(),
            summary: "main tip",
        },
    ];
    assert(recipe_entries(specs@) =~~= history_recipe());
    specs
}

pub const HEAD_ALIAS: &'static str = "m4";

/// `(local branch name, alias it points at)`.
pub fn local_branches() -> (branches: Vec<(&'static str, &'static str)>)
    ensures
        pair_views(branches@) == seq![
            ("main"@, "m4"@),
            ("feature-a"@, "fa2"@),
            ("feature-b"@, "fb2"@),
            ("refactor/parser"@, "rp2"@),
        ],
{
    let branches = vec![
        ("main", "m4"),
        ("feature-a", "fa2"),
        ("feature-b", "fb2"),
        ("refactor/parser", "rp2"),
    ];
    assert(pair_views(branches@) =~= seq![
        ("main"@, "m4"@),
        ("feature-a"@, "fa2"@),
        ("feature-b"@, "fb2"@),
        ("refactor/parser"@, "rp2"@),
    ]);
    branches
}

/// `(remote-tracking ref name under refs/remotes/, alias it points at)`.
/// `origin/feature-a` points one commit ahead of local `feature-a`.
pub fn remote_refs() -> (refs: Vec<(&'static str, &'static str)>)
    ensures
        pair_views(refs@) == seq![("origin/main"@, "m4"@), ("origin/feature-a"@, "fa3"@)],
{
    let refs = vec![("origin/main", "m4"), ("origin/feature-a", "fa3")];
    assert(pair_views(refs@) =~= seq![("origin/main"@, "m4"@), ("origin/feature-a"@, "fa3"@)]);
    refs
}

/// `(annotated tag name, alias it points at)`: a tag drawn mid-graph.
pub fn tag() -> (tag: (&'static str, &'static str))
    ensures
        tag.0@ == "v0.1.0"@,
        tag.1@ == "m1"@,
{
    ("v0.1.0", "m1")
}

/// The `writes` recipe: three linear commits for the write-path specs.
pub fn writes_commits() -> (specs: Vec<CommitSpec>)
    ensures
        recipe_entries(specs@) == writes_recipe(),
{
    let specs = vec![
        CommitSpec {
            alias: "w1",
            parents: &[],
            file: "README.md",
            content: "# writes fixture\n\nDeterministic repository used by write-path e2e specs.\n".as_bytes(),
            summary: "root commit",
        },
        CommitSpec {
            alias: "w2",
            parents: &["w1"],
            file: "tracked-a.txt",
            content: "tracked a, version 1\n".as_bytes(),
            summary: "add tracked-a.txt",
        },
        CommitSpec {
            alias: "w3",
            parents: &["w2"],
            file: "tracked-b.txt",
            content: "tracked b, version 1\n".as_bytes(),
            summary: "add tracked-b.txt",
        },
    ];
    assert(recipe_entries(specs@) =~~= writes_recipe());
    specs
}

pub const WRITES_HEAD_ALIAS: &'static str = "w3";

/// `(local branch name, alias it points at)` of the `writes` recipe.
pub fn writes_local_branches() -> (branches: Vec<(&'static str, &'static str)>)
    ensures
        pair_views(branches@) == seq![("main"@, "w3"@)],
{
    let branches = vec![("main", "w3")];
    assert(pair_views(branches@) =~= seq![("main"@, "w3"@)]);
    branches
}

/// The expected tree of the history recipe's `HEAD` commit.
pub const HEAD_TREE: &'static str = "1cb4aa45b36ff8b9670d3758ebc77079aa1fcc95";

/// The expected object id of the annotated tag.
pub const TAG_V0_1_0: &'static str = "e1e7ad964046b61abf02a7635c5308b2e0c143d7";

/// A table of `&str` pairs read as character sequences.
pub open spec fn pair_views(table: Seq<(&'static str, &'static str)>) -> Seq<(Seq<char>, Seq<char>)> {
    table.map_values(|p: (&'static str, &'static str)| (p.0@, p.1@))
}

/// `(alias, expected commit OID)`, in build order.
pub open spec fn commit_oid_table() -> Seq<(Seq<char>, Seq<char>)> {
    seq![
        ("c1"@, "05ac0b6171bf93e5417b5c6f642f6fd685859c67"@),
        ("c2"@, "0a4ed91abcc1f495967477fd6192e477f68b21f5"@),
        ("c3"@, "12664d83f2c45a3255caded7894595693f7b6ffe"@),
        ("base"@, "32f830c4a5511a00c2a5e3cc41d61248f267f051"@),
        ("m1"@, "3be87f5c3d2b374f232deb35960564a5cb7b6a8c"@),
        ("fa1"@, "b9d0d727e23fab9cba3e0f25b6016ca488ce9854"@),
        ("rp1"@, "bf0d539fdc079b4104272327790311b7553dd033"@),
        ("m2"@, "4e5f7419023e6437a1a67f9fd7b1290dc5a82501"@),
        ("fa2"@, "9f4f16ce824a33f5a595f714a07bb63761c6639f"@),
        ("rp2"@, "8e857cbd2d7c249f7210f7aa84d992b437144b2d"@),
        ("fb1"@, "d2ca0857b211b3d9e0e4bfb52d48ded371216978"@),
        ("merge1"@, "931d4a54e1ee511f4a67cd6f4de17b33b4c8ba16"@),
        ("m3"@, "dc4832ba3135144811e7e98ba9d13e704daef22a"@),
        ("fa3"@, "6e103b425cda4acb36259501a7f19e9dd108e545"@),
        ("fb2"@, "eb7506a8d164ac0d5917a846a3d0c2f4b68f334f"@),
        ("m4"@, "a9214624572004adc825f586b788cb2bfa7d1f19"@),
    ]
}

pub fn commit_oids() -> (table: Vec<(&'static str, &'static str)>)
    ensures
        pair_views(table@) == commit_oid_table(),
{
    let table = vec![
        ("c1", "05ac0b6171bf93e5417b5c6f642f6fd685859c67"),
        ("c2", "0a4ed91abcc1f495967477fd6192e477f68b21f5"),
        ("c3", "12664d83f2c45a3255caded7894595693f7b6ffe"),
        ("base", "32f830c4a5511a00c2a5e3cc41d61248f267f051"),
        ("m1", "3be87f5c3d2b374f232deb35960564a5cb7b6a8c"),
        ("fa1", "b9d0d727e23fab9cba3e0f25b6016ca488ce9854"),
        ("rp1", "bf0d539fdc079b4104272327790311b7553dd033"),
        ("m2", "4e5f7419023e6437a1a67f9fd7b1290dc5a82501"),
        ("fa2", "9f4f16ce824a33f5a595f714a07bb63761c6639f"),
        ("rp2", "8e857cbd2d7c249f7210f7aa84d992b437144b2d"),
        ("fb1", "d2ca0857b211b3d9e0e4bfb52d48ded371216978"),
        ("merge1", "931d4a54e1ee511f4a67cd6f4de17b33b4c8ba16"),
        ("m3", "dc4832ba3135144811e7e98ba9d13e704daef22a"),
        ("fa3", "6e103b425cda4acb36259501a7f19e9dd108e545"),
        ("fb2", "eb7506a8d164ac0d5917a846a3d0c2f4b68f334f"),
        ("m4", "a9214624572004adc825f586b788cb2bfa7d1f19"),
    ];
    assert(pair_views(table@) =~= commit_oid_table());
    table
}

pub(crate) fn same_text(a: &str, b: &str) -> (r: bool)
    ensures
        r == (a@ == b@),
{
    let n = a.unicode_len();
    if n != b.unicode_len() {
        return false;
    }
    let mut i: usize = 0;
    while i < n
        invariant
            n == a@.len(),
            n == b@.len(),
            0 <= i <= n,
            forall|j: int| 0 <= j < i ==> a@[j] == b@[j],
        decreases n - i,
    {
        if a.get_char(i) != b.get_char(i) {
            return false;
        }
        i += 1;
    }
    assert(a@ =~= b@);
    true
}

/// The expected OID recorded for `alias`: the first entry of the table with
/// that alias. Every alias asked for must be recorded.
pub fn commit_oid(alias: &str) -> (oid: &'static str)
    requires
        exists|i: int| 0 <= i < commit_oid_table().len() && commit_oid_table()[i].0 == alias@,
    ensures
        exists|i: int|
            0 <= i < commit_oid_table().len() && commit_oid_table()[i].0 == alias@ && (forall|
                j: int,
            | 0 <= j < i ==> commit_oid_table()[j].0 != alias@) && oid@ == commit_oid_table()[i].1,
{
    let table = commit_oids();
    let mut i: usize = 0;
    while i < table.len()
        invariant
            pair_views(table@) == commit_oid_table(),
            0 <= i <= table@.len(),
            forall|j: int| 0 <= j < i ==> commit_oid_table()[j].0 != alias@,
            exists|k: int| i <= k < commit_oid_table().len() && commit_oid_table()[k].0 == alias@,
        decreases table@.len() - i,
    {
        let (name, oid) = table[i];
        assert(pair_views(table@)[i as int] == (name@, oid@));
        if same_text(name, alias) {
            return oid;
        }
        i += 1;
    }
    assert(false);
    ""
}

} // verus!
