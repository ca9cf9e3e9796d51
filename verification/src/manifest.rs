//! The manifest written beside a built fixture: for each recipe commit its
//! alias, object id, short id, summary and the lane the layout gave it, and
//! the alias of the commit drawn on the first row.

use vstd::prelude::*;

use vstd::string::StringExecFns;

use crate::commit::{short, short_of};
use crate::fixtures::{same_text, CommitSpec};

verus! {

/// One commit of the manifest.
pub struct ManifestCommit {
    pub alias: String,
    pub oid: String,
    pub short_id: String,
    pub summary: String,
    pub lane: u32,
}

/// The summary the recipe gives `alias`: that of its first commit with the
/// alias, or empty when it has none.
pub open spec fn summary_of(specs: Seq<CommitSpec>, alias: Seq<char>) -> Seq<char>
    decreases specs.len(),
{
    if specs.len() == 0 {
        Seq::empty()
    } else if specs[0].alias@ == alias {
        specs[0].summary@
    } else {
        summary_of(specs.drop_first(), alias)
    }
}

/// The lane of the row drawing `id`: the last row with that id, or lane 0
/// when no row draws it.
pub open spec fn lane_of(rows: Seq<(String, u32)>, id: Seq<char>) -> int
    decreases rows.len(),
{
    if rows.len() == 0 {
        0
    } else if rows.last().0@ == id {
        rows.last().1 as int
    } else {
        lane_of(rows.drop_last(), id)
    }
}

/// The alias of the first built commit whose object id is `id`.
pub open spec fn alias_of(built: Seq<(String, String)>, id: Seq<char>) -> Option<Seq<char>>
    decreases built.len(),
{
    if built.len() == 0 {
        None
    } else if built[0].1@ == id {
        Some(built[0].0@)
    } else {
        alias_of(built.drop_first(), id)
    }
}

fn summary_for(specs: &Vec<CommitSpec>, alias: &str) -> (r: String)
    ensures
        r@ == summary_of(specs@, alias@),
{
    let mut i: usize = 0;
    assert(specs@.skip(0) =~= specs@);
    while i < specs.len()
        invariant
            0 <= i <= specs@.len(),
            summary_of(specs@, alias@) == summary_of(specs@.skip(i as int), alias@),
        decreases specs@.len() - i,
    {
        assert(specs@.skip(i as int).drop_first() =~= specs@.skip(i + 1));
        assert(specs@.skip(i as int)[0] == specs@[i as int]);
        if same_text(specs[i].alias, alias) {
            return String::from_str(specs[i].summary);
        }
        i += 1;
    }
    proof {
        reveal_strlit("");
        assert(specs@.skip(i as int) =~= Seq::<CommitSpec>::empty());
    }
    String::from_str("")
}

fn lane_for(rows: &Vec<(String, u32)>, id: &String) -> (r: u32)
    ensures
        r as int == lane_of(rows@, id@),
{
    let mut i: usize = rows.len();
    assert(rows@.take(i as int) =~= rows@);
    while i > 0
        invariant
            0 <= i <= rows@.len(),
            lane_of(rows@, id@) == lane_of(rows@.take(i as int), id@),
        decreases i,
    {
        assert(rows@.take(i as int).drop_last() =~= rows@.take(i - 1));
        assert(rows@.take(i as int).last() == rows@[i - 1]);
        if rows[i - 1].0 == *id {
            return rows[i - 1].1;
        }
        i -= 1;
    }
    assert(rows@.take(0) =~= Seq::<(String, u32)>::empty());
    0
}

/// The manifest entry of a built commit: `rows` are the graph's rows as
/// `(commit id, lane)`.
pub fn manifest_commit(
    alias: String,
    oid: String,
    specs: &Vec<CommitSpec>,
    rows: &Vec<(String, u32)>,
) -> (c: ManifestCommit)
    ensures
        c.alias == alias,
        c.oid == oid,
        c.short_id@ == short_of(oid@),
        c.summary@ == summary_of(specs@, alias@),
        c.lane as int == lane_of(rows@, oid@),
{
    let summary = summary_for(specs, alias.as_str());
    let lane = lane_for(rows, &oid);
    let short_id = String::from_str(short(oid.as_str()));
    ManifestCommit { alias, oid, short_id, summary, lane }
}

/// The alias of the commit drawn on the first row, `id`, among the built
/// `(alias, object id)` pairs.
pub fn first_row_alias(built: &Vec<(String, String)>, id: &String) -> (r: Option<String>)
    ensures
        match r {
            Some(a) => alias_of(built@, id@) == Some(a@),
            None => alias_of(built@, id@) is None,
        },
{
    let mut i: usize = 0;
    assert(built@.skip(0) =~= built@);
    while i < built.len()
        invariant
            0 <= i <= built@.len(),
            alias_of(built@, id@) == alias_of(built@.skip(i as int), id@),
        decreases built@.len() - i,
    {
        assert(built@.skip(i as int).drop_first() =~= built@.skip(i + 1));
        assert(built@.skip(i as int)[0] == built@[i as int]);
        if built[i].1 == *id {
            return Some(built[i].0.clone());
        }
        i += 1;
    }
    assert(built@.skip(i as int) =~= Seq::<(String, String)>::empty());
    None
}

} // verus!
