//! Refs as the UI lists them: which kind a ref is, which one `HEAD` is on,
//! the badges drawn on a commit, and the order refs are listed in.

use vstd::prelude::*;

use vstd::string::StringExecFns;

use crate::commit::{short, short_of};
use crate::model::{HeadInfo, RefBadge, RefEntry, RefKind};
use crate::sort::{bytes_lt, slice_less, sort_by_key, stably_sorted, SortKey};
use crate::status::text_key;

verus! {

/// A ref's kind: a local branch, a remote-tracking branch or a tag; `None`
/// for anything else, which is not listed.
pub fn ref_kind(is_branch: bool, is_remote: bool, is_tag: bool) -> (kind: Option<RefKind>)
    ensures
        is_branch ==> kind == Some(RefKind::LocalBranch),
        !is_branch && is_remote ==> kind == Some(RefKind::RemoteBranch),
        !is_branch && !is_remote && is_tag ==> kind == Some(RefKind::Tag),
        !is_branch && !is_remote && !is_tag ==> kind is None,
{
    if is_branch {
        Some(RefKind::LocalBranch)
    } else if is_remote {
        Some(RefKind::RemoteBranch)
    } else if is_tag {
        Some(RefKind::Tag)
    } else {
        None
    }
}

/// Branches first, then remotes, then tags.
pub open spec fn kind_rank(kind: RefKind) -> u8 {
    match kind {
        RefKind::LocalBranch => 0,
        RefKind::RemoteBranch => 1,
        RefKind::Tag => 2,
    }
}

fn rank(kind: RefKind) -> (r: u8)
    ensures
        r == kind_rank(kind),
{
    match kind {
        RefKind::LocalBranch => 0,
        RefKind::RemoteBranch => 1,
        RefKind::Tag => 2,
    }
}

proof fn lemma_prefixed_lt(a: u8, x: Seq<u8>, b: u8, y: Seq<u8>)
    ensures
        bytes_lt(seq![a] + x, seq![b] + y) == (a < b || (a == b && bytes_lt(x, y))),
{
    let l = seq![a] + x;
    let r = seq![b] + y;
    assert(l[0] == a);
    assert(r[0] == b);
    assert(l.drop_first() =~= x);
    assert(r.drop_first() =~= y);
}

impl SortKey for RefEntry {
    /// Kind first, then name.
    open spec fn sort_key(&self) -> Seq<u8> {
        seq![kind_rank(self.kind)] + text_key(self.name)
    }

    fn key_less(&self, other: &Self) -> (r: bool) {
        proof {
            lemma_prefixed_lt(
                kind_rank(self.kind),
                text_key(self.name),
                kind_rank(other.kind),
                text_key(other.name),
            );
        }
        let a = rank(self.kind);
        let b = rank(other.kind);
        a < b || (a == b && slice_less(self.name.as_str().as_bytes(), other.name.as_str().as_bytes()))
    }
}

/// Refs are listed local branches first, then remote-tracking branches,
/// then tags, and within one kind in the byte order of their names.
pub proof fn refs_list_by_kind_then_name(refs: Seq<RefEntry>, i: int, j: int)
    requires
        crate::sort::sorted_by_key(refs),
        0 <= i < j < refs.len(),
    ensures
        refs[i].kind == RefKind::Tag ==> refs[j].kind == RefKind::Tag,
        refs[i].kind == RefKind::RemoteBranch ==> refs[j].kind != RefKind::LocalBranch,
        refs[i].kind == refs[j].kind ==> crate::sort::bytes_le(
            vstd::utf8::encode_utf8(refs[i].name@),
            vstd::utf8::encode_utf8(refs[j].name@),
        ),
{
    assert(crate::sort::bytes_le(refs[i].sort_key(), refs[j].sort_key()));
    lemma_prefixed_lt(
        kind_rank(refs[j].kind),
        text_key(refs[j].name),
        kind_rank(refs[i].kind),
        text_key(refs[i].name),
    );
}

/// Branches, then remotes, then tags; by name within each group.
pub fn sort_refs(entries: Vec<RefEntry>) -> (sorted: Vec<RefEntry>)
    ensures
        stably_sorted(sorted@, entries@),
{
    sort_by_key(entries)
}

/// A local branch is `HEAD`'s when `HEAD` points at a branch of that name.
pub fn is_head_branch(kind: RefKind, head_name: &Option<String>, name: &String) -> (r: bool)
    ensures
        r == (kind == RefKind::LocalBranch && head_name is Some && head_name->0@ == name@),
{
    match head_name {
        Some(head) => kind == RefKind::LocalBranch && *head == *name,
        None => false,
    }
}

/// `HEAD` as shown: the branch name, or the short id when detached; `HEAD`
/// when neither is known.
pub open spec fn head_name_of(
    detached: bool,
    oid: Option<String>,
    shorthand: Option<String>,
) -> Seq<char> {
    if detached {
        match oid {
            Some(id) => short_of(id@),
            None => "HEAD"@,
        }
    } else {
        match shorthand {
            Some(name) => name@,
            None => "HEAD"@,
        }
    }
}

pub fn head_info(detached: bool, oid: Option<String>, shorthand: Option<String>) -> (head: HeadInfo)
    ensures
        head.name@ == head_name_of(detached, oid, shorthand),
        head.oid == oid,
        head.detached == detached,
{
    let name = if detached {
        match &oid {
            Some(id) => String::from_str(short(id.as_str())),
            None => String::from_str("HEAD"),
        }
    } else {
        match shorthand {
            Some(name) => name,
            None => String::from_str("HEAD"),
        }
    };
    HeadInfo { name, oid, detached }
}

/// The listed entry of one ref, or `None` for a ref that is not listed: a
/// symbolic ref (such as `origin/HEAD`), one without a full or short name,
/// one of another kind than branch, remote-tracking branch or tag, or one
/// that does not peel to a commit (`target`). Only a local branch carries
/// tracking information (`tracking`: upstream, ahead, behind); every other
/// kind has no upstream and counts of zero.
pub fn ref_entry(
    symbolic: bool,
    full_name: Option<String>,
    name: Option<String>,
    kind: Option<RefKind>,
    target: Option<String>,
    head_name: &Option<String>,
    tracking: (Option<String>, u32, u32),
) -> (r: Option<RefEntry>)
    ensures
        r is Some <==> (!symbolic && full_name is Some && name is Some && kind is Some
            && target is Some),
        r matches Some(e) ==> {
            &&& e.name == name->0
            &&& e.full_name == full_name->0
            &&& e.kind == kind->0
            &&& e.target == target->0
            &&& e.is_head == (e.kind == RefKind::LocalBranch && head_name is Some && head_name->0@
                == e.name@)
            &&& e.kind == RefKind::LocalBranch ==> (e.upstream == tracking.0 && e.ahead
                == tracking.1 && e.behind == tracking.2)
            &&& e.kind != RefKind::LocalBranch ==> (e.upstream is None && e.ahead == 0 && e.behind
                == 0)
        },
{
    if symbolic {
        return None;
    }
    match (full_name, name, kind, target) {
        (Some(full_name), Some(name), Some(kind), Some(target)) => {
            let is_head = is_head_branch(kind, head_name, &name);
            let (upstream, ahead, behind) = match kind {
                RefKind::LocalBranch => tracking,
                _ => (None, 0, 0),
            };
            Some(RefEntry { name, full_name, kind, target, is_head, upstream, ahead, behind })
        },
        _ => None,
    }
}

/// The badge a listed ref puts on its target commit.
pub open spec fn badge_of(entry: RefEntry) -> RefBadge {
    RefBadge { name: entry.name, kind: entry.kind, is_head: entry.is_head }
}

/// The badges of the refs that point at `id`, in listing order.
pub open spec fn badges_of(entries: Seq<RefEntry>, id: Seq<char>) -> Seq<RefBadge>
    decreases entries.len(),
{
    if entries.len() == 0 {
        Seq::empty()
    } else {
        let prev = badges_of(entries.drop_last(), id);
        if entries.last().target@ == id {
            prev.push(badge_of(entries.last()))
        } else {
            prev
        }
    }
}

/// The refs that point at `id`.
pub open spec fn points_at(id: Seq<char>) -> spec_fn(RefEntry) -> bool {
    |e: RefEntry| e.target@ == id
}

/// A commit's badges are exactly the listed refs whose target is that
/// commit, one badge each, in listing order, each with the ref's name, kind
/// and `HEAD` mark.
pub proof fn badges_are_the_refs_at_a_commit(entries: Seq<RefEntry>, id: Seq<char>)
    ensures
        badges_of(entries, id).len() == entries.filter(points_at(id)).len(),
        forall|k: int|
            0 <= k < badges_of(entries, id).len() ==> {
                let e = entries.filter(points_at(id))[k];
                &&& (#[trigger] badges_of(entries, id)[k]).name == e.name
                &&& badges_of(entries, id)[k].kind == e.kind
                &&& badges_of(entries, id)[k].is_head == e.is_head
                &&& e.target@ == id
            },
    decreases entries.len(),
{
    reveal(Seq::filter);
    if entries.len() > 0 {
        badges_are_the_refs_at_a_commit(entries.drop_last(), id);
        entries.drop_last().filter_lemma(points_at(id));
    }
}

/// The badges drawn on commit `id`.
pub fn badges_for(entries: &Vec<RefEntry>, id: &String) -> (badges: Vec<RefBadge>)
    ensures
        badges@ == badges_of(entries@, id@),
{
    let mut badges: Vec<RefBadge> = Vec::new();
    let mut i: usize = 0;
    while i < entries.len()
        invariant
            0 <= i <= entries@.len(),
            badges@ == badges_of(entries@.subrange(0, i as int), id@),
        decreases entries@.len() - i,
    {
        let ghost prefix = entries@.subrange(0, i + 1);
        assert(prefix.drop_last() =~= entries@.subrange(0, i as int));
        assert(prefix.last() == entries@[i as int]);
        let entry = &entries[i];
        if entry.target == *id {
            badges.push(RefBadge { name: entry.name.clone(), kind: entry.kind, is_head: entry.is_head });
        }
        i += 1;
    }
    assert(entries@.subrange(0, entries@.len() as int) =~= entries@);
    badges
}

} // verus!
