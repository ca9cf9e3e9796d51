//! Deterministic ordering of every listing this crate returns.
//!
//! Listings are sorted by the bytes of their keys, the order `str::cmp`
//! uses, with a stable sort: entries with equal keys keep their relative
//! order. The same repository therefore reports the same order on every
//! platform, whatever order the underlying walk produced.

use vstd::prelude::*;

verus! {

/// Lexicographic order on byte strings, as `[u8]::cmp` orders them.
pub open spec fn bytes_lt(a: Seq<u8>, b: Seq<u8>) -> bool
    decreases a.len(),
{
    if b.len() == 0 {
        false
    } else if a.len() == 0 {
        true
    } else if a[0] < b[0] {
        true
    } else if a[0] > b[0] {
        false
    } else {
        bytes_lt(a.drop_first(), b.drop_first())
    }
}

pub proof fn lemma_bytes_lt_irreflexive(a: Seq<u8>)
    ensures
        !bytes_lt(a, a),
    decreases a.len(),
{
    if a.len() > 0 {
        lemma_bytes_lt_irreflexive(a.drop_first());
    }
}

pub proof fn lemma_bytes_lt_total(a: Seq<u8>, b: Seq<u8>)
    ensures
        bytes_lt(a, b) || bytes_lt(b, a) || a == b,
        !(bytes_lt(a, b) && bytes_lt(b, a)),
    decreases a.len(),
{
    if a.len() > 0 && b.len() > 0 {
        lemma_bytes_lt_total(a.drop_first(), b.drop_first());
        if a[0] == b[0] && a.drop_first() == b.drop_first() {
            assert(a =~= seq![a[0]] + a.drop_first());
            assert(b =~= seq![b[0]] + b.drop_first());
        }
    } else if a.len() == 0 && b.len() == 0 {
        assert(a =~= b);
    }
}

pub proof fn lemma_bytes_lt_transitive(a: Seq<u8>, b: Seq<u8>, c: Seq<u8>)
    requires
        bytes_lt(a, b),
        bytes_lt(b, c),
    ensures
        bytes_lt(a, c),
    decreases a.len(),
{
    if a.len() > 0 && b.len() > 0 && c.len() > 0 && a[0] == b[0] && b[0] == c[0] {
        lemma_bytes_lt_transitive(a.drop_first(), b.drop_first(), c.drop_first());
    }
}

/// `a` and `b` agree on their first `k` bytes, and there `a` has ended
/// while `b` goes on, or `a`'s next byte is the smaller.
pub open spec fn diverges_lower_at(a: Seq<u8>, b: Seq<u8>, k: int) -> bool {
    &&& 0 <= k <= a.len()
    &&& k <= b.len()
    &&& a.take(k) == b.take(k)
    &&& ((k == a.len() && k < b.len()) || (k < a.len() && k < b.len() && a[k] < b[k]))
}

/// The byte order is the lexicographic order: `a` comes before `b` exactly
/// when, after a common prefix, `a` ends while `b` goes on, or `a` has the
/// smaller next byte.
pub proof fn byte_order_is_lexicographic(a: Seq<u8>, b: Seq<u8>)
    ensures
        bytes_lt(a, b) <==> exists|k: int| #[trigger] diverges_lower_at(a, b, k),
    decreases a.len(),
{
    if b.len() == 0 {
        assert forall|k: int| !#[trigger] diverges_lower_at(a, b, k) by {}
    } else if a.len() == 0 {
        assert(a.take(0) =~= b.take(0));
        assert(diverges_lower_at(a, b, 0));
    } else if a[0] < b[0] {
        assert(a.take(0) =~= b.take(0));
        assert(diverges_lower_at(a, b, 0));
    } else if a[0] > b[0] {
        assert forall|k: int| !#[trigger] diverges_lower_at(a, b, k) by {
            if diverges_lower_at(a, b, k) && k > 0 {
                assert(a.take(k)[0] == b.take(k)[0]);
            }
        }
    } else {
        let a1 = a.drop_first();
        let b1 = b.drop_first();
        byte_order_is_lexicographic(a1, b1);
        if bytes_lt(a1, b1) {
            let k = choose|k: int| #[trigger] diverges_lower_at(a1, b1, k);
            assert(a.take(k + 1) =~= seq![a[0]] + a1.take(k));
            assert(b.take(k + 1) =~= seq![b[0]] + b1.take(k));
            assert(diverges_lower_at(a, b, k + 1));
        } else {
            assert forall|k: int| !#[trigger] diverges_lower_at(a, b, k) by {
                if diverges_lower_at(a, b, k) {
                    if k == 0 {
                    } else {
                        assert(a.take(k).drop_first() =~= a1.take(k - 1));
                        assert(b.take(k).drop_first() =~= b1.take(k - 1));
                        assert(diverges_lower_at(a1, b1, k - 1));
                    }
                }
            }
        }
    }
}

/// `a <= b` in the byte order.
pub open spec fn bytes_le(a: Seq<u8>, b: Seq<u8>) -> bool {
    !bytes_lt(b, a)
}

pub proof fn lemma_bytes_le_transitive(a: Seq<u8>, b: Seq<u8>, c: Seq<u8>)
    requires
        bytes_le(a, b),
        bytes_le(b, c),
    ensures
        bytes_le(a, c),
{
    lemma_bytes_lt_total(a, b);
    lemma_bytes_lt_total(b, c);
    lemma_bytes_lt_total(a, c);
    if bytes_lt(c, a) {
        if a == b {
        } else if b == c {
        } else {
            lemma_bytes_lt_transitive(a, b, c);
        }
    }
}

/// Byte-wise comparison of two slices.
pub fn slice_less(a: &[u8], b: &[u8]) -> (r: bool)
    ensures
        r == bytes_lt(a@, b@),
{
    let mut i: usize = 0;
    assert(a@.subrange(0, a@.len() as int) =~= a@);
    assert(b@.subrange(0, b@.len() as int) =~= b@);
    while i < a.len() && i < b.len() && a[i] == b[i]
        invariant
            0 <= i <= a@.len(),
            i <= b@.len(),
            bytes_lt(a@, b@) == bytes_lt(a@.subrange(i as int, a@.len() as int), b@.subrange(
                i as int,
                b@.len() as int,
            )),
        decreases a@.len() - i,
    {
        let ghost sa = a@.subrange(i as int, a@.len() as int);
        let ghost sb = b@.subrange(i as int, b@.len() as int);
        assert(sa.drop_first() =~= a@.subrange(i + 1, a@.len() as int));
        assert(sb.drop_first() =~= b@.subrange(i + 1, b@.len() as int));
        i += 1;
    }
    let ghost sa = a@.subrange(i as int, a@.len() as int);
    let ghost sb = b@.subrange(i as int, b@.len() as int);
    if i == b.len() {
        false
    } else if i == a.len() {
        true
    } else {
        assert(sa[0] == a@[i as int]);
        assert(sb[0] == b@[i as int]);
        a[i] < b[i]
    }
}

/// Something listed in a deterministic order: the bytes it is ordered by.
pub trait SortKey: Sized {
    spec fn sort_key(&self) -> Seq<u8>;

    fn key_less(&self, other: &Self) -> (r: bool)
        ensures
            r == bytes_lt(self.sort_key(), other.sort_key()),
    ;
}

/// Non-decreasing keys.
pub open spec fn sorted_by_key<T: SortKey>(s: Seq<T>) -> bool {
    forall|i: int, j: int|
        0 <= i < j < s.len() ==> bytes_le(#[trigger] s[i].sort_key(), #[trigger] s[j].sort_key())
}

/// `out` is `inp` rearranged, entry `k` of `out` being entry `idx[k]` of
/// `inp`, and entries with equal keys keep their relative order.
pub open spec fn stable_arrangement<T: SortKey>(out: Seq<T>, inp: Seq<T>, idx: Seq<int>) -> bool {
    &&& idx.len() == out.len()
    &&& out.len() == inp.len()
    &&& forall|k: int| 0 <= k < idx.len() ==> 0 <= #[trigger] idx[k] < inp.len()
    &&& forall|k: int| 0 <= k < idx.len() ==> out[k] == inp[#[trigger] idx[k]]
    &&& forall|a: int, b: int| 0 <= a < b < idx.len() ==> #[trigger] idx[a] != #[trigger] idx[b]
    &&& forall|a: int, b: int|
        0 <= a < b < idx.len() && (#[trigger] out[a]).sort_key() == (#[trigger] out[b]).sort_key()
            ==> idx[a] < idx[b]
}

/// `out` is the stable sort of `inp` by key.
pub open spec fn stably_sorted<T: SortKey>(out: Seq<T>, inp: Seq<T>) -> bool {
    &&& sorted_by_key(out)
    &&& exists|idx: Seq<int>| stable_arrangement(out, inp, idx)
}

/// Stable sort by key.
pub fn sort_by_key<T: SortKey>(items: Vec<T>) -> (sorted: Vec<T>)
    ensures
        stably_sorted(sorted@, items@),
{
    let ghost inp = items@;
    let ghost n = inp.len() as int;
    let mut items = items;
    let mut sorted: Vec<T> = Vec::new();
    let ghost mut idx: Seq<int> = Seq::empty();
    // Entries are taken from the back, each one going in front of every entry
    // with a key that is not smaller, so earlier entries end up first among
    // equal keys.
    while items.len() > 0
        invariant
            n == inp.len(),
            items@ == inp.subrange(0, items@.len() as int),
            sorted@.len() == n - items@.len(),
            idx.len() == sorted@.len(),
            forall|k: int|
                0 <= k < idx.len() ==> items@.len() <= #[trigger] idx[k] < n && sorted@[k]
                    == inp[idx[k]],
            forall|a: int, b: int| 0 <= a < b < idx.len() ==> #[trigger] idx[a] != #[trigger] idx[b],
            forall|a: int, b: int|
                0 <= a < b < idx.len() && (#[trigger] sorted@[a]).sort_key() == (
                #[trigger] sorted@[b]).sort_key() ==> idx[a] < idx[b],
            sorted_by_key(sorted@),
        decreases items@.len(),
    {
        let ghost m = items@.len() as int;
        let x = items.pop().unwrap();
        assert(x == inp[m - 1]);
        let mut p: usize = 0;
        while p < sorted.len() && sorted[p].key_less(&x)
            invariant
                0 <= p <= sorted@.len(),
                forall|j: int| 0 <= j < p ==> bytes_lt(sorted@[j].sort_key(), x.sort_key()),
            decreases sorted@.len() - p,
        {
            p += 1;
        }
        let ghost old_sorted = sorted@;
        let ghost old_idx = idx;
        assert forall|j: int| p <= j < old_sorted.len() implies bytes_le(
            x.sort_key(),
            old_sorted[j].sort_key(),
        ) by {
            assert(bytes_le(x.sort_key(), old_sorted[p as int].sort_key()));
            if j > p {
                assert(bytes_le(old_sorted[p as int].sort_key(), old_sorted[j].sort_key()));
                lemma_bytes_le_transitive(
                    x.sort_key(),
                    old_sorted[p as int].sort_key(),
                    old_sorted[j].sort_key(),
                );
            }
        }
        sorted.insert(p, x);
        proof {
            idx = old_idx.insert(p as int, m - 1);
            old_sorted.insert_ensures(p as int, x);
            old_idx.insert_ensures(p as int, m - 1);
            assert forall|i: int, j: int| 0 <= i < j < sorted@.len() implies bytes_le(
                #[trigger] sorted@[i].sort_key(),
                #[trigger] sorted@[j].sort_key(),
            ) by {
                if j < p {
                    assert(sorted@[i] == old_sorted[i] && sorted@[j] == old_sorted[j]);
                } else if j == p {
                    assert(sorted@[i] == old_sorted[i]);
                    lemma_bytes_lt_total(old_sorted[i].sort_key(), x.sort_key());
                } else if i > p {
                    assert(sorted@[i] == old_sorted[i - 1] && sorted@[j] == old_sorted[j - 1]);
                } else if i == p {
                    assert(sorted@[j] == old_sorted[j - 1]);
                } else {
                    assert(sorted@[i] == old_sorted[i] && sorted@[j] == old_sorted[j - 1]);
                }
            }
            assert forall|a: int, b: int|
                0 <= a < b < idx.len() && (#[trigger] sorted@[a]).sort_key() == (
                #[trigger] sorted@[b]).sort_key() implies idx[a] < idx[b] by {
                if b < p {
                    assert(sorted@[a] == old_sorted[a] && sorted@[b] == old_sorted[b]);
                } else if b == p {
                    assert(sorted@[a] == old_sorted[a]);
                    lemma_bytes_lt_irreflexive(x.sort_key());
                } else if a > p {
                    assert(sorted@[a] == old_sorted[a - 1] && sorted@[b] == old_sorted[b - 1]);
                } else if a == p {
                    assert(idx[b] == old_idx[b - 1]);
                } else {
                    assert(sorted@[a] == old_sorted[a] && sorted@[b] == old_sorted[b - 1]);
                }
            }
            assert forall|a: int, b: int| 0 <= a < b < idx.len() implies #[trigger] idx[a]
                != #[trigger] idx[b] by {
                if b < p {
                } else if b == p {
                    assert(idx[a] == old_idx[a]);
                } else if a > p {
                    assert(idx[a] == old_idx[a - 1] && idx[b] == old_idx[b - 1]);
                } else if a == p {
                    assert(idx[b] == old_idx[b - 1]);
                } else {
                    assert(idx[a] == old_idx[a] && idx[b] == old_idx[b - 1]);
                }
            }
            assert forall|k: int| 0 <= k < idx.len() implies items@.len() <= #[trigger] idx[k]
                < n && sorted@[k] == inp[idx[k]] by {
                if k < p {
                    assert(idx[k] == old_idx[k]);
                } else if k > p {
                    assert(idx[k] == old_idx[k - 1]);
                }
            }
        }
    }
    assert(stable_arrangement(sorted@, inp, idx));
    sorted
}


/// Entry `a` of `inp` comes before entry `b` in a stable sort.
pub open spec fn sorts_before<T: SortKey>(inp: Seq<T>, a: int, b: int) -> bool {
    ||| bytes_lt(inp[a].sort_key(), inp[b].sort_key())
    ||| (inp[a].sort_key() == inp[b].sort_key() && a < b)
}

proof fn lemma_arrangement_increasing<T: SortKey>(out: Seq<T>, inp: Seq<T>, idx: Seq<int>)
    requires
        sorted_by_key(out),
        stable_arrangement(out, inp, idx),
    ensures
        forall|a: int, b: int|
            0 <= a < b < idx.len() ==> sorts_before(inp, #[trigger] idx[a], #[trigger] idx[b]),
{
    assert forall|a: int, b: int| 0 <= a < b < idx.len() implies sorts_before(
        inp,
        #[trigger] idx[a],
        #[trigger] idx[b],
    ) by {
        assert(out[a] == inp[idx[a]] && out[b] == inp[idx[b]]);
        assert(bytes_le(out[a].sort_key(), out[b].sort_key()));
        lemma_bytes_lt_total(out[a].sort_key(), out[b].sort_key());
    }
}

pub(crate) proof fn lemma_arrangement_covers<T: SortKey>(out: Seq<T>, inp: Seq<T>, idx: Seq<int>, v: int)
    requires
        stable_arrangement(out, inp, idx),
        0 <= v < inp.len(),
    ensures
        exists|k: int| 0 <= k < idx.len() && idx[k] == v,
{
    broadcast use vstd::set::group_set_axioms, vstd::seq_lib::group_seq_properties;

    assert(idx.no_duplicates()) by {
        assert forall|a: int, b: int|
            0 <= a < idx.len() && 0 <= b < idx.len() && a != b implies idx[a] != idx[b] by {
            if a < b {
                assert(idx[a] != idx[b]);
            } else {
                assert(idx[b] != idx[a]);
            }
        }
    }
    idx.unique_seq_to_set();
    let range = vstd::set_lib::set_int_range(0, inp.len() as int);
    vstd::set_lib::lemma_int_range(0, inp.len() as int);
    assert(idx.to_set().subset_of(range)) by {
        assert forall|x: int| idx.to_set().contains(x) implies range.contains(x) by {
            assert(idx.contains(x));
        }
    }
    vstd::set_lib::lemma_subset_equality(idx.to_set(), range);
    assert(range.contains(v));
    assert(idx.to_set().contains(v));
    assert(idx.contains(v));
}

proof fn lemma_sorts_before_asymmetric<T: SortKey>(inp: Seq<T>, a: int, b: int)
    ensures
        !(sorts_before(inp, a, b) && sorts_before(inp, b, a)),
        a != b ==> sorts_before(inp, a, b) || sorts_before(inp, b, a),
{
    lemma_bytes_lt_total(inp[a].sort_key(), inp[b].sort_key());
    lemma_bytes_lt_irreflexive(inp[a].sort_key());
}

/// Listings are deterministic: two stable sorts of the same entries are the
/// same listing, so the same entries, in whatever order they were found, are
/// always reported in one and the same order.
pub proof fn stable_sort_is_unique<T: SortKey>(x: Seq<T>, y: Seq<T>, inp: Seq<T>)
    requires
        stably_sorted(x, inp),
        stably_sorted(y, inp),
    ensures
        x == y,
{
    let ix = choose|idx: Seq<int>| stable_arrangement(x, inp, idx);
    let iy = choose|idx: Seq<int>| stable_arrangement(y, inp, idx);
    lemma_arrangement_increasing(x, inp, ix);
    lemma_arrangement_increasing(y, inp, iy);
    let n = inp.len() as int;
    assert forall|k: int| 0 <= k < n implies ix[k] == iy[k] by {
        lemma_same_prefix(x, y, inp, ix, iy, k + 1);
    }
    assert forall|k: int| 0 <= k < n implies x[k] == y[k] by {
        assert(x[k] == inp[ix[k]] && y[k] == inp[iy[k]]);
    }
    assert(x =~= y);
}

proof fn lemma_same_prefix<T: SortKey>(
    x: Seq<T>,
    y: Seq<T>,
    inp: Seq<T>,
    ix: Seq<int>,
    iy: Seq<int>,
    m: int,
)
    requires
        stable_arrangement(x, inp, ix),
        stable_arrangement(y, inp, iy),
        forall|a: int, b: int|
            0 <= a < b < ix.len() ==> sorts_before(inp, #[trigger] ix[a], #[trigger] ix[b]),
        forall|a: int, b: int|
            0 <= a < b < iy.len() ==> sorts_before(inp, #[trigger] iy[a], #[trigger] iy[b]),
        0 <= m <= inp.len(),
    ensures
        forall|k: int| 0 <= k < m ==> ix[k] == iy[k],
    decreases m,
{
    if m > 0 {
        lemma_same_prefix(x, y, inp, ix, iy, m - 1);
        let k = m - 1;
        let a = ix[k];
        let b = iy[k];
        if a != b {
            lemma_sorts_before_asymmetric(inp, a, b);
            if sorts_before(inp, a, b) {
                lemma_arrangement_covers(y, inp, iy, a);
                let k2 = choose|j: int| 0 <= j < iy.len() && iy[j] == a;
                if k2 < k {
                    assert(ix[k2] == iy[k2]);
                    assert(ix[k2] != ix[k]);
                } else {
                    assert(sorts_before(inp, iy[k], iy[k2]));
                }
            } else {
                lemma_arrangement_covers(x, inp, ix, b);
                let k2 = choose|j: int| 0 <= j < ix.len() && ix[j] == b;
                if k2 < k {
                    assert(ix[k2] == iy[k2]);
                    assert(iy[k2] != iy[k]);
                } else {
                    assert(sorts_before(inp, ix[k], ix[k2]));
                }
            }
        }
    }
}

} // verus!
