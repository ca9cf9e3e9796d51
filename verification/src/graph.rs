//! Lane assignment for the commit DAG.
//!
//! Given commits in topological order (newest first), every commit is placed
//! on a horizontal track (a *lane*) and every commit-to-parent connection
//! becomes an [`Edge`] that already knows which lane it lands in.
//!
//! The layout runs in two passes on purpose. The first decides where each
//! commit sits, the second draws the connections. Doing both at once would
//! mean emitting an edge before knowing where its parent finally lands.
//!
//! Inside the first pass a lane waits for a commit of the walked window,
//! named by its row (the last row carrying that id, as an id → row table
//! built from the rows in order would give). Two rows carry the same id
//! exactly when they name the same waited-for row, so waiting on rows is
//! waiting on ids.

use vstd::prelude::*;

use vstd::hash_map::StringHashMap;

use crate::model::{Commit, Edge, Graph, GraphRow};

verus! {

/// Distinct colours cycled through whenever a new line starts.
pub const COLOR_COUNT: u32 = 12;

/// The first position of `s` that holds `t`.
pub open spec fn first_match<T>(s: Seq<T>, t: T) -> Option<int>
    decreases s.len(),
{
    if s.len() == 0 {
        None
    } else {
        match first_match(s.drop_last(), t) {
            Some(i) => Some(i),
            None => if s.last() == t {
                Some(s.len() - 1)
            } else {
                None
            },
        }
    }
}

pub proof fn lemma_first_match<T>(s: Seq<T>, t: T)
    ensures
        match first_match(s, t) {
            Some(i) => 0 <= i < s.len() && s[i] == t && forall|j: int| 0 <= j < i ==> s[j] != t,
            None => forall|j: int| 0 <= j < s.len() ==> s[j] != t,
        },
    decreases s.len(),
{
    if s.len() > 0 {
        let init = s.drop_last();
        lemma_first_match(init, t);
        assert forall|j: int| 0 <= j < init.len() implies init[j] == s[j] by {}
    }
}

/// `Option<usize>` read as `Option<int>`.
pub open spec fn opt_int(o: Option<usize>) -> Option<int> {
    match o {
        Some(x) => Some(x as int),
        None => None,
    }
}

/// The state of the first pass: which row each lane waits for, the colour
/// each lane carries, and the colour the next new line will get.
pub struct LaneModel {
    pub slots: Seq<Option<usize>>,
    pub colors: Seq<u32>,
    pub next_color: u32,
}

impl LaneModel {
    pub open spec fn empty() -> LaneModel {
        LaneModel { slots: Seq::empty(), colors: Seq::empty(), next_color: 0 }
    }

    /// The leftmost lane waiting for `key`.
    pub open spec fn find(self, key: usize) -> Option<int> {
        first_match(self.slots, Some(key))
    }

    pub open spec fn free(self, lane: int) -> LaneModel {
        LaneModel { slots: self.slots.update(lane, None), ..self }
    }

    /// Every lane waiting for `key` stops waiting.
    pub open spec fn release(self, key: usize) -> LaneModel {
        LaneModel {
            slots: Seq::new(
                self.slots.len(),
                |j: int|
                    if self.slots[j] == Some(key) {
                        None
                    } else {
                        self.slots[j]
                    },
            ),
            ..self
        }
    }

    pub open spec fn park(self, lane: int, key: usize, color: u32) -> LaneModel {
        LaneModel {
            slots: self.slots.update(lane, Some(key)),
            colors: self.colors.update(lane, color),
            next_color: self.next_color,
        }
    }

    /// The lane a new line starts on: the leftmost free one, or a new one.
    pub open spec fn start_lane(self) -> int {
        match first_match(self.slots, None) {
            Some(lane) => lane,
            None => self.slots.len() as int,
        }
    }

    /// A new line for `key` on the leftmost free lane, with the next colour.
    pub open spec fn start(self, key: usize) -> LaneModel {
        let lane = self.start_lane();
        let grown = if lane == self.slots.len() {
            LaneModel {
                slots: self.slots.push(None),
                colors: self.colors.push(0),
                next_color: self.next_color,
            }
        } else {
            self
        };
        LaneModel {
            next_color: ((self.next_color + 1) % (COLOR_COUNT as int)) as u32,
            ..grown
        }.park(lane, key, self.next_color)
    }

    /// The invariant of the first pass over a window of `n` rows: lanes and
    /// colours line up, colours are in range, every lane waits for a row of
    /// the window, no two lanes wait for the same row, and so there are never
    /// more lanes than rows.
    pub open spec fn wf(self, n: int) -> bool {
        &&& self.slots.len() == self.colors.len()
        &&& self.slots.len() <= n
        &&& self.next_color < COLOR_COUNT
        &&& forall|j: int| 0 <= j < self.colors.len() ==> self.colors[j] < COLOR_COUNT
        &&& forall|j: int|
            0 <= j < self.slots.len() && self.slots[j] is Some ==> (self.slots[j]->0 as int) < n
        &&& forall|a: int, b: int|
            0 <= a < self.slots.len() && 0 <= b < self.slots.len() && a != b
                && self.slots[a] is Some ==> self.slots[a] != self.slots[b]
    }
}


/// The lanes in flight during the first pass. Each slot holds the row the
/// lane is still waiting for; `None` marks a free track, reused so the graph
/// stays narrow.
struct Lanes {
    slots: Vec<Option<usize>>,
    colors: Vec<u32>,
    next_color: u32,
}

impl Lanes {
    spec fn model(&self) -> LaneModel {
        LaneModel { slots: self.slots@, colors: self.colors@, next_color: self.next_color }
    }

    fn new() -> (lanes: Lanes)
        ensures
            lanes.model() == LaneModel::empty(),
    {
        Lanes { slots: Vec::new(), colors: Vec::new(), next_color: 0 }
    }

    fn find(&self, oid: usize) -> (r: Option<usize>)
        ensures
            opt_int(r) == self.model().find(oid),
    {
        proof {
            lemma_first_match(self.slots@, Some(oid));
        }
        let mut i: usize = 0;
        while i < self.slots.len()
            invariant
                0 <= i <= self.slots@.len(),
                forall|j: int| 0 <= j < i ==> self.slots@[j] != Some(oid),
                match first_match(self.slots@, Some(oid)) {
                    Some(f) => 0 <= f < self.slots@.len() && self.slots@[f] == Some(oid) && forall|
                        j: int,
                    | 0 <= j < f ==> self.slots@[j] != Some(oid),
                    None => forall|j: int| 0 <= j < self.slots@.len() ==> self.slots@[j] != Some(oid),
                },
            decreases self.slots@.len() - i,
        {
            if let Some(k) = self.slots[i] {
                if k == oid {
                    return Some(i);
                }
            }
            i += 1;
        }
        None
    }

    fn free(&mut self, lane: usize)
        requires
            lane < old(self).slots@.len(),
        ensures
            final(self).model() == old(self).model().free(lane as int),
    {
        self.slots.set(lane, None);
    }

    /// Release every track waiting for `oid`, which has just been placed.
    fn release(&mut self, oid: usize)
        ensures
            final(self).model() == old(self).model().release(oid),
    {
        let ghost orig = self.slots@;
        let mut i: usize = 0;
        while i < self.slots.len()
            invariant
                self.slots@.len() == orig.len(),
                self.colors@ == old(self).colors@,
                self.next_color == old(self).next_color,
                orig == old(self).slots@,
                0 <= i <= orig.len(),
                forall|j: int|
                    0 <= j < i ==> self.slots@[j] == (if orig[j] == Some(oid) {
                        None
                    } else {
                        orig[j]
                    }),
                forall|j: int| i <= j < orig.len() ==> self.slots@[j] == orig[j],
            decreases orig.len() - i,
        {
            if let Some(k) = self.slots[i] {
                if k == oid {
                    self.slots.set(i, None);
                }
            }
            i += 1;
        }
        assert(self.model().slots =~= old(self).model().release(oid).slots);
    }

    /// Park `oid` on a known-free track, keeping the line's colour.
    fn park(&mut self, lane: usize, oid: usize, color: u32)
        requires
            lane < old(self).slots@.len(),
            old(self).slots@.len() == old(self).colors@.len(),
        ensures
            final(self).model() == old(self).model().park(lane as int, oid, color),
    {
        self.slots.set(lane, Some(oid));
        self.colors.set(lane, color);
    }

    /// Start a brand new line on the leftmost free track, with a new colour.
    fn start(&mut self, oid: usize) -> (lane: usize)
        requires
            old(self).slots@.len() == old(self).colors@.len(),
            old(self).next_color < COLOR_COUNT,
            old(self).model().start_lane() < usize::MAX,
        ensures
            final(self).model() == old(self).model().start(oid),
            lane as int == old(self).model().start_lane(),
    {
        proof {
            lemma_first_match(self.slots@, None);
        }
        let mut i: usize = 0;
        while i < self.slots.len() && self.slots[i].is_some()
            invariant
                0 <= i <= self.slots@.len(),
                self.slots@ == old(self).slots@,
                forall|j: int| 0 <= j < i ==> self.slots@[j] is Some,
            decreases self.slots@.len() - i,
        {
            i += 1;
        }
        let lane = if i < self.slots.len() {
            i
        } else {
            self.slots.push(None);
            self.colors.push(0);
            self.slots.len() - 1
        };
        let color = self.next_color;
        self.next_color = (self.next_color + 1) % COLOR_COUNT;
        self.park(lane, oid, color);
        lane
    }
}


/// The last position of `ids` holding `id`.
pub open spec fn last_index(ids: Seq<Seq<char>>, id: Seq<char>) -> Option<int>
    decreases ids.len(),
{
    if ids.len() == 0 {
        None
    } else if ids.last() == id {
        Some(ids.len() - 1)
    } else {
        last_index(ids.drop_last(), id)
    }
}

pub proof fn lemma_last_index(ids: Seq<Seq<char>>, id: Seq<char>)
    ensures
        match last_index(ids, id) {
            Some(r) => 0 <= r < ids.len() && ids[r] == id && forall|j: int|
                r < j < ids.len() ==> ids[j] != id,
            None => forall|j: int| 0 <= j < ids.len() ==> ids[j] != id,
        },
    decreases ids.len(),
{
    if ids.len() > 0 {
        let init = ids.drop_last();
        lemma_last_index(init, id);
        assert forall|j: int| 0 <= j < init.len() implies init[j] == ids[j] by {}
    }
}

/// The ids of the walked window, row by row.
pub open spec fn ids_of(commits: Seq<Commit>) -> Seq<Seq<char>> {
    commits.map_values(|c: Commit| c.id@)
}

/// The row of the window that `id` resolves to: the last row carrying it,
/// or `None` when the id lies outside the window.
pub open spec fn row_of(commits: Seq<Commit>, id: Seq<char>) -> Option<int> {
    last_index(ids_of(commits), id)
}

/// The row that row `i`'s own id resolves to.
pub open spec fn row_key(commits: Seq<Commit>, i: int) -> usize {
    match row_of(commits, commits[i].id@) {
        Some(r) => r as usize,
        None => 0,
    }
}

/// The row that the parent at `position` of row `i` resolves to.
pub open spec fn parent_key(commits: Seq<Commit>, i: int, position: int) -> Option<usize> {
    match row_of(commits, commits[i].parents@[position]@) {
        Some(r) => Some(r as usize),
        None => None,
    }
}

pub open spec fn parent_keys(commits: Seq<Commit>, i: int) -> Seq<Option<usize>> {
    Seq::new(commits[i].parents@.len(), |position: int| parent_key(commits, i, position))
}

/// One parent of the row being placed on lane `current` with `color`.
///
/// The first parent continues the line: it folds into an older line further
/// left that already waits for it, takes it back from a younger line to the
/// right, or is parked on the current lane. Any other parent that nothing
/// waits for yet starts its own line. A parent outside the window holds no
/// lane at all.
pub open spec fn parent_step(
    m: LaneModel,
    current: int,
    color: u32,
    parent: Option<usize>,
    position: int,
) -> LaneModel {
    match parent {
        None => m,
        Some(p) => if position == 0 {
            match m.find(p) {
                Some(other) => if other < current {
                    m
                } else {
                    m.free(other).park(current, p, color)
                },
                None => m.park(current, p, color),
            }
        } else if m.find(p) is None {
            m.start(p)
        } else {
            m
        },
    }
}

/// The first `k` parents, in order.
pub open spec fn parents_fold(
    m: LaneModel,
    current: int,
    color: u32,
    parents: Seq<Option<usize>>,
    k: nat,
) -> LaneModel
    decreases k,
{
    if k == 0 {
        m
    } else {
        parent_step(
            parents_fold(m, current, color, parents, (k - 1) as nat),
            current,
            color,
            parents[k - 1],
            k - 1,
        )
    }
}

/// The lane a row lands on: the leftmost lane already waiting for it, or a
/// new line.
pub open spec fn claim_lane(m: LaneModel, key: usize) -> int {
    match m.find(key) {
        Some(lane) => lane,
        None => m.start_lane(),
    }
}

pub open spec fn claim(m: LaneModel, key: usize) -> LaneModel {
    match m.find(key) {
        Some(_) => m,
        None => m.start(key),
    }
}

/// Where the first `n` rows ended up.
pub struct Placed {
    pub lanes: LaneModel,
    pub lane: Seq<u32>,
    pub color: Seq<u32>,
    pub lane_count: u32,
}

/// The first pass over the first `n` rows.
pub open spec fn place_upto(commits: Seq<Commit>, n: nat) -> Placed
    decreases n,
{
    if n == 0 {
        Placed { lanes: LaneModel::empty(), lane: Seq::empty(), color: Seq::empty(), lane_count: 0 }
    } else {
        let i = n - 1;
        let prev = place_upto(commits, (n - 1) as nat);
        let key = row_key(commits, i);
        let current = claim_lane(prev.lanes, key);
        let claimed = claim(prev.lanes, key);
        let color = claimed.colors[current];
        let released = claimed.release(key);
        let lanes = parents_fold(
            released,
            current,
            color,
            parent_keys(commits, i),
            commits[i].parents@.len(),
        );
        Placed {
            lanes,
            lane: prev.lane.push(current as u32),
            color: prev.color.push(color),
            lane_count: if prev.lane_count > current + 1 {
                prev.lane_count
            } else {
                (current + 1) as u32
            },
        }
    }
}

/// The whole first pass.
pub open spec fn placement(commits: Seq<Commit>) -> Placed {
    place_upto(commits, commits.len())
}


/// Distinct rows of a window of `n` rows number at most `n`.
proof fn lemma_distinct_rows_bounded(keys: Seq<usize>, n: int)
    requires
        0 <= n,
        keys.no_duplicates(),
        forall|j: int| 0 <= j < keys.len() ==> (keys[j] as int) < n,
    ensures
        keys.len() <= n,
{
    broadcast use vstd::set::group_set_axioms, vstd::seq_lib::group_seq_properties;

    let ints = keys.map_values(|k: usize| k as int);
    assert(ints.no_duplicates());
    ints.unique_seq_to_set();
    vstd::set_lib::lemma_int_range(0, n);
    assert forall|x: int| ints.to_set().contains(x) implies vstd::set_lib::set_int_range(
        0,
        n,
    ).contains(x) by {
        assert(ints.contains(x));
    }
    vstd::set_lib::lemma_len_subset(ints.to_set(), vstd::set_lib::set_int_range(0, n));
}

proof fn lemma_start_wf(m: LaneModel, key: usize, n: int)
    requires
        m.wf(n),
        (key as int) < n,
        m.find(key) is None,
    ensures
        m.start(key).wf(n),
        0 <= m.start_lane() < m.start(key).slots.len(),
        m.start(key).slots[m.start_lane()] == Some(key),
        m.start(key).colors[m.start_lane()] == m.next_color,
{
    lemma_first_match(m.slots, None);
    lemma_first_match(m.slots, Some(key));
    if m.start_lane() == m.slots.len() {
        let keys = Seq::new(
            (m.slots.len() + 1) as nat,
            |j: int|
                if j < m.slots.len() {
                    m.slots[j]->0
                } else {
                    key
                },
        );
        assert(keys.no_duplicates()) by {
            assert forall|a: int, b: int|
                0 <= a < keys.len() && 0 <= b < keys.len() && a != b implies keys[a] != keys[b] by {
                if a < m.slots.len() && b < m.slots.len() {
                    assert(m.slots[a] != m.slots[b]);
                } else if a < m.slots.len() {
                    assert(m.slots[a] != Some(key));
                } else {
                    assert(m.slots[b] != Some(key));
                }
            }
        }
        lemma_distinct_rows_bounded(keys, n);
    }
}

proof fn lemma_release_wf(m: LaneModel, key: usize, n: int)
    requires
        m.wf(n),
    ensures
        m.release(key).wf(n),
        m.release(key).find(key) is None,
{
    lemma_first_match(m.release(key).slots, Some(key));
}

proof fn lemma_park_wf(m: LaneModel, lane: int, key: usize, color: u32, n: int)
    requires
        m.wf(n),
        0 <= lane < m.slots.len(),
        m.slots[lane] is None,
        (key as int) < n,
        m.find(key) is None,
        color < COLOR_COUNT,
    ensures
        m.park(lane, key, color).wf(n),
{
    lemma_first_match(m.slots, Some(key));
}

proof fn lemma_free_wf(m: LaneModel, lane: int, n: int)
    requires
        m.wf(n),
        0 <= lane < m.slots.len(),
    ensures
        m.free(lane).wf(n),
        m.free(lane).slots[lane] is None,
{
}

proof fn lemma_parent_step_wf(
    m: LaneModel,
    current: int,
    color: u32,
    parent: Option<usize>,
    position: int,
    n: int,
)
    requires
        m.wf(n),
        color < COLOR_COUNT,
        parent is Some ==> (parent->0 as int) < n,
        position == 0 ==> 0 <= current < m.slots.len() && m.slots[current] is None,
    ensures
        parent_step(m, current, color, parent, position).wf(n),
{
    if let Some(p) = parent {
        lemma_first_match(m.slots, Some(p));
        if position == 0 {
            match m.find(p) {
                Some(other) => {
                    if other >= current {
                        lemma_free_wf(m, other, n);
                        let freed = m.free(other);
                        lemma_first_match(freed.slots, Some(p));
                        lemma_park_wf(freed, current, p, color, n);
                    }
                },
                None => {
                    lemma_park_wf(m, current, p, color, n);
                },
            }
        } else if m.find(p) is None {
            lemma_start_wf(m, p, n);
        }
    }
}


proof fn lemma_parents_fold_wf(
    m: LaneModel,
    current: int,
    color: u32,
    parents: Seq<Option<usize>>,
    k: nat,
    n: int,
)
    requires
        m.wf(n),
        color < COLOR_COUNT,
        k <= parents.len(),
        forall|j: int| 0 <= j < parents.len() && parents[j] is Some ==> (parents[j]->0 as int) < n,
        k > 0 ==> 0 <= current < m.slots.len() && m.slots[current] is None,
    ensures
        parents_fold(m, current, color, parents, k).wf(n),
    decreases k,
{
    if k > 0 {
        lemma_parents_fold_wf(m, current, color, parents, (k - 1) as nat, n);
        lemma_parent_step_wf(
            parents_fold(m, current, color, parents, (k - 1) as nat),
            current,
            color,
            parents[k - 1],
            k - 1,
            n,
        );
    }
}

proof fn lemma_claim(m: LaneModel, key: usize, n: int)
    requires
        m.wf(n),
        (key as int) < n,
    ensures
        claim(m, key).wf(n),
        0 <= claim_lane(m, key) < claim(m, key).slots.len(),
        claim(m, key).slots[claim_lane(m, key)] == Some(key),
{
    lemma_first_match(m.slots, Some(key));
    if m.find(key) is None {
        lemma_start_wf(m, key, n);
    }
}

/// Every row of the window resolves to a row of the window, and so does
/// every parent that resolves at all.
pub proof fn lemma_keys_in_window(commits: Seq<Commit>, i: int)
    requires
        0 <= i < commits.len(),
        commits.len() <= u32::MAX,
    ensures
        row_of(commits, commits[i].id@) is Some,
        (row_key(commits, i) as int) < commits.len(),
        row_of(commits, commits[i].id@)->0 == row_key(commits, i) as int,
        commits[row_key(commits, i) as int].id@ == commits[i].id@,
        forall|position: int|
            0 <= position < commits[i].parents@.len() && parent_key(commits, i, position) is Some
                ==> (parent_key(commits, i, position)->0 as int) < commits.len(),
{
    let ids = ids_of(commits);
    lemma_last_index(ids, commits[i].id@);
    assert(ids[i] == commits[i].id@);
    assert forall|position: int|
        0 <= position < commits[i].parents@.len() && parent_key(commits, i, position) is Some
            implies (parent_key(commits, i, position)->0 as int) < commits.len() by {
        lemma_last_index(ids, commits[i].parents@[position]@);
    }
}

/// What the first pass guarantees about the first `n` rows.
pub proof fn lemma_place_upto(commits: Seq<Commit>, n: nat)
    requires
        n <= commits.len(),
        commits.len() <= u32::MAX,
    ensures
        place_upto(commits, n).lanes.wf(commits.len() as int),
        place_upto(commits, n).lane.len() == n,
        place_upto(commits, n).color.len() == n,
        place_upto(commits, n).lane_count <= commits.len(),
        forall|j: int|
            0 <= j < n ==> place_upto(commits, n).lane[j] < place_upto(commits, n).lane_count
                && place_upto(commits, n).color[j] < COLOR_COUNT,
        n == 0 ==> place_upto(commits, n).lane_count == 0,
        n > 0 ==> exists|j: int|
            0 <= j < n && place_upto(commits, n).lane[j] + 1 == place_upto(commits, n).lane_count,
    decreases n,
{
    let len = commits.len() as int;
    if n > 0 {
        let i = n - 1;
        lemma_place_upto(commits, (n - 1) as nat);
        let prev = place_upto(commits, (n - 1) as nat);
        lemma_keys_in_window(commits, i);
        let key = row_key(commits, i);
        lemma_claim(prev.lanes, key, len);
        let current = claim_lane(prev.lanes, key);
        let claimed = claim(prev.lanes, key);
        let color = claimed.colors[current];
        lemma_release_wf(claimed, key, len);
        let released = claimed.release(key);
        let parents = parent_keys(commits, i);
        lemma_parents_fold_wf(released, current, color, parents, commits[i].parents@.len(), len);
        let now = place_upto(commits, n);
        if prev.lane_count > current + 1 {
            let j = choose|j: int| 0 <= j < n - 1 && prev.lane[j] + 1 == prev.lane_count;
            assert(now.lane[j] + 1 == now.lane_count);
        } else {
            assert(now.lane[i] + 1 == now.lane_count);
        }
    }
}


/// The edge from row `row` to the parent at `position`, given where every
/// row landed. The extra parents of a merge belong to the branch being merged
/// in, so their connector takes that branch's colour. A parent outside the
/// walked window becomes a stub running straight down from the commit.
pub open spec fn edge_for(
    parent: Option<usize>,
    lane: Seq<u32>,
    color: Seq<u32>,
    row: int,
    position: int,
) -> Edge {
    match parent {
        Some(r) => Edge {
            from_lane: lane[row],
            to_lane: lane[r as int],
            to_row: Some(r as u32),
            color: if position == 0 {
                color[row]
            } else {
                color[r as int]
            },
        },
        None => Edge { from_lane: lane[row], to_lane: lane[row], to_row: None, color: color[row] },
    }
}

/// The edge `build` draws from row `i` to its parent at `position`.
pub open spec fn expected_edge(commits: Seq<Commit>, i: int, position: int) -> Edge {
    edge_for(
        parent_key(commits, i, position),
        placement(commits).lane,
        placement(commits).color,
        i,
        position,
    )
}

/// The index of the window: every id mapped to the row it resolves to.
pub open spec fn indexes_rows(index: Map<Seq<char>, usize>, commits: Seq<Commit>) -> bool {
    &&& forall|id: Seq<char>| #[trigger] index.contains_key(id) <==> row_of(commits, id) is Some
    &&& forall|id: Seq<char>|
        index.contains_key(id) ==> row_of(commits, id) == Some(#[trigger] index[id] as int)
}

/// Every id of the window mapped to its last row, in one pass.
fn row_index(commits: &Vec<Commit>) -> (index: StringHashMap<usize>)
    ensures
        indexes_rows(index@, commits@),
{
    let ghost ids = ids_of(commits@);
    let mut index: StringHashMap<usize> = StringHashMap::new();
    let mut i: usize = 0;
    while i < commits.len()
        invariant
            0 <= i <= commits@.len(),
            ids == ids_of(commits@),
            forall|id: Seq<char>| #[trigger]
                index@.contains_key(id) <==> last_index(ids.take(i as int), id) is Some,
            forall|id: Seq<char>|
                index@.contains_key(id) ==> last_index(ids.take(i as int), id) == Some(
                    #[trigger] index@[id] as int,
                ),
        decreases commits@.len() - i,
    {
        proof {
            let t = ids.take(i + 1);
            assert(t.drop_last() =~= ids.take(i as int));
            assert(t.last() == commits@[i as int].id@);
        }
        index.insert(commits[i].id.clone(), i);
        i += 1;
    }
    assert(ids.take(commits@.len() as int) =~= ids);
    index
}

/// The row `id` resolves to in the window: its last occurrence.
fn find_row(index: &StringHashMap<usize>, commits: &Vec<Commit>, id: &String) -> (r: Option<usize>)
    requires
        indexes_rows(index@, commits@),
    ensures
        opt_int(r) == row_of(commits@, id@),
{
    match index.get(id.as_str()) {
        Some(row) => Some(*row),
        None => None,
    }
}

/// Resolve every row's own id and every parent id against the window.
fn resolve_rows(commits: &Vec<Commit>) -> (r: (Vec<usize>, Vec<Vec<Option<usize>>>))
    requires
        commits@.len() <= u32::MAX,
    ensures
        r.0@.len() == commits@.len(),
        r.1@.len() == commits@.len(),
        forall|i: int| 0 <= i < commits@.len() ==> r.0@[i] == row_key(commits@, i),
        forall|i: int| 0 <= i < commits@.len() ==> r.1@[i]@ == parent_keys(commits@, i),
{
    let index = row_index(commits);
    let mut keys: Vec<usize> = Vec::new();
    let mut parents: Vec<Vec<Option<usize>>> = Vec::new();
    let mut i: usize = 0;
    while i < commits.len()
        invariant
            0 <= i <= commits@.len(),
            commits@.len() <= u32::MAX,
            indexes_rows(index@, commits@),
            keys@.len() == i,
            parents@.len() == i,
            forall|j: int| 0 <= j < i ==> keys@[j] == row_key(commits@, j),
            forall|j: int| 0 <= j < i ==> parents@[j]@ == parent_keys(commits@, j),
        decreases commits@.len() - i,
    {
        proof {
            lemma_keys_in_window(commits@, i as int);
        }
        let own = find_row(&index, commits, &commits[i].id);
        match own {
            Some(r) => keys.push(r),
            None => keys.push(0),
        }
        let commit = &commits[i];
        let mut row: Vec<Option<usize>> = Vec::new();
        let mut position: usize = 0;
        while position < commit.parents.len()
            invariant
                0 <= position <= commit.parents@.len(),
                commit == commits@[i as int],
                indexes_rows(index@, commits@),
                row@.len() == position,
                forall|k: int| 0 <= k < position ==> row@[k] == parent_key(commits@, i as int, k),
            decreases commit.parents@.len() - position,
        {
            row.push(find_row(&index, commits, &commit.parents[position]));
            position += 1;
        }
        assert(row@ =~= parent_keys(commits@, i as int));
        parents.push(row);
        i += 1;
    }
    (keys, parents)
}


/// First pass: decide which lane and colour every commit gets.
fn place(
    commits: &Vec<Commit>,
    keys: &Vec<usize>,
    parent_rows: &Vec<Vec<Option<usize>>>,
) -> (r: (Vec<u32>, Vec<u32>, u32))
    requires
        commits@.len() <= u32::MAX,
        keys@.len() == commits@.len(),
        parent_rows@.len() == commits@.len(),
        forall|i: int| 0 <= i < commits@.len() ==> keys@[i] == row_key(commits@, i),
        forall|i: int| 0 <= i < commits@.len() ==> parent_rows@[i]@ == parent_keys(commits@, i),
    ensures
        r.0@ == placement(commits@).lane,
        r.1@ == placement(commits@).color,
        r.2 == placement(commits@).lane_count,
{
    let ghost c = commits@;
    let ghost n = c.len() as int;
    let mut lanes = Lanes::new();
    let mut lane: Vec<u32> = Vec::new();
    let mut color: Vec<u32> = Vec::new();
    let mut lane_count: u32 = 0;
    let mut i: usize = 0;
    while i < keys.len()
        invariant
            c == commits@,
            n == c.len(),
            n <= u32::MAX,
            keys@.len() == n,
            parent_rows@.len() == n,
            forall|j: int| 0 <= j < n ==> keys@[j] == row_key(c, j),
            forall|j: int| 0 <= j < n ==> parent_rows@[j]@ == parent_keys(c, j),
            0 <= i <= n,
            lanes.model() == place_upto(c, i as nat).lanes,
            lane@ == place_upto(c, i as nat).lane,
            color@ == place_upto(c, i as nat).color,
            lane_count == place_upto(c, i as nat).lane_count,
        decreases n - i,
    {
        proof {
            lemma_place_upto(c, i as nat);
            lemma_keys_in_window(c, i as int);
        }
        let ghost prev = lanes.model();
        let key = keys[i];
        // A child may already have booked a lane for this commit. If not, this
        // is the tip of a line not seen before and gets a fresh colour.
        let current = match lanes.find(key) {
            Some(existing) => existing,
            None => {
                proof {
                    lemma_start_wf(prev, key, n);
                }
                lanes.start(key)
            },
        };
        proof {
            lemma_claim(prev, key, n);
        }
        let current_color = lanes.colors[current];
        // The commit occupies the lane on this row; from here on the lane
        // belongs to whichever parent continues the line.
        lanes.release(key);
        proof {
            lemma_release_wf(claim(prev, key), key, n);
        }
        let ghost released = lanes.model();
        let parents = &parent_rows[i];
        assert(parents@ == parent_keys(c, i as int));
        assert forall|j: int|
            0 <= j < parents@.len() && parents@[j] is Some implies (parents@[j]->0 as int) < n by {
            assert(parents@[j] == parent_key(c, i as int, j));
        }
        let mut position: usize = 0;
        while position < parents.len()
            invariant
                n == c.len(),
                n <= u32::MAX,
                0 <= i < n,
                parents@ == parent_keys(c, i as int),
                0 <= position <= parents@.len(),
                0 <= current < released.slots.len(),
                released.slots[current as int] is None,
                released.wf(n),
                current_color < COLOR_COUNT,
                forall|j: int|
                    0 <= j < parents@.len() && parents@[j] is Some ==> (parents@[j]->0 as int) < n,
                lanes.model() == parents_fold(
                    released,
                    current as int,
                    current_color,
                    parents@,
                    position as nat,
                ),
                lanes.model().wf(n),
            decreases parents@.len() - position,
        {
            let ghost before = lanes.model();
            proof {
                lemma_parent_step_wf(
                    before,
                    current as int,
                    current_color,
                    parents@[position as int],
                    position as int,
                    n,
                );
            }
            match parents[position] {
                // Outside the window: let the line end instead of holding a
                // lane hostage for the rest of the graph.
                None => {},
                Some(parent) => {
                    let reserved = lanes.find(parent);
                    proof {
                        lemma_first_match(before.slots, Some(parent));
                    }
                    if position == 0 {
                        match reserved {
                            // An older line further left is already waiting for
                            // this parent. Fold into it so the leftmost line
                            // stays straight.
                            Some(other) if other < current => {},
                            // A younger line to the right had claimed it first.
                            // Take it back, otherwise the long-lived line drifts
                            // sideways.
                            Some(other) => {
                                lanes.free(other);
                                lanes.park(current, parent, current_color);
                            },
                            None => {
                                lanes.park(current, parent, current_color);
                            },
                        }
                    } else if reserved.is_none() {
                        // A merged-in branch starts its own line.
                        proof {
                            lemma_start_wf(before, parent, n);
                        }
                        lanes.start(parent);
                    }
                },
            }
            position += 1;
        }
        lane_count = if lane_count > current as u32 + 1 {
            lane_count
        } else {
            current as u32 + 1
        };
        lane.push(current as u32);
        color.push(current_color);
        i += 1;
    }
    (lane, color, lane_count)
}


/// Second pass for one row: the edges towards its parents.
fn edges_of(
    parents: &Vec<Option<usize>>,
    lane: &Vec<u32>,
    color: &Vec<u32>,
    row: usize,
) -> (edges: Vec<Edge>)
    requires
        row < lane@.len(),
        lane@.len() == color@.len(),
        lane@.len() <= u32::MAX,
        forall|k: int|
            0 <= k < parents@.len() && parents@[k] is Some ==> (parents@[k]->0 as int) < lane@.len(),
    ensures
        edges@.len() == parents@.len(),
        forall|k: int|
            0 <= k < parents@.len() ==> edges@[k] == edge_for(parents@[k], lane@, color@, row as int, k),
{
    let mut edges: Vec<Edge> = Vec::new();
    let mut position: usize = 0;
    while position < parents.len()
        invariant
            0 <= position <= parents@.len(),
            row < lane@.len(),
            lane@.len() == color@.len(),
            lane@.len() <= u32::MAX,
            forall|k: int|
                0 <= k < parents@.len() && parents@[k] is Some ==> (parents@[k]->0 as int)
                    < lane@.len(),
            edges@.len() == position,
            forall|k: int|
                0 <= k < position ==> edges@[k] == edge_for(parents@[k], lane@, color@, row as int, k),
        decreases parents@.len() - position,
    {
        let edge = match parents[position] {
            Some(to_row) => Edge {
                from_lane: lane[row],
                to_lane: lane[to_row],
                to_row: Some(to_row as u32),
                color: if position == 0 {
                    color[row]
                } else {
                    color[to_row]
                },
            },
            // Parent outside the walked window (truncated history or a
            // shallow clone): draw a stub running off the bottom.
            None => Edge { from_lane: lane[row], to_lane: lane[row], to_row: None, color: color[row] },
        };
        edges.push(edge);
        position += 1;
    }
    edges
}

/// Lay out `commits` (newest first, topologically ordered) into a drawable
/// graph: one row per commit, in order, each on the lane and colour the first
/// pass gave it, with one edge per parent.
pub fn build(commits: Vec<Commit>, truncated: bool) -> (graph: Graph)
    requires
        commits@.len() <= u32::MAX,
    ensures
        graph.truncated == truncated,
        graph.lane_count == placement(commits@).lane_count,
        graph.rows@.len() == commits@.len(),
        forall|i: int|
            0 <= i < commits@.len() ==> {
                &&& graph.rows@[i].commit == commits@[i]
                &&& graph.rows@[i].lane == placement(commits@).lane[i]
                &&& graph.rows@[i].color == placement(commits@).color[i]
                &&& graph.rows@[i].edges@.len() == commits@[i].parents@.len()
                &&& forall|k: int|
                    0 <= k < commits@[i].parents@.len() ==> graph.rows@[i].edges@[k]
                        == expected_edge(commits@, i, k)
            },
{
    let ghost c = commits@;
    let ghost n = c.len();
    let (keys, parent_rows) = resolve_rows(&commits);
    let (lane, color, lane_count) = place(&commits, &keys, &parent_rows);
    proof {
        lemma_place_upto(c, n);
    }
    // Take the commits out in reverse, so they can be moved into the rows in
    // order without copying them.
    let mut commits = commits;
    let mut reversed: Vec<Commit> = Vec::new();
    while commits.len() > 0
        invariant
            n == c.len(),
            commits@ == c.subrange(0, commits@.len() as int),
            reversed@.len() + commits@.len() == n,
            forall|j: int| 0 <= j < reversed@.len() ==> reversed@[j] == c[n - 1 - j],
        decreases commits@.len(),
    {
        match commits.pop() {
            Some(commit) => reversed.push(commit),
            None => {},
        }
    }
    let mut rows: Vec<GraphRow> = Vec::new();
    let mut i: usize = 0;
    while i < lane.len()
        invariant
            n == c.len(),
            n <= u32::MAX,
            lane@ == placement(c).lane,
            color@ == placement(c).color,
            lane@.len() == n,
            color@.len() == n,
            parent_rows@.len() == n,
            forall|j: int| 0 <= j < n ==> parent_rows@[j]@ == parent_keys(c, j),
            0 <= i <= n,
            rows@.len() == i,
            reversed@.len() == n - i,
            forall|j: int| 0 <= j < reversed@.len() ==> reversed@[j] == c[n - 1 - j],
            forall|j: int|
                0 <= j < i ==> {
                    &&& rows@[j].commit == c[j]
                    &&& rows@[j].lane == placement(c).lane[j]
                    &&& rows@[j].color == placement(c).color[j]
                    &&& rows@[j].edges@.len() == c[j].parents@.len()
                    &&& forall|k: int|
                        0 <= k < c[j].parents@.len() ==> rows@[j].edges@[k] == expected_edge(
                            c,
                            j,
                            k,
                        )
                },
        decreases n - i,
    {
        proof {
            lemma_keys_in_window(c, i as int);
        }
        let parents = &parent_rows[i];
        assert(parents@ == parent_keys(c, i as int));
        assert forall|k: int|
            0 <= k < parents@.len() && parents@[k] is Some implies (parents@[k]->0 as int) < n by {
            assert(parents@[k] == parent_key(c, i as int, k));
        }
        let edges = edges_of(parents, &lane, &color, i);
        let commit = reversed.pop().unwrap();
        let row = GraphRow { commit, lane: lane[i], color: color[i], edges };
        rows.push(row);
        i += 1;
    }
    Graph { rows, lane_count, truncated }
}


// ---------------------------------------------------------------------------
// Laws of the layout.

/// Rows that never change once placed: the first pass over more rows keeps
/// what it decided for the earlier ones.
pub proof fn lemma_place_prefix(commits: Seq<Commit>, j: nat, n: nat)
    requires
        j < n <= commits.len(),
        commits.len() <= u32::MAX,
    ensures
        place_upto(commits, n).lane[j as int] == place_upto(commits, j + 1).lane[j as int],
        place_upto(commits, n).color[j as int] == place_upto(commits, j + 1).color[j as int],
    decreases n,
{
    lemma_place_upto(commits, n);
    if n > j + 1 {
        lemma_place_upto(commits, (n - 1) as nat);
        lemma_place_prefix(commits, j, (n - 1) as nat);
    }
}

/// The layout is self-consistent: every row sits on a lane inside the canvas,
/// the canvas is exactly as wide as the widest lane in use and never wider
/// than there are rows, and every colour comes from the palette.
pub proof fn lanes_fit_the_canvas(commits: Seq<Commit>)
    requires
        commits.len() <= u32::MAX,
    ensures
        placement(commits).lane.len() == commits.len(),
        placement(commits).color.len() == commits.len(),
        placement(commits).lane_count <= commits.len(),
        forall|i: int|
            0 <= i < commits.len() ==> placement(commits).lane[i] < placement(commits).lane_count
                && placement(commits).color[i] < COLOR_COUNT,
        commits.len() == 0 ==> placement(commits).lane_count == 0,
        commits.len() > 0 ==> exists|i: int|
            0 <= i < commits.len() && placement(commits).lane[i] + 1
                == placement(commits).lane_count,
{
    lemma_place_upto(commits, commits.len());
}

/// Every edge points at the lane its parent is really drawn in: an edge to a
/// parent inside the window names that parent's row (the row carrying the
/// parent's id) and lands on that row's lane, and it leaves from the lane of
/// its own row; a parent outside the window gives a stub that stays on the
/// row's own lane. Every edge colour comes from the palette.
pub proof fn edges_land_on_their_parent(commits: Seq<Commit>, i: int, position: int)
    requires
        commits.len() <= u32::MAX,
        0 <= i < commits.len(),
        0 <= position < commits[i].parents@.len(),
    ensures
        expected_edge(commits, i, position).from_lane == placement(commits).lane[i],
        expected_edge(commits, i, position).color < COLOR_COUNT,
        match expected_edge(commits, i, position).to_row {
            Some(r) => {
                &&& r < commits.len()
                &&& commits[r as int].id@ == commits[i].parents@[position]@
                &&& expected_edge(commits, i, position).to_lane == placement(commits).lane[r as int]
            },
            None => {
                &&& forall|j: int|
                    0 <= j < commits.len() ==> commits[j].id@ != commits[i].parents@[position]@
                &&& expected_edge(commits, i, position).to_lane == placement(commits).lane[i]
            },
        },
{
    lemma_place_upto(commits, commits.len());
    let ids = ids_of(commits);
    lemma_last_index(ids, commits[i].parents@[position]@);
    match row_of(commits, commits[i].parents@[position]@) {
        Some(r) => {
            assert(ids[r] == commits[r].id@);
        },
        None => {
            assert forall|j: int| 0 <= j < commits.len() implies commits[j].id@
                != commits[i].parents@[position]@ by {
                assert(ids[j] == commits[j].id@);
            }
        },
    }
}

/// No two rows of the window carry the same id.
pub open spec fn unique_ids(commits: Seq<Commit>) -> bool {
    forall|a: int, b: int|
        0 <= a < commits.len() && 0 <= b < commits.len() && a != b ==> commits[a].id@
            != commits[b].id@
}

/// The row of `r`'s first parent, when it has one inside the window.
pub open spec fn first_parent_row(commits: Seq<Commit>, r: int) -> Option<int> {
    if commits[r].parents@.len() > 0 {
        row_of(commits, commits[r].parents@[0]@)
    } else {
        None
    }
}

/// The main line: the first row, then its first parent, then that commit's
/// first parent, and so on, for as long as each first parent lies further
/// down in the window.
pub open spec fn main_line(commits: Seq<Commit>, k: nat) -> Option<int>
    decreases k,
{
    if k == 0 {
        if commits.len() > 0 {
            Some(0)
        } else {
            None
        }
    } else {
        match main_line(commits, (k - 1) as nat) {
            Some(r) => match first_parent_row(commits, r) {
                Some(p) => if p > r {
                    Some(p)
                } else {
                    None
                },
                None => None,
            },
            None => None,
        }
    }
}

/// Lane 0 waits for row `p`, in the first colour.
spec fn leftmost_waits_for(m: LaneModel, p: int) -> bool {
    &&& m.slots.len() > 0
    &&& m.slots[0] == Some(p as usize)
    &&& m.colors.len() > 0
    &&& m.colors[0] == 0
}

proof fn lemma_unique_row_key(commits: Seq<Commit>, m: int)
    requires
        commits.len() <= u32::MAX,
        unique_ids(commits),
        0 <= m < commits.len(),
    ensures
        row_key(commits, m) == m as usize,
{
    lemma_keys_in_window(commits, m);
}

/// A parent step keeps lane 0 untouched when the row sits right of it.
proof fn lemma_step_keeps_leftmost(
    m: LaneModel,
    current: int,
    color: u32,
    parent: Option<usize>,
    position: int,
)
    requires
        m.slots.len() > 0,
        m.slots.len() == m.colors.len(),
        m.slots[0] is Some,
        position == 0 ==> 1 <= current < m.slots.len(),
    ensures
        parent_step(m, current, color, parent, position).slots.len() >= m.slots.len(),
        parent_step(m, current, color, parent, position).slots.len() == parent_step(
            m,
            current,
            color,
            parent,
            position,
        ).colors.len(),
        parent_step(m, current, color, parent, position).slots[0] == m.slots[0],
        parent_step(m, current, color, parent, position).colors[0] == m.colors[0],
{
    lemma_first_match(m.slots, None);
    if let Some(p) = parent {
        lemma_first_match(m.slots, Some(p));
    }
}

proof fn lemma_fold_keeps_leftmost(
    m: LaneModel,
    current: int,
    color: u32,
    parents: Seq<Option<usize>>,
    k: nat,
)
    requires
        m.slots.len() > 0,
        m.slots.len() == m.colors.len(),
        m.slots[0] is Some,
        1 <= current < m.slots.len(),
        k <= parents.len(),
    ensures
        parents_fold(m, current, color, parents, k).slots.len() >= m.slots.len(),
        parents_fold(m, current, color, parents, k).slots.len() == parents_fold(
            m,
            current,
            color,
            parents,
            k,
        ).colors.len(),
        parents_fold(m, current, color, parents, k).slots[0] == m.slots[0],
        parents_fold(m, current, color, parents, k).colors[0] == m.colors[0],
    decreases k,
{
    if k > 0 {
        lemma_fold_keeps_leftmost(m, current, color, parents, (k - 1) as nat);
        lemma_step_keeps_leftmost(
            parents_fold(m, current, color, parents, (k - 1) as nat),
            current,
            color,
            parents[k - 1],
            k - 1,
        );
    }
}

/// After the first parent has taken lane 0, the other parents leave it alone.
proof fn lemma_fold_after_first_parent(
    m: LaneModel,
    color: u32,
    parents: Seq<Option<usize>>,
    k: nat,
)
    requires
        m.slots.len() > 0,
        m.slots.len() == m.colors.len(),
        1 <= k <= parents.len(),
        parents_fold(m, 0, color, parents, 1).slots[0] is Some,
        parents_fold(m, 0, color, parents, 1).slots.len() > 0,
        parents_fold(m, 0, color, parents, 1).slots.len() == parents_fold(
            m,
            0,
            color,
            parents,
            1,
        ).colors.len(),
    ensures
        parents_fold(m, 0, color, parents, k).slots.len() > 0,
        parents_fold(m, 0, color, parents, k).slots.len() == parents_fold(
            m,
            0,
            color,
            parents,
            k,
        ).colors.len(),
        parents_fold(m, 0, color, parents, k).slots[0] == parents_fold(
            m,
            0,
            color,
            parents,
            1,
        ).slots[0],
        parents_fold(m, 0, color, parents, k).colors[0] == parents_fold(
            m,
            0,
            color,
            parents,
            1,
        ).colors[0],
    decreases k,
{
    if k > 1 {
        lemma_fold_after_first_parent(m, color, parents, (k - 1) as nat);
        lemma_step_keeps_leftmost(
            parents_fold(m, 0, color, parents, (k - 1) as nat),
            0,
            color,
            parents[k - 1],
            k - 1,
        );
    }
}

/// A row that is not the one lane 0 waits for lands right of it and leaves
/// lane 0 waiting.
proof fn lemma_other_row_keeps_leftmost(commits: Seq<Commit>, m: nat, p: int)
    requires
        commits.len() <= u32::MAX,
        unique_ids(commits),
        m < p < commits.len(),
        leftmost_waits_for(place_upto(commits, m).lanes, p),
    ensures
        leftmost_waits_for(place_upto(commits, m + 1).lanes, p),
{
    let len = commits.len() as int;
    lemma_place_upto(commits, m);
    let prev = place_upto(commits, m);
    lemma_unique_row_key(commits, m as int);
    let key = row_key(commits, m as int);
    lemma_keys_in_window(commits, m as int);
    lemma_claim(prev.lanes, key, len);
    lemma_first_match(prev.lanes.slots, Some(key));
    lemma_first_match(prev.lanes.slots, None);
    let current = claim_lane(prev.lanes, key);
    let claimed = claim(prev.lanes, key);
    assert(current >= 1);
    assert(claimed.slots[0] == prev.lanes.slots[0]);
    assert(claimed.colors[0] == prev.lanes.colors[0]);
    let released = claimed.release(key);
    assert(released.slots[0] == prev.lanes.slots[0]);
    lemma_fold_keeps_leftmost(
        released,
        current,
        claimed.colors[current],
        parent_keys(commits, m as int),
        commits[m as int].parents@.len(),
    );
}

proof fn lemma_rows_until_keep_leftmost(commits: Seq<Commit>, m: nat, p: int)
    requires
        commits.len() <= u32::MAX,
        unique_ids(commits),
        m <= p < commits.len(),
        leftmost_waits_for(place_upto(commits, m).lanes, p),
    ensures
        leftmost_waits_for(place_upto(commits, p as nat).lanes, p),
    decreases p - m,
{
    if m < p {
        lemma_other_row_keeps_leftmost(commits, m, p);
        lemma_rows_until_keep_leftmost(commits, m + 1, p);
    }
}

/// A main-line row lands on lane 0 in the first colour, and hands lane 0 on
/// to its first parent.
proof fn lemma_main_line_row(commits: Seq<Commit>, r: int)
    requires
        commits.len() <= u32::MAX,
        unique_ids(commits),
        0 <= r < commits.len(),
        r == 0 || leftmost_waits_for(place_upto(commits, r as nat).lanes, r),
    ensures
        place_upto(commits, (r + 1) as nat).lane[r] == 0,
        place_upto(commits, (r + 1) as nat).color[r] == 0,
        first_parent_row(commits, r) is Some ==> leftmost_waits_for(
            place_upto(commits, (r + 1) as nat).lanes,
            first_parent_row(commits, r)->0,
        ),
{
    let len = commits.len() as int;
    lemma_place_upto(commits, r as nat);
    lemma_place_upto(commits, (r + 1) as nat);
    let prev = place_upto(commits, r as nat);
    lemma_unique_row_key(commits, r);
    let key = row_key(commits, r);
    lemma_keys_in_window(commits, r);
    lemma_claim(prev.lanes, key, len);
    lemma_first_match(prev.lanes.slots, Some(key));
    lemma_first_match(prev.lanes.slots, None);
    if r == 0 {
        assert(prev.lanes == LaneModel::empty());
    }
    let current = claim_lane(prev.lanes, key);
    let claimed = claim(prev.lanes, key);
    assert(current == 0);
    assert(claimed.colors[0] == 0);
    let released = claimed.release(key);
    let parents = parent_keys(commits, r);
    lemma_release_wf(claimed, key, len);
    if let Some(p) = first_parent_row(commits, r) {
        assert(parents[0] == parent_key(commits, r, 0));
        lemma_last_index(ids_of(commits), commits[r].parents@[0]@);
        lemma_first_match(released.slots, Some(p as usize));
        assert(parents_fold(released, 0, 0, parents, 0) == released);
        assert(parents[0] == Some(p as usize));
        let first = parents_fold(released, 0, 0, parents, 1);
        assert(first == parent_step(released, 0, 0, Some(p as usize), 0));
        assert(first.slots[0] == Some(p as usize));
        assert(first.colors[0] == 0);
        lemma_fold_after_first_parent(released, 0, parents, commits[r].parents@.len());
    }
}

proof fn lemma_main_line_reaches(commits: Seq<Commit>, k: nat)
    requires
        commits.len() <= u32::MAX,
        unique_ids(commits),
        main_line(commits, k) is Some,
    ensures
        0 <= main_line(commits, k)->0 < commits.len(),
        main_line(commits, k)->0 == 0 || leftmost_waits_for(
            place_upto(commits, (main_line(commits, k)->0) as nat).lanes,
            main_line(commits, k)->0,
        ),
    decreases k,
{
    if k > 0 {
        lemma_main_line_reaches(commits, (k - 1) as nat);
        let q = main_line(commits, (k - 1) as nat)->0;
        let r = main_line(commits, k)->0;
        lemma_main_line_row(commits, q);
        lemma_last_index(ids_of(commits), commits[q].parents@[0]@);
        lemma_rows_until_keep_leftmost(commits, (q + 1) as nat, r);
    }
}

/// The main line never drifts: when every id in the window is distinct, the
/// first row and the chain of first parents below it (as long as each lies
/// further down) all sit on lane 0, in the first colour, whatever side
/// branches claim their parents first.
pub proof fn main_line_stays_on_lane_zero(commits: Seq<Commit>, k: nat)
    requires
        commits.len() <= u32::MAX,
        unique_ids(commits),
        main_line(commits, k) is Some,
    ensures
        placement(commits).lane[main_line(commits, k)->0] == 0,
        placement(commits).color[main_line(commits, k)->0] == 0,
{
    lemma_main_line_reaches(commits, k);
    let r = main_line(commits, k)->0;
    lemma_main_line_row(commits, r);
    lemma_place_prefix(commits, r as nat, commits.len());
}

/// An edge continues the line it belongs to: every edge leaves from its
/// row's lane; an edge to the first parent carries the colour of the row it
/// leaves from, so a line keeps its own colour down to where it joins
/// another; an edge to any other parent inside the window carries the colour
/// of the line being merged in; an edge to a parent outside the window is a
/// stub in the row's own colour.
pub proof fn edges_take_the_colour_of_their_line(commits: Seq<Commit>, i: int, position: int)
    requires
        0 <= i < commits.len(),
        0 <= position < commits[i].parents@.len(),
    ensures
        expected_edge(commits, i, position).from_lane == placement(commits).lane[i],
        position == 0 ==> expected_edge(commits, i, position).color == placement(commits).color[i],
        position > 0 && parent_key(commits, i, position) is Some ==> expected_edge(
            commits,
            i,
            position,
        ).color == placement(commits).color[parent_key(commits, i, position)->0 as int],
        parent_key(commits, i, position) is None ==> expected_edge(commits, i, position).color
            == placement(commits).color[i],
{
}

/// Whether the parent at `position` starts a new line: a merge parent
/// inside the window that no lane waits for yet.
pub open spec fn starts_line(m: LaneModel, parent: Option<usize>, position: int) -> bool {
    position != 0 && parent is Some && m.find(parent->0) is None
}

/// How many new lines the first `k` parents of a row start.
pub open spec fn fold_starts(
    m: LaneModel,
    current: int,
    color: u32,
    parents: Seq<Option<usize>>,
    k: nat,
) -> nat
    decreases k,
{
    if k == 0 {
        0
    } else {
        fold_starts(m, current, color, parents, (k - 1) as nat) + if starts_line(
            parents_fold(m, current, color, parents, (k - 1) as nat),
            parents[k - 1],
            k - 1,
        ) {
            1nat
        } else {
            0nat
        }
    }
}

/// How many lines the first pass starts over the first `n` rows: one for a
/// row no lane waits for, and one for each merge parent no lane waits for.
pub open spec fn lines_started(commits: Seq<Commit>, n: nat) -> nat
    decreases n,
{
    if n == 0 {
        0
    } else {
        let i = n - 1;
        let prev = place_upto(commits, (n - 1) as nat);
        let key = row_key(commits, i);
        let current = claim_lane(prev.lanes, key);
        let claimed = claim(prev.lanes, key);
        let released = claimed.release(key);
        lines_started(commits, (n - 1) as nat) + (if prev.lanes.find(key) is None {
            1nat
        } else {
            0nat
        }) + fold_starts(
            released,
            current,
            claimed.colors[current],
            parent_keys(commits, i),
            commits[i].parents@.len(),
        )
    }
}

proof fn lemma_step_next_color(
    m: LaneModel,
    current: int,
    color: u32,
    parent: Option<usize>,
    position: int,
)
    requires
        m.next_color < COLOR_COUNT,
    ensures
        parent_step(m, current, color, parent, position).next_color == if starts_line(
            m,
            parent,
            position,
        ) {
            ((m.next_color + 1) % (COLOR_COUNT as int)) as u32
        } else {
            m.next_color
        },
{
}

proof fn lemma_fold_next_color(
    m: LaneModel,
    current: int,
    color: u32,
    parents: Seq<Option<usize>>,
    k: nat,
)
    requires
        m.next_color < COLOR_COUNT,
    ensures
        parents_fold(m, current, color, parents, k).next_color as int == (m.next_color
            + fold_starts(m, current, color, parents, k)) % (COLOR_COUNT as int),
    decreases k,
{
    if k > 0 {
        lemma_fold_next_color(m, current, color, parents, (k - 1) as nat);
        let before = parents_fold(m, current, color, parents, (k - 1) as nat);
        assert(before.next_color < COLOR_COUNT);
        lemma_step_next_color(before, current, color, parents[k - 1], k - 1);
        let x = m.next_color + fold_starts(m, current, color, parents, (k - 1) as nat);
        assert((x % 12 + 1) % 12 == (x + 1) % 12) by (nonlinear_arith)
            requires
                x >= 0,
        ;
    }
}

proof fn lemma_lines_started(commits: Seq<Commit>, n: nat)
    requires
        n <= commits.len(),
        commits.len() <= u32::MAX,
    ensures
        place_upto(commits, n).lanes.next_color as int == (lines_started(commits, n) as int) % (
        COLOR_COUNT as int),
        forall|i: int|
            0 <= i < n && place_upto(commits, i as nat).lanes.find(row_key(commits, i)) is None
                ==> place_upto(commits, n).color[i] as int == (lines_started(commits, i as nat) as int) % (
            COLOR_COUNT as int),
    decreases n,
{
    if n > 0 {
        let len = commits.len() as int;
        let i = n - 1;
        lemma_lines_started(commits, (n - 1) as nat);
        lemma_place_upto(commits, (n - 1) as nat);
        let prev = place_upto(commits, (n - 1) as nat);
        lemma_keys_in_window(commits, i);
        let key = row_key(commits, i);
        lemma_claim(prev.lanes, key, len);
        let current = claim_lane(prev.lanes, key);
        let claimed = claim(prev.lanes, key);
        let released = claimed.release(key);
        let x = lines_started(commits, (n - 1) as nat) as int;
        if prev.lanes.find(key) is None {
            lemma_start_wf(prev.lanes, key, len);
            assert(claimed.colors[current] == prev.lanes.next_color);
            assert(claimed.next_color as int == (x + 1) % 12) by (nonlinear_arith)
                requires
                    claimed.next_color as int == (prev.lanes.next_color + 1) % 12,
                    prev.lanes.next_color as int == x % 12,
                    x >= 0,
            ;
        }
        lemma_fold_next_color(
            released,
            current,
            claimed.colors[current],
            parent_keys(commits, i),
            commits[i].parents@.len(),
        );
        let f = fold_starts(
            released,
            current,
            claimed.colors[current],
            parent_keys(commits, i),
            commits[i].parents@.len(),
        ) as int;
        let c = if prev.lanes.find(key) is None {
            1int
        } else {
            0int
        };
        assert(((x + c) % 12 + f) % 12 == (x + c + f) % 12) by (nonlinear_arith)
            requires
                x >= 0,
                c >= 0,
                f >= 0,
        ;
        assert forall|j: int|
            0 <= j < n && place_upto(commits, j as nat).lanes.find(row_key(commits, j)) is None
                implies place_upto(commits, n).color[j] as int == (lines_started(commits, j as nat) as int)
            % (COLOR_COUNT as int) by {
            if j < i {
                assert(place_upto(commits, n).color[j] == prev.color[j]);
            }
        }
    }
}

/// Every new line takes the next colour of the palette: after the first pass
/// has started `k` lines (a row no lane waits for, or a merge parent no lane
/// waits for), the next line it starts gets colour `k mod COLOR_COUNT`. So a
/// row that starts its own line shows the colour of the count of lines
/// started before it, and the palette ends at the count of all lines started.
pub proof fn new_lines_take_the_next_colour(commits: Seq<Commit>, i: int)
    requires
        commits.len() <= u32::MAX,
        0 <= i < commits.len(),
        place_upto(commits, i as nat).lanes.find(row_key(commits, i)) is None,
    ensures
        placement(commits).color[i] as int == (lines_started(commits, i as nat) as int) % (
        COLOR_COUNT as int),
        placement(commits).lanes.next_color as int == (lines_started(commits, commits.len()) as int) % (
        COLOR_COUNT as int),
{
    lemma_lines_started(commits, commits.len());
}

/// Rows take the leftmost lane available: a row some lane waits for lands
/// on the leftmost lane waiting for it; a row nobody waits for lands on the
/// leftmost free lane, or on a new lane right of all others when none is
/// free. Freed lanes are thereby reused and the graph stays narrow.
pub proof fn rows_take_the_leftmost_lane(commits: Seq<Commit>, i: int)
    requires
        commits.len() <= u32::MAX,
        0 <= i < commits.len(),
    ensures
        ({
            let slots = place_upto(commits, i as nat).lanes.slots;
            let key = row_key(commits, i);
            let lane = placement(commits).lane[i] as int;
            &&& (exists|j: int| 0 <= j < slots.len() && slots[j] == Some(key)) ==> (lane < slots.len()
                && slots[lane] == Some(key) && forall|j: int| 0 <= j < lane ==> slots[j] != Some(key))
            &&& (forall|j: int| 0 <= j < slots.len() ==> slots[j] != Some(key)) ==> (
            (lane < slots.len() && slots[lane] is None && forall|j: int|
                0 <= j < lane ==> slots[j] is Some) || (lane == slots.len() && forall|j: int|
                0 <= j < slots.len() ==> slots[j] is Some))
        }),
{
    lemma_place_upto(commits, i as nat);
    lemma_place_upto(commits, (i + 1) as nat);
    lemma_place_prefix(commits, i as nat, commits.len());
    let prev = place_upto(commits, i as nat);
    let slots = prev.lanes.slots;
    let key = row_key(commits, i);
    lemma_first_match(slots, Some(key));
    lemma_first_match(slots, None);
    let current = claim_lane(prev.lanes, key);
    assert(0 <= current <= slots.len());
    assert(place_upto(commits, (i + 1) as nat).lane[i] == current as u32);
    assert(placement(commits).lane[i] as int == current);
}

/// Some lane at or left of `bound` waits for row `p`.
spec fn waits_by(m: LaneModel, p: int, bound: int) -> bool {
    exists|j: int| 0 <= j <= bound && j < m.slots.len() && m.slots[j] == Some(p as usize)
}

proof fn lemma_start_keeps_waiting(m: LaneModel, key: usize, p: int, bound: int)
    requires
        waits_by(m, p, bound),
        m.slots.len() == m.colors.len(),
    ensures
        waits_by(m.start(key), p, bound),
        m.start(key).slots.len() == m.start(key).colors.len(),
        m.start(key).slots.len() >= m.slots.len(),
{
    lemma_first_match(m.slots, None);
    let j = choose|j: int| 0 <= j <= bound && j < m.slots.len() && m.slots[j] == Some(p as usize);
    assert(m.start(key).slots[j] == Some(p as usize));
}

proof fn lemma_step_keeps_waiting(
    m: LaneModel,
    current: int,
    color: u32,
    parent: Option<usize>,
    position: int,
    p: int,
    bound: int,
)
    requires
        waits_by(m, p, bound),
        m.slots.len() == m.colors.len(),
        position == 0 ==> 0 <= current < m.slots.len() && (m.slots[current] is None || parent
            == Some(p as usize)),
    ensures
        waits_by(parent_step(m, current, color, parent, position), p, bound),
        parent_step(m, current, color, parent, position).slots.len() == parent_step(
            m,
            current,
            color,
            parent,
            position,
        ).colors.len(),
{
    let j = choose|j: int| 0 <= j <= bound && j < m.slots.len() && m.slots[j] == Some(p as usize);
    if let Some(q) = parent {
        lemma_first_match(m.slots, Some(q));
        let next = parent_step(m, current, color, parent, position);
        if position == 0 {
            match m.find(q) {
                Some(other) => {
                    if other >= current {
                        if q == p as usize {
                            assert(other <= j);
                            assert(next.slots[current] == Some(p as usize));
                        } else {
                            assert(next.slots[j] == Some(p as usize));
                        }
                    }
                },
                None => {
                    assert(next.slots[j] == Some(p as usize));
                },
            }
        } else if m.find(q) is None {
            lemma_start_keeps_waiting(m, q, p, bound);
        }
    }
}

proof fn lemma_fold_keeps_waiting(
    m: LaneModel,
    current: int,
    color: u32,
    parents: Seq<Option<usize>>,
    k: nat,
    p: int,
    bound: int,
)
    requires
        m.slots.len() == m.colors.len(),
        k <= parents.len(),
        waits_by(m, p, bound),
        k > 0 ==> 0 <= current < m.slots.len() && (m.slots[current] is None || parents[0] == Some(
            p as usize,
        )),
    ensures
        waits_by(parents_fold(m, current, color, parents, k), p, bound),
        parents_fold(m, current, color, parents, k).slots.len() == parents_fold(
            m,
            current,
            color,
            parents,
            k,
        ).colors.len(),
    decreases k,
{
    if k > 0 {
        lemma_fold_keeps_waiting(m, current, color, parents, (k - 1) as nat, p, bound);
        lemma_step_keeps_waiting(
            parents_fold(m, current, color, parents, (k - 1) as nat),
            current,
            color,
            parents[k - 1],
            k - 1,
            p,
            bound,
        );
    }
}

proof fn lemma_fold_from_first_keeps_waiting(
    m: LaneModel,
    current: int,
    color: u32,
    parents: Seq<Option<usize>>,
    k: nat,
    p: int,
    bound: int,
)
    requires
        1 <= k <= parents.len(),
        waits_by(parents_fold(m, current, color, parents, 1), p, bound),
        parents_fold(m, current, color, parents, 1).slots.len() == parents_fold(
            m,
            current,
            color,
            parents,
            1,
        ).colors.len(),
    ensures
        waits_by(parents_fold(m, current, color, parents, k), p, bound),
        parents_fold(m, current, color, parents, k).slots.len() == parents_fold(
            m,
            current,
            color,
            parents,
            k,
        ).colors.len(),
    decreases k,
{
    if k > 1 {
        lemma_fold_from_first_keeps_waiting(m, current, color, parents, (k - 1) as nat, p, bound);
        lemma_step_keeps_waiting(
            parents_fold(m, current, color, parents, (k - 1) as nat),
            current,
            color,
            parents[k - 1],
            k - 1,
            p,
            bound,
        );
    }
}

/// Row `r` books its first parent `p` on a lane at or left of its own.
proof fn lemma_first_parent_booked(commits: Seq<Commit>, r: int, p: int)
    requires
        commits.len() <= u32::MAX,
        unique_ids(commits),
        0 <= r < commits.len(),
        first_parent_row(commits, r) == Some(p),
    ensures
        waits_by(
            place_upto(commits, (r + 1) as nat).lanes,
            p,
            place_upto(commits, (r + 1) as nat).lane[r] as int,
        ),
{
    let len = commits.len() as int;
    lemma_place_upto(commits, r as nat);
    lemma_place_upto(commits, (r + 1) as nat);
    let prev = place_upto(commits, r as nat);
    lemma_unique_row_key(commits, r);
    let key = row_key(commits, r);
    lemma_keys_in_window(commits, r);
    lemma_claim(prev.lanes, key, len);
    let current = claim_lane(prev.lanes, key);
    let claimed = claim(prev.lanes, key);
    let color = claimed.colors[current];
    let released = claimed.release(key);
    lemma_release_wf(claimed, key, len);
    assert(released.slots[current] is None);
    let parents = parent_keys(commits, r);
    lemma_last_index(ids_of(commits), commits[r].parents@[0]@);
    assert(parents[0] == Some(p as usize));
    lemma_first_match(released.slots, Some(p as usize));
    assert(parents_fold(released, current, color, parents, 0) == released);
    let first = parents_fold(released, current, color, parents, 1);
    assert(first == parent_step(released, current, color, Some(p as usize), 0));
    match released.find(p as usize) {
        Some(other) => {
            if other < current {
                assert(first.slots[other] == Some(p as usize));
            } else {
                assert(first.slots[current] == Some(p as usize));
            }
        },
        None => {
            assert(first.slots[current] == Some(p as usize));
        },
    }
    assert(waits_by(first, p, current));
    lemma_fold_from_first_keeps_waiting(
        released,
        current,
        color,
        parents,
        commits[r].parents@.len(),
        p,
        current,
    );
}

/// A row other than `p` leaves a lane at or left of `bound` waiting for `p`.
proof fn lemma_other_row_keeps_waiting(commits: Seq<Commit>, m: nat, p: int, bound: int)
    requires
        commits.len() <= u32::MAX,
        unique_ids(commits),
        m < p < commits.len(),
        waits_by(place_upto(commits, m).lanes, p, bound),
    ensures
        waits_by(place_upto(commits, m + 1).lanes, p, bound),
{
    let len = commits.len() as int;
    lemma_place_upto(commits, m);
    let prev = place_upto(commits, m);
    lemma_unique_row_key(commits, m as int);
    let key = row_key(commits, m as int);
    lemma_keys_in_window(commits, m as int);
    lemma_claim(prev.lanes, key, len);
    let current = claim_lane(prev.lanes, key);
    let claimed = claim(prev.lanes, key);
    if prev.lanes.find(key) is None {
        lemma_start_keeps_waiting(prev.lanes, key, p, bound);
    }
    assert(waits_by(claimed, p, bound));
    let released = claimed.release(key);
    let j = choose|j: int|
        0 <= j <= bound && j < claimed.slots.len() && claimed.slots[j] == Some(p as usize);
    assert(released.slots[j] == Some(p as usize));
    assert(released.slots[current] is None);
    lemma_fold_keeps_waiting(
        released,
        current,
        claimed.colors[current],
        parent_keys(commits, m as int),
        commits[m as int].parents@.len(),
        p,
        bound,
    );
}

proof fn lemma_rows_keep_waiting(commits: Seq<Commit>, m: nat, p: int, bound: int)
    requires
        commits.len() <= u32::MAX,
        unique_ids(commits),
        m <= p < commits.len(),
        waits_by(place_upto(commits, m).lanes, p, bound),
    ensures
        waits_by(place_upto(commits, p as nat).lanes, p, bound),
    decreases p - m,
{
    if m < p {
        lemma_other_row_keeps_waiting(commits, m, p, bound);
        lemma_rows_keep_waiting(commits, m + 1, p, bound);
    }
}

/// Lines stay straight: when every id in the window is distinct, the first
/// parent of any commit, when it lies further down the window, never lands on
/// a lane right of the commit's own.
pub proof fn first_parents_never_drift_right(commits: Seq<Commit>, r: int)
    requires
        commits.len() <= u32::MAX,
        unique_ids(commits),
        0 <= r < commits.len(),
        first_parent_row(commits, r) is Some,
        first_parent_row(commits, r)->0 > r,
    ensures
        placement(commits).lane[first_parent_row(commits, r)->0] <= placement(commits).lane[r],
{
    let len = commits.len() as int;
    let p = first_parent_row(commits, r)->0;
    lemma_last_index(ids_of(commits), commits[r].parents@[0]@);
    lemma_first_parent_booked(commits, r, p);
    let bound = place_upto(commits, (r + 1) as nat).lane[r] as int;
    lemma_rows_keep_waiting(commits, (r + 1) as nat, p, bound);
    lemma_place_upto(commits, p as nat);
    lemma_place_upto(commits, (p + 1) as nat);
    let prev = place_upto(commits, p as nat);
    lemma_unique_row_key(commits, p);
    lemma_first_match(prev.lanes.slots, Some(p as usize));
    let j = choose|j: int|
        0 <= j <= bound && j < prev.lanes.slots.len() && prev.lanes.slots[j] == Some(p as usize);
    assert(claim_lane(prev.lanes, row_key(commits, p)) <= j);
    lemma_place_prefix(commits, r as nat, commits.len());
    lemma_place_prefix(commits, p as nat, commits.len());
}

/// Commits laid out in one go when the caller does not ask for a limit.
pub const DEFAULT_COMMIT_LIMIT: usize = 5_000;

/// The size of the window of commits laid out: the limit asked for, else
/// `DEFAULT_COMMIT_LIMIT`.
pub fn window_limit(limit: Option<usize>) -> (r: usize)
    ensures
        r == (match limit {
            Some(l) => l,
            None => DEFAULT_COMMIT_LIMIT,
        }),
{
    match limit {
        Some(l) => l,
        None => DEFAULT_COMMIT_LIMIT,
    }
}

/// What the history walk does next.
#[derive(Debug, Clone, Copy, PartialEq, Eq, Structural)]
pub enum WindowStep {
    /// Lay out the next commit.
    Take,
    /// Stop; `truncated` when commits were left out of a full window.
    Stop { truncated: bool },
}

pub open spec fn window_step_of(taken: int, limit: int, more: bool) -> WindowStep {
    if !more {
        WindowStep::Stop { truncated: false }
    } else if taken == limit {
        WindowStep::Stop { truncated: true }
    } else {
        WindowStep::Take
    }
}

/// The walk's decision once `taken` commits are in the window and the walk
/// has (`more`) or has not another commit: a walk that runs out stops with
/// the graph complete; a full window with more to come stops truncated.
pub fn window_step(taken: usize, limit: usize, more: bool) -> (step: WindowStep)
    ensures
        step == window_step_of(taken as int, limit as int, more),
{
    if !more {
        WindowStep::Stop { truncated: false }
    } else if taken == limit {
        WindowStep::Stop { truncated: true }
    } else {
        WindowStep::Take
    }
}

/// Where a walk over `n` commits ends, from `taken` commits on: how many
/// commits the window holds, and whether the graph is truncated.
pub open spec fn window_end(taken: int, limit: int, n: int) -> (int, bool)
    decreases n - taken,
{
    if taken >= n {
        (taken, false)
    } else {
        match window_step_of(taken, limit, true) {
            WindowStep::Take => window_end(taken + 1, limit, n),
            WindowStep::Stop { truncated } => (taken, truncated),
        }
    }
}

/// A walk over `n` commits with window `limit` lays out `min(n, limit)` of
/// them, and the graph is truncated exactly when `n > limit`.
pub proof fn the_window_holds_the_first_commits(limit: nat, n: nat)
    ensures
        window_end(0, limit as int, n as int) == (if n <= limit {
            (n as int, false)
        } else {
            (limit as int, true)
        }),
{
    lemma_window_end(0, limit as int, n as int);
}

proof fn lemma_window_end(taken: int, limit: int, n: int)
    requires
        0 <= taken <= limit,
        taken <= n,
    ensures
        window_end(taken, limit, n) == (if n <= limit {
            (n, false)
        } else {
            (limit, true)
        }),
    decreases n - taken,
{
    if taken < n && taken < limit {
        lemma_window_end(taken + 1, limit, n);
    }
}

} // verus!
