use git_core::graph::{build, window_limit, window_step, WindowStep, COLOR_COUNT, DEFAULT_COMMIT_LIMIT};
use git_core::model::{Commit, Graph, Signature};

fn commit(id: &str, parents: &[&str]) -> Commit {
    let signature = Signature {
        name: "Test".into(),
        email: "test@example.com".into(),
        timestamp: 0,
        offset_minutes: 0,
    };
    Commit {
        id: id.into(),
        short_id: id.into(),
        summary: id.into(),
        body: String::new(),
        author: signature.clone(),
        committer: signature,
        parents: parents.iter().map(|p| (*p).into()).collect(),
        refs: Vec::new(),
    }
}

fn lane_of(graph: &Graph, id: &str) -> u32 {
    graph
        .rows
        .iter()
        .find(|row| row.commit.id == id)
        .expect("commit in graph")
        .lane
}

#[test]
fn linear_history_stays_on_one_lane() {
    let graph = build(
        vec![commit("c", &["b"]), commit("b", &["a"]), commit("a", &[])],
        false,
    );

    assert_eq!(graph.lane_count, 1);
    assert!(graph.rows.iter().all(|row| row.lane == 0));
    assert!(graph
        .rows
        .iter()
        .all(|row| row.color == graph.rows[0].color));
}

#[test]
fn merge_opens_a_second_lane_and_closes_it_again() {
    // m merges feature (f) into main (a); both descend from the same base.
    let graph = build(
        vec![
            commit("m", &["a", "f"]),
            commit("a", &["base"]),
            commit("f", &["base"]),
            commit("base", &[]),
        ],
        false,
    );

    assert_eq!(graph.lane_count, 2);
    assert_eq!(graph.rows[0].lane, 0, "merge sits on the first-parent lane");
    assert_eq!(graph.rows[1].lane, 0, "first parent inherits the lane");
    assert_eq!(graph.rows[2].lane, 1, "second parent branches off");
    assert_eq!(
        graph.rows[3].lane, 0,
        "shared base returns to the left lane"
    );

    let feature_edge = &graph.rows[0].edges[1];
    assert_eq!(feature_edge.to_lane, 1);
    assert_eq!(feature_edge.to_row, Some(2));
    assert_ne!(
        feature_edge.color, graph.rows[0].color,
        "a branching line gets its own colour"
    );

    // The feature line converges back onto the base lane instead of dying.
    let converging = &graph.rows[2].edges[0];
    assert_eq!(converging.from_lane, 1);
    assert_eq!(converging.to_lane, 0);
    assert_eq!(converging.to_row, Some(3));
}

#[test]
fn freed_lanes_are_reused_so_the_graph_stays_narrow() {
    let graph = build(
        vec![
            commit("t1", &["base"]),
            commit("t2", &["base"]),
            commit("base", &[]),
        ],
        false,
    );

    assert_eq!(graph.lane_count, 2);
    assert_eq!(graph.rows[2].lane, 0);
}

#[test]
fn parent_outside_the_window_becomes_a_stub() {
    let graph = build(vec![commit("a", &["missing"])], true);

    assert!(graph.truncated);
    assert_eq!(graph.rows[0].edges.len(), 1);
    assert_eq!(graph.rows[0].edges[0].to_row, None);
    assert_eq!(graph.lane_count, 1);
}

#[test]
fn the_main_line_never_drifts_when_a_side_branch_claims_its_parent_first() {
    // `b1` is walked before `merge_a`, and both descend from `m1`.
    let graph = build(
        vec![
            commit("merge_b", &["m2", "b1"]),
            commit("m2", &["merge_a"]),
            commit("b1", &["m1"]),
            commit("merge_a", &["m1", "a1"]),
            commit("m1", &["base"]),
            commit("a1", &["base"]),
            commit("base", &[]),
        ],
        false,
    );

    for id in ["merge_b", "m2", "merge_a", "m1", "base"] {
        assert_eq!(lane_of(&graph, id), 0, "{id} belongs to the straight main line");
    }
    assert_eq!(lane_of(&graph, "b1"), 1);
    assert_eq!(lane_of(&graph, "a1"), 1, "the freed side lane is reused");
    assert_eq!(graph.lane_count, 2);

    // Every edge points at the lane its parent is really drawn in.
    for row in &graph.rows {
        for edge in &row.edges {
            if let Some(to_row) = edge.to_row {
                assert_eq!(edge.to_lane, graph.rows[to_row as usize].lane);
            }
        }
    }
}

#[test]
fn empty_window_has_no_lanes() {
    let graph = build(Vec::new(), false);
    assert!(graph.rows.is_empty());
    assert_eq!(graph.lane_count, 0);
    assert!(!graph.truncated);
}

#[test]
fn rows_keep_commits_in_order_and_edges_per_parent() {
    let graph = build(
        vec![
            commit("m", &["a", "f", "outside"]),
            commit("a", &["base"]),
            commit("f", &["base"]),
            commit("base", &[]),
        ],
        false,
    );
    let ids: Vec<&str> = graph.rows.iter().map(|r| r.commit.id.as_str()).collect();
    assert_eq!(ids, vec!["m", "a", "f", "base"]);
    assert_eq!(graph.rows[0].edges.len(), 3);
    let stub = &graph.rows[0].edges[2];
    assert_eq!(stub.to_row, None);
    assert_eq!(stub.to_lane, graph.rows[0].lane);
    assert_eq!(stub.from_lane, graph.rows[0].lane);
    assert_eq!(stub.color, graph.rows[0].color);
    // The first parent's connector keeps the commit's own colour.
    assert_eq!(graph.rows[0].edges[0].color, graph.rows[0].color);
    // A merged-in parent's connector takes that parent's colour.
    assert_eq!(graph.rows[0].edges[1].color, graph.rows[2].color);
}

#[test]
fn colours_cycle_through_the_palette() {
    // Fourteen independent root commits: each starts a new line with the
    // next colour, wrapping after the palette is used up.
    let ids: Vec<String> = (0..14).map(|i| format!("root{i}")).collect();
    let commits: Vec<Commit> = ids.iter().map(|id| commit(id, &[])).collect();
    let graph = build(commits, false);
    for (i, row) in graph.rows.iter().enumerate() {
        assert_eq!(row.color, (i as u32) % COLOR_COUNT);
        assert!(row.color < COLOR_COUNT);
        // Each root frees its lane at once, so every row reuses lane 0.
        assert_eq!(row.lane, 0);
    }
    assert_eq!(graph.lane_count, 1);
}

#[test]
fn main_line_keeps_first_colour_while_branches_get_new_ones() {
    let graph = build(
        vec![
            commit("tip", &["mid", "side"]),
            commit("side", &["mid"]),
            commit("mid", &["root"]),
            commit("root", &[]),
        ],
        false,
    );
    for id in ["tip", "mid", "root"] {
        let row = graph.rows.iter().find(|r| r.commit.id == id).unwrap();
        assert_eq!(row.lane, 0);
        assert_eq!(row.color, 0);
    }
    let side = graph.rows.iter().find(|r| r.commit.id == "side").unwrap();
    assert_eq!(side.lane, 1);
    assert_eq!(side.color, 1);
    assert!(graph.lane_count as usize <= graph.rows.len());
}

#[test]
fn duplicate_ids_resolve_to_the_last_row() {
    let graph = build(
        vec![commit("a", &["x"]), commit("x", &[]), commit("x", &[])],
        false,
    );
    assert_eq!(graph.rows[0].edges[0].to_row, Some(2));
}

#[test]
fn the_window_defaults_and_stops_when_full() {
    assert_eq!(window_limit(None), DEFAULT_COMMIT_LIMIT);
    assert_eq!(DEFAULT_COMMIT_LIMIT, 5_000);
    assert_eq!(window_limit(Some(3)), 3);
    assert_eq!(window_step(0, 3, true), WindowStep::Take);
    assert_eq!(window_step(2, 3, false), WindowStep::Stop { truncated: false });
    assert_eq!(window_step(3, 3, true), WindowStep::Stop { truncated: true });
    assert_eq!(window_step(3, 3, false), WindowStep::Stop { truncated: false });
    assert_eq!(window_step(0, 0, true), WindowStep::Stop { truncated: true });
}

#[test]
fn no_first_parent_lands_right_of_its_child() {
    let commits = vec![
        commit("f2", &["f1"]),
        commit("m3", &["m2"]),
        commit("f1", &["m1"]),
        commit("m2", &["m1"]),
        commit("m1", &[]),
    ];
    let graph = build(commits.clone(), false);
    for (row, c) in commits.iter().enumerate() {
        if let Some(parent) = c.parents.first() {
            assert!(
                lane_of(&graph, parent) <= graph.rows[row].lane,
                "{parent} drifted right of {}",
                c.id
            );
        }
    }
}
