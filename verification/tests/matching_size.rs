use hopcroft_karp::BipartiteGraph;

fn build(left: u32, right: u32, edges: &[(u32, u32)]) -> BipartiteGraph {
    let mut g = BipartiteGraph::new(left, right);
    for &(u, v) in edges {
        g.add_edge(u, v);
    }
    g
}

#[test]
fn three_by_three_example_has_perfect_matching() {
    let mut g = build(3, 3, &[(1, 1), (1, 2), (2, 2), (3, 3)]);
    assert_eq!(g.hopcroft_karp(), 3);
}

#[test]
fn graph_without_vertices_has_empty_matching() {
    let mut g = BipartiteGraph::new(0, 0);
    assert_eq!(g.hopcroft_karp(), 0);
}

#[test]
fn graph_without_edges_has_empty_matching() {
    let mut g = BipartiteGraph::new(3, 4);
    assert_eq!(g.hopcroft_karp(), 0);
    for u in 1..=3 {
        assert_eq!(g.match_of_left(u), None);
    }
    for v in 1..=4 {
        assert_eq!(g.match_of_right(v), None);
    }
}

#[test]
fn one_empty_side_has_empty_matching() {
    let mut g = BipartiteGraph::new(0, 5);
    assert_eq!(g.hopcroft_karp(), 0);
    let mut h = BipartiteGraph::new(5, 0);
    assert_eq!(h.hopcroft_karp(), 0);
}

#[test]
fn single_edge_is_matched() {
    let mut g = build(1, 1, &[(1, 1)]);
    assert_eq!(g.hopcroft_karp(), 1);
    assert_eq!(g.match_of_left(1), Some(1));
    assert_eq!(g.match_of_right(1), Some(1));
}

#[test]
fn complete_graphs_fill_the_smaller_side() {
    for (left, right) in [(1u32, 1u32), (3, 5), (5, 2), (4, 4), (7, 6), (1, 9)] {
        let mut g = BipartiteGraph::new(left, right);
        for u in 1..=left {
            for v in 1..=right {
                g.add_edge(u, v);
            }
        }
        assert_eq!(g.hopcroft_karp(), left.min(right));
    }
}

#[test]
fn star_on_the_left_matches_one_edge() {
    let mut g = build(1, 4, &[(1, 1), (1, 2), (1, 3), (1, 4)]);
    assert_eq!(g.hopcroft_karp(), 1);
}

#[test]
fn star_on_the_right_matches_one_edge() {
    let mut g = build(4, 1, &[(1, 1), (2, 1), (3, 1), (4, 1)]);
    assert_eq!(g.hopcroft_karp(), 1);
}

#[test]
fn greedy_choice_is_undone_by_an_augmenting_path() {
    // Left 1 would take right 1 first; left 2 has only right 1.
    let mut g = build(2, 2, &[(1, 1), (1, 2), (2, 1)]);
    assert_eq!(g.hopcroft_karp(), 2);
    assert_eq!(g.match_of_left(1), Some(2));
    assert_eq!(g.match_of_left(2), Some(1));
    assert_eq!(g.match_of_right(1), Some(2));
    assert_eq!(g.match_of_right(2), Some(1));
}

#[test]
fn long_chain_needs_a_long_augmenting_path() {
    // Left i sees right i and right i + 1; the last left vertex sees only right 1.
    let n: u32 = 8;
    let mut g = BipartiteGraph::new(n, n);
    for i in 1..n {
        g.add_edge(i, i);
        g.add_edge(i, i + 1);
    }
    g.add_edge(n, 1);
    assert_eq!(g.hopcroft_karp(), n);
    assert_eq!(g.match_of_left(n), Some(1));
    for i in 1..n {
        assert_eq!(g.match_of_left(i), Some(i + 1));
    }
}

#[test]
fn bottleneck_limits_the_matching() {
    // Three left vertices compete for two right vertices; right 3 is isolated.
    let mut g = build(3, 3, &[(1, 1), (2, 1), (3, 1), (1, 2), (2, 2), (3, 2)]);
    assert_eq!(g.hopcroft_karp(), 2);
}

#[test]
fn duplicate_edges_change_nothing() {
    let mut g = build(2, 2, &[(1, 1), (1, 1), (1, 1), (2, 2), (2, 2)]);
    assert_eq!(g.hopcroft_karp(), 2);
    let mut h = build(2, 2, &[(1, 1), (1, 1), (2, 1), (2, 1)]);
    assert_eq!(h.hopcroft_karp(), 1);
}

#[test]
fn order_of_insertion_does_not_change_the_size() {
    let edges = [(1u32, 2u32), (2, 1), (2, 3), (3, 2), (4, 4), (4, 1), (3, 3)];
    let mut forward = build(4, 4, &edges);
    let mut reversed_edges = edges;
    reversed_edges.reverse();
    let mut backward = build(4, 4, &reversed_edges);
    assert_eq!(forward.hopcroft_karp(), 4);
    assert_eq!(backward.hopcroft_karp(), 4);
}

#[test]
fn result_never_exceeds_either_side() {
    let cases: [(u32, u32, &[(u32, u32)]); 4] = [
        (2, 5, &[(1, 1), (1, 2), (2, 3), (2, 4), (2, 5)]),
        (5, 2, &[(1, 1), (2, 1), (3, 2), (4, 2), (5, 2)]),
        (3, 3, &[(1, 1)]),
        (4, 1, &[]),
    ];
    for (left, right, edges) in cases {
        let mut g = build(left, right, edges);
        let size = g.hopcroft_karp();
        assert!(size <= left.min(right));
    }
}

#[test]
fn partners_outside_the_graph_are_none() {
    let mut g = build(2, 3, &[(1, 1), (2, 3)]);
    assert_eq!(g.hopcroft_karp(), 2);
    assert_eq!(g.match_of_left(0), None);
    assert_eq!(g.match_of_left(3), None);
    assert_eq!(g.match_of_left(u32::MAX), None);
    assert_eq!(g.match_of_right(0), None);
    assert_eq!(g.match_of_right(4), None);
    assert_eq!(g.match_of_right(u32::MAX), None);
    assert_eq!(g.match_of_right(2), None);
}

#[test]
fn fresh_graph_has_nothing_matched() {
    let g = build(2, 2, &[(1, 1), (2, 2)]);
    assert_eq!(g.match_of_left(1), None);
    assert_eq!(g.match_of_left(2), None);
    assert_eq!(g.match_of_right(1), None);
    assert_eq!(g.match_of_right(2), None);
}
