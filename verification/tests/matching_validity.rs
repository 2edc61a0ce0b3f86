use hopcroft_karp::BipartiteGraph;

/// A small linear congruential generator, so that the graphs are the same on every run.
struct Lcg(u64);

impl Lcg {
    fn next(&mut self) -> u64 {
        self.0 = self.0.wrapping_mul(6364136223846793005).wrapping_add(1442695040888963407);
        self.0 >> 33
    }

    fn below(&mut self, bound: u64) -> u64 {
        self.next() % bound
    }
}

fn random_edges(rng: &mut Lcg, left: u32, right: u32, percent: u64) -> Vec<(u32, u32)> {
    let mut edges = Vec::new();
    for u in 1..=left {
        for v in 1..=right {
            if rng.below(100) < percent {
                edges.push((u, v));
            }
        }
    }
    edges
}

fn build(left: u32, right: u32, edges: &[(u32, u32)]) -> BipartiteGraph {
    let mut g = BipartiteGraph::new(left, right);
    for &(u, v) in edges {
        g.add_edge(u, v);
    }
    g
}

/// Largest matching by trying, for every left vertex in turn, each free neighbour and no neighbour.
fn exhaustive(left: u32, edges: &[(u32, u32)], u: u32, used: u32) -> u32 {
    if u > left {
        return 0;
    }
    let mut best = exhaustive(left, edges, u + 1, used);
    for &(a, b) in edges {
        if a == u && used & (1 << b) == 0 {
            best = best.max(1 + exhaustive(left, edges, u + 1, used | (1 << b)));
        }
    }
    best
}

fn assert_valid_matching(g: &BipartiteGraph, left: u32, right: u32, edges: &[(u32, u32)], size: u32) {
    let mut matched = 0;
    for u in 1..=left {
        if let Some(v) = g.match_of_left(u) {
            matched += 1;
            assert!(1 <= v && v <= right);
            assert!(edges.contains(&(u, v)));
            assert_eq!(g.match_of_right(v), Some(u));
        }
    }
    assert_eq!(matched, size);
    let mut matched_right = 0;
    for v in 1..=right {
        if let Some(u) = g.match_of_right(v) {
            matched_right += 1;
            assert!(1 <= u && u <= left);
            assert_eq!(g.match_of_left(u), Some(v));
        }
    }
    assert_eq!(matched_right, size);
}

#[test]
fn matching_is_valid_and_made_of_edges() {
    let edges = [(1u32, 1u32), (1, 2), (2, 2), (3, 3), (4, 3), (4, 5), (5, 4)];
    let mut g = build(5, 5, &edges);
    let size = g.hopcroft_karp();
    assert_eq!(size, 5);
    assert_valid_matching(&g, 5, 5, &edges, size);
}

#[test]
fn random_graphs_agree_with_exhaustive_search() {
    let mut rng = Lcg(20240229);
    for round in 0..300u64 {
        let left = rng.below(8) as u32;
        let right = rng.below(8) as u32;
        let percent = 10 + 10 * (round % 8);
        let edges = random_edges(&mut rng, left, right, percent);
        let mut g = build(left, right, &edges);
        let size = g.hopcroft_karp();
        assert_eq!(size, exhaustive(left, &edges, 1, 0));
        assert!(size <= left.min(right));
        assert_valid_matching(&g, left, right, &edges, size);
    }
}

#[test]
fn sparse_graphs_of_ten_vertices_agree_with_exhaustive_search() {
    let mut rng = Lcg(77);
    for _ in 0..40 {
        let edges = random_edges(&mut rng, 10, 10, 15);
        let mut g = build(10, 10, &edges);
        let size = g.hopcroft_karp();
        assert_eq!(size, exhaustive(10, &edges, 1, 0));
        assert_valid_matching(&g, 10, 10, &edges, size);
    }
}

#[test]
fn second_run_adds_nothing_and_keeps_the_matching() {
    let mut rng = Lcg(5);
    for _ in 0..50 {
        let left = 1 + rng.below(7) as u32;
        let right = 1 + rng.below(7) as u32;
        let edges = random_edges(&mut rng, left, right, 35);
        let mut g = build(left, right, &edges);
        let size = g.hopcroft_karp();
        let lefts: Vec<Option<u32>> = (1..=left).map(|u| g.match_of_left(u)).collect();
        let rights: Vec<Option<u32>> = (1..=right).map(|v| g.match_of_right(v)).collect();
        assert_eq!(g.hopcroft_karp(), 0);
        let lefts_again: Vec<Option<u32>> = (1..=left).map(|u| g.match_of_left(u)).collect();
        let rights_again: Vec<Option<u32>> = (1..=right).map(|v| g.match_of_right(v)).collect();
        assert_eq!(lefts, lefts_again);
        assert_eq!(rights, rights_again);
        assert_valid_matching(&g, left, right, &edges, size);
    }
}

#[test]
fn second_run_on_an_empty_matching_returns_the_same_count() {
    let mut g = BipartiteGraph::new(4, 4);
    assert_eq!(g.hopcroft_karp(), 0);
    assert_eq!(g.hopcroft_karp(), 0);
}

#[test]
fn add_edge_leaves_the_matching_alone() {
    let mut g = build(2, 2, &[(1, 1)]);
    assert_eq!(g.hopcroft_karp(), 1);
    g.add_edge(2, 2);
    assert_eq!(g.match_of_left(1), Some(1));
    assert_eq!(g.match_of_left(2), None);
    assert_eq!(g.match_of_right(1), Some(1));
    assert_eq!(g.match_of_right(2), None);
}

#[test]
fn several_phases_are_needed_on_a_layered_graph() {
    // Two disjoint chains of different length, so that the shortest
    // augmenting paths of the first phase do not finish the matching.
    let edges = [
        (1u32, 1u32),
        (2, 1),
        (2, 2),
        (3, 2),
        (3, 3),
        (4, 3),
        (4, 4),
        (5, 5),
        (6, 5),
        (6, 6),
    ];
    let mut g = build(6, 6, &edges);
    let size = g.hopcroft_karp();
    assert_eq!(size, 6);
    assert_valid_matching(&g, 6, 6, &edges, size);
}
