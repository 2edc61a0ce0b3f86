//! The graph store: adjacency lists, the current matching and the layer of
//! every left vertex.

use vstd::prelude::*;
use crate::cover::{lemma_edges_within, lemma_tables_hold_matching};
use crate::matching::{covers_left, covers_right, edges_within, is_matching, Edge};

verus! {

/// Stored as the partner of a vertex that has none. Real vertices are numbered from 1.
pub const NIL: u32 = 0;

/// Layer of a vertex that the breadth-first search has not reached.
pub const INF: u32 = 0xffff_ffff;

/// A bipartite graph together with a matching in it.
///
/// Slot 0 of every table belongs to `NIL`; slot `i` belongs to vertex `i`.
pub struct BipartiteGraph {
    pub(crate) m: u32,
    pub(crate) adj: Vec<Vec<u32>>,
    pub(crate) pair_u: Vec<u32>,
    pub(crate) pair_v: Vec<u32>,
    pub(crate) dist: Vec<u32>,
}

/// Right vertex `v` occurs in the adjacency list of left vertex `u`.
pub open spec fn has_edge(adj: Seq<Vec<u32>>, u: int, v: int) -> bool {
    exists|j: int| 0 <= j < adj[u]@.len() && #[trigger] adj[u]@[j] == v
}

/// The edges that the adjacency lists hold.
pub open spec fn edge_set(adj: Seq<Vec<u32>>) -> Set<Edge> {
    Set::new(|e: Edge| 0 <= e.0 < adj.len() && has_edge(adj, e.0, e.1))
}

/// The matched pairs that a partner table of the left side holds.
pub open spec fn pair_set(pair_u: Seq<u32>) -> Set<Edge> {
    Set::new(|e: Edge| 1 <= e.0 < pair_u.len() && pair_u[e.0] != 0 && pair_u[e.0] == e.1)
}

/// `NIL` has no neighbours, and every neighbour is a right vertex in `1..=n`.
pub open spec fn adjacency_ok(adj: Seq<Vec<u32>>, n: int) -> bool {
    &&& adj.len() >= 1
    &&& adj[0]@.len() == 0
    &&& forall|u: int, j: int|
        0 <= u < adj.len() && 0 <= j < adj[u]@.len() ==> 1 <= #[trigger] adj[u]@[j] <= n
}

/// The two partner tables describe one matching of the graph: they are
/// inverse to each other on matched vertices, and every matched pair is an edge.
pub open spec fn matching_ok(adj: Seq<Vec<u32>>, pair_u: Seq<u32>, pair_v: Seq<u32>) -> bool {
    &&& pair_u.len() == adj.len()
    &&& pair_u.len() >= 1
    &&& pair_v.len() >= 1
    &&& pair_u[0] == 0
    &&& pair_v[0] == 0
    &&& forall|u: int|
        1 <= u < pair_u.len() && #[trigger] pair_u[u] != 0 ==> {
            &&& pair_u[u] < pair_v.len()
            &&& pair_v[pair_u[u] as int] == u
            &&& has_edge(adj, u, pair_u[u] as int)
        }
    &&& forall|v: int|
        1 <= v < pair_v.len() && #[trigger] pair_v[v] != 0 ==> {
            &&& pair_v[v] < pair_u.len()
            &&& pair_u[pair_v[v] as int] == v
        }
}

impl BipartiteGraph {
    /// Number of left vertices.
    pub open(crate) spec fn left_size(&self) -> nat {
        self.m as nat
    }

    /// Number of right vertices.
    pub open(crate) spec fn right_size(&self) -> nat {
        (self.pair_v@.len() - 1) as nat
    }

    /// The adjacency list of left vertex `u`: its neighbours in the order
    /// in which the edges were added.
    pub open(crate) spec fn neighbours(&self, u: int) -> Seq<u32> {
        self.adj@[u]@
    }

    /// The edges added so far.
    pub open(crate) spec fn edges(&self) -> Set<Edge> {
        edge_set(self.adj@)
    }

    /// The matched pairs.
    pub open(crate) spec fn matching(&self) -> Set<Edge> {
        pair_set(self.pair_u@)
    }

    /// The tables have one slot per vertex and one for `NIL`, every edge
    /// joins real vertices, and the partner tables agree with each other.
    pub open(crate) spec fn wf(&self) -> bool {
        &&& self.m < INF
        &&& self.adj@.len() == self.m + 1
        &&& self.pair_u@.len() == self.m + 1
        &&& self.dist@.len() == self.m + 1
        &&& 1 <= self.pair_v@.len() <= INF
        &&& adjacency_ok(self.adj@, self.pair_v@.len() - 1)
        &&& matching_ok(self.adj@, self.pair_u@, self.pair_v@)
    }

    /// In every well-formed graph the matched pairs are edges of the graph,
    /// no two of them share a vertex, and every edge joins real vertices.
    pub proof fn lemma_matching_valid(&self)
        requires
            self.wf(),
        ensures
            is_matching(self.edges(), self.matching()),
            edges_within(self.edges(), self.left_size(), self.right_size()),
    {
        lemma_tables_hold_matching(self.adj@, self.pair_u@, self.pair_v@);
        lemma_edges_within(self.adj@, self.pair_v@.len() - 1);
    }

    /// The edges of the graph are the entries of the adjacency lists.
    pub proof fn lemma_edges_are_neighbours(&self, u: int, v: int)
        requires
            self.wf(),
        ensures
            self.edges().contains((u, v)) <==> 1 <= u <= self.left_size() && exists|j: int|
                0 <= j < self.neighbours(u).len() && #[trigger] self.neighbours(u)[j] == v,
    {
        if self.edges().contains((u, v)) {
            let j = choose|j: int| 0 <= j < self.adj@[u]@.len() && #[trigger] self.adj@[u]@[j] == v;
            assert(0 <= j < self.neighbours(u).len() && self.neighbours(u)[j] == v);
        }
        if 1 <= u <= self.left_size() && exists|j: int|
            0 <= j < self.neighbours(u).len() && #[trigger] self.neighbours(u)[j] == v {
            let j = choose|j: int| 0 <= j < self.neighbours(u).len() && #[trigger] self.neighbours(u)[j] == v;
        }
    }

    /// A graph with `m` left and `n` right vertices, no edge and nothing matched.
    pub fn new(m: u32, n: u32) -> (g: Self)
        requires
            m < u32::MAX,
            n < u32::MAX,
        ensures
            g.wf(),
            g.left_size() == m,
            g.right_size() == n,
            g.edges() == Set::<Edge>::empty(),
            g.matching() == Set::<Edge>::empty(),
            forall|u: int| 1 <= u <= m ==> #[trigger] g.neighbours(u) == Seq::<u32>::empty(),
    {
        let mut adj: Vec<Vec<u32>> = Vec::new();
        let mut i: u32 = 0;
        while i <= m
            invariant
                m < u32::MAX,
                i <= m + 1,
                adj@.len() == i,
                forall|k: int| 0 <= k < i ==> (#[trigger] adj@[k])@.len() == 0,
            decreases m + 1 - i,
        {
            adj.push(Vec::new());
            i = i + 1;
        }
        let g = Self {
            m: m,
            adj: adj,
            pair_u: vec![NIL; (m + 1) as usize],
            pair_v: vec![NIL; (n + 1) as usize],
            dist: vec![0; (m + 1) as usize],
        };
        g
    }

    /// Adds the edge between left vertex `u` and right vertex `v`.
    pub fn add_edge(&mut self, u: u32, v: u32)
        requires
            old(self).wf(),
            1 <= u <= old(self).left_size(),
            1 <= v <= old(self).right_size(),
        ensures
            final(self).wf(),
            final(self).left_size() == old(self).left_size(),
            final(self).right_size() == old(self).right_size(),
            final(self).edges() == old(self).edges().insert((u as int, v as int)),
            final(self).matching() == old(self).matching(),
            final(self).neighbours(u as int) == old(self).neighbours(u as int).push(v),
            forall|x: int|
                0 <= x <= old(self).left_size() && x != u ==> #[trigger] final(self).neighbours(x) == old(
                    self,
                ).neighbours(x),
    {
        self.adj[u as usize].push(v);
        proof {
            let a0 = old(self).adj@;
            let a1 = self.adj@;
            assert forall|x: int, y: int| 0 <= x < a0.len() implies (has_edge(a1, x, y) <==> has_edge(
                a0,
                x,
                y,
            ) || (x == u && y == v)) by {
                if has_edge(a0, x, y) {
                    let j = choose|j: int| 0 <= j < a0[x]@.len() && #[trigger] a0[x]@[j] == y;
                    assert(a1[x]@[j] == y);
                }
                if x == u && y == v {
                    assert(a1[u as int]@[a0[u as int]@.len() as int] == v);
                }
            }
        }
    }

    /// The right vertex matched to left vertex `u`, if there is one.
    pub fn match_of_left(&self, u: u32) -> (partner: Option<u32>)
        requires
            self.wf(),
        ensures
            match partner {
                Some(v) => self.matching().contains((u as int, v as int)),
                None => !covers_left(self.matching(), u as int),
            },
    {
        if u == NIL || u > self.m {
            return None;
        }
        let v: u32 = self.pair_u[u as usize];
        if v == NIL {
            None
        } else {
            Some(v)
        }
    }

    /// The left vertex matched to right vertex `v`, if there is one.
    pub fn match_of_right(&self, v: u32) -> (partner: Option<u32>)
        requires
            self.wf(),
        ensures
            match partner {
                Some(u) => self.matching().contains((u as int, v as int)),
                None => !covers_right(self.matching(), v as int),
            },
    {
        if v == NIL || v as usize >= self.pair_v.len() {
            return None;
        }
        let u: u32 = self.pair_v[v as usize];
        if u == NIL {
            None
        } else {
            Some(u)
        }
    }
}

} // verus!
