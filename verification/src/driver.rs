//! The driver: layering and augmentation in turn, until the layering finds
//! no augmenting path.

use vstd::prelude::*;
use crate::augment::right_kept;
use crate::cover::{
    lemma_closed_layers_maximum,
    lemma_covers_left,
    lemma_covers_right,
    lemma_edges_within,
    lemma_matched_grows,
    lemma_matched_left_finite,
    lemma_pair_set_len,
    lemma_tables_hold_matching,
    matched_left,
};
use crate::graph::{BipartiteGraph, INF, NIL};
use crate::layering::{alive, closed_layers, free_at_zero, layers_bounded};
use crate::matching::{
    covers_left,
    covers_right,
    is_complete,
    is_matching,
    is_maximum_matching,
    lemma_complete_maximum,
    lemma_matching_bounded,
    lemma_no_edges_no_matching,
    smaller,
    Edge,
};

verus! {

impl BipartiteGraph {
    /// Extends the matching of the graph to a maximum matching and returns
    /// the number of edges by which it grew.
    ///
    /// On a graph fresh from `new` and `add_edge` the matching starts empty,
    /// so the result is the size of a maximum matching.
    pub fn hopcroft_karp(&mut self) -> (result: u32)
        requires
            old(self).wf(),
        ensures
            final(self).wf(),
            final(self).left_size() == old(self).left_size(),
            final(self).right_size() == old(self).right_size(),
            final(self).edges() == old(self).edges(),
            is_maximum_matching(final(self).edges(), final(self).matching()),
            result == final(self).matching().len() - old(self).matching().len(),
            result <= smaller(old(self).left_size(), old(self).right_size()),
            result == 0 ==> final(self).matching() == old(self).matching(),
            is_maximum_matching(old(self).edges(), old(self).matching()) ==> result == 0,
            forall|u: int|
                covers_left(old(self).matching(), u) ==> #[trigger] covers_left(final(self).matching(), u),
            forall|v: int|
                covers_right(old(self).matching(), v) ==> #[trigger] covers_right(
                    final(self).matching(),
                    v,
                ),
            forall|u: int| final(self).neighbours(u) == old(self).neighbours(u),
            old(self).edges() == Set::<Edge>::empty() ==> result == 0,
            old(self).matching() == Set::<Edge>::empty() && is_complete(
                old(self).edges(),
                old(self).left_size(),
                old(self).right_size(),
            ) ==> result == smaller(old(self).left_size(), old(self).right_size()),
    {
        let mut result: u32 = 0;
        loop
            invariant
                old(self).wf(),
                self.wf(),
                self.m == old(self).m,
                self.adj@ == old(self).adj@,
                self.pair_v@.len() == old(self).pair_v@.len(),
                right_kept(old(self).pair_v@, self.pair_v@),
                matched_left(old(self).pair_u@).subset_of(matched_left(self.pair_u@)),
                result + matched_left(old(self).pair_u@).len() == matched_left(self.pair_u@).len(),
                result == 0 ==> self.pair_u@ == old(self).pair_u@,
            ensures
                self.dist@[0] == INF,
                free_at_zero(self.pair_u@, self.dist@),
                closed_layers(self.adj@, self.pair_v@, self.dist@),
            decreases self.m - matched_left(self.pair_u@).len(),
        {
            let found: bool = self.bfs();
            if !found {
                break ;
            }
            let start: u32 = result;
            let ghost start_u = self.pair_u@;
            let ghost target: int = choose|r: int|
                1 <= r <= self.m && self.pair_u@[r] == 0 && #[trigger] alive(
                    self.adj@,
                    self.pair_v@,
                    self.dist@,
                    r,
                );
            proof {
                lemma_matched_left_finite(self.pair_u@);
            }
            let mut u: u32 = 1;
            while u <= self.m
                invariant
                    old(self).wf(),
                    self.wf(),
                    self.m == old(self).m,
                    self.adj@ == old(self).adj@,
                    self.pair_v@.len() == old(self).pair_v@.len(),
                    right_kept(old(self).pair_v@, self.pair_v@),
                    1 <= u <= self.m + 1,
                    layers_bounded(self.dist@),
                    forall|x: int| u <= x <= self.m && #[trigger] self.pair_u@[x] == 0 ==> self.dist@[x] == 0,
                    start <= result,
                    matched_left(old(self).pair_u@).subset_of(matched_left(self.pair_u@)),
                    result + matched_left(old(self).pair_u@).len() == matched_left(self.pair_u@).len(),
                    start + matched_left(old(self).pair_u@).len() == matched_left(start_u).len(),
                    start == 0 ==> start_u == old(self).pair_u@,
                    result == start ==> {
                        &&& self.pair_u@ == start_u
                        &&& u <= target <= self.m
                        &&& self.pair_u@[target] == 0
                        &&& alive(self.adj@, self.pair_v@, self.dist@, target)
                    },
                decreases self.m + 1 - u,
            {
                if self.pair_u[u as usize] == NIL {
                    let ghost before_u = self.pair_u@;
                    let ok: bool = self.dfs(u);
                    if ok {
                        proof {
                            assert(self.pair_v@.update(0, 0) =~= self.pair_v@);
                            lemma_matched_grows(before_u, self.pair_u@, u as int);
                            lemma_matched_left_finite(self.pair_u@);
                        }
                        result = result + 1;
                    }
                }
                u = u + 1;
            }
            proof {
                lemma_matched_left_finite(self.pair_u@);
            }
        }
        proof {
            let edges = self.edges();
            let n = (self.pair_v@.len() - 1) as nat;
            lemma_tables_hold_matching(self.adj@, self.pair_u@, self.pair_v@);
            lemma_tables_hold_matching(old(self).adj@, old(self).pair_u@, old(self).pair_v@);
            lemma_pair_set_len(self.pair_u@);
            lemma_pair_set_len(old(self).pair_u@);
            lemma_edges_within(self.adj@, n as int);
            lemma_matching_bounded(edges, self.matching(), self.m as nat, n);
            assert forall|other: Set<Edge>| #[trigger] is_matching(edges, other) implies other.len()
                <= self.matching().len() by {
                lemma_closed_layers_maximum(self.adj@, self.pair_u@, self.pair_v@, self.dist@, other);
            }
            assert forall|v: int| covers_right(old(self).matching(), v) implies #[trigger] covers_right(
                self.matching(),
                v,
            ) by {
                lemma_covers_right(old(self).adj@, old(self).pair_u@, old(self).pair_v@, v);
                lemma_covers_right(self.adj@, self.pair_u@, self.pair_v@, v);
            }
            assert forall|u: int| covers_left(old(self).matching(), u) implies #[trigger] covers_left(
                self.matching(),
                u,
            ) by {
                lemma_covers_left(old(self).pair_u@, u);
                lemma_covers_left(self.pair_u@, u);
            }
            if old(self).edges() =~= Set::<Edge>::empty() {
                lemma_no_edges_no_matching(edges, self.matching());
            }
            if is_complete(edges, self.m as nat, n) {
                lemma_complete_maximum(edges, self.matching(), self.m as nat, n);
            }
        }
        result
    }
}

} // verus!
