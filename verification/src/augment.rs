//! The augmentation phase: a depth-first search along the layers that
//! flips one augmenting path into the matching.

use vstd::prelude::*;
use crate::graph::{adjacency_ok, has_edge, matching_ok, BipartiteGraph, INF, NIL};
use crate::layering::{alive, hop, layers_bounded, lemma_alive_def};

verus! {

/// A layer either stayed as it was or was withdrawn.
pub open spec fn only_marked(before: Seq<u32>, after: Seq<u32>) -> bool {
    &&& before.len() == after.len()
    &&& forall|x: int| 0 <= x < before.len() ==> #[trigger] after[x] == before[x] || after[x] == INF
}

/// A search from `u` leaves alone every other vertex that is free or lies
/// no higher than `u`.
pub open spec fn below_untouched(
    pair_u: Seq<u32>,
    dist: Seq<u32>,
    pair_u2: Seq<u32>,
    dist2: Seq<u32>,
    u: int,
) -> bool {
    forall|x: int|
        #![trigger pair_u2[x]]
        #![trigger dist2[x]]
        0 <= x < dist.len() && x != u && (pair_u[x] == 0 || dist[x] <= dist[u]) ==> pair_u2[x] == pair_u[x]
            && dist2[x] == dist[x]
}

/// The same vertices can reach `NIL` along the layers before and after.
pub open spec fn same_alive(adj: Seq<Vec<u32>>, pair_v: Seq<u32>, before: Seq<u32>, after: Seq<u32>) -> bool {
    forall|x: int|
        #![trigger alive(adj, pair_v, after, x)]
        #![trigger alive(adj, pair_v, before, x)]
        alive(adj, pair_v, after, x) == alive(adj, pair_v, before, x)
}

/// Apart from `u`, the same left vertices are matched before and after.
pub open spec fn same_matched_but(pair_u: Seq<u32>, pair_u2: Seq<u32>, u: int) -> bool {
    &&& pair_u.len() == pair_u2.len()
    &&& forall|x: int|
        0 <= x < pair_u.len() && x != u ==> (#[trigger] pair_u2[x] != 0) == (pair_u[x] != 0)
}

/// Every right vertex that named a partner before names one after.
pub open spec fn right_kept(pair_v: Seq<u32>, pair_v2: Seq<u32>) -> bool {
    &&& pair_v.len() == pair_v2.len()
    &&& forall|b: int| 0 <= b < pair_v.len() && #[trigger] pair_v[b] != 0 ==> pair_v2[b] != 0
}

/// Matching left vertex `u` along its edge number `j` to a free right vertex,
/// and releasing the former partner of `u`, gives a matching again.
pub proof fn lemma_commit(adj: Seq<Vec<u32>>, pair_u: Seq<u32>, pair_v: Seq<u32>, u: int, j: int)
    requires
        adjacency_ok(adj, pair_v.len() - 1),
        matching_ok(adj, pair_u, pair_v),
        1 <= u < pair_u.len(),
        pair_u.len() <= INF,
        0 <= j < adj[u]@.len(),
        pair_v[adj[u]@[j] as int] == 0,
    ensures
        matching_ok(
            adj,
            pair_u.update(u, adj[u]@[j]),
            pair_v.update(adj[u]@[j] as int, u as u32).update(pair_u[u] as int, 0),
        ),
{
    let v = adj[u]@[j];
    let w = pair_u[u];
    let pu2 = pair_u.update(u, v);
    let pv2 = pair_v.update(v as int, u as u32).update(w as int, 0);
    assert forall|a: int| 1 <= a < pu2.len() && #[trigger] pu2[a] != 0 implies pu2[a] < pv2.len()
        && pv2[pu2[a] as int] == a && has_edge(adj, a, pu2[a] as int) by {
        if a != u {
            let b = pair_u[a];
        }
    }
    assert forall|b: int| 1 <= b < pv2.len() && #[trigger] pv2[b] != 0 implies pv2[b] < pu2.len()
        && pu2[pv2[b] as int] == b by {
        if b != v && b != w {
            let a = pair_v[b];
        }
    }
}

/// Withdrawing the layer of a vertex that cannot reach `NIL` changes nothing
/// for any other vertex.
pub proof fn lemma_mark_dead(adj: Seq<Vec<u32>>, pair_v: Seq<u32>, dist: Seq<u32>, u: int, x: int)
    requires
        1 <= u < dist.len(),
        dist.len() <= INF,
        !alive(adj, pair_v, dist, u),
    ensures
        alive(adj, pair_v, dist.update(u, INF), x) == alive(adj, pair_v, dist, x),
    decreases dist.len() - dist[x],
{
    let marked = dist.update(u, INF);
    lemma_alive_def(adj, pair_v, dist, x);
    lemma_alive_def(adj, pair_v, marked, x);
    assert forall|j: int| hop(adj, pair_v, marked, x, j) == hop(adj, pair_v, dist, x, j) by {
        if 0 <= x < dist.len() && 0 <= j < adj[x]@.len() {
            let y = pair_v[adj[x]@[j] as int] as int;
            if x != u && 0 <= y < dist.len() && dist[x] + 1 < dist.len() {
                if y != u && y != 0 && dist[y] == dist[x] + 1 {
                    lemma_mark_dead(adj, pair_v, dist, u, y);
                }
            }
        }
    }
}

/// `lemma_mark_dead` for all vertices at once.
pub proof fn lemma_mark_dead_all(adj: Seq<Vec<u32>>, pair_v: Seq<u32>, dist: Seq<u32>, u: int)
    requires
        1 <= u < dist.len(),
        dist.len() <= INF,
        !alive(adj, pair_v, dist, u),
    ensures
        same_alive(adj, pair_v, dist, dist.update(u, INF)),
{
    assert forall|x: int|
        alive(adj, pair_v, dist.update(u, INF), x) == alive(adj, pair_v, dist, x) by {
        lemma_mark_dead(adj, pair_v, dist, u, x);
    }
}

/// After a search from the partner behind edge `j` of `u` has failed, no
/// edge of `u` up to `j` is a hop.
pub proof fn lemma_still_no_hop(
    adj: Seq<Vec<u32>>,
    pair_v: Seq<u32>,
    before: Seq<u32>,
    after: Seq<u32>,
    u: int,
    j: int,
)
    requires
        only_marked(before, after),
        same_alive(adj, pair_v, before, after),
        0 <= u < before.len(),
        after[u] == before[u],
        before.len() <= INF,
        forall|k: int| 0 <= k < j ==> !hop(adj, pair_v, before, u, k),
        !(0 <= j < adj[u]@.len()) || pair_v[adj[u]@[j] as int] != 0,
        !(0 <= j < adj[u]@.len()) || !alive(adj, pair_v, before, pair_v[adj[u]@[j] as int] as int),
    ensures
        forall|k: int| 0 <= k < j + 1 ==> !hop(adj, pair_v, after, u, k),
{
    assert forall|k: int| 0 <= k < j + 1 implies !hop(adj, pair_v, after, u, k) by {
        if hop(adj, pair_v, after, u, k) {
            let y = pair_v[adj[u]@[k] as int] as int;
            if k < j {
                assert(hop(adj, pair_v, before, u, k));
            }
        }
    }
}

/// Edge number `j` is the first edge of `u`, in the order of its adjacency
/// list, that is a hop.
pub open spec fn first_hop(adj: Seq<Vec<u32>>, pair_v: Seq<u32>, dist: Seq<u32>, u: int, j: int) -> bool {
    &&& hop(adj, pair_v, dist, u, j)
    &&& forall|k: int| 0 <= k < j ==> !hop(adj, pair_v, dist, u, k)
}

/// An edge that is the first hop after some layers were withdrawn by failed
/// searches was the first hop before.
pub proof fn lemma_first_hop(
    adj: Seq<Vec<u32>>,
    pair_v: Seq<u32>,
    before: Seq<u32>,
    after: Seq<u32>,
    u: int,
    j: int,
)
    requires
        only_marked(before, after),
        same_alive(adj, pair_v, before, after),
        0 <= u < before.len(),
        after[u] == before[u],
        after[0] == before[0],
        before.len() <= INF,
        first_hop(adj, pair_v, after, u, j),
    ensures
        first_hop(adj, pair_v, before, u, j),
{
    assert forall|k: int| 0 <= k < j implies !hop(adj, pair_v, before, u, k) by {
        if hop(adj, pair_v, before, u, k) {
            let y = pair_v[adj[u]@[k] as int] as int;
            assert(hop(adj, pair_v, after, u, k));
        }
    }
    let y = pair_v[adj[u]@[j] as int] as int;
}

impl BipartiteGraph {
    /// Looks for an augmenting path from left vertex `u` that climbs one
    /// layer with every matched edge, and flips it into the matching.
    ///
    /// Between the flip below `u` and the return, the former partner of `u`
    /// still names `u`: the caller overwrites that slot.
    pub(crate) fn dfs(&mut self, u: u32) -> (ok: bool)
        requires
            old(self).wf(),
            layers_bounded(old(self).dist@),
            u <= old(self).m,
            u != NIL ==> old(self).dist@[u as int] != INF,
        ensures
            final(self).m == old(self).m,
            final(self).adj@ == old(self).adj@,
            final(self).pair_u@.len() == old(self).pair_u@.len(),
            final(self).pair_v@.len() == old(self).pair_v@.len(),
            final(self).pair_v@[0] == 0,
            right_kept(old(self).pair_v@, final(self).pair_v@),
            only_marked(old(self).dist@, final(self).dist@),
            layers_bounded(final(self).dist@),
            below_untouched(
                old(self).pair_u@,
                old(self).dist@,
                final(self).pair_u@,
                final(self).dist@,
                u as int,
            ),
            u == NIL ==> ok && final(self).pair_u@ == old(self).pair_u@ && final(self).pair_v@ == old(
                self,
            ).pair_v@ && final(self).dist@ == old(self).dist@,
            u != NIL ==> ok == alive(old(self).adj@, old(self).pair_v@, old(self).dist@, u as int),
            !ok ==> {
                &&& final(self).pair_u@ == old(self).pair_u@
                &&& final(self).pair_v@ == old(self).pair_v@
                &&& same_alive(final(self).adj@, final(self).pair_v@, old(self).dist@, final(self).dist@)
                &&& final(self).dist@[u as int] == INF
            },
            ok && u != NIL ==> {
                &&& final(self).dist@[u as int] == old(self).dist@[u as int]
                &&& exists|j: int|
                    #[trigger] first_hop(old(self).adj@, old(self).pair_v@, old(self).dist@, u as int, j)
                        && final(self).pair_u@[u as int] == old(self).adj@[u as int]@[j]
                &&& matching_ok(
                    final(self).adj@,
                    final(self).pair_u@,
                    final(self).pair_v@.update(old(self).pair_u@[u as int] as int, 0),
                )
                &&& final(self).pair_u@[u as int] != 0
                &&& same_matched_but(old(self).pair_u@, final(self).pair_u@, u as int)
            },
        decreases
                (if u == NIL {
                    0int
                } else {
                    old(self).dist@.len() - old(self).dist@[u as int]
                }),
    {
        if u != NIL {
            let mut j: usize = 0;
            while j < self.adj[u as usize].len()
                invariant
                    old(self).wf(),
                    self.wf(),
                    1 <= u <= old(self).m,
                    old(self).dist@[u as int] != INF,
                    self.m == old(self).m,
                    self.adj@ == old(self).adj@,
                    self.pair_u@ == old(self).pair_u@,
                    self.pair_v@ == old(self).pair_v@,
                    only_marked(old(self).dist@, self.dist@),
                    layers_bounded(self.dist@),
                    below_untouched(old(self).pair_u@, old(self).dist@, self.pair_u@, self.dist@, u as int),
                    self.dist@[u as int] == old(self).dist@[u as int],
                    same_alive(self.adj@, self.pair_v@, old(self).dist@, self.dist@),
                    0 <= j <= self.adj@[u as int]@.len(),
                    forall|k: int| 0 <= k < j ==> !hop(self.adj@, self.pair_v@, self.dist@, u as int, k),
                decreases self.adj@[u as int]@.len() - j,
            {
                let v: u32 = self.adj[u as usize][j];
                let y: u32 = self.pair_v[v as usize];
                if self.dist[y as usize] == self.dist[u as usize] + 1 {
                    let ghost mid_d = self.dist@;
                    let ok: bool = self.dfs(y);
                    if ok {
                        proof {
                            lemma_first_hop(
                                self.adj@,
                                old(self).pair_v@,
                                old(self).dist@,
                                mid_d,
                                u as int,
                                j as int,
                            );
                            lemma_alive_def(self.adj@, old(self).pair_v@, old(self).dist@, u as int);
                            let a = self.pair_u@;
                            let b = self.pair_v@.update(v as int, 0);
                            lemma_commit(self.adj@, a, b, u as int, j as int);
                            assert(b.update(v as int, u) =~= self.pair_v@.update(v as int, u));
                        }
                        self.pair_u[u as usize] = v;
                        self.pair_v[v as usize] = u;
                        return true;
                    }
                    proof {
                        lemma_still_no_hop(self.adj@, self.pair_v@, mid_d, self.dist@, u as int, j as int);
                    }
                }
                j = j + 1;
            }
            proof {
                lemma_alive_def(self.adj@, self.pair_v@, self.dist@, u as int);
                lemma_mark_dead_all(self.adj@, self.pair_v@, self.dist@, u as int);
            }
            self.dist[u as usize] = INF;
            return false;
        }
        true
    }
}

} // verus!
