//! The layering phase: a breadth-first search from the free left vertices
//! over alternating edges, which tells whether an augmenting path exists
//! and leaves the layer of every left vertex behind.

use vstd::prelude::*;
use vstd::set_lib::{lemma_int_range, lemma_len_subset, set_int_range};
use crate::graph::{adjacency_ok, matching_ok, BipartiteGraph, INF, NIL};

verus! {

/// Every finite layer of a real vertex is below the number of left
/// vertices, and a finite layer of `NIL` is at most that number.
pub open spec fn layers_bounded(dist: Seq<u32>) -> bool {
    &&& forall|x: int| 1 <= x < dist.len() ==> #[trigger] dist[x] == INF || dist[x] + 1 < dist.len()
    &&& dist[0] == INF || dist[0] < dist.len()
}

/// Every free left vertex is in layer 0.
pub open spec fn free_at_zero(pair_u: Seq<u32>, dist: Seq<u32>) -> bool {
    forall|x: int| 1 <= x < pair_u.len() && #[trigger] pair_u[x] == 0 ==> dist[x] == 0
}

/// From left vertex `u` a path leads to `NIL` that climbs one layer with
/// every edge: an augmenting path of the layering starts here.
pub open spec fn alive(adj: Seq<Vec<u32>>, pair_v: Seq<u32>, dist: Seq<u32>, u: int) -> bool
    decreases dist.len() - dist[u],
{
    &&& 0 <= u < dist.len()
    &&& dist[u] + 1 < dist.len()
    &&& exists|j: int|
        #![trigger adj[u]@[j]]
        {
            &&& 0 <= j < adj[u]@.len()
            &&& 0 <= pair_v[adj[u]@[j] as int] < dist.len()
            &&& dist[pair_v[adj[u]@[j] as int] as int] == dist[u] + 1
            &&& (pair_v[adj[u]@[j] as int] == 0 || alive(
                adj,
                pair_v,
                dist,
                pair_v[adj[u]@[j] as int] as int,
            ))
        }
}

/// Edge number `j` of left vertex `u` leads one layer up, to `NIL` or to a
/// vertex that is alive.
pub open spec fn hop(adj: Seq<Vec<u32>>, pair_v: Seq<u32>, dist: Seq<u32>, u: int, j: int) -> bool {
    let x = pair_v[adj[u]@[j] as int] as int;
    &&& 0 <= u < dist.len()
    &&& 0 <= j < adj[u]@.len()
    &&& 0 <= x < dist.len()
    &&& dist[u] + 1 < dist.len()
    &&& dist[x] == dist[u] + 1
    &&& (x == 0 || alive(adj, pair_v, dist, x))
}

/// A vertex is alive exactly if one of its edges is a hop.
pub proof fn lemma_alive_def(adj: Seq<Vec<u32>>, pair_v: Seq<u32>, dist: Seq<u32>, u: int)
    ensures
        alive(adj, pair_v, dist, u) <==> exists|j: int| hop(adj, pair_v, dist, u, j),
{
    if alive(adj, pair_v, dist, u) {
        let j = choose|j: int|
            #![trigger adj[u]@[j]]
            {
                &&& 0 <= j < adj[u]@.len()
                &&& 0 <= pair_v[adj[u]@[j] as int] < dist.len()
                &&& dist[pair_v[adj[u]@[j] as int] as int] == dist[u] + 1
                &&& (pair_v[adj[u]@[j] as int] == 0 || alive(
                    adj,
                    pair_v,
                    dist,
                    pair_v[adj[u]@[j] as int] as int,
                ))
            };
        assert(hop(adj, pair_v, dist, u, j));
    }
    if exists|j: int| hop(adj, pair_v, dist, u, j) {
        let j = choose|j: int| hop(adj, pair_v, dist, u, j);
    }
}

/// Every neighbour of left vertex `u` is matched to a vertex that has a layer.
pub open spec fn expanded(adj: Seq<Vec<u32>>, pair_v: Seq<u32>, dist: Seq<u32>, u: int) -> bool {
    forall|j: int| 0 <= j < adj[u]@.len() ==> dist[pair_v[#[trigger] adj[u]@[j] as int] as int] != INF
}

/// The search ran dry: every real left vertex with a layer is expanded.
pub open spec fn closed_layers(adj: Seq<Vec<u32>>, pair_v: Seq<u32>, dist: Seq<u32>) -> bool {
    forall|u: int| 1 <= u < adj.len() && #[trigger] dist[u] != INF ==> expanded(adj, pair_v, dist, u)
}

/// Left vertex `x` is free and in layer 0.
pub open spec fn rooted(pair_u: Seq<u32>, dist: Seq<u32>, x: int) -> bool {
    1 <= x && pair_u[x] == 0 && dist[x] == 0
}

/// Edge number `j` of `p` leads to the partner `x`, one layer above `p`.
pub open spec fn parent_ok(
    adj: Seq<Vec<u32>>,
    pair_v: Seq<u32>,
    dist: Seq<u32>,
    p: int,
    j: int,
    x: int,
) -> bool {
    &&& 1 <= p < dist.len()
    &&& dist[p] != INF
    &&& 0 <= j < adj[p]@.len()
    &&& pair_v[adj[p]@[j] as int] == x
    &&& dist[x] == dist[p] + 1
}

/// Vertex `x` has a layer.
pub open spec fn has_layer(dist: Seq<u32>, x: int) -> bool {
    0 <= x < dist.len() && dist[x] != INF
}

/// Every vertex with a layer is a root or hangs below the vertex that `par` names.
pub open spec fn tree_ok(
    adj: Seq<Vec<u32>>,
    pair_u: Seq<u32>,
    pair_v: Seq<u32>,
    dist: Seq<u32>,
    par: Seq<int>,
    parj: Seq<int>,
) -> bool {
    &&& par.len() == dist.len()
    &&& parj.len() == dist.len()
    &&& forall|x: int| #[trigger]
        has_layer(dist, x) ==> rooted(pair_u, dist, x) || parent_ok(
            adj,
            pair_v,
            dist,
            par[x],
            parj[x],
            x,
        )
}

/// What the search keeps true of its queue: `reached` is the set of real
/// vertices with a layer, `idx` gives the place of each vertex in the queue.
pub open spec fn queue_ok(dist: Seq<u32>, q: Seq<u32>, reached: Set<int>, idx: Seq<int>) -> bool {
    &&& idx.len() == dist.len()
    &&& reached.finite()
    &&& forall|x: int|
        #![trigger reached.contains(x)]
        #![trigger dist[x]]
        reached.contains(x) <==> 1 <= x < dist.len() && dist[x] != INF
    &&& forall|x: int| 1 <= x < dist.len() && #[trigger] dist[x] != INF ==> dist[x] < reached.len()
    &&& dist[0] != INF ==> dist[0] <= reached.len()
    &&& q.len() == reached.len() + (if dist[0] != INF { 1int } else { 0int })
    &&& forall|i: int| 0 <= i < q.len() ==> #[trigger] q[i] < dist.len() && dist[q[i] as int] != INF
    &&& forall|x: int|
        0 <= x < dist.len() && #[trigger] dist[x] != INF ==> 0 <= idx[x] < q.len() && q[idx[x]] == x
}

/// The left vertex behind edge number `j` of left vertex `u`: the partner of
/// the right end of that edge, `NIL` where the right end is free.
pub open spec fn target(adj: Seq<Vec<u32>>, pair_v: Seq<u32>, u: int, j: int) -> int {
    pair_v[adj[u]@[j] as int] as int
}

/// No edge of left vertex `u` climbs more than one layer.
pub open spec fn relaxed_at(adj: Seq<Vec<u32>>, pair_v: Seq<u32>, dist: Seq<u32>, u: int) -> bool {
    forall|j: int|
        0 <= j < adj[u]@.len() ==> dist[pair_v[#[trigger] adj[u]@[j] as int] as int] <= dist[u] + 1
}

/// Every real left vertex in layer 0 is free.
pub open spec fn zero_is_free(pair_u: Seq<u32>, dist: Seq<u32>) -> bool {
    forall|x: int| 1 <= x < pair_u.len() && #[trigger] dist[x] == 0 ==> pair_u[x] == 0
}

/// No real left vertex lies above the layer of `NIL`.
pub open spec fn capped(dist: Seq<u32>) -> bool {
    forall|x: int| 1 <= x < dist.len() && #[trigger] dist[x] != INF ==> dist[x] <= dist[0]
}

/// Vertex `x` has a layer and is not a free left vertex.
pub open spec fn reached_by_edge(pair_u: Seq<u32>, dist: Seq<u32>, x: int) -> bool {
    0 <= x < dist.len() && dist[x] != INF && !(1 <= x && pair_u[x] == 0)
}

/// Every vertex with a layer, but for the free left vertices, is the
/// target of an edge from a real vertex one layer below.
pub open spec fn has_parents(adj: Seq<Vec<u32>>, pair_u: Seq<u32>, pair_v: Seq<u32>, dist: Seq<u32>) -> bool {
    forall|x: int| #[trigger]
        reached_by_edge(pair_u, dist, x) ==> exists|p: int, j: int| #[trigger]
            parent_ok(adj, pair_v, dist, p, j, x)
}

/// The layers are the distances from the free left vertices, as far as the
/// search went: the free left vertices are exactly layer 0, no edge from a
/// vertex below the layer of `NIL` climbs more than one layer, every other
/// vertex with a layer has a parent one layer below, and no real vertex lies
/// above `NIL`.
pub open spec fn layering_ok(adj: Seq<Vec<u32>>, pair_u: Seq<u32>, pair_v: Seq<u32>, dist: Seq<u32>) -> bool {
    &&& free_at_zero(pair_u, dist)
    &&& zero_is_free(pair_u, dist)
    &&& capped(dist)
    &&& has_parents(adj, pair_u, pair_v, dist)
    &&& forall|u: int|
        1 <= u < dist.len() && #[trigger] dist[u] < dist[0] ==> relaxed_at(adj, pair_v, dist, u)
}

/// Step `i` of `path` leads to the left vertex of step `i + 1`.
pub open spec fn leads_on(adj: Seq<Vec<u32>>, pair_v: Seq<u32>, path: Seq<(int, int)>, i: int) -> bool {
    target(adj, pair_v, path[i].0, path[i].1) == path[i + 1].0
}

/// `path` is a list of steps, each a left vertex and the number of one of
/// its edges, in which every step leads to the left vertex of the next and
/// the last step leads to `NIL`, that is, ends in a free right vertex.
pub open spec fn is_alternating_path(adj: Seq<Vec<u32>>, pair_v: Seq<u32>, path: Seq<(int, int)>) -> bool {
    &&& path.len() >= 1
    &&& forall|i: int|
        0 <= i < path.len() ==> 1 <= (#[trigger] path[i]).0 < adj.len() && 0 <= path[i].1
            < adj[path[i].0]@.len()
    &&& forall|i: int| 0 <= i < path.len() - 1 ==> #[trigger] leads_on(adj, pair_v, path, i)
    &&& target(adj, pair_v, path.last().0, path.last().1) == 0
}

/// `path` is an augmenting path: an alternating path from a free left vertex.
pub open spec fn is_augmenting_path(
    adj: Seq<Vec<u32>>,
    pair_u: Seq<u32>,
    pair_v: Seq<u32>,
    path: Seq<(int, int)>,
) -> bool {
    &&& is_alternating_path(adj, pair_v, path)
    &&& pair_u[path[0].0] == 0
}

/// The queue holds its vertices by rising layer, none more than one layer
/// above the vertex in place `at`.
pub open spec fn queue_sorted(dist: Seq<u32>, q: Seq<u32>, at: int) -> bool {
    &&& forall|i: int, j: int|
        0 <= i <= j < q.len() ==> dist[#[trigger] q[i] as int] <= dist[#[trigger] q[j] as int]
    &&& 0 <= at < q.len() ==> forall|i: int|
        0 <= i < q.len() ==> dist[#[trigger] q[i] as int] <= dist[q[at] as int] + 1
}

/// The real vertices below the layer of `NIL` in the first `head` places of
/// the queue are relaxed.
pub open spec fn relaxed_prefix(
    adj: Seq<Vec<u32>>,
    pair_v: Seq<u32>,
    dist: Seq<u32>,
    q: Seq<u32>,
    head: int,
) -> bool {
    forall|i: int|
        0 <= i < head && #[trigger] q[i] != 0 && dist[q[i] as int] < dist[0] ==> relaxed_at(
            adj,
            pair_v,
            dist,
            q[i] as int,
        )
}

/// Giving the layer above `u` to the unreached vertex behind edge `j` of
/// `u`, and putting it at the end of the queue, keeps the queue in order
/// and the vertices before `u` relaxed.
pub proof fn lemma_order_step(
    adj: Seq<Vec<u32>>,
    pair_u: Seq<u32>,
    pair_v: Seq<u32>,
    dist: Seq<u32>,
    q: Seq<u32>,
    idx: Seq<int>,
    at: int,
    j: int,
)
    requires
        adj.len() == dist.len(),
        dist.len() <= INF,
        adjacency_ok(adj, pair_v.len() - 1),
        matching_ok(adj, pair_u, pair_v),
        forall|i: int| 0 <= i < q.len() ==> #[trigger] q[i] < dist.len() && dist[q[i] as int] != INF,
        forall|x: int|
            0 <= x < dist.len() && #[trigger] dist[x] != INF ==> 0 <= idx[x] < q.len() && q[idx[x]] == x,
        0 <= at < q.len(),
        1 <= q[at],
        dist[q[at] as int] < dist[0],
        dist[q[at] as int] + 1 < dist.len(),
        0 <= j < adj[q[at] as int]@.len(),
        dist[target(adj, pair_v, q[at] as int, j)] == INF,
        queue_sorted(dist, q, at),
        capped(dist),
        relaxed_prefix(adj, pair_v, dist, q, at),
        zero_is_free(pair_u, dist),
        forall|k: int|
            0 <= k < j ==> dist[pair_v[#[trigger] adj[q[at] as int]@[k] as int] as int] <= dist[q[at] as int]
                + 1,
    ensures
        ({
            let u = q[at] as int;
            let y = target(adj, pair_v, u, j);
            let d = dist.update(y, (dist[u] + 1) as u32);
            let q2 = q.push(y as u32);
            &&& queue_sorted(d, q2, at)
            &&& capped(d)
            &&& relaxed_prefix(adj, pair_v, d, q2, at)
            &&& zero_is_free(pair_u, d)
            &&& d[u] < d[0]
            &&& forall|k: int|
                0 <= k < j + 1 ==> d[pair_v[#[trigger] adj[u]@[k] as int] as int] <= d[u] + 1
        }),
{
    let u = q[at] as int;
    let y = target(adj, pair_v, u, j);
    let d = dist.update(y, (dist[u] + 1) as u32);
    let q2 = q.push(y as u32);
    assert forall|x: int| 1 <= x < d.len() && #[trigger] d[x] != INF implies d[x] <= d[0] by {
        // Where `NIL` is the vertex newly reached, `x` stands in the queue,
        // no more than one layer above `u`.
        let i = idx[x];
    }
    assert forall|i: int| 0 <= i < at && #[trigger] q2[i] != 0 && d[q2[i] as int] < d[0] implies relaxed_at(
        adj,
        pair_v,
        d,
        q2[i] as int,
    ) by {
        // The vertex newly reached had no layer, so it is the target of no
        // edge of a vertex that is relaxed.
    }
}

/// On an alternating path from a free left vertex, the vertex of step `i`
/// lies in layer `i` or below, unless `NIL` does.
pub proof fn lemma_path_layers(
    adj: Seq<Vec<u32>>,
    pair_u: Seq<u32>,
    pair_v: Seq<u32>,
    dist: Seq<u32>,
    path: Seq<(int, int)>,
    i: int,
)
    requires
        adj.len() == dist.len(),
        pair_u.len() == dist.len(),
        dist.len() <= INF,
        layers_bounded(dist),
        layering_ok(adj, pair_u, pair_v, dist),
        is_augmenting_path(adj, pair_u, pair_v, path),
        0 <= i < path.len(),
    ensures
        (dist[path[i].0] != INF && dist[path[i].0] <= i) || (dist[0] != INF && dist[0] <= i),
    decreases i,
{
    if i > 0 {
        lemma_path_layers(adj, pair_u, pair_v, dist, path, i - 1);
        let u = path[i - 1].0;
        let j = path[i - 1].1;
        if !(dist[0] != INF && dist[0] <= i - 1) {
            if dist[u] < dist[0] {
                assert(leads_on(adj, pair_v, path, i - 1));
            }
        }
    }
}

/// No augmenting path has fewer left vertices than the layer of `NIL`, and
/// where there is an augmenting path `NIL` has a layer.
pub proof fn lemma_shortest(
    adj: Seq<Vec<u32>>,
    pair_u: Seq<u32>,
    pair_v: Seq<u32>,
    dist: Seq<u32>,
    path: Seq<(int, int)>,
)
    requires
        adj.len() == dist.len(),
        pair_u.len() == dist.len(),
        dist.len() <= INF,
        layers_bounded(dist),
        layering_ok(adj, pair_u, pair_v, dist),
        is_augmenting_path(adj, pair_u, pair_v, path),
    ensures
        dist[0] != INF,
        dist[0] <= path.len(),
{
    let i = path.len() - 1;
    lemma_path_layers(adj, pair_u, pair_v, dist, path, i);
    let u = path[i].0;
    let j = path[i].1;
}

/// From a vertex that is alive, an alternating path leads to `NIL` that
/// climbs one layer with every step.
pub proof fn lemma_alive_path(adj: Seq<Vec<u32>>, pair_v: Seq<u32>, dist: Seq<u32>, u: int) -> (path: Seq<
    (int, int),
>)
    requires
        adj.len() == dist.len(),
        1 <= u,
        alive(adj, pair_v, dist, u),
    ensures
        is_alternating_path(adj, pair_v, path),
        path[0].0 == u,
        path.len() + dist[u] == dist[0],
    decreases dist.len() - dist[u],
{
    lemma_alive_def(adj, pair_v, dist, u);
    let j = choose|j: int| hop(adj, pair_v, dist, u, j);
    let x = target(adj, pair_v, u, j);
    if x == 0 {
        seq![(u, j)]
    } else {
        let rest = lemma_alive_path(adj, pair_v, dist, x);
        let path = seq![(u, j)] + rest;
        assert forall|i: int| 0 <= i < path.len() - 1 implies #[trigger] leads_on(adj, pair_v, path, i) by {
            if i > 0 {
                assert(leads_on(adj, pair_v, rest, i - 1));
            }
        }
        path
    }
}

/// The layer of a matched vertex that was reached is the least layer from
/// which an edge leads to it, plus one.
pub proof fn lemma_layer_is_least(
    adj: Seq<Vec<u32>>,
    pair_u: Seq<u32>,
    pair_v: Seq<u32>,
    dist: Seq<u32>,
    x: int,
    p: int,
    j: int,
)
    requires
        layering_ok(adj, pair_u, pair_v, dist),
        1 <= x < dist.len(),
        pair_u.len() == dist.len(),
        pair_u[x] != 0,
        dist[x] != INF,
        1 <= p < dist.len(),
        0 <= j < adj[p]@.len(),
        target(adj, pair_v, p, j) == x,
    ensures
        dist[x] >= 1,
        dist[p] + 1 >= dist[x],
{
}

/// At most as many real vertices have a layer as there are left vertices.
pub proof fn lemma_reached_bound(dist: Seq<u32>, reached: Set<int>)
    requires
        dist.len() >= 1,
        forall|x: int|
            #![trigger reached.contains(x)]
            #![trigger dist[x]]
            reached.contains(x) <==> 1 <= x < dist.len() && dist[x] != INF,
    ensures
        reached.finite(),
        reached.len() + 1 <= dist.len(),
{
    let range = set_int_range(1, dist.len() as int);
    lemma_int_range(1, dist.len() as int);
    lemma_len_subset(reached, range);
}

/// Giving a layer to the partner behind edge `j` of `u` keeps the queue and
/// the tree of parents in order.
pub proof fn lemma_reach(
    adj: Seq<Vec<u32>>,
    pair_u: Seq<u32>,
    pair_v: Seq<u32>,
    dist: Seq<u32>,
    q: Seq<u32>,
    reached: Set<int>,
    idx: Seq<int>,
    par: Seq<int>,
    parj: Seq<int>,
    u: int,
    j: int,
)
    requires
        adj.len() == dist.len(),
        dist.len() <= INF,
        adjacency_ok(adj, pair_v.len() - 1),
        matching_ok(adj, pair_u, pair_v),
        queue_ok(dist, q, reached, idx),
        tree_ok(adj, pair_u, pair_v, dist, par, parj),
        free_at_zero(pair_u, dist),
        1 <= u < dist.len(),
        dist[u] != INF,
        0 <= j < adj[u]@.len(),
        dist[pair_v[adj[u]@[j] as int] as int] == INF,
    ensures
        ({
            let y = pair_v[adj[u]@[j] as int] as int;
            let d = dist.update(y, (dist[u] + 1) as u32);
            &&& 0 <= y < dist.len()
            &&& dist[u] + 1 < dist.len()
            &&& queue_ok(
                d,
                q.push(y as u32),
                if y != 0 {
                    reached.insert(y)
                } else {
                    reached
                },
                idx.update(y, q.len() as int),
            )
            &&& tree_ok(adj, pair_u, pair_v, d, par.update(y, u), parj.update(y, j))
            &&& free_at_zero(pair_u, d)
        }),
{
    // The new layer is at most the number of reached vertices, and that
    // number is at most the number of left vertices.
    lemma_reached_bound(dist, reached);
    let y = pair_v[adj[u]@[j] as int] as int;
    let d = dist.update(y, (dist[u] + 1) as u32);
    assert forall|x: int| #[trigger] has_layer(d, x) implies rooted(pair_u, d, x) || parent_ok(
        adj,
        pair_v,
        d,
        par.update(y, u)[x],
        parj.update(y, j)[x],
        x,
    ) by {
        if x != y {
            assert(has_layer(dist, x));
        }
    }
}

/// From a vertex with a layer that reaches `NIL`, the parents lead back to a
/// free left vertex that reaches `NIL`.
pub proof fn lemma_back(
    adj: Seq<Vec<u32>>,
    pair_u: Seq<u32>,
    pair_v: Seq<u32>,
    dist: Seq<u32>,
    par: Seq<int>,
    parj: Seq<int>,
    x: int,
) -> (root: int)
    requires
        pair_u.len() == dist.len(),
        tree_ok(adj, pair_u, pair_v, dist, par, parj),
        layers_bounded(dist),
        0 <= x < dist.len(),
        dist[x] != INF,
        x == 0 || alive(adj, pair_v, dist, x),
    ensures
        1 <= root < dist.len(),
        pair_u[root] == 0,
        alive(adj, pair_v, dist, root),
    decreases dist[x],
{
    if rooted(pair_u, dist, x) {
        x
    } else {
        assert(has_layer(dist, x));
        let p = par[x];
        lemma_alive_def(adj, pair_v, dist, p);
        lemma_back(adj, pair_u, pair_v, dist, par, parj, p)
    }
}

impl BipartiteGraph {
    /// Computes the layers from the free left vertices and tells whether an
    /// augmenting path exists for the current matching.
    pub(crate) fn bfs(&mut self) -> (found: bool)
        requires
            old(self).wf(),
        ensures
            final(self).wf(),
            final(self).m == old(self).m,
            final(self).adj@ == old(self).adj@,
            final(self).pair_u@ == old(self).pair_u@,
            final(self).pair_v@ == old(self).pair_v@,
            layers_bounded(final(self).dist@),
            free_at_zero(final(self).pair_u@, final(self).dist@),
            layering_ok(final(self).adj@, final(self).pair_u@, final(self).pair_v@, final(self).dist@),
            found == (final(self).dist@[0] != INF),
            forall|path: Seq<(int, int)>| #[trigger]
                is_augmenting_path(final(self).adj@, final(self).pair_u@, final(self).pair_v@, path)
                    ==> found && final(self).dist@[0] <= path.len(),
            found ==> exists|path: Seq<(int, int)>| #[trigger]
                is_augmenting_path(final(self).adj@, final(self).pair_u@, final(self).pair_v@, path)
                    && path.len() == final(self).dist@[0],
            !found ==> closed_layers(final(self).adj@, final(self).pair_v@, final(self).dist@),
            found ==> exists|r: int|
                1 <= r <= final(self).m && final(self).pair_u@[r] == 0 && #[trigger] alive(
                    final(self).adj@,
                    final(self).pair_v@,
                    final(self).dist@,
                    r,
                ),
    {
        let m: u32 = self.m;
        let mut q: Vec<u32> = Vec::new();
        let ghost mut reached: Set<int> = Set::empty();
        let ghost mut idx: Seq<int> = Seq::new((m + 1) as nat, |i: int| 0int);
        let mut u: u32 = 1;
        while u <= m
            invariant
                old(self).wf(),
                old(self).m == m,
                m < INF,
                self.m == m,
                self.adj@ == old(self).adj@,
                self.pair_u@ == old(self).pair_u@,
                self.pair_v@ == old(self).pair_v@,
                self.dist@.len() == m + 1,
                self.pair_u@.len() == m + 1,
                idx.len() == m + 1,
                1 <= u <= m + 1,
                reached.finite(),
                q@.len() == reached.len(),
                forall|x: int|
                    #![trigger reached.contains(x)]
                    #![trigger self.pair_u@[x]]
                    reached.contains(x) <==> 1 <= x < u && self.pair_u@[x] == 0,
                forall|x: int|
                    #![trigger self.pair_u@[x]]
                    #![trigger self.dist@[x]]
                    1 <= x < u ==> if self.pair_u@[x] == 0 {
                        self.dist@[x] == 0 && 0 <= idx[x] < q@.len() && q@[idx[x]] == x
                    } else {
                        self.dist@[x] == INF
                    },
                forall|i: int| 0 <= i < q@.len() ==> 1 <= #[trigger] q@[i] < u && self.dist@[q@[i] as int] == 0,
            decreases m + 1 - u,
        {
            if self.pair_u[u as usize] == NIL {
                self.dist[u as usize] = 0;
                proof {
                    idx = idx.update(u as int, q@.len() as int);
                    reached = reached.insert(u as int);
                }
                q.push(u);
            } else {
                self.dist[u as usize] = INF;
            }
            u = u + 1;
        }
        self.dist[NIL as usize] = INF;
        let ghost mut par: Seq<int> = Seq::new((m + 1) as nat, |i: int| 0int);
        let ghost mut parj: Seq<int> = par;
        let mut head: usize = 0;
        proof {
            assert forall|x: int| 1 <= x < self.dist@.len() && #[trigger] self.dist@[x] != INF implies self.dist@[x]
                < reached.len() by {
                assert(reached.len() > 0) by {
                    if reached.len() == 0 {
                        reached.lemma_len0_is_empty();
                    }
                }
            }
        }
        while head < q.len()
            invariant
                old(self).wf(),
                old(self).m == m,
                m < INF,
                self.m == m,
                self.adj@ == old(self).adj@,
                self.pair_u@ == old(self).pair_u@,
                self.pair_v@ == old(self).pair_v@,
                self.dist@.len() == m + 1,
                0 <= head <= q@.len(),
                queue_ok(self.dist@, q@, reached, idx),
                tree_ok(self.adj@, self.pair_u@, self.pair_v@, self.dist@, par, parj),
                free_at_zero(self.pair_u@, self.dist@),
                zero_is_free(self.pair_u@, self.dist@),
                capped(self.dist@),
                queue_sorted(self.dist@, q@, head as int),
                relaxed_prefix(self.adj@, self.pair_v@, self.dist@, q@, head as int),
            decreases m + 1 - head,
        {
            proof {
                lemma_reached_bound(self.dist@, reached);
            }
            let u: u32 = q[head];
            head = head + 1;
            if self.dist[u as usize] < self.dist[NIL as usize] {
                let mut j: usize = 0;
                while j < self.adj[u as usize].len()
                    invariant
                        old(self).wf(),
                        old(self).m == m,
                        m < INF,
                        self.m == m,
                        self.adj@ == old(self).adj@,
                        self.pair_u@ == old(self).pair_u@,
                        self.pair_v@ == old(self).pair_v@,
                        self.dist@.len() == m + 1,
                        1 <= head <= q@.len(),
                        q@[head - 1] == u,
                        1 <= u <= m,
                        self.dist@[u as int] != INF,
                        0 <= j <= self.adj@[u as int]@.len(),
                        queue_ok(self.dist@, q@, reached, idx),
                        tree_ok(self.adj@, self.pair_u@, self.pair_v@, self.dist@, par, parj),
                        free_at_zero(self.pair_u@, self.dist@),
                        zero_is_free(self.pair_u@, self.dist@),
                        capped(self.dist@),
                        queue_sorted(self.dist@, q@, head - 1),
                        relaxed_prefix(self.adj@, self.pair_v@, self.dist@, q@, head - 1),
                        self.dist@[u as int] < self.dist@[0],
                        forall|k: int|
                            0 <= k < j ==> self.dist@[self.pair_v@[#[trigger] self.adj@[u as int]@[k] as int] as int]
                                <= self.dist@[u as int] + 1,
                    decreases self.adj@[u as int]@.len() - j,
                {
                    let v: u32 = self.adj[u as usize][j];
                    let y: u32 = self.pair_v[v as usize];
                    if self.dist[y as usize] == INF {
                        proof {
                            lemma_reach(
                                self.adj@,
                                self.pair_u@,
                                self.pair_v@,
                                self.dist@,
                                q@,
                                reached,
                                idx,
                                par,
                                parj,
                                u as int,
                                j as int,
                            );
                            lemma_order_step(
                                self.adj@,
                                self.pair_u@,
                                self.pair_v@,
                                self.dist@,
                                q@,
                                idx,
                                head - 1,
                                j as int,
                            );
                        }
                        let d: u32 = self.dist[u as usize] + 1;
                        self.dist[y as usize] = d;
                        proof {
                            idx = idx.update(y as int, q@.len() as int);
                            par = par.update(y as int, u as int);
                            parj = parj.update(y as int, j as int);
                            if y != 0 {
                                reached = reached.insert(y as int);
                            }
                        }
                        q.push(y);
                    }
                    j = j + 1;
                }
            }
        }
        let found: bool = self.dist[NIL as usize] != INF;
        proof {
            lemma_reached_bound(self.dist@, reached);
            assert forall|x: int| #[trigger] reached_by_edge(self.pair_u@, self.dist@, x) implies exists|
                p: int,
                j: int,
            | #[trigger] parent_ok(self.adj@, self.pair_v@, self.dist@, p, j, x) by {
                assert(has_layer(self.dist@, x));
            }
            assert forall|path: Seq<(int, int)>| #[trigger]
                is_augmenting_path(self.adj@, self.pair_u@, self.pair_v@, path) implies found
                && self.dist@[0] <= path.len() by {
                lemma_shortest(self.adj@, self.pair_u@, self.pair_v@, self.dist@, path);
            }
            if found {
                let r = lemma_back(self.adj@, self.pair_u@, self.pair_v@, self.dist@, par, parj, 0);
                let path = lemma_alive_path(self.adj@, self.pair_v@, self.dist@, r);
                assert(is_augmenting_path(self.adj@, self.pair_u@, self.pair_v@, path));
            }
        }
        found
    }
}

} // verus!
