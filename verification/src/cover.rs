//! Why a matching is maximum once the layering finds no augmenting path:
//! the vertices that the search did not reach on the left, together with
//! those it did reach on the right, meet every edge of the graph, and each
//! of them is the end of a matched edge of its own.

use vstd::prelude::*;
use vstd::set_lib::{lemma_int_range, lemma_len_subset, lemma_map_size, set_int_range};
use crate::graph::{adjacency_ok, edge_set, matching_ok, pair_set, INF};
use crate::layering::{closed_layers, free_at_zero};
use crate::matching::{covers_left, covers_right, edges_within, is_matching, Edge};

verus! {

/// The left vertices that have a partner.
pub open spec fn matched_left(pair_u: Seq<u32>) -> Set<int> {
    Set::new(|x: int| 1 <= x < pair_u.len() && pair_u[x] != 0)
}

/// There are at most as many matched left vertices as left vertices.
pub proof fn lemma_matched_left_finite(pair_u: Seq<u32>)
    requires
        pair_u.len() >= 1,
    ensures
        matched_left(pair_u).finite(),
        matched_left(pair_u).len() + 1 <= pair_u.len(),
{
    let range = set_int_range(1, pair_u.len() as int);
    lemma_int_range(1, pair_u.len() as int);
    lemma_len_subset(matched_left(pair_u), range);
}

/// There are as many matched pairs as matched left vertices.
pub proof fn lemma_pair_set_len(pair_u: Seq<u32>)
    requires
        pair_u.len() >= 1,
    ensures
        pair_set(pair_u).finite(),
        pair_set(pair_u).len() == matched_left(pair_u).len(),
{
    let with_partner = |x: int| (x, pair_u[x] as int);
    let left = matched_left(pair_u);
    lemma_matched_left_finite(pair_u);
    assert forall|e: Edge| left.map(with_partner).contains(e) <==> pair_set(pair_u).contains(e) by {
        if pair_set(pair_u).contains(e) {
            assert(left.contains(e.0) && e == with_partner(e.0));
        }
    }
    assert(left.map(with_partner) =~= pair_set(pair_u));
    lemma_map_size(left, pair_set(pair_u), with_partner);
}

/// Matching one more left vertex adds one to the number of matched pairs.
pub proof fn lemma_matched_grows(before: Seq<u32>, after: Seq<u32>, u: int)
    requires
        before.len() == after.len(),
        1 <= u < before.len(),
        before[u] == 0,
        after[u] != 0,
        forall|x: int| 0 <= x < before.len() && x != u ==> (#[trigger] after[x] != 0) == (before[x] != 0),
    ensures
        matched_left(after) == matched_left(before).insert(u),
        matched_left(after).len() == matched_left(before).len() + 1,
        pair_set(after).len() == pair_set(before).len() + 1,
{
    lemma_matched_left_finite(before);
    lemma_pair_set_len(before);
    lemma_pair_set_len(after);
}

/// The matched pairs cover exactly the matched left vertices.
pub proof fn lemma_covers_left(pair_u: Seq<u32>, u: int)
    ensures
        covers_left(pair_set(pair_u), u) <==> matched_left(pair_u).contains(u),
{
    if matched_left(pair_u).contains(u) {
        assert(pair_set(pair_u).contains((u, pair_u[u] as int)));
    }
}

/// The matched pairs cover exactly the right vertices that name a partner.
pub proof fn lemma_covers_right(adj: Seq<Vec<u32>>, pair_u: Seq<u32>, pair_v: Seq<u32>, v: int)
    requires
        matching_ok(adj, pair_u, pair_v),
    ensures
        covers_right(pair_set(pair_u), v) <==> 1 <= v < pair_v.len() && pair_v[v] != 0,
{
    if 1 <= v < pair_v.len() && pair_v[v] != 0 {
        assert(pair_set(pair_u).contains((pair_v[v] as int, v)));
    }
}

/// Every edge of the adjacency lists joins real vertices.
pub proof fn lemma_edges_within(adj: Seq<Vec<u32>>, n: int)
    requires
        adjacency_ok(adj, n),
        n >= 0,
    ensures
        edges_within(edge_set(adj), (adj.len() - 1) as nat, n as nat),
{
}

/// Partner tables that agree with each other hold a matching of the graph.
pub proof fn lemma_tables_hold_matching(adj: Seq<Vec<u32>>, pair_u: Seq<u32>, pair_v: Seq<u32>)
    requires
        matching_ok(adj, pair_u, pair_v),
    ensures
        is_matching(edge_set(adj), pair_set(pair_u)),
{
    lemma_pair_set_len(pair_u);
}

/// When the layering has run dry without reaching `NIL`, no matching of the
/// graph has more edges than the one in the tables.
pub proof fn lemma_closed_layers_maximum(
    adj: Seq<Vec<u32>>,
    pair_u: Seq<u32>,
    pair_v: Seq<u32>,
    dist: Seq<u32>,
    other: Set<Edge>,
)
    requires
        adjacency_ok(adj, pair_v.len() - 1),
        matching_ok(adj, pair_u, pair_v),
        dist.len() == adj.len(),
        dist[0] == INF,
        free_at_zero(pair_u, dist),
        closed_layers(adj, pair_v, dist),
        is_matching(edge_set(adj), other),
    ensures
        other.len() <= pair_set(pair_u).len(),
{
    // Each edge of `other` is charged to a matched left vertex: to its own
    // left end where the search did not reach it, else to the partner of
    // its right end.
    let charge = |e: Edge|
        if dist[e.0] == INF {
            e.0
        } else {
            pair_v[e.1] as int
        };
    let left = matched_left(pair_u);
    lemma_map_size(other, other.map(charge), charge);
    lemma_matched_left_finite(pair_u);
    lemma_len_subset(other.map(charge), left);
    lemma_pair_set_len(pair_u);
}

} // verus!
