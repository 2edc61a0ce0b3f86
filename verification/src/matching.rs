//! Matchings as sets of edges, and what it means for one to be maximum.

use vstd::prelude::*;
use vstd::set_lib::{lemma_int_range, lemma_len_subset, lemma_map_size, set_int_range};

verus! {

/// An edge between left vertex `.0` and right vertex `.1`.
pub type Edge = (int, int);

/// `m` is a matching of the graph with edge set `edges`: a finite set of
/// edges of the graph, no two of which share an endpoint.
pub open spec fn is_matching(edges: Set<Edge>, m: Set<Edge>) -> bool {
    &&& m.finite()
    &&& m.subset_of(edges)
    &&& forall|a: Edge, b: Edge|
        #![trigger m.contains(a), m.contains(b)]
        m.contains(a) && m.contains(b) && (a.0 == b.0 || a.1 == b.1) ==> a == b
}

/// `m` is a matching of the graph and no matching of the graph has more edges.
pub open spec fn is_maximum_matching(edges: Set<Edge>, m: Set<Edge>) -> bool {
    &&& is_matching(edges, m)
    &&& forall|other: Set<Edge>| #[trigger] is_matching(edges, other) ==> other.len() <= m.len()
}

/// Some edge of `m` ends in left vertex `u`.
pub open spec fn covers_left(m: Set<Edge>, u: int) -> bool {
    exists|v: int| m.contains((u, v))
}

/// Some edge of `m` ends in right vertex `v`.
pub open spec fn covers_right(m: Set<Edge>, v: int) -> bool {
    exists|u: int| m.contains((u, v))
}

/// Every edge joins a left vertex in `1..=left` to a right vertex in `1..=right`.
pub open spec fn edges_within(edges: Set<Edge>, left: nat, right: nat) -> bool {
    forall|e: Edge| #[trigger] edges.contains(e) ==> 1 <= e.0 <= left && 1 <= e.1 <= right
}

/// Every left vertex in `1..=left` is joined to every right vertex in `1..=right`.
pub open spec fn is_complete(edges: Set<Edge>, left: nat, right: nat) -> bool {
    forall|u: int, v: int| 1 <= u <= left && 1 <= v <= right ==> #[trigger] edges.contains((u, v))
}

/// The smaller of two sizes.
pub open spec fn smaller(a: nat, b: nat) -> nat {
    if a <= b {
        a
    } else {
        b
    }
}

/// The pairs `(1, 1)`, `(2, 2)`, ... up to `(k, k)`.
pub open spec fn diagonal(k: nat) -> Set<Edge> {
    Set::new(|e: Edge| 1 <= e.0 <= k && e.1 == e.0)
}

/// A matching has no more edges than the graph has vertices on either side.
pub proof fn lemma_matching_bounded(edges: Set<Edge>, m: Set<Edge>, left: nat, right: nat)
    requires
        is_matching(edges, m),
        edges_within(edges, left, right),
    ensures
        m.len() <= smaller(left, right),
{
    let first = |e: Edge| e.0;
    let second = |e: Edge| e.1;
    lemma_map_size(m, m.map(first), first);
    lemma_map_size(m, m.map(second), second);
    lemma_int_range(1, left as int + 1);
    lemma_int_range(1, right as int + 1);
    assert forall|x: int| m.map(first).contains(x) implies set_int_range(1, left as int + 1).contains(x) by {
        let e = choose|e: Edge| m.contains(e) && x == first(e);
    }
    assert forall|x: int| m.map(second).contains(x) implies set_int_range(1, right as int + 1).contains(
        x,
    ) by {
        let e = choose|e: Edge| m.contains(e) && x == second(e);
    }
    lemma_len_subset(m.map(first), set_int_range(1, left as int + 1));
    lemma_len_subset(m.map(second), set_int_range(1, right as int + 1));
}

/// A graph without edges has only the empty matching.
pub proof fn lemma_no_edges_no_matching(edges: Set<Edge>, m: Set<Edge>)
    requires
        is_matching(edges, m),
        edges =~= Set::<Edge>::empty(),
    ensures
        m.len() == 0,
        m =~= Set::<Edge>::empty(),
{
    assert(m =~= Set::<Edge>::empty());
}

/// The diagonal has `k` edges, no two of which share an endpoint.
pub proof fn lemma_diagonal(k: nat)
    ensures
        diagonal(k).finite(),
        diagonal(k).len() == k,
        forall|a: Edge, b: Edge|
            #![trigger diagonal(k).contains(a), diagonal(k).contains(b)]
            diagonal(k).contains(a) && diagonal(k).contains(b) && (a.0 == b.0 || a.1 == b.1) ==> a == b,
{
    let twice = |i: int| (i, i);
    let range = set_int_range(1, k as int + 1);
    lemma_int_range(1, k as int + 1);
    assert forall|e: Edge| range.map(twice).contains(e) <==> diagonal(k).contains(e) by {
        if diagonal(k).contains(e) {
            assert(range.contains(e.0) && e == twice(e.0));
        }
    }
    assert(range.map(twice) =~= diagonal(k));
    lemma_map_size(range, diagonal(k), twice);
}

/// In a complete bipartite graph a maximum matching covers the whole of
/// the smaller side.
pub proof fn lemma_complete_maximum(edges: Set<Edge>, m: Set<Edge>, left: nat, right: nat)
    requires
        edges_within(edges, left, right),
        is_complete(edges, left, right),
        is_maximum_matching(edges, m),
    ensures
        m.len() == smaller(left, right),
{
    let k = smaller(left, right);
    lemma_diagonal(k);
    assert(is_matching(edges, diagonal(k)));
    lemma_matching_bounded(edges, m, left, right);
}

/// Two maximum matchings of one graph have the same number of edges.
pub proof fn lemma_maximum_size_unique(edges: Set<Edge>, a: Set<Edge>, b: Set<Edge>)
    requires
        is_maximum_matching(edges, a),
        is_maximum_matching(edges, b),
    ensures
        a.len() == b.len(),
{
}

} // verus!
