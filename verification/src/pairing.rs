//! Pairing even with odd numbers so that every pair has a prime sum: the
//! largest number of disjoint pairs is a maximum matching of the graph that
//! joins an even to an odd number whenever their sum is prime.

use vstd::prelude::*;
use vstd::arithmetic::div_mod::{lemma_fundamental_div_mod, lemma_mod_multiples_basic};
use crate::graph::BipartiteGraph;
use vstd::set_lib::lemma_map_size;
use crate::matching::{is_matching, is_maximum_matching, Edge};

verus! {

/// No number from 2 up to the square root of `n` divides `n`.
pub open spec fn no_small_divisor(n: int) -> bool {
    forall|d: int| 2 <= d && d * d <= n ==> #[trigger] (n % d) != 0
}

/// `n` is at least 2 and no number strictly between 1 and `n` divides it.
pub open spec fn is_prime_number(n: int) -> bool {
    n >= 2 && forall|d: int| 2 <= d < n ==> #[trigger] (n % d) != 0
}

/// For numbers from 2 on, having no divisor up to the square root is being prime.
pub proof fn lemma_no_small_divisor_is_prime(n: int)
    requires
        n >= 2,
    ensures
        no_small_divisor(n) <==> is_prime_number(n),
{
    if no_small_divisor(n) {
        assert forall|d: int| 2 <= d < n implies #[trigger] (n % d) != 0 by {
            if n % d == 0 {
                let e = n / d;
                lemma_fundamental_div_mod(n, d);
                assert(e >= 2) by (nonlinear_arith)
                    requires
                        n == d * e,
                        2 <= d < n,
                ;
                if d * d > n {
                    // Then the other factor is the small divisor.
                    assert(e * e <= n) by (nonlinear_arith)
                        requires
                            n == d * e,
                            d * d > n,
                            d >= 2,
                            e >= 2,
                    ;
                    lemma_mod_multiples_basic(d, e);
                }
            }
        }
    }
    if is_prime_number(n) {
        assert forall|d: int| 2 <= d && d * d <= n implies #[trigger] (n % d) != 0 by {
            assert(d < n) by (nonlinear_arith)
                requires
                    2 <= d,
                    d * d <= n,
            ;
        }
    }
}

/// Tells whether `n` is prime, by trial division up to its square root.
pub fn is_prime(n: u32) -> (prime: bool)
    ensures
        prime == is_prime_number(n as int),
{
    if n < 2 {
        return false;
    }
    proof {
        lemma_no_small_divisor_is_prime(n as int);
    }
    let mut i: u32 = 2;
    while i <= n / i
        invariant
            2 <= i <= 65536,
            no_small_divisor(n as int) <==> is_prime_number(n as int),
            forall|d: int| 2 <= d < i ==> #[trigger] (n as int % d) != 0,
        decreases 65536 - i,
    {
        proof {
            lemma_fundamental_div_mod(n as int, i as int);
            assert(i * i <= n) by (nonlinear_arith)
                requires
                    i <= n / i,
                    n == i * (n / i) + n % i,
                    0 <= n % i,
                    2 <= i,
            ;
            assert(i < 65536) by (nonlinear_arith)
                requires
                    i * i <= n,
                    n <= 0xffff_ffff,
                    2 <= i,
            ;
        }
        if n % i == 0 {
            return false;
        }
        i = i + 1;
    }
    proof {
        lemma_fundamental_div_mod(n as int, i as int);
        assert(i * i > n) by (nonlinear_arith)
            requires
                i > n / i,
                n == i * (n / i) + n % i,
                n % i < i,
                2 <= i,
        ;
        assert forall|d: int| 2 <= d && d * d <= n implies #[trigger] (n as int % d) != 0 by {
            assert(d < i) by (nonlinear_arith)
                requires
                    2 <= d,
                    d * d <= n,
                    i * i > n,
                    i >= 2,
            ;
        }
    }
    true
}

/// The even numbers of `values`, in their order.
pub open spec fn evens_of(values: Seq<u32>) -> Seq<u32> {
    values.filter(|x: u32| x % 2 == 0)
}

/// The odd numbers of `values`, in their order.
pub open spec fn odds_of(values: Seq<u32>) -> Seq<u32> {
    values.filter(|x: u32| x % 2 != 0)
}

/// Edge `(i, j)` joins the `i`-th even to the `j`-th odd number, counted
/// from 1, where their sum is prime.
pub open spec fn prime_sum_edges(evens: Seq<u32>, odds: Seq<u32>) -> Set<Edge> {
    Set::new(
        |e: Edge|
            1 <= e.0 <= evens.len() && 1 <= e.1 <= odds.len() && is_prime_number(
                evens[e.0 - 1] + odds[e.1 - 1],
            ),
    )
}

/// Every sum of an entry of `evens` and an entry of `odds` fits in 32 bits.
pub open spec fn sums_fit(evens: Seq<u32>, odds: Seq<u32>) -> bool {
    forall|i: int, j: int|
        0 <= i < evens.len() && 0 <= j < odds.len() ==> #[trigger] evens[i] + #[trigger] odds[j]
            <= u32::MAX
}

/// The number `x` occurs in `s`.
pub open spec fn holds(s: Seq<u32>, x: int) -> bool {
    exists|i: int| 0 <= i < s.len() && #[trigger] s[i] == x
}

/// The numbers that occur in `values`, as a set.
pub open spec fn numbers(values: Seq<u32>) -> Set<int> {
    Set::new(|x: int| holds(values, x))
}

/// The pairs of an even and an odd number of `s` whose sum is prime.
pub open spec fn prime_pairs(s: Set<int>) -> Set<Edge> {
    Set::new(
        |e: Edge|
            s.contains(e.0) && s.contains(e.1) && e.0 % 2 == 0 && e.1 % 2 != 0 && is_prime_number(
                e.0 + e.1,
            ),
    )
}

/// `evens` holds the even and `odds` the odd numbers of `values`, each
/// once where `values` holds each number once.
pub open spec fn split_ok(values: Seq<u32>, evens: Seq<u32>, odds: Seq<u32>) -> bool {
    &&& forall|i: int|
        0 <= i < evens.len() ==> (#[trigger] evens[i]) % 2 == 0 && holds(values, evens[i] as int)
    &&& forall|i: int|
        0 <= i < odds.len() ==> (#[trigger] odds[i]) % 2 != 0 && holds(values, odds[i] as int)
    &&& forall|k: int|
        0 <= k < values.len() ==> if (#[trigger] values[k]) % 2 == 0 {
            holds(evens, values[k] as int)
        } else {
            holds(odds, values[k] as int)
        }
    &&& values.no_duplicates() ==> evens.no_duplicates() && odds.no_duplicates()
}

/// Every sum of an even and an odd number of `values` fits in 32 bits.
pub open spec fn pair_sums_fit(values: Seq<u32>) -> bool {
    forall|i: int, j: int|
        0 <= i < values.len() && 0 <= j < values.len() && (#[trigger] values[i]) % 2 == 0 && (
        #[trigger] values[j]) % 2 != 0 ==> values[i] + values[j] <= u32::MAX
}

/// The place of the number `x` in `s`, counted from 1.
pub open spec fn place_of(s: Seq<u32>, x: int) -> int {
    (choose|i: int| 0 <= i < s.len() && #[trigger] s[i] == x) + 1
}

/// A maximum matching between the places of the even and the odd numbers
/// is as large as a maximum matching between the numbers themselves: the
/// size does not depend on the order in which the numbers come.
pub proof fn lemma_pairs_by_number(evens: Seq<u32>, odds: Seq<u32>, s: Set<int>, m: Set<Edge>)
    requires
        evens.no_duplicates(),
        odds.no_duplicates(),
        forall|i: int| 0 <= i < evens.len() ==> (#[trigger] evens[i]) % 2 == 0 && s.contains(evens[i] as int),
        forall|i: int| 0 <= i < odds.len() ==> (#[trigger] odds[i]) % 2 != 0 && s.contains(odds[i] as int),
        forall|x: int| #[trigger] s.contains(x) ==> if x % 2 == 0 {
            holds(evens, x)
        } else {
            holds(odds, x)
        },
        is_maximum_matching(prime_sum_edges(evens, odds), m),
    ensures
        exists|by_number: Set<Edge>| #[trigger]
            is_maximum_matching(prime_pairs(s), by_number) && by_number.len() == m.len(),
{
    let by_place = prime_sum_edges(evens, odds);
    let to_numbers = |e: Edge| (evens[e.0 - 1] as int, odds[e.1 - 1] as int);
    let to_places = |e: Edge| (place_of(evens, e.0), place_of(odds, e.1));
    let image = m.map(to_numbers);
    lemma_map_size(m, image, to_numbers);
    assert forall|e: Edge| image.contains(e) implies prime_pairs(s).contains(e) by {
        let a = choose|a: Edge| m.contains(a) && e == to_numbers(a);
    }
    assert forall|x: Edge, y: Edge|
        #![trigger image.contains(x), image.contains(y)]
        image.contains(x) && image.contains(y) && (x.0 == y.0 || x.1 == y.1) implies x == y by {
        let a = choose|a: Edge| m.contains(a) && x == to_numbers(a);
        let b = choose|b: Edge| m.contains(b) && y == to_numbers(b);
    }
    assert forall|other: Set<Edge>| #[trigger] is_matching(prime_pairs(s), other) implies other.len()
        <= image.len() by {
        let back = other.map(to_places);
        lemma_map_size(other, back, to_places);
        assert forall|e: Edge| back.contains(e) implies by_place.contains(e) by {
            let x = choose|x: Edge| other.contains(x) && e == to_places(x);
        }
        assert forall|a: Edge, b: Edge|
            #![trigger back.contains(a), back.contains(b)]
            back.contains(a) && back.contains(b) && (a.0 == b.0 || a.1 == b.1) implies a == b by {
            let x = choose|x: Edge| other.contains(x) && a == to_places(x);
        }
        assert(is_matching(by_place, back));
    }
    assert(is_maximum_matching(prime_pairs(s), image));
}

/// Splits `values` into its even and its odd numbers, keeping their order.
pub fn split_by_parity(values: &Vec<u32>) -> (parts: (Vec<u32>, Vec<u32>))
    ensures
        parts.0@ == evens_of(values@),
        parts.1@ == odds_of(values@),
        split_ok(values@, parts.0@, parts.1@),
{
    let mut evens: Vec<u32> = Vec::new();
    let mut odds: Vec<u32> = Vec::new();
    let mut i: usize = 0;
    proof {
        reveal(Seq::filter);
    }
    while i < values.len()
        invariant
            0 <= i <= values@.len(),
            evens@ == evens_of(values@.take(i as int)),
            odds@ == odds_of(values@.take(i as int)),
            forall|a: int|
                0 <= a < evens@.len() ==> (#[trigger] evens@[a]) % 2 == 0 && exists|k: int|
                    0 <= k < i && #[trigger] values@[k] == evens@[a],
            forall|a: int|
                0 <= a < odds@.len() ==> (#[trigger] odds@[a]) % 2 != 0 && exists|k: int|
                    0 <= k < i && #[trigger] values@[k] == odds@[a],
            forall|k: int|
                0 <= k < i ==> if (#[trigger] values@[k]) % 2 == 0 {
                    holds(evens@, values@[k] as int)
                } else {
                    holds(odds@, values@[k] as int)
                },
            values@.no_duplicates() ==> evens@.no_duplicates() && odds@.no_duplicates(),
        decreases values@.len() - i,
    {
        let x: u32 = values[i];
        let ghost evens_before = evens@;
        let ghost odds_before = odds@;
        proof {
            reveal(Seq::filter);
            assert(values@.take(i + 1).drop_last() =~= values@.take(i as int));
        }
        if x % 2 == 0 {
            evens.push(x);
        } else {
            odds.push(x);
        }
        proof {
            assert forall|k: int| 0 <= k < i + 1 implies if (#[trigger] values@[k]) % 2 == 0 {
                holds(evens@, values@[k] as int)
            } else {
                holds(odds@, values@[k] as int)
            } by {
                if k < i {
                    if values@[k] % 2 == 0 {
                        let a = choose|a: int| 0 <= a < evens_before.len() && #[trigger] evens_before[a] == values@[k];
                        assert(evens@[a] == values@[k]);
                    } else {
                        let a = choose|a: int| 0 <= a < odds_before.len() && #[trigger] odds_before[a] == values@[k];
                        assert(odds@[a] == values@[k]);
                    }
                } else if x % 2 == 0 {
                    assert(evens@[evens_before.len() as int] == x);
                } else {
                    assert(odds@[odds_before.len() as int] == x);
                }
            }
        }
        i = i + 1;
    }
    proof {
        assert(values@.take(i as int) =~= values@);
    }
    (evens, odds)
}

/// The graph that joins the `i`-th entry of `evens` to the `j`-th entry of
/// `odds` where their sum is prime.
pub fn prime_sum_graph(evens: &Vec<u32>, odds: &Vec<u32>) -> (g: BipartiteGraph)
    requires
        evens@.len() < u32::MAX,
        odds@.len() < u32::MAX,
        sums_fit(evens@, odds@),
    ensures
        g.wf(),
        g.left_size() == evens@.len(),
        g.right_size() == odds@.len(),
        g.edges() == prime_sum_edges(evens@, odds@),
        g.matching() == Set::<Edge>::empty(),
{
    let m: u32 = evens.len() as u32;
    let n: u32 = odds.len() as u32;
    let mut g = BipartiteGraph::new(m, n);
    let mut i: u32 = 0;
    while i < m
        invariant
            m == evens@.len(),
            n == odds@.len(),
            m < u32::MAX,
            n < u32::MAX,
            sums_fit(evens@, odds@),
            0 <= i <= m,
            g.wf(),
            g.left_size() == m,
            g.right_size() == n,
            g.matching() == Set::<Edge>::empty(),
            forall|e: Edge|
                g.edges().contains(e) <==> prime_sum_edges(evens@, odds@).contains(e) && e.0 <= i,
        decreases m - i,
    {
        let mut j: u32 = 0;
        while j < n
            invariant
                m == evens@.len(),
                n == odds@.len(),
                m < u32::MAX,
                n < u32::MAX,
                sums_fit(evens@, odds@),
                0 <= i < m,
                0 <= j <= n,
                g.wf(),
                g.left_size() == m,
                g.right_size() == n,
                g.matching() == Set::<Edge>::empty(),
                forall|e: Edge|
                    g.edges().contains(e) <==> prime_sum_edges(evens@, odds@).contains(e) && (e.0 <= i
                        || (e.0 == i + 1 && e.1 <= j)),
            decreases n - j,
        {
            if is_prime(evens[i as usize] + odds[j as usize]) {
                g.add_edge(i + 1, j + 1);
            }
            j = j + 1;
        }
        i = i + 1;
    }
    g
}

/// The largest number of disjoint pairs of an even and an odd number of
/// `values` whose sum is prime. No number occurs twice in `values`; the
/// result depends on the numbers only, not on their order.
pub fn max_prime_sum_pairs(values: &Vec<u32>) -> (count: u32)
    requires
        values@.no_duplicates(),
        values@.len() < u32::MAX,
        pair_sums_fit(values@),
    ensures
        exists|m: Set<Edge>| #[trigger]
            is_maximum_matching(prime_pairs(numbers(values@)), m) && m.len() == count,
{
    let (evens, odds) = split_by_parity(values);
    proof {
        values@.lemma_filter_len(|x: u32| x % 2 == 0);
        values@.lemma_filter_len(|x: u32| x % 2 != 0);
    }
    let mut g = prime_sum_graph(&evens, &odds);
    let count: u32 = g.hopcroft_karp();
    proof {
        lemma_pairs_by_number(evens@, odds@, numbers(values@), g.matching());
    }
    count
}

} // verus!
