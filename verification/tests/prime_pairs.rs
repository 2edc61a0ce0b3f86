use hopcroft_karp::pairing::{is_prime, max_prime_sum_pairs, prime_sum_graph, split_by_parity};

#[test]
fn small_numbers_are_told_apart() {
    let primes = [2u32, 3, 5, 7, 11, 13, 17, 19, 23, 29, 31, 97, 7919];
    for n in primes {
        assert!(is_prime(n), "{} is prime", n);
    }
    let others = [0u32, 1, 4, 6, 8, 9, 10, 12, 15, 21, 25, 27, 49, 91, 7917];
    for n in others {
        assert!(!is_prime(n), "{} is not prime", n);
    }
}

#[test]
fn zero_and_one_are_not_prime() {
    assert!(!is_prime(0));
    assert!(!is_prime(1));
}

#[test]
fn primality_agrees_with_trial_division_below_two_thousand() {
    for n in 2u32..2000 {
        let mut prime = true;
        for d in 2..n {
            if n % d == 0 {
                prime = false;
            }
        }
        assert_eq!(is_prime(n), prime, "at {}", n);
    }
}

#[test]
fn primality_at_the_upper_end() {
    assert!(is_prime(4294967291));
    assert!(!is_prime(4294967295));
    assert!(!is_prime(4294967294));
    // 65521 is the largest prime below 65536.
    assert!(!is_prime(65521 * 65521));
    assert!(!is_prime(65535 * 65535));
    assert!(is_prime(65521));
    assert!(is_prime(2147483647));
}

#[test]
fn numbers_are_split_by_parity_in_order() {
    let (evens, odds) = split_by_parity(&vec![2, 7, 1, 15, 4, 8, 9, 6, 0, 7]);
    assert_eq!(evens, vec![2, 4, 8, 6, 0]);
    assert_eq!(odds, vec![7, 1, 15, 9, 7]);
    let (no_evens, no_odds) = split_by_parity(&Vec::new());
    assert!(no_evens.is_empty());
    assert!(no_odds.is_empty());
}

#[test]
fn prime_sum_graph_joins_the_right_pairs() {
    // 2 + 1 and 2 + 9 are prime, 2 + 7 is not; 8 + 9 is prime, 8 + 1 and 8 + 7 are not.
    let mut g = prime_sum_graph(&vec![2, 8], &vec![7, 1, 9]);
    assert_eq!(g.hopcroft_karp(), 2);
    assert_eq!(g.match_of_left(2), Some(3));
    assert_eq!(g.match_of_left(1), Some(2));
    assert_eq!(g.match_of_right(1), None);
}

#[test]
fn eight_numbers_give_four_pairs() {
    assert_eq!(max_prime_sum_pairs(&vec![2, 7, 1, 15, 4, 8, 9, 6]), 4);
}

#[test]
fn order_of_the_numbers_does_not_change_the_count() {
    assert_eq!(max_prime_sum_pairs(&vec![6, 9, 8, 4, 15, 1, 7, 2]), 4);
    assert_eq!(max_prime_sum_pairs(&vec![1, 7, 9, 15, 2, 4, 6, 8]), 4);
}

#[test]
fn no_pair_without_both_parities() {
    assert_eq!(max_prime_sum_pairs(&Vec::new()), 0);
    assert_eq!(max_prime_sum_pairs(&vec![2, 4, 6]), 0);
    assert_eq!(max_prime_sum_pairs(&vec![1, 3, 5]), 0);
}

#[test]
fn pairs_need_a_prime_sum() {
    assert_eq!(max_prime_sum_pairs(&vec![3, 6]), 0);
    assert_eq!(max_prime_sum_pairs(&vec![1, 2]), 1);
    assert_eq!(max_prime_sum_pairs(&vec![1, 3, 2]), 1);
    assert_eq!(max_prime_sum_pairs(&vec![1, 8, 7, 14]), 0);
}

#[test]
fn zero_and_one_are_no_pair() {
    assert_eq!(max_prime_sum_pairs(&vec![0, 1]), 0);
    assert_eq!(max_prime_sum_pairs(&vec![0, 1, 2]), 1);
    assert_eq!(max_prime_sum_pairs(&vec![0, 3]), 1);
}

#[test]
fn one_odd_number_serves_one_even_number_only() {
    assert_eq!(max_prime_sum_pairs(&vec![1, 2, 4, 6, 10]), 1);
    assert_eq!(max_prime_sum_pairs(&vec![1, 3, 2, 4]), 2);
}
