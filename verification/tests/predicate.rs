use primary_num::{build_domain, collect_matches, is_prime, sequential_count};

#[test]
fn zero_and_one_are_not_prime() {
    assert!(!is_prime(0));
    assert!(!is_prime(1));
}

#[test]
fn small_primes_are_found() {
    for p in [2usize, 3, 5, 7, 11, 13, 17, 19, 23, 29, 31, 37, 41, 43, 47] {
        assert!(is_prime(p), "{p} is prime");
    }
}

#[test]
fn small_composites_are_refused() {
    for c in [4usize, 6, 8, 9, 10, 12, 14, 15, 16, 18, 20, 21, 25, 27, 49] {
        assert!(!is_prime(c), "{c} is composite");
    }
}

#[test]
fn primes_below_fifty_are_exactly_the_known_ones() {
    let found: Vec<usize> = (0..50).filter(|n| is_prime(*n)).collect();
    assert_eq!(found, vec![2, 3, 5, 7, 11, 13, 17, 19, 23, 29, 31, 37, 41, 43, 47]);
}

#[test]
fn larger_values_are_decided() {
    assert!(is_prime(7919));
    assert!(is_prime(99_991));
    assert!(!is_prime(7917));
    assert!(!is_prime(99_999));
    assert!(!is_prime(97 * 101));
}

#[test]
fn a_square_of_a_prime_is_refused() {
    assert!(!is_prime(11 * 11));
    assert!(!is_prime(997 * 997));
}

#[test]
fn domain_is_ascending_from_zero() {
    assert_eq!(build_domain(0), Vec::<usize>::new());
    assert_eq!(build_domain(1), vec![0]);
    assert_eq!(build_domain(5), vec![0, 1, 2, 3, 4]);
}

#[test]
fn sequential_count_of_small_domains() {
    assert_eq!(sequential_count(0), 0);
    assert_eq!(sequential_count(1), 0);
    assert_eq!(sequential_count(2), 0);
    assert_eq!(sequential_count(3), 1);
    assert_eq!(sequential_count(4), 2);
    assert_eq!(sequential_count(10), 4);
}

#[test]
fn sequential_count_matches_known_prime_counts() {
    assert_eq!(sequential_count(100), 25);
    assert_eq!(sequential_count(1_000), 168);
    assert_eq!(sequential_count(10_000), 1_229);
}

#[test]
fn sequential_count_excludes_the_bound() {
    assert_eq!(sequential_count(7), 3);
    assert_eq!(sequential_count(8), 4);
    assert_eq!(sequential_count(11), 4);
    assert_eq!(sequential_count(12), 5);
}

#[test]
fn worker_keeps_matches_in_the_order_met() {
    let chunk = [10usize, 7, 4, 3, 3, 2, 9, 13];
    assert_eq!(collect_matches(&chunk), vec![7, 3, 3, 2, 13]);
}

#[test]
fn worker_on_an_empty_chunk_finds_nothing() {
    let chunk: [usize; 0] = [];
    assert_eq!(collect_matches(&chunk), Vec::<usize>::new());
}

#[test]
fn worker_on_a_chunk_without_matches_finds_nothing() {
    let chunk = [0usize, 1, 4, 6, 8, 9];
    assert_eq!(collect_matches(&chunk), Vec::<usize>::new());
}
