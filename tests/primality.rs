use primes::is_prime;

#[test]
fn zero_is_not_prime() {
    let primes: Vec<usize> = Vec::new();
    assert_eq!(is_prime(0usize, &primes), false);
}

#[test]
fn one_is_not_prime() {
    let primes: Vec<usize> = Vec::new();
    assert_eq!(is_prime(1usize, &primes), false);
}

#[test]
fn two_is_prime() {
    let primes: Vec<usize> = Vec::new();
    assert_eq!(is_prime(2usize, &primes), true);
}

#[test]
fn three_is_prime() {
    let primes: Vec<usize> = Vec::new();
    assert_eq!(is_prime(3usize, &primes), true);
}

#[test]
fn four_is_not_prime() {
    let primes: Vec<usize> = Vec::new();
    assert_eq!(is_prime(4usize, &primes), false);
}

#[test]
fn five_is_prime() {
    let primes: Vec<usize> = Vec::new();
    assert_eq!(is_prime(5usize, &primes), true);
}

#[test]
fn thirty_one_is_prime() {
    let primes: Vec<usize> = Vec::new();
    assert_eq!(is_prime(31usize, &primes), true);
}

#[test]
fn thirty_three_is_not_prime() {
    let primes: Vec<usize> = Vec::new();
    assert_eq!(is_prime(33usize, &primes), false);
}

#[test]
fn small_values_against_divisor_count() {
    let empty: Vec<usize> = Vec::new();
    for x in 0usize..2000 {
        let by_divisors = x >= 2 && (2..x).all(|d| x % d != 0);
        assert_eq!(is_prime(x, &empty), by_divisors, "x = {}", x);
    }
}

#[test]
fn composites_are_rejected() {
    let empty: Vec<usize> = Vec::new();
    for x in [6usize, 8, 9, 25, 35, 49, 121, 143, 169, 289, 323, 961] {
        assert!(!is_prime(x, &empty), "x = {}", x);
    }
}

#[test]
fn answer_does_not_depend_on_known_primes() {
    let sets: Vec<Vec<usize>> = vec![
        vec![],
        vec![2],
        vec![2, 3],
        vec![2, 3, 5],
        vec![2, 3, 5, 7],
        vec![2, 3, 5, 7, 11, 13],
        vec![2, 3, 5, 7, 11, 13, 17, 19, 23, 29, 31, 37],
    ];
    for x in 0usize..3000 {
        let expected = is_prime(x, &sets[0]);
        for known in &sets {
            assert_eq!(is_prime(x, known), expected, "x = {}, known = {:?}", x, known);
        }
    }
}

#[test]
fn wheel_after_known_prime_of_form_6k_plus_1() {
    let known: Vec<usize> = vec![2, 3, 5, 7];
    assert_eq!(is_prime(121, &known), false);
    assert_eq!(is_prime(143, &known), false);
    assert_eq!(is_prime(127, &known), true);
}

#[test]
fn known_primes_may_include_the_candidate() {
    let known: Vec<usize> = vec![2, 3, 5, 7, 11, 13];
    assert_eq!(is_prime(7, &known), true);
    assert_eq!(is_prime(13, &known), true);
    assert_eq!(is_prime(9, &known), false);
}

#[test]
fn large_values() {
    let empty: Vec<usize> = Vec::new();
    assert_eq!(is_prime(2_147_483_647, &empty), true);
    assert_eq!(is_prime(4_294_967_297, &empty), false);
    assert_eq!(is_prime(1_000_000_007, &empty), true);
    assert_eq!(is_prime(1_000_000_007 * 998_244_353, &empty), false);
    assert_eq!(is_prime(usize::MAX, &empty), false);
}
