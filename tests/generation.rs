use primes::{get_primes, is_prime, sieve};

#[test]
fn get_primes_gives_primes() {
    let primes = get_primes(20).unwrap();
    let empty: Vec<usize> = Vec::new();
    for i in primes.iter() {
        assert_eq!(is_prime(*i, &empty), true);
    }
}

#[test]
fn sieve_to_thirty() {
    let sprimes = sieve(30usize);
    let iprimes = get_primes(10usize).unwrap();
    assert_eq!(sprimes, iprimes);
}

#[test]
fn get_primes_of_zero_is_empty() {
    assert_eq!(get_primes(0), Some(vec![]));
}

#[test]
fn get_primes_below_ten_is_truncated() {
    assert_eq!(get_primes(1), Some(vec![2]));
    assert_eq!(get_primes(5), Some(vec![2, 3, 5, 7, 11]));
    assert_eq!(get_primes(9), Some(vec![2, 3, 5, 7, 11, 13, 17, 19, 23]));
}

#[test]
fn get_primes_past_the_seed() {
    assert_eq!(get_primes(10), Some(vec![2, 3, 5, 7, 11, 13, 17, 19, 23, 29]));
    assert_eq!(get_primes(11), Some(vec![2, 3, 5, 7, 11, 13, 17, 19, 23, 29, 31]));
    assert_eq!(get_primes(12), Some(vec![2, 3, 5, 7, 11, 13, 17, 19, 23, 29, 31, 37]));
    assert_eq!(*get_primes(20).unwrap().last().unwrap(), 71);
    assert_eq!(*get_primes(100).unwrap().last().unwrap(), 541);
    assert_eq!(*get_primes(1000).unwrap().last().unwrap(), 7919);
}

#[test]
fn get_primes_is_ascending_complete_and_prime() {
    let empty: Vec<usize> = Vec::new();
    let primes = get_primes(300).unwrap();
    assert_eq!(primes.len(), 300);
    for w in primes.windows(2) {
        assert!(w[0] < w[1]);
    }
    let last = *primes.last().unwrap();
    for x in 0..=last {
        assert_eq!(primes.contains(&x), is_prime(x, &empty), "x = {}", x);
    }
}

#[test]
fn sieve_small_bounds() {
    assert_eq!(sieve(0), Vec::<usize>::new());
    assert_eq!(sieve(1), Vec::<usize>::new());
    assert_eq!(sieve(2), Vec::<usize>::new());
    assert_eq!(sieve(3), vec![2]);
    assert_eq!(sieve(4), vec![2, 3]);
    assert_eq!(sieve(5), vec![2, 3]);
    assert_eq!(sieve(6), vec![2, 3, 5]);
}

#[test]
fn sieve_bound_is_exclusive() {
    assert_eq!(sieve(29), vec![2, 3, 5, 7, 11, 13, 17, 19, 23]);
    assert_eq!(sieve(25), vec![2, 3, 5, 7, 11, 13, 17, 19, 23]);
    assert_eq!(sieve(26), vec![2, 3, 5, 7, 11, 13, 17, 19, 23]);
    assert_eq!(sieve(50), vec![2, 3, 5, 7, 11, 13, 17, 19, 23, 29, 31, 37, 41, 43, 47]);
    assert_eq!(sieve(100).len(), 25);
}

#[test]
fn sieve_matches_is_prime() {
    let empty: Vec<usize> = Vec::new();
    let max: usize = 5000;
    let expected: Vec<usize> = (0..max).filter(|&x| is_prime(x, &empty)).collect();
    assert_eq!(sieve(max), expected);
}

#[test]
fn sieve_to_next_prime_equals_get_primes() {
    for n in 0usize..120 {
        let next = get_primes(n + 1).unwrap();
        assert_eq!(sieve(next[n]), get_primes(n).unwrap(), "n = {}", n);
    }
}
