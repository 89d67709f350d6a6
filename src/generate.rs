use vstd::prelude::*;
use crate::theory::{
    first_primes, lemma_prime_not_multiple_of_2_or_3, lemma_prime_prefixes_agree,
    lemma_primes_below_31, prime, prime_prefix, strictly_increasing,
};
use crate::trial::is_prime;

verus! {

/// The first `n` primes, in ascending order.
///
/// Starts from the first ten primes (or as many of them as `n` asks for), then
/// tries each odd number from 31 on with `is_prime`, against the primes found
/// so far. Returns `None`, and no partial result, exactly when fewer than `n`
/// primes fit in a `usize`.
pub fn get_primes(n: usize) -> (r: Option<Vec<usize>>)
    ensures
        match r {
            Some(v) => first_primes(v@, n as nat),
            None => !exists|s: Seq<usize>| first_primes(s, n as nat),
        },
{
    let seed: [usize; 10] = [2, 3, 5, 7, 11, 13, 17, 19, 23, 29];
    assert(seed@ =~= seq![2usize, 3, 5, 7, 11, 13, 17, 19, 23, 29]);
    proof {
        lemma_primes_below_31(seed@);
    }
    let mut primes: Vec<usize> = Vec::new();
    let mut k: usize = 0;
    while k < 10 && primes.len() < n
        invariant
            k <= 10,
            k <= n,
            primes@ =~= seed@.subrange(0, k as int),
            seed@ == seq![2usize, 3, 5, 7, 11, 13, 17, 19, 23, 29],
        decreases 10 - k,
    {
        primes.push(seed[k]);
        k = k + 1;
    }
    proof {
        let s = seed@;
        assert forall|p: int| #![trigger prime(p)]
            primes@.len() > 0 && prime(p) && p < primes@.last() implies primes@.contains(p as usize) by {
            let j = choose|j: int| 0 <= j < s.len() && s[j] == p as usize;
            assert(j < k);
            assert(primes@[j] == p as usize);
        }
        assert forall|i: int| 0 <= i < primes@.len() implies prime(#[trigger] primes@[i] as int) by {
            assert(primes@[i] == s[i]);
        }
    }
    if primes.len() == n {
        return Some(primes);
    }
    assert(primes@ == seed@);
    let mut candidate: usize = 31;
    while primes.len() < n
        invariant
            candidate >= 31,
            candidate % 2 == 1,
            prime_prefix(primes@),
            forall|i: int| 0 <= i < primes@.len() ==> #[trigger] primes@[i] < candidate,
            forall|p: int| #![trigger prime(p)] prime(p) && p < candidate ==> primes@.contains(p as usize),
            primes@.len() <= n,
        decreases usize::MAX - candidate,
    {
        let found = is_prime(candidate, &primes);
        if found {
            let ghost before = primes@;
            primes.push(candidate);
            proof {
                assert forall|p: int| #![trigger prime(p)] prime(p) && p <= candidate implies primes@.contains(p as usize) by {
                    if p < candidate {
                        let j = choose|j: int| 0 <= j < before.len() && before[j] == p as usize;
                        assert(primes@[j] == p as usize);
                    } else {
                        assert(primes@[before.len() as int] == p as usize);
                    }
                }
            }
        }
        proof {
            assert(!prime(candidate + 1)) by {
                if prime(candidate + 1) {
                    lemma_prime_not_multiple_of_2_or_3(candidate + 1);
                }
            }
            assert forall|p: int| #![trigger prime(p)] prime(p) && p <= candidate + 1 implies primes@.contains(p as usize) by {
                if p < candidate {
                } else if p == candidate {
                    assert(found);
                }
            }
        }
        if candidate > usize::MAX - 2 {
            if primes.len() < n {
                proof {
                    let v = primes@;
                    if exists|s: Seq<usize>| first_primes(s, n as nat) {
                        let s = choose|s: Seq<usize>| first_primes(s, n as nat);
                        let m = v.len() as int;
                        assert forall|i: int| 0 <= i < m implies s[i] == v[i] by {
                            lemma_prime_prefixes_agree(s, v, i);
                        }
                        assert(prime(s[m] as int));
                        let j = choose|j: int| 0 <= j < v.len() && v[j] == s[m];
                        assert(s[j] < s[m]);
                    }
                }
                return None;
            }
            return Some(primes);
        }
        candidate = candidate + 2;
    }
    Some(primes)
}

} // verus!
