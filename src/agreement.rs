use vstd::prelude::*;
use crate::theory::{first_primes, lemma_prime_prefixes_agree, prime, prime_prefix, primes_below};

verus! {

/// The two ways of producing primes agree: the primes below the `(n + 1)`-th
/// prime, as `sieve` lists them, are exactly the first `n` primes, as
/// `get_primes` lists them.
pub proof fn lemma_sieve_agrees_with_get_primes(
    n: nat,
    first: Seq<usize>,
    next: Seq<usize>,
    sieved: Seq<usize>,
)
    requires
        first_primes(first, n),
        first_primes(next, n + 1),
        primes_below(sieved, next[n as int] as int),
    ensures
        sieved == first,
{
    let bound = next[n as int] as int;
    assert(prime_prefix(sieved)) by {
        assert forall|p: int| #![trigger prime(p)]
            sieved.len() > 0 && prime(p) && p < sieved.last() implies sieved.contains(p as usize) by {
            assert(sieved[sieved.len() - 1] < bound);
        }
    }
    let m = sieved.len() as int;
    if m > n {
        lemma_prime_prefixes_agree(sieved, next, n as int);
        assert(sieved[n as int] < bound);
    } else if m < n {
        assert(prime(next[m] as int));
        assert(next[m] < next[n as int]);
        let k = choose|k: int| 0 <= k < sieved.len() && sieved[k] == next[m];
        lemma_prime_prefixes_agree(sieved, next, k);
        assert(next[k] < next[m]);
    }
    assert forall|i: int| 0 <= i < n implies sieved[i] == first[i] by {
        lemma_prime_prefixes_agree(sieved, next, i);
        lemma_prime_prefixes_agree(first, next, i);
    }
    assert(sieved =~= first);
}

} // verus!
