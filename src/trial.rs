use vstd::prelude::*;
use crate::theory::{lemma_prime_by_small_primes, lemma_prime_not_multiple_of_2_or_3, prime, prime_prefix};

verus! {

/// Tells whether `x` is prime, by trial division.
///
/// `primes` is a set of known primes given in ascending order, possibly empty,
/// that holds every prime up to its largest member (the first few primes). The
/// members whose square is at most `x` are tried first; the 6k - 1, 6k + 1 wheel then
/// goes on from where the known primes end, up to the square root of `x`.
/// The answer does not depend on which such set is given.
pub fn is_prime(x: usize, primes: &Vec<usize>) -> (r: bool)
    requires
        prime_prefix(primes@),
    ensures
        r == prime(x as int),
        x <= 1 ==> !r,
{
    if x <= 3 {
        assert(x == 3 ==> prime(3)) by {
            assert forall|d: int| 2 <= d < 3 implies #[trigger] (3int % d) != 0 by {
                assert(d == 2);
            }
        }
        return x > 1;
    }
    if x % 2 == 0 || x % 3 == 0 {
        return false;
    }
    let mut idx: usize = 0;
    while idx < primes.len()
        invariant
            x > 3,
            x % 2 != 0,
            x % 3 != 0,
            prime_prefix(primes@),
            idx <= primes.len(),
            forall|j: int| 0 <= j < idx ==> #[trigger] (x as int % primes@[j] as int) != 0,
        decreases primes.len() - idx,
    {
        let p = primes[idx];
        assert(prime(p as int));
        if p > x / p {
            proof {
                assert forall|q: int| #![trigger prime(q)] prime(q) && q * q <= x implies x as int % q != 0 by {
                    assert(q < p) by (nonlinear_arith)
                        requires
                            q * q <= x,
                            p > x / p,
                            p >= 2,
                            q >= 2,
                    ;
                    assert(q <= primes@.last());
                    if q < primes@.last() {
                        let k = choose|k: int| 0 <= k < primes@.len() && primes@[k] == q as usize;
                        assert(primes@[k] < primes@[idx as int]);
                        assert(k < idx);
                    }
                    assert(primes@[primes@.len() - 1] >= p);
                }
                lemma_prime_by_small_primes(x as int);
            }
            return true;
        }
        if x % p == 0 {
            assert(p < x) by (nonlinear_arith)
                requires
                    p <= x / p,
                    p >= 2,
            ;
            assert(x as int % p as int == 0);
            return false;
        }
        idx = idx + 1;
    }
    // The wheel resumes at the largest `6k - 1` that is at most `max(last, 5)`.
    let mut i: usize = if primes.len() == 0 || primes[primes.len() - 1] < 5 {
        5
    } else {
        primes[primes.len() - 1]
    };
    i = i - (i % 6 + 1) % 6;
    proof {
        assert forall|q: int| #![trigger prime(q)] prime(q) && q < i implies x as int % q != 0 by {
            lemma_prime_not_multiple_of_2_or_3(q);
            if q >= 5 {
                assert(primes@.len() > 0 && q < primes@.last());
                let k = choose|k: int| 0 <= k < primes@.len() && primes@[k] == q as usize;
                assert(x as int % primes@[k] as int != 0);
            } else if q == 4 {
                assert(4int % 2 == 0);
            }
        }
    }
    while i <= x / i
        invariant
            x > 3,
            x % 2 != 0,
            x % 3 != 0,
            i >= 5,
            i % 6 == 5,
            forall|q: int| #![trigger prime(q)] prime(q) && q < i ==> x as int % q != 0,
        decreases x - i,
    {
        assert(i + 6 <= x) by (nonlinear_arith)
            requires
                i >= 5,
                i <= x / i,
                x > 3,
        ;
        if x % i == 0 || x % (i + 2) == 0 {
            proof {
                assert(i * i <= x && i + 2 < x) by (nonlinear_arith)
                    requires
                        i >= 5,
                        i <= x / i,
                ;
                if x % i != 0 {
                    assert(x as int % (i + 2) as int == 0);
                    assert(2 <= i + 2 < x);
                } else {
                    assert(2 <= i < x);
                }
            }
            return false;
        }
        proof {
            assert forall|q: int| #![trigger prime(q)] prime(q) && q < i + 6 implies x as int % q != 0 by {
                lemma_prime_not_multiple_of_2_or_3(q);
                if q >= i {
                    assert(q == i || q == i + 2);
                }
            }
        }
        i = i + 6;
    }
    proof {
        assert forall|q: int| #![trigger prime(q)] prime(q) && q * q <= x implies x as int % q != 0 by {
            assert(q < i) by (nonlinear_arith)
                requires
                    q * q <= x,
                    i > x / i,
                    i >= 5,
                    q >= 2,
            ;
        }
        lemma_prime_by_small_primes(x as int);
    }
    true
}

} // verus!
