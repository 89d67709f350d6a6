use vstd::prelude::*;
use crate::theory::{lemma_divides_trans, lemma_prime_by_small_primes, prime, primes_below};

verus! {

/// `k` is still a candidate once every `d` in `[2, i)` has been sieved: no such
/// `d` with `d * d <= k` divides it.
pub open spec fn survives(k: int, i: int) -> bool {
    &&& k >= 2
    &&& forall|d: int| 2 <= d < i && d * d <= k ==> #[trigger] (k % d) != 0
}

/// Once the sieve has passed the square root of `k`, a survivor is a prime.
proof fn lemma_survivor_is_prime(k: int, i: int)
    requires
        k >= 0,
        i >= 2,
        i * i > k,
    ensures
        survives(k, i) == prime(k),
{
    if survives(k, i) {
        assert forall|q: int| #![trigger prime(q)] prime(q) && q * q <= k implies k % q != 0 by {
            assert(q < i) by (nonlinear_arith)
                requires
                    q * q <= k,
                    i * i > k,
                    q >= 2,
                    i >= 2,
            ;
        }
        lemma_prime_by_small_primes(k);
    }
    if prime(k) {
        assert forall|d: int| 2 <= d < i && d * d <= k implies #[trigger] (k % d) != 0 by {
            assert(d < k) by (nonlinear_arith)
                requires
                    d >= 2,
                    d * d <= k,
            ;
        }
    }
}

/// Two multiples of `i` less than `i` apart are equal.
proof fn lemma_multiples_apart(i: int, j: int, k: int)
    requires
        i > 0,
        j % i == 0,
        k % i == 0,
        j <= k < j + i,
    ensures
        k == j,
{
    let a = j / i;
    let b = k / i;
    assert(j == i * a && k == i * b) by (nonlinear_arith)
        requires
            i > 0,
            j % i == 0,
            k % i == 0,
            a == j / i,
            b == k / i,
    ;
    assert(a <= b < a + 1) by (nonlinear_arith)
        requires
            i > 0,
            j == i * a,
            k == i * b,
            j <= k < j + i,
    ;
}

/// All primes below `max`, in ascending order, by the sieve of Eratosthenes.
///
/// Each `i` from 2 while `i * i < max` that is still marked strikes out its
/// multiples from `i * i` on; what is left marked in `[2, max)` is collected.
pub fn sieve(max: usize) -> (r: Vec<usize>)
    ensures
        primes_below(r@, max as int),
        max <= 2 ==> r@.len() == 0,
{
    let mut flags: Vec<bool> = Vec::new();
    let mut k: usize = 0;
    while k < max
        invariant
            k <= max,
            flags@.len() == k,
            forall|j: int| 0 <= j < k ==> #[trigger] flags@[j] == survives(j, 2),
        decreases max - k,
    {
        flags.push(k >= 2);
        k = k + 1;
    }
    let mut i: usize = 2;
    while max > 0 && i <= (max - 1) / i
        invariant
            i >= 2,
            flags@.len() == max,
            forall|j: int| 0 <= j < max ==> #[trigger] flags@[j] == survives(j, i as int),
        decreases max - i,
    {
        assert(i * i < max && i < max) by (nonlinear_arith)
            requires
                max > 0,
                i >= 2,
                i <= (max - 1) as int / i as int,
        ;
        let ghost ii = i as int;
        if flags[i] {
            let mut j: usize = i * i;
            assert(j % i == 0) by (nonlinear_arith)
                requires
                    j == i * i,
                    i >= 2,
            ;
            while j < max
                invariant
                    i >= 2,
                    ii == i,
                    i * i <= j,
                    j < max ==> j % i == 0,
                    flags@.len() == max,
                    forall|m: int| 0 <= m < max ==> #[trigger] flags@[m] == (survives(m, ii) && !(
                    ii * ii <= m < j && m % ii == 0)),
                decreases max - j,
            {
                let ghost jj = j as int;
                flags.set(j, false);
                if i >= max - j {
                    j = max;
                } else {
                    j = j + i;
                    assert(j % i == 0) by (nonlinear_arith)
                        requires
                            j == jj + i,
                            jj % ii == 0,
                            ii == i,
                            i >= 2,
                    ;
                }
                proof {
                    assert forall|m: int| 0 <= m < max implies #[trigger] flags@[m] == (survives(
                        m,
                        ii,
                    ) && !(ii * ii <= m < j && m % ii == 0)) by {
                        if jj <= m < j && m % ii == 0 {
                            lemma_multiples_apart(ii, jj, m);
                        }
                    }
                }
            }
        } else {
            proof {
                assert(!survives(ii, ii));
                let d = choose|d: int| 2 <= d < ii && d * d <= ii && #[trigger] (ii % d) == 0;
                assert forall|m: int| 0 <= m < max && ii * ii <= m && m % ii == 0 implies !survives(m, ii) by {
                    lemma_divides_trans(m, ii, d);
                    assert(d * d <= m) by (nonlinear_arith)
                        requires
                            d * d <= ii,
                            ii * ii <= m,
                            ii >= 2,
                    ;
                    assert(m % d == 0);
                }
            }
        }
        proof {
            assert forall|m: int| 0 <= m < max implies #[trigger] flags@[m] == survives(m, ii + 1) by {
                if survives(m, ii) && !(ii * ii <= m && m % ii == 0) {
                    assert forall|d: int| 2 <= d < ii + 1 && d * d <= m implies #[trigger] (m % d) != 0 by {
                        if d < ii {
                        } else {
                            assert(d == ii);
                        }
                    }
                }
                if survives(m, ii + 1) && ii * ii <= m {
                    assert(m % ii != 0);
                }
            }
        }
        i = i + 1;
    }
    let ghost bound = i as int;
    assert(bound * bound >= max) by (nonlinear_arith)
        requires
            bound >= 2,
            max == 0 || bound > (max - 1) as int / bound,
    ;
    let mut r: Vec<usize> = Vec::new();
    let mut k: usize = 0;
    while k < max
        invariant
            k <= max,
            bound >= 2,
            bound * bound >= max,
            flags@.len() == max,
            forall|j: int| 0 <= j < max ==> #[trigger] flags@[j] == survives(j, bound),
            primes_below(r@, k as int),
        decreases max - k,
    {
        proof {
            lemma_survivor_is_prime(k as int, bound);
        }
        if flags[k] {
            let ghost before = r@;
            r.push(k);
            proof {
                assert forall|p: int| #![trigger prime(p)] 2 <= p < k + 1 && prime(p) implies r@.contains(p as usize) by {
                    if p < k {
                        let j = choose|j: int| 0 <= j < before.len() && before[j] == p as usize;
                        assert(r@[j] == p as usize);
                    } else {
                        assert(r@[before.len() as int] == p as usize);
                    }
                }
            }
        }
        k = k + 1;
    }
    proof {
        if max <= 2 && r@.len() > 0 {
            assert(r@[0] < max && prime(r@[0] as int));
        }
    }
    r
}

} // verus!
