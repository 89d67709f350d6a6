use vstd::prelude::*;

verus! {

/// `x` is prime: at least 2, and no integer in `[2, x)` divides it.
pub open spec fn prime(x: int) -> bool {
    &&& x >= 2
    &&& forall|d: int| 2 <= d < x ==> #[trigger] (x % d) != 0
}

/// Every element is strictly smaller than the next.
pub open spec fn strictly_increasing(s: Seq<usize>) -> bool {
    forall|i: int, j: int| 0 <= i < j < s.len() ==> s[i] < s[j]
}

/// An ascending run of primes that leaves out no prime below its last element:
/// the first `s.len()` primes.
pub open spec fn prime_prefix(s: Seq<usize>) -> bool {
    &&& strictly_increasing(s)
    &&& forall|i: int| 0 <= i < s.len() ==> prime(#[trigger] s[i] as int)
    &&& forall|p: int|
        #![trigger prime(p)]
        s.len() > 0 && prime(p) && p < s.last() ==> s.contains(p as usize)
}

/// `s` holds exactly the first `n` primes, in ascending order.
pub open spec fn first_primes(s: Seq<usize>, n: nat) -> bool {
    s.len() == n && prime_prefix(s)
}

/// `s` holds exactly the primes below `bound`, in ascending order.
pub open spec fn primes_below(s: Seq<usize>, bound: int) -> bool {
    &&& strictly_increasing(s)
    &&& forall|i: int| 0 <= i < s.len() ==> #[trigger] s[i] < bound && prime(s[i] as int)
    &&& forall|p: int|
        #![trigger prime(p)]
        2 <= p < bound && prime(p) ==> s.contains(p as usize)
}

/// Divisibility is transitive.
pub proof fn lemma_divides_trans(a: int, b: int, c: int)
    requires
        b > 0,
        c > 0,
        a % b == 0,
        b % c == 0,
    ensures
        a % c == 0,
{
    let k = a / b;
    let m = b / c;
    assert(a == b * k) by (nonlinear_arith)
        requires
            b > 0,
            a % b == 0,
            k == a / b,
    ;
    assert(b == c * m) by (nonlinear_arith)
        requires
            c > 0,
            b % c == 0,
            m == b / c,
    ;
    assert(a % c == 0) by (nonlinear_arith)
        requires
            a == b * k,
            b == c * m,
            c > 0,
    {
        assert(a == c * (m * k));
        vstd::arithmetic::div_mod::lemma_mod_multiples_basic(m * k, c);
    }
}

/// Every integer of at least 2 has a prime divisor no larger than itself.
pub proof fn lemma_prime_divisor(x: int) -> (p: int)
    requires
        x >= 2,
    ensures
        prime(p),
        p <= x,
        x % p == 0,
    decreases x,
{
    if prime(x) {
        assert(x % x == 0) by (nonlinear_arith)
            requires
                x >= 2,
        ;
        x
    } else {
        let d = choose|d: int| 2 <= d < x && #[trigger] (x % d) == 0;
        let p = lemma_prime_divisor(d);
        lemma_divides_trans(x, d, p);
        p
    }
}

/// An integer of at least 2 that no prime `p` with `p * p <= x` divides is prime.
pub proof fn lemma_prime_by_small_primes(x: int)
    requires
        x >= 2,
        forall|p: int| #![trigger prime(p)] prime(p) && p * p <= x ==> x % p != 0,
    ensures
        prime(x),
{
    if !prime(x) {
        let d = choose|d: int| 2 <= d < x && #[trigger] (x % d) == 0;
        let e = x / d;
        assert(x == d * e && e >= 2 && e < x) by (nonlinear_arith)
            requires
                2 <= d < x,
                x % d == 0,
                e == x / d,
        ;
        let f = if d * d <= x { d } else { e };
        assert(f * f <= x && x % f == 0 && 2 <= f) by (nonlinear_arith)
            requires
                x == d * e,
                2 <= d,
                2 <= e,
                (f == d && d * d <= x) || (f == e && d * d > x),
        {
            if f == e {
                assert(e * e <= x);
            }
        }
        let p = lemma_prime_divisor(f);
        lemma_divides_trans(x, f, p);
        assert(p * p <= x) by (nonlinear_arith)
            requires
                2 <= p <= f,
                f * f <= x,
        ;
    }
}

/// An even prime is 2; a prime divisible by 3 is 3.
pub proof fn lemma_prime_not_multiple_of_2_or_3(p: int)
    requires
        prime(p),
    ensures
        p % 2 == 0 ==> p == 2,
        p % 3 == 0 ==> p == 3,
{
    if p % 2 == 0 && p != 2 {
        assert(p % 2 != 0);
    }
    if p % 3 == 0 && p != 3 {
        assert(p % 3 != 0);
    }
}

/// No integer in `[lo, hi)` divides `x`, checked one candidate at a time.
pub open spec fn no_divisor_in(x: int, lo: int, hi: int) -> bool
    decreases hi - lo,
{
    if lo >= hi {
        true
    } else {
        x % lo != 0 && no_divisor_in(x, lo + 1, hi)
    }
}

/// An integer of at least 2 with no divisor in `[2, k)`, where `k * k > x`, is prime.
pub proof fn lemma_prime_by_bound(x: int, k: int)
    requires
        x >= 2,
        k >= 2,
        k * k > x,
        no_divisor_in(x, 2, k),
    ensures
        prime(x),
{
    lemma_no_divisor_in(x, 2, k);
    assert forall|q: int| #![trigger prime(q)] prime(q) && q * q <= x implies x % q != 0 by {
        assert(q < k) by (nonlinear_arith)
            requires
                q * q <= x,
                k * k > x,
                q >= 2,
                k >= 2,
        ;
    }
    lemma_prime_by_small_primes(x);
}

/// What `no_divisor_in` checks one step at a time holds of the whole range.
pub proof fn lemma_no_divisor_in(x: int, lo: int, hi: int)
    requires
        no_divisor_in(x, lo, hi),
    ensures
        forall|d: int| lo <= d < hi ==> #[trigger] (x % d) != 0,
    decreases hi - lo,
{
    if lo < hi {
        lemma_no_divisor_in(x, lo + 1, hi);
    }
}

/// The primes below 31 are exactly 2, 3, 5, 7, 11, 13, 17, 19, 23 and 29.
pub proof fn lemma_primes_below_31(s: Seq<usize>)
    requires
        s == seq![2usize, 3, 5, 7, 11, 13, 17, 19, 23, 29],
    ensures
        strictly_increasing(s),
        forall|i: int| 0 <= i < s.len() ==> prime(#[trigger] s[i] as int),
        forall|p: int| #![trigger prime(p)] 2 <= p < 31 && prime(p) ==> s.contains(p as usize),
{
    reveal_with_fuel(no_divisor_in, 6);
    lemma_prime_by_bound(2, 2);
    lemma_prime_by_bound(3, 2);
    lemma_prime_by_bound(5, 3);
    lemma_prime_by_bound(7, 3);
    lemma_prime_by_bound(11, 4);
    lemma_prime_by_bound(13, 4);
    lemma_prime_by_bound(17, 5);
    lemma_prime_by_bound(19, 5);
    lemma_prime_by_bound(23, 5);
    lemma_prime_by_bound(29, 6);
    assert forall|p: int| #![trigger prime(p)] 2 <= p < 31 && prime(p) implies s.contains(p as usize) by {
        lemma_prime_not_multiple_of_2_or_3(p);
        if p == 25 {
            assert(25int % 5 == 0);
        }
        let k: int = if p == 2 { 0 } else if p == 3 { 1 } else if p == 5 { 2 } else if p == 7 { 3 }
            else if p == 11 { 4 } else if p == 13 { 5 } else if p == 17 { 6 } else if p == 19 { 7 }
            else if p == 23 { 8 } else { 9 };
        assert(s[k] == p as usize);
    }
}

/// Two runs of first primes agree wherever both are defined.
pub proof fn lemma_prime_prefixes_agree(a: Seq<usize>, b: Seq<usize>, i: int)
    requires
        prime_prefix(a),
        prime_prefix(b),
        0 <= i < a.len(),
        i < b.len(),
    ensures
        a[i] == b[i],
    decreases i,
{
    assert forall|j: int| 0 <= j < i implies a[j] == b[j] by {
        lemma_prime_prefixes_agree(a, b, j);
    }
    if a[i] < b[i] {
        assert(prime(a[i] as int));
        assert(a[i] < b.last()) by {
            if i < b.len() - 1 {
                assert(b[i] < b[b.len() - 1]);
            }
        }
        let k = choose|k: int| 0 <= k < b.len() && b[k] == a[i];
        assert(k < i);
        assert(a[k] < a[i]);
    } else if b[i] < a[i] {
        assert(prime(b[i] as int));
        assert(b[i] < a.last()) by {
            if i < a.len() - 1 {
                assert(a[i] < a[a.len() - 1]);
            }
        }
        let k = choose|k: int| 0 <= k < a.len() && a[k] == b[i];
        assert(k < i);
        assert(b[k] < b[i]);
    }
}

} // verus!
