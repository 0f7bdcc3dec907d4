//! The arithmetic of primality that the sieve contracts are stated over:
//! divisibility, the primality predicate, the ordered sequence of primes
//! below a bound, and the trial-division facts that justify marking only
//! multiples of small primes.

use vstd::prelude::*;
use vstd::arithmetic::div_mod::{lemma_fundamental_div_mod, lemma_mod_multiples_basic};

verus! {

/// `d` evenly divides `n`.
pub open spec fn divides(d: int, n: int) -> bool {
    n % d == 0
}

/// A prime: at least 2, with no divisor strictly between 1 and itself.
pub open spec fn is_prime(n: int) -> bool {
    n >= 2 && forall|d: int| 2 <= d < n ==> !divides(d, n)
}

/// All primes strictly below `n`, in increasing order.
pub open spec fn primes_below(n: int) -> Seq<usize>
    decreases n,
{
    if n <= 0 {
        Seq::empty()
    } else if is_prime(n - 1) {
        primes_below(n - 1).push((n - 1) as usize)
    } else {
        primes_below(n - 1)
    }
}

/// `v` has a divisor `d` with `2 <= d < bound` whose square does not exceed `v`.
/// This is exactly the set of values a sieve has crossed out after treating
/// every candidate below `bound`.
pub open spec fn has_small_factor(v: int, bound: int) -> bool {
    exists|d: int| 2 <= d < bound && #[trigger] divides(d, v) && d * d <= v
}

/// `v` is divisible by one of the first `n` entries of `base` whose square
/// does not exceed `v`.
pub open spec fn has_factor_among(v: int, base: Seq<usize>, n: int) -> bool {
    exists|i: int|
        0 <= i < n && i < base.len() && (#[trigger] base[i] as int) * (base[i] as int) <= v
            && divides(base[i] as int, v)
}

/// `v` is divisible by some entry of `base` whose square does not exceed `v`.
pub open spec fn has_factor_in(v: int, base: Seq<usize>) -> bool {
    has_factor_among(v, base, base.len() as int)
}

/// There are no primes below 2.
pub proof fn lemma_primes_below_empty(n: int)
    requires
        n <= 2,
    ensures
        primes_below(n) == Seq::<usize>::empty(),
    decreases (if n >= 0 { n } else { 0 }),
{
    if n >= 1 {
        lemma_primes_below_empty(n - 1);
        assert(!is_prime(n - 1));
    }
}

/// Divisibility is transitive: a divisor of `m` divides every multiple of `m`.
pub proof fn lemma_divides_transitive(d: int, m: int, n: int)
    requires
        1 <= d,
        1 <= m,
        0 <= n,
        divides(d, m),
        divides(m, n),
    ensures
        divides(d, n),
{
    let a = m / d;
    lemma_fundamental_div_mod(m, d);
    let b = n / m;
    lemma_fundamental_div_mod(n, m);
    assert(n == (a * b) * d) by (nonlinear_arith)
        requires
            m == d * a,
            n == m * b,
    ;
    lemma_mod_multiples_basic(a * b, d);
}

/// Every composite number has a prime factor whose square does not exceed it.
pub proof fn lemma_composite_has_small_prime_factor(v: int)
    requires
        v >= 2,
        !is_prime(v),
    ensures
        exists|q: int| is_prime(q) && #[trigger] divides(q, v) && q * q <= v,
    decreases v,
{
    let d = choose|d: int| 2 <= d < v && #[trigger] divides(d, v);
    lemma_fundamental_div_mod(v, d);
    let m = v / d;
    assert(2 <= m && m < v) by (nonlinear_arith)
        requires
            v == d * m,
            2 <= d < v,
    ;
    lemma_mod_multiples_basic(d, m);
    assert(divides(m, v)) by {
        assert(v == d * m);
        assert((d * m) % m == 0);
    }
    let a = if d <= m {
        d
    } else {
        m
    };
    assert(divides(a, v));
    assert(a * a <= v) by (nonlinear_arith)
        requires
            v == d * m,
            2 <= d,
            2 <= m,
            a == if d <= m {
                d
            } else {
                m
            },
    ;
    if is_prime(a) {
        assert(is_prime(a) && divides(a, v) && a * a <= v);
    } else {
        lemma_composite_has_small_prime_factor(a);
        let q = choose|q: int| is_prime(q) && #[trigger] divides(q, a) && q * q <= a;
        lemma_divides_transitive(q, a, v);
        assert(q * q <= v) by (nonlinear_arith)
            requires
                q * q <= a,
                a * a <= v,
                2 <= a,
        ;
        assert(is_prime(q) && divides(q, v) && q * q <= v);
    }
}

/// A divisor of `v` that is at least 2 and whose square does not exceed `v`
/// is strictly smaller than `v`, so it witnesses that `v` is composite.
pub proof fn lemma_small_divisor_composite(v: int, d: int)
    requires
        2 <= d,
        d * d <= v,
        divides(d, v),
    ensures
        !is_prime(v),
{
    assert(d < v) by (nonlinear_arith)
        requires
            2 <= d,
            d * d <= v,
    ;
}

/// Once every candidate below `bound` has been treated and `bound * bound`
/// exceeds `v`, being crossed out is the same as being composite.
pub proof fn lemma_small_factor_iff_composite(v: int, bound: int)
    requires
        2 <= v,
        2 <= bound,
        v < bound * bound,
    ensures
        has_small_factor(v, bound) <==> !is_prime(v),
{
    if has_small_factor(v, bound) {
        let d = choose|d: int| 2 <= d < bound && #[trigger] divides(d, v) && d * d <= v;
        lemma_small_divisor_composite(v, d);
    }
    if !is_prime(v) {
        lemma_composite_has_small_prime_factor(v);
        let q = choose|q: int| is_prime(q) && #[trigger] divides(q, v) && q * q <= v;
        assert(q < bound) by (nonlinear_arith)
            requires
                q * q <= v,
                v < bound * bound,
                q >= 2,
                bound >= 2,
        ;
        assert(2 <= q < bound && divides(q, v) && q * q <= v);
    }
}

/// Raising the sieve bound from `p` to `p + 1` adds exactly the multiples of
/// `p` that are at least `p * p`.
pub proof fn lemma_small_factor_step(v: int, p: int)
    requires
        2 <= p,
    ensures
        has_small_factor(v, p + 1) <==> (has_small_factor(v, p) || (divides(p, v) && p * p
            <= v)),
{
    if has_small_factor(v, p + 1) {
        let d = choose|d: int| 2 <= d < p + 1 && #[trigger] divides(d, v) && d * d <= v;
        if d < p {
            assert(has_small_factor(v, p));
        }
    }
    if has_small_factor(v, p) {
        let d = choose|d: int| 2 <= d < p && #[trigger] divides(d, v) && d * d <= v;
        assert(2 <= d < p + 1 && divides(d, v) && d * d <= v);
    }
    if divides(p, v) && p * p <= v {
        assert(2 <= p < p + 1 && divides(p, v) && p * p <= v);
    }
}

/// When the candidate `p` is itself composite, its multiples are already
/// crossed out by a smaller divisor, so skipping `p` loses nothing.
pub proof fn lemma_redundant_composite(p: int, v: int)
    requires
        2 <= p,
        0 <= v,
        has_small_factor(p, p),
        divides(p, v),
        p * p <= v,
    ensures
        has_small_factor(v, p),
{
    let d = choose|d: int| 2 <= d < p && #[trigger] divides(d, p) && d * d <= p;
    lemma_divides_transitive(d, p, v);
    assert(d * d <= v) by (nonlinear_arith)
        requires
            2 <= d < p,
            p * p <= v,
    ;
    assert(2 <= d < p && divides(d, v) && d * d <= v);
}

/// The sequence of primes below `n` is sorted, holds only primes below `n`,
/// and holds every prime below `n`.
pub proof fn lemma_primes_below_props(n: int)
    requires
        n <= usize::MAX as int + 1,
    ensures
        forall|i: int|
            0 <= i < primes_below(n).len() ==> is_prime(#[trigger] primes_below(n)[i] as int)
                && (primes_below(n)[i] as int) < n,
        forall|i: int, j: int|
            0 <= i < j < primes_below(n).len() ==> primes_below(n)[i] < primes_below(n)[j],
        forall|q: int| 2 <= q < n && is_prime(q) ==> primes_below(n).contains(q as usize),
    decreases (if n >= 0 { n } else { 0 }),
{
    if n > 0 {
        lemma_primes_below_props(n - 1);
        let prev = primes_below(n - 1);
        let cur = primes_below(n);
        assert forall|q: int| 2 <= q < n && is_prime(q) implies cur.contains(q as usize) by {
            if q < n - 1 {
                let i = choose|i: int| 0 <= i < prev.len() && prev[i] == q as usize;
                assert(cur[i] == q as usize);
            } else {
                assert(cur[cur.len() - 1] == q as usize);
            }
        }
    }
}

/// The first `idx + 1` base entries cross `v` out exactly when the first
/// `idx` do, or entry `idx` itself is a witnessing factor.
pub proof fn lemma_factor_among_step(v: int, base: Seq<usize>, idx: int)
    requires
        0 <= idx < base.len(),
    ensures
        has_factor_among(v, base, idx + 1) <==> (has_factor_among(v, base, idx) || ((base[idx]
            as int) * (base[idx] as int) <= v && divides(base[idx] as int, v))),
{
    if has_factor_among(v, base, idx + 1) {
        let i = choose|i: int|
            0 <= i < idx + 1 && i < base.len() && (#[trigger] base[i] as int) * (base[i] as int)
                <= v && divides(base[i] as int, v);
        if i < idx {
            assert(has_factor_among(v, base, idx));
        }
    }
}

/// With the base primes computed up to the integer square root of `limit`,
/// a value in `[2, limit]` has a base-prime factor below its own square
/// root exactly when it is composite.
pub proof fn lemma_base_factor_iff_composite(v: int, base: Seq<usize>, bl: int, limit: int)
    requires
        base == primes_below(bl + 1),
        0 <= bl <= usize::MAX as int,
        bl * bl <= limit,
        limit < (bl + 1) * (bl + 1),
        2 <= v <= limit,
    ensures
        has_factor_in(v, base) <==> !is_prime(v),
{
    lemma_primes_below_props(bl + 1);
    if has_factor_in(v, base) {
        let i = choose|i: int|
            0 <= i < base.len() && i < base.len() && (#[trigger] base[i] as int) * (base[i]
                as int) <= v && divides(base[i] as int, v);
        lemma_small_divisor_composite(v, base[i] as int);
    }
    if !is_prime(v) {
        lemma_composite_has_small_prime_factor(v);
        let q = choose|q: int| is_prime(q) && #[trigger] divides(q, v) && q * q <= v;
        assert(q <= bl) by (nonlinear_arith)
            requires
                q * q <= v,
                v <= limit,
                limit < (bl + 1) * (bl + 1),
                q >= 2,
                bl >= 0,
        ;
        assert(base.contains(q as usize));
        let i = choose|i: int| 0 <= i < base.len() && base[i] == q as usize;
        assert(0 <= i < base.len() && (base[i] as int) * (base[i] as int) <= v && divides(
            base[i] as int,
            v,
        ));
        assert(has_factor_among(v, base, base.len() as int));
    }
}

} // verus!
