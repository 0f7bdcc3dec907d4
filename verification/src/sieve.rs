//! The sieve of Eratosthenes: a sequential reference sieve and a segmented
//! variant that splits the domain into per-worker segments, sieves each
//! segment independently against the shared base primes, and merges every
//! segment's verdicts into one shared primality table.

use vstd::prelude::*;
use vstd::arithmetic::div_mod::{lemma_fundamental_div_mod, lemma_mod_multiples_basic};
use vstd::arithmetic::mul::lemma_mul_inequality;

use crate::primes::{
    divides, has_factor_among, has_factor_in, has_small_factor, is_prime,
    lemma_primes_below_empty, lemma_redundant_composite, lemma_small_factor_iff_composite,
    lemma_small_factor_step, primes_below,
};

verus! {

/// For a positive step `p`, staying at or below `b` is the same as the
/// multiplier staying at or below `b / p`.
proof fn lemma_mul_le_iff_div(k: int, p: int, b: int)
    requires
        p >= 1,
        k >= 0,
        b >= 0,
    ensures
        k * p <= b <==> k <= b / p,
{
    lemma_fundamental_div_mod(b, p);
    assert(0 <= b % p < p) by (nonlinear_arith)
        requires
            p >= 1,
            b >= 0,
    ;
    assert(k * p <= b <==> k <= b / p) by (nonlinear_arith)
        requires
            b == p * (b / p) + b % p,
            0 <= b % p < p,
            p >= 1,
            k >= 0,
    ;
}

/// A multiple of `p` below `(k + 1) * p` is either below `k * p` or equal to it.
proof fn lemma_multiple_below(p: int, x: int, k: int)
    requires
        p >= 1,
        x >= 0,
        divides(p, x),
    ensures
        x < (k + 1) * p <==> (x < k * p || x == k * p),
{
    lemma_fundamental_div_mod(x, p);
    let j = x / p;
    assert((x < (k + 1) * p <==> j < k + 1) && (x < k * p <==> j < k) && (x == k * p <==> j
        == k)) by (nonlinear_arith)
        requires
            x == p * j,
            p >= 1,
    ;
}

/// A table of length `n`, `val` everywhere.
fn filled(n: usize, val: bool) -> (v: Vec<bool>)
    ensures
        v@.len() == n,
        forall|i: int| 0 <= i < n ==> v@[i] == val,
{
    let mut v: Vec<bool> = Vec::new();
    while v.len() < n
        invariant
            v@.len() <= n,
            forall|i: int| 0 <= i < v@.len() ==> v@[i] == val,
        decreases n - v@.len(),
    {
        v.push(val);
    }
    v
}

/// Reads a finished primality table into the ordered list of primes it holds.
fn collect_primes(table: &Vec<bool>) -> (r: Vec<usize>)
    requires
        forall|v: int| 0 <= v < table@.len() ==> (table@[v] <==> is_prime(v)),
    ensures
        r@ == primes_below(table@.len() as int),
{
    let mut r: Vec<usize> = Vec::new();
    let mut n: usize = 0;
    while n < table.len()
        invariant
            n <= table@.len(),
            forall|v: int| 0 <= v < table@.len() ==> (table@[v] <==> is_prime(v)),
            r@ == primes_below(n as int),
        decreases table@.len() - n,
    {
        if table[n] {
            r.push(n);
        }
        n += 1;
    }
    r
}

/// Computes all primes up to `limit` with the classic sequential sieve of
/// Eratosthenes: every number starts as a prime candidate, and each
/// candidate `p` with `p * p <= limit` crosses out its multiples from
/// `p * p` on.  Bounds below 2 yield the empty list.
pub fn sieve_single(limit: usize) -> (r: Vec<usize>)
    requires
        limit < usize::MAX,
    ensures
        r@ == primes_below(limit as int + 1),
        limit < 2 ==> r@ == Seq::<usize>::empty(),
{
    if limit < 2 {
        proof {
            lemma_primes_below_empty(limit as int + 1);
        }
        return Vec::new();
    }
    let mut table = filled(limit + 1, true);
    table.set(0, false);
    table.set(1, false);

    let mut p: usize = 2;
    while p <= limit / p
        invariant
            2 <= p,
            2 <= limit < usize::MAX,
            table@.len() == limit + 1,
            !table@[0],
            !table@[1],
            forall|v: int| 2 <= v <= limit ==> (table@[v] <==> !has_small_factor(v, p as int)),
        decreases limit - p,
    {
        proof {
            lemma_mul_le_iff_div(p as int, p as int, limit as int);
            assert(p + 1 <= limit) by (nonlinear_arith)
                requires
                    2 <= p,
                    p * p <= limit,
            ;
        }
        if table[p] {
            let mut k: usize = p;
            while k <= limit / p
                invariant
                    2 <= p <= k,
                    2 <= limit < usize::MAX,
                    p * p <= limit,
                    table@.len() == limit + 1,
                    !table@[0],
                    !table@[1],
                    forall|v: int|
                        2 <= v <= limit ==> (table@[v] <==> !(has_small_factor(v, p as int) || (
                        divides(p as int, v) && p * p <= v && v < k * p))),
                decreases limit / p + 1 - k,
            {
                proof {
                    lemma_mul_le_iff_div(k as int, p as int, limit as int);
                }
                let m = k * p;
                let ghost pre = table@;
                table.set(m, false);
                proof {
                    lemma_mod_multiples_basic(k as int, p as int);
                    assert(divides(p as int, m as int));
                    assert(p * p <= m) by (nonlinear_arith)
                        requires
                            2 <= p <= k,
                            m == k * p,
                    ;
                    assert forall|v: int| 2 <= v <= limit implies (table@[v] <==> !(
                    has_small_factor(v, p as int) || (divides(p as int, v) && p * p <= v && v < (k
                        + 1) * p))) by {
                        if divides(p as int, v) {
                            lemma_multiple_below(p as int, v, k as int);
                        }
                        if v == m {
                        } else {
                            assert(table@[v] == pre[v]);
                        }
                    }
                }
                k += 1;
            }
            proof {
                lemma_mul_le_iff_div(k as int, p as int, limit as int);
                assert(limit < k * p);
                assert forall|v: int| 2 <= v <= limit implies (table@[v] <==> !has_small_factor(
                    v,
                    p as int + 1,
                )) by {
                    lemma_small_factor_step(v, p as int);
                }
            }
        } else {
            proof {
                assert(has_small_factor(p as int, p as int));
                assert forall|v: int| 2 <= v <= limit implies (table@[v] <==> !has_small_factor(
                    v,
                    p as int + 1,
                )) by {
                    lemma_small_factor_step(v, p as int);
                    if divides(p as int, v) && p * p <= v {
                        lemma_redundant_composite(p as int, v);
                    }
                }
            }
        }
        p += 1;
    }
    proof {
        lemma_mul_le_iff_div(p as int, p as int, limit as int);
        assert(limit < p * p);
        assert forall|v: int| 0 <= v < table@.len() implies (table@[v] <==> is_prime(v)) by {
            if 2 <= v {
                lemma_small_factor_iff_composite(v, p as int);
            }
        }
    }
    collect_primes(&table)
}

/// The integer square root: the largest `r` with `r * r <= n`.
fn isqrt(n: usize) -> (r: usize)
    requires
        n < usize::MAX,
    ensures
        (r as int) * (r as int) <= n as int,
        (n as int) < (r as int + 1) * (r as int + 1),
{
    let mut r: usize = 0;
    while r + 1 <= n / (r + 1)
        invariant
            n < usize::MAX,
            r <= n,
            (r as int) * (r as int) <= n as int,
        decreases n - r,
    {
        proof {
            lemma_mul_le_iff_div(r as int + 1, r as int + 1, n as int);
        }
        r += 1;
        proof {
            assert(r <= n) by (nonlinear_arith)
                requires
                    1 <= r,
                    (r as int) * (r as int) <= n as int,
            ;
        }
    }
    proof {
        lemma_mul_le_iff_div(r as int + 1, r as int + 1, n as int);
    }
    r
}

/// The per-worker segment length: the span divided by the worker count,
/// rounded up.
pub open spec fn chunk_of(span: int, workers: int) -> int {
    span / workers + if span % workers == 0 {
        0int
    } else {
        1int
    }
}

/// A well-formed plan: at least one segment, starting at 0, ending at
/// `span`, each segment a half-open range that begins where the previous
/// one ends.
pub open spec fn is_segmentation(segs: Seq<(usize, usize)>, span: int) -> bool {
    &&& segs.len() >= 1
    &&& segs[0].0 == 0
    &&& segs[segs.len() - 1].1 == span
    &&& forall|i: int| 0 <= i < segs.len() ==> (#[trigger] segs[i].0) <= segs[i].1
    &&& forall|i: int| 0 <= i < segs.len() - 1 ==> (#[trigger] segs[i].1) == segs[i + 1].0
}

/// A segment owns the values of its half-open range.
pub open spec fn seg_contains(seg: (usize, usize), v: int) -> bool {
    seg.0 <= v < seg.1
}

/// Some segment of the plan owns the value `v`.
pub open spec fn covered_by(segs: Seq<(usize, usize)>, v: int) -> bool {
    exists|i: int| 0 <= i < segs.len() && #[trigger] seg_contains(segs[i], v)
}

/// Divides `[0, limit + 1)` into one contiguous half-open range per worker:
/// segment `i` is `[i * chunk, (i + 1) * chunk)` clamped to the span, where
/// `chunk` is the span divided by the worker count, rounded up.  A worker
/// count of zero is treated as one; trailing segments may be empty.
pub fn plan_segments(limit: usize, workers: usize) -> (segs: Vec<(usize, usize)>)
    requires
        limit < usize::MAX,
    ensures
        segs@.len() == (if workers == 0 {
            1int
        } else {
            workers as int
        }),
        is_segmentation(segs@, limit as int + 1),
        forall|i: int|
            0 <= i < segs@.len() ==> (#[trigger] segs@[i].0) == vstd::math::min(
                i * chunk_of(limit as int + 1, segs@.len() as int),
                limit as int + 1,
            ) && segs@[i].1 == vstd::math::min(
                (i + 1) * chunk_of(limit as int + 1, segs@.len() as int),
                limit as int + 1,
            ),
{
    let w = if workers == 0 {
        1
    } else {
        workers
    };
    let span = limit + 1;
    let chunk = if span % w == 0 {
        span / w
    } else {
        proof {
            lemma_fundamental_div_mod(span as int, w as int);
            assert(span as int / w as int + 1 <= span as int) by (nonlinear_arith)
                requires
                    w >= 1,
                    span >= 1,
                    span as int == w as int * (span as int / w as int) + span as int % w as int,
                    span as int % w as int != 0,
            ;
        }
        span / w + 1
    };
    let mut segs: Vec<(usize, usize)> = Vec::new();
    let mut pos: usize = 0;
    let mut i: usize = 0;
    while i < w
        invariant
            1 <= w,
            i <= w,
            span == limit as int + 1,
            limit < usize::MAX,
            chunk == chunk_of(span as int, w as int),
            segs@.len() == i,
            pos == vstd::math::min(i as int * chunk as int, span as int),
            forall|j: int|
                0 <= j < i ==> (#[trigger] segs@[j].0) == vstd::math::min(
                    j * chunk as int,
                    span as int,
                ) && segs@[j].1 == vstd::math::min((j + 1) * chunk as int, span as int),
        decreases w - i,
    {
        let end = if span - pos <= chunk {
            span
        } else {
            pos + chunk
        };
        segs.push((pos, end));
        proof {
            assert((i as int + 1) * chunk as int == i as int * chunk as int + chunk as int)
                by (nonlinear_arith);
            assert(i as int * chunk as int >= 0) by (nonlinear_arith)
                requires
                    i >= 0,
                    chunk >= 0,
            ;
        }
        pos = end;
        i += 1;
    }
    proof {
        let s = span as int;
        let ww = w as int;
        let c = chunk as int;
        lemma_fundamental_div_mod(s, ww);
        assert(0 <= s % ww && s % ww < ww) by (nonlinear_arith)
            requires
                ww >= 1,
                s >= 0,
        ;
        assert(ww * c >= s) by (nonlinear_arith)
            requires
                ww >= 1,
                s == ww * (s / ww) + s % ww,
                0 <= s % ww && s % ww < ww,
                c == s / ww + if s % ww == 0 {
                    0int
                } else {
                    1int
                },
        ;
        assert(segs@[segs@.len() - 1].1 == span) by {
            let j = segs@.len() - 1;
            assert(segs@[j].0 == vstd::math::min(j * c, s));
            assert((j + 1) * c == ww * c);
            assert(segs@[j].1 == vstd::math::min((j + 1) * c, s));
        }
        assert forall|a: int| 0 <= a < segs@.len() implies (#[trigger] segs@[a].0) <= segs@[a].1
            by {
            assert(a * chunk as int <= (a + 1) * chunk as int) by (nonlinear_arith)
                requires
                    chunk >= 0,
            ;
        }
        assert forall|a: int| 0 <= a < segs@.len() - 1 implies (#[trigger] segs@[a].1)
            == segs@[a + 1].0 by {
            assert(segs@[a].0 == vstd::math::min(a * c, s));
            assert(segs@[a + 1].0 == vstd::math::min((a + 1) * c, s));
        }
    }
    segs
}

/// The smallest multiplier `k` such that `k * p` lies in the segment
/// starting at `start` and is at least `p * p`.
spec fn first_mult(start: int, p: int) -> int {
    let c = start / p + if start % p == 0 {
        0int
    } else {
        1int
    };
    if c >= p {
        c
    } else {
        p
    }
}

/// `first_mult` names the least multiplier whose multiple reaches both
/// `start` and `p * p`.
proof fn lemma_first_mult(start: int, p: int, j: int)
    requires
        p >= 1,
        start >= 0,
    ensures
        first_mult(start, p) * p >= start,
        first_mult(start, p) >= p,
        (j >= p && j * p >= start) ==> j >= first_mult(start, p),
{
    lemma_fundamental_div_mod(start, p);
    let q = start / p;
    let r = start % p;
    let c = q + if r == 0 {
        0int
    } else {
        1int
    };
    assert(0 <= r && r < p) by (nonlinear_arith)
        requires
            p >= 1,
            start >= 0,
            r == start % p,
    ;
    assert(c * p >= start && (j * p >= start ==> j >= c)) by (nonlinear_arith)
        requires
            start == p * q + r,
            0 <= r && r < p,
            p >= 1,
            c == q + if r == 0 {
                0int
            } else {
                1int
            },
    ;
    if c >= p {
        assert(first_mult(start, p) == c);
    } else {
        assert(first_mult(start, p) == p);
        assert(p * p >= c * p) by (nonlinear_arith)
            requires
                p >= c,
                p >= 1,
        ;
    }
}

/// Sieves one segment `[start, end)` against the base primes, touching no
/// shared state: offset `o` of the returned mask is `false` exactly when
/// `start + o` is divisible by a base entry whose square does not exceed it.
/// For each base prime the marking starts at the first multiple inside the
/// segment, advanced to the prime's square if that is larger.
pub fn sieve_segment(start: usize, end: usize, base: &Vec<usize>) -> (local: Vec<bool>)
    requires
        start < end,
        forall|i: int| 0 <= i < base@.len() ==> 2 <= #[trigger] base@[i],
    ensures
        local@.len() == end - start,
        forall|o: int|
            0 <= o < end - start ==> (local@[o] <==> !has_factor_in(start + o, base@)),
{
    let len = end - start;
    let mut local = filled(len, true);
    let mut idx: usize = 0;
    while idx < base.len()
        invariant
            start < end,
            len == end - start,
            local@.len() == len,
            idx <= base@.len(),
            forall|i: int| 0 <= i < base@.len() ==> 2 <= #[trigger] base@[i],
            forall|o: int|
                0 <= o < len ==> (local@[o] <==> !has_factor_among(
                    start + o,
                    base@,
                    idx as int,
                )),
        decreases base@.len() - idx,
    {
        let p = base[idx];
        let q = start / p;
        proof {
            assert(q <= start) by (nonlinear_arith)
                requires
                    q == start as int / p as int,
                    p >= 2,
                    start >= 0,
            ;
        }
        let mut k: usize = if start % p == 0 {
            q
        } else {
            q + 1
        };
        if k < p {
            k = p;
        }
        proof {
            assert(k == first_mult(start as int, p as int));
            lemma_first_mult(start as int, p as int, 0);
            assert forall|o: int| 0 <= o < len implies (local@[o] <==> !(has_factor_among(
                start + o,
                base@,
                idx as int,
            ) || (divides(p as int, start + o) && p * p <= start + o && start + o < k * p)))
                by {
                let v = start + o;
                if divides(p as int, v) && p * p <= v {
                    lemma_fundamental_div_mod(v, p as int);
                    let j = v / p as int;
                    assert(j >= p && j * p >= start) by (nonlinear_arith)
                        requires
                            v == p as int * j + 0,
                            p as int * p as int <= v,
                            start <= v,
                            p >= 2,
                    ;
                    lemma_first_mult(start as int, p as int, j);
                    lemma_mul_inequality(k as int, j, p as int);
                    assert(!(v < k * p));
                }
            }
        }
        while k <= (end - 1) / p
            invariant
                start < end,
                len == end - start,
                local@.len() == len,
                idx < base@.len(),
                p == base@[idx as int],
                2 <= p,
                forall|i: int| 0 <= i < base@.len() ==> 2 <= #[trigger] base@[i],
                k >= first_mult(start as int, p as int),
                forall|o: int|
                    0 <= o < len ==> (local@[o] <==> !(has_factor_among(
                        start + o,
                        base@,
                        idx as int,
                    ) || (divides(p as int, start + o) && p * p <= start + o && start + o < k
                        * p))),
            decreases (end as int - 1) / (p as int) + 1 - k,
        {
            proof {
                lemma_mul_le_iff_div(k as int, p as int, end as int - 1);
                lemma_first_mult(start as int, p as int, 0);
                lemma_mul_inequality(first_mult(start as int, p as int), k as int, p as int);
                assert(k * p >= start);
                assert(p * p <= k * p) by (nonlinear_arith)
                    requires
                        2 <= p <= k,
                ;
            }
            let m = k * p;
            let ghost pre = local@;
            local.set(m - start, false);
            proof {
                lemma_mod_multiples_basic(k as int, p as int);
                assert(divides(p as int, m as int));
                assert forall|o: int| 0 <= o < len implies (local@[o] <==> !(has_factor_among(
                    start + o,
                    base@,
                    idx as int,
                ) || (divides(p as int, start + o) && p * p <= start + o && start + o < (k + 1)
                    * p))) by {
                    let v = start + o;
                    if divides(p as int, v) {
                        lemma_multiple_below(p as int, v, k as int);
                    }
                    if v == m {
                    } else {
                        assert(local@[o] == pre[o]);
                    }
                }
            }
            k += 1;
        }
        proof {
            lemma_mul_le_iff_div(k as int, p as int, end as int - 1);
            assert(end as int - 1 < k * p);
            assert forall|o: int| 0 <= o < len implies (local@[o] <==> !has_factor_among(
                start + o,
                base@,
                idx as int + 1,
            )) by {
                crate::primes::lemma_factor_among_step(start + o, base@, idx as int);
            }
        }
        idx += 1;
    }
    local
}

/// Merges one worker's finished mask into the shared primality table under
/// what the caller guarantees is exclusive access: within the segment a
/// value stays classified prime only if it was before, is at least 2, and
/// the mask agrees; everything outside the segment is untouched.
pub fn merge_segment(shared: &mut Vec<bool>, start: usize, local: &Vec<bool>)
    requires
        start + local@.len() <= old(shared)@.len(),
    ensures
        final(shared)@.len() == old(shared)@.len(),
        forall|v: int|
            0 <= v < old(shared)@.len() && !(start <= v < start + local@.len())
                ==> final(shared)@[v] == old(shared)@[v],
        forall|v: int|
            start <= v < start + local@.len() ==> (final(shared)@[v] <==> (old(shared)@[v] && v
                >= 2 && local@[v - start])),
{
    let capacity = shared.len();
    let mut o: usize = 0;
    while o < local.len()
        invariant
            o <= local@.len(),
            capacity == old(shared)@.len(),
            start + local@.len() <= old(shared)@.len(),
            shared@.len() == old(shared)@.len(),
            forall|v: int|
                0 <= v < old(shared)@.len() && !(start <= v < start + o) ==> shared@[v] == old(
                    shared,
                )@[v],
            forall|v: int|
                start <= v < start + o ==> (shared@[v] <==> (old(shared)@[v] && v >= 2
                    && local@[v - start])),
        decreases local@.len() - o,
    {
        let value = start + o;
        if value < 2 {
            shared.set(value, false);
        } else if !local[o] {
            shared.set(value, false);
        }
        o += 1;
    }
}

/// The first value not yet merged after `i` segments of the plan are done:
/// the start of segment `i`, or the whole span once every segment is merged.
spec fn planned_pos(segs: Seq<(usize, usize)>, i: int, span: int) -> int {
    if i < segs.len() {
        segs[i].0 as int
    } else {
        span
    }
}

/// Computes all primes up to `limit` with the segmented sieve: the base
/// primes up to the integer square root of `limit` come from the sequential
/// sieve; the domain is split into one segment per requested worker; each
/// segment is sieved independently against the base primes and merged into
/// the shared primality table; the finished table is read out in ascending
/// order.  The result is exactly the sequential sieve's result, whatever
/// the worker count; bounds below 2 yield the empty list.
pub fn sieve_threaded(limit: usize, threads: usize) -> (r: Vec<usize>)
    requires
        limit < usize::MAX,
    ensures
        r@ == primes_below(limit as int + 1),
        limit < 2 ==> r@ == Seq::<usize>::empty(),
{
    if limit < 2 {
        proof {
            lemma_primes_below_empty(limit as int + 1);
        }
        return Vec::new();
    }
    let bl = isqrt(limit);
    proof {
        assert(bl < usize::MAX) by (nonlinear_arith)
            requires
                (bl as int) * (bl as int) <= limit as int,
                limit < usize::MAX,
                bl >= 0,
        ;
    }
    let base = sieve_single(bl);
    proof {
        crate::primes::lemma_primes_below_props(bl as int + 1);
        assert forall|j: int| 0 <= j < base@.len() implies 2 <= #[trigger] base@[j] by {
            assert(is_prime(base@[j] as int));
        }
    }
    let mut shared = filled(limit + 1, true);
    shared.set(0, false);
    shared.set(1, false);
    let segs = plan_segments(limit, threads);
    let ghost span = limit as int + 1;
    let mut i: usize = 0;
    while i < segs.len()
        invariant
            i <= segs@.len(),
            is_segmentation(segs@, span),
            span == limit as int + 1,
            2 <= limit < usize::MAX,
            shared@.len() == limit + 1,
            base@ == primes_below(bl as int + 1),
            forall|j: int| 0 <= j < base@.len() ==> 2 <= #[trigger] base@[j],
            forall|v: int|
                0 <= v < planned_pos(segs@, i as int, span) ==> (shared@[v] <==> (v >= 2
                    && !has_factor_in(v, base@))),
            forall|v: int|
                planned_pos(segs@, i as int, span) <= v <= limit ==> (shared@[v] <==> v >= 2),
        decreases segs@.len() - i,
    {
        let seg = segs[i];
        let s_start = seg.0;
        let s_end = seg.1;
        proof {
            if (i as int) < segs@.len() - 1 {
                lemma_segments_ordered(segs@, span, i as int, segs@.len() - 1);
            }
            assert(s_end <= limit + 1);
        }
        if s_start < s_end {
            let local = sieve_segment(s_start, s_end, &base);
            merge_segment(&mut shared, s_start, &local);
            proof {
                assert forall|v: int| 0 <= v < s_end as int implies (shared@[v] <==> (v >= 2
                    && !has_factor_in(v, base@))) by {
                    if s_start as int <= v {
                        assert(shared@[v] <==> (v >= 2 && local@[v - s_start as int]));
                    }
                }
            }
        }
        i += 1;
        proof {
            if (i as int) < segs@.len() {
                assert(segs@[i as int - 1].1 == segs@[i as int].0);
            }
            assert(planned_pos(segs@, i as int, span) == s_end as int);
        }
    }
    proof {
        assert forall|v: int| 0 <= v < shared@.len() implies (shared@[v] <==> is_prime(v)) by {
            if v >= 2 {
                crate::primes::lemma_base_factor_iff_composite(
                    v,
                    base@,
                    bl as int,
                    limit as int,
                );
            }
        }
    }
    collect_primes(&shared)
}

/// Agreement law: the sieve contracts pin the result completely, so the
/// segmented sieve returns exactly what the sequential reference sieve
/// returns for the same bound — whatever the worker counts — and repeated
/// invocations with equal arguments yield identical, deterministically
/// ordered output.
pub proof fn lemma_sieve_agreement(limit: usize, first: Seq<usize>, second: Seq<usize>)
    requires
        first == primes_below(limit as int + 1),
        second == primes_below(limit as int + 1),
    ensures
        first == second,
{
}

/// Monotonicity of a plan: an earlier segment ends no later than a later
/// one begins.
proof fn lemma_segments_ordered(segs: Seq<(usize, usize)>, span: int, a: int, b: int)
    requires
        is_segmentation(segs, span),
        0 <= a < b < segs.len(),
    ensures
        segs[a].1 <= segs[b].0,
    decreases b - a,
{
    if b > a + 1 {
        lemma_segments_ordered(segs, span, a, b - 1);
    }
}

/// Every value of the span from position `j` on lies in some segment.
proof fn lemma_segments_cover_from(segs: Seq<(usize, usize)>, span: int, j: int, v: int)
    requires
        is_segmentation(segs, span),
        0 <= j < segs.len(),
        segs[j].0 <= v < span,
    ensures
        exists|i: int| 0 <= i < segs.len() && #[trigger] seg_contains(segs[i], v),
    decreases segs.len() - j,
{
    if v < segs[j].1 {
        assert(seg_contains(segs[j], v));
    } else {
        assert(j < segs.len() - 1);
        lemma_segments_cover_from(segs, span, j + 1, v);
    }
}

/// Partition law: the segments of a well-formed plan are pairwise disjoint
/// and their union is exactly `[0, span)`.
pub proof fn lemma_segments_partition(segs: Seq<(usize, usize)>, span: int)
    requires
        is_segmentation(segs, span),
    ensures
        forall|a: int, b: int, v: int|
            0 <= a < b < segs.len() ==> !(#[trigger] seg_contains(segs[a], v)
                && #[trigger] seg_contains(segs[b], v)),
        forall|v: int| 0 <= v < span ==> #[trigger] covered_by(segs, v),
        forall|i: int, v: int|
            0 <= i < segs.len() && #[trigger] seg_contains(segs[i], v) ==> 0 <= v < span,
{
    assert forall|a: int, b: int, v: int| 0 <= a < b < segs.len() implies !(
    #[trigger] seg_contains(segs[a], v) && #[trigger] seg_contains(segs[b], v)) by {
        lemma_segments_ordered(segs, span, a, b);
    }
    assert forall|v: int| 0 <= v < span implies #[trigger] covered_by(segs, v) by {
        lemma_segments_cover_from(segs, span, 0, v);
    }
    assert forall|i: int, v: int|
        0 <= i < segs.len() && #[trigger] seg_contains(segs[i], v) implies 0 <= v < span by {
        if i < segs.len() - 1 {
            lemma_segments_ordered(segs, span, i, segs.len() - 1);
        }
    }
}

} // verus!
