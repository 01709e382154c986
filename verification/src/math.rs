//! Integer helpers for ratio arithmetic: greatest common divisor,
//! octave normalization of a numerator/denominator pair, and greatest
//! prime factor, together with the number-theoretic lemmas the ratio
//! type builds on.

use vstd::prelude::*;
use vstd::arithmetic::div_mod::{
    lemma_div_pos_is_pos, lemma_fundamental_div_mod, lemma_fundamental_div_mod_converse_mod,
    lemma_mod_multiples_basic, lemma_mod_self_0, lemma_mul_mod_noop, lemma_small_mod,
};
use vstd::arithmetic::power::{lemma_pow1, lemma_pow_adds, lemma_pow_positive, pow};

verus! {

/// Greatest common divisor by the Euclidean recurrence.
pub open spec fn spec_gcd(a: int, b: int) -> int
    recommends
        1 <= a,
        0 <= b,
    decreases b,
        when 0 <= b
{
    if b == 0 {
        a
    } else {
        spec_gcd(b, a % b)
    }
}

/// `d` divides `x` exactly.
pub open spec fn divides(d: int, x: int) -> bool
    recommends
        1 <= d,
{
    x % d == 0
}

/// Divisibility is the same as being an exact multiple.
pub(crate) proof fn lemma_divides_iff_multiple(d: int, x: int)
    requires
        1 <= d,
        0 <= x,
    ensures
        divides(d, x) <==> exists|q: int| 0 <= q && x == #[trigger] (q * d),
{
    if divides(d, x) {
        lemma_fundamental_div_mod(x, d);
        assert(x == (x / d) * d);
        assert(0 <= x / d) by (nonlinear_arith)
            requires
                1 <= d,
                0 <= x,
                x == (x / d) * d,
        ;
    }
    if exists|q: int| 0 <= q && x == #[trigger] (q * d) {
        let q = choose|q: int| 0 <= q && x == #[trigger] (q * d);
        lemma_mod_multiples_basic(q, d);
    }
}

/// Divisibility carries across a chain: if `a` divides `b` and `b`
/// divides `x`, then `a` divides `x`.
pub(crate) proof fn lemma_divides_transitive(a: int, b: int, x: int)
    requires
        1 <= a,
        1 <= b,
        0 <= x,
        divides(a, b),
        divides(b, x),
    ensures
        divides(a, x),
{
    lemma_divides_iff_multiple(a, b);
    lemma_divides_iff_multiple(b, x);
    let qb = choose|q: int| 0 <= q && b == #[trigger] (q * a);
    let qx = choose|q: int| 0 <= q && x == #[trigger] (q * b);
    assert(x == (qx * qb) * a) by (nonlinear_arith)
        requires
            b == qb * a,
            x == qx * b,
    ;
    assert(0 <= qx * qb) by (nonlinear_arith)
        requires
            0 <= qx,
            0 <= qb,
    ;
    lemma_divides_iff_multiple(a, x);
}

/// A divisor of a positive number is no larger than it.
pub(crate) proof fn lemma_divisor_le(d: int, x: int)
    requires
        1 <= d,
        1 <= x,
        divides(d, x),
    ensures
        d <= x,
{
    if x < d {
        lemma_small_mod(x as nat, d as nat);
    }
}

/// The gcd of positive inputs is positive.
pub(crate) proof fn lemma_gcd_pos(a: int, b: int)
    requires
        1 <= a,
        0 <= b,
    ensures
        1 <= spec_gcd(a, b),
    decreases b,
{
    if b != 0 {
        lemma_mod_bound_simple(a, b);
        lemma_gcd_pos(b, a % b);
    }
}

/// The remainder lies in `[0, m)`.
proof fn lemma_mod_bound_simple(x: int, m: int)
    requires
        1 <= m,
    ensures
        0 <= x % m < m,
{
}

/// The gcd divides both of its arguments.
pub(crate) proof fn lemma_gcd_divides(a: int, b: int)
    requires
        1 <= a,
        0 <= b,
    ensures
        divides(spec_gcd(a, b), a),
        divides(spec_gcd(a, b), b),
    decreases b,
{
    let g = spec_gcd(a, b);
    if b == 0 {
        lemma_mod_self_0(a);
        assert(0int % a == 0) by {
            lemma_small_mod(0, a as nat);
        }
    } else {
        lemma_mod_bound_simple(a, b);
        lemma_gcd_divides(b, a % b);
        lemma_gcd_pos(b, a % b);
        // g divides b and a % b; combine them into a = b * (a / b) + a % b.
        lemma_fundamental_div_mod(a, b);
        lemma_divides_iff_multiple(g, b);
        lemma_divides_iff_multiple(g, a % b);
        let qb = choose|q: int| 0 <= q && b == #[trigger] (q * g);
        let qr = choose|q: int| 0 <= q && a % b == #[trigger] (q * g);
        lemma_div_pos_is_pos(a, b);
        assert(a == (qb * (a / b) + qr) * g) by (nonlinear_arith)
            requires
                a == b * (a / b) + a % b,
                b == qb * g,
                a % b == qr * g,
        ;
        assert(0 <= qb * (a / b) + qr) by (nonlinear_arith)
            requires
                0 <= qb,
                0 <= qr,
                1 <= a,
                1 <= b,
                a == (qb * (a / b) + qr) * g,
                1 <= g,
                0 <= a / b,
        ;
        lemma_divides_iff_multiple(g, a);
    }
}

/// Every common divisor of `a` and `b` divides their gcd.
pub(crate) proof fn lemma_gcd_greatest(a: int, b: int, c: int)
    requires
        1 <= a,
        0 <= b,
        1 <= c,
        divides(c, a),
        divides(c, b),
    ensures
        divides(c, spec_gcd(a, b)),
    decreases b,
{
    if b == 0 {
    } else {
        lemma_mod_bound_simple(a, b);
        // c divides a % b == a - b * (a / b).
        lemma_fundamental_div_mod(a, b);
        lemma_divides_iff_multiple(c, a);
        lemma_divides_iff_multiple(c, b);
        let qa = choose|q: int| 0 <= q && a == #[trigger] (q * c);
        let qb = choose|q: int| 0 <= q && b == #[trigger] (q * c);
        assert(a % b == (qa - qb * (a / b)) * c) by (nonlinear_arith)
            requires
                a == b * (a / b) + a % b,
                a == qa * c,
                b == qb * c,
        ;
        assert(0 <= qa - qb * (a / b)) by (nonlinear_arith)
            requires
                0 <= a % b,
                1 <= c,
                a % b == (qa - qb * (a / b)) * c,
        ;
        lemma_divides_iff_multiple(c, a % b);
        lemma_gcd_greatest(b, a % b, c);
    }
}

/// Scaling both operands of a remainder scales the remainder:
/// `(k * x) % (k * m) == k * (x % m)`.
pub(crate) proof fn lemma_mod_scale(k: int, x: int, m: int)
    requires
        1 <= k,
        0 <= x,
        1 <= m,
    ensures
        (k * x) % (k * m) == k * (x % m),
{
    lemma_fundamental_div_mod(x, m);
    lemma_mod_bound_simple(x, m);
    assert(k * x == (k * m) * (x / m) + k * (x % m) && 0 <= k * (x % m) < k * m)
        by (nonlinear_arith)
        requires
            x == m * (x / m) + x % m,
            0 <= x % m < m,
            1 <= k,
    ;
    lemma_fundamental_div_mod_converse_mod(k * x, k * m, x / m, k * (x % m));
}

/// Scaling both operands of the gcd scales the gcd:
/// `gcd(k * a, k * b) == k * gcd(a, b)`.
pub(crate) proof fn lemma_gcd_scale(k: int, a: int, b: int)
    requires
        1 <= k,
        1 <= a,
        0 <= b,
    ensures
        spec_gcd(k * a, k * b) == k * spec_gcd(a, b),
    decreases b,
{
    if b == 0 {
        assert(k * b == 0);
    } else {
        assert(1 <= k * a && 1 <= k * b) by (nonlinear_arith)
            requires
                1 <= k,
                1 <= a,
                1 <= b,
        ;
        lemma_mod_bound_simple(a, b);
        lemma_mod_scale(k, a, b);
        lemma_gcd_scale(k, b, a % b);
        assert(spec_gcd(k * a, k * b) == spec_gcd(k * b, (k * a) % (k * b)));
    }
}

/// Dividing two numbers by their gcd leaves a coprime pair; the gcd
/// recovers both numbers exactly.
proof fn lemma_reduce_coprime(a: int, b: int)
    requires
        1 <= a,
        1 <= b,
    ensures
        1 <= spec_gcd(a, b),
        1 <= a / spec_gcd(a, b),
        1 <= b / spec_gcd(a, b),
        a == spec_gcd(a, b) * (a / spec_gcd(a, b)),
        b == spec_gcd(a, b) * (b / spec_gcd(a, b)),
        spec_gcd(a / spec_gcd(a, b), b / spec_gcd(a, b)) == 1,
{
    let g = spec_gcd(a, b);
    lemma_gcd_pos(a, b);
    lemma_gcd_divides(a, b);
    lemma_fundamental_div_mod(a, g);
    lemma_fundamental_div_mod(b, g);
    let a1 = a / g;
    let b1 = b / g;
    assert(1 <= a1 && 1 <= b1) by (nonlinear_arith)
        requires
            1 <= a,
            1 <= b,
            1 <= g,
            a == g * a1,
            b == g * b1,
    ;
    lemma_gcd_scale(g, a1, b1);
    let c = spec_gcd(a1, b1);
    lemma_gcd_pos(a1, b1);
    assert(c == 1) by (nonlinear_arith)
        requires
            1 <= g,
            1 <= c,
            g == g * c,
    ;
}

/// Greatest common divisor by the remainder-based Euclidean method.
pub(crate) fn gcd(a: u64, b: u64) -> (g: u64)
    requires
        1 <= a,
        1 <= b,
    ensures
        g == spec_gcd(a as int, b as int),
        1 <= g,
        divides(g as int, a as int),
        divides(g as int, b as int),
{
    let mut x = a;
    let mut y = b;
    while x % y > 0
        invariant
            1 <= x,
            1 <= y,
            spec_gcd(x as int, y as int) == spec_gcd(a as int, b as int),
        decreases y,
    {
        let t = x % y;
        x = y;
        y = t;
    }
    proof {
        assert(spec_gcd(x as int, y as int) == spec_gcd(y as int, 0)) by {
            assert(x as int % y as int == 0);
        }
        lemma_gcd_pos(a as int, b as int);
        lemma_gcd_divides(a as int, b as int);
    }
    y
}

/// Divides both components by their greatest common divisor.
///
/// The result is the unique coprime pair that scales back to the
/// input: `a == g * r.0` and `b == g * r.1` for `g == spec_gcd(a, b)`.
pub(crate) fn reduce(a: u64, b: u64) -> (r: (u64, u64))
    requires
        1 <= a,
        1 <= b,
    ensures
        ({
            let g = spec_gcd(a as int, b as int);
            &&& 1 <= g
            &&& r.0 == a as int / g
            &&& r.1 == b as int / g
            &&& 1 <= r.0
            &&& 1 <= r.1
            &&& a as int == g * r.0
            &&& b as int == g * r.1
            &&& spec_gcd(r.0 as int, r.1 as int) == 1
        }),
{
    proof {
        lemma_reduce_coprime(a as int, b as int);
    }
    let g = gcd(a, b);
    (a / g, b / g)
}

/// Octave normalization: double the numerator while the fraction lies
/// below unison and double the denominator while it lies above the
/// octave; a pair landing exactly on 1/1 stays only if it already was
/// (1, 1), any other such pair is promoted to the octave 2/1.
pub open spec fn norm_pair(n: int, d: int) -> (int, int)
    recommends
        1 <= n,
        1 <= d,
    decreases (if n < d { 1int } else { 0int }), (if n < d { d - n } else { n - d }),
        when 1 <= n && 1 <= d
{
    if n < d {
        norm_pair(2 * n, d)
    } else if n > 2 * d {
        norm_pair(n, 2 * d)
    } else if n == d {
        if n == 1 {
            (1, 1)
        } else {
            (2, 1)
        }
    } else {
        (n, d)
    }
}

/// Both components of the normalized pair stay representable.
pub open spec fn norm_fits(n: int, d: int) -> bool
    recommends
        1 <= n,
        1 <= d,
{
    norm_pair(n, d).0 <= u64::MAX && norm_pair(n, d).1 <= u64::MAX
}

/// A normalized pair lies in the octave: `1 <= d' <= n' <= 2 * d'`,
/// and only true unison has equal components.
pub proof fn lemma_norm_pair_bounds(n: int, d: int)
    requires
        1 <= n,
        1 <= d,
    ensures
        1 <= norm_pair(n, d).1,
        norm_pair(n, d).1 <= norm_pair(n, d).0,
        norm_pair(n, d).0 <= 2 * norm_pair(n, d).1,
        norm_pair(n, d).0 == norm_pair(n, d).1 ==> norm_pair(n, d).0 == 1,
    decreases (if n < d { 1int } else { 0int }), (if n < d { d - n } else { n - d }),
{
    if n < d {
        lemma_norm_pair_bounds(2 * n, d);
    } else if n > 2 * d {
        lemma_norm_pair_bounds(n, 2 * d);
    }
}

/// When the fraction starts at or above unison, normalization never
/// grows the numerator.
pub proof fn lemma_norm_pair_le(n: int, d: int)
    requires
        1 <= d <= n,
    ensures
        norm_pair(n, d).0 <= n,
        norm_pair(n, d).1 <= n,
    decreases n - d,
{
    if n > 2 * d {
        lemma_norm_pair_le(n, 2 * d);
    } else {
        lemma_norm_pair_bounds(n, d);
    }
}

/// A pair that already satisfies the octave invariant is left exactly
/// as it is.
pub proof fn lemma_norm_pair_id(n: int, d: int)
    requires
        1 <= d <= n <= 2 * d,
        n == d ==> n == 1,
    ensures
        norm_pair(n, d) == (n, d),
{
}

/// Octave normalization of a positive pair, with overflow detection.
///
/// Returns the normalized pair exactly when it is representable, and
/// `None` exactly when its numerator would pass `u64::MAX`.
pub(crate) fn normalize_pair(a: u64, b: u64) -> (r: Option<(u64, u64)>)
    requires
        1 <= a,
        1 <= b,
    ensures
        r matches Some(q) ==> norm_fits(a as int, b as int) && (q.0 as int, q.1 as int)
            == norm_pair(a as int, b as int),
        r is None ==> !norm_fits(a as int, b as int),
{
    let mut x = a;
    let mut y = b;
    while x < y
        invariant
            1 <= a,
            1 <= b,
            1 <= x,
            1 <= y,
            norm_pair(x as int, y as int) == norm_pair(a as int, b as int),
        decreases (if x < y { y - x } else { 0int }),
    {
        if x > u64::MAX / 2 {
            proof {
                assert(norm_pair(x as int, y as int) == norm_pair(2 * x as int, y as int));
                assert(norm_pair(2 * x as int, y as int) == (2 * x as int, y as int));
                assert(2 * x as int > u64::MAX);
                lemma_norm_pair_bounds(a as int, b as int);
            }
            return None;
        }
        x = x * 2;
    }
    while x - y > y
        invariant
            1 <= a,
            1 <= b,
            1 <= y <= x,
            norm_pair(x as int, y as int) == norm_pair(a as int, b as int),
        decreases x - y,
    {
        proof {
            assert(norm_pair(x as int, y as int) == norm_pair(x as int, 2 * y as int));
        }
        y = y * 2;
    }
    if x == y {
        if x == 1 {
            Some((1, 1))
        } else {
            Some((2, 1))
        }
    } else {
        Some((x, y))
    }
}

/// Primality: at least 2 and with no divisor strictly between 1 and
/// itself.
pub open spec fn is_prime(p: int) -> bool {
    &&& 2 <= p
    &&& forall|q: int| 2 <= q < p ==> !divides(q, p)
}

/// A divisor of a prime is 1 or the prime itself.
proof fn lemma_prime_divisor(p: int, c: int)
    requires
        is_prime(p),
        1 <= c,
        divides(c, p),
    ensures
        c == 1 || c == p,
{
    lemma_divisor_le(c, p);
}

/// Euclid's lemma: a prime dividing a product divides one of the
/// factors.
proof fn lemma_euclid_prime(p: int, x: int, y: int)
    requires
        is_prime(p),
        1 <= x,
        1 <= y,
        divides(p, x * y),
    ensures
        divides(p, x) || divides(p, y),
{
    if !divides(p, x) {
        let g = spec_gcd(p, x);
        lemma_gcd_pos(p, x);
        lemma_gcd_divides(p, x);
        lemma_prime_divisor(p, g);
        assert(g == 1);
        lemma_gcd_scale(y, p, x);
        assert(spec_gcd(y * p, y * x) == y);
        lemma_mod_multiples_basic(y, p);
        assert(divides(p, y * p));
        assert(y * x == x * y) by (nonlinear_arith);
        assert(1 <= y * p && 0 <= y * x) by (nonlinear_arith)
            requires
                1 <= y,
                2 <= p,
                1 <= x,
        ;
        lemma_gcd_greatest(y * p, y * x, p);
    }
}

/// The greatest prime factor, by trial division from 2 upward.
///
/// For inputs of at least 2 the result is the largest prime divisor.
/// The input 1 has no prime factor; the first trial divisor 2 comes
/// back, a degenerate value callers must not read as a true limit.
pub(crate) fn greatest_prime_factor(a: u64) -> (p: u64)
    requires
        1 <= a,
    ensures
        2 <= p,
        a == 1 ==> p == 2,
        2 <= a ==> is_prime(p as int) && divides(p as int, a as int),
        forall|q: int| is_prime(q) && #[trigger] divides(q, a as int) ==> q <= p,
{
    let mut m = a;
    let mut p: u64 = 2;
    proof {
        lemma_mod_self_0(a as int);
    }
    while m > 1
        invariant
            1 <= a,
            1 <= m,
            2 <= p,
            a == 1 ==> p == 2,
            divides(m as int, a as int),
            forall|q: int| 2 <= q < p ==> !divides(q, m as int),
            forall|q: int|
                is_prime(q) && #[trigger] divides(q, a as int) ==> divides(q, m as int) || q
                    <= p,
            (m == 1 && 2 <= a) ==> (is_prime(p as int) && divides(p as int, a as int)),
        decreases m, m - p,
    {
        proof {
            // With at least one division left to do, a == 1 is impossible.
            if a == 1 {
                lemma_divisor_le(m as int, a as int);
                assert(false);
            }
            // p never passes m: m divides itself, so m being in [2, p)
            // would contradict the divisor-free range below p.
            lemma_mod_self_0(m as int);
            assert(divides(m as int, m as int));
            if m < p {
                assert(2 <= m < p);
                assert(false);
            }
        }
        if m % p == 0 {
            let m2 = m / p;
            proof {
                lemma_fundamental_div_mod(m as int, p as int);
                assert(m as int == p as int * m2 as int);
                assert(1 <= m2 && m2 < m) by (nonlinear_arith)
                    requires
                        2 <= m,
                        m as int == p as int * m2 as int,
                        2 <= p,
                ;
                lemma_mod_multiples_basic(m2 as int, p as int);
                assert(divides(m2 as int, m as int)) by {
                    lemma_divides_iff_multiple(m2 as int, m as int);
                    assert(m as int == p as int * m2 as int);
                }
                lemma_divides_transitive(m2 as int, m as int, a as int);
                assert forall|q: int| 2 <= q < p implies !divides(q, m2 as int) by {
                    if divides(q, m2 as int) {
                        lemma_divides_transitive(q, m2 as int, m as int);
                    }
                }
                assert forall|q: int|
                    is_prime(q) && #[trigger] divides(q, a as int) implies divides(
                    q,
                    m2 as int,
                ) || q <= p by {
                    if divides(q, m as int) && !divides(q, m2 as int) {
                        assert(m as int == m2 as int * p as int) by (nonlinear_arith)
                            requires
                                m as int == p as int * m2 as int,
                        ;
                        lemma_euclid_prime(q, m2 as int, p as int);
                        lemma_divisor_le(q, p as int);
                    }
                }
                if m2 == 1 {
                    assert(m as int == p as int) by (nonlinear_arith)
                        requires
                            m as int == p as int * m2 as int,
                            m2 == 1,
                    ;
                    assert forall|q: int| 2 <= q < p as int implies !divides(
                        q,
                        p as int,
                    ) by {
                        assert(!divides(q, m as int));
                    }
                    assert(is_prime(p as int));
                }
            }
            m = m2;
        } else {
            proof {
                // p != m here, since m % m == 0 but m % p != 0.
                assert(p < m);
            }
            p = p + 1;
        }
    }
    proof {
        if a == 1 {
            assert(p == 2);
        }
        assert forall|q: int|
            is_prime(q) && #[trigger] divides(q, a as int) implies q <= p by {
            if divides(q, m as int) {
                lemma_divisor_le(q, m as int);
                assert(false);
            }
        }
    }
    p
}

/// An odd number dividing twice a value divides the value itself.
pub(crate) proof fn lemma_odd_divides_twice(c: int, x: int)
    requires
        1 <= c,
        1 <= x,
        c % 2 == 1,
        divides(c, 2 * x),
    ensures
        divides(c, x),
{
    lemma_fundamental_div_mod(2 * x, c);
    let q = (2 * x) / c;
    assert(2 * x == c * q);
    if q % 2 == 1 {
        lemma_mul_mod_noop(c, q, 2);
        assert((c % 2) * (q % 2) % 2 == (c * q) % 2);
        lemma_mod_multiples_basic(x, 2);
        assert((x * 2) % 2 == 0);
        assert(x * 2 == 2 * x) by (nonlinear_arith);
        assert(false);
    }
    lemma_fundamental_div_mod(q, 2);
    assert(q == 2 * (q / 2));
    assert(x == (q / 2) * c) by (nonlinear_arith)
        requires
            2 * x == c * q,
            q == 2 * (q / 2),
    ;
    assert(0 <= q / 2) by (nonlinear_arith)
        requires
            1 <= x,
            1 <= c,
            x == (q / 2) * c,
    ;
    lemma_divides_iff_multiple(c, x);
}

/// Raising a smaller positive base to the same power gives a smaller
/// result.
pub(crate) proof fn lemma_pow_base_le(a: int, b: int, e: nat)
    requires
        1 <= a <= b,
    ensures
        pow(a, e) <= pow(b, e),
    decreases e,
{
    if e == 0 {
        assert(pow(a, 0) == 1 && pow(b, 0) == 1) by {
            vstd::arithmetic::power::lemma_pow0(a);
            vstd::arithmetic::power::lemma_pow0(b);
        }
    } else {
        lemma_pow_base_le(a, b, (e - 1) as nat);
        lemma_pow_adds(a, (e - 1) as nat, 1);
        lemma_pow_adds(b, (e - 1) as nat, 1);
        lemma_pow1(a);
        lemma_pow1(b);
        lemma_pow_positive(a, (e - 1) as nat);
        assert(pow(a, (e - 1) as nat) * a <= pow(b, (e - 1) as nat) * b) by (nonlinear_arith)
            requires
                1 <= a <= b,
                1 <= pow(a, (e - 1) as nat),
                pow(a, (e - 1) as nat) <= pow(b, (e - 1) as nat),
        ;
    }
}

} // verus!
