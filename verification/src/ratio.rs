//! A musical interval as an exact fraction, always reduced to lowest
//! terms and normalized into one octave. Every operation funnels its
//! result through the same constructing path, so every live `Ratio`
//! satisfies `wf`.

use vstd::prelude::*;
use vstd::arithmetic::div_mod::{
    lemma_div_basics, lemma_div_multiples_vanish, lemma_fundamental_div_mod,
    lemma_mod_multiples_basic, lemma_mod_self_0,
};
use vstd::arithmetic::power::{
    lemma_pow1, lemma_pow_adds, lemma_pow_increases, lemma_pow_positive, lemma_pow0, pow,
};
use crate::math::{
    is_prime, divides, lemma_divides_transitive, lemma_divisor_le, lemma_gcd_divides,
    lemma_gcd_greatest, lemma_gcd_pos, lemma_gcd_scale, lemma_mod_scale, lemma_norm_pair_bounds,
    lemma_norm_pair_id, lemma_norm_pair_le, lemma_odd_divides_twice, lemma_pow_base_le, norm_fits,
    norm_pair, spec_gcd,
};

verus! {

/// A reduced, octave-normalized frequency ratio.
#[derive(Clone, Copy, Debug, PartialEq, Eq, Structural)]
pub struct Ratio {
    pub numer: u64,
    pub denom: u64,
}

/// Why a ratio could not be built.
#[derive(Clone, Copy, Debug, PartialEq, Eq, Structural)]
pub enum RatioError {
    /// A numerator or denominator of zero names no interval.
    InvalidRatio,
    /// An intermediate product or power left the representable range.
    Overflow,
}

/// The canonical representative of a positive fraction: octave
/// normalization followed by reduction to lowest terms.
pub open spec fn canonical_pair(n: int, d: int) -> (int, int)
    recommends
        1 <= n,
        1 <= d,
{
    let x = norm_pair(n, d).0;
    let y = norm_pair(n, d).1;
    (x / spec_gcd(x, y), y / spec_gcd(x, y))
}

/// Construction succeeds exactly on positive pairs whose normalized
/// form is representable.
pub open spec fn constructible(n: int, d: int) -> bool {
    1 <= n && 1 <= d && norm_fits(n, d)
}

/// The ratio that construction from `(n, d)` yields.
pub open spec fn constructed(n: int, d: int) -> Ratio
    recommends
        constructible(n, d),
{
    Ratio { numer: canonical_pair(n, d).0 as u64, denom: canonical_pair(n, d).1 as u64 }
}

/// Construction is idempotent: feeding a well-formed ratio's own
/// numerator and denominator back through construction returns the
/// very same ratio.
pub proof fn lemma_construct_idempotent(r: Ratio)
    requires
        r.wf(),
    ensures
        constructible(r.numer as int, r.denom as int),
        constructed(r.numer as int, r.denom as int) == r,
        canonical_pair(r.numer as int, r.denom as int) == (r.numer as int, r.denom as int),
{
    let n = r.numer as int;
    let d = r.denom as int;
    if n == d {
        // gcd(n, n) == n, so lowest terms forces n == 1.
        lemma_mod_self_0(n);
        assert(spec_gcd(n, d) == spec_gcd(d, 0));
    }
    lemma_norm_pair_id(n, d);
    lemma_div_basics(n);
    lemma_div_basics(d);
}

/// The octave complement is an involution away from unison: taking the
/// complement of the complement of any well-formed ratio other than
/// 1/1 gives the ratio back. (Unison is the one exception: its
/// complement is the octave 2/1, whose complement is again 2/1.)
pub proof fn lemma_complement_involution(r: Ratio)
    requires
        r.wf(),
        !(r.numer == 1 && r.denom == 1),
    ensures
        ({
            let c = canonical_pair(2 * r.denom, r.numer as int);
            canonical_pair(2 * c.1, c.0) == (r.numer as int, r.denom as int)
        }),
{
    let n = r.numer as int;
    let d = r.denom as int;
    if n == d {
        // Lowest terms would force unison, which is excluded.
        lemma_mod_self_0(n);
        assert(spec_gcd(n, d) == spec_gcd(d, 0));
        assert(false);
    }
    if n == 2 * d {
        // Lowest terms forces r == 2/1, whose complement is 2/1 again.
        lemma_mod_multiples_basic(2, d);
        assert(n % d == 0);
        assert(spec_gcd(n, d) == spec_gcd(d, 0));
        assert(d == 1 && n == 2);
        assert(norm_pair(2, 2) == (2int, 1int));
        assert(2int % 1int == 0);
        assert(spec_gcd(2, 1) == spec_gcd(1, 0));
        lemma_div_basics(2);
        lemma_div_basics(1);
        assert(canonical_pair(2 * d, n) == (2int, 1int));
        assert(canonical_pair(2int * 1, 2) == (2int, 1int));
    } else {
        // Strictly inside the octave: d < n < 2 * d.
        lemma_norm_pair_id(2 * d, n);
        let g = spec_gcd(2 * d, n);
        lemma_gcd_pos(2 * d, n);
        lemma_gcd_divides(2 * d, n);
        if n % 2 == 1 {
            // The complement's terms stay coprime: g is odd, so it
            // divides d as well as n, hence divides gcd(n, d) == 1.
            if g % 2 == 0 {
                lemma_divides_transitive(2, g, n);
                assert(false);
            }
            lemma_odd_divides_twice(g, d);
            lemma_gcd_greatest(n, d, g);
            lemma_divisor_le(g, 1);
            assert(g == 1);
            lemma_div_basics(2 * d);
            lemma_div_basics(n);
            assert(canonical_pair(2 * d, n) == (2 * d, n));
            // The second complement halves the common factor 2 away.
            lemma_norm_pair_id(2 * n, 2 * d);
            lemma_gcd_scale(2, n, d);
            lemma_div_multiples_vanish(n, 2);
            lemma_div_multiples_vanish(d, 2);
            assert(canonical_pair(2 * n, 2 * d) == (n, d));
        } else {
            // n even forces d odd, and the complement's common factor
            // is exactly 2.
            if d % 2 == 0 {
                lemma_gcd_greatest(n, d, 2);
                lemma_divisor_le(2, 1);
                assert(false);
            }
            assert(d * 2 == 2 * d);
            lemma_mod_multiples_basic(d, 2);
            assert(divides(2, 2 * d));
            lemma_gcd_greatest(2 * d, n, 2);
            lemma_divisor_le(2, g);
            let h = g / 2;
            lemma_fundamental_div_mod(g, 2);
            assert(g == 2 * h);
            assert(1 <= h);
            lemma_mod_scale(2, d, h);
            assert((2 * d) % (2 * h) == 2 * (d % h));
            assert(divides(h, d));
            lemma_mod_multiples_basic(2, h);
            assert(divides(h, g));
            lemma_divides_transitive(h, g, n);
            lemma_gcd_greatest(n, d, h);
            lemma_divisor_le(h, 1);
            assert(h == 1 && g == 2);
            lemma_div_multiples_vanish(d, 2);
            let k = n / 2;
            lemma_fundamental_div_mod(n, 2);
            assert(n == 2 * k);
            assert(canonical_pair(2 * d, n) == (d, k));
            // Doubling k recovers n, and construction is idempotent on r.
            lemma_construct_idempotent(r);
            assert(2 * k == n);
        }
    }
}

/// Multiplication of two words, refused instead of wrapped when the
/// product does not fit.
fn mul_check(a: u64, b: u64) -> (r: Option<u64>)
    ensures
        r is Some <==> a * b <= u64::MAX,
        r matches Some(v) ==> v == a * b,
{
    proof {
        assert(a as int * b as int <= u128::MAX) by (nonlinear_arith)
            requires
                a <= u64::MAX,
                b <= u64::MAX,
        ;
    }
    let p = (a as u128) * (b as u128);
    if p > u64::MAX as u128 {
        None
    } else {
        Some(p as u64)
    }
}

/// Iterated multiplication of a word, refused instead of wrapped when
/// the power does not fit.
fn pow_checked(b: u64, e: u64) -> (r: Option<u64>)
    requires
        1 <= b,
    ensures
        r is Some <==> pow(b as int, e as nat) <= u64::MAX,
        r matches Some(v) ==> v == pow(b as int, e as nat),
{
    let mut acc: u64 = 1;
    let mut i: u64 = 0;
    proof {
        lemma_pow0(b as int);
    }
    while i < e
        invariant
            1 <= b,
            i <= e,
            1 <= acc,
            acc as int == pow(b as int, i as nat),
        decreases e - i,
    {
        proof {
            lemma_pow_adds(b as int, i as nat, 1);
            lemma_pow1(b as int);
            lemma_pow_positive(b as int, (i + 1) as nat);
        }
        match mul_check(acc, b) {
            Some(v) => {
                acc = v;
            },
            None => {
                proof {
                    lemma_pow_increases(b as nat, (i + 1) as nat, e as nat);
                }
                return None;
            },
        }
        i = i + 1;
    }
    Some(acc)
}

impl Ratio {
    /// The central invariant: the fraction lies in `[1, 2]` and is in
    /// lowest terms. (Lowest terms forces the boundary representatives
    /// to be exactly 1/1 and 2/1.)
    pub open spec fn wf(self) -> bool {
        &&& 1 <= self.denom
        &&& self.denom <= self.numer
        &&& self.numer <= 2 * self.denom
        &&& spec_gcd(self.numer as int, self.denom as int) == 1
    }

    /// Builds the ratio `numer / denom`, normalized into the octave
    /// and reduced to lowest terms.
    ///
    /// A zero component is rejected as `InvalidRatio`; a pair whose
    /// normalized numerator would pass `u64::MAX` is rejected as
    /// `Overflow`; everything else yields the canonical representative.
    pub fn new(numer: u64, denom: u64) -> (r: Result<Ratio, RatioError>)
        ensures
            (r == Err::<Ratio, RatioError>(RatioError::InvalidRatio)) <==> (numer == 0 || denom
                == 0),
            (r == Err::<Ratio, RatioError>(RatioError::Overflow)) <==> (1 <= numer && 1 <= denom
                && !norm_fits(numer as int, denom as int)),
            r is Ok <==> constructible(numer as int, denom as int),
            constructible(numer as int, denom as int) ==> r == Ok::<Ratio, RatioError>(
                constructed(numer as int, denom as int),
            ),
            r matches Ok(q) ==> q.wf() && (q.numer as int, q.denom as int) == canonical_pair(
                numer as int,
                denom as int,
            ),
    {
        if numer == 0 || denom == 0 {
            return Err(RatioError::InvalidRatio);
        }
        match crate::math::normalize_pair(numer, denom) {
            None => Err(RatioError::Overflow),
            Some(pair) => {
                let (x, y) = pair;
                proof {
                    lemma_norm_pair_bounds(numer as int, denom as int);
                }
                let reduced = crate::math::reduce(x, y);
                let (rn, rd) = reduced;
                proof {
                    let g = spec_gcd(x as int, y as int);
                    assert(rd <= rn && rn as int <= 2 * rd as int) by (nonlinear_arith)
                        requires
                            1 <= g,
                            x as int == g * rn as int,
                            y as int == g * rd as int,
                            y <= x,
                            x as int <= 2 * y as int,
                            1 <= rn,
                            1 <= rd,
                    ;
                }
                Ok(Ratio { numer: rn, denom: rd })
            },
        }
    }

    /// The product of two intervals: stacking one atop the other, then
    /// normalizing back into the octave.
    pub fn multiply(&self, rhs: &Ratio) -> (r: Result<Ratio, RatioError>)
        requires
            self.wf(),
            rhs.wf(),
        ensures
            r is Ok <==> (self.numer * rhs.numer <= u64::MAX && self.denom * rhs.denom
                <= u64::MAX),
            r matches Ok(q) ==> q == constructed(
                self.numer * rhs.numer,
                self.denom * rhs.denom,
            ) && q.wf(),
            r is Err ==> r == Err::<Ratio, RatioError>(RatioError::Overflow),
    {
        let pn = match mul_check(self.numer, rhs.numer) {
            Some(v) => v,
            None => {
                return Err(RatioError::Overflow);
            },
        };
        let pd = match mul_check(self.denom, rhs.denom) {
            Some(v) => v,
            None => {
                return Err(RatioError::Overflow);
            },
        };
        proof {
            assert(1 <= self.denom as int * rhs.denom as int <= self.numer as int
                * rhs.numer as int) by (nonlinear_arith)
                requires
                    1 <= self.denom <= self.numer,
                    1 <= rhs.denom <= rhs.numer,
            ;
            lemma_norm_pair_le(
                self.numer as int * rhs.numer as int,
                self.denom as int * rhs.denom as int,
            );
        }
        Ratio::new(pn, pd)
    }

    /// The quotient of two intervals: the first measured against the
    /// second, normalized back into the octave.
    pub fn divide(&self, rhs: &Ratio) -> (r: Result<Ratio, RatioError>)
        requires
            self.wf(),
            rhs.wf(),
        ensures
            r is Ok <==> (self.numer * rhs.denom <= u64::MAX && self.denom * rhs.numer
                <= u64::MAX && norm_fits(
                self.numer * rhs.denom,
                self.denom * rhs.numer,
            )),
            r matches Ok(q) ==> q == constructed(
                self.numer * rhs.denom,
                self.denom * rhs.numer,
            ) && q.wf(),
            r is Err ==> r == Err::<Ratio, RatioError>(RatioError::Overflow),
    {
        let pn = match mul_check(self.numer, rhs.denom) {
            Some(v) => v,
            None => {
                return Err(RatioError::Overflow);
            },
        };
        let pd = match mul_check(self.denom, rhs.numer) {
            Some(v) => v,
            None => {
                return Err(RatioError::Overflow);
            },
        };
        proof {
            assert(1 <= self.numer as int * rhs.denom as int && 1 <= self.denom as int
                * rhs.numer as int) by (nonlinear_arith)
                requires
                    1 <= self.denom <= self.numer,
                    1 <= rhs.denom <= rhs.numer,
            ;
        }
        Ratio::new(pn, pd)
    }

    /// The octave complement: the interval that stacks with this one
    /// to span exactly one octave, `(2/1) / self`.
    pub fn complement(&self) -> (r: Result<Ratio, RatioError>)
        requires
            self.wf(),
        ensures
            r is Ok <==> 2 * self.denom <= u64::MAX,
            r matches Ok(q) ==> q == constructed(2 * self.denom, self.numer as int) && q.wf()
                && (q.numer as int, q.denom as int) == canonical_pair(
                2 * self.denom,
                self.numer as int,
            ),
            r is Err ==> r == Err::<Ratio, RatioError>(RatioError::Overflow),
    {
        if self.denom > u64::MAX / 2 {
            return Err(RatioError::Overflow);
        }
        proof {
            lemma_norm_pair_le(2 * self.denom as int, self.numer as int);
        }
        Ratio::new(2 * self.denom, self.numer)
    }

    /// Negation of an interval, in the sense of log-frequency
    /// arithmetic: the same operation as `complement`.
    pub fn negate(&self) -> (r: Result<Ratio, RatioError>)
        requires
            self.wf(),
        ensures
            r is Ok <==> 2 * self.denom <= u64::MAX,
            r matches Ok(q) ==> q == constructed(2 * self.denom, self.numer as int) && q.wf(),
            r is Err ==> r == Err::<Ratio, RatioError>(RatioError::Overflow),
    {
        self.complement()
    }

    /// This ratio raised to the positive power `e`: both terms taken
    /// to the `e`-th power, then normalized and reduced.
    fn pow_mag(&self, e: u64) -> (r: Result<Ratio, RatioError>)
        requires
            self.wf(),
            1 <= e,
        ensures
            r is Ok <==> pow(self.numer as int, e as nat) <= u64::MAX,
            r matches Ok(q) ==> q == constructed(
                pow(self.numer as int, e as nat),
                pow(self.denom as int, e as nat),
            ) && q.wf(),
            e == 1 ==> r == Ok::<Ratio, RatioError>(*self),
            r is Err ==> r == Err::<Ratio, RatioError>(RatioError::Overflow),
    {
        proof {
            lemma_pow_base_le(self.denom as int, self.numer as int, e as nat);
            lemma_pow_positive(self.denom as int, e as nat);
            if e == 1 {
                lemma_pow1(self.numer as int);
                lemma_pow1(self.denom as int);
                lemma_construct_idempotent(*self);
            }
        }
        let np = match pow_checked(self.numer, e) {
            Some(v) => v,
            None => {
                return Err(RatioError::Overflow);
            },
        };
        let dp = match pow_checked(self.denom, e) {
            Some(v) => v,
            None => {
                // Impossible: the denominator's power is bounded by the
                // numerator's, which fit.
                proof {
                    assert(false);
                }
                return Err(RatioError::Overflow);
            },
        };
        proof {
            lemma_norm_pair_le(np as int, dp as int);
        }
        Ratio::new(np, dp)
    }

    /// This ratio raised to an integer power.
    ///
    /// A power of 0 is unison; a negative power raises the octave
    /// complement to the corresponding positive power. Both terms of a
    /// power must stay representable, else `Overflow` comes back.
    pub fn pow(&self, exp: i32) -> (r: Result<Ratio, RatioError>)
        requires
            self.wf(),
        ensures
            exp == 0 ==> r == Ok::<Ratio, RatioError>(Ratio { numer: 1, denom: 1 }),
            exp == 1 ==> r == Ok::<Ratio, RatioError>(*self),
            exp >= 1 ==> ((r is Ok <==> pow(self.numer as int, exp as nat) <= u64::MAX) && (
            r matches Ok(q) ==> q == constructed(
                pow(self.numer as int, exp as nat),
                pow(self.denom as int, exp as nat),
            ))),
            exp <= -1 ==> ((r is Ok <==> (2 * self.denom <= u64::MAX && pow(
                canonical_pair(2 * self.denom, self.numer as int).0,
                (-(exp as int)) as nat,
            ) <= u64::MAX)) && (r matches Ok(q) ==> q == constructed(
                pow(canonical_pair(2 * self.denom, self.numer as int).0, (-(exp as int)) as nat),
                pow(canonical_pair(2 * self.denom, self.numer as int).1, (-(exp as int)) as nat),
            ))),
            r matches Ok(q) ==> q.wf(),
            r is Err ==> r == Err::<Ratio, RatioError>(RatioError::Overflow),
    {
        if exp == 0 {
            proof {
                assert(spec_gcd(1, 0) == 1);
                assert(1int % 1int == 0);
                assert(spec_gcd(1, 1) == 1);
            }
            return Ok(Ratio { numer: 1, denom: 1 });
        }
        if exp < 0 {
            let c = match self.complement() {
                Ok(c) => c,
                Err(_) => {
                    return Err(RatioError::Overflow);
                },
            };
            let mag = (-(exp as i64)) as u64;
            return c.pow_mag(mag);
        }
        self.pow_mag(exp as u64)
    }

    /// The harmonic (prime) limit: the largest prime factor appearing
    /// in either term of the reduced ratio.
    ///
    /// Unison 1/1 has no prime factor at all; the degenerate answer
    /// there is 2 and carries no harmonic meaning.
    pub fn limit(&self) -> (p: u64)
        requires
            self.wf(),
        ensures
            2 <= p,
            self.numer == 1 && self.denom == 1 ==> p == 2,
            2 <= self.numer ==> is_prime(p as int) && (divides(p as int, self.numer as int)
                || divides(p as int, self.denom as int)),
            forall|q: int|
                is_prime(q) && (#[trigger] divides(q, self.numer as int) || #[trigger] divides(
                    q,
                    self.denom as int,
                )) ==> q <= p,
    {
        let a = crate::math::greatest_prime_factor(self.numer);
        let b = crate::math::greatest_prime_factor(self.denom);
        if a >= b {
            a
        } else {
            b
        }
    }
}

} // verus!

