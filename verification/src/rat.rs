//! Exact rational scalars.
//!
//! The engine computes over rationals held as an `i64` numerator and a
//! positive `i64` denominator.  Arithmetic is performed exactly in `i128`,
//! reduced by the greatest common divisor, and an operation whose reduced
//! result does not fit the `i64` range reports `None` rather than losing
//! precision.  The mathematical model of a scalar is a pair of unbounded
//! integers `(numerator, denominator)`.

use vstd::prelude::*;

verus! {

use vstd::arithmetic::div_mod::lemma_fundamental_div_mod;
use vstd::arithmetic::div_mod::lemma_mod_multiples_basic;
use vstd::arithmetic::div_mod::lemma_mod_self_0;
use vstd::arithmetic::div_mod::lemma_small_mod;
use vstd::math::abs;

// ---------------------------------------------------------------------------
// The mathematical model: pairs of unbounded integers.
// ---------------------------------------------------------------------------

/// A pair is a valid fraction when its denominator is positive.
pub open spec fn q_valid(q: (int, int)) -> bool {
    q.1 >= 1
}

/// Two fractions denote the same rational number.
pub open spec fn q_eqv(x: (int, int), y: (int, int)) -> bool {
    x.0 * y.1 == y.0 * x.1
}

pub open spec fn q_add(x: (int, int), y: (int, int)) -> (int, int) {
    (x.0 * y.1 + y.0 * x.1, x.1 * y.1)
}

pub open spec fn q_sub(x: (int, int), y: (int, int)) -> (int, int) {
    (x.0 * y.1 - y.0 * x.1, x.1 * y.1)
}

pub open spec fn q_mul(x: (int, int), y: (int, int)) -> (int, int) {
    (x.0 * y.0, x.1 * y.1)
}

pub open spec fn q_div(x: (int, int), y: (int, int)) -> (int, int) {
    (x.0 * y.1, x.1 * y.0)
}

pub open spec fn q_neg(x: (int, int)) -> (int, int) {
    (-x.0, x.1)
}

pub open spec fn q_abs(x: (int, int)) -> (int, int) {
    (abs(x.0) as int, x.1)
}

/// Ordering of valid fractions by cross multiplication.
pub open spec fn q_le(x: (int, int), y: (int, int)) -> bool
    recommends
        q_valid(x),
        q_valid(y),
{
    x.0 * y.1 <= y.0 * x.1
}

pub open spec fn q_lt(x: (int, int), y: (int, int)) -> bool
    recommends
        q_valid(x),
        q_valid(y),
{
    x.0 * y.1 < y.0 * x.1
}

// ---------------------------------------------------------------------------
// Greatest common divisor and normalization.
// ---------------------------------------------------------------------------

/// Euclid's greatest common divisor.
pub open spec fn gcd(a: nat, b: nat) -> nat
    decreases b,
{
    if b == 0 {
        a
    } else {
        gcd(b, a % b)
    }
}

/// The greatest common divisor of two numbers, not both zero, is positive
/// and divides both.
pub proof fn lemma_gcd_divides(a: nat, b: nat)
    ensures
        a + b > 0 ==> gcd(a, b) >= 1,
        a + b > 0 ==> a as int % (gcd(a, b) as int) == 0,
        a + b > 0 ==> b as int % (gcd(a, b) as int) == 0,
    decreases b,
{
    if b == 0 {
        if a > 0 {
            lemma_mod_self_0(a as int);
            lemma_small_mod(0, a);
        }
    } else {
        lemma_gcd_divides(b, a % b);
        let g = gcd(b, a % b) as int;
        let r = (a % b) as int;
        let q = a as int / b as int;
        let k1 = b as int / g;
        let k2 = r / g;
        lemma_fundamental_div_mod(a as int, b as int);
        lemma_fundamental_div_mod(b as int, g);
        lemma_fundamental_div_mod(r, g);
        assert(a as int == (k1 * q + k2) * g) by (nonlinear_arith)
            requires
                a as int == (b as int) * q + r,
                b as int == g * k1,
                r == g * k2,
        ;
        lemma_mod_multiples_basic(k1 * q + k2, g);
    }
}

/// Lowest-terms form of a fraction: magnitudes divided by their greatest
/// common divisor, the sign carried by the numerator.
pub open spec fn q_norm(q: (int, int)) -> (int, int)
    recommends
        q.1 != 0,
{
    let g = gcd(abs(q.0), abs(q.1)) as int;
    if (q.0 < 0) == (q.1 < 0) {
        ((abs(q.0) as int) / g, (abs(q.1) as int) / g)
    } else {
        (-((abs(q.0) as int) / g), (abs(q.1) as int) / g)
    }
}

/// The bounds a stored scalar obeys.
pub open spec fn q_in_i64(q: (int, int)) -> bool {
    &&& -(i64::MAX as int) <= q.0 <= i64::MAX as int
    &&& 1 <= q.1 <= i64::MAX as int
}

/// A fraction is representable when its lowest-terms form fits the stored
/// range.
pub open spec fn q_representable(q: (int, int)) -> bool {
    q_in_i64(q_norm(q))
}

/// What exact arithmetic yields for a fraction: its lowest-terms form if
/// that is representable, and nothing otherwise (also nothing for a zero
/// denominator, which arises exactly on division by zero).
pub open spec fn q_norm_opt(q: (int, int)) -> Option<(int, int)> {
    if q.1 != 0 && q_representable(q) {
        Some(q_norm(q))
    } else {
        None
    }
}

pub open spec fn add_n(x: (int, int), y: (int, int)) -> Option<(int, int)> {
    q_norm_opt(q_add(x, y))
}

pub open spec fn sub_n(x: (int, int), y: (int, int)) -> Option<(int, int)> {
    q_norm_opt(q_sub(x, y))
}

pub open spec fn mul_n(x: (int, int), y: (int, int)) -> Option<(int, int)> {
    q_norm_opt(q_mul(x, y))
}

pub open spec fn div_n(x: (int, int), y: (int, int)) -> Option<(int, int)> {
    q_norm_opt(q_div(x, y))
}

/// Normalization keeps the denominator positive.
pub proof fn lemma_norm_valid(q: (int, int))
    requires
        q.1 != 0,
    ensures
        q_valid(q_norm(q)),
{
    let na = abs(q.0);
    let da = abs(q.1);
    lemma_gcd_divides(na, da);
    let g = gcd(na, da) as int;
    lemma_fundamental_div_mod(da as int, g);
    assert(da as int / g >= 1) by (nonlinear_arith)
        requires
            da as int == g * (da as int / g) + 0,
            da >= 1,
            g >= 1,
    ;
}

/// Normalization preserves the denoted rational number.
pub proof fn lemma_norm_eqv(q: (int, int))
    requires
        q.1 != 0,
    ensures
        q_eqv(q_norm(q), q),
        q_eqv(q, q_norm(q)),
{
    let na = abs(q.0);
    let da = abs(q.1);
    lemma_gcd_divides(na, da);
    let g = gcd(na, da) as int;
    lemma_fundamental_div_mod(na as int, g);
    lemma_fundamental_div_mod(da as int, g);
    let nn = na as int / g;
    let dd = da as int / g;
    let sgn0: int = if q.0 < 0 {
        -1
    } else {
        1
    };
    let sgn1: int = if q.1 < 0 {
        -1
    } else {
        1
    };
    let s: int = if (q.0 < 0) == (q.1 < 0) {
        1
    } else {
        -1
    };
    assert(q.0 == sgn0 * (na as int)) by {
        if q.0 < 0 {
            assert(sgn0 == -1 && na as int == -q.0);
        } else {
            assert(sgn0 == 1 && na as int == q.0);
        }
    }
    assert(q.1 == sgn1 * (da as int)) by {
        if q.1 < 0 {
            assert(sgn1 == -1 && da as int == -q.1);
        } else {
            assert(sgn1 == 1 && da as int == q.1);
        }
    }
    assert(s == sgn0 * sgn1 && sgn1 * sgn1 == 1) by {
        if q.0 < 0 {
            if q.1 < 0 {
                assert(sgn0 == -1 && sgn1 == -1 && s == 1);
            } else {
                assert(sgn0 == -1 && sgn1 == 1 && s == -1);
            }
        } else {
            if q.1 < 0 {
                assert(sgn0 == 1 && sgn1 == -1 && s == -1);
            } else {
                assert(sgn0 == 1 && sgn1 == 1 && s == 1);
            }
        }
    }
    assert((s * nn) * q.1 == q.0 * dd && q.0 * dd == (s * nn) * q.1) by (nonlinear_arith)
        requires
            q.0 == sgn0 * (na as int),
            q.1 == sgn1 * (da as int),
            na as int == g * nn,
            da as int == g * dd,
            s == sgn0 * sgn1,
            sgn1 * sgn1 == 1,
    ;
}

/// A fraction whose raw parts already fit the stored range is representable.
pub proof fn lemma_norm_small(q: (int, int))
    requires
        q.1 != 0,
        abs(q.0) <= i64::MAX as int,
        abs(q.1) <= i64::MAX as int,
    ensures
        q_representable(q),
{
    let na = abs(q.0);
    let da = abs(q.1);
    lemma_gcd_divides(na, da);
    let g = gcd(na, da) as int;
    lemma_fundamental_div_mod(na as int, g);
    lemma_fundamental_div_mod(da as int, g);
    lemma_norm_valid(q);
    assert(na as int / g <= na as int && da as int / g <= da as int) by (nonlinear_arith)
        requires
            na as int == g * (na as int / g) + 0,
            da as int == g * (da as int / g) + 0,
            na as int / g >= 0,
            da as int / g >= 0,
            g >= 1,
    ;
}

/// Normalizing a fraction with positive parts yields a positive
/// numerator.
pub proof fn lemma_norm_pos(q: (int, int))
    requires
        q.0 >= 1,
        q.1 >= 1,
    ensures
        q_norm(q).0 >= 1,
        q_valid(q_norm(q)),
{
    let na = abs(q.0);
    let da = abs(q.1);
    lemma_gcd_divides(na, da);
    let g = gcd(na, da) as int;
    lemma_fundamental_div_mod(na as int, g);
    lemma_norm_valid(q);
    assert(na as int / g >= 1) by (nonlinear_arith)
        requires
            na as int == g * (na as int / g) + 0,
            na >= 1,
            g >= 1,
    ;
}

/// A whole number over one is already in lowest terms.
pub proof fn lemma_norm_int(k: int)
    ensures
        q_norm((k, 1)) == (k, 1int),
{
    let na = abs(k);
    lemma_fundamental_div_mod(na as int, 1);
    assert(na as int % 1 == 0);
    assert(gcd(na, 1) == gcd(1, na % 1));
    assert(na % 1 == 0) by {
        assert(na as int % 1 == 0);
    }
    assert(gcd(1, 0) == 1);
    assert((na as int) / 1 == na as int);
    if k < 0 {
        assert(q_norm((k, 1)) == (-(na as int), 1int));
    } else {
        assert(q_norm((k, 1)) == (na as int, 1int));
    }
}

/// Rounding to the nearest integer, halves away from zero.
pub open spec fn q_round(q: (int, int)) -> int
    recommends
        q_valid(q),
{
    let m = abs(q.0) as int;
    let k = (2 * m + q.1) / (2 * q.1);
    if q.0 < 0 {
        -k
    } else {
        k
    }
}

/// Normalizing a nonnegative fraction yields a nonnegative numerator.
pub proof fn lemma_norm_nonneg(q: (int, int))
    requires
        q.0 >= 0,
        q.1 >= 1,
    ensures
        q_norm(q).0 >= 0,
{
    let na = abs(q.0);
    let da = abs(q.1);
    lemma_gcd_divides(na, da);
    let g = gcd(na, da) as int;
    vstd::arithmetic::div_mod::lemma_div_pos_is_pos(na as int, g);
}

// ---------------------------------------------------------------------------
// The stored scalar.
// ---------------------------------------------------------------------------

/// An exact rational scalar: numerator `n`, positive denominator `d`.
#[derive(Clone, Copy, Debug, PartialEq, Eq, Structural)]
pub struct Rat {
    n: i64,
    d: i64,
}

impl View for Rat {
    type V = (int, int);

    closed spec fn view(&self) -> (int, int) {
        (self.n as int, self.d as int)
    }
}

/// The value of a fallible scalar result.
pub open spec fn opt_v(r: Option<Rat>) -> Option<(int, int)> {
    match r {
        Some(c) => Some(c@),
        None => None,
    }
}

impl Rat {
    /// Well-formedness: the stored parts lie in the representable range, so
    /// the denominator is positive and negation is always possible.
    pub open spec fn wf(self) -> bool {
        q_in_i64(self@)
    }

    pub fn zero() -> (r: Rat)
        ensures
            r.wf(),
            r@ == (0int, 1int),
    {
        Rat { n: 0, d: 1 }
    }

    pub fn one() -> (r: Rat)
        ensures
            r.wf(),
            r@ == (1int, 1int),
    {
        Rat { n: 1, d: 1 }
    }

    /// The integer `n` as a scalar.
    pub fn from_int(n: i64) -> (r: Rat)
        requires
            n > i64::MIN,
        ensures
            r.wf(),
            r@ == (n as int, 1int),
    {
        Rat { n, d: 1 }
    }

    /// The fraction `n / d` in lowest terms.
    pub fn new(n: i64, d: i64) -> (r: Rat)
        requires
            d != 0,
            n > i64::MIN,
            d > i64::MIN,
        ensures
            r.wf(),
            r@ == q_norm((n as int, d as int)),
            q_eqv(r@, (n as int, d as int)),
    {
        proof {
            lemma_norm_small((n as int, d as int));
            lemma_norm_eqv((n as int, d as int));
        }
        let r = norm128(n as i128, d as i128);
        match r {
            Some(c) => c,
            None => {
                proof {
                    assert(false);
                }
                Rat { n: 0, d: 1 }
            },
        }
    }

    pub fn num(&self) -> (r: i64)
        ensures
            r as int == self@.0,
    {
        self.n
    }

    pub fn den(&self) -> (r: i64)
        ensures
            r as int == self@.1,
    {
        self.d
    }

    pub fn is_zero(&self) -> (r: bool)
        ensures
            r == (self@.0 == 0),
    {
        self.n == 0
    }

    /// Exact negation.
    pub fn neg(&self) -> (r: Rat)
        requires
            self.wf(),
        ensures
            r.wf(),
            r@ == q_neg(self@),
    {
        Rat { n: -self.n, d: self.d }
    }

    /// Exact absolute value.
    pub fn abs_val(&self) -> (r: Rat)
        requires
            self.wf(),
        ensures
            r.wf(),
            r@ == q_abs(self@),
    {
        if self.n < 0 {
            Rat { n: -self.n, d: self.d }
        } else {
            Rat { n: self.n, d: self.d }
        }
    }

    /// Exact reciprocal of a nonzero scalar.
    pub fn recip(&self) -> (r: Rat)
        requires
            self.wf(),
            self@.0 != 0,
        ensures
            r.wf(),
            r@ == (if self@.0 < 0 { (-self@.1, abs(self@.0) as int) } else { (self@.1, self@.0) }),
            q_eqv(q_mul(r@, self@), (1int, 1int)),
    {
        let r = if self.n < 0 {
            Rat { n: -self.d, d: -self.n }
        } else {
            Rat { n: self.d, d: self.n }
        };
        proof {
            assert(r@.0 * self@.0 * 1 == 1 * (r@.1 * self@.1)) by (nonlinear_arith)
                requires
                    (r@.0 == self@.1 && r@.1 == self@.0) || (r@.0 == -self@.1 && r@.1
                        == -self@.0),
            ;
        }
        r
    }

    /// The nearest integer, halves rounded away from zero.
    pub fn round(&self) -> (r: Rat)
        requires
            self.wf(),
        ensures
            r.wf(),
            r@ == (q_round(self@), 1int),
    {
        let m: u128 = if self.n < 0 {
            (-self.n) as u128
        } else {
            self.n as u128
        };
        let num: u128 = 2 * m + (self.d as u128);
        let den: u128 = 2 * (self.d as u128);
        let k = num / den;
        proof {
            lemma_fundamental_div_mod(num as int, den as int);
            assert(k as int <= m as int) by (nonlinear_arith)
                requires
                    num as int == (den as int) * (k as int) + (num as int) % (den as int),
                    (num as int) % (den as int) >= 0,
                    num as int == 2 * (m as int) + self@.1,
                    den as int == 2 * self@.1,
                    self@.1 >= 1,
                    k as int >= 0,
                    m as int >= 0,
            ;
        }
        if self.n < 0 {
            Rat { n: -(k as i64), d: 1 }
        } else {
            Rat { n: k as i64, d: 1 }
        }
    }

    /// Exact equality of the denoted rationals.
    pub fn eqv(&self, other: &Rat) -> (r: bool)
        requires
            self.wf(),
            other.wf(),
        ensures
            r == q_eqv(self@, other@),
    {
        proof {
            lemma_i64_products_fit(self@.0, other@.1);
            lemma_i64_products_fit(other@.0, self@.1);
        }
        (self.n as i128) * (other.d as i128) == (other.n as i128) * (self.d as i128)
    }

    pub fn le(&self, other: &Rat) -> (r: bool)
        requires
            self.wf(),
            other.wf(),
        ensures
            r == q_le(self@, other@),
    {
        proof {
            lemma_i64_products_fit(self@.0, other@.1);
            lemma_i64_products_fit(other@.0, self@.1);
        }
        (self.n as i128) * (other.d as i128) <= (other.n as i128) * (self.d as i128)
    }

    pub fn lt(&self, other: &Rat) -> (r: bool)
        requires
            self.wf(),
            other.wf(),
        ensures
            r == q_lt(self@, other@),
    {
        proof {
            lemma_i64_products_fit(self@.0, other@.1);
            lemma_i64_products_fit(other@.0, self@.1);
        }
        (self.n as i128) * (other.d as i128) < (other.n as i128) * (self.d as i128)
    }

    /// Exact sum, `None` when the reduced result leaves the stored range.
    pub fn add(&self, other: &Rat) -> (r: Option<Rat>)
        requires
            self.wf(),
            other.wf(),
        ensures
            opt_v(r) == add_n(self@, other@),
            r matches Some(c) ==> c.wf(),
    {
        proof {
            lemma_i64_products_fit(self@.0, other@.1);
            lemma_i64_products_fit(other@.0, self@.1);
            lemma_i64_products_fit(self@.1, other@.1);
            assert(self@.1 * other@.1 >= 1) by (nonlinear_arith)
                requires
                    self@.1 >= 1,
                    other@.1 >= 1,
            ;
        }
        let n: i128 = (self.n as i128) * (other.d as i128) + (other.n as i128) * (self.d as i128);
        let d: i128 = (self.d as i128) * (other.d as i128);
        norm128(n, d)
    }

    /// Exact difference, `None` when the reduced result leaves the stored
    /// range.
    pub fn sub(&self, other: &Rat) -> (r: Option<Rat>)
        requires
            self.wf(),
            other.wf(),
        ensures
            opt_v(r) == sub_n(self@, other@),
            r matches Some(c) ==> c.wf(),
    {
        proof {
            lemma_i64_products_fit(self@.0, other@.1);
            lemma_i64_products_fit(other@.0, self@.1);
            lemma_i64_products_fit(self@.1, other@.1);
            assert(self@.1 * other@.1 >= 1) by (nonlinear_arith)
                requires
                    self@.1 >= 1,
                    other@.1 >= 1,
            ;
        }
        let n: i128 = (self.n as i128) * (other.d as i128) - (other.n as i128) * (self.d as i128);
        let d: i128 = (self.d as i128) * (other.d as i128);
        norm128(n, d)
    }

    /// Exact product, `None` when the reduced result leaves the stored range.
    pub fn mul(&self, other: &Rat) -> (r: Option<Rat>)
        requires
            self.wf(),
            other.wf(),
        ensures
            opt_v(r) == mul_n(self@, other@),
            r matches Some(c) ==> c.wf(),
    {
        proof {
            lemma_i64_products_fit(self@.0, other@.0);
            lemma_i64_products_fit(self@.1, other@.1);
            assert(self@.1 * other@.1 >= 1) by (nonlinear_arith)
                requires
                    self@.1 >= 1,
                    other@.1 >= 1,
            ;
        }
        let n: i128 = (self.n as i128) * (other.n as i128);
        let d: i128 = (self.d as i128) * (other.d as i128);
        norm128(n, d)
    }

    /// Exact quotient; `None` on division by zero or when the reduced result
    /// leaves the stored range.
    pub fn div(&self, other: &Rat) -> (r: Option<Rat>)
        requires
            self.wf(),
            other.wf(),
        ensures
            opt_v(r) == div_n(self@, other@),
            r matches Some(c) ==> c.wf(),
    {
        proof {
            lemma_i64_products_fit(self@.0, other@.1);
            lemma_i64_products_fit(self@.1, other@.0);
        }
        if other.n == 0 {
            proof {
                assert(q_div(self@, other@).1 == self@.1 * other@.0 == 0) by (nonlinear_arith)
                    requires
                        other@.0 == 0,
                ;
            }
            None
        } else {
            let n: i128 = (self.n as i128) * (other.d as i128);
            let d: i128 = (self.d as i128) * (other.n as i128);
            proof {
                assert(d != 0) by (nonlinear_arith)
                    requires
                        d == self@.1 * other@.0,
                        self@.1 >= 1,
                        other@.0 != 0,
                ;
            }
            norm128(n, d)
        }
    }
}

// ---------------------------------------------------------------------------
// Square roots.
// ---------------------------------------------------------------------------

/// The integer square root: the unique `r` with `r * r <= x < (r+1) * (r+1)`.
pub open spec fn sqrt_floor(x: nat) -> nat {
    choose|r: nat| #![trigger r * r] r * r <= x < (r + 1) * (r + 1)
}

pub proof fn lemma_sqrt_floor_unique(x: nat, r: nat)
    requires
        r * r <= x,
        x < (r + 1) * (r + 1),
    ensures
        sqrt_floor(x) == r,
{
    assert(r * r <= x < (r + 1) * (r + 1));
    assert(exists|t: nat| #![trigger t * t] t * t <= x < (t + 1) * (t + 1));
    let t = sqrt_floor(x);
    assert(t * t <= x < (t + 1) * (t + 1));
    assert(t == r) by (nonlinear_arith)
        requires
            t * t <= x < (t + 1) * (t + 1),
            r * r <= x < (r + 1) * (r + 1),
    ;
}

/// The coarse reporting grid for square roots: whole ten-thousandths,
/// used when the refined candidate cannot be certified.
pub open spec fn sqrt_scale() -> int {
    10000
}

/// The guaranteed two-sided tolerance of a reported square root.
pub open spec fn sqrt_tol() -> (int, int) {
    (2int, 10000int)
}

/// The denominator-capped refinement of `m / 10^8`: a mediant walk down
/// the tree of fractions until the next mediant's denominator would pass
/// the cap.
pub open spec fn med_walk(ln: int, ld: int, hn: int, hd: int, m: int) -> (int, int, int, int)
    decreases 1601 - ld - hd,
{
    if ld < 1 || hd < 1 || ld + hd > 800 {
        (ln, ld, hn, hd)
    } else {
        let mn = ln + hn;
        let md = ld + hd;
        if mn * 100000000 <= m * md {
            med_walk(mn, md, hn, hd, m)
        } else {
            med_walk(ln, ld, mn, md, m)
        }
    }
}

/// The walk's final bracket side closer to `m / 10^8`.
pub open spec fn med_sel(m: int) -> (int, int) {
    let q = m / 100000000;
    let w = med_walk(q, 1, q + 1, 1, m);
    if (m * w.1 - w.0 * 100000000) * w.3 <= (w.2 * 100000000 - m * w.3) * w.1 {
        (w.0, w.1)
    } else {
        (w.2, w.3)
    }
}

/// Whether the candidate root `rc` is certified against `s`: its square
/// brackets `s` within the tolerance `tl`, every step representable.
pub open spec fn sqrt_check(rc: (int, int), tl: (int, int), s: (int, int)) -> bool {
    match add_n(rc, tl) {
        None => false,
        Some(h) => match mul_n(h, h) {
            None => false,
            Some(h2) => if !q_lt(s, h2) {
                false
            } else if !q_le(tl, rc) {
                true
            } else {
                match sub_n(rc, tl) {
                    None => false,
                    Some(l) => match mul_n(l, l) {
                        None => false,
                        Some(l2) => q_le(l2, s),
                    },
                }
            },
        },
    }
}

/// Mirror of `Rat::sqrt_approx`: the integer square root taken on a
/// hundred-millionths grid, refined to a small-denominator fraction and
/// certified; if certification fails, the ten-thousandths grid value.
pub open spec fn sqrt_n(s: (int, int)) -> (int, int)
    recommends
        q_valid(s),
        s.0 >= 0,
{
    if s.0 == 0 {
        (0int, 1int)
    } else {
        let m = sqrt_floor(((s.0 * 10000000000000000) / s.1) as nat) as int;
        let rc = q_norm(med_sel(m));
        if sqrt_check(rc, q_norm(sqrt_tol()), s) {
            rc
        } else {
            q_norm(
                (sqrt_floor(((s.0 * (sqrt_scale() * sqrt_scale())) / s.1) as nat) as int, sqrt_scale()),
            )
        }
    }
}

/// Fractions within one hundred-thousandth of zero, the engine's
/// approximate-zero threshold.
pub open spec fn q_near_zero(x: (int, int)) -> bool
    recommends
        q_valid(x),
{
    (abs(x.0) as int) * 100000 <= x.1
}

impl Rat {
    /// Whether the scalar lies within the approximate-zero threshold of
    /// one hundred-thousandth.
    pub fn is_approximately_zero(&self) -> (r: bool)
        requires
            self.wf(),
        ensures
            r == q_near_zero(self@),
    {
        let na: i128 = if self.n < 0 {
            -(self.n as i128)
        } else {
            self.n as i128
        };
        na * 100000 <= self.d as i128
    }

    /// Approximate square root of a nonnegative scalar.  The result `r`
    /// satisfies `(r - t)^2 <= self < (r + t)^2` for the tolerance
    /// `t = 2e-4`, is usually far closer (the refined candidate is kept
    /// only when its square is certified to bracket the input), and the
    /// square root of zero is exactly zero.
    pub fn sqrt_approx(&self) -> (r: Rat)
        requires
            self.wf(),
            self@.0 >= 0,
        ensures
            r.wf(),
            r@ == sqrt_n(self@),
            r@.0 >= 0,
            q_lt(self@, q_mul(q_add(r@, sqrt_tol()), q_add(r@, sqrt_tol()))),
            q_le(sqrt_tol(), r@) ==> q_le(
                q_mul(q_sub(r@, sqrt_tol()), q_sub(r@, sqrt_tol())),
                self@,
            ),
            self@.0 == 0 ==> r@ == (0int, 1int),
    {
        if self.n == 0 {
            let z = Rat::zero();
            proof {
                assert(q_add(z@, sqrt_tol()) == (2int, 10000int));
                assert(q_mul((2int, 10000int), (2int, 10000int)) == (4int, 100000000int));
                assert(self@.0 * 100000000 == 0);
                assert(4 * self@.1 >= 4);
                assert(q_lt(self@, (4int, 100000000int)));
                assert(!q_le(sqrt_tol(), z@));
            }
            return z;
        }
        // Fine root on the hundred-millionths grid.
        let x: u128 = ((self.n as u128) * 10000000000000000) / (self.d as u128);
        proof {
            let big: int = (self.n as int) * 10000000000000000;
            assert(0 <= big < 0x200000000000000000000000000000int);
            lemma_fundamental_div_mod(big, self@.1);
            lemma_div_floor_le(big, self@.1, x as int, big % self@.1);
        }
        let m = isqrt_u128(x);
        proof {
            lemma_sqrt_floor_unique(x as nat, m as nat);
            lemma_sq_root_bound(m as int, x as int, 0x7FF_FFFF_FFFF_FFFF);
        }
        // Refine to a small denominator and certify the result.
        let sel = refine_den(m);
        let cand = Rat::new(sel.0, sel.1);
        proof {
            lemma_norm_nonneg((sel.0 as int, sel.1 as int));
        }
        let tol = Rat::new(2, 10000);
        if bracket_ok(&cand, &tol, self) {
            proof {
                lemma_sqrt_pass_bounds(cand@, tol@, self@);
            }
            cand
        } else {
            // Fall back to the coarse grid, whose bracket is proved
            // directly.
            let x4: u128 = ((self.n as u128) * 100000000) / (self.d as u128);
            proof {
                let big4: int = (self.n as int) * 100000000;
                assert(0 <= big4 < 0x80_0000_0000_0000_0000_0000_0000);
                lemma_fundamental_div_mod(big4, self@.1);
                lemma_div_floor_le(big4, self@.1, x4 as int, big4 % self@.1);
            }
            let m4 = isqrt_u128(x4);
            proof {
                lemma_sqrt_floor_unique(x4 as nat, m4 as nat);
                lemma_sq_root_bound(m4 as int, x4 as int, 0x10_0000_0000_0000);
                lemma_norm_small((m4 as int, sqrt_scale()));
                lemma_norm_eqv((m4 as int, sqrt_scale()));
                lemma_norm_valid((m4 as int, sqrt_scale()));
            }
            let r = match norm128(m4 as i128, 10000i128) {
                Some(c) => c,
                None => {
                    proof {
                        assert(false);
                    }
                    Rat { n: 0, d: 1 }
                },
            };
            proof {
                lemma_sqrt_bounds(self@, m4 as int, r@);
                if q_le(sqrt_tol(), r@) {
                    lemma_tol_lower(r@, self@);
                }
            }
            r
        }
    }
}

/// Walk the mediants below the fine root and keep the closer side of the
/// final bracket.
fn refine_den(m: u128) -> (sel: (i64, i64))
    requires
        m < 0x800_0000_0000_0000,
    ensures
        (sel.0 as int, sel.1 as int) == med_sel(m as int),
        sel.1 >= 1,
        sel.0 >= 0,
{
    let q: u128 = m / 100000000;
    proof {
        vstd::arithmetic::div_mod::lemma_div_is_ordered(
            m as int,
            0x7FF_FFFF_FFFF_FFFFint,
            100000000,
        );
        assert(0x7FF_FFFF_FFFF_FFFFint / 100000000int == 5764607523int);
    }
    let mut ln: u128 = q;
    let mut ld: u128 = 1;
    let mut hn: u128 = q + 1;
    let mut hd: u128 = 1;
    while ld + hd <= 800
        invariant
            m < 0x800_0000_0000_0000,
            q == m / 100000000,
            q <= 5764607523,
            1 <= ld <= 800,
            1 <= hd <= 800,
            ln <= (q + 1) * ld,
            hn <= (q + 1) * hd,
            med_walk(q as int, 1, q as int + 1, 1, m as int) == med_walk(
                ln as int,
                ld as int,
                hn as int,
                hd as int,
                m as int,
            ),
        decreases 1601 - ld - hd,
    {
        proof {
            assert((q + 1) * ld <= (q + 1) * 800 && (q + 1) * hd <= (q + 1) * 800)
                by (nonlinear_arith)
                requires
                    1 <= ld <= 800,
                    1 <= hd <= 800,
                    ln <= (q + 1) * ld,
                    hn <= (q + 1) * hd,
                    q >= 0,
            ;
            assert((q + 1) * 800 < 0x4000_0000_0000_0000) by (nonlinear_arith)
                requires
                    q <= 5764607523,
            ;
            lemma_mul_bounds_pos(m as int, (ld + hd) as int, 0x800_0000_0000_0000, 1600);
        }
        let mn = ln + hn;
        let md = ld + hd;
        proof {
            assert((mn as int) <= (q as int + 1) * (md as int)) by (nonlinear_arith)
                requires
                    ln as int <= (q as int + 1) * (ld as int),
                    hn as int <= (q as int + 1) * (hd as int),
                    mn as int == ln as int + hn as int,
                    md as int == ld as int + hd as int,
            ;
        }
        if mn * 100000000 <= m * md {
            ln = mn;
            ld = md;
        } else {
            hn = mn;
            hd = md;
        }
    }
    proof {
        assert(ln < 0x4000_0000_0000_0000 && hn < 0x4000_0000_0000_0000) by (nonlinear_arith)
            requires
                ln <= (q + 1) * ld,
                hn <= (q + 1) * hd,
                1 <= ld <= 800,
                1 <= hd <= 800,
                q <= 5764607523,
        ;
    }
    proof {
        lemma_mul_bounds_pos(m as int, ld as int, 0x800_0000_0000_0000, 800);
        lemma_mul_bounds_pos(m as int, hd as int, 0x800_0000_0000_0000, 800);
    }
    let d1: i128 = (m as i128) * (ld as i128) - (ln as i128) * 100000000;
    let d2: i128 = (hn as i128) * 100000000 - (m as i128) * (hd as i128);
    proof {
        lemma_mul_abs_bound(d1 as int, hd as int, 0x2000_0000_0000_0000_0000_0000, 800);
        lemma_mul_abs_bound(d2 as int, ld as int, 0x2000_0000_0000_0000_0000_0000, 800);
    }
    if d1 * (hd as i128) <= d2 * (ld as i128) {
        (ln as i64, ld as i64)
    } else {
        (hn as i64, hd as i64)
    }
}

/// Certify the candidate root against the input, exactly as the mirror
/// `sqrt_check` states.
fn bracket_ok(cand: &Rat, tol: &Rat, s: &Rat) -> (ok: bool)
    requires
        cand.wf(),
        tol.wf(),
        s.wf(),
    ensures
        ok == sqrt_check(cand@, tol@, s@),
{
    match cand.add(tol) {
        None => false,
        Some(hb) => match hb.mul(&hb) {
            None => false,
            Some(h2) => if !s.lt(&h2) {
                false
            } else if !tol.le(cand) {
                true
            } else {
                match cand.sub(tol) {
                    None => false,
                    Some(lb) => match lb.mul(&lb) {
                        None => false,
                        Some(l2) => l2.le(s),
                    },
                }
            },
        },
    }
}

/// A certified candidate satisfies the two-sided tolerance stated by
/// `sqrt_approx`.
proof fn lemma_sqrt_pass_bounds(rc: (int, int), tlv: (int, int), s: (int, int))
    requires
        q_valid(rc),
        q_valid(s),
        tlv == q_norm(sqrt_tol()),
        sqrt_check(rc, tlv, s),
    ensures
        q_lt(s, q_mul(q_add(rc, sqrt_tol()), q_add(rc, sqrt_tol()))),
        q_le(sqrt_tol(), rc) ==> q_le(q_mul(q_sub(rc, sqrt_tol()), q_sub(rc, sqrt_tol())), s),
{
    let tp = sqrt_tol();
    lemma_norm_eqv(tp);
    lemma_norm_valid(tp);
    let h = add_n(rc, tlv).unwrap();
    let h2 = mul_n(h, h).unwrap();
    lemma_norm_valid(q_add(rc, tlv));
    lemma_norm_valid(q_mul(h, h));
    assert(q_add(rc, tlv).1 >= 1 && q_add(rc, tp).1 >= 1 && q_mul(h, h).1 >= 1)
        by (nonlinear_arith)
        requires
            rc.1 >= 1,
            tlv.1 >= 1,
            tp.1 >= 1,
            h.1 >= 1,
    ;
    lemma_norm_eqv(q_add(rc, tlv));
    lemma_add_congr_right(rc, tlv, tp);
    lemma_eqv_trans(h, q_add(rc, tlv), q_add(rc, tp));
    assert((h.0 * q_add(rc, tp).1) * (h.0 * q_add(rc, tp).1) == (q_add(rc, tp).0 * h.1) * (q_add(
        rc,
        tp,
    ).0 * h.1));
    lemma_mul_self_congr(h, q_add(rc, tp));
    lemma_norm_eqv(q_mul(h, h));
    assert(q_mul(q_add(rc, tp), q_add(rc, tp)).1 >= 1) by (nonlinear_arith)
        requires
            q_add(rc, tp).1 >= 1,
    ;
    lemma_eqv_trans(h2, q_mul(h, h), q_mul(q_add(rc, tp), q_add(rc, tp)));
    lemma_cmp_congr(h2, q_mul(q_add(rc, tp), q_add(rc, tp)), s);
    assert(q_lt(s, q_mul(q_add(rc, tp), q_add(rc, tp))));
    if q_le(tp, rc) {
        lemma_cmp_congr(tlv, tp, rc);
        assert(q_le(tlv, rc));
        let l = sub_n(rc, tlv).unwrap();
        let l2 = mul_n(l, l).unwrap();
        lemma_norm_valid(q_sub(rc, tlv));
        assert(q_sub(rc, tlv).1 >= 1 && q_sub(rc, tp).1 >= 1 && q_mul(l, l).1 >= 1)
            by (nonlinear_arith)
            requires
                rc.1 >= 1,
                tlv.1 >= 1,
                tp.1 >= 1,
                l.1 >= 1,
        ;
        lemma_norm_eqv(q_sub(rc, tlv));
        lemma_sub_congr_right(rc, tlv, tp);
        lemma_eqv_trans(l, q_sub(rc, tlv), q_sub(rc, tp));
        assert((l.0 * q_sub(rc, tp).1) * (l.0 * q_sub(rc, tp).1) == (q_sub(rc, tp).0 * l.1) * (
        q_sub(rc, tp).0 * l.1));
        lemma_mul_self_congr(l, q_sub(rc, tp));
        lemma_norm_eqv(q_mul(l, l));
        assert(q_mul(q_sub(rc, tp), q_sub(rc, tp)).1 >= 1) by (nonlinear_arith)
            requires
                q_sub(rc, tp).1 >= 1,
        ;
        lemma_eqv_trans(l2, q_mul(l, l), q_mul(q_sub(rc, tp), q_sub(rc, tp)));
        lemma_cmp_congr(l2, q_mul(q_sub(rc, tp), q_sub(rc, tp)), s);
        assert(q_le(q_mul(q_sub(rc, tp), q_sub(rc, tp)), s));
    }
}

/// A coarse-grid root at least the tolerance above zero keeps its lower
/// bracket: `(v - t)^2 <= v^2 <= s`.
proof fn lemma_tol_lower(v: (int, int), s: (int, int))
    requires
        q_valid(v),
        q_valid(s),
        v.0 >= 0,
        s.0 >= 0,
        q_le(q_mul(v, v), s),
        q_le(sqrt_tol(), v),
    ensures
        q_le(q_mul(q_sub(v, sqrt_tol()), q_sub(v, sqrt_tol())), s),
{
    let u = v.0 * 10000 - 2 * v.1;
    assert(q_sub(v, sqrt_tol()) == (u, v.1 * 10000int));
    assert(u * u * s.1 <= s.0 * ((v.1 * 10000) * (v.1 * 10000))) by (nonlinear_arith)
        requires
            0 <= u <= v.0 * 10000,
            v.0 * v.0 * s.1 <= s.0 * (v.1 * v.1),
            v.1 >= 1,
            s.1 >= 1,
            s.0 >= 0,
    ;
}

// ---------------------------------------------------------------------------
// Congruences of fraction arithmetic under equivalence.
// ---------------------------------------------------------------------------

/// Equivalence of valid fractions is transitive.
pub proof fn lemma_eqv_trans(x: (int, int), y: (int, int), z: (int, int)) by (nonlinear_arith)
    requires
        x.1 >= 1,
        y.1 >= 1,
        z.1 >= 1,
        x.0 * y.1 == y.0 * x.1,
        y.0 * z.1 == z.0 * y.1,
    ensures
        x.0 * z.1 == z.0 * x.1,
{
}

/// Adding equivalent fractions gives equivalent sums.
pub proof fn lemma_add_congr_right(a: (int, int), t: (int, int), t2: (int, int))
    by (nonlinear_arith)
    requires
        a.1 >= 1,
        t.1 >= 1,
        t2.1 >= 1,
        t.0 * t2.1 == t2.0 * t.1,
    ensures
        (a.0 * t.1 + t.0 * a.1) * (a.1 * t2.1) == (a.0 * t2.1 + t2.0 * a.1) * (a.1 * t.1),
{
}

/// Subtracting equivalent fractions gives equivalent differences.
pub proof fn lemma_sub_congr_right(a: (int, int), t: (int, int), t2: (int, int))
    by (nonlinear_arith)
    requires
        a.1 >= 1,
        t.1 >= 1,
        t2.1 >= 1,
        t.0 * t2.1 == t2.0 * t.1,
    ensures
        (a.0 * t.1 - t.0 * a.1) * (a.1 * t2.1) == (a.0 * t2.1 - t2.0 * a.1) * (a.1 * t.1),
{
}

/// Squaring equivalent fractions gives equivalent squares.
pub proof fn lemma_mul_self_congr(h: (int, int), a: (int, int)) by (nonlinear_arith)
    requires
        h.1 >= 1,
        a.1 >= 1,
        h.0 * a.1 == a.0 * h.1,
        (h.0 * a.1) * (h.0 * a.1) == (a.0 * h.1) * (a.0 * h.1),
    ensures
        (h.0 * h.0) * (a.1 * a.1) == (a.0 * a.0) * (h.1 * h.1),
{
}

/// Comparisons are unchanged when one side is replaced by an equivalent
/// fraction.
pub proof fn lemma_cmp_congr(x: (int, int), x2: (int, int), y: (int, int)) by (nonlinear_arith)
    requires
        x.1 >= 1,
        x2.1 >= 1,
        y.1 >= 1,
        x.0 * x2.1 == x2.0 * x.1,
    ensures
        (x.0 * y.1 < y.0 * x.1) == (x2.0 * y.1 < y.0 * x2.1),
        (x.0 * y.1 <= y.0 * x.1) == (x2.0 * y.1 <= y.0 * x2.1),
        (y.0 * x.1 < x.0 * y.1) == (y.0 * x2.1 < x2.0 * y.1),
        (y.0 * x.1 <= x.0 * y.1) == (y.0 * x2.1 <= x2.0 * y.1),
{
}

/// The reported square root brackets the input as its contract states.
proof fn lemma_sqrt_bounds(s: (int, int), m: int, v: (int, int))
    requires
        q_valid(s),
        s.0 >= 0,
        m >= 0,
        m * m <= (s.0 * (sqrt_scale() * sqrt_scale())) / s.1,
        (s.0 * (sqrt_scale() * sqrt_scale())) / s.1 < (m + 1) * (m + 1),
        v == q_norm((m, sqrt_scale())),
    ensures
        v.0 >= 0,
        q_valid(v),
        q_le(q_mul(v, v), s),
        q_lt(s, q_mul(q_add(v, (2int, sqrt_scale())), q_add(v, (2int, sqrt_scale())))),
        s.0 == 0 ==> v == (0int, 1int),
{
    let k = sqrt_scale();
    let x = (s.0 * (k * k)) / s.1;
    lemma_fundamental_div_mod(s.0 * (k * k), s.1);
    let rem = (s.0 * (k * k)) % s.1;
    lemma_norm_valid((m, k));
    let na = abs(m);
    let da = abs(k);
    lemma_gcd_divides(na, da);
    let g = gcd(na, da) as int;
    lemma_fundamental_div_mod(na as int, g);
    lemma_fundamental_div_mod(da as int, g);
    assert(v == ((na as int) / g, (da as int) / g));
    let v0 = v.0;
    let v1 = v.1;
    assert(m == g * v0 && k == g * v1) by {
        assert(na as int == m && da as int == k);
    }
    // Lower bound: v0^2 * s.1 <= s.0 * v1^2.
    assert(q_le(q_mul(v, v), s)) by (nonlinear_arith)
        requires
            m == g * v0,
            k == g * v1,
            g >= 1,
            v0 >= 0,
            v1 >= 1,
            s.1 >= 1,
            m * m <= x,
            s.0 * (k * k) == s.1 * x + rem,
            rem >= 0,
            q_le(q_mul(v, v), s) == ((v0 * v0) * s.1 <= s.0 * (v1 * v1)),
    ;
    // Upper bound: s.0 * (v1*k)^2 < (v0*k + 2*v1)^2 * s.1.
    assert(s.0 * (k * k) < s.1 * ((m + 1) * (m + 1))) by (nonlinear_arith)
        requires
            s.1 >= 1,
            x < (m + 1) * (m + 1),
            s.0 * (k * k) == s.1 * x + rem,
            rem < s.1,
    ;
    assert((m + 1) * v1 <= v0 * k + 2 * v1) by (nonlinear_arith)
        requires
            m == g * v0,
            k == g * v1,
            v1 >= 1,
    ;
    assert(s.0 * ((v1 * k) * (v1 * k)) < ((v0 * k + 2 * v1) * (v0 * k + 2 * v1)) * s.1)
        by (nonlinear_arith)
        requires
            s.0 * (k * k) < s.1 * ((m + 1) * (m + 1)),
            (m + 1) * v1 <= v0 * k + 2 * v1,
            m >= 0,
            v1 >= 1,
            v0 >= 0,
            k >= 1,
            g >= 1,
            s.1 >= 1,
            s.0 >= 0,
    ;
    assert(q_lt(s, q_mul(q_add(v, (2int, k)), q_add(v, (2int, k)))));
    if s.0 == 0 {
        assert(x >= 0) by (nonlinear_arith)
            requires
                s.1 * x + rem == s.0 * (k * k),
                s.0 == 0,
                s.1 >= 1,
                rem >= 0,
                rem < s.1,
        ;
        assert(x == 0) by (nonlinear_arith)
            requires
                s.0 == 0,
                s.1 >= 1,
                s.1 * x + rem == s.0 * (k * k),
                rem >= 0,
                x >= 0,
        ;
        assert(m == 0) by (nonlinear_arith)
            requires
                m >= 0,
                m * m <= x,
                x == 0,
        ;
        assert(na == 0);
        assert(da == 10000);
        assert(0nat % 10000nat == 0nat);
        assert(gcd(0, 10000) == gcd(10000, 0));
        assert(gcd(10000, 0) == 10000);
        assert(g == 10000);
        assert(v.0 == 0int / 10000int);
        assert(v.1 == 10000int / 10000int);
        assert(v == (0int, 1int));
    }
}

fn isqrt_u128(x: u128) -> (r: u128)
    requires
        x < 0x400000000000000000000000000000,
    ensures
        (r as int) * (r as int) <= x as int,
        (x as int) < (r as int + 1) * (r as int + 1),
{
    proof {
        assert((0x800_0000_0000_0000int) * 0x800_0000_0000_0000
            == 0x400000000000000000000000000000int);
    }
    if x == 0 {
        return 0;
    }
    let mut lo: u128 = 0;
    let mut hi: u128 = 0x800_0000_0000_0000;
    while lo + 1 < hi
        invariant
            lo < hi,
            hi <= 0x800_0000_0000_0000,
            (lo as int) * (lo as int) <= x as int,
            (x as int) < (hi as int) * (hi as int),
        decreases hi - lo,
    {
        let mid = lo + (hi - lo) / 2;
        proof {
            lemma_mul_bounds_pos(
                mid as int,
                mid as int,
                0x800_0000_0000_0000,
                0x800_0000_0000_0000,
            );
        }
        if mid * mid <= x {
            lo = mid;
        } else {
            hi = mid;
        }
    }
    lo
}

// ---------------------------------------------------------------------------
// Internal machinery.
// ---------------------------------------------------------------------------

/// A Euclidean quotient of a nonnegative number is no larger than it.
proof fn lemma_div_floor_le(a: int, b: int, q: int, r: int) by (nonlinear_arith)
    requires
        b >= 1,
        a >= 0,
        q >= 0,
        r >= 0,
        a == b * q + r,
    ensures
        q <= a,
{
}

/// A nonnegative number whose square is below `c * c` is below `c`.
proof fn lemma_sq_root_bound(m: int, x: int, c: int) by (nonlinear_arith)
    requires
        m >= 0,
        c >= 1,
        m * m <= x,
        x < c * c,
    ensures
        m <= c,
{
}

/// Bounds of a product with a signed left factor.
proof fn lemma_mul_abs_bound(x: int, y: int, bx: int, by: int) by (nonlinear_arith)
    requires
        -bx <= x <= bx,
        0 <= y <= by,
        0 <= bx,
        0 <= by,
    ensures
        -(bx * by) <= x * y <= bx * by,
{
}

/// Bounds of a product of nonnegative numbers.
proof fn lemma_mul_bounds_pos(a: int, b: int, ca: int, cb: int) by (nonlinear_arith)
    requires
        0 <= a <= ca,
        0 <= b <= cb,
    ensures
        0 <= a * b <= ca * cb,
{
}

/// Products of two stored components stay well inside the `i128` range.
proof fn lemma_i64_products_fit(x: int, y: int) by (nonlinear_arith)
    requires
        -(i64::MAX as int) <= x <= i64::MAX as int,
        -(i64::MAX as int) <= y <= i64::MAX as int,
    ensures
        -0x4000_0000_0000_0000_0000_0000_0000_0000 < x * y
            < 0x4000_0000_0000_0000_0000_0000_0000_0000,
{
}

fn gcd_u128(a0: u128, b0: u128) -> (g: u128)
    ensures
        g as nat == gcd(a0 as nat, b0 as nat),
{
    let mut a = a0;
    let mut b = b0;
    while b != 0
        invariant
            gcd(a as nat, b as nat) == gcd(a0 as nat, b0 as nat),
        decreases b,
    {
        let r = a % b;
        a = b;
        b = r;
    }
    a
}

/// Reduce an exact `i128` fraction to lowest terms and store it, reporting
/// `None` exactly when the reduced form does not fit.
fn norm128(n: i128, d: i128) -> (r: Option<Rat>)
    requires
        d != 0,
        n > i128::MIN,
        d > i128::MIN,
    ensures
        opt_v(r) == q_norm_opt((n as int, d as int)),
        r matches Some(c) ==> c.wf(),
{
    let na: u128 = if n < 0 {
        (-n) as u128
    } else {
        n as u128
    };
    let da: u128 = if d < 0 {
        (-d) as u128
    } else {
        d as u128
    };
    let g = gcd_u128(na, da);
    proof {
        lemma_gcd_divides(na as nat, da as nat);
        lemma_fundamental_div_mod(na as int, g as int);
        lemma_fundamental_div_mod(da as int, g as int);
    }
    let nn = na / g;
    let dd = da / g;
    proof {
        assert(dd >= 1) by (nonlinear_arith)
            requires
                da as int == (g as int) * (dd as int) + 0,
                da >= 1,
                g >= 1,
                dd >= 0,
        ;
    }
    if nn > (i64::MAX as u128) || dd > (i64::MAX as u128) {
        None
    } else {
        let neg = (n < 0) != (d < 0);
        let num: i64 = if neg {
            -(nn as i64)
        } else {
            nn as i64
        };
        Some(Rat { n: num, d: dd as i64 })
    }
}

} // verus!
