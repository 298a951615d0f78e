//! The numeric capability traits of the engine: absolute value, rounding
//! and integer powers, with the engine's scalar kinds as instances.
//!
//! Integer scalars carry `Abs`; the exact rational scalar carries the full
//! real-number capability set (powers are restricted to integer exponents,
//! since general exponentials have no exact rational value).

use vstd::prelude::*;

verus! {

use crate::linalg::q_recip;
use crate::rat::Rat;
use crate::rat::mul_n;
use crate::rat::opt_v;
use crate::rat::q_abs;
use crate::rat::q_round;

/// Absolute value.
pub trait Abs: Sized {
    spec fn abs_req(&self) -> bool;

    spec fn abs_spec(&self, r: Self) -> bool;

    fn abs(&self) -> (r: Self)
        requires
            self.abs_req(),
        ensures
            self.abs_spec(r),
    ;
}

impl Abs for i32 {
    open spec fn abs_req(&self) -> bool {
        *self > i32::MIN
    }

    open spec fn abs_spec(&self, r: i32) -> bool {
        r as int == vstd::math::abs(*self as int)
    }

    fn abs(&self) -> (r: i32) {
        if *self < 0 {
            -*self
        } else {
            *self
        }
    }
}

impl Abs for i64 {
    open spec fn abs_req(&self) -> bool {
        *self > i64::MIN
    }

    open spec fn abs_spec(&self, r: i64) -> bool {
        r as int == vstd::math::abs(*self as int)
    }

    fn abs(&self) -> (r: i64) {
        if *self < 0 {
            -*self
        } else {
            *self
        }
    }
}

impl Abs for Rat {
    open spec fn abs_req(&self) -> bool {
        self.wf()
    }

    open spec fn abs_spec(&self, r: Rat) -> bool {
        r.wf() && r@ == q_abs(self@)
    }

    fn abs(&self) -> (r: Rat) {
        self.abs_val()
    }
}

/// Rounding to the nearest integer.
pub trait Round: Sized {
    spec fn round_req(&self) -> bool;

    spec fn round_spec(&self, r: Self) -> bool;

    fn round(&self) -> (r: Self)
        requires
            self.round_req(),
        ensures
            self.round_spec(r),
    ;
}

impl Round for Rat {
    open spec fn round_req(&self) -> bool {
        self.wf()
    }

    open spec fn round_spec(&self, r: Rat) -> bool {
        r.wf() && r@ == (q_round(self@), 1int)
    }

    fn round(&self) -> (r: Rat) {
        Rat::round(self)
    }
}

/// Iterated product of `k` copies of `x`.
pub open spec fn pos_pow_n(x: (int, int), k: nat) -> Option<(int, int)>
    decreases k,
{
    if k == 0 {
        Some((1int, 1int))
    } else {
        match pos_pow_n(x, (k - 1) as nat) {
            None => None,
            Some(s) => mul_n(s, x),
        }
    }
}

proof fn lemma_pos_pow_none(x: (int, int), k: nat, kk: nat)
    requires
        k <= kk,
        pos_pow_n(x, k) is None,
    ensures
        pos_pow_n(x, kk) is None,
    decreases kk,
{
    if kk > k {
        lemma_pos_pow_none(x, k, (kk - 1) as nat);
    }
}

/// Mirror of `powi`: nonnegative exponents iterate the product, negative
/// exponents iterate the reciprocal (none exists for zero).
pub open spec fn pow_n(x: (int, int), exp: int) -> Option<(int, int)> {
    if exp >= 0 {
        pos_pow_n(x, exp as nat)
    } else if x.0 == 0 {
        None
    } else {
        pos_pow_n(q_recip(x), (-exp) as nat)
    }
}

/// Integer powers.
pub trait Power: Sized {
    spec fn powi_req(&self) -> bool;

    spec fn powi_spec(&self, exp: i32, r: Option<Self>) -> bool;

    fn powi(&self, exp: i32) -> (r: Option<Self>)
        requires
            self.powi_req(),
        ensures
            self.powi_spec(exp, r),
    ;
}

impl Power for Rat {
    open spec fn powi_req(&self) -> bool {
        self.wf()
    }

    open spec fn powi_spec(&self, exp: i32, r: Option<Rat>) -> bool {
        opt_v(r) == pow_n(self@, exp as int) && (r matches Some(c) ==> c.wf())
    }

    fn powi(&self, exp: i32) -> (r: Option<Rat>) {
        let neg = exp < 0;
        let mag: u64 = if exp < 0 {
            (-(exp as i64)) as u64
        } else {
            exp as u64
        };
        let base = if neg {
            if self.is_zero() {
                return None;
            }
            self.recip()
        } else {
            *self
        };
        proof {
            assert(base@ == if neg {
                q_recip(self@)
            } else {
                self@
            });
        }
        let mut acc = Rat::one();
        let mut t: u64 = 0;
        while t < mag
            invariant
                t <= mag,
                acc.wf(),
                base.wf(),
                self.wf(),
                neg == (exp < 0),
                mag as int == if exp < 0 {
                    -(exp as int)
                } else {
                    exp as int
                },
                base@ == if neg {
                    q_recip(self@)
                } else {
                    self@
                },
                pos_pow_n(base@, t as nat) == Some(acc@),
            decreases mag - t,
        {
            acc = match acc.mul(&base) {
                Some(v) => v,
                None => {
                    proof {
                        assert(pos_pow_n(base@, (t + 1) as nat) is None);
                        lemma_pos_pow_none(base@, (t + 1) as nat, mag as nat);
                        if exp >= 0 {
                            assert(mag as nat == exp as nat);
                        } else {
                            assert(mag as nat == (-(exp as int)) as nat);
                        }
                        assert(pow_n(self@, exp as int) is None);
                    }
                    return None;
                },
            };
            t += 1;
        }
        Some(acc)
    }
}

/// An integer scalar kind.
pub trait Integer: Abs {

}

impl Integer for i32 {

}

impl Integer for i64 {

}

/// A real scalar kind: absolute value, rounding and integer powers.
pub trait Real: Abs + Round + Power {

}

impl Real for Rat {

}

} // verus!
