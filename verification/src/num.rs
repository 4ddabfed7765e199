//! Fixed-point real numbers.
//!
//! Every quantity in the model (coefficients, constants, solution values)
//! is a real number held in fixed-point form: an `i64` count of millionths.
//! Arithmetic is exact: an operation whose true result does not lie on the
//! millionth grid, or does not fit in the `i64` range, reports failure
//! instead of rounding.

use vstd::prelude::*;

verus! {

/// Fixed-point scale: `Num` units per whole unit.
pub const SCALE: i64 = 1_000_000;

/// A real number as a signed count of millionths.
#[derive(Clone, Copy, Debug, PartialEq, Eq, Structural, Hash)]
pub struct Num {
    pub units: i64,
}

/// Absolute value.
pub open spec fn abs_int(x: int) -> nat {
    if x >= 0 {
        x as nat
    } else {
        (-x) as nat
    }
}

/// An exact fixed-point product, scaled back up, is the plain product.
pub proof fn lemma_exact_mul_value(a: int, b: int, q: int)
    requires
        spec_exact_mul(a, b) == Some(q),
    ensures
        q * (SCALE as int) == a * b,
{
    let s = SCALE as int;
    let p = a * b;
    vstd::arithmetic::div_mod::lemma_fundamental_div_mod(p, s);
    assert(p == s * (p / s) + p % s);
    assert(q * s == s * q) by (nonlinear_arith);
}

/// The magnitude of a product is the product of the magnitudes.
pub proof fn lemma_abs_mul(a: int, b: int)
    ensures
        abs_int(a * b) == abs_int(a) * abs_int(b),
{
    assert(abs_int(a * b) == abs_int(a) * abs_int(b)) by (nonlinear_arith);
}

/// Exact fixed-point product of two unit counts: `a * b / SCALE` when that
/// is an integer in `i64` range, `None` otherwise.
pub open spec fn spec_exact_mul(a: int, b: int) -> Option<int> {
    let p = a * b;
    if p % (SCALE as int) == 0 {
        let q = p / (SCALE as int);
        if i64::MIN <= q <= i64::MAX {
            Some(q)
        } else {
            None
        }
    } else {
        None
    }
}

impl View for Num {
    type V = int;

    open spec fn view(&self) -> int {
        self.units as int
    }
}

impl DeepView for Num {
    type V = int;

    open spec fn deep_view(&self) -> int {
        self.units as int
    }
}

impl Num {
    /// The number `u / SCALE`.
    pub fn from_units(u: i64) -> (r: Num)
        ensures
            r.units == u,
    {
        Num { units: u }
    }

    /// The whole number `i`, when it is representable.
    pub fn from_int(i: i64) -> (r: Option<Num>)
        ensures
            match r {
                Some(n) => n.units == i * SCALE,
                None => !(i64::MIN <= i * SCALE <= i64::MAX),
            },
    {
        match i.checked_mul(SCALE) {
            Some(u) => Some(Num { units: u }),
            None => None,
        }
    }

    /// Zero.
    pub fn zero() -> (r: Num)
        ensures
            r.units == 0,
    {
        Num { units: 0 }
    }

    /// Exact sum, `None` on `i64` overflow.
    pub fn checked_add(self, o: Num) -> (r: Option<Num>)
        ensures
            match r {
                Some(n) => n.units == self.units + o.units,
                None => !(i64::MIN <= self.units + o.units <= i64::MAX),
            },
    {
        match self.units.checked_add(o.units) {
            Some(u) => Some(Num { units: u }),
            None => None,
        }
    }

    /// Exact negation, `None` on `i64` overflow.
    pub fn checked_neg(self) -> (r: Option<Num>)
        ensures
            match r {
                Some(n) => n.units == -(self.units as int),
                None => !(i64::MIN <= -(self.units as int) <= i64::MAX),
            },
    {
        if self.units == i64::MIN {
            None
        } else {
            Some(Num { units: -self.units })
        }
    }

    /// Exact product, `None` when the true product leaves the millionth
    /// grid or the `i64` range.
    pub fn exact_mul(self, o: Num) -> (r: Option<Num>)
        ensures
            match r {
                Some(n) => spec_exact_mul(self.units as int, o.units as int) == Some(n.units as int),
                None => spec_exact_mul(self.units as int, o.units as int) is None,
            },
    {
        let a: i128 = self.units as i128;
        let b: i128 = o.units as i128;
        proof {
            assert(-0x8000_0000_0000_0000_0000_0000_0000_0000 <= a * b
                < 0x8000_0000_0000_0000_0000_0000_0000_0000) by (nonlinear_arith)
                requires
                    -0x8000_0000_0000_0000 <= a <= 0x7FFF_FFFF_FFFF_FFFF,
                    -0x8000_0000_0000_0000 <= b <= 0x7FFF_FFFF_FFFF_FFFF,
            ;
        }
        let p: i128 = a * b;
        let neg: bool = p < 0;
        let mag: u128 = if p < 0 {
            proof {
                assert(-p <= 0x8000_0000_0000_0000_0000_0000_0000_0000);
            }
            (-(p as i128 + 1)) as u128 + 1
        } else {
            p as u128
        };
        let q: u128 = mag / 1_000_000;
        let rem: u128 = mag % 1_000_000;
        proof {
            lemma_mag_div(p as int, mag as int, q as int, rem as int, neg);
        }
        if rem != 0 {
            return None;
        }
        if neg {
            if q > 0x8000_0000_0000_0000u128 {
                return None;
            }
            if q == 0x8000_0000_0000_0000u128 {
                return Some(Num { units: i64::MIN });
            }
            Some(Num { units: -(q as i64) })
        } else {
            if q > i64::MAX as u128 {
                return None;
            }
            Some(Num { units: q as i64 })
        }
    }
}

/// Relates truncating magnitude division to Euclidean division of the
/// signed value: when the remainder is zero the signed quotient is exact.
proof fn lemma_mag_div(p: int, mag: int, q: int, rem: int, neg: bool)
    requires
        neg ==> p < 0 && mag == -p,
        !neg ==> p >= 0 && mag == p,
        q == mag / (SCALE as int),
        rem == mag % (SCALE as int),
    ensures
        rem == 0 ==> p % (SCALE as int) == 0,
        rem == 0 && !neg ==> p / (SCALE as int) == q,
        rem == 0 && neg ==> p / (SCALE as int) == -q,
        rem != 0 ==> p % (SCALE as int) != 0,
{
    let s = SCALE as int;
    assert(mag == q * s + rem) by (nonlinear_arith)
        requires
            q == mag / s,
            rem == mag % s,
            s == 1_000_000,
            mag >= 0,
    ;
    if rem == 0 {
        if neg {
            assert(p == (-q) * s) by (nonlinear_arith)
                requires
                    mag == q * s,
                    p == -mag,
            ;
            assert(p % s == 0 && p / s == -q) by (nonlinear_arith)
                requires
                    p == (-q) * s,
                    s == 1_000_000,
            ;
        } else {
            assert(p % s == 0 && p / s == q) by (nonlinear_arith)
                requires
                    p == q * s,
                    s == 1_000_000,
            ;
        }
    } else {
        assert(p % s != 0) by (nonlinear_arith)
            requires
                neg ==> p == -mag,
                !neg ==> p == mag,
                mag == q * s + rem,
                0 < rem < s,
                s == 1_000_000,
                q >= 0,
                mag >= 0,
        ;
    }
}

} // verus!
