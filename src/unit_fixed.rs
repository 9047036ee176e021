//! Fractions in [0, 1] held as 32-bit fixed-point numbers.
use vstd::arithmetic::div_mod::{lemma_div_is_ordered, lemma_fundamental_div_mod, lemma_mod_pos_bound};
use vstd::prelude::*;

verus! {

/// The largest fixed-point value; it stands for 1.
pub const UNIT_MAX: u32 = 0xFFFF_FFFF;

/// The fixed-point value of the fraction `num / den` (with `den > 0`): 0 at or
/// below 0, `UNIT_MAX` at or above 1, and `num * UNIT_MAX / den` rounded down
/// in between.
pub open spec fn fixed_of_ratio(num: int, den: int) -> int {
    if num <= 0 {
        0
    } else if num >= den {
        UNIT_MAX as int
    } else {
        (num * UNIT_MAX) / den
    }
}

/// A number in [0, 1] as a 32-bit integer `u`, standing for `u / UNIT_MAX`.
#[derive(Debug, Copy, Clone, PartialEq, Eq, PartialOrd, Ord, Hash, Structural)]
pub struct UnitFixedPoint(pub u32);

impl UnitFixedPoint {
    /// The fixed-point value given by its raw integer.
    pub fn from_raw(v: u32) -> (r: UnitFixedPoint)
        ensures
            r.0 == v,
    {
        UnitFixedPoint(v)
    }

    /// The raw integer of this value.
    pub fn raw(self) -> (r: u32)
        ensures
            r == self.0,
    {
        self.0
    }

    /// The fraction `num / den`, clamped to [0, 1] and rounded down to the
    /// nearest fixed-point value.
    pub fn from_ratio(num: i64, den: i64) -> (r: UnitFixedPoint)
        requires
            den > 0,
        ensures
            r.0 == fixed_of_ratio(num as int, den as int),
    {
        if num <= 0 {
            UnitFixedPoint(0)
        } else if num >= den {
            UnitFixedPoint(UNIT_MAX)
        } else {
            let n = num as u128;
            let d = den as u128;
            assert(n * 0xFFFF_FFFF < d * 0xFFFF_FFFF) by (nonlinear_arith)
                requires
                    n < d,
            ;
            assert(d * 0xFFFF_FFFF <= 0x7FFF_FFFF_FFFF_FFFF * 0xFFFF_FFFF) by (nonlinear_arith)
                requires
                    d <= 0x7FFF_FFFF_FFFF_FFFF,
            ;
            let q = (n * 0xFFFF_FFFFu128) / d;
            proof {
                let nm = n * 0xFFFF_FFFF;
                lemma_fundamental_div_mod(nm, d as int);
                lemma_mod_pos_bound(nm, d as int);
                assert(q < 0xFFFF_FFFF) by (nonlinear_arith)
                    requires
                        q as int == nm / d as int,
                        n < d,
                        d > 0,
                        nm == n * 0xFFFF_FFFF,
                        nm == d * (nm / d as int) + nm % d as int,
                        0 <= nm % d as int,
                ;
            }
            UnitFixedPoint(q as u32)
        }
    }
}

/// Encoding keeps order: if `n1 / d1 <= n2 / d2` then the fixed-point value of
/// the first fraction is at most that of the second. In particular
/// `a < b` gives `encode(a) <= encode(b)`.
pub proof fn lemma_fixed_monotone(n1: int, d1: int, n2: int, d2: int)
    requires
        d1 > 0,
        d2 > 0,
        n1 * d2 <= n2 * d1,
    ensures
        fixed_of_ratio(n1, d1) <= fixed_of_ratio(n2, d2),
{
    let m = UNIT_MAX as int;
    if n1 <= 0 {
        if n2 > 0 && n2 < d2 {
            assert(n2 * m >= 0) by (nonlinear_arith)
                requires
                    n2 > 0,
                    m > 0,
            ;
            lemma_div_is_ordered(0, n2 * m, d2);
        }
    } else if n2 >= d2 {
        if n1 < d1 {
            assert(n1 * m <= d1 * m) by (nonlinear_arith)
                requires
                    n1 < d1,
                    m > 0,
            ;
            lemma_div_is_ordered(n1 * m, d1 * m, d1);
            assert((d1 * m) / d1 == m) by (nonlinear_arith)
                requires
                    d1 > 0,
            ;
        }
    } else {
        // 0 < n1 and n2 < d2, so 0 < n2 and n1 < d1
        assert(n2 > 0) by (nonlinear_arith)
            requires
                n1 > 0,
                d1 > 0,
                d2 > 0,
                n1 * d2 <= n2 * d1,
        ;
        assert(n1 < d1) by (nonlinear_arith)
            requires
                n2 < d2,
                d1 > 0,
                d2 > 0,
                n1 * d2 <= n2 * d1,
        ;
        let q = (n1 * m) / d1;
        lemma_fundamental_div_mod(n1 * m, d1);
        lemma_mod_pos_bound(n1 * m, d1);
        lemma_mod_pos_bound(n2 * m, d2);
        assert(q * d1 <= n1 * m);
        assert(q * d2 <= n2 * m) by (nonlinear_arith)
            requires
                q * d1 <= n1 * m,
                n1 * d2 <= n2 * d1,
                d1 > 0,
                d2 > 0,
                m > 0,
        ;
        lemma_fundamental_div_mod(n2 * m, d2);
        let q2 = (n2 * m) / d2;
        assert(q <= q2) by (nonlinear_arith)
            requires
                q * d2 <= n2 * m,
                n2 * m == d2 * q2 + (n2 * m) % d2,
                0 <= (n2 * m) % d2 < d2,
                d2 > 0,
        ;
    }
}

} // verus!
