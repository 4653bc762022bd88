//! Exact non-negative fractions.
use vstd::prelude::*;

verus! {

/// A non-negative fraction.
#[derive(Clone, Copy, Debug, PartialEq, Eq, Structural)]
pub struct Ratio {
    pub numer: u64,
    pub denom: u64,
}

/// `count` times the fraction, rounded to the nearest integer, halves upwards.
pub open spec fn rounded_product(count: int, ratio: Ratio) -> int {
    (2 * count * ratio.numer + ratio.denom) / (2 * ratio.denom as int)
}

/// The product is rounded to the nearest integer: it is off by half at most, and upwards if
/// by exactly half.
pub proof fn law_rounds_to_nearest(count: int, ratio: Ratio)
    requires
        0 <= count,
        ratio.wf(),
    ensures
        ({
            let twice = 2 * (count * ratio.numer);
            let r = rounded_product(count, ratio);
            (2 * r - 1) * ratio.denom <= twice < (2 * r + 1) * ratio.denom
        }),
{
    let d = ratio.denom as int;
    let twice = 2 * (count * ratio.numer);
    assert(2 * count * ratio.numer == twice) by (nonlinear_arith)
        requires
            twice == 2 * (count * ratio.numer),
    ;
    let r = (twice + d) / (2 * d);
    assert(r * (2 * d) <= twice + d < (r + 1) * (2 * d)) by (nonlinear_arith)
        requires
            r == (twice + d) / (2 * d),
            d > 0,
    ;
    assert((2 * r - 1) * d == r * (2 * d) - d && (2 * r + 1) * d == (r + 1) * (2 * d) - d)
        by (nonlinear_arith);
}

impl Ratio {
    /// Whether the denominator is a valid one.
    pub open spec fn wf(self) -> bool {
        self.denom > 0
    }

    /// Whether the fraction is greater than zero.
    pub fn is_positive(&self) -> (yes: bool)
        requires
            self.wf(),
        ensures
            yes == (self.numer > 0),
    {
        self.numer > 0
    }

    /// `count` times the fraction, rounded to the nearest integer, halves upwards, and cut
    /// off at the largest number.
    pub fn scaled(&self, count: usize) -> (scaled: usize)
        requires
            self.wf(),
        ensures
            scaled == if rounded_product(count as int, *self) <= usize::MAX {
                rounded_product(count as int, *self)
            } else {
                usize::MAX as int
            },
    {
        let (n, d) = (self.numer as u128, self.denom as u128);
        let c = count as u128;
        proof {
            assert(0 <= c * n <= 0xffff_ffff_ffff_ffff * 0xffff_ffff_ffff_ffff) by (nonlinear_arith)
                requires
                    0 <= c <= 0xffff_ffff_ffff_ffff,
                    0 <= n <= 0xffff_ffff_ffff_ffff,
            ;
        }
        let product = c * n;
        let whole = product / d;
        let rest = product % d;
        proof {
            let (p, dd) = (product as int, d as int);
            assert(p == dd * whole + rest && 0 <= rest < dd) by (nonlinear_arith)
                requires
                    whole == product / d,
                    rest == product % d,
                    p == product as int,
                    dd == d as int,
                    d > 0,
            ;
            assert(whole <= product) by (nonlinear_arith)
                requires
                    whole == product / d,
                    d > 0,
            ;
            let up: int = if 2 * rest >= dd {
                1
            } else {
                0
            };
            let r = 2 * rest + dd - 2 * dd * up;
            assert(2 * dd * up == (if up == 1 {
                2 * dd
            } else {
                0
            })) by (nonlinear_arith)
                requires
                    up == 0 || up == 1,
            ;
            assert(2 * p + dd == (whole + up) * (2 * dd) + r) by (nonlinear_arith)
                requires
                    p == dd * whole + rest,
                    r == 2 * rest + dd - 2 * dd * up,
            ;
            vstd::arithmetic::div_mod::lemma_fundamental_div_mod_converse(
                2 * p + dd,
                2 * dd,
                whole + up,
                r,
            );
            assert(2 * count as int * self.numer == 2 * p) by (nonlinear_arith)
                requires
                    p == count * self.numer,
            ;
        }
        let rounded = if rest >= d - rest {
            whole + 1
        } else {
            whole
        };
        if rounded > usize::MAX as u128 {
            usize::MAX
        } else {
            rounded as usize
        }
    }
}

} // verus!
