//! Fixed-point scale, global range limits, and the small integer toolkit
//! (floor division, integer square root) that the registration core builds on.

use vstd::prelude::*;
use vstd::arithmetic::div_mod::{
    lemma_div_is_ordered, lemma_div_multiples_vanish, lemma_fundamental_div_mod,
};

verus! {

/// One world unit of distance is this many raw fixed-point ticks (2^30).
pub const SCALE: i64 = 1073741824;

/// Largest coordinate magnitude, in ticks, that a point cloud may hold (2^40).
pub const COORD_LIMIT: i64 = 1099511627776;

/// Largest number of points a cloud handed to the estimator may hold.
pub const CLOUD_LIMIT: usize = 1000000000;

/// Largest translation magnitude, in ticks, of a transform the iteration
/// keeps composing with (2^43).
pub const TRANS_LIMIT: i64 = 8796093022208;

/// Largest translation magnitude, in ticks, a transform may hold and still be
/// applied to an in-bounds cloud without leaving the 64-bit range (2^45).
pub const TRANS_HARD_LIMIT: i64 = 35184372088832;

/// Magnitude bound on the covariance sums fed to rotation normalization (2^120).
pub const COV_LIMIT: i128 = 1329227995784915872903807060280344576;

/// Magnitude of `a`, as a mathematical natural number.
pub open spec fn abs_i(a: int) -> nat {
    if a >= 0 {
        a as nat
    } else {
        (-a) as nat
    }
}

/// Floor of the real square root of `x`.
pub open spec fn sqrt_floor(x: nat) -> nat {
    choose|r: nat| #[trigger] (r * r) <= x && x < (r + 1) * (r + 1)
}

/// Squaring is monotone over the naturals.
pub proof fn lemma_sq_le(a: nat, b: nat)
    by (nonlinear_arith)
    requires
        a <= b,
    ensures
        a * a <= b * b,
{
}

/// A number whose square brackets `x` is the floor square root of `x`.
pub proof fn lemma_sqrt_floor_unique(x: nat, r: nat)
    requires
        r * r <= x,
        x < (r + 1) * (r + 1),
    ensures
        sqrt_floor(x) == r,
{
    assert(exists|q: nat| #[trigger] (q * q) <= x && x < (q + 1) * (q + 1)) by {
        assert(r * r <= x && x < (r + 1) * (r + 1));
    }
    let w = sqrt_floor(x);
    assert(w * w <= x && x < (w + 1) * (w + 1));
    if w < r {
        lemma_sq_le(w + 1, r);
        assert(x < (w + 1) * (w + 1));
        assert(r * r <= x);
    }
    if r < w {
        lemma_sq_le(r + 1, w);
        assert(x < (r + 1) * (r + 1));
        assert(w * w <= x);
    }
}

/// Bound on a product from bounds on its factors.
pub proof fn lemma_abs_mul_bound(a: int, b: int, ca: int, cb: int)
    by (nonlinear_arith)
    requires
        -ca <= a <= ca,
        -cb <= b <= cb,
        0 <= ca,
        0 <= cb,
    ensures
        -(ca * cb) <= a * b <= ca * cb,
{
}

/// Floor division respects the order of nonnegative dividends.
pub proof fn lemma_div_bound_nonneg(a: int, c: int, b: int)
    requires
        0 <= a <= c,
        0 < b,
    ensures
        0 <= a / b <= c / b,
{
    lemma_div_is_ordered(a, c, b);
    assert(0 <= a / b) by {
        lemma_div_is_ordered(0, a, b);
        assert(0int / b == 0) by (nonlinear_arith)
            requires
                0 < b,
        ;
    }
}

/// Floor division of `a` by positive `b` keeps the magnitude at or below
/// that of any bound on `|a|` divided through, up to the floor adjustment.
pub proof fn lemma_div_mag(a: int, c: int, b: int)
    requires
        -c <= a <= c,
        0 <= c,
        0 < b,
    ensures
        -(c / b) - 1 <= a / b <= c / b,
{
    if a >= 0 {
        lemma_div_bound_nonneg(a, c, b);
    } else {
        lemma_div_bound_nonneg(-a, c, b);
        lemma_fundamental_div_mod(a, b);
        lemma_fundamental_div_mod(-a, b);
        assert(a / b == if (-a) % b == 0 { -((-a) / b) } else { -((-a) / b) - 1 }) by {
            let q = (-a) / b;
            let r = (-a) % b;
            assert(-a == b * q + r);
            assert(0 <= r < b);
            if r == 0 {
                assert(a == b * (-q)) by (nonlinear_arith)
                    requires
                        -a == b * q + r,
                        r == 0,
                ;
                lemma_fundamental_div_mod_converse_auto(a, b, -q, 0);
            } else {
                assert(a == b * (-q - 1) + (b - r)) by (nonlinear_arith)
                    requires
                        -a == b * q + r,
                ;
                lemma_fundamental_div_mod_converse_auto(a, b, -q - 1, b - r);
            }
        }
    }
}

/// The quotient and remainder determine Euclidean division.
proof fn lemma_fundamental_div_mod_converse_auto(x: int, d: int, q: int, r: int)
    requires
        d > 0,
        0 <= r < d,
        x == q * d + r || x == d * q + r,
    ensures
        x / d == q,
        x % d == r,
{
    assert(q * d == d * q) by (nonlinear_arith);
    vstd::arithmetic::div_mod::lemma_fundamental_div_mod_converse(x, d, q, r);
}

/// Dividing an exact multiple of a positive number recovers the factor.
pub proof fn lemma_div_exact_multiple(v: int, b: int)
    requires
        0 < b,
    ensures
        (b * v) / b == v,
{
    lemma_div_multiples_vanish(v, b);
}

/// Shifting the dividend by a whole number of divisors shifts the quotient.
pub proof fn lemma_div_shift_multiple(a: int, v: int, b: int)
    requires
        0 < b,
    ensures
        (a + v * b) / b == a / b + v,
{
    vstd::arithmetic::div_mod::lemma_hoist_over_denominator(a, v, b as nat);
}

/// Dividing a nonnegative number by a positive one never grows it.
pub proof fn lemma_div_le_self(a: int, b: int)
    requires
        0 <= a,
        1 <= b,
    ensures
        0 <= a / b <= a,
{
    vstd::arithmetic::div_mod::lemma_div_is_ordered_by_denominator(a, 1, b);
    assert(a / 1 == a) by (nonlinear_arith);
    lemma_div_bound_nonneg(a, a, b);
}

/// Euclidean (floor) division of a signed 128-bit value by a positive one.
pub fn div_floor_i128(a: i128, b: i128) -> (q: i128)
    requires
        b > 0,
        -COV_LIMIT <= a <= COV_LIMIT,
    ensures
        q == a as int / b as int,
{
    if a >= 0 {
        let qu: u128 = (a as u128) / (b as u128);
        proof {
            lemma_div_bound_nonneg(a as int, a as int, b as int);
        }
        qu as i128
    } else {
        let m: u128 = (-a) as u128;
        let qu: u128 = m / (b as u128);
        let ru: u128 = m % (b as u128);
        proof {
            lemma_div_bound_nonneg(m as int, m as int, b as int);
            lemma_fundamental_div_mod(m as int, b as int);
        }
        if ru == 0 {
            proof {
                assert(a as int == (b as int) * (-(qu as int))) by (nonlinear_arith)
                    requires
                        m as int == (b as int) * (qu as int) + 0,
                        a as int == -(m as int),
                ;
                lemma_fundamental_div_mod_converse_auto(a as int, b as int, -(qu as int), 0);
            }
            -(qu as i128)
        } else {
            proof {
                assert(a as int == (b as int) * (-(qu as int) - 1) + ((b as int) - (ru as int)))
                    by (nonlinear_arith)
                    requires
                        m as int == (b as int) * (qu as int) + (ru as int),
                        a as int == -(m as int),
                ;
                lemma_fundamental_div_mod_converse_auto(
                    a as int,
                    b as int,
                    -(qu as int) - 1,
                    (b as int) - (ru as int),
                );
            }
            -(qu as i128) - 1
        }
    }
}

/// Floor square root of an unsigned 128-bit value, by binary search.
pub fn isqrt_u128(x: u128) -> (r: u64)
    ensures
        (r as nat) * (r as nat) <= x as nat,
        (x as nat) < ((r as nat) + 1) * ((r as nat) + 1),
        r as nat == sqrt_floor(x as nat),
{
    let mut lo: u64 = 0;
    let mut hi: u64 = 18446744073709551615;
    proof {
        assert(((hi as nat) + 1) * ((hi as nat) + 1) > x as nat) by (nonlinear_arith)
            requires
                hi as nat == 0xffffffffffffffff,
                x as nat <= 0xffffffffffffffffffffffffffffffff,
        ;
    }
    while lo < hi
        invariant
            lo <= hi,
            (lo as nat) * (lo as nat) <= x as nat,
            (x as nat) < ((hi as nat) + 1) * ((hi as nat) + 1),
        decreases hi - lo,
    {
        let mid: u64 = ((lo as u128 + hi as u128 + 1) / 2) as u64;
        proof {
            assert(lo < mid <= hi) by {
                assert((lo as int + hi as int + 1) / 2 >= (lo as int) + 1 && (lo as int + hi as int
                    + 1) / 2 <= hi as int) by (nonlinear_arith)
                    requires
                        (lo as int) < (hi as int),
                ;
            }
        }
        proof {
            assert((mid as nat) * (mid as nat) <= 0xfffffffffffffffe0000000000000001)
                by (nonlinear_arith)
                requires
                    mid as nat <= 0xffffffffffffffff,
            ;
        }
        let sq: u128 = (mid as u128) * (mid as u128);
        if sq <= x {
            lo = mid;
        } else {
            hi = mid - 1;
        }
    }
    proof {
        lemma_sqrt_floor_unique(x as nat, lo as nat);
    }
    lo
}

} // verus!
