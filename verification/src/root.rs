//! The correctly rounded square root of a binary32 value, on its bits.
//!
//! A positive finite value is `significand × 2^(exponent − 406)`.  It is
//! rescaled to `M × 2^(E − 406)` with `E` even and `2^46 <= M < 2^48`, so that
//! its root is `sqrt(M) × 2^((E − 406) / 2)` with `sqrt(M)` between `2^23` and
//! `2^24`: the integer nearest to `sqrt(M)` is the significand of the result.

use crate::scalar::{is_nan, is_zero, nan, sign_set, zero, INFINITY, NAN, SIGN};
use vstd::arithmetic::power2::{
    lemma2_to64, lemma2_to64_rest, lemma_pow2_strictly_increases, lemma_pow2_unfold, pow2,
};
use vstd::prelude::*;

verus! {

/// Whether `r` is the largest integer whose square is at most `m`.
pub open spec fn bounds_sqrt(m: nat, r: nat) -> bool {
    r * r <= m && m < (r + 1) * (r + 1)
}

/// The largest integer whose square is at most `m`.
pub open spec fn floor_sqrt(m: nat) -> nat {
    choose|r: nat| bounds_sqrt(m, r)
}

/// The integer nearest to the real square root of `m` (a tie cannot occur).
pub open spec fn nearest_sqrt(m: nat) -> nat {
    let r = floor_sqrt(m);
    if m - r * r > r {
        r + 1
    } else {
        r
    }
}

/// The integer significand of a positive finite pattern.
pub open spec fn significand(a: u32) -> nat {
    if a < 0x0080_0000 {
        a as nat
    } else {
        (a % 0x0080_0000 + 0x0080_0000) as nat
    }
}

/// The exponent of a positive finite pattern, offset by 406: the value is
/// `significand(a) × 2^(exponent(a) − 406)`.
pub open spec fn exponent(a: u32) -> nat {
    if a < 0x0080_0000 {
        257
    } else {
        (a / 0x0080_0000 + 256) as nat
    }
}

/// Rescales `m × 2^x` without changing its value, first to an even `x`, then
/// in steps of two until `m` reaches `2^46`.
pub open spec fn scaled(m: nat, x: nat) -> (nat, nat)
    decreases
        (if m < 0x4000_0000_0000 {
            0x4000_0000_0000 - m
        } else {
            0
        }),
{
    if m == 0 || m >= 0x4000_0000_0000 || x < 2 {
        (m, x)
    } else if x % 2 != 0 {
        scaled(2 * m, (x - 1) as nat)
    } else {
        scaled(4 * m, (x - 2) as nat)
    }
}

/// The square root of a binary32 value, rounded to nearest: NaN for a NaN and
/// for a negative number, the operand itself for a zero and for positive
/// infinity.
pub open spec fn square_root(a: u32) -> u32 {
    if is_nan(a) {
        NAN
    } else if is_zero(a) {
        a
    } else if sign_set(a) {
        NAN
    } else if a == INFINITY {
        INFINITY
    } else {
        let (m, x) = scaled(significand(a), exponent(a));
        ((x / 2 - 53) * 0x0080_0000 + (nearest_sqrt(m) - 0x0080_0000)) as u32
    }
}

proof fn floor_sqrt_is(m: nat, r: nat)
    requires
        r * r <= m,
        m < (r + 1) * (r + 1),
    ensures
        floor_sqrt(m) == r,
{
    let s = floor_sqrt(m);
    assert(bounds_sqrt(m, r));
    assert(bounds_sqrt(m, s));
    assert(s == r) by (nonlinear_arith)
        requires
            r * r <= m,
            m < (r + 1) * (r + 1),
            s * s <= m,
            m < (s + 1) * (s + 1),
    ;
}

/// The largest integer whose square is at most `m`, for `m < 2^48`.
fn integer_sqrt(m: u64) -> (r: u64)
    requires
        m < 0x1_0000_0000_0000,
    ensures
        r == floor_sqrt(m as nat),
        bounds_sqrt(m as nat, r as nat),
        r < 0x100_0000,
{
    let mut lo: u64 = 0;
    let mut hi: u64 = 0x100_0000;
    while hi - lo > 1
        invariant
            lo < hi <= 0x100_0000,
            lo * lo <= m,
            m < hi * hi,
        decreases hi - lo,
    {
        let mid: u64 = lo + (hi - lo) / 2;
        assert(mid * mid <= 0x100_0000 * 0x100_0000) by (nonlinear_arith)
            requires
                mid <= 0x100_0000,
        ;
        if mid * mid <= m {
            lo = mid;
        } else {
            hi = mid;
        }
    }
    proof {
        floor_sqrt_is(m as nat, lo as nat);
    }
    lo
}

/// The square root, as `square_root` defines it.
pub fn sqrt(a: u32) -> (r: u32)
    ensures
        r == square_root(a),
{
    if nan(a) {
        return NAN;
    }
    if zero(a) {
        return a;
    }
    if a >= SIGN {
        return NAN;
    }
    if a == INFINITY {
        return INFINITY;
    }
    let mut m: u64 = if a < 0x0080_0000 {
        a as u64
    } else {
        (a % 0x0080_0000 + 0x0080_0000) as u64
    };
    let mut x: u64 = if a < 0x0080_0000 {
        257
    } else {
        (a / 0x0080_0000) as u64 + 256
    };
    let mut steps: u64 = 0;
    proof {
        lemma2_to64();
    }
    while m < 0x4000_0000_0000
        invariant
            0 < m < 0x1_0000_0000_0000,
            scaled(m as nat, x as nat) == scaled(significand(a), exponent(a)),
            steps <= 46,
            m >= pow2(steps as nat),
            x + 2 * steps >= 257,
            x <= 510,
            steps > 0 ==> x % 2 == 0,
        decreases
            (if m < 0x4000_0000_0000 {
                0x4000_0000_0000 - m
            } else {
                0
            }),
    {
        proof {
            lemma2_to64_rest();
            if steps >= 46 {
                if steps > 46 {
                    lemma_pow2_strictly_increases(46, steps as nat);
                }
            }
            lemma_pow2_unfold((steps + 1) as nat);
        }
        if x % 2 != 0 {
            m = 2 * m;
            x = x - 1;
        } else {
            m = 4 * m;
            x = x - 2;
        }
        steps = steps + 1;
    }
    assert(scaled(m as nat, x as nat) == (m as nat, x as nat));
    let r = integer_sqrt(m);
    assert(r >= 0x80_0000) by (nonlinear_arith)
        requires
            m >= 0x4000_0000_0000,
            m < (r + 1) * (r + 1),
    ;
    assert(r * r <= 0x100_0000 * 0x100_0000) by (nonlinear_arith)
        requires
            r <= 0x100_0000,
    ;
    let n: u64 = if m - r * r > r {
        r + 1
    } else {
        r
    };
    let field: u64 = x / 2 - 53;
    ((field * 0x0080_0000) + (n - 0x0080_0000)) as u32
}

/// Every number has a largest integer whose square is at most that number.
pub proof fn floor_sqrt_exists(m: nat) -> (r: nat)
    ensures
        bounds_sqrt(m, r),
        floor_sqrt(m) == r,
    decreases m,
{
    if m == 0 {
        assert(0nat * 0nat == 0 && (0nat + 1) * (0nat + 1) == 1) by (nonlinear_arith);
        floor_sqrt_is(0, 0);
        0
    } else {
        let q = floor_sqrt_exists((m - 1) as nat);
        let r = if (q + 1) * (q + 1) <= m {
            q + 1
        } else {
            q
        };
        assert(r * r <= m && m < (r + 1) * (r + 1)) by (nonlinear_arith)
            requires
                q * q <= m - 1,
                m - 1 < (q + 1) * (q + 1),
                r == (if (q + 1) * (q + 1) <= m {
                    q + 1
                } else {
                    q
                }),
        ;
        floor_sqrt_is(m, r);
        r
    }
}

/// The integer nearest to the root of a number from `2^46` up to `2^48` is
/// from `2^23` up to `2^24`.
pub proof fn nearest_sqrt_bounds(m: nat)
    requires
        0x4000_0000_0000 <= m < 0x1_0000_0000_0000,
    ensures
        0x80_0000 <= nearest_sqrt(m) <= 0x100_0000,
{
    let r = floor_sqrt_exists(m);
    assert(0x80_0000 <= r < 0x100_0000) by (nonlinear_arith)
        requires
            r * r <= m,
            m < (r + 1) * (r + 1),
            0x4000_0000_0000 <= m < 0x1_0000_0000_0000,
    ;
}

/// What rescaling gives after `k` steps: a significand from `2^46` up to
/// `2^48`, and an even exponent that is still large.
pub proof fn scaled_bounds(m: nat, x: nat, k: nat)
    requires
        0 < m < 0x1_0000_0000_0000,
        m >= pow2(k),
        k <= 46,
        x + 2 * k >= 257,
        x <= 510,
        k > 0 ==> x % 2 == 0,
        k > 0 || m < 0x4000_0000_0000,
    ensures
        0x4000_0000_0000 <= scaled(m, x).0 < 0x1_0000_0000_0000,
        scaled(m, x).1 % 2 == 0,
        165 <= scaled(m, x).1 <= 510,
    decreases
        (if m < 0x4000_0000_0000 {
            0x4000_0000_0000 - m
        } else {
            0
        }),
{
    lemma2_to64();
    lemma2_to64_rest();
    if m < 0x4000_0000_0000 {
        if k >= 46 {
            if k > 46 {
                lemma_pow2_strictly_increases(46, k);
            }
        }
        lemma_pow2_unfold(k + 1);
        if x % 2 != 0 {
            scaled_bounds(2 * m, (x - 1) as nat, k + 1);
        } else {
            scaled_bounds(4 * m, (x - 2) as nat, k + 1);
        }
    }
}

/// The root of a number that is not below zero is a number that is not
/// below zero: it is no NaN, it is finite where the operand is, and its sign
/// is set only where it is the negative zero itself.
pub proof fn root_is_a_number(a: u32)
    requires
        !is_nan(a),
        is_zero(a) || !sign_set(a),
    ensures
        !is_nan(square_root(a)),
        is_zero(a) || !sign_set(square_root(a)),
        is_zero(a) <==> is_zero(square_root(a)),
        a != INFINITY ==> square_root(a) != INFINITY,
{
    if !is_zero(a) && a != INFINITY {
        lemma2_to64();
        let m0 = significand(a);
        let x0 = exponent(a);
        assert(0 < m0 < 0x100_0000 && 257 <= x0 <= 510);
        scaled_bounds(m0, x0, 0);
        let (m, x) = scaled(m0, x0);
        nearest_sqrt_bounds(m);
    }
}

} // verus!
