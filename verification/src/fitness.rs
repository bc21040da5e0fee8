//! Exact fitness values for candidate key lengths.
//!
//! The fitness of a key length is its coincidence count divided by
//! `max_length + length^1.5`.  The superlinear denominator discounts longer
//! keys, which trivially accumulate more coincidences.  Fitness values only
//! matter for relative ranking, so they are held exactly as integer
//! rationals: the denominator scales `length^1.5` by a fixed factor and
//! rounds it down to an integer, and comparisons cross-multiply, which
//! avoids any floating point.

use vstd::prelude::*;

verus! {

/// Fixed-point scale applied to the `length^1.5` term of the denominator.
pub const FP_SCALE: u64 = 65536;

/// A fitness value, held exactly as the rational `num / den`.
#[derive(Clone, Copy, Debug, PartialEq, Eq, Structural)]
pub struct Fitness {
    /// Coincidence count of the key length.
    pub num: u64,
    /// Scaled `max_length + length^1.5`, always at least one.
    pub den: u64,
}

/// The rational `a.num / a.den` is strictly below `b.num / b.den`.
pub open spec fn rat_lt(a: Fitness, b: Fitness) -> bool {
    a.num * b.den < b.num * a.den
}

/// The rationals `a.num / a.den` and `b.num / b.den` are equal.
pub open spec fn rat_eq(a: Fitness, b: Fitness) -> bool {
    a.num * b.den == b.num * a.den
}

/// The rational `a.num / a.den` is at most `b.num / b.den`.
pub open spec fn rat_le(a: Fitness, b: Fitness) -> bool {
    a.num * b.den <= b.num * a.den
}

/// The fitness value zero.
pub open spec fn rat_zero() -> Fitness {
    Fitness { num: 0, den: 1 }
}

/// The product of two 64-bit values fits in 128 bits.
proof fn lemma_u64_mul_fits(x: u64, y: u64)
    ensures
        (x as int) * (y as int) <= 0xffff_ffff_ffff_fffe_0000_0000_0000_0001int,
{
    assert((x as int) * (y as int) <= 0xffff_ffff_ffff_fffe_0000_0000_0000_0001int)
        by (nonlinear_arith)
        requires
            0 <= x <= 0xffff_ffff_ffff_ffffu64,
            0 <= y <= 0xffff_ffff_ffff_ffffu64,
    ;
}

/// Compare two fitness values by cross-multiplying, exactly.
pub fn fitness_lt(a: &Fitness, b: &Fitness) -> (r: bool)
    ensures
        r == rat_lt(*a, *b),
{
    proof {
        lemma_u64_mul_fits(a.num, b.den);
        lemma_u64_mul_fits(b.num, a.den);
    }
    (a.num as u128) * (b.den as u128) < (b.num as u128) * (a.den as u128)
}

/// Test two fitness values for equality as rationals, exactly.
pub fn fitness_eq(a: &Fitness, b: &Fitness) -> (r: bool)
    ensures
        r == rat_eq(*a, *b),
{
    proof {
        lemma_u64_mul_fits(a.num, b.den);
        lemma_u64_mul_fits(b.num, a.den);
    }
    (a.num as u128) * (b.den as u128) == (b.num as u128) * (a.den as u128)
}

/// `r` is the integer square root of `n`, rounded down.
pub open spec fn is_sqrt_floor(n: int, r: int) -> bool {
    &&& 0 <= r
    &&& r * r <= n
    &&& n < (r + 1) * (r + 1)
}

/// The integer square root of `n`, rounded down.
pub open spec fn sqrt_floor(n: int) -> int {
    choose|r: int| #[trigger] is_sqrt_floor(n, r)
}

/// Every nonnegative integer has an integer square root.
pub proof fn lemma_sqrt_floor_exists(n: int)
    requires
        n >= 0,
    ensures
        is_sqrt_floor(n, sqrt_floor(n)),
    decreases n,
{
    if n == 0 {
        assert(is_sqrt_floor(0, 0));
    } else {
        lemma_sqrt_floor_exists(n - 1);
        let r = choose|r: int| #[trigger] is_sqrt_floor(n - 1, r);
        if n < (r + 1) * (r + 1) {
            assert(is_sqrt_floor(n, r));
        } else {
            assert(n == (r + 1) * (r + 1));
            assert((r + 2) * (r + 2) > n) by (nonlinear_arith)
                requires
                    n == (r + 1) * (r + 1),
                    r >= 0,
            ;
            assert(is_sqrt_floor(n, r + 1));
        }
    }
}

/// The integer square root is unique.
pub proof fn lemma_sqrt_floor_unique(n: int, r: int)
    requires
        is_sqrt_floor(n, r),
    ensures
        r == sqrt_floor(n),
{
    lemma_sqrt_floor_exists(n);
    let s = sqrt_floor(n);
    assert(r == s) by (nonlinear_arith)
        requires
            0 <= r,
            0 <= s,
            r * r <= n,
            n < (r + 1) * (r + 1),
            s * s <= n,
            n < (s + 1) * (s + 1),
    ;
}

/// Integer square root, rounded down, by bisection.
pub fn isqrt(n: u128) -> (r: u128)
    requires
        n < 0x4000_0000_0000_0000_0000_0000_0000_0000u128,
    ensures
        is_sqrt_floor(n as int, r as int),
        r < 0x8000_0000_0000_0000u128,
{
    let mut lo: u128 = 0;
    let mut hi: u128 = 0x8000_0000_0000_0000;
    proof {
        assert(0x8000_0000_0000_0000u128 * 0x8000_0000_0000_0000u128
            == 0x4000_0000_0000_0000_0000_0000_0000_0000u128) by (nonlinear_arith);
    }
    while lo + 1 < hi
        invariant
            lo < hi <= 0x8000_0000_0000_0000u128,
            lo * lo <= n,
            n < hi * hi,
        decreases hi - lo,
    {
        let mid = lo + (hi - lo) / 2;
        proof {
            assert(lo < mid < hi);
            assert(mid * mid < 0x4000_0000_0000_0000_0000_0000_0000_0001u128) by (nonlinear_arith)
                requires
                    mid <= 0x8000_0000_0000_0000u128,
            ;
        }
        if mid * mid <= n {
            lo = mid;
        } else {
            hi = mid;
        }
    }
    lo
}

/// The scaled denominator of the fitness of key length `l` probed up to
/// `m`: `m` plus `l^1.5`, both scaled by `FP_SCALE`, the root rounded down.
pub open spec fn den_spec(l: int, m: int) -> int {
    m * (FP_SCALE as int) + sqrt_floor(l * l * l * (FP_SCALE as int) * (FP_SCALE as int))
}

/// The scaled denominator is at least one for any real key length.
pub proof fn lemma_den_spec_pos(l: int, m: int)
    requires
        l >= 1,
        m >= 0,
    ensures
        den_spec(l, m) >= 1,
{
    let n = l * l * l * (FP_SCALE as int) * (FP_SCALE as int);
    assert(n >= 4294967296) by (nonlinear_arith)
        requires
            l >= 1,
            n == l * l * l * 65536 * 65536,
    ;
    lemma_sqrt_floor_exists(n);
    let s = sqrt_floor(n);
    assert(s >= 1) by (nonlinear_arith)
        requires
            0 <= s,
            n < (s + 1) * (s + 1),
            n >= 4294967296,
    ;
    assert(m * (FP_SCALE as int) >= 0) by (nonlinear_arith)
        requires
            m >= 0,
    ;
}

/// Compute the scaled fitness denominator for key length `l` with maximum
/// probed length `m`.
pub fn fitness_den(l: u64, m: u64) -> (r: u64)
    requires
        1 <= l <= m,
        m <= 0x7fff_ffff,
    ensures
        r == den_spec(l as int, m as int),
        r >= 1,
{
    proof {
        assert((l as u128) * (l as u128) < 0x4000_0000_0000_0000u128 && (l as u128) * (l as u128)
            * (l as u128) < 0x2000_0000_0000_0000_0000_0000u128) by (nonlinear_arith)
            requires
                l <= 0x7fff_ffffu64,
        ;
    }
    let cube: u128 = (l as u128) * (l as u128) * (l as u128);
    proof {
        assert(cube * (FP_SCALE as u128) < 0x2000_0000_0000_0000_0000_0000_0000u128 && cube * (
        FP_SCALE as u128) * (FP_SCALE as u128) < 0x4000_0000_0000_0000_0000_0000_0000_0000u128)
            by (nonlinear_arith)
            requires
                cube < 0x2000_0000_0000_0000_0000_0000u128,
                FP_SCALE == 65536u64,
        ;
    }
    let scaled: u128 = cube * (FP_SCALE as u128) * (FP_SCALE as u128);
    let s = isqrt(scaled);
    proof {
        lemma_sqrt_floor_unique(scaled as int, s as int);
        assert(scaled as int == (l as int) * (l as int) * (l as int) * (FP_SCALE as int) * (
        FP_SCALE as int));
    }
    m * FP_SCALE + (s as u64)
}

} // verus!
