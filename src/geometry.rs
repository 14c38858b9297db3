use vstd::arithmetic::div_mod::{lemma_div_by_multiple, lemma_div_is_ordered};
use vstd::prelude::*;

verus! {

/// Position units in one world unit; also nanoseconds in one second.
pub const UNITS_PER_WORLD_UNIT: u64 = 1_000_000_000;

/// The denominator of a camera interpolation factor: a factor `f` stands for
/// `f / FACTOR_SCALE`, so `FACTOR_SCALE` is a factor of one (a full snap).
pub const FACTOR_SCALE: u64 = 1_000_000_000;

/// How fast the camera closes the distance to its target, per second.
pub const CAMERA_SNAP_MULT: u64 = 8;

/// A point or a displacement in fixed-point position units.
#[derive(Clone, Copy, Debug, PartialEq, Eq, Structural)]
pub struct Vec3 {
    pub x: i64,
    pub y: i64,
    pub z: i64,
}

impl Vec3 {
    pub fn new(x: i64, y: i64, z: i64) -> (r: Vec3)
        ensures
            r.x == x,
            r.y == y,
            r.z == z,
    {
        Vec3 { x, y, z }
    }
}

/// Division rounding toward zero, for a positive divisor.
pub open spec fn div_trunc(a: int, d: int) -> int {
    if a >= 0 {
        a / d
    } else {
        -((-a) / d)
    }
}

/// `r` is the integer square root of `n`, rounded down.
pub open spec fn is_floor_sqrt(r: nat, n: nat) -> bool {
    r * r <= n && n < (r + 1) * (r + 1)
}

/// The integer square root of `n`, rounded down.
pub open spec fn floor_sqrt(n: nat) -> nat {
    choose|r: nat| is_floor_sqrt(r, n)
}

/// The camera interpolation factor for a tick period in nanoseconds, in units
/// of `1 / FACTOR_SCALE`: `min(period, 1 s) * CAMERA_SNAP_MULT`, clamped to one.
pub open spec fn factor_spec(period_nanos: int) -> int {
    let p = if period_nanos < UNITS_PER_WORLD_UNIT { period_nanos } else { UNITS_PER_WORLD_UNIT as int };
    let raw = p * CAMERA_SNAP_MULT;
    if raw < FACTOR_SCALE { raw } else { FACTOR_SCALE as int }
}

/// One coordinate moved from `cur` toward `target` by the factor
/// `f / FACTOR_SCALE`; the step is rounded toward zero, so it never overshoots.
pub open spec fn lerp_coord(cur: int, target: int, f: int) -> int {
    cur + div_trunc((target - cur) * f, FACTOR_SCALE as int)
}

/// At most one integer is the rounded-down square root of `n`.
pub proof fn lemma_floor_sqrt_unique(a: nat, b: nat, n: nat)
    requires
        is_floor_sqrt(a, n),
        is_floor_sqrt(b, n),
    ensures
        a == b,
{
    if a < b {
        assert((a + 1) * (a + 1) <= b * b) by (nonlinear_arith)
            requires
                a + 1 <= b,
        ;
    } else if b < a {
        assert((b + 1) * (b + 1) <= a * a) by (nonlinear_arith)
            requires
                b + 1 <= a,
        ;
    }
}

/// A rounded-down square root that is known is the one `floor_sqrt` picks.
pub proof fn lemma_floor_sqrt_is(r: nat, n: nat)
    requires
        is_floor_sqrt(r, n),
    ensures
        floor_sqrt(n) == r,
{
    let c = floor_sqrt(n);
    assert(is_floor_sqrt(c, n));
    lemma_floor_sqrt_unique(c, r, n);
}

/// The integer square root of `n`, rounded down.
pub fn isqrt(n: u128) -> (r: u64)
    ensures
        r as nat == floor_sqrt(n as nat),
{
    let mut lo: u128 = 0;
    let mut hi: u128 = 0x1_0000_0000_0000_0000;
    assert(n < hi * hi) by (nonlinear_arith)
        requires
            n < 0x1_0000_0000_0000_0000_0000_0000_0000_0000int,
            hi == 0x1_0000_0000_0000_0000int,
    ;
    while hi - lo > 1
        invariant
            lo < hi <= 0x1_0000_0000_0000_0000,
            lo * lo <= n,
            n < hi * hi,
        decreases hi - lo,
    {
        let mid: u128 = lo + (hi - lo) / 2;
        assert(mid * mid < 0x1_0000_0000_0000_0000_0000_0000_0000_0000int) by (nonlinear_arith)
            requires
                mid < 0x1_0000_0000_0000_0000int,
        ;
        if mid * mid <= n {
            lo = mid;
        } else {
            hi = mid;
        }
    }
    assert(hi == lo + 1);
    proof {
        lemma_floor_sqrt_is(lo as nat, n as nat);
    }
    lo as u64
}

/// Division of `a` by a positive `d`, rounding toward zero.
pub fn div_trunc_i128(a: i128, d: u64) -> (r: i128)
    requires
        d > 0,
        a > i128::MIN,
    ensures
        r == div_trunc(a as int, d as int),
{
    if a >= 0 {
        ((a as u128) / (d as u128)) as i128
    } else {
        let m: u128 = (-a) as u128;
        let q: u128 = m / (d as u128);
        assert(q <= m) by {
            assert(m <= m * d) by (nonlinear_arith)
                requires
                    d >= 1,
            ;
            lemma_div_is_ordered(m as int, m as int * d as int, d as int);
            lemma_div_by_multiple(m as int, d as int);
        }
        -(q as i128)
    }
}

/// The camera interpolation factor for a tick period, in units of
/// `1 / FACTOR_SCALE`.
pub fn camera_factor(period_nanos: u64) -> (f: u64)
    ensures
        f == factor_spec(period_nanos as int),
        0 <= f <= FACTOR_SCALE,
{
    let p: u64 = if period_nanos < UNITS_PER_WORLD_UNIT { period_nanos } else { UNITS_PER_WORLD_UNIT };
    let raw: u64 = p * CAMERA_SNAP_MULT;
    if raw < FACTOR_SCALE { raw } else { FACTOR_SCALE }
}

/// Moves one coordinate from `cur` toward `target` by `f / FACTOR_SCALE`.
pub fn lerp_i64(cur: i64, target: i64, f: u64) -> (r: i64)
    requires
        f <= FACTOR_SCALE,
    ensures
        r == lerp_coord(cur as int, target as int, f as int),
        cur <= target ==> cur <= r <= target,
        target <= cur ==> target <= r <= cur,
{
    let diff: i128 = target as i128 - cur as i128;
    assert(-0x1_0000_0000_0000_0000int * 0x4000_0000 <= diff * f <= 0x1_0000_0000_0000_0000int
        * 0x4000_0000) by (nonlinear_arith)
        requires
            -0x1_0000_0000_0000_0000int <= diff <= 0x1_0000_0000_0000_0000int,
            0 <= f <= 0x4000_0000,
    ;
    let prod: i128 = diff * (f as i128);
    let step: i128 = div_trunc_i128(prod, FACTOR_SCALE);
    proof {
        let d = FACTOR_SCALE as int;
        if diff >= 0 {
            assert(diff * f <= diff * d) by (nonlinear_arith)
                requires
                    diff >= 0,
                    f <= d,
            ;
            lemma_div_is_ordered(diff * f, diff * d, d);
            lemma_div_by_multiple(diff as int, d);
            assert(0 <= diff * f) by (nonlinear_arith)
                requires
                    diff >= 0,
                    f >= 0,
            ;
            lemma_div_is_ordered(0, diff * f, d);
        } else {
            let m = -diff;
            assert(m * f <= m * d) by (nonlinear_arith)
                requires
                    m >= 0,
                    f <= d,
            ;
            assert(-(diff * f) == m * f) by (nonlinear_arith)
                requires
                    m == -diff,
            ;
            lemma_div_is_ordered(m * f, m * d, d);
            lemma_div_by_multiple(m as int, d);
            assert(0 <= m * f) by (nonlinear_arith)
                requires
                    m >= 0,
                    f >= 0,
            ;
            lemma_div_is_ordered(0, m * f, d);
            if diff * f >= 0 {
                assert(diff * f == 0);
            }
        }
    }
    (cur as i128 + step) as i64
}

} // verus!
