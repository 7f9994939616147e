//! Fixed-point arithmetic of the simulation.
//!
//! Lengths are whole numbers of sub-units, `UNIT` of them to one world unit;
//! velocities are sub-units per second and tick durations are microseconds.
//! Every operation is total: intermediate values are computed in 128 bits
//! and results saturate at the bounds of `i64`.

use vstd::arithmetic::power::pow;
use vstd::prelude::*;

verus! {

/// Sub-units in one world unit.
pub const UNIT: i64 = 1000;

/// Microseconds in one second.
pub const MICROS: i64 = 1_000_000;

/// Width of the playfield, in sub-units.
pub const WORLD_WIDTH: i64 = 1_920_000;

/// Height of the playfield, in sub-units.
pub const WORLD_HEIGHT: i64 = 1_080_000;

/// `v` limited to the range of `i64`.
pub open spec fn clamp(v: int) -> int {
    if v < i64::MIN {
        i64::MIN as int
    } else if v > i64::MAX {
        i64::MAX as int
    } else {
        v
    }
}

/// Magnitude of `v`.
pub open spec fn mag(v: int) -> int {
    if v >= 0 {
        v
    } else {
        -v
    }
}

/// Quotient of `a` by a positive `b`, rounded toward zero.
pub open spec fn trunc_div(a: int, b: int) -> int {
    if a >= 0 {
        a / b
    } else {
        -((-a) / b)
    }
}

/// Quotient of `a` by a positive `b`, rounded away from zero.
pub open spec fn ceil_div(a: int, b: int) -> int {
    if a >= 0 {
        (a + b - 1) / b
    } else {
        -((-a + b - 1) / b)
    }
}

/// Distance covered in `dt` microseconds at `v` sub-units per second,
/// rounded toward zero.
pub open spec fn travel(v: int, dt: int) -> int {
    trunc_div(v * dt, MICROS as int)
}

/// Position reached from `pos` after `dt` microseconds at velocity `v`.
pub open spec fn moved(pos: int, v: int, dt: int) -> int {
    clamp(pos + travel(v, dt))
}

/// Velocity lost in `dt` microseconds to a friction of `friction` per
/// second. The loss has the sign of `v` and is rounded away from zero, so
/// a moving body loses at least one sub-unit per second in every tick of
/// positive length.
pub open spec fn drag(v: int, friction: int, dt: int) -> int {
    ceil_div(v * friction * dt, MICROS as int)
}

/// Velocity left of `v` after `dt` microseconds of friction.
pub open spec fn slowed(v: int, friction: int, dt: int) -> int {
    clamp(v - drag(v, friction, dt))
}

/// Saturating conversion to `i64`.
pub fn saturate(v: i128) -> (r: i64)
    ensures
        r == clamp(v as int),
{
    if v < -0x8000_0000_0000_0000 {
        i64::MIN
    } else if v > 0x7fff_ffff_ffff_ffff {
        i64::MAX
    } else {
        v as i64
    }
}

/// Product of a velocity-like value and a tick duration.
fn times(v: i128, dt: u32) -> (r: i128)
    requires
        -0x1_0000_0000_0000_0000_0000 <= v <= 0x1_0000_0000_0000_0000_0000,
    ensures
        r == v * dt,
        -0x1_0000_0000_0000_0000_0000_0000_0000 <= r <= 0x1_0000_0000_0000_0000_0000_0000_0000,
{
    let d: i128 = dt as i128;
    assert(-0x1_0000_0000_0000_0000_0000 * 0x1_0000_0000 <= v * d
        <= 0x1_0000_0000_0000_0000_0000 * 0x1_0000_0000) by (nonlinear_arith)
        requires
            -0x1_0000_0000_0000_0000_0000 <= v <= 0x1_0000_0000_0000_0000_0000,
            0 <= d <= 0x1_0000_0000,
    ;
    v * d
}

/// Distance covered in `dt` microseconds at velocity `v`.
pub fn displacement(v: i64, dt: u32) -> (r: i128)
    ensures
        r == travel(v as int, dt as int),
        -0x1_0000_0000_0000_0000_0000_0000_0000 <= r <= 0x1_0000_0000_0000_0000_0000_0000_0000,
{
    let p = times(v as i128, dt);
    p / 1_000_000
}

/// Moves `pos` by the distance covered in `dt` microseconds at velocity
/// `v`, saturating at the bounds of `i64`.
pub fn advance(pos: i64, v: i64, dt: u32) -> (r: i64)
    ensures
        r == moved(pos as int, v as int, dt as int),
{
    let d = displacement(v, dt);
    saturate(pos as i128 + d)
}

/// Applies `dt` microseconds of friction to the velocity `v`.
pub fn slow_down(v: i64, friction: u8, dt: u32) -> (r: i64)
    ensures
        r == slowed(v as int, friction as int, dt as int),
{
    assert(-0x8000_0000_0000_0000 * 0x100 <= v * friction <= 0x8000_0000_0000_0000 * 0x100)
        by (nonlinear_arith)
        requires
            -0x8000_0000_0000_0000 <= v <= 0x8000_0000_0000_0000,
            0 <= friction <= 0x100,
    ;
    let vf: i128 = (v as i128) * (friction as i128);
    let p = times(vf, dt);
    let loss: i128 = if p >= 0 {
        (p + 999_999) / 1_000_000
    } else {
        -((-p + 999_999) / 1_000_000)
    };
    saturate(v as i128 - loss)
}

/// Difference of two values, saturating at the bounds of `i64`.
pub fn distance(a: i64, b: i64) -> (r: i64)
    ensures
        r == clamp(a - b),
{
    saturate(a as i128 - b as i128)
}

/// Negation, saturating at the bounds of `i64`.
pub fn reflect(v: i64) -> (r: i64)
    ensures
        r == clamp(-v),
{
    saturate(-(v as i128))
}

/// `r` is the integer square root of `n`, rounded down.
pub open spec fn is_sqrt(n: int, r: int) -> bool {
    0 <= r && r * r <= n < (r + 1) * (r + 1)
}

/// The integer square root of `n`, rounded down.
pub fn isqrt(n: u128) -> (r: u64)
    ensures
        is_sqrt(n as int, r as int),
{
    let mut lo: u128 = 0;
    let mut hi: u128 = 0x1_0000_0000_0000_0000;
    assert(0x1_0000_0000_0000_0000 * 0x1_0000_0000_0000_0000 > u128::MAX) by (nonlinear_arith);
    while hi - lo > 1
        invariant
            lo < hi <= 0x1_0000_0000_0000_0000,
            lo * lo <= n < hi * hi,
        decreases hi - lo,
    {
        let mid: u128 = lo + (hi - lo) / 2;
        assert(mid * mid <= 0xffff_ffff_ffff_ffff * 0xffff_ffff_ffff_ffff) by (nonlinear_arith)
            requires
                0 <= mid <= 0xffff_ffff_ffff_ffff,
        ;
        if mid * mid <= n {
            lo = mid;
        } else {
            hi = mid;
        }
    }
    lo as u64
}

/// The integer square root is unique.
pub proof fn lemma_sqrt_unique(n: int, a: int, b: int)
    requires
        is_sqrt(n, a),
        is_sqrt(n, b),
    ensures
        a == b,
{
    if a < b {
        assert((a + 1) * (a + 1) <= b * b) by (nonlinear_arith)
            requires
                0 <= a,
                a + 1 <= b,
        ;
    } else if b < a {
        assert((b + 1) * (b + 1) <= a * a) by (nonlinear_arith)
            requires
                0 <= b,
                b + 1 <= a,
        ;
    }
}

/// A component of a vector never exceeds the rounded-down length of the
/// vector in magnitude.
pub proof fn lemma_component_within_length(a: int, b: int, len: int)
    requires
        is_sqrt(a * a + b * b, len),
    ensures
        -len <= a <= len,
        -len <= b <= len,
{
    assert(-len <= a <= len && -len <= b <= len) by (nonlinear_arith)
        requires
            0 <= len,
            a * a + b * b < (len + 1) * (len + 1),
    ;
}

/// Friction alone never reverses a velocity, and in a tick of positive
/// length it brings a moving body strictly closer to rest, as long as the
/// friction over one tick does not exceed one.
pub proof fn lemma_friction_slows(v: int, friction: int, dt: int)
    requires
        i64::MIN <= v <= i64::MAX,
        friction > 0,
        dt > 0,
        friction * dt <= MICROS,
    ensures
        v > 0 ==> 0 <= slowed(v, friction, dt) < v,
        v < 0 ==> v < slowed(v, friction, dt) <= 0,
        v == 0 ==> slowed(v, friction, dt) == 0,
{
    let k = friction * dt;
    assert(k > 0) by (nonlinear_arith)
        requires
            k == friction * dt,
            friction > 0,
            dt > 0,
    ;
    assert(v * friction * dt == v * k) by (nonlinear_arith)
        requires
            k == friction * dt,
    ;
    if v > 0 {
        assert(1 <= (v * k + MICROS - 1) / (MICROS as int) <= v) by (nonlinear_arith)
            requires
                v > 0,
                0 < k <= MICROS,
                MICROS == 1_000_000,
        ;
    } else if v < 0 {
        assert(1 <= (-(v * k) + MICROS - 1) / (MICROS as int) <= -v) by (nonlinear_arith)
            requires
                v < 0,
                0 < k <= MICROS,
                MICROS == 1_000_000,
        ;
        assert(v * k < 0) by (nonlinear_arith)
            requires
                v < 0,
                k > 0,
        ;
    }
}

/// Friction leaves of a velocity at most the share that is not lost: in a
/// tick in which the friction does not exceed one, the magnitude falls to
/// `1 - friction * dt` of what it was, or below.
pub proof fn lemma_friction_share(v: int, friction: int, dt: int)
    requires
        i64::MIN <= v <= i64::MAX,
        friction > 0,
        dt > 0,
        friction * dt <= MICROS,
    ensures
        mag(slowed(v, friction, dt)) * MICROS <= mag(v) * (MICROS - friction * dt),
{
    lemma_friction_slows(v, friction, dt);
    let k = friction * dt;
    let m = mag(v);
    assert(k > 0) by (nonlinear_arith)
        requires
            k == friction * dt,
            friction > 0,
            dt > 0,
    ;
    assert(v * friction * dt == v * k) by (nonlinear_arith)
        requires
            k == friction * dt,
    ;
    assert(m * k == mag(v * k)) by (nonlinear_arith)
        requires
            m == mag(v),
            k > 0,
            mag(v * k) == v * k || mag(v * k) == -(v * k),
            mag(v * k) >= 0,
            m == v || m == -v,
            m >= 0,
    ;
    let loss = (m * k + MICROS - 1) / (MICROS as int);
    assert(loss * MICROS >= m * k) by (nonlinear_arith)
        requires
            loss == (m * k + MICROS - 1) / (MICROS as int),
            MICROS == 1_000_000,
    ;
    assert(mag(slowed(v, friction, dt)) == m - loss);
    assert((m - loss) * MICROS <= m * (MICROS - k)) by (nonlinear_arith)
        requires
            loss * MICROS >= m * k,
    ;
}

/// A power of a number that is not negative is not negative.
proof fn lemma_pow_not_negative(b: int, e: nat)
    requires
        b >= 0,
    ensures
        pow(b, e) >= 0,
        pow(b, e + 1) == b * pow(b, e),
    decreases e,
{
    reveal(pow);
    if e > 0 {
        lemma_pow_not_negative(b, (e - 1) as nat);
        assert(b * pow(b, (e - 1) as nat) >= 0) by (nonlinear_arith)
            requires
                b >= 0,
                pow(b, (e - 1) as nat) >= 0,
        ;
    }
}

/// The velocity left of `v` after `ticks` ticks of `dt` microseconds each
/// under friction alone.
pub open spec fn coasted(v: int, friction: int, dt: int, ticks: nat) -> int
    decreases ticks,
{
    if ticks == 0 {
        v
    } else {
        slowed(coasted(v, friction, dt, (ticks - 1) as nat), friction, dt)
    }
}

/// Under friction alone a velocity moves toward zero without ever passing
/// it and without ever turning back, by at least one sub-unit per second
/// in every tick, and so is zero after as many ticks as it had sub-units
/// per second.
pub proof fn lemma_coasting_stops(v: int, friction: int, dt: int, ticks: nat)
    requires
        i64::MIN <= v <= i64::MAX,
        friction > 0,
        dt > 0,
        friction * dt <= MICROS,
    ensures
        v >= 0 ==> 0 <= coasted(v, friction, dt, ticks + 1) <= coasted(v, friction, dt, ticks) <= v,
        v <= 0 ==> v <= coasted(v, friction, dt, ticks) <= coasted(v, friction, dt, ticks + 1) <= 0,
        v >= 0 ==> coasted(v, friction, dt, ticks) <= if v > ticks {
            v - ticks
        } else {
            0
        },
        v <= 0 ==> coasted(v, friction, dt, ticks) >= if -v > ticks {
            v + ticks
        } else {
            0
        },
    decreases ticks,
{
    if ticks > 0 {
        lemma_coasting_stops(v, friction, dt, (ticks - 1) as nat);
    }
    lemma_friction_slows(coasted(v, friction, dt, ticks), friction, dt);
}

/// Under friction alone a velocity decays at least as fast as the powers
/// of `1 - friction * dt`: after `ticks` ticks its magnitude is at most
/// the magnitude it started with times that share to the power `ticks`.
pub proof fn lemma_coasting_decays(v: int, friction: int, dt: int, ticks: nat)
    requires
        i64::MIN <= v <= i64::MAX,
        friction > 0,
        dt > 0,
        friction * dt <= MICROS,
    ensures
        mag(coasted(v, friction, dt, ticks)) * pow(MICROS as int, ticks) <= mag(v) * pow(
            MICROS - friction * dt,
            ticks,
        ),
    decreases ticks,
{
    let share = MICROS - friction * dt;
    reveal(pow);
    if ticks > 0 {
        let before = (ticks - 1) as nat;
        let c = coasted(v, friction, dt, before);
        lemma_coasting_decays(v, friction, dt, before);
        lemma_coasting_stops(v, friction, dt, before);
        lemma_friction_share(c, friction, dt);
        lemma_pow_not_negative(MICROS as int, before);
        lemma_pow_not_negative(share, before);
        let next = mag(coasted(v, friction, dt, ticks));
        let pm = pow(MICROS as int, before);
        let ps = pow(share, before);
        assert(next * (MICROS * pm) <= mag(v) * (share * ps)) by (nonlinear_arith)
            requires
                next * MICROS <= mag(c) * share,
                mag(c) * pm <= mag(v) * ps,
                pm >= 0,
                ps >= 0,
                share >= 0,
                next >= 0,
                mag(c) >= 0,
                mag(v) >= 0,
        ;
    }
}

/// Once the powers of `1 - friction * dt` have brought the bound on the
/// velocity below one sub-unit per second, the velocity is zero, and it
/// stays zero in every tick that follows.
pub proof fn lemma_coasting_rests(v: int, friction: int, dt: int, ticks: nat, later: nat)
    requires
        i64::MIN <= v <= i64::MAX,
        friction > 0,
        dt > 0,
        friction * dt <= MICROS,
        mag(v) * pow(MICROS - friction * dt, ticks) < pow(MICROS as int, ticks),
        later >= ticks,
    ensures
        coasted(v, friction, dt, later) == 0,
    decreases later - ticks,
{
    if later == ticks {
        lemma_coasting_decays(v, friction, dt, ticks);
        lemma_pow_not_negative(MICROS as int, ticks);
        let c = mag(coasted(v, friction, dt, ticks));
        let pm = pow(MICROS as int, ticks);
        if c >= 1 {
            assert(c * pm >= pm) by (nonlinear_arith)
                requires
                    c >= 1,
                    pm >= 0,
            ;
        }
    } else {
        lemma_coasting_rests(v, friction, dt, ticks, (later - 1) as nat);
        lemma_coasting_stops(v, friction, dt, (later - 1) as nat);
    }
}

} // verus!
