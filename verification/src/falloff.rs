//! The impulse falloff function, in exact fixed-point arithmetic.
//!
//! The curve is the tuned softened falloff `f' = 0.5*log10(f + 0.01) + 1.0`
//! with `f = 1 - t` and `t` the fraction of the blast radius covered,
//! saturating at 1. All quantities are carried in micro-units (millionths),
//! and `0.5*log10(x) + 1` is computed as `log10(10*sqrt(x))` with an integer
//! square root followed by a digit-by-digit binary logarithm, so every result
//! is a deterministic integer and the whole curve is reproducible exactly.

use vstd::prelude::*;
use vstd::arithmetic::div_mod::{
    lemma_div_by_multiple, lemma_div_is_ordered, lemma_div_pos_is_pos, lemma_multiply_divide_lt,
};
use vstd::arithmetic::mul::lemma_mul_inequality;
use vstd::arithmetic::power2::{lemma2_to64, lemma_pow2_adds, lemma_pow2_pos, pow2};

use crate::geom::{
    dist_sq, is_sqrt_floor, isqrt, lemma_sqrt_floor_monotone, lemma_sqrt_floor_perfect,
    lemma_sqrt_floor_unique, pos_wf, sqrt_floor, Pos, Vec2I, MICRO,
};

verus! {

/// The `+ 0.01` softening term of the falloff curve, in micro-units.
pub const SOFTEN: i64 = 10_000;

/// Fixed-point one for the logarithm mantissa (10^18).
pub const LOG_ONE: u128 = 1_000_000_000_000_000_000;

/// Fixed-point ten for the logarithm mantissa (10^19).
pub const LOG_TEN: u128 = 10_000_000_000_000_000_000;

/// Scales a micro-unit mantissa up to `LOG_ONE` resolution (10^13).
pub const MANTISSA_STEP: u128 = 10_000_000_000_000;

/// Number of fractional bits the digit-by-digit logarithm produces.
pub const FRAC_BITS: u64 = 20;

/// 2^20, the denominator of the fractional logarithm bits.
pub const FRAC_POW: u64 = 1_048_576;

/// Largest supported explosion radius, in micro-units.
pub const RADIUS_MAX: u64 = 1_000_000_000_000;

/// Largest supported impulse scale, in world units.
pub const SCALE_MAX: u64 = 1_000_000_000;

/// Strict upper bound on the softened falloff factor, in micro-units.
pub const FPRIME_CAP: u64 = 2_000_000;

/// Largest distance between two in-limit positions, in micro-units.
pub const DIST_MAX: u64 = 3_000_000_000_000;

/// Bound on the magnitude of any single impulse component, in micro-units.
pub const IMP_MAX: i64 = 2_000_000_000_000_000;

/// A single impulse contribution, in micro-units per component.
#[derive(Clone, Copy, Debug, PartialEq, Eq, Structural)]
pub struct Impulse {
    pub x: i64,
    pub y: i64,
}

impl View for Impulse {
    type V = Vec2I;

    open spec fn view(&self) -> Vec2I {
        Vec2I { x: self.x as int, y: self.y as int }
    }
}

/// The first `n` binary digits of `log10(g / LOG_ONE)`, read as an integer,
/// for a mantissa `g` in `[LOG_ONE, LOG_TEN)`: repeatedly square the mantissa
/// and emit a one exactly when the square crosses ten.
pub open spec fn frac_log_bits(g: int, n: nat) -> int
    decreases n,
{
    if n == 0 {
        0
    } else {
        let h = g * g / (LOG_ONE as int);
        if h >= LOG_TEN as int {
            pow2((n - 1) as nat) + frac_log_bits(h / 10, (n - 1) as nat)
        } else {
            frac_log_bits(h, (n - 1) as nat)
        }
    }
}

/// The fractional part of `log10(g / LOG_ONE)` in micro-units, quantized to
/// `FRAC_BITS` binary digits.
pub open spec fn frac_log_scaled(g: int) -> int {
    frac_log_bits(g, FRAC_BITS as nat) * (MICRO as int) / (FRAC_POW as int)
}

/// How far toward the blast edge a target at distance `d` is, in micro-units,
/// saturating at one radius.
pub open spec fn t_of(d: int, radius: int) -> int {
    let q = d * (MICRO as int) / radius;
    if q > MICRO as int {
        MICRO as int
    } else {
        q
    }
}

/// The softened falloff factor `0.5*log10((1 - t) + 0.01) + 1.0` in
/// micro-units, computed as `log10(10 * sqrt((1 - t) + 0.01))`.
pub open spec fn fprime_of(t: int) -> int {
    let fp = (MICRO as int - t) + SOFTEN as int;
    let s = sqrt_floor(fp * (MICRO as int));
    let g = s * (MANTISSA_STEP as int);
    if g >= LOG_TEN as int {
        MICRO as int + frac_log_scaled(g / 10)
    } else {
        frac_log_scaled(g)
    }
}

/// Magnitude of the impulse a receiver at distance `d` takes, in micro-units:
/// the falloff factor times the global impulse scale.
pub open spec fn magnitude_of(d: int, radius: int, scale: int) -> int {
    fprime_of(t_of(d, radius)) * scale
}

/// The full impulse vector: `magnitude_of` along the direction from `origin`
/// to `target`, with the positive x axis as the deterministic fallback
/// direction when the two coincide.
pub open spec fn impulse_of(origin: Vec2I, target: Vec2I, radius: int, scale: int) -> Vec2I {
    let dx = target.x - origin.x;
    let dy = target.y - origin.y;
    let d2 = dist_sq(origin, target);
    if d2 == 0 {
        Vec2I { x: magnitude_of(0, radius, scale), y: 0 }
    } else {
        let d = sqrt_floor(d2);
        let m = magnitude_of(d, radius, scale);
        let qx = (if dx >= 0 { dx } else { -dx }) * m / d;
        let qy = (if dy >= 0 { dy } else { -dy }) * m / d;
        Vec2I { x: if dx >= 0 { qx } else { -qx }, y: if dy >= 0 { qy } else { -qy } }
    }
}

pub proof fn lemma_frac_log_bits_bounds(g: int, n: nat)
    ensures
        0 <= frac_log_bits(g, n) < pow2(n),
    decreases n,
{
    lemma_pow2_pos(n);
    if n > 0 {
        let h = g * g / (LOG_ONE as int);
        lemma_pow2_adds(1, (n - 1) as nat);
        lemma2_to64();
        if h >= LOG_TEN as int {
            lemma_frac_log_bits_bounds(h / 10, (n - 1) as nat);
        } else {
            lemma_frac_log_bits_bounds(h, (n - 1) as nat);
        }
    }
}

pub proof fn lemma_frac_log_bits_monotone(g1: int, g2: int, n: nat)
    requires
        0 <= g1 <= g2,
    ensures
        frac_log_bits(g1, n) <= frac_log_bits(g2, n),
    decreases n,
{
    if n > 0 {
        assert(g1 * g1 <= g2 * g2) by (nonlinear_arith)
            requires
                0 <= g1 <= g2,
        ;
        assert(g1 * g1 >= 0) by (nonlinear_arith);
        let h1 = g1 * g1 / (LOG_ONE as int);
        let h2 = g2 * g2 / (LOG_ONE as int);
        lemma_div_is_ordered(g1 * g1, g2 * g2, LOG_ONE as int);
        lemma_div_pos_is_pos(g1 * g1, LOG_ONE as int);
        if h1 >= LOG_TEN as int {
            lemma_div_is_ordered(h1, h2, 10);
            lemma_div_pos_is_pos(h1, 10);
            lemma_frac_log_bits_monotone(h1 / 10, h2 / 10, (n - 1) as nat);
        } else if h2 >= LOG_TEN as int {
            lemma_frac_log_bits_bounds(h1, (n - 1) as nat);
            lemma_frac_log_bits_bounds(h2 / 10, (n - 1) as nat);
        } else {
            lemma_frac_log_bits_monotone(h1, h2, (n - 1) as nat);
        }
    }
}

pub proof fn lemma_frac_log_bits_one(n: nat)
    ensures
        frac_log_bits(LOG_ONE as int, n) == 0,
    decreases n,
{
    if n > 0 {
        lemma_div_by_multiple(LOG_ONE as int, LOG_ONE as int);
        assert((LOG_ONE as int) * (LOG_ONE as int) / (LOG_ONE as int) == LOG_ONE as int);
        lemma_frac_log_bits_one((n - 1) as nat);
    }
}

/// Computes `frac_log_bits` of a mantissa exactly.
fn frac_log(g0: u128) -> (bits: u64)
    requires
        LOG_ONE <= g0 < LOG_TEN,
    ensures
        bits == frac_log_bits(g0 as int, FRAC_BITS as nat),
        bits < FRAC_POW,
{
    let mut g: u128 = g0;
    let mut bits: u64 = 0;
    let mut k: u64 = 0;
    proof {
        lemma2_to64();
    }
    while k < FRAC_BITS
        invariant
            k <= FRAC_BITS,
            LOG_ONE <= g < LOG_TEN,
            bits < pow2(k as nat),
            pow2(k as nat) <= pow2(FRAC_BITS as nat),
            pow2(FRAC_BITS as nat) == FRAC_POW,
            frac_log_bits(g0 as int, FRAC_BITS as nat) == bits * pow2((FRAC_BITS - k) as nat)
                + frac_log_bits(g as int, (FRAC_BITS - k) as nat),
        decreases FRAC_BITS - k,
    {
        let ghost n = (FRAC_BITS - k) as nat;
        let ghost g_prev = g as int;
        let ghost bits_prev = bits as int;
        proof {
            assert((g as int) * (g as int) < (LOG_TEN as int) * (LOG_TEN as int))
                by (nonlinear_arith)
                requires
                    0 <= (g as int) < (LOG_TEN as int),
            ;
            assert((g as int) * (g as int) >= (LOG_ONE as int) * (LOG_ONE as int))
                by (nonlinear_arith)
                requires
                    (LOG_ONE as int) <= (g as int),
            ;
            lemma_div_is_ordered(
                (LOG_ONE as int) * (LOG_ONE as int),
                (g as int) * (g as int),
                LOG_ONE as int,
            );
            lemma_div_by_multiple(LOG_ONE as int, LOG_ONE as int);
            assert((g as int) * (g as int) < (LOG_ONE as int) * (100 * (LOG_ONE as int)))
                by (nonlinear_arith)
                requires
                    0 <= (g as int) < (LOG_TEN as int),
            ;
            lemma_multiply_divide_lt(
                (g as int) * (g as int),
                LOG_ONE as int,
                100 * (LOG_ONE as int),
            );
        }
        let h: u128 = (g * g) / LOG_ONE;
        let ghost b: int = if h >= LOG_TEN {
            1
        } else {
            0
        };
        if h >= LOG_TEN {
            proof {
                lemma_div_is_ordered(LOG_TEN as int, h as int, 10);
                lemma_multiply_divide_lt(h as int, 10, LOG_TEN as int);
                assert((LOG_TEN as int) / 10 == LOG_ONE as int);
            }
            g = h / 10;
            bits = 2 * bits + 1;
        } else {
            g = h;
            bits = 2 * bits;
        }
        k = k + 1;
        proof {
            lemma_pow2_adds(1, (n - 1) as nat);
            lemma2_to64();
            assert(pow2(n) == 2 * pow2((n - 1) as nat));
            // one unfolding of frac_log_bits at the previous mantissa
            assert(frac_log_bits(g_prev, n) == b * pow2((n - 1) as nat) + frac_log_bits(
                g as int,
                (n - 1) as nat,
            ));
            assert(bits as int == 2 * bits_prev + b);
            assert((2 * bits_prev + b) * pow2((n - 1) as nat) == bits_prev * (2 * pow2(
                (n - 1) as nat,
            )) + b * pow2((n - 1) as nat)) by (nonlinear_arith);
            assert(bits_prev * (2 * pow2((n - 1) as nat)) == bits_prev * pow2(n))
                by (nonlinear_arith)
                requires
                    pow2(n) == 2 * pow2((n - 1) as nat),
            ;
            assert((FRAC_BITS - k) as nat == (n - 1) as nat);
        }
    }
    proof {
        lemma2_to64();
        assert(frac_log_bits(g as int, 0nat) == 0);
        assert((bits as int) * pow2(0) == bits as int) by (nonlinear_arith)
            requires
                pow2(0) == 1,
        ;
    }
    bits
}

/// Computes the softened falloff factor in micro-units.
pub fn fprime_micros(t: u64) -> (f: u64)
    requires
        t <= MICRO as u64,
    ensures
        f == fprime_of(t as int),
        f < FPRIME_CAP,
{
    let fp: u64 = (MICRO as u64 - t) + SOFTEN as u64;
    let s: u64 = isqrt((fp as u128) * (MICRO as u128));
    proof {
        assert(10_000 * (MICRO as int) <= (fp as int) * (MICRO as int) <= 1_010_000 * (
        MICRO as int)) by (nonlinear_arith)
            requires
                10_000 <= (fp as int) <= 1_010_000,
        ;
        assert(is_sqrt_floor((fp as int) * (MICRO as int), s as int));
        assert(s < 1_004_988) by (nonlinear_arith)
            requires
                (s as int) * (s as int) <= 1_010_000_000_000int,
        ;
        assert(s >= 100_000) by (nonlinear_arith)
            requires
                10_000_000_000int < ((s as int) + 1) * ((s as int) + 1),
        ;
        assert((100_000 as int) * (MANTISSA_STEP as int) <= (s as int) * (MANTISSA_STEP as int)
            <= 1_004_987 * (MANTISSA_STEP as int)) by (nonlinear_arith)
            requires
                100_000 <= (s as int) <= 1_004_987,
        ;
    }
    let g: u128 = (s as u128) * MANTISSA_STEP;
    if g >= LOG_TEN {
        proof {
            lemma_div_is_ordered(LOG_TEN as int, g as int, 10);
            lemma_multiply_divide_lt(g as int, 10, LOG_TEN as int);
            assert((LOG_TEN as int) / 10 == LOG_ONE as int);
        }
        let b: u64 = frac_log(g / 10);
        proof {
            lemma_frac_log_bits_bounds((g as int) / 10, FRAC_BITS as nat);
            lemma2_to64();
            assert(b as int * (MICRO as int) < (FRAC_POW as int) * (MICRO as int))
                by (nonlinear_arith)
                requires
                    0 <= (b as int) < (FRAC_POW as int),
            ;
            lemma_multiply_divide_lt(b as int * (MICRO as int), FRAC_POW as int, MICRO as int);
            lemma_div_pos_is_pos(b as int * (MICRO as int), FRAC_POW as int);
        }
        MICRO as u64 + (b * (MICRO as u64)) / FRAC_POW
    } else {
        let b: u64 = frac_log(g);
        proof {
            lemma_frac_log_bits_bounds(g as int, FRAC_BITS as nat);
            lemma2_to64();
            assert(b as int * (MICRO as int) < (FRAC_POW as int) * (MICRO as int))
                by (nonlinear_arith)
                requires
                    0 <= (b as int) < (FRAC_POW as int),
            ;
            lemma_multiply_divide_lt(b as int * (MICRO as int), FRAC_POW as int, MICRO as int);
            lemma_div_pos_is_pos(b as int * (MICRO as int), FRAC_POW as int);
        }
        (b * (MICRO as u64)) / FRAC_POW
    }
}

/// Computes the impulse magnitude for a target at distance `d`.
pub fn magnitude_micros(d: u64, explosion_radius: u64, impulse_scale: u64) -> (m: u64)
    requires
        d <= DIST_MAX,
        0 < explosion_radius <= RADIUS_MAX,
        0 < impulse_scale <= SCALE_MAX,
    ensures
        m == magnitude_of(d as int, explosion_radius as int, impulse_scale as int),
        m <= IMP_MAX as u64,
{
    proof {
        assert((d as int) * (MICRO as int) <= (DIST_MAX as int) * (MICRO as int))
            by (nonlinear_arith)
            requires
                0 <= (d as int) <= (DIST_MAX as int),
        ;
        lemma_div_pos_is_pos((d as int) * (MICRO as int), explosion_radius as int);
    }
    let prod: u128 = (d as u128) * (MICRO as u128);
    let q: u128 = prod / (explosion_radius as u128);
    let t: u64 = if q > MICRO as u128 {
        MICRO as u64
    } else {
        q as u64
    };
    let f: u64 = fprime_micros(t);
    proof {
        assert((f as int) * (impulse_scale as int) <= (FPRIME_CAP as int) * (SCALE_MAX as int))
            by (nonlinear_arith)
            requires
                0 <= (f as int) <= (FPRIME_CAP as int),
                0 <= (impulse_scale as int) <= (SCALE_MAX as int),
        ;
    }
    f * impulse_scale
}

/// Computes the impulse a blast at `origin` hands a receiver at `target`.
///
/// This is the falloff curve along the origin-to-target direction, scaled by
/// the configured impulse magnitude; a target at the origin takes the full
/// epicenter impulse along the positive x axis.
pub fn impulse(origin: &Pos, target: &Pos, explosion_radius: u64, impulse_scale: u64) -> (imp:
    Impulse)
    requires
        pos_wf(origin@),
        pos_wf(target@),
        0 < explosion_radius <= RADIUS_MAX,
        0 < impulse_scale <= SCALE_MAX,
    ensures
        imp@ == impulse_of(origin@, target@, explosion_radius as int, impulse_scale as int),
        -(IMP_MAX as int) <= imp@.x <= IMP_MAX as int,
        -(IMP_MAX as int) <= imp@.y <= IMP_MAX as int,
{
    let d2: u128 = crate::geom::dist_sq_exec(origin, target);
    if d2 == 0 {
        let m: u64 = magnitude_micros(0, explosion_radius, impulse_scale);
        Impulse { x: m as i64, y: 0 }
    } else {
        let d: u64 = isqrt(d2);
        proof {
            lemma_sqrt_floor_perfect(1);
            lemma_sqrt_floor_monotone(1, d2 as int);
            assert(d >= 1);
            assert(is_sqrt_floor(d2 as int, d as int));
            assert(d <= DIST_MAX) by (nonlinear_arith)
                requires
                    (d as int) * (d as int) <= crate::geom::DIST_SQ_MAX as int,
                    d >= 0,
            ;
        }
        let m: u64 = magnitude_micros(d, explosion_radius, impulse_scale);
        let dx: i128 = (target.x as i128) - (origin.x as i128);
        let dy: i128 = (target.y as i128) - (origin.y as i128);
        let ax: u128 = (if dx >= 0 {
            dx
        } else {
            -dx
        }) as u128;
        let ay: u128 = (if dy >= 0 {
            dy
        } else {
            -dy
        }) as u128;
        proof {
            lemma_component_le_dist(origin@, target@);
            assert(is_sqrt_floor(d2 as int, d as int));
            lemma_sqrt_floor_unique(d2 as int, d as int);
            lemma_abs_component_le_sqrt(ax as int, d2 as int);
            lemma_abs_component_le_sqrt(ay as int, d2 as int);
            lemma_mul_inequality(ax as int, d as int, m as int);
            lemma_mul_inequality(ay as int, d as int, m as int);
            lemma_div_is_ordered(ax as int * (m as int), (d as int) * (m as int), d as int);
            lemma_div_is_ordered(ay as int * (m as int), (d as int) * (m as int), d as int);
            lemma_div_by_multiple(m as int, d as int);
            assert((m as int) * (d as int) == (d as int) * (m as int)) by (nonlinear_arith);
            lemma_div_pos_is_pos(ax as int * (m as int), d as int);
            lemma_div_pos_is_pos(ay as int * (m as int), d as int);
            assert((ax as int) * (m as int) <= 2_000_000_000_000int * 2_000_000_000_000_000int)
                by (nonlinear_arith)
                requires
                    0 <= (ax as int) <= 2_000_000_000_000int,
                    0 <= (m as int) <= 2_000_000_000_000_000int,
            ;
            assert((ay as int) * (m as int) <= 2_000_000_000_000int * 2_000_000_000_000_000int)
                by (nonlinear_arith)
                requires
                    0 <= (ay as int) <= 2_000_000_000_000int,
                    0 <= (m as int) <= 2_000_000_000_000_000int,
            ;
        }
        let qx: u128 = (ax * (m as u128)) / (d as u128);
        let qy: u128 = (ay * (m as u128)) / (d as u128);
        let ix: i64 = if dx >= 0 {
            qx as i64
        } else {
            -(qx as i64)
        };
        let iy: i64 = if dy >= 0 {
            qy as i64
        } else {
            -(qy as i64)
        };
        Impulse { x: ix, y: iy }
    }
}

pub proof fn lemma_frac_log_scaled_bounds(g: int)
    ensures
        0 <= frac_log_scaled(g) < MICRO as int,
{
    lemma_frac_log_bits_bounds(g, FRAC_BITS as nat);
    lemma2_to64();
    let b = frac_log_bits(g, FRAC_BITS as nat);
    lemma_div_pos_is_pos(b * (MICRO as int), FRAC_POW as int);
    assert(b * (MICRO as int) >= 0) by (nonlinear_arith)
        requires
            b >= 0,
    ;
    assert(b * (MICRO as int) < (FRAC_POW as int) * (MICRO as int)) by (nonlinear_arith)
        requires
            0 <= b < FRAC_POW as int,
    ;
    lemma_multiply_divide_lt(b * (MICRO as int), FRAC_POW as int, MICRO as int);
}

pub proof fn lemma_frac_log_scaled_monotone(g1: int, g2: int)
    requires
        0 <= g1 <= g2,
    ensures
        frac_log_scaled(g1) <= frac_log_scaled(g2),
{
    lemma_frac_log_bits_monotone(g1, g2, FRAC_BITS as nat);
    lemma_frac_log_bits_bounds(g1, FRAC_BITS as nat);
    lemma_mul_inequality(
        frac_log_bits(g1, FRAC_BITS as nat),
        frac_log_bits(g2, FRAC_BITS as nat),
        MICRO as int,
    );
    lemma_div_is_ordered(
        frac_log_bits(g1, FRAC_BITS as nat) * (MICRO as int),
        frac_log_bits(g2, FRAC_BITS as nat) * (MICRO as int),
        FRAC_POW as int,
    );
}

pub proof fn lemma_t_of_bounds(d: int, radius: int)
    requires
        0 <= d,
        0 < radius,
    ensures
        0 <= t_of(d, radius) <= MICRO as int,
{
    assert(d * (MICRO as int) >= 0) by (nonlinear_arith)
        requires
            d >= 0,
    ;
    lemma_div_pos_is_pos(d * (MICRO as int), radius);
}

pub proof fn lemma_t_of_monotone(d1: int, d2: int, radius: int)
    requires
        0 <= d1 <= d2,
        0 < radius,
    ensures
        t_of(d1, radius) <= t_of(d2, radius),
{
    lemma_mul_inequality(d1, d2, MICRO as int);
    lemma_div_is_ordered(d1 * (MICRO as int), d2 * (MICRO as int), radius);
}

/// Bounds on the intermediate square root of the softened linear falloff.
proof fn lemma_fprime_parts(t: int)
    requires
        0 <= t <= MICRO as int,
    ensures
        10_000 <= (MICRO as int - t) + SOFTEN as int <= 1_010_000,
        is_sqrt_floor(((MICRO as int - t) + SOFTEN as int) * (MICRO as int), sqrt_floor(
            ((MICRO as int - t) + SOFTEN as int) * (MICRO as int),
        )),
        100_000 <= sqrt_floor(((MICRO as int - t) + SOFTEN as int) * (MICRO as int)) <= 1_004_987,
{
    let fp = (MICRO as int - t) + SOFTEN as int;
    assert(10_000 * (MICRO as int) <= fp * (MICRO as int) <= 1_010_000 * (MICRO as int))
        by (nonlinear_arith)
        requires
            10_000 <= fp <= 1_010_000,
    ;
    let n = fp * (MICRO as int);
    crate::geom::lemma_sqrt_floor_exists(n);
    let s = sqrt_floor(n);
    assert(s <= 1_004_987) by (nonlinear_arith)
        requires
            s * s <= 1_010_000_000_000int,
            s >= 0,
    ;
    assert(s >= 100_000) by (nonlinear_arith)
        requires
            10_000_000_000int < (s + 1) * (s + 1),
            s >= 0,
    ;
}

pub proof fn lemma_fprime_bounds(t: int)
    requires
        0 <= t <= MICRO as int,
    ensures
        0 <= fprime_of(t) < FPRIME_CAP as int,
{
    lemma_fprime_parts(t);
    let fp = (MICRO as int - t) + SOFTEN as int;
    let s = sqrt_floor(fp * (MICRO as int));
    assert(100_000 * (MANTISSA_STEP as int) <= s * (MANTISSA_STEP as int) <= 1_004_987 * (
    MANTISSA_STEP as int)) by (nonlinear_arith)
        requires
            100_000 <= s <= 1_004_987,
    ;
    let g = s * (MANTISSA_STEP as int);
    if g >= LOG_TEN as int {
        lemma_div_pos_is_pos(g, 10);
        lemma_frac_log_scaled_bounds(g / 10);
    } else {
        lemma_frac_log_scaled_bounds(g);
    }
}

/// The softened falloff factor never increases as the blast fraction grows.
pub proof fn lemma_fprime_antitone(t1: int, t2: int)
    requires
        0 <= t1 <= t2 <= MICRO as int,
    ensures
        fprime_of(t2) <= fprime_of(t1),
{
    lemma_fprime_parts(t1);
    lemma_fprime_parts(t2);
    let fp1 = (MICRO as int - t1) + SOFTEN as int;
    let fp2 = (MICRO as int - t2) + SOFTEN as int;
    lemma_mul_inequality(fp2, fp1, MICRO as int);
    lemma_sqrt_floor_monotone(fp2 * (MICRO as int), fp1 * (MICRO as int));
    let s1 = sqrt_floor(fp1 * (MICRO as int));
    let s2 = sqrt_floor(fp2 * (MICRO as int));
    lemma_mul_inequality(s2, s1, MANTISSA_STEP as int);
    assert(s2 * (MANTISSA_STEP as int) >= 0) by (nonlinear_arith)
        requires
            s2 >= 0,
    ;
    let g1 = s1 * (MANTISSA_STEP as int);
    let g2 = s2 * (MANTISSA_STEP as int);
    if g1 >= LOG_TEN as int && g2 >= LOG_TEN as int {
        lemma_div_is_ordered(g2, g1, 10);
        lemma_div_pos_is_pos(g2, 10);
        lemma_frac_log_scaled_monotone(g2 / 10, g1 / 10);
    } else if g1 >= LOG_TEN as int {
        lemma_div_pos_is_pos(g1, 10);
        lemma_frac_log_scaled_bounds(g1 / 10);
        lemma_frac_log_scaled_bounds(g2);
    } else {
        lemma_frac_log_scaled_monotone(g2, g1);
    }
}

pub proof fn lemma_magnitude_bounds(d: int, radius: int, scale: int)
    requires
        0 <= d,
        0 < radius,
        0 <= scale <= SCALE_MAX as int,
    ensures
        0 <= magnitude_of(d, radius, scale) <= IMP_MAX as int,
{
    lemma_t_of_bounds(d, radius);
    lemma_fprime_bounds(t_of(d, radius));
    let f = fprime_of(t_of(d, radius));
    assert(0 <= f * scale <= (FPRIME_CAP as int) * (SCALE_MAX as int)) by (nonlinear_arith)
        requires
            0 <= f <= FPRIME_CAP as int,
            0 <= scale <= SCALE_MAX as int,
    ;
}

/// Impulse magnitude is non-increasing in the distance from the epicenter:
/// of two targets of one blast, the nearer one is pushed at least as hard.
pub proof fn lemma_magnitude_monotone(d1: int, d2: int, radius: int, scale: int)
    requires
        0 <= d1 <= d2,
        0 < radius,
        0 <= scale,
    ensures
        magnitude_of(d2, radius, scale) <= magnitude_of(d1, radius, scale),
{
    lemma_t_of_monotone(d1, d2, radius);
    lemma_t_of_bounds(d1, radius);
    lemma_t_of_bounds(d2, radius);
    lemma_fprime_antitone(t_of(d1, radius), t_of(d2, radius));
    lemma_mul_inequality(
        fprime_of(t_of(d2, radius)),
        fprime_of(t_of(d1, radius)),
        scale,
    );
}

/// At or beyond the blast edge the impulse magnitude is exactly zero.
pub proof fn lemma_magnitude_edge_zero(d: int, radius: int, scale: int)
    requires
        0 < radius <= d,
    ensures
        magnitude_of(d, radius, scale) == 0,
{
    assert(radius * (MICRO as int) <= d * (MICRO as int)) by (nonlinear_arith)
        requires
            0 < radius <= d,
    ;
    lemma_div_is_ordered(radius * (MICRO as int), d * (MICRO as int), radius);
    lemma_div_by_multiple(MICRO as int, radius);
    assert((MICRO as int) * radius == radius * (MICRO as int)) by (nonlinear_arith);
    assert(t_of(d, radius) == MICRO as int);
    let fp = (MICRO as int - MICRO as int) + SOFTEN as int;
    assert(fp == 10_000);
    assert(fp * (MICRO as int) == 10_000_000_000int) by (nonlinear_arith)
        requires
            fp == 10_000,
    ;
    assert(100_000int * 100_000int == 10_000_000_000int) by (nonlinear_arith);
    lemma_sqrt_floor_perfect(100_000);
    let s = sqrt_floor(fp * (MICRO as int));
    assert(s == 100_000);
    assert(s * (MANTISSA_STEP as int) == LOG_ONE as int) by (nonlinear_arith)
        requires
            s == 100_000,
    ;
    lemma_frac_log_bits_one(FRAC_BITS as nat);
    lemma2_to64();
    assert(fprime_of(MICRO as int) == 0);
    assert(0 * scale == 0) by (nonlinear_arith);
}

/// A target at or beyond the blast edge takes no impulse at all.
pub proof fn lemma_impulse_edge_zero(origin: Vec2I, target: Vec2I, radius: int, scale: int)
    requires
        0 < radius,
        dist_sq(origin, target) >= radius * radius,
    ensures
        impulse_of(origin, target, radius, scale) == (Vec2I { x: 0, y: 0 }),
{
    let d2 = dist_sq(origin, target);
    assert(radius * radius >= 1) by (nonlinear_arith)
        requires
            radius >= 1,
    ;
    lemma_sqrt_floor_perfect(radius);
    lemma_sqrt_floor_monotone(radius * radius, d2);
    let d = sqrt_floor(d2);
    lemma_magnitude_edge_zero(d, radius, scale);
    let dx = target.x - origin.x;
    let dy = target.y - origin.y;
    assert((if dx >= 0 {
        dx
    } else {
        -dx
    }) * 0 == 0) by (nonlinear_arith);
    assert((if dy >= 0 {
        dy
    } else {
        -dy
    }) * 0 == 0) by (nonlinear_arith);
    crate::geom::lemma_sqrt_floor_exists(d2);
    vstd::arithmetic::div_mod::lemma_div_of0(d);
}

/// A blast at the target's own position pushes it with the full epicenter
/// magnitude along the positive x axis: a deterministic, non-degenerate
/// vector slightly above the nominal maximum.
pub proof fn lemma_impulse_epicenter(p: Vec2I, radius: int, scale: int)
    requires
        0 < radius,
        0 <= scale,
    ensures
        impulse_of(p, p, radius, scale) == (Vec2I { x: magnitude_of(0, radius, scale), y: 0 }),
        magnitude_of(0, radius, scale) >= (MICRO as int) * scale,
{
    assert(dist_sq(p, p) == 0) by (nonlinear_arith);
    vstd::arithmetic::div_mod::lemma_div_of0(radius);
    assert(0 * (MICRO as int) == 0) by (nonlinear_arith);
    assert(t_of(0, radius) == 0);
    let fp = (MICRO as int - 0) + SOFTEN as int;
    assert(fp == 1_010_000);
    assert(fp * (MICRO as int) == 1_010_000_000_000int) by (nonlinear_arith)
        requires
            fp == 1_010_000,
    ;
    assert(1_004_987int * 1_004_987int == 1_009_998_870_169int) by (nonlinear_arith);
    assert(1_004_988int * 1_004_988int == 1_010_000_880_144int) by (nonlinear_arith);
    assert(is_sqrt_floor(1_010_000_000_000int, 1_004_987int));
    lemma_sqrt_floor_unique(1_010_000_000_000int, 1_004_987int);
    let s = sqrt_floor(fp * (MICRO as int));
    assert(s == 1_004_987);
    assert(s * (MANTISSA_STEP as int) == 10_049_870_000_000_000_000int) by (nonlinear_arith)
        requires
            s == 1_004_987,
    ;
    let g = s * (MANTISSA_STEP as int);
    assert(g >= LOG_TEN as int);
    lemma_div_pos_is_pos(g, 10);
    lemma_frac_log_scaled_bounds(g / 10);
    assert(fprime_of(0) >= MICRO as int);
    lemma_mul_inequality(MICRO as int, fprime_of(0), scale);
}

/// A collinear target straight along the positive x axis takes exactly the
/// scalar magnitude of its distance: together with the monotonicity of
/// `magnitude_of`, collinear targets at increasing distance take
/// non-increasing impulses.
pub proof fn lemma_impulse_collinear(origin: Vec2I, target: Vec2I, radius: int, scale: int)
    requires
        target.y == origin.y,
        target.x > origin.x,
        0 < radius,
        0 <= scale <= SCALE_MAX as int,
    ensures
        impulse_of(origin, target, radius, scale) == (Vec2I {
            x: magnitude_of(target.x - origin.x, radius, scale),
            y: 0,
        }),
{
    let dx = target.x - origin.x;
    assert(dist_sq(origin, target) == dx * dx);
    assert(dx * dx > 0) by (nonlinear_arith)
        requires
            dx > 0,
    ;
    lemma_sqrt_floor_perfect(dx);
    lemma_magnitude_bounds(dx, radius, scale);
    let m = magnitude_of(dx, radius, scale);
    lemma_div_by_multiple(m, dx);
    assert(m * dx == dx * m) by (nonlinear_arith);
    assert(0 * m == 0) by (nonlinear_arith);
    vstd::arithmetic::div_mod::lemma_div_of0(dx);
}

/// Every component of every impulse stays within `IMP_MAX`.
pub proof fn lemma_impulse_of_bounds(origin: Vec2I, target: Vec2I, radius: int, scale: int)
    requires
        0 < radius,
        0 <= scale <= SCALE_MAX as int,
    ensures
        -(IMP_MAX as int) <= impulse_of(origin, target, radius, scale).x <= IMP_MAX as int,
        -(IMP_MAX as int) <= impulse_of(origin, target, radius, scale).y <= IMP_MAX as int,
{
    let d2 = dist_sq(origin, target);
    crate::geom::lemma_dist_sq_nonneg(origin, target);
    if d2 == 0 {
        lemma_magnitude_bounds(0, radius, scale);
    } else {
        crate::geom::lemma_sqrt_floor_exists(d2);
        let d = sqrt_floor(d2);
        lemma_sqrt_floor_perfect(1);
        lemma_sqrt_floor_monotone(1, d2);
        lemma_magnitude_bounds(d, radius, scale);
        let m = magnitude_of(d, radius, scale);
        let dx = target.x - origin.x;
        let dy = target.y - origin.y;
        let ax = if dx >= 0 {
            dx
        } else {
            -dx
        };
        let ay = if dy >= 0 {
            dy
        } else {
            -dy
        };
        lemma_component_le_dist(origin, target);
        lemma_abs_component_le_sqrt(ax, d2);
        lemma_abs_component_le_sqrt(ay, d2);
        lemma_mul_inequality(ax, d, m);
        lemma_mul_inequality(ay, d, m);
        lemma_div_is_ordered(ax * m, d * m, d);
        lemma_div_is_ordered(ay * m, d * m, d);
        lemma_div_by_multiple(m, d);
        assert(m * d == d * m) by (nonlinear_arith);
        assert(ax * m >= 0) by (nonlinear_arith)
            requires
                ax >= 0 && m >= 0,
        ;
        assert(ay * m >= 0) by (nonlinear_arith)
            requires
                ay >= 0 && m >= 0,
        ;
        lemma_div_pos_is_pos(ax * m, d);
        lemma_div_pos_is_pos(ay * m, d);
    }
}

/// A component of a vector is no longer than the vector: if `a*a <= d2`,
/// then `a <= sqrt_floor(d2)`.
proof fn lemma_abs_component_le_sqrt(a: int, d2: int)
    requires
        0 <= a,
        a * a <= d2,
    ensures
        a <= sqrt_floor(d2),
{
    lemma_sqrt_floor_perfect(a);
    lemma_sqrt_floor_monotone(a * a, d2);
}

/// Both components of the displacement are bounded by the squared distance.
proof fn lemma_component_le_dist(a: Vec2I, b: Vec2I)
    ensures
        (b.x - a.x) * (b.x - a.x) <= dist_sq(a, b),
        (b.y - a.y) * (b.y - a.y) <= dist_sq(a, b),
        (a.x - b.x) * (a.x - b.x) <= dist_sq(a, b),
        (a.y - b.y) * (a.y - b.y) <= dist_sq(a, b),
{
    assert((b.x - a.x) * (b.x - a.x) >= 0) by (nonlinear_arith);
    assert((b.y - a.y) * (b.y - a.y) >= 0) by (nonlinear_arith);
    assert((a.x - b.x) * (a.x - b.x) == (b.x - a.x) * (b.x - a.x)) by (nonlinear_arith);
    assert((a.y - b.y) * (a.y - b.y) == (b.y - a.y) * (b.y - a.y)) by (nonlinear_arith);
}

} // verus!
