//! Fixed-point 2D geometry: positions in micro-units (millionths of a world
//! unit), exact squared distances, and a verified integer square root.

use vstd::prelude::*;

verus! {

/// Micro-units per world unit.
pub const MICRO: i64 = 1_000_000;

/// Largest coordinate magnitude a position may carry, in micro-units
/// (one million world units). Keeps every squared distance inside `u128`.
pub const POS_LIMIT: i64 = 1_000_000_000_000;

/// Largest argument `isqrt` accepts; covers every squared distance of
/// in-limit positions.
pub const ISQRT_MAX: u128 = 100_000_000_000_000_000_000_000_000;

/// Largest squared distance between two in-limit positions.
pub const DIST_SQ_MAX: u128 = 8_000_000_000_000_000_000_000_000;

/// Mathematical 2D vector used by specifications.
#[verifier::ext_equal]
pub ghost struct Vec2I {
    pub x: int,
    pub y: int,
}

/// A position in the plane, in micro-units.
#[derive(Clone, Copy, Debug, PartialEq, Eq, Structural)]
pub struct Pos {
    pub x: i64,
    pub y: i64,
}

impl View for Pos {
    type V = Vec2I;

    open spec fn view(&self) -> Vec2I {
        Vec2I { x: self.x as int, y: self.y as int }
    }
}

/// A position is within the coordinate range the arithmetic supports.
pub open spec fn pos_wf(p: Vec2I) -> bool {
    &&& -POS_LIMIT <= p.x <= POS_LIMIT
    &&& -POS_LIMIT <= p.y <= POS_LIMIT
}

/// Squared Euclidean distance between two points.
pub open spec fn dist_sq(a: Vec2I, b: Vec2I) -> int {
    let dx = b.x - a.x;
    let dy = b.y - a.y;
    dx * dx + dy * dy
}

pub proof fn lemma_dist_sq_nonneg(a: Vec2I, b: Vec2I)
    ensures
        dist_sq(a, b) >= 0,
{
    let dx = b.x - a.x;
    let dy = b.y - a.y;
    assert(dx * dx >= 0) by (nonlinear_arith);
    assert(dy * dy >= 0) by (nonlinear_arith);
}

pub proof fn lemma_dist_sq_bound(a: Vec2I, b: Vec2I)
    requires
        pos_wf(a),
        pos_wf(b),
    ensures
        0 <= dist_sq(a, b) <= DIST_SQ_MAX,
{
    let dx = b.x - a.x;
    let dy = b.y - a.y;
    assert(0 <= dx * dx <= (2 * POS_LIMIT) * (2 * POS_LIMIT)) by (nonlinear_arith)
        requires
            -2 * POS_LIMIT <= dx <= 2 * POS_LIMIT,
    ;
    assert(0 <= dy * dy <= (2 * POS_LIMIT) * (2 * POS_LIMIT)) by (nonlinear_arith)
        requires
            -2 * POS_LIMIT <= dy <= 2 * POS_LIMIT,
    ;
}

impl Pos {
    pub fn new(x: i64, y: i64) -> (p: Pos)
        requires
            -POS_LIMIT <= x <= POS_LIMIT,
            -POS_LIMIT <= y <= POS_LIMIT,
        ensures
            p@ == (Vec2I { x: x as int, y: y as int }),
            pos_wf(p@),
    {
        Pos { x, y }
    }

    /// Builds a position from whole world units.
    pub fn from_units(x: i64, y: i64) -> (p: Pos)
        requires
            -1_000_000 <= x <= 1_000_000,
            -1_000_000 <= y <= 1_000_000,
        ensures
            p@ == (Vec2I { x: x * MICRO, y: y * MICRO }),
            pos_wf(p@),
    {
        proof {
            assert(-POS_LIMIT <= x * MICRO <= POS_LIMIT) by (nonlinear_arith)
                requires
                    -1_000_000 <= x <= 1_000_000,
            ;
            assert(-POS_LIMIT <= y * MICRO <= POS_LIMIT) by (nonlinear_arith)
                requires
                    -1_000_000 <= y <= 1_000_000,
            ;
        }
        Pos { x: x * MICRO, y: y * MICRO }
    }
}

/// Computes the squared distance exactly.
pub fn dist_sq_exec(a: &Pos, b: &Pos) -> (d2: u128)
    requires
        pos_wf(a@),
        pos_wf(b@),
    ensures
        d2 == dist_sq(a@, b@),
        d2 <= DIST_SQ_MAX,
{
    let dx: i128 = (b.x as i128) - (a.x as i128);
    let dy: i128 = (b.y as i128) - (a.y as i128);
    proof {
        lemma_dist_sq_bound(a@, b@);
        assert(0 <= dx * dx <= (2 * POS_LIMIT) * (2 * POS_LIMIT)) by (nonlinear_arith)
            requires
                -2 * POS_LIMIT <= dx <= 2 * POS_LIMIT,
        ;
        assert(0 <= dy * dy <= (2 * POS_LIMIT) * (2 * POS_LIMIT)) by (nonlinear_arith)
            requires
                -2 * POS_LIMIT <= dy <= 2 * POS_LIMIT,
        ;
    }
    let sq: i128 = dx * dx + dy * dy;
    sq as u128
}

/// `r` is the floor of the square root of `n`.
pub open spec fn is_sqrt_floor(n: int, r: int) -> bool {
    &&& 0 <= r
    &&& r * r <= n
    &&& n < (r + 1) * (r + 1)
}

/// The floor of the square root of a non-negative integer.
pub open spec fn sqrt_floor(n: int) -> int {
    choose|r: int| is_sqrt_floor(n, r)
}

pub proof fn lemma_sqrt_floor_exists(n: int)
    requires
        n >= 0,
    ensures
        is_sqrt_floor(n, sqrt_floor(n)),
    decreases n,
{
    if n == 0 {
        assert(is_sqrt_floor(0, 0));
    } else {
        lemma_sqrt_floor_exists(n - 1);
        let r = sqrt_floor(n - 1);
        if (r + 1) * (r + 1) <= n {
            // then n == (r + 1) * (r + 1), so r + 1 is the root
            assert(n <= (r + 1) * (r + 1));
            assert((r + 1) * (r + 1) < (r + 2) * (r + 2)) by (nonlinear_arith)
                requires
                    r >= 0,
            ;
            assert(is_sqrt_floor(n, r + 1));
        } else {
            assert(is_sqrt_floor(n, r));
        }
    }
    let w = choose|w: int| is_sqrt_floor(n, w);
    assert(is_sqrt_floor(n, w));
}

pub proof fn lemma_sqrt_floor_unique(n: int, r: int)
    requires
        is_sqrt_floor(n, r),
    ensures
        r == sqrt_floor(n),
{
    lemma_sqrt_floor_exists(n);
    let s = sqrt_floor(n);
    if r < s {
        assert((r + 1) * (r + 1) <= s * s) by (nonlinear_arith)
            requires
                0 <= r + 1 <= s,
        ;
    }
    if s < r {
        assert((s + 1) * (s + 1) <= r * r) by (nonlinear_arith)
            requires
                0 <= s + 1 <= r,
        ;
    }
}

pub proof fn lemma_sqrt_floor_monotone(a: int, b: int)
    requires
        0 <= a <= b,
    ensures
        sqrt_floor(a) <= sqrt_floor(b),
{
    lemma_sqrt_floor_exists(a);
    lemma_sqrt_floor_exists(b);
    let ra = sqrt_floor(a);
    let rb = sqrt_floor(b);
    if rb < ra {
        assert((rb + 1) * (rb + 1) <= ra * ra) by (nonlinear_arith)
            requires
                0 <= rb + 1 <= ra,
        ;
    }
}

pub proof fn lemma_sqrt_floor_perfect(r: int)
    requires
        r >= 0,
    ensures
        sqrt_floor(r * r) == r,
{
    assert(r * r < (r + 1) * (r + 1)) by (nonlinear_arith)
        requires
            r >= 0,
    ;
    assert(r * r >= 0) by (nonlinear_arith);
    lemma_sqrt_floor_unique(r * r, r);
}

/// Floor of the integer square root, by binary search.
pub fn isqrt(n: u128) -> (r: u64)
    requires
        n <= ISQRT_MAX,
    ensures
        r == sqrt_floor(n as int),
        is_sqrt_floor(n as int, r as int),
{
    let mut lo: u128 = 0;
    let mut hi: u128 = 10_000_000_000_001;
    proof {
        assert((10_000_000_000_001u128 as int) * (10_000_000_000_001u128 as int) > ISQRT_MAX)
            by (nonlinear_arith);
    }
    while lo + 1 < hi
        invariant
            lo < hi,
            hi <= 10_000_000_000_001,
            lo * lo <= n,
            (n as int) < (hi as int) * (hi as int),
        decreases hi - lo,
    {
        let mid: u128 = lo + (hi - lo) / 2;
        proof {
            assert(mid * mid <= 10_000_000_000_001u128 * 10_000_000_000_001u128)
                by (nonlinear_arith)
                requires
                    0 <= mid <= 10_000_000_000_001u128,
            ;
        }
        if mid * mid <= n {
            lo = mid;
        } else {
            hi = mid;
        }
    }
    proof {
        assert((lo as int) + 1 == hi as int);
        assert(is_sqrt_floor(n as int, lo as int));
        lemma_sqrt_floor_unique(n as int, lo as int);
    }
    lo as u64
}

} // verus!
