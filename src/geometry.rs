//! Integer plane geometry.
//!
//! Lengths are integers in milli-units of the world (`UNIT` per world unit) and
//! time is counted in simulation ticks, so every test below is exact.
use vstd::prelude::*;

verus! {

/// One world unit, in the library's length unit.
pub const UNIT: i64 = 1000;

/// Largest absolute coordinate of level geometry and of query positions.
pub const COORD_LIMIT: i64 = 1_000_000_000;

/// Largest absolute coordinate accepted by the exact segment test.
pub const WIDE_LIMIT: i64 = 1_099_511_627_776;

/// A point, or a displacement, in the plane.
#[derive(Clone, Copy, Debug, PartialEq, Eq, Structural)]
pub struct Point {
    pub x: i64,
    pub y: i64,
}

pub open spec fn in_bounds(p: Point) -> bool {
    -COORD_LIMIT <= p.x <= COORD_LIMIT && -COORD_LIMIT <= p.y <= COORD_LIMIT
}

pub open spec fn in_wide(p: Point) -> bool {
    -WIDE_LIMIT <= p.x <= WIDE_LIMIT && -WIDE_LIMIT <= p.y <= WIDE_LIMIT
}

pub open spec fn sq_len(x: int, y: int) -> int {
    x * x + y * y
}

pub open spec fn sq_dist(a: Point, b: Point) -> int {
    sq_len(b.x - a.x, b.y - a.y)
}

/// `r` is the square root of `n`, rounded down.
pub open spec fn is_sqrt_floor(n: int, r: int) -> bool {
    0 <= r && r * r <= n && n < (r + 1) * (r + 1)
}

/// The square root of `n`, rounded down.
pub open spec fn sqrt_floor(n: int) -> int {
    choose|r: int| is_sqrt_floor(n, r)
}

pub open spec fn cross(ax: int, ay: int, bx: int, by: int) -> int {
    ax * by - ay * bx
}

/// The closed segments `ab` and `cd` meet in exactly one point (parallel
/// segments never count as meeting).
pub open spec fn segments_cross(a: Point, b: Point, c: Point, d: Point) -> bool {
    let denom = cross(b.x - a.x, b.y - a.y, d.x - c.x, d.y - c.y);
    let tn = cross(c.x - a.x, c.y - a.y, d.x - c.x, d.y - c.y);
    let un = cross(c.x - a.x, c.y - a.y, b.x - a.x, b.y - a.y);
    denom != 0 && if denom > 0 {
        0 <= tn <= denom && 0 <= un <= denom
    } else {
        denom <= tn <= 0 && denom <= un <= 0
    }
}

pub proof fn lemma_sqrt_floor_unique(n: int, r1: int, r2: int)
    requires
        is_sqrt_floor(n, r1),
        is_sqrt_floor(n, r2),
    ensures
        r1 == r2,
{
    if r1 < r2 {
        assert(r1 + 1 <= r2);
        assert((r1 + 1) * (r1 + 1) <= r2 * r2) by (nonlinear_arith)
            requires
                0 <= r1 + 1 <= r2,
        ;
    } else if r2 < r1 {
        assert((r2 + 1) * (r2 + 1) <= r1 * r1) by (nonlinear_arith)
            requires
                0 <= r2 + 1 <= r1,
        ;
    }
}

/// Square root rounded down, for `n < 2^100`.
pub fn isqrt(n: u128) -> (r: u64)
    requires
        n < 0x10_0000_0000_0000_0000_0000_0000,
    ensures
        is_sqrt_floor(n as int, r as int),
        r as int == sqrt_floor(n as int),
        r < 0x4_0000_0000_0000,
{
    let mut lo: u64 = 0;
    let mut hi: u64 = 0x4_0000_0000_0000;
    assert(0x4_0000_0000_0000u64 as int * 0x4_0000_0000_0000u64 as int
        == 0x10_0000_0000_0000_0000_0000_0000int);
    while hi - lo > 1
        invariant
            lo < hi <= 0x4_0000_0000_0000,
            (lo as int) * (lo as int) <= n as int,
            (n as int) < (hi as int) * (hi as int),
        decreases hi - lo,
    {
        let mid: u64 = lo + (hi - lo) / 2;
        assert((mid as int) * (mid as int) < 0x10_0000_0000_0000_0000_0000_0000int) by (nonlinear_arith)
            requires
                0 <= mid < 0x4_0000_0000_0000,
        ;
        let sq: u128 = (mid as u128) * (mid as u128);
        if sq <= n {
            lo = mid;
        } else {
            hi = mid;
        }
    }
    proof {
        assert(is_sqrt_floor(n as int, lo as int));
        lemma_sqrt_floor_unique(n as int, lo as int, sqrt_floor(n as int));
    }
    lo
}

/// Squared distance between two points of the level.
pub fn squared_distance(a: Point, b: Point) -> (r: u128)
    requires
        in_wide(a),
        in_wide(b),
    ensures
        r as int == sq_dist(a, b),
        r < 0x10_0000_0000_0000_0000_0000_0000,
{
    let dx: i128 = b.x as i128 - a.x as i128;
    let dy: i128 = b.y as i128 - a.y as i128;
    proof {
        lemma_square_bound(dx as int);
        lemma_square_bound(dy as int);
    }
    let r = (dx * dx + dy * dy) as u128;
    r
}

proof fn lemma_square_bound(d: int)
    requires
        -0x200_0000_0000 <= d <= 0x200_0000_0000,
    ensures
        0 <= d * d <= 0x4_0000_0000_0000_0000_0000,
{
    assert(0 <= d * d <= 0x200_0000_0000 * 0x200_0000_0000) by (nonlinear_arith)
        requires
            -0x200_0000_0000 <= d <= 0x200_0000_0000,
    ;
}

/// Euclidean distance between two points, rounded down.
pub fn distance(a: Point, b: Point) -> (r: u64)
    requires
        in_wide(a),
        in_wide(b),
    ensures
        is_sqrt_floor(sq_dist(a, b), r as int),
        r as int == sqrt_floor(sq_dist(a, b)),
        r < 0x4_0000_0000_0000,
        in_bounds(a) && in_bounds(b) ==> r <= 0x1_0000_0000,
{
    let d = squared_distance(a, b);
    let r = isqrt(d);
    proof {
        if in_bounds(a) && in_bounds(b) {
            let dx = b.x - a.x;
            let dy = b.y - a.y;
            assert(dx * dx <= 0x4000_0000_0000_0000 && dy * dy <= 0x4000_0000_0000_0000) by (nonlinear_arith)
                requires
                    -0x8000_0000 <= dx <= 0x8000_0000,
                    -0x8000_0000 <= dy <= 0x8000_0000,
            ;
            if r > 0x1_0000_0000 {
                assert(r * r > 0x1_0000_0000 * 0x1_0000_0000) by (nonlinear_arith)
                    requires
                        r > 0x1_0000_0000,
                ;
            }
        }
    }
    r
}

/// `a / b` rounded towards minus infinity.
pub fn div_floor(a: i128, b: i128) -> (r: i128)
    requires
        0 < b <= 0x1_0000_0000_0000_0000_0000_0000,
        -0x1_0000_0000_0000_0000_0000_0000 <= a <= 0x1_0000_0000_0000_0000_0000_0000,
    ensures
        r as int == a as int / b as int,
{
    if a >= 0 {
        a / b
    } else {
        let q = (-a + b - 1) / b;
        proof {
            let ai = a as int;
            let bi = b as int;
            let m = -ai;
            vstd::arithmetic::div_mod::lemma_fundamental_div_mod(m + bi - 1, bi);
            vstd::arithmetic::div_mod::lemma_fundamental_div_mod(ai, bi);
            let qq = (m + bi - 1) / bi;
            let e = (m + bi - 1) % bi;
            let x = ai / bi;
            let y = ai % bi;
            assert(x == -qq) by (nonlinear_arith)
                requires
                    m == -ai,
                    bi > 0,
                    m + bi - 1 == bi * qq + e,
                    0 <= e < bi,
                    ai == bi * x + y,
                    0 <= y < bi,
                    m > 0,
            ;
        }
        -q
    }
}

fn mul_wide(a: i128, b: i128) -> (r: i128)
    requires
        -0x1_0000_0000_0000 <= a <= 0x1_0000_0000_0000,
        -0x1_0000_0000_0000 <= b <= 0x1_0000_0000_0000,
    ensures
        r == a * b,
        -0x1_0000_0000_0000_0000_0000_0000 <= r <= 0x1_0000_0000_0000_0000_0000_0000,
{
    proof {
        let bnd: int = 0x1_0000_0000_0000;
        assert(-(bnd * bnd) <= (a as int) * (b as int) <= bnd * bnd) by (nonlinear_arith)
            requires
                -bnd <= a <= bnd,
                -bnd <= b <= bnd,
        ;
        assert(bnd * bnd == 0x1_0000_0000_0000_0000_0000_0000int);
    }
    a * b
}

/// Whether the closed segments `ab` and `cd` cross (see `segments_cross`).
pub fn segments_intersect(a: Point, b: Point, c: Point, d: Point) -> (r: bool)
    requires
        in_wide(a),
        in_wide(b),
        in_wide(c),
        in_wide(d),
    ensures
        r == segments_cross(a, b, c, d),
{
    let rx: i128 = b.x as i128 - a.x as i128;
    let ry: i128 = b.y as i128 - a.y as i128;
    let sx: i128 = d.x as i128 - c.x as i128;
    let sy: i128 = d.y as i128 - c.y as i128;
    let qx: i128 = c.x as i128 - a.x as i128;
    let qy: i128 = c.y as i128 - a.y as i128;
    let denom = mul_wide(rx, sy) - mul_wide(ry, sx);
    let tn = mul_wide(qx, sy) - mul_wide(qy, sx);
    let un = mul_wide(qx, ry) - mul_wide(qy, rx);
    if denom == 0 {
        false
    } else if denom > 0 {
        0 <= tn && tn <= denom && 0 <= un && un <= denom
    } else {
        denom <= tn && tn <= 0 && denom <= un && un <= 0
    }
}

pub proof fn lemma_abs_le_sqrt(d: int, e: int, len: int)
    requires
        0 <= len,
        d * d + e * e < (len + 1) * (len + 1),
    ensures
        -len <= d <= len,
{
    assert(e * e >= 0) by (nonlinear_arith);
    if d > len {
        assert(d * d >= (len + 1) * (len + 1)) by (nonlinear_arith)
            requires
                d >= len + 1,
                len >= 0,
        ;
    } else if d < -len {
        assert(d * d >= (len + 1) * (len + 1)) by (nonlinear_arith)
            requires
                d <= -(len + 1),
                len >= 0,
        ;
    }
}

/// `(x, y)` scaled to length `UNIT` (each coordinate rounded down), or zero.
pub open spec fn unit_scaled(x: int, y: int) -> (int, int) {
    let len = sqrt_floor(x * x + y * y);
    if len == 0 {
        (0, 0)
    } else {
        ((x * UNIT) / len, (y * UNIT) / len)
    }
}

/// `(x, y)` scaled to length `UNIT`, for `|x|, |y| <= 2^44`.
pub fn scale_to_unit(x: i128, y: i128) -> (r: (i128, i128))
    requires
        -0x1000_0000_0000 <= x <= 0x1000_0000_0000,
        -0x1000_0000_0000 <= y <= 0x1000_0000_0000,
    ensures
        r.0 as int == unit_scaled(x as int, y as int).0,
        r.1 as int == unit_scaled(x as int, y as int).1,
        -UNIT <= r.0 <= UNIT,
        -UNIT <= r.1 <= UNIT,
{
    assert(0 <= x * x <= 0x100_0000_0000_0000_0000_0000) by (nonlinear_arith)
        requires
            -0x1000_0000_0000 <= x <= 0x1000_0000_0000,
    ;
    assert(0 <= y * y <= 0x100_0000_0000_0000_0000_0000) by (nonlinear_arith)
        requires
            -0x1000_0000_0000 <= y <= 0x1000_0000_0000,
    ;
    let len = isqrt((x * x + y * y) as u128) as i128;
    if len == 0 {
        return (0, 0);
    }
    proof {
        lemma_abs_le_sqrt(x as int, y as int, len as int);
        lemma_abs_le_sqrt(y as int, x as int, len as int);
        assert(len <= 0x100_0000_0000_0000) by {
            if len > 0x100_0000_0000_0000 {
                assert(len * len > 0x100_0000_0000_0000 * 0x100_0000_0000_0000) by (nonlinear_arith)
                    requires
                        len > 0x100_0000_0000_0000,
                ;
            }
        }
    }
    let a = unit_fraction(x, len);
    let b = unit_fraction(y, len);
    (a, b)
}

/// `d * UNIT / len` rounded down, for `|d| <= len`.
fn unit_fraction(d: i128, len: i128) -> (r: i128)
    requires
        0 < len <= 0x100_0000_0000_0000,
        -len <= d <= len,
    ensures
        r as int == (d * UNIT) as int / len as int,
        -UNIT <= r <= UNIT,
{
    assert(-len * UNIT <= d * UNIT <= len * UNIT) by (nonlinear_arith)
        requires
            -len <= d <= len,
    ;
    let r = div_floor(d * (UNIT as i128), len);
    proof {
        let n = (d * UNIT) as int;
        let l = len as int;
        vstd::arithmetic::div_mod::lemma_fundamental_div_mod(n, l);
        let q = n / l;
        let m = n % l;
        assert(-UNIT <= q <= UNIT) by (nonlinear_arith)
            requires
                n == l * q + m,
                0 <= m < l,
                -l * UNIT <= n <= l * UNIT,
                l > 0,
        ;
    }
    r
}

/// `v` scaled to length `UNIT`, or zero for a zero vector.
pub fn normalize_or_zero(v: Point) -> (r: Point)
    requires
        -0x1000_0000_0000 <= v.x <= 0x1000_0000_0000,
        -0x1000_0000_0000 <= v.y <= 0x1000_0000_0000,
    ensures
        r.x as int == unit_scaled(v.x as int, v.y as int).0,
        r.y as int == unit_scaled(v.x as int, v.y as int).1,
        -UNIT <= r.x <= UNIT,
        -UNIT <= r.y <= UNIT,
{
    let u = scale_to_unit(v.x as i128, v.y as i128);
    Point { x: u.0 as i64, y: u.1 as i64 }
}

} // verus!
