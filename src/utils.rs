//! Fixed-point geometry, gradient curves and random point generation.
use vstd::prelude::*;

use crate::random::random_in;

verus! {

/// Micro-cells per terminal cell.
pub const UNIT: i64 = 1_000_000;

/// Largest magnitude of a position coordinate, in micro-cells.
pub const POS_LIMIT: i64 = 1_000_000_000_000;

/// Largest magnitude of a velocity component, in micro-cells per second.
pub const VEL_LIMIT: i64 = 2_000_000_000;

/// Largest magnitude of a coordinate that rounding and distances accept.
pub const COORD_LIMIT: i64 = 1_000_000_000_000_000;

/// A point or a direction in the plane, in micro-cells; `y` grows downwards.
#[derive(Debug, Clone, Copy, PartialEq, Eq, Structural)]
pub struct Vec2 {
    pub x: i64,
    pub y: i64,
}

impl Vec2 {
    pub fn new(x: i64, y: i64) -> (r: Vec2)
        ensures
            r.x == x,
            r.y == y,
    {
        Vec2 { x, y }
    }

    /// Both coordinates lie within `limit` of the origin.
    pub open spec fn within(self, limit: int) -> bool {
        -limit <= self.x <= limit && -limit <= self.y <= limit
    }
}

/// The cell that a coordinate falls in: the nearest whole cell, halves
/// rounded away from zero.
pub open spec fn cell_of(v: int) -> int {
    if v >= 0 {
        (v + UNIT / 2) / (UNIT as int)
    } else {
        -((-v + UNIT / 2) / (UNIT as int))
    }
}

fn cell_coord(v: i64) -> (r: isize)
    requires
        -COORD_LIMIT <= v <= COORD_LIMIT,
    ensures
        r == cell_of(v as int),
{
    if v >= 0 {
        ((v + UNIT / 2) / UNIT) as isize
    } else {
        -(((-v + UNIT / 2) / UNIT) as isize)
    }
}

/// Round a point to the cell that holds it.
pub fn round(input: Vec2) -> (r: (isize, isize))
    requires
        input.within(COORD_LIMIT as int),
    ensures
        r.0 == cell_of(input.x as int),
        r.1 == cell_of(input.y as int),
{
    (cell_coord(input.x), cell_coord(input.y))
}

pub open spec fn dist2(a: Vec2, b: Vec2) -> int {
    (b.x - a.x) * (b.x - a.x) + (b.y - a.y) * (b.y - a.y)
}

/// Squared distance between two points, in square micro-cells.
pub fn distance_squared(a: Vec2, b: Vec2) -> (r: i128)
    requires
        a.within(COORD_LIMIT as int),
        b.within(COORD_LIMIT as int),
    ensures
        r == dist2(a, b),
{
    let dx = b.x as i128 - a.x as i128;
    let dy = b.y as i128 - a.y as i128;
    assert(dx * dx <= 4 * COORD_LIMIT * COORD_LIMIT) by (nonlinear_arith)
        requires -2 * COORD_LIMIT <= dx <= 2 * COORD_LIMIT;
    assert(dy * dy <= 4 * COORD_LIMIT * COORD_LIMIT) by (nonlinear_arith)
        requires -2 * COORD_LIMIT <= dy <= 2 * COORD_LIMIT;
    assert(0 <= dx * dx && 0 <= dy * dy) by (nonlinear_arith);
    dx * dx + dy * dy
}

/// Milliseconds from `prev` to `now` on the caller's clock; a clock that
/// went backwards gives zero.
pub fn delta_time(prev: u64, now: u64) -> (r: u64)
    ensures
        r == if now >= prev { now - prev } else { 0 },
{
    if now >= prev {
        now - prev
    } else {
        0
    }
}

/// Points at most half a cell apart fall in the same or neighbouring cells.
pub proof fn lemma_cell_close(u: int, v: int)
    requires
        u <= v <= u + UNIT / 2,
    ensures
        cell_of(u) <= cell_of(v) <= cell_of(u) + 1,
{
    let d = UNIT as int;
    let h = d / 2;
    if u >= 0 {
        let a = u + h;
        let b = v + h;
        assert(a / d <= b / d <= a / d + 1) by (nonlinear_arith)
            requires 0 <= a <= b <= a + d, d > 0;
    } else if v < 0 {
        let a = -v + h;
        let b = -u + h;
        assert(a / d <= b / d <= a / d + 1) by (nonlinear_arith)
            requires 0 <= a <= b <= a + d, d > 0;
    } else {
        assert((v + h) / d == 0) by (nonlinear_arith)
            requires 0 <= v + h < d, d > 0, v < h;
        assert(0 <= (-u + h) / d <= 1) by (nonlinear_arith)
            requires 0 <= -u + h < 2 * d, d > 0;
    }
}

/// `r` is the integer square root of `n`.
pub open spec fn is_isqrt(n: int, r: int) -> bool {
    0 <= r && r * r <= n < (r + 1) * (r + 1)
}

/// The integer square root: the largest `r` with `r * r <= n`.
pub open spec fn spec_isqrt(n: int) -> int {
    choose|r: int| is_isqrt(n, r)
}

pub proof fn lemma_isqrt_unique(n: int, a: int, b: int)
    requires
        is_isqrt(n, a),
        is_isqrt(n, b),
    ensures
        a == b,
{
    if a < b {
        assert((a + 1) * (a + 1) <= b * b) by (nonlinear_arith)
            requires 0 <= a + 1 <= b;
    } else if b < a {
        assert((b + 1) * (b + 1) <= a * a) by (nonlinear_arith)
            requires 0 <= b + 1 <= a;
    }
}

pub fn isqrt(n: u64) -> (r: u64)
    ensures
        is_isqrt(n as int, r as int),
        r == spec_isqrt(n as int),
{
    let mut lo: u64 = 0;
    let mut hi: u64 = 4_294_967_296;
    assert(hi * hi > u64::MAX) by (nonlinear_arith)
        requires hi == 4_294_967_296u64;
    while hi - lo > 1
        invariant
            lo < hi <= 4_294_967_296,
            lo * lo <= n,
            n < hi * hi,
        decreases hi - lo,
    {
        let mid = lo + (hi - lo) / 2;
        assert(mid * mid <= 4_294_967_295u64 * 4_294_967_295u64) by (nonlinear_arith)
            requires mid < 4_294_967_296;
        if mid * mid <= n {
            lo = mid;
        } else {
            hi = mid;
        }
    }
    proof {
        let w = spec_isqrt(n as int);
        assert(is_isqrt(n as int, lo as int));
        assert(is_isqrt(n as int, w));
        lemma_isqrt_unique(n as int, lo as int, w);
    }
    lo
}

/// Division of `a` by a positive `d`, rounded towards zero.
pub open spec fn trunc_div(a: int, d: int) -> int {
    if a >= 0 {
        a / d
    } else {
        -((-a) / d)
    }
}

/// Dividing by a positive integer moves a value towards zero.
pub proof fn lemma_trunc_div_shrinks(a: int, d: int)
    requires
        d >= 1,
    ensures
        a >= 0 ==> trunc_div(a, d) <= a,
        a <= 0 ==> a <= trunc_div(a, d),
        a >= 0 ==> 0 <= trunc_div(a, d),
        a <= 0 ==> trunc_div(a, d) <= 0,
{
    if a >= 0 {
        assert(a / d <= a) by (nonlinear_arith)
            requires a >= 0, d >= 1;
        assert(0 <= a / d) by (nonlinear_arith)
            requires a >= 0, d >= 1;
    } else {
        assert((-a) / d <= -a) by (nonlinear_arith)
            requires -a >= 0, d >= 1;
        assert(0 <= (-a) / d) by (nonlinear_arith)
            requires -a >= 0, d >= 1;
    }
}

pub fn div_toward_zero(a: i128, d: i128) -> (r: i128)
    requires
        d > 0,
        a > i128::MIN,
    ensures
        r == trunc_div(a as int, d as int),
{
    if a >= 0 {
        a / d
    } else {
        -((-a) / d)
    }
}

/// `v` limited to the range `-limit..=limit`.
pub open spec fn clamp(v: int, limit: int) -> int {
    if v < -limit {
        -limit
    } else if v > limit {
        limit
    } else {
        v
    }
}

pub fn clamp_to(v: i128, limit: i64) -> (r: i64)
    requires
        limit >= 0,
    ensures
        r == clamp(v as int, limit as int),
{
    if v < -(limit as i128) {
        -limit
    } else if v > limit as i128 {
        limit
    } else {
        v as i64
    }
}

/// A gradient that brightens quickly and then fades, as in an explosion.
pub open spec fn explosion_curve_1(x: int) -> int {
    if x < 87 {
        150 * x * x / 1000
    } else {
        (6000 - 4 * x) / 5
    }
}

/// A gradient that rises in steps and then fades.
pub open spec fn explosion_curve_2(x: int) -> int {
    if x < 67 {
        5 * x + 100
    } else if x < 200 {
        2 * x + 300
    } else if x < 500 {
        x + 500
    } else if x < 684 {
        x / 2 + 750
    } else {
        1100 - 7 * (x - 650) * (x - 650) / 1000
    }
}

/// The first explosion gradient, at six tenths of its brightness.
pub open spec fn explosion_curve_3(x: int) -> int {
    if x < 87 {
        90 * x * x / 1000
    } else {
        (18000 - 12 * x) / 25
    }
}

/// A gradient that falls linearly from full brightness to three tenths.
pub open spec fn linear_curve_1(x: int) -> int {
    1000 - 7 * x / 10
}

/// Gradient of an explosion, for a life fraction `x` in thousandths; the
/// result is a brightness in thousandths.
pub fn explosion_gradient_1(x: u32) -> (r: u32)
    requires
        x <= 1000,
    ensures
        r == explosion_curve_1(x as int),
{
    if x < 87 {
        assert(150 * x * x <= 150 * 87 * 87) by (nonlinear_arith)
            requires x < 87;
        150 * x * x / 1000
    } else {
        (6000 - 4 * x) / 5
    }
}

/// Gradient of an explosion with a stepped rise, in thousandths.
pub fn explosion_gradient_2(x: u32) -> (r: u32)
    requires
        x <= 1000,
    ensures
        r == explosion_curve_2(x as int),
{
    if x < 67 {
        5 * x + 100
    } else if x < 200 {
        2 * x + 300
    } else if x < 500 {
        x + 500
    } else if x < 684 {
        x / 2 + 750
    } else {
        assert(7 * (x - 650) * (x - 650) <= 7 * 350 * 350) by (nonlinear_arith)
            requires 684 <= x <= 1000;
        1100 - 7 * (x - 650) * (x - 650) / 1000
    }
}

/// A darker explosion gradient, in thousandths.
pub fn explosion_gradient_3(x: u32) -> (r: u32)
    requires
        x <= 1000,
    ensures
        r == explosion_curve_3(x as int),
{
    if x < 87 {
        assert(90 * x * x <= 90 * 87 * 87) by (nonlinear_arith)
            requires x < 87;
        90 * x * x / 1000
    } else {
        (18000 - 12 * x) / 25
    }
}

/// A linear gradient, in thousandths.
pub fn linear_gradient_1(x: u32) -> (r: u32)
    requires
        x <= 1000,
    ensures
        r == linear_curve_1(x as int),
{
    1000 - 7 * x / 10
}

/// Total width of the first `i` columns of a disk whose columns have the
/// half-heights `h`: a column of half-height `k` holds `2 * k + 1` cells.
pub open spec fn columns_total(h: Seq<i64>, i: int) -> int
    decreases i,
{
    if i <= 0 {
        0
    } else {
        columns_total(h, i - 1) + 2 * h[i - 1] + 1
    }
}

proof fn lemma_columns_total_push(h: Seq<i64>, v: i64, i: int)
    requires
        0 <= i <= h.len(),
    ensures
        columns_total(h.push(v), i) == columns_total(h, i),
    decreases i,
{
    if i > 0 {
        lemma_columns_total_push(h, v, i - 1);
    }
}

proof fn lemma_columns_total_grows(h: Seq<i64>, i: int, j: int)
    requires
        0 <= i <= j <= h.len(),
        forall|k: int| 0 <= k < h.len() ==> h[k] >= 0,
    ensures
        columns_total(h, i) <= columns_total(h, j),
    decreases j - i,
{
    if i < j {
        lemma_columns_total_grows(h, i, j - 1);
    }
}

/// `p` is a whole-cell point within `radius` cells of the origin.
pub open spec fn in_disk(p: Vec2, radius: int) -> bool {
    exists|cx: int, cy: int|
        p.x == cx * UNIT && p.y == cy * UNIT && #[trigger] (cx * cx + cy * cy) <= radius * radius
}

/// `n` random whole-cell points within `radius` cells of the origin, each
/// drawn uniformly from all such points.
pub fn gen_points_circle(radius: isize, n: usize) -> (r: Vec<Vec2>)
    requires
        0 <= radius <= 1_000_000,
    ensures
        r@.len() == n,
        forall|i: int| 0 <= i < n ==> in_disk(#[trigger] r@[i], radius as int),
{
    let rad = radius as i64;
    let mut heights: Vec<i64> = Vec::new();
    let mut total: i64 = 0;
    let mut c: i64 = 0;
    while c <= 2 * rad
        invariant
            0 <= rad <= 1_000_000,
            0 <= c <= 2 * rad + 1,
            heights@.len() == c,
            total == columns_total(heights@, c as int),
            0 <= total <= c * (2 * rad + 1),
            forall|k: int|
                0 <= k < c ==> 0 <= #[trigger] heights@[k] <= rad && heights@[k] * heights@[k] + (k - rad) * (k
                    - rad) <= rad * rad,
        decreases 2 * rad + 1 - c,
    {
        let x = c - rad;
        assert(0 <= x * x <= rad * rad <= 1_000_000_000_000) by (nonlinear_arith)
            requires -rad <= x <= rad, 0 <= rad <= 1_000_000;
        let sq = rad * rad - x * x;
        let h0 = isqrt(sq as u64);
        assert(h0 <= 1_000_000) by (nonlinear_arith)
            requires h0 * h0 <= sq, sq <= 1_000_000_000_000, h0 >= 0;
        let h = h0 as i64;
        assert(h <= rad) by (nonlinear_arith)
            requires h * h <= rad * rad - x * x, h >= 0, rad >= 0;
        proof {
            lemma_columns_total_push(heights@, h, c as int);
        }
        heights.push(h);
        assert(c * (2 * rad + 1) <= 2_000_001 * 2_000_001) by (nonlinear_arith)
            requires 0 <= c <= 2 * rad + 1, rad <= 1_000_000;
        total = total + 2 * h + 1;
        c = c + 1;
        assert(total <= c * (2 * rad + 1)) by (nonlinear_arith)
            requires total <= (c - 1) * (2 * rad + 1) + 2 * h + 1, h <= rad;
    }
    assert(total >= 1) by {
        assert(columns_total(heights@, 1) == columns_total(heights@, 0) + 2 * heights@[0] + 1);
        lemma_columns_total_grows(heights@, 1, heights@.len() as int);
    }
    let mut res: Vec<Vec2> = Vec::new();
    while res.len() < n
        invariant
            res@.len() <= n,
            0 <= rad <= 1_000_000,
            heights@.len() == 2 * rad + 1,
            total == columns_total(heights@, heights@.len() as int),
            total >= 1,
            forall|k: int|
                0 <= k < heights@.len() ==> 0 <= #[trigger] heights@[k] <= rad && heights@[k] * heights@[k] + (k
                    - rad) * (k - rad) <= rad * rad,
            forall|i: int| 0 <= i < res@.len() ==> in_disk(#[trigger] res@[i], rad as int),
        decreases n - res@.len(),
    {
        let pick = random_in(0, total - 1);
        let mut col: usize = 0;
        let mut rem = pick;
        while col < heights.len() && rem >= 2 * heights[col] + 1
            invariant
                col <= heights@.len(),
                0 <= rad <= 1_000_000,
                heights@.len() == 2 * rad + 1,
                0 <= rem,
                rem == pick - columns_total(heights@, col as int),
                pick < columns_total(heights@, heights@.len() as int),
                forall|k: int| 0 <= k < heights@.len() ==> 0 <= #[trigger] heights@[k] <= rad,
            decreases heights@.len() - col,
        {
            rem = rem - (2 * heights[col] + 1);
            col = col + 1;
        }
        if col == heights.len() {
            assert(false);
        }
        let h = heights[col];
        let cx = col as i64 - rad;
        let cy = rem - h;
        assert(cy * cy <= h * h) by (nonlinear_arith)
            requires -h <= cy <= h;
        let p = Vec2 { x: cx * UNIT, y: cy * UNIT };
        assert(in_disk(p, rad as int)) by {
            assert(cx * cx + cy * cy <= rad * rad);
            assert(p.x == (cx as int) * UNIT && p.y == (cy as int) * UNIT);
        }
        res.push(p);
    }
    res
}

} // verus!
