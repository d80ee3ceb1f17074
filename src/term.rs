//! The compositor: particles' trails drawn as colored glyphs on a grid of
//! cells.
use vstd::prelude::*;

use crate::config::Config;
use crate::fireworks::{Firework, FireworkConfig, FireworkManager, FireworkState};
use crate::particle::{LifeState, Particle, ParticleView};
use crate::random::choose_char;
use crate::utils::{cell_of, distance_squared, dist2, lemma_cell_close, round, Vec2, POS_LIMIT, UNIT};

verus! {

/// Colors of a cell.
#[derive(Debug, Clone, Copy, PartialEq, Eq, Structural)]
pub enum Color {
    /// The color of an empty cell.
    White,
    Rgb { r: u8, g: u8, b: u8 },
}

/// A glyph with its color.
#[derive(Debug, Clone, Copy, PartialEq, Eq, Structural)]
pub struct Char {
    pub text: char,
    pub color: Color,
}

impl Char {
    /// A glyph with its color.
    pub fn new(text: char, color: Color) -> (r: Char)
        ensures
            r == (Char { text, color }),
    {
        Char { text, color }
    }
}

/// The empty cell.
pub open spec fn blank() -> Char {
    Char { text: ' ', color: Color::White }
}

/// Distance travelled along the leading axis per step of a line walk, in
/// micro-cells.
pub const STEP: i64 = 200_000;

/// Two cells touch, sideways or diagonally.
pub open spec fn adjacent(a: (isize, isize), b: (isize, isize)) -> bool {
    -1 <= a.0 - b.0 <= 1 && -1 <= a.1 - b.1 <= 1
}

/// The cell `c` touches, or is, the cell `(x, y)`.
pub open spec fn near(c: (isize, isize), x: int, y: int) -> bool {
    -1 <= c.0 - x <= 1 && -1 <= c.1 - y <= 1
}

/// -1, 0 or 1 by the sign of `v`.
pub open spec fn sign(v: int) -> int {
    if v < 0 {
        -1
    } else if v > 0 {
        1
    } else {
        0
    }
}

pub open spec fn abs(v: int) -> int {
    if v < 0 {
        -v
    } else {
        v
    }
}

/// The larger of the extents of the segment from `a` to `b` along the two
/// axes: the leading axis is the one it is measured on.
pub open spec fn lead_of(a: Vec2, b: Vec2) -> int {
    if abs(b.x - a.x) >= abs(b.y - a.y) {
        abs(b.x - a.x)
    } else {
        abs(b.y - a.y)
    }
}

/// Point `k` of the walk from `a` to `b`: `k` steps of `STEP` along the
/// leading axis and the same fraction of the way along the other, cut
/// towards `a` to whole micro-cells.
pub open spec fn walk_point(a: Vec2, b: Vec2, k: int) -> (int, int) {
    let l = lead_of(a, b);
    (
        a.x + sign(b.x - a.x) * (k * STEP * abs(b.x - a.x) / l),
        a.y + sign(b.y - a.y) * (k * STEP * abs(b.y - a.y) / l),
    )
}

/// Squared distance from point `k` of the walk to `b`.
pub open spec fn walk_dist(a: Vec2, b: Vec2, k: int) -> int {
    let p = walk_point(a, b, k);
    (b.x - p.0) * (b.x - p.0) + (b.y - p.1) * (b.y - p.1)
}

/// A bound on the number of steps; the walk has stopped well before it.
pub open spec fn walk_cap(a: Vec2, b: Vec2) -> int {
    3 * (lead_of(a, b) / (STEP as int)) + 6
}

/// The cell of a point.
pub open spec fn cell_pair(p: (int, int)) -> (isize, isize) {
    (cell_of(p.0) as isize, cell_of(p.1) as isize)
}

/// The walk from step `k` on, with `path` recorded so far and `ds` the
/// squared distance to `b` where the last cell was entered: while point `k`
/// is no farther from `b` than that, its cell is recorded if it differs from
/// the last one.
pub open spec fn walk_from(a: Vec2, b: Vec2, k: int, path: Seq<(isize, isize)>, ds: int) -> Seq<(isize, isize)>
    decreases walk_cap(a, b) - k,
{
    if 0 <= k < walk_cap(a, b) && walk_dist(a, b, k) <= ds {
        let c = cell_pair(walk_point(a, b, k));
        if c != path.last() {
            walk_from(a, b, k + 1, path.push(c), walk_dist(a, b, k))
        } else {
            walk_from(a, b, k + 1, path, ds)
        }
    } else {
        path
    }
}

/// The cells of the segment from `a` to `b`, as the walk records them.
pub open spec fn walk_cells(a: Vec2, b: Vec2) -> Seq<(isize, isize)> {
    if a == b {
        seq![cell_pair((a.x as int, a.y as int))]
    } else {
        walk_from(a, b, 0, seq![cell_pair((a.x as int, a.y as int))], dist2(a, b))
    }
}

/// Facts on the offset `k * STEP * d / l` of the walk along an axis of
/// extent `d` when the leading extent is `l`.
proof fn lemma_offset(k: int, d: int, l: int)
    requires
        0 <= d <= l,
        l > 0,
        k >= 0,
    ensures
        0 <= k * STEP * d / l,
        0 <= (k + 1) * STEP * d / l - k * STEP * d / l <= STEP + 1,
        k * STEP <= l ==> k * STEP * d / l <= d,
        k * STEP <= l ==> k * STEP * d / l <= k * STEP,
{
    let st = STEP as int;
    let a = k * st * d;
    let b = (k + 1) * st * d;
    assert(b == a + st * d) by (nonlinear_arith)
        requires a == k * st * d, b == (k + 1) * st * d;
    assert(0 <= a) by (nonlinear_arith)
        requires a == k * st * d, k >= 0, d >= 0, st > 0;
    assert(st * d <= st * l) by (nonlinear_arith)
        requires 0 <= d <= l, st > 0;
    let qa = a / l;
    let qb = b / l;
    assert(a == l * qa + a % l && 0 <= a % l < l) by (nonlinear_arith)
        requires qa == a / l, l > 0;
    assert(b == l * qb + b % l && 0 <= b % l < l) by (nonlinear_arith)
        requires qb == b / l, l > 0;
    assert(0 <= qa) by (nonlinear_arith)
        requires a == l * qa + a % l, 0 <= a % l < l, a >= 0, l > 0;
    assert(0 <= qb - qa <= st + 1) by (nonlinear_arith)
        requires a == l * qa + a % l, 0 <= a % l < l, b == l * qb + b % l, 0 <= b % l < l, b == a + st * d,
            0 <= st * d <= st * l, l > 0;
    if k * st <= l {
        assert(a <= l * d) by (nonlinear_arith)
            requires a == k * st * d, k * st <= l, d >= 0, k * st >= 0;
        assert(qa <= d) by (nonlinear_arith)
            requires a == l * qa + a % l, 0 <= a % l, a <= l * d, l > 0;
        assert(a <= k * st * l) by (nonlinear_arith)
            requires a == k * st * d, d <= l, k * st >= 0;
        assert(qa <= k * st) by (nonlinear_arith)
            requires a == l * qa + a % l, 0 <= a % l, a <= k * st * l, l > 0;
    }
}

/// After `l / STEP` steps the walk is less than one step short of `b` on
/// both axes.
proof fn lemma_offset_final(d: int, l: int)
    requires
        0 <= d <= l,
        l > 0,
    ensures
        d - (l / (STEP as int)) * STEP * d / l <= STEP,
{
    let st = STEP as int;
    let q = l / st;
    let r0 = l % st;
    assert(l == q * st + r0 && 0 <= r0 < st) by (nonlinear_arith)
        requires q == l / st, r0 == l % st, st > 0;
    assert(q >= 0) by (nonlinear_arith)
        requires q == l / st, l > 0, st > 0;
    let a = q * st * d;
    let off = a / l;
    assert(a == l * off + a % l && 0 <= a % l < l) by (nonlinear_arith)
        requires off == a / l, l > 0;
    assert(a == l * d - r0 * d) by (nonlinear_arith)
        requires a == q * st * d, l == q * st + r0;
    assert(r0 * d <= (st - 1) * l) by (nonlinear_arith)
        requires 0 <= r0 <= st - 1, 0 <= d <= l;
    assert(l * (d - off) < st * l) by (nonlinear_arith)
        requires a == l * off + a % l, 0 <= a % l < l, a == l * d - r0 * d, r0 * d <= (st - 1) * l;
    assert(d - off < st) by (nonlinear_arith)
        requires l * (d - off) < st * l, l > 0;
}

/// Coordinate of point `k` of the walk along one axis.
fn walk_coord(start: i64, s: i64, d: i64, l: i64, k: i64) -> (r: i64)
    requires
        -4 * POS_LIMIT <= start <= 4 * POS_LIMIT,
        s == -1 || s == 0 || s == 1,
        0 <= d <= l,
        0 < l <= 8 * POS_LIMIT,
        0 <= k <= 3 * (l / STEP) + 6,
    ensures
        r == start + s * (k * STEP * d / (l as int)),
        -4 * POS_LIMIT - k * STEP <= r <= 4 * POS_LIMIT + k * STEP,
{
    assert(k * STEP <= 3 * l + 6 * STEP) by (nonlinear_arith)
        requires 0 <= k <= 3 * (l / STEP) + 6, l > 0;
    let ks = k as i128 * STEP as i128;
    assert(0 <= ks * d <= (3 * l + 6 * STEP) * l) by (nonlinear_arith)
        requires 0 <= ks <= 3 * l + 6 * STEP, 0 <= d <= l;
    assert((3 * l + 6 * STEP) * l <= (24 * POS_LIMIT + 6 * STEP) * (8 * POS_LIMIT)) by (nonlinear_arith)
        requires 0 < l <= 8 * POS_LIMIT;
    assert((ks as int) * (d as int) <= 200_000_000_000_000_000_000_000_000) by (nonlinear_arith)
        requires 0 <= ks <= 3 * l + 6 * STEP, 0 <= d <= l, 0 < l <= 8 * POS_LIMIT;
    let num = ks * d as i128;
    assert((num as int) / (l as int) <= ks) by (nonlinear_arith)
        requires num == ks * d, 0 <= d <= l, l > 0, ks >= 0;
    assert((num as int) / (l as int) >= 0) by (nonlinear_arith)
        requires num >= 0, l > 0;
    let off = (num / l as i128) as i64;
    proof {
        lemma_offset(k as int, d as int, l as int);
        let kk = k as int;
        assert(kk * STEP * d <= kk * STEP * l) by (nonlinear_arith)
            requires d <= l, kk * STEP >= 0;
        assert(kk * STEP * d / (l as int) <= kk * STEP) by (nonlinear_arith)
            requires kk * STEP * d <= kk * STEP * l, l > 0, kk * STEP >= 0;
        assert(num == kk * STEP * d);
    }
    start + s * off
}

/// The cells on the segment from `a` to `b`, as described by `walk_cells`:
/// the walk advances `STEP` along the axis on which the segment is longer
/// and in proportion along the other, records each cell it enters, and
/// stops once it no longer draws nearer to `b`. The path starts in the cell
/// of `a`, every cell touches the one before it, a segment of no length is
/// its one cell, and some cell touches the cell of `b`.
#[verifier::rlimit(60)]
pub fn construct_line(a: Vec2, b: Vec2) -> (r: Vec<(isize, isize)>)
    requires
        a.within(4 * POS_LIMIT),
        b.within(4 * POS_LIMIT),
    ensures
        r@ == walk_cells(a, b),
        r@.len() >= 1,
        r@[0].0 == cell_of(a.x as int),
        r@[0].1 == cell_of(a.y as int),
        forall|i: int| 0 <= i < r@.len() - 1 ==> r@[i] != r@[i + 1] && adjacent(#[trigger] r@[i], r@[i + 1]),
        a == b ==> r@.len() == 1,
        exists|i: int| 0 <= i < r@.len() && near(#[trigger] r@[i], cell_of(b.x as int), cell_of(b.y as int)),
{
    let first = round(a);
    let mut path: Vec<(isize, isize)> = Vec::new();
    path.push(first);
    if a.x == b.x && a.y == b.y {
        assert(a == b);
        assert(path@ =~= walk_cells(a, b));
        assert(near(path@[0], cell_of(b.x as int), cell_of(b.y as int)));
        return path;
    }
    let ddx = b.x - a.x;
    let ddy = b.y - a.y;
    let adx: i64 = if ddx < 0 { -ddx } else { ddx };
    let ady: i64 = if ddy < 0 { -ddy } else { ddy };
    let sx: i64 = if ddx < 0 { -1 } else if ddx > 0 { 1 } else { 0 };
    let sy: i64 = if ddy < 0 { -1 } else if ddy > 0 { 1 } else { 0 };
    let lead: i64 = if adx >= ady { adx } else { ady };
    let cap: i64 = 3 * (lead / STEP) + 6;
    let ghost q: int = lead / STEP;
    proof {
        lemma_offset_final(adx as int, lead as int);
        lemma_offset_final(ady as int, lead as int);
        assert(q * STEP <= lead) by (nonlinear_arith)
            requires q == lead / STEP, lead > 0;
    }
    let mut ds = distance_squared(a, b);
    let mut x = walk_coord(a.x, sx, adx, lead, 0);
    let mut y = walk_coord(a.y, sy, ady, lead, 0);
    assert(0 * STEP * adx / (lead as int) == 0 && 0 * STEP * ady / (lead as int) == 0) by (nonlinear_arith)
        requires lead > 0;
    assert(b.x - a.x == sx * adx && b.y - a.y == sy * ady);
    assert(adx == abs(b.x - a.x) && ady == abs(b.y - a.y) && lead == lead_of(a, b));
    assert(lead_of(a, b) > 0);
    assert(0 * STEP * abs(b.x - a.x) == 0 && 0 * STEP * abs(b.y - a.y) == 0) by (nonlinear_arith);
    assert(0int / lead_of(a, b) == 0) by (nonlinear_arith)
        requires lead_of(a, b) > 0;
    assert(walk_point(a, b, 0) == (a.x as int, a.y as int));
    assert(walk_dist(a, b, 0) == ds);
    let mut last = first;
    let ghost mut px = a.x as int;
    let ghost mut py = a.y as int;
    let ghost mut mark: int = 0;
    let mut k: i64 = 0;
    assert(path@ =~= seq![cell_pair((a.x as int, a.y as int))]);
    while k < cap && distance_squared(Vec2::new(x, y), b) <= ds
        invariant
            0 <= k <= cap,
            cap == 3 * (lead / STEP) + 6,
            cap == walk_cap(a, b),
            lead == lead_of(a, b),
            0 < lead <= 8 * POS_LIMIT,
            q == lead / STEP,
            q * STEP <= lead,
            adx == abs(b.x - a.x),
            ady == abs(b.y - a.y),
            sx == sign(b.x - a.x),
            sy == sign(b.y - a.y),
            b.x - a.x == sx * adx,
            b.y - a.y == sy * ady,
            0 <= adx <= lead,
            0 <= ady <= lead,
            adx - q * STEP * adx / (lead as int) <= STEP,
            ady - q * STEP * ady / (lead as int) <= STEP,
            a != b,
            x == walk_point(a, b, k as int).0,
            y == walk_point(a, b, k as int).1,
            -4 * POS_LIMIT - k * STEP <= x <= 4 * POS_LIMIT + k * STEP,
            -4 * POS_LIMIT - k * STEP <= y <= 4 * POS_LIMIT + k * STEP,
            walk_cells(a, b) == walk_from(a, b, k as int, path@, ds as int),
            k <= q ==> walk_dist(a, b, k as int) <= ds,
            a.within(4 * POS_LIMIT),
            b.within(4 * POS_LIMIT),
            -STEP - 1 <= x - px <= STEP + 1,
            -STEP - 1 <= y - py <= STEP + 1,
            last.0 == cell_of(px),
            last.1 == cell_of(py),
            path@.len() >= 1,
            path@[0].0 == cell_of(a.x as int),
            path@[0].1 == cell_of(a.y as int),
            path@.last() == last,
            forall|i: int| 0 <= i < path@.len() - 1 ==> path@[i] != path@[i + 1] && adjacent(#[trigger] path@[i], path@[i + 1]),
            k > q ==> 0 <= mark < path@.len() && path@[mark] == cell_pair(walk_point(a, b, q)),
        decreases cap - k,
    {
        let c = round(Vec2::new(x, y));
        proof {
            if px <= x {
                lemma_cell_close(px, x as int);
            } else {
                lemma_cell_close(x as int, px);
            }
            if py <= y {
                lemma_cell_close(py, y as int);
            } else {
                lemma_cell_close(y as int, py);
            }
        }
        let ghost d_here = walk_dist(a, b, k as int);
        assert(dist2(Vec2 { x, y }, b) == d_here);
        if c.0 != last.0 || c.1 != last.1 {
            let ghost before = path@;
            path.push(c);
            assert forall|i: int| 0 <= i < path@.len() - 1 implies path@[i] != path@[i + 1] && adjacent(#[trigger] path@[i], path@[i + 1]) by {
                if i < before.len() - 1 {
                    assert(path@[i] == before[i] && path@[i + 1] == before[i + 1]);
                }
            }
            proof {
                if k > q {
                    assert(path@[mark] == before[mark]);
                }
            }
            last = c;
            ds = distance_squared(Vec2::new(x, y), b);
        }
        proof {
            if k == q {
                mark = path@.len() - 1;
            }
            let kk = k as int;
            lemma_offset(kk, adx as int, lead as int);
            lemma_offset(kk, ady as int, lead as int);
            if kk + 1 <= q {
                assert((kk + 1) * STEP <= lead) by (nonlinear_arith)
                    requires kk + 1 <= q, q * STEP <= lead;
                lemma_offset(kk + 1, adx as int, lead as int);
                lemma_offset(kk + 1, ady as int, lead as int);
                let ox = kk * STEP * adx / (lead as int);
                let ox1 = (kk + 1) * STEP * adx / (lead as int);
                let oy = kk * STEP * ady / (lead as int);
                let oy1 = (kk + 1) * STEP * ady / (lead as int);
                assert((adx - ox1) * (adx - ox1) <= (adx - ox) * (adx - ox)) by (nonlinear_arith)
                    requires 0 <= adx - ox1 <= adx - ox;
                assert((ady - oy1) * (ady - oy1) <= (ady - oy) * (ady - oy)) by (nonlinear_arith)
                    requires 0 <= ady - oy1 <= ady - oy;
                assert(b.x - walk_point(a, b, kk + 1).0 == sx * (adx - ox1));
                assert(b.x - walk_point(a, b, kk).0 == sx * (adx - ox));
                assert(b.y - walk_point(a, b, kk + 1).1 == sy * (ady - oy1));
                assert(b.y - walk_point(a, b, kk).1 == sy * (ady - oy));
                assert((sx * (adx - ox1)) * (sx * (adx - ox1)) <= (sx * (adx - ox)) * (sx * (adx - ox))) by (nonlinear_arith)
                    requires sx == -1 || sx == 0 || sx == 1, (adx - ox1) * (adx - ox1) <= (adx - ox) * (adx - ox);
                assert((sy * (ady - oy1)) * (sy * (ady - oy1)) <= (sy * (ady - oy)) * (sy * (ady - oy))) by (nonlinear_arith)
                    requires sy == -1 || sy == 0 || sy == 1, (ady - oy1) * (ady - oy1) <= (ady - oy) * (ady - oy);
                assert(walk_dist(a, b, kk + 1) <= walk_dist(a, b, kk));
            }
            px = x as int;
            py = y as int;
        }
        k = k + 1;
        x = walk_coord(a.x, sx, adx, lead, k);
        y = walk_coord(a.y, sy, ady, lead, k);
        proof {
            let kk = (k - 1) as int;
            let ox = kk * STEP * adx / (lead as int);
            let ox1 = (kk + 1) * STEP * adx / (lead as int);
            let oy = kk * STEP * ady / (lead as int);
            let oy1 = (kk + 1) * STEP * ady / (lead as int);
            assert(x - px == sx * (ox1 - ox));
            assert(y - py == sy * (oy1 - oy));
            assert(-STEP - 1 <= sx * (ox1 - ox) <= STEP + 1) by (nonlinear_arith)
                requires sx == -1 || sx == 0 || sx == 1, 0 <= ox1 - ox <= STEP + 1;
            assert(-STEP - 1 <= sy * (oy1 - oy) <= STEP + 1) by (nonlinear_arith)
                requires sy == -1 || sy == 0 || sy == 1, 0 <= oy1 - oy <= STEP + 1;
        }
    }
    proof {
        assert(walk_from(a, b, k as int, path@, ds as int) == path@);
        assert(k > q);
        let e = walk_point(a, b, q);
        let ox = q * STEP * adx / (lead as int);
        let oy = q * STEP * ady / (lead as int);
        lemma_offset(q, adx as int, lead as int);
        lemma_offset(q, ady as int, lead as int);
        assert(b.x - e.0 == sx * (adx - ox)) by (nonlinear_arith)
            requires e.0 == a.x + sx * ox, b.x - a.x == sx * adx;
        assert(b.y - e.1 == sy * (ady - oy)) by (nonlinear_arith)
            requires e.1 == a.y + sy * oy, b.y - a.y == sy * ady;
        assert(-STEP <= b.x - e.0 <= STEP) by (nonlinear_arith)
            requires b.x - e.0 == sx * (adx - ox), sx == -1 || sx == 0 || sx == 1, 0 <= adx - ox <= STEP;
        assert(-STEP <= b.y - e.1 <= STEP) by (nonlinear_arith)
            requires b.y - e.1 == sy * (ady - oy), sy == -1 || sy == 0 || sy == 1, 0 <= ady - oy <= STEP;
        if e.0 <= b.x {
            lemma_cell_close(e.0, b.x as int);
        } else {
            lemma_cell_close(b.x as int, e.0);
        }
        if e.1 <= b.y {
            lemma_cell_close(e.1, b.y as int);
        } else {
            lemma_cell_close(b.y as int, e.1);
        }
        assert(near(path@[mark], cell_of(b.x as int), cell_of(b.y as int)));
    }
    path
}

/// A color channel scaled by `scale` thousandths, cut to a whole number and
/// held at 255.
pub open spec fn scaled_channel(c: int, scale: int) -> int {
    if c * scale / 1000 > 255 {
        255
    } else {
        c * scale / 1000
    }
}

fn scale_channel(c: u8, scale: u32) -> (r: u8)
    ensures
        r == scaled_channel(c as int, scale as int),
{
    assert((c as int) * (scale as int) <= 255 * 4_294_967_295) by (nonlinear_arith)
        requires 0 <= c <= 255, 0 <= scale <= 4_294_967_295;
    let v = c as u64 * scale as u64 / 1000;
    if v > 255 {
        255
    } else {
        v as u8
    }
}

/// A color with every channel scaled by `scale` thousandths.
pub fn shift_gradient(color: (u8, u8, u8), scale: u32) -> (r: (u8, u8, u8))
    ensures
        r.0 == scaled_channel(color.0 as int, scale as int),
        r.1 == scaled_channel(color.1 as int, scale as int),
        r.2 == scaled_channel(color.2 as int, scale as int),
{
    (scale_channel(color.0, scale), scale_channel(color.1, scale), scale_channel(color.2, scale))
}

/// The glyphs for a segment of a particle in its first stage, by the
/// segment's density `num / den`.
pub open spec fn alive_palette(num: int, den: int, cjk: bool) -> Seq<char> {
    if 10 * num < 3 * den {
        if cjk { "。，”“』 『￥"@ } else { "`'. "@ }
    } else if 10 * num < 5 * den {
        if cjk { "一二三二三五十十已于上下义天"@ } else { "/\\|()1{}[]?"@ }
    } else if 10 * num < 7 * den {
        if cjk { "时中自字木月日目火田左右点以"@ } else { "oahkbdpqwmZO0QLCJUYXzcvunxrjft*"@ }
    } else {
        if cjk { "𰻞"@ } else { "$@B%8&WM#"@ }
    }
}

/// The glyphs for a segment of a declining particle.
pub open spec fn declining_palette(num: int, den: int, cjk: bool) -> Seq<char> {
    if 10 * num < 2 * den {
        if cjk { "？。， 『』 ||"@ } else { "` '. "@ }
    } else if 10 * num < 6 * den {
        if cjk { "（）【】*￥|十一二三六"@ } else { "-_ +~<> i!lI;:,\"^"@ }
    } else if 100 * num < 85 * den {
        if cjk { "人中亿入上下火土"@ } else { "/\\| ()1{}[ ]?"@ }
    } else {
        if cjk { "繁荣昌盛国泰民安龍龖龠龜耋"@ } else { "xrjft*"@ }
    }
}

/// The glyphs for a segment of a dying particle.
pub open spec fn dying_palette(num: int, den: int, cjk: bool) -> Seq<char> {
    if 10 * num < 6 * den {
        if cjk { "。 『 』 、： |。，— ……"@ } else { ".  ,`.    ^,' . "@ }
    } else {
        if cjk { "|￥人 上十入乙小 下"@ } else { " /\\| ( )  1{} [  ]?i !l I;: ,\"^ "@ }
    }
}

/// The glyphs for a segment of density `num / den` of a particle in
/// `stage`; a dead particle has none.
pub open spec fn palette_of(stage: LifeState, num: int, den: int, cjk: bool) -> Seq<char> {
    match stage {
        LifeState::Alive => alive_palette(num, den, cjk),
        LifeState::Declining => declining_palette(num, den, cjk),
        LifeState::Dying => dying_palette(num, den, cjk),
        LifeState::Dead => Seq::empty(),
    }
}

/// A random glyph for a segment of density `num / den` of a particle in its
/// first stage.
pub fn get_char_alive(num: usize, den: usize, cjk: bool) -> (r: char)
    ensures
        alive_palette(num as int, den as int, cjk).contains(r),
{
    let n = num as u128;
    let d = den as u128;
    let palette = if 10 * n < 3 * d {
        if cjk { "。，”“』 『￥" } else { "`'. " }
    } else if 10 * n < 5 * d {
        if cjk { "一二三二三五十十已于上下义天" } else { "/\\|()1{}[]?" }
    } else if 10 * n < 7 * d {
        if cjk { "时中自字木月日目火田左右点以" } else { "oahkbdpqwmZO0QLCJUYXzcvunxrjft*" }
    } else {
        if cjk { "𰻞" } else { "$@B%8&WM#" }
    };
    proof {
        reveal_strlit("。，”“』 『￥");
        reveal_strlit("`'. ");
        reveal_strlit("一二三二三五十十已于上下义天");
        reveal_strlit("/\\|()1{}[]?");
        reveal_strlit("时中自字木月日目火田左右点以");
        reveal_strlit("oahkbdpqwmZO0QLCJUYXzcvunxrjft*");
        reveal_strlit("𰻞");
        reveal_strlit("$@B%8&WM#");
    }
    choose_char(palette)
}

/// A random glyph for a segment of density `num / den` of a declining
/// particle.
pub fn get_char_declining(num: usize, den: usize, cjk: bool) -> (r: char)
    ensures
        declining_palette(num as int, den as int, cjk).contains(r),
{
    let n = num as u128;
    let d = den as u128;
    let palette = if 10 * n < 2 * d {
        if cjk { "？。， 『』 ||" } else { "` '. " }
    } else if 10 * n < 6 * d {
        if cjk { "（）【】*￥|十一二三六" } else { "-_ +~<> i!lI;:,\"^" }
    } else if 100 * n < 85 * d {
        if cjk { "人中亿入上下火土" } else { "/\\| ()1{}[ ]?" }
    } else {
        if cjk { "繁荣昌盛国泰民安龍龖龠龜耋" } else { "xrjft*" }
    };
    proof {
        reveal_strlit("？。， 『』 ||");
        reveal_strlit("` '. ");
        reveal_strlit("（）【】*￥|十一二三六");
        reveal_strlit("-_ +~<> i!lI;:,\"^");
        reveal_strlit("人中亿入上下火土");
        reveal_strlit("/\\| ()1{}[ ]?");
        reveal_strlit("繁荣昌盛国泰民安龍龖龠龜耋");
        reveal_strlit("xrjft*");
    }
    choose_char(palette)
}

/// A random glyph for a segment of density `num / den` of a dying particle.
pub fn get_char_dying(num: usize, den: usize, cjk: bool) -> (r: char)
    ensures
        dying_palette(num as int, den as int, cjk).contains(r),
{
    let n = num as u128;
    let d = den as u128;
    let palette = if 10 * n < 6 * d {
        if cjk { "。 『 』 、： |。，— ……" } else { ".  ,`.    ^,' . " }
    } else {
        if cjk { "|￥人 上十入乙小 下" } else { " /\\| ( )  1{} [  ]?i !l I;: ,\"^ " }
    };
    proof {
        reveal_strlit("。 『 』 、： |。，— ……");
        reveal_strlit(".  ,`.    ^,' . ");
        reveal_strlit("|￥人 上十入乙小 下");
        reveal_strlit(" /\\| ( )  1{} [  ]?i !l I;: ,\"^ ");
    }
    choose_char(palette)
}

/// A grid of cells sized to the terminal.
#[derive(Debug)]
pub struct Terminal {
    /// Columns and rows of the grid.
    pub size: (u16, u16),
    /// The cells, row by row.
    pub screen: Vec<Vec<Char>>,
}

/// `h` rows of `w` empty cells.
pub open spec fn blank_grid(w: int, h: int) -> Seq<Seq<Char>> {
    Seq::new(h as nat, |y: int| Seq::new(w as nat, |x: int| blank()))
}

fn blank_screen(w: u16, h: u16) -> (r: Vec<Vec<Char>>)
    ensures
        r@.map_values(|row: Vec<Char>| row@) == blank_grid(w as int, h as int),
        r@.len() == h,
        forall|y: int| 0 <= y < h ==> (#[trigger] r@[y])@.len() == w,
{
    let mut screen: Vec<Vec<Char>> = Vec::new();
    let mut y: u16 = 0;
    while y < h
        invariant
            y <= h,
            screen@.map_values(|row: Vec<Char>| row@) == blank_grid(w as int, y as int),
            screen@.len() == y,
            forall|k: int| 0 <= k < y ==> (#[trigger] screen@[k])@.len() == w,
        decreases h - y,
    {
        let mut line: Vec<Char> = Vec::new();
        let mut x: u16 = 0;
        while x < w
            invariant
                x <= w,
                line@ == Seq::new(x as nat, |i: int| blank()),
            decreases w - x,
        {
            line.push(Char { text: ' ', color: Color::White });
            x += 1;
            assert(line@ =~= Seq::new(x as nat, |i: int| blank()));
        }
        let ghost before = screen@;
        screen.push(line);
        y += 1;
        assert(screen@.map_values(|row: Vec<Char>| row@) =~= blank_grid(w as int, y as int)) by {
            assert(screen@ == before.push(line));
            assert forall|k: int| 0 <= k < y implies (#[trigger] screen@[k])@
                =~= blank_grid(w as int, y as int)[k] by {
                if k < y - 1 {
                    assert(before.map_values(|row: Vec<Char>| row@)[k] == blank_grid(w as int, (y - 1) as int)[k]);
                }
            }
        }
    }
    screen
}

/// The number of columns for a terminal `width` columns wide: half of what
/// is left after the last column in double-width mode.
pub open spec fn columns_for(width: int, cjk: bool) -> int {
    if cjk {
        (width - 1) / 2
    } else {
        width
    }
}

/// One attempt to paint a cell: the glyph comes from the palette of a
/// segment of density `num / den` of a particle in `stage`.
pub ghost struct Stroke {
    pub cell: (isize, isize),
    pub stage: LifeState,
    pub num: int,
    pub den: int,
    pub color: (u8, u8, u8),
}

/// The stroke paints cell `(x, y)`, if the cell still shows a space.
pub open spec fn strikes(s: Stroke, x: int, y: int) -> bool {
    s.cell.0 == x && s.cell.1 == y && s.stage != LifeState::Dead
}

/// Cell `(x, y)` may still show a space after `strokes`: every stroke on it
/// so far could have drawn a space.
pub open spec fn may_be_space(strokes: Seq<Stroke>, x: int, y: int, cjk: bool) -> bool
    decreases strokes.len(),
{
    if strokes.len() == 0 {
        true
    } else {
        let s = strokes.last();
        may_be_space(strokes.drop_last(), x, y, cjk) && (strikes(s, x, y) ==> palette_of(
            s.stage,
            s.num,
            s.den,
            cjk,
        ).contains(' '))
    }
}

/// `c` is what cell `(x, y)` can show after `strokes` are painted in order
/// onto an empty grid, each painting its cell only where the cell shows a
/// space, in its color and with a glyph of its palette; a dead particle's
/// stroke paints nothing. So a cell no stroke touches stays empty, and a
/// cell shows the first stroke on it that drew something other than a
/// space.
pub open spec fn shows(strokes: Seq<Stroke>, x: int, y: int, cjk: bool, c: Char) -> bool
    decreases strokes.len(),
{
    if strokes.len() == 0 {
        c == blank()
    } else {
        let s = strokes.last();
        let rest = strokes.drop_last();
        if strikes(s, x, y) {
            (may_be_space(rest, x, y, cjk) && c.color == (Color::Rgb { r: s.color.0, g: s.color.1, b: s.color.2 })
                && palette_of(s.stage, s.num, s.den, cjk).contains(c.text)) || (c.text != ' ' && shows(
                rest,
                x,
                y,
                cjk,
                c,
            ))
        } else {
            shows(rest, x, y, cjk, c)
        }
    }
}

/// A cell that shows a space may still do so.
proof fn lemma_space_possible(ss: Seq<Stroke>, x: int, y: int, cjk: bool, c: Char)
    requires
        shows(ss, x, y, cjk, c),
        c.text == ' ',
    ensures
        may_be_space(ss, x, y, cjk),
    decreases ss.len(),
{
    if ss.len() > 0 {
        let s = ss.last();
        if strikes(s, x, y) {
            if may_be_space(ss.drop_last(), x, y, cjk) && palette_of(s.stage, s.num, s.den, cjk).contains(c.text) {
            } else {
                lemma_space_possible(ss.drop_last(), x, y, cjk, c);
            }
        } else {
            lemma_space_possible(ss.drop_last(), x, y, cjk, c);
        }
    }
}

/// A stroke on cell `(x, y)` turns what the cell showed into what it paints.
proof fn lemma_shows_paint(ss: Seq<Stroke>, st: Stroke, x: int, y: int, cjk: bool, prior: Char, c: Char)
    requires
        shows(ss, x, y, cjk, prior),
        strikes(st, x, y),
        if prior.text == ' ' {
            c.color == (Color::Rgb { r: st.color.0, g: st.color.1, b: st.color.2 }) && palette_of(
                st.stage,
                st.num,
                st.den,
                cjk,
            ).contains(c.text)
        } else {
            c == prior
        },
    ensures
        shows(ss.push(st), x, y, cjk, c),
{
    let t = ss.push(st);
    assert(t.drop_last() =~= ss);
    assert(t.last() == st);
    if prior.text == ' ' {
        lemma_space_possible(ss, x, y, cjk, prior);
    }
}

/// A stroke elsewhere, or of a dead particle, leaves cell `(x, y)` as it was.
proof fn lemma_shows_skip(ss: Seq<Stroke>, st: Stroke, x: int, y: int, cjk: bool, c: Char)
    requires
        shows(ss, x, y, cjk, c),
        !strikes(st, x, y),
    ensures
        shows(ss.push(st), x, y, cjk, c),
{
    let t = ss.push(st);
    assert(t.drop_last() =~= ss);
    assert(t.last() == st);
}

/// A cell that a stroke of a live particle reaches is painted: it is no
/// longer the empty cell and has a color of its own.
pub proof fn lemma_struck_cell_painted(ss: Seq<Stroke>, x: int, y: int, cjk: bool, c: Char, i: int)
    requires
        shows(ss, x, y, cjk, c),
        0 <= i < ss.len(),
        strikes(ss[i], x, y),
    ensures
        c.color is Rgb,
    decreases ss.len(),
{
    let rest = ss.drop_last();
    if strikes(ss.last(), x, y) {
        if !(may_be_space(rest, x, y, cjk) && c.color == (Color::Rgb {
            r: ss.last().color.0,
            g: ss.last().color.1,
            b: ss.last().color.2,
        }) && palette_of(ss.last().stage, ss.last().num, ss.last().den, cjk).contains(c.text)) {
            lemma_shows_not_blank(rest, x, y, cjk, c);
        }
    } else {
        assert(i < ss.len() - 1);
        assert(rest[i] == ss[i]);
        lemma_struck_cell_painted(rest, x, y, cjk, c, i);
    }
}

/// A cell that shows something other than a space was painted.
proof fn lemma_shows_not_blank(ss: Seq<Stroke>, x: int, y: int, cjk: bool, c: Char)
    requires
        shows(ss, x, y, cjk, c),
        c.text != ' ',
    ensures
        c.color is Rgb,
    decreases ss.len(),
{
    if ss.len() > 0 {
        let s = ss.last();
        if strikes(s, x, y) && may_be_space(ss.drop_last(), x, y, cjk) && c.color == (Color::Rgb {
            r: s.color.0,
            g: s.color.1,
            b: s.color.2,
        }) {
        } else {
            lemma_shows_not_blank(ss.drop_last(), x, y, cjk, c);
        }
    }
}

/// A stroke painted onto a grid that `ss` explains leaves a grid that
/// `ss` followed by the stroke explains.
proof fn lemma_plot_explained(before: Terminal, after: Terminal, ss: Seq<Stroke>, st: Stroke, cjk: bool)
    requires
        before.wf(),
        after.size == before.size,
        before.plotted(&after, st, cjk),
        before.explained_by(ss, cjk),
    ensures
        after.explained_by(ss.push(st), cjk),
{
    assert forall|y: int, x: int| after.on_grid(x, y) implies shows(ss.push(st), x, y, cjk, #[trigger] after.grid()[y][x]) by {
        let prior = before.grid()[y][x];
        assert(before.on_grid(x, y));
        assert(shows(ss, x, y, cjk, prior));
        if strikes(st, x, y) {
            assert(before.holds(st.cell));
            lemma_shows_paint(ss, st, x, y, cjk, prior, after.grid()[y][x]);
        } else {
            assert(after.grid()[y][x] == prior);
            lemma_shows_skip(ss, st, x, y, cjk, prior);
        }
    }
}

/// A trail point on the grid: horizontal coordinates doubled unless glyphs
/// are double-width.
pub open spec fn scaled_point(v: Vec2, cjk: bool) -> Vec2 {
    if cjk {
        v
    } else {
        Vec2 { x: (2 * v.x) as i64, y: v.y }
    }
}

/// The color a particle is drawn in: its own, or scaled by the gradient
/// curve at its life fraction when the gradient is on.
pub open spec fn draw_color(p: ParticleView, fcfg: FireworkConfig) -> (u8, u8, u8) {
    if fcfg.enable_gradient {
        let g = fcfg.gradient_scale.value(p.time_elapsed * 1000 / (p.config.life_time as int));
        (
            scaled_channel(p.config.color.0 as int, g) as u8,
            scaled_channel(p.config.color.1 as int, g) as u8,
            scaled_channel(p.config.color.2 as int, g) as u8,
        )
    } else {
        p.config.color
    }
}

/// The strokes of segment `idx` of a particle's trail, counted from the
/// head: the cells of the walk between two consecutive trail points.
pub open spec fn segment_strokes(p: ParticleView, fcfg: FireworkConfig, cjk: bool, idx: int) -> Seq<Stroke> {
    let n = p.trail.len() as int;
    let tl = p.config.trail_length as int;
    walk_cells(scaled_point(p.trail[n - 1 - idx], cjk), scaled_point(p.trail[n - 2 - idx], cjk)).map_values(
        |c: (isize, isize)| Stroke { cell: c, stage: p.life_state, num: tl - idx - 1, den: tl, color: draw_color(p, fcfg) },
    )
}

/// The strokes of the first `m` segments of a particle's trail.
pub open spec fn segments_strokes(p: ParticleView, fcfg: FireworkConfig, cjk: bool, m: int) -> Seq<Stroke>
    decreases m,
{
    if m <= 0 {
        Seq::empty()
    } else {
        segments_strokes(p, fcfg, cjk, m - 1) + segment_strokes(p, fcfg, cjk, m - 1)
    }
}

/// The strokes that draw one particle: none when it is dead.
pub open spec fn particle_strokes(p: ParticleView, fcfg: FireworkConfig, cjk: bool) -> Seq<Stroke> {
    if p.life_state == LifeState::Dead {
        Seq::empty()
    } else {
        segments_strokes(p, fcfg, cjk, p.trail.len() - 1)
    }
}

/// The strokes of the last `m` particles of a firework, last first.
pub open spec fn firework_strokes(fw: Firework, cjk: bool, m: int) -> Seq<Stroke>
    decreases m,
{
    if m <= 0 {
        Seq::empty()
    } else {
        firework_strokes(fw, cjk, m - 1) + particle_strokes(fw.live()[fw.live().len() - m], fw.config, cjk)
    }
}

/// The strokes of the last `m` fireworks of `fws`, last first; only alive
/// fireworks are drawn.
pub open spec fn show_strokes(fws: Seq<Firework>, cjk: bool, m: int) -> Seq<Stroke>
    decreases m,
{
    if m <= 0 {
        Seq::empty()
    } else {
        let fw = fws[fws.len() - m];
        show_strokes(fws, cjk, m - 1) + if fw.state == FireworkState::Alive {
            firework_strokes(fw, cjk, fw.live().len() as int)
        } else {
            Seq::empty()
        }
    }
}

/// The cell of a particle's head, its newest trail position, with
/// horizontal coordinates doubled unless glyphs are double-width.
pub open spec fn head_cell(p: ParticleView, cjk: bool) -> (int, int) {
    let h = p.trail.last();
    (cell_of(if cjk { h.x as int } else { 2 * h.x }), cell_of(h.y as int))
}

impl Terminal {
    /// Cell `(x, y)` lies on the grid.
    pub open spec fn on_grid(&self, x: int, y: int) -> bool {
        0 <= x < self.size.0 && 0 <= y < self.size.1
    }

    /// Every cell painted in `self` is still painted in `next`.
    pub open spec fn keeps_paint(&self, next: &Terminal) -> bool {
        &&& next.size == self.size
        &&& forall|y: int, x: int|
            self.on_grid(x, y) && (#[trigger] self.grid()[y][x]).color is Rgb ==> next.grid()[y][x].color is Rgb
    }

    /// The head of `p` is painted, if `p` is drawn at all and its head is on
    /// the grid.
    pub open spec fn shows_head(&self, p: ParticleView, cjk: bool) -> bool {
        p.life_state != LifeState::Dead && p.trail.len() >= 2 && self.on_grid(head_cell(p, cjk).0, head_cell(p, cjk).1)
            ==> self.grid()[head_cell(p, cjk).1][head_cell(p, cjk).0].color is Rgb
    }

    pub open spec fn grid(&self) -> Seq<Seq<Char>> {
        self.screen@.map_values(|row: Vec<Char>| row@)
    }

    pub open spec fn wf(&self) -> bool {
        &&& self.screen@.len() == self.size.1
        &&& forall|y: int| 0 <= y < self.size.1 ==> (#[trigger] self.screen@[y])@.len() == self.size.0
    }

    /// The cell `(x, y)` lies on the grid.
    pub open spec fn holds(&self, c: (isize, isize)) -> bool {
        0 <= c.0 < self.size.0 && 0 <= c.1 < self.size.1
    }

    /// `next` is `self` after stroke `st`: its cell, if on the grid and
    /// showing a space, gets the stroke's color and a glyph of its palette;
    /// nothing else changes.
    pub open spec fn plotted(&self, next: &Terminal, st: Stroke, cjk: bool) -> bool {
        let c = st.cell;
        if self.holds(c) && self.grid()[c.1 as int][c.0 as int].text == ' ' && st.stage != LifeState::Dead {
            let cell = next.grid()[c.1 as int][c.0 as int];
            &&& next.grid() == self.grid().update(c.1 as int, self.grid()[c.1 as int].update(c.0 as int, cell))
            &&& cell.color == (Color::Rgb { r: st.color.0, g: st.color.1, b: st.color.2 })
            &&& palette_of(st.stage, st.num, st.den, cjk).contains(cell.text)
        } else {
            next.grid() == self.grid()
        }
    }

    /// Every cell on the grid shows what `strokes` can leave there.
    pub open spec fn explained_by(&self, strokes: Seq<Stroke>, cjk: bool) -> bool {
        forall|y: int, x: int| self.on_grid(x, y) ==> shows(strokes, x, y, cjk, #[trigger] self.grid()[y][x])
    }

    /// Every cell is empty or was painted.
    pub open spec fn tidy(&self) -> bool {
        forall|y: int, x: int|
            0 <= y < self.size.1 && 0 <= x < self.size.0 ==> #[trigger] self.grid()[y][x] == blank()
                || self.grid()[y][x].color is Rgb
    }

    /// An empty grid for a terminal of `width` columns and `height` rows.
    pub fn new(cfg: &Config, width: u16, height: u16) -> (r: Terminal)
        requires
            cfg.enable_cjk ==> width >= 1,
        ensures
            r.wf(),
            r.size.0 == columns_for(width as int, cfg.enable_cjk),
            r.size.1 == height,
            r.grid() == blank_grid(r.size.0 as int, height as int),
    {
        let cols = if cfg.enable_cjk {
            (width - 1) / 2
        } else {
            width
        };
        let screen = blank_screen(cols, height);
        Terminal { size: (cols, height), screen }
    }

    /// Resize to a terminal of `width` columns and `height` rows, emptied.
    pub fn reinit(&mut self, cfg: &Config, width: u16, height: u16)
        requires
            cfg.enable_cjk ==> width >= 1,
        ensures
            final(self).wf(),
            final(self).size.0 == columns_for(width as int, cfg.enable_cjk),
            final(self).size.1 == height,
            final(self).grid() == blank_grid(final(self).size.0 as int, height as int),
    {
        let cols = if cfg.enable_cjk {
            (width - 1) / 2
        } else {
            width
        };
        self.screen = blank_screen(cols, height);
        self.size = (cols, height);
    }

    /// Empty every cell.
    pub fn clear_screen(&mut self)
        ensures
            final(self).wf(),
            final(self).size == old(self).size,
            final(self).grid() == blank_grid(old(self).size.0 as int, old(self).size.1 as int),
    {
        self.screen = blank_screen(self.size.0, self.size.1);
    }

    /// True when the cell lies on the grid.
    pub fn inside(&self, c: (isize, isize)) -> (r: bool)
        ensures
            r == self.holds(c),
    {
        c.0 < self.size.0 as isize && c.1 < self.size.1 as isize && c.0 >= 0 && c.1 >= 0
    }

    /// Paint cell `c` with a glyph for a segment of density `num / den` of a
    /// particle in `stage`, in `color`, if the cell is on the grid and still
    /// shows a space: the first glyph written to a cell stays. A dead
    /// particle paints nothing.
    pub fn plot(&mut self, c: (isize, isize), stage: LifeState, num: usize, den: usize, cjk: bool, color: (u8, u8, u8))
        requires
            old(self).wf(),
        ensures
            final(self).wf(),
            final(self).size == old(self).size,
            old(self).plotted(
                &*final(self),
                Stroke { cell: c, stage, num: num as int, den: den as int, color },
                cjk,
            ),
    {
        if !self.inside(c) {
            return;
        }
        let y = c.1 as usize;
        let x = c.0 as usize;
        if self.screen[y][x].text != ' ' {
            return;
        }
        let text = match stage {
            LifeState::Alive => get_char_alive(num, den, cjk),
            LifeState::Declining => get_char_declining(num, den, cjk),
            LifeState::Dying => get_char_dying(num, den, cjk),
            LifeState::Dead => {
                return;
            },
        };
        let cell = Char { text, color: Color::Rgb { r: color.0, g: color.1, b: color.2 } };
        let ghost g = self.grid();
        let mut row = self.screen.remove(y);
        row.set(x, cell);
        self.screen.insert(y, row);
        assert(self.grid() =~= g.update(y as int, g[y as int].update(x as int, cell)));
    }

    /// Draw the trail of one particle, head first, as connected segments.
    #[verifier::rlimit(30)]
    fn draw_particle(&mut self, p: &Particle, fcfg: &FireworkConfig, cfg: &Config, Ghost(done): Ghost<Seq<Stroke>>)
        requires
            old(self).wf(),
            old(self).tidy(),
            p@.wf(),
            old(self).explained_by(done, cfg.enable_cjk),
        ensures
            final(self).wf(),
            final(self).tidy(),
            final(self).size == old(self).size,
            old(self).keeps_paint(&*final(self)),
            final(self).shows_head(p@, cfg.enable_cjk),
            final(self).explained_by(done + particle_strokes(p@, *fcfg, cfg.enable_cjk), cfg.enable_cjk),
    {
        let ghost cjk = cfg.enable_cjk;
        if p.life_state == LifeState::Dead {
            assert(done + particle_strokes(p@, *fcfg, cjk) =~= done);
            return;
        }
        let color = if fcfg.enable_gradient {
            let e = p.time_elapsed as u128;
            let l = p.config.life_time as u128;
            assert((e as int) * 1000 / (l as int) < 1000) by (nonlinear_arith)
                requires e < l, l > 0;
            let x = (e * 1000 / l) as u32;
            shift_gradient(p.config.color, fcfg.gradient_scale.apply(x))
        } else {
            p.config.color
        };
        assert(color == draw_color(p@, *fcfg));
        let tl = p.config.trail_length;
        let n = p.trail.len();
        let ghost head = head_cell(p@, cfg.enable_cjk);
        assert(done + segments_strokes(p@, *fcfg, cjk, 0) =~= done);
        let mut idx: usize = 0;
        while idx + 1 < n
            invariant
                idx < n,
                n == p.trail@.len(),
                n == tl,
                p@.wf(),
                p.life_state != LifeState::Dead,
                head == head_cell(p@, cfg.enable_cjk),
                self.wf(),
                self.tidy(),
                self.size == old(self).size,
                old(self).keeps_paint(&*self),
                idx > 0 ==> self.shows_head(p@, cfg.enable_cjk),
                cjk == cfg.enable_cjk,
                color == draw_color(p@, *fcfg),
                self.explained_by(done + segments_strokes(p@, *fcfg, cjk, idx as int), cjk),
            decreases n - idx,
        {
            let a = p.trail[n - 1 - idx];
            let b = p.trail[n - 2 - idx];
            let (a, b) = if cfg.enable_cjk {
                (a, b)
            } else {
                (Vec2::new(a.x * 2, a.y), Vec2::new(b.x * 2, b.y))
            };
            let cells = construct_line(a, b);
            assert(idx == 0 ==> cells@[0].0 == head.0 && cells@[0].1 == head.1);
            let ghost seg = segment_strokes(p@, *fcfg, cjk, idx as int);
            let ghost prefix = done + segments_strokes(p@, *fcfg, cjk, idx as int);
            assert(a == scaled_point(p@.trail[n - 1 - idx], cjk) && b == scaled_point(p@.trail[n - 2 - idx], cjk));
            assert(seg.len() == cells@.len());
            assert(prefix + seg.take(0) =~= prefix);
            let mut j: usize = 0;
            while j < cells.len()
                invariant
                    j <= cells@.len(),
                    cells@.len() >= 1,
                    idx + 1 < n,
                    n == tl,
                    n == p.trail@.len(),
                    head == head_cell(p@, cfg.enable_cjk),
                    idx == 0 ==> cells@[0].0 == head.0 && cells@[0].1 == head.1,
                    self.wf(),
                    self.tidy(),
                    self.size == old(self).size,
                    p.life_state != LifeState::Dead,
                    old(self).keeps_paint(&*self),
                    idx > 0 || j > 0 ==> self.shows_head(p@, cfg.enable_cjk),
                    cjk == cfg.enable_cjk,
                    seg == segment_strokes(p@, *fcfg, cjk, idx as int),
                    seg.len() == cells@.len(),
                    forall|i: int| 0 <= i < seg.len() ==> (#[trigger] seg[i]) == (Stroke {
                        cell: cells@[i],
                        stage: p.life_state,
                        num: tl - idx - 1,
                        den: tl as int,
                        color: color,
                    }),
                    self.explained_by(prefix + seg.take(j as int), cjk),
                decreases cells@.len() - j,
            {
                let ghost before = *self;
                self.plot(cells[j], p.life_state, tl - idx - 1, tl, cfg.enable_cjk, color);
                assert forall|y: int, x: int|
                    0 <= y < self.size.1 && 0 <= x < self.size.0 implies #[trigger] self.grid()[y][x] == blank()
                        || self.grid()[y][x].color is Rgb by {
                    assert(before.grid()[y][x] == blank() || before.grid()[y][x].color is Rgb);
                }
                assert forall|y: int, x: int|
                    old(self).on_grid(x, y) && (#[trigger] old(self).grid()[y][x]).color is Rgb implies self.grid()[y][x].color is Rgb by {
                    assert(before.grid()[y][x].color is Rgb);
                }
                proof {
                    let ss = prefix + seg.take(j as int);
                    let st = seg[j as int];
                    assert(st == (Stroke { cell: cells@[j as int], stage: p.life_state, num: tl - idx - 1, den: tl as int, color: color }));
                    assert(ss.push(st).drop_last() =~= ss);
                    assert(ss.push(st).last() == st);
                    lemma_plot_explained(before, *self, ss, st, cjk);
                    assert(ss.push(st) =~= prefix + seg.take(j + 1));
                    if idx > 0 || j > 0 {
                        if self.on_grid(head.0, head.1) {
                            assert(before.grid()[head.1][head.0].color is Rgb);
                        }
                    } else {
                        if self.on_grid(head.0, head.1) {
                            assert(before.grid()[head.1][head.0] == blank() || before.grid()[head.1][head.0].color is Rgb);
                        }
                    }
                }
                j += 1;
            }
            assert(seg.take(cells@.len() as int) =~= seg);
            assert(prefix + seg =~= done + segments_strokes(p@, *fcfg, cjk, idx + 1));
            idx += 1;
        }
    }

    /// Draw every particle in flight of every alive firework onto an
    /// emptied grid. Fireworks are drawn from the last to the first and,
    /// within one, particles from the last to the first, each trail from its
    /// head segment on; every cell of every segment's walk is a stroke, in
    /// the particle's color (scaled by the gradient curve when that is on)
    /// with a glyph of the palette for the segment's density and the
    /// particle's stage. A cell keeps the first glyph other than a space
    /// written to it, so a firework added later shows over one added earlier,
    /// and a particle's head over its tail; a cell no stroke reaches stays
    /// empty. `show_strokes` lists the strokes in the order they are made.
    #[verifier::rlimit(60)]
    pub fn render(&mut self, fm: &FireworkManager, cfg: &Config)
        requires
            fm.wf(),
        ensures
            final(self).wf(),
            final(self).tidy(),
            final(self).size == old(self).size,
            forall|f: int, q: int|
                0 <= f < fm.fireworks@.len() && fm.fireworks@[f].state == FireworkState::Alive && 0 <= q
                    < fm.fireworks@[f].live().len() ==> final(self).shows_head(
                    #[trigger] fm.fireworks@[f].live()[q],
                    cfg.enable_cjk,
                ),
            (forall|f: int| 0 <= f < fm.fireworks@.len() ==> (#[trigger] fm.fireworks@[f]).state != FireworkState::Alive)
                ==> final(self).grid() == blank_grid(old(self).size.0 as int, old(self).size.1 as int),
            final(self).explained_by(show_strokes(fm.fireworks@, cfg.enable_cjk, fm.fireworks@.len() as int), cfg.enable_cjk),
    {
        let ghost cjk = cfg.enable_cjk;
        let ghost fws = fm.fireworks@;
        self.clear_screen();
        assert(self.explained_by(show_strokes(fws, cjk, 0), cjk));
        let mut f = fm.fireworks.len();
        while f > 0
            invariant
                f <= fm.fireworks@.len(),
                fm.wf(),
                self.wf(),
                self.tidy(),
                self.size == old(self).size,
                forall|g: int, q: int|
                    f <= g < fm.fireworks@.len() && fm.fireworks@[g].state == FireworkState::Alive && 0 <= q
                        < fm.fireworks@[g].live().len() ==> self.shows_head(
                        #[trigger] fm.fireworks@[g].live()[q],
                        cfg.enable_cjk,
                    ),
                (forall|g: int| f <= g < fm.fireworks@.len() ==> (#[trigger] fm.fireworks@[g]).state != FireworkState::Alive)
                    ==> self.grid() == blank_grid(old(self).size.0 as int, old(self).size.1 as int),
                cjk == cfg.enable_cjk,
                fws == fm.fireworks@,
                self.explained_by(show_strokes(fws, cjk, fws.len() - f), cjk),
            decreases f,
        {
            f -= 1;
            let fw = &fm.fireworks[f];
            assert(fw.wf());
            let ghost m = fws.len() - f;
            let ghost before_fw = show_strokes(fws, cjk, m - 1);
            assert(fws[fws.len() - m] == *fw);
            if fw.state == FireworkState::Alive {
                let ghost start = *self;
                assert(before_fw + firework_strokes(*fw, cjk, 0) =~= before_fw);
                let mut q = fw.current_particles.len();
                while q > 0
                    invariant
                        q <= fw.current_particles@.len(),
                        fw.wf(),
                        *fw == fm.fireworks@[f as int],
                        self.wf(),
                        self.tidy(),
                        self.size == old(self).size,
                        start.keeps_paint(&*self),
                        forall|k: int| q <= k < fw.live().len() ==> self.shows_head(#[trigger] fw.live()[k], cfg.enable_cjk),
                        cjk == cfg.enable_cjk,
                        self.explained_by(before_fw + firework_strokes(*fw, cjk, fw.live().len() - q), cjk),
                    decreases q,
                {
                    q -= 1;
                    assert(fw.live()[q as int] == fw.current_particles@[q as int]@);
                    let ghost before = *self;
                    let ghost done = before_fw + firework_strokes(*fw, cjk, fw.live().len() - q - 1);
                    self.draw_particle(&fw.current_particles[q], &fw.config, cfg, Ghost(done));
                    assert(fw.live()[fw.live().len() - (fw.live().len() - q)] == fw.live()[q as int]);
                    assert(done + particle_strokes(fw.live()[q as int], fw.config, cjk) =~= before_fw + firework_strokes(*fw, cjk, fw.live().len() - q));
                    assert forall|k: int| q <= k < fw.live().len() implies self.shows_head(#[trigger] fw.live()[k], cfg.enable_cjk) by {
                        if k > q {
                            let h = head_cell(fw.live()[k], cfg.enable_cjk);
                            if fw.live()[k].life_state != LifeState::Dead && fw.live()[k].trail.len() >= 2 && self.on_grid(h.0, h.1) {
                                assert(before.grid()[h.1][h.0].color is Rgb);
                            }
                        }
                    }
                    assert forall|y: int, x: int|
                        start.on_grid(x, y) && (#[trigger] start.grid()[y][x]).color is Rgb implies self.grid()[y][x].color is Rgb by {
                        assert(before.grid()[y][x].color is Rgb);
                    }
                }
                assert(before_fw + firework_strokes(*fw, cjk, fw.live().len() as int) =~= show_strokes(fws, cjk, m));
                assert forall|g: int, k: int|
                    f <= g < fm.fireworks@.len() && fm.fireworks@[g].state == FireworkState::Alive && 0 <= k
                        < fm.fireworks@[g].live().len() implies self.shows_head(
                        #[trigger] fm.fireworks@[g].live()[k],
                        cfg.enable_cjk,
                    ) by {
                    if g > f {
                        let pv = fm.fireworks@[g].live()[k];
                        let h = head_cell(pv, cfg.enable_cjk);
                        if pv.life_state != LifeState::Dead && pv.trail.len() >= 2 && self.on_grid(h.0, h.1) {
                            assert(start.shows_head(pv, cfg.enable_cjk));
                            assert(start.grid()[h.1][h.0].color is Rgb);
                        }
                    }
                }
            }
        }
    }
}

} // verus!
