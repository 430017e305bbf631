//! Sectors, coordinate maps and cube footprints in slope space.
//!
//! A sector looks along one world axis (its depth axis), in one direction,
//! and covers one quadrant of the two transverse axes. A cell is named in a
//! sector by its transverse offsets `(a, b)` from the origin and its depth
//! `d`. Slopes (transverse offset over depth) are scaled by `SLOPE_SCALE`,
//! which every odd number up to `2 * MAX_DEPTH + 1` divides, so the faces of
//! every cell up to `MAX_DEPTH` project to integer slopes.
use vstd::prelude::*;
use crate::rect::Rect;
use vstd::arithmetic::div_mod::lemma_fundamental_div_mod_converse;

verus! {

/// The deepest layer a cast visits: the radius of visibility.
pub const MAX_DEPTH: u32 = 15;

/// Common denominator of slopes: the least common multiple of the odd
/// numbers up to `2 * MAX_DEPTH + 1`.
pub const SLOPE_SCALE: i64 = 4512611027925;

/// The world axis that plays the role of depth, and the two transverse axes.
#[derive(Clone, Copy, Debug, PartialEq, Eq, Structural)]
pub enum Plane {
    /// depth along z; transverse x and y
    XY,
    /// depth along x; transverse z and y
    ZY,
    /// depth along y; transverse z and x
    ZX,
}

/// One of the 24 symmetric scan directions.
#[derive(Clone, Copy, Debug, PartialEq, Eq, Structural)]
pub struct Sector {
    pub plane: Plane,
    /// depth runs toward negative world coordinates
    pub reverse: bool,
    /// the first transverse slope lies in `[0, 1)` rather than `[-1, 0)`
    pub pos_x: bool,
    /// the second transverse slope lies in `[0, 1)` rather than `[-1, 0)`
    pub pos_y: bool,
}

/// The scaled slope rectangle a sector starts from.
pub open spec fn quadrant(s: Sector) -> Rect {
    Rect {
        sx: if s.pos_x { 0 } else { (-SLOPE_SCALE) as i64 },
        ex: if s.pos_x { SLOPE_SCALE } else { 0 },
        sy: if s.pos_y { 0 } else { (-SLOPE_SCALE) as i64 },
        ey: if s.pos_y { SLOPE_SCALE } else { 0 },
    }
}

/// The world cell at transverse offsets `(a, b)` and depth `d` of sector `s`
/// seen from `o`.
pub open spec fn world(s: Sector, o: (int, int, int), a: int, b: int, d: int) -> (int, int, int) {
    let w = if s.reverse { -d } else { d };
    match s.plane {
        Plane::XY => (o.0 + a, o.1 + b, o.2 + w),
        Plane::ZY => (o.0 + w, o.1 + b, o.2 + a),
        Plane::ZX => (o.0 + b, o.1 + w, o.2 + a),
    }
}

/// The transverse offsets and depth of world cell `c` in sector `s` seen from `o`.
pub open spec fn local(s: Sector, o: (int, int, int), c: (int, int, int)) -> (int, int, int) {
    match s.plane {
        Plane::XY => (c.0 - o.0, c.1 - o.1, if s.reverse { o.2 - c.2 } else { c.2 - o.2 }),
        Plane::ZY => (c.2 - o.2, c.1 - o.1, if s.reverse { o.0 - c.0 } else { c.0 - o.0 }),
        Plane::ZX => (c.2 - o.2, c.0 - o.0, if s.reverse { o.1 - c.1 } else { c.1 - o.1 }),
    }
}

pub proof fn lemma_world_local(s: Sector, o: (int, int, int), c: (int, int, int))
    ensures
        world(s, o, local(s, o, c).0, local(s, o, c).1, local(s, o, c).2) == c,
{
}

pub proof fn lemma_local_world(s: Sector, o: (int, int, int), a: int, b: int, d: int)
    ensures
        local(s, o, world(s, o, a, b, d)) == (a, b, d),
{
}

/// Scaled slope of one unit of transverse offset seen at doubled depth `2d - 1`
/// (the near face of layer `d`).
pub open spec fn near_step(d: int) -> int {
    SLOPE_SCALE as int / (2 * d - 1)
}

/// Scaled slope of one unit of transverse offset seen at doubled depth `2d + 1`
/// (the far face of layer `d`).
pub open spec fn far_step(d: int) -> int {
    SLOPE_SCALE as int / (2 * d + 1)
}

/// Start of the footprint of the cell at offset `a` in layer `d`: the slope
/// of its low edge on the near face, or on the far face when grown.
pub open spec fn fp_lo(grow: bool, a: int, d: int) -> int {
    (2 * a - 1) * (if grow { far_step(d) } else { near_step(d) })
}

/// End of the footprint of the cell at offset `a` in layer `d`: the slope of
/// its high edge on the near face, or on the far face when grown.
pub open spec fn fp_hi(grow: bool, a: int, d: int) -> int {
    (2 * a + 1) * (if grow { far_step(d) } else { near_step(d) })
}

/// The occlusion footprint of cell `(a, b)` of layer `d` in sector `s` holds
/// the scaled slope point. The start is grown on an axis whose quadrant is
/// positive, the end on an axis whose quadrant is negative: the trailing face
/// of the cube, seen from the origin, widens its shadow toward the axis.
pub open spec fn fp_contains(s: Sector, a: int, b: int, d: int, px: int, py: int) -> bool {
    &&& fp_lo(s.pos_x, a, d) <= px < fp_hi(!s.pos_x, a, d)
    &&& fp_lo(s.pos_y, b, d) <= py < fp_hi(!s.pos_y, b, d)
}

/// `SLOPE_SCALE` is a multiple of both doubled depths of every layer.
pub proof fn lemma_scale_divisible(d: int)
    requires
        1 <= d <= MAX_DEPTH,
    ensures
        near_step(d) * (2 * d - 1) == SLOPE_SCALE,
        far_step(d) * (2 * d + 1) == SLOPE_SCALE,
        0 < far_step(d) <= near_step(d) <= SLOPE_SCALE,
{
    if d == 1 {
        lemma_fundamental_div_mod_converse(SLOPE_SCALE as int, 1, 4512611027925, 0);
        lemma_fundamental_div_mod_converse(SLOPE_SCALE as int, 3, 1504203675975, 0);
    } else if d == 2 {
        lemma_fundamental_div_mod_converse(SLOPE_SCALE as int, 3, 1504203675975, 0);
        lemma_fundamental_div_mod_converse(SLOPE_SCALE as int, 5, 902522205585, 0);
    } else if d == 3 {
        lemma_fundamental_div_mod_converse(SLOPE_SCALE as int, 5, 902522205585, 0);
        lemma_fundamental_div_mod_converse(SLOPE_SCALE as int, 7, 644658718275, 0);
    } else if d == 4 {
        lemma_fundamental_div_mod_converse(SLOPE_SCALE as int, 7, 644658718275, 0);
        lemma_fundamental_div_mod_converse(SLOPE_SCALE as int, 9, 501401225325, 0);
    } else if d == 5 {
        lemma_fundamental_div_mod_converse(SLOPE_SCALE as int, 9, 501401225325, 0);
        lemma_fundamental_div_mod_converse(SLOPE_SCALE as int, 11, 410237366175, 0);
    } else if d == 6 {
        lemma_fundamental_div_mod_converse(SLOPE_SCALE as int, 11, 410237366175, 0);
        lemma_fundamental_div_mod_converse(SLOPE_SCALE as int, 13, 347123925225, 0);
    } else if d == 7 {
        lemma_fundamental_div_mod_converse(SLOPE_SCALE as int, 13, 347123925225, 0);
        lemma_fundamental_div_mod_converse(SLOPE_SCALE as int, 15, 300840735195, 0);
    } else if d == 8 {
        lemma_fundamental_div_mod_converse(SLOPE_SCALE as int, 15, 300840735195, 0);
        lemma_fundamental_div_mod_converse(SLOPE_SCALE as int, 17, 265447707525, 0);
    } else if d == 9 {
        lemma_fundamental_div_mod_converse(SLOPE_SCALE as int, 17, 265447707525, 0);
        lemma_fundamental_div_mod_converse(SLOPE_SCALE as int, 19, 237505843575, 0);
    } else if d == 10 {
        lemma_fundamental_div_mod_converse(SLOPE_SCALE as int, 19, 237505843575, 0);
        lemma_fundamental_div_mod_converse(SLOPE_SCALE as int, 21, 214886239425, 0);
    } else if d == 11 {
        lemma_fundamental_div_mod_converse(SLOPE_SCALE as int, 21, 214886239425, 0);
        lemma_fundamental_div_mod_converse(SLOPE_SCALE as int, 23, 196200479475, 0);
    } else if d == 12 {
        lemma_fundamental_div_mod_converse(SLOPE_SCALE as int, 23, 196200479475, 0);
        lemma_fundamental_div_mod_converse(SLOPE_SCALE as int, 25, 180504441117, 0);
    } else if d == 13 {
        lemma_fundamental_div_mod_converse(SLOPE_SCALE as int, 25, 180504441117, 0);
        lemma_fundamental_div_mod_converse(SLOPE_SCALE as int, 27, 167133741775, 0);
    } else if d == 14 {
        lemma_fundamental_div_mod_converse(SLOPE_SCALE as int, 27, 167133741775, 0);
        lemma_fundamental_div_mod_converse(SLOPE_SCALE as int, 29, 155607276825, 0);
    } else if d == 15 {
        lemma_fundamental_div_mod_converse(SLOPE_SCALE as int, 29, 155607276825, 0);
        lemma_fundamental_div_mod_converse(SLOPE_SCALE as int, 31, 145568097675, 0);
    }
}

/// A cell more than `d + 1` away on an axis casts no shadow inside `[-1, 1)`.
pub proof fn lemma_footprint_far_off(grow: bool, a: int, d: int)
    requires
        1 <= d <= MAX_DEPTH,
    ensures
        a >= d + 2 ==> fp_lo(grow, a, d) >= SLOPE_SCALE,
        a <= -(d + 2) ==> fp_hi(grow, a, d) <= -SLOPE_SCALE,
{
    lemma_scale_divisible(d);
    let q = if grow { far_step(d) } else { near_step(d) };
    let f = far_step(d);
    assert(fp_lo(grow, a, d) == (2 * a - 1) * q);
    assert(fp_hi(grow, a, d) == (2 * a + 1) * q);
    if a >= d + 2 {
        assert((2 * a - 1) * q >= SLOPE_SCALE) by (nonlinear_arith)
            requires
                a >= d + 2,
                q >= f,
                f > 0,
                f * (2 * d + 1) == SLOPE_SCALE,
                d >= 1,
        ;
    }
    if a <= -(d + 2) {
        assert((2 * a + 1) * q <= -SLOPE_SCALE) by (nonlinear_arith)
            requires
                a <= -(d + 2),
                q >= f,
                f > 0,
                f * (2 * d + 1) == SLOPE_SCALE,
                d >= 1,
        ;
    }
}

/// On the near face of layer `d`, the scaled slope `p` falls on voxel `a`
/// or on one of its two neighbours: voxel `a` spans the slopes from
/// `(2a - 1) * near_step(d)` up to `(2a + 1) * near_step(d)`.
pub open spec fn near_slope(a: int, d: int, p: int) -> bool {
    (2 * a - 3) * near_step(d) <= p < (2 * a + 3) * near_step(d)
}

/// The scaled slope `p` falls on voxel `a` on the near face of layer `d`.
pub open spec fn on_voxel(a: int, d: int, p: int) -> bool {
    (2 * a - 1) * near_step(d) <= p < (2 * a + 1) * near_step(d)
}

proof fn lemma_scale_order(x: int, y: int, q: int)
    requires
        q > 0,
    ensures
        x <= y <==> x * q <= y * q,
        x < y <==> x * q < y * q,
{
    if x <= y {
        assert(x * q <= y * q) by (nonlinear_arith) requires x <= y, q > 0;
    } else {
        assert(x * q > y * q) by (nonlinear_arith) requires x > y, q > 0;
    }
    if x < y {
        assert(x * q < y * q) by (nonlinear_arith) requires x < y, q > 0;
    } else {
        assert(x * q >= y * q) by (nonlinear_arith) requires x >= y, q > 0;
    }
}

/// The voxel of layer `depth` on whose near face the scaled slope `p` falls.
pub fn voxel_at(p: i64, depth: u32) -> (r: i64)
    requires
        1 <= depth <= MAX_DEPTH,
        -SLOPE_SCALE <= p <= SLOPE_SCALE,
    ensures
        on_voxel(r as int, depth as int, p as int),
        -(depth as int) <= r <= depth,
{
    proof {
        lemma_scale_divisible(depth as int);
    }
    let d = depth as i64;
    let q: i64 = SLOPE_SCALE / (2 * d - 1);
    proof {
        let qq = q as int;
        let sc = SLOPE_SCALE as int;
        assert((-2 * d - 1) * qq <= -sc) by (nonlinear_arith) requires qq * (2 * d - 1) == sc, qq > 0;
        assert(forall|k: int| -33 <= k <= 33 ==> -33 * sc <= #[trigger] (k * qq) <= 33 * sc) by (nonlinear_arith)
            requires 0 < qq <= sc;
    }
    let mut r: i64 = -d;
    while r < d && (2 * r + 1) * q <= p
        invariant
            1 <= depth <= MAX_DEPTH,
            d == depth,
            q == near_step(d as int),
            0 < q <= SLOPE_SCALE,
            q * (2 * d - 1) == SLOPE_SCALE,
            -SLOPE_SCALE <= p <= SLOPE_SCALE,
            -d <= r <= d,
            (2 * r - 1) * q <= p,
            forall|k: int| -33 <= k <= 33 ==> -33 * SLOPE_SCALE <= #[trigger] (k * q) <= 33 * SLOPE_SCALE,
        decreases d - r,
    {
        proof {
            lemma_scale_order(2 * r + 1, 2 * d + 1, q as int);
        }
        r += 1;
    }
    proof {
        lemma_scale_order(2 * r + 1, 2 * d + 1, q as int);
        lemma_scale_order(2 * r + 1, 2 * d - 1, q as int);
    }
    r
}

/// Larger slopes fall on the same voxel or a later one.
pub proof fn lemma_voxel_monotone(d: int, p1: int, p2: int, v1: int, v2: int)
    requires
        1 <= d <= MAX_DEPTH,
        p1 <= p2,
        on_voxel(v1, d, p1),
        on_voxel(v2, d, p2),
    ensures
        v1 <= v2,
{
    lemma_scale_divisible(d);
    lemma_scale_order(2 * v1 - 1, 2 * v2 + 1, near_step(d));
}

/// Along one axis, the voxels from one before the voxel of `s` to one past
/// the voxel of `e - 1` are exactly those near some slope in `[s, e)`.
pub proof fn lemma_box_axis(d: int, s: int, e: int, vs: int, ve: int, a: int)
    requires
        1 <= d <= MAX_DEPTH,
        s < e,
        on_voxel(vs, d, s),
        on_voxel(ve, d, e - 1),
    ensures
        (vs - 1 <= a <= ve + 1) <==> exists|p: int| s <= p < e && #[trigger] near_slope(a, d, p),
{
    lemma_scale_divisible(d);
    let q = near_step(d);
    if exists|p: int| s <= p < e && #[trigger] near_slope(a, d, p) {
        let p = choose|p: int| s <= p < e && #[trigger] near_slope(a, d, p);
        lemma_scale_order(2 * vs - 1, 2 * a + 3, q);
        lemma_scale_order(2 * a - 3, 2 * ve + 1, q);
    }
    if vs - 1 <= a <= ve + 1 {
        if a <= vs {
            lemma_scale_order(2 * a - 3, 2 * vs - 1, q);
            lemma_scale_order(2 * vs + 1, 2 * a + 3, q);
            assert(near_slope(a, d, s));
        } else if a >= ve {
            lemma_scale_order(2 * a - 3, 2 * ve - 1, q);
            lemma_scale_order(2 * ve + 1, 2 * a + 3, q);
            assert(near_slope(a, d, e - 1));
        } else {
            lemma_scale_order(2 * vs + 1, 2 * a - 1, q);
            lemma_scale_order(2 * a + 1, 2 * ve - 1, q);
            lemma_scale_order(2 * a - 1, 2 * a + 1, q);
            lemma_scale_order(2 * a - 3, 2 * a - 1, q);
            lemma_scale_order(2 * a - 1, 2 * a + 3, q);
            assert(near_slope(a, d, (2 * a - 1) * q));
        }
    }
}

/// A footprint that meets the quadrant lies within one voxel of every one
/// of its points on the near face: its growth never exceeds one voxel.
pub proof fn lemma_footprint_near(pos: bool, a: int, d: int, p: int)
    requires
        1 <= d <= MAX_DEPTH,
        fp_lo(pos, a, d) <= p < fp_hi(!pos, a, d),
        if pos { 0 <= p < SLOPE_SCALE } else { -SLOPE_SCALE <= p < 0 },
    ensures
        near_slope(a, d, p),
{
    lemma_scale_divisible(d);
    lemma_footprint_far_off(pos, a, d);
    lemma_footprint_far_off(!pos, a, d);
    let q = near_step(d);
    let f = far_step(d);
    let sc = SLOPE_SCALE as int;
    if pos {
        assert(fp_lo(true, a, d) == (2 * a - 1) * f);
        assert(fp_hi(false, a, d) == (2 * a + 1) * q);
        lemma_scale_order(2 * a + 1, 2 * a + 3, q);
        if a >= 1 {
            assert((2 * a - 3) * q <= (2 * a - 1) * f) by (nonlinear_arith)
                requires
                    q * (2 * d - 1) == sc,
                    f * (2 * d + 1) == sc,
                    1 <= a <= d + 1,
                    d >= 1,
                    sc > 0,
            {
                assert(((2 * a - 1) * f - (2 * a - 3) * q) * ((2 * d - 1) * (2 * d + 1)) == sc * (4 * d + 4 - 4 * a));
            }
        } else {
            assert((2 * a - 3) * q <= (2 * a - 1) * f) by (nonlinear_arith)
                requires
                    a <= 0,
                    0 < f <= q,
            ;
        }
    } else {
        assert(fp_lo(false, a, d) == (2 * a - 1) * q);
        assert(fp_hi(true, a, d) == (2 * a + 1) * f);
        lemma_scale_order(2 * a - 3, 2 * a - 1, q);
        if a <= -1 {
            assert((2 * a + 1) * f <= (2 * a + 3) * q) by (nonlinear_arith)
                requires
                    q * (2 * d - 1) == sc,
                    f * (2 * d + 1) == sc,
                    -(d + 1) <= a <= -1,
                    d >= 1,
                    sc > 0,
            {
                assert(((2 * a + 3) * q - (2 * a + 1) * f) * ((2 * d - 1) * (2 * d + 1)) == sc * (4 * a + 4 * d + 4));
            }
        } else {
            assert((2 * a + 1) * f <= (2 * a + 3) * q) by (nonlinear_arith)
                requires
                    a >= 0,
                    0 < f <= q,
            ;
        }
    }
}

/// Scaled slope bounds of the cube footprint of cell `(a, b)` in layer
/// `depth`. The start of an axis is grown when the view extends to positive
/// slopes on it, the end when it extends to negative slopes.
pub fn get_cube_occlusion(a: i64, b: i64, depth: u32, view: &Rect) -> (r: Rect)
    requires
        1 <= depth <= MAX_DEPTH,
        -1_000_000 <= a <= 1_000_000,
        -1_000_000 <= b <= 1_000_000,
    ensures
        r.sx == fp_lo(view.ex > 0, a as int, depth as int),
        r.ex == fp_hi(view.sx < 0, a as int, depth as int),
        r.sy == fp_lo(view.ey > 0, b as int, depth as int),
        r.ey == fp_hi(view.sy < 0, b as int, depth as int),
{
    proof {
        lemma_scale_divisible(depth as int);
    }
    let d = depth as i64;
    let near: i64 = SLOPE_SCALE / (2 * d - 1);
    let far: i64 = SLOPE_SCALE / (2 * d + 1);
    let step_sx = if view.ex > 0 { far } else { near };
    let step_ex = if view.sx < 0 { far } else { near };
    let step_sy = if view.ey > 0 { far } else { near };
    let step_ey = if view.sy < 0 { far } else { near };
    proof {
        assert(forall|k: int, q: int| -2_000_001 <= k <= 2_000_001 && 0 < q <= SLOPE_SCALE ==> -2_000_001 * SLOPE_SCALE <= #[trigger] (k * q) <= 2_000_001 * SLOPE_SCALE) by (nonlinear_arith);
    }
    Rect {
        sx: (2 * a - 1) * step_sx,
        sy: (2 * b - 1) * step_sy,
        ex: (2 * a + 1) * step_ex,
        ey: (2 * b + 1) * step_ey,
    }
}

} // verus!
