//! The occlusion volume, the observer, and a full visibility pass over the
//! 24 sectors around the observer.
use vstd::prelude::*;
use crate::rect::Rect;
use vstd::arithmetic::div_mod::lemma_fundamental_div_mod_converse;
use crate::grid::{Grid, grid_cells, grid_filled, grid_get, grid_set, in_shape};
use crate::geometry::{
    Plane, Sector, SLOPE_SCALE, MAX_DEPTH, quadrant, world, local, fp_contains, fp_lo, fp_hi, near_step, far_step, near_slope,
    lemma_scale_divisible, lemma_world_local,
};
use crate::caster::{Voxel, VisibleSet, CastRect, CastRectKind, reached, lit, blocked, occupied, grid_bounded, cast_light};

verus! {

/// A mark outside the volume.
#[derive(Clone, Copy, Debug, PartialEq, Eq, Structural)]
pub struct OutOfBounds {
    pub pos: Voxel,
}

/// The occlusion volume and the observer's cell.
pub struct Display {
    occluded: Grid,
    nx: usize,
    ny: usize,
    nz: usize,
    origin: Voxel,
    cast_rects: Vec<CastRect>,
}

/// Sector `i` of a pass: quadrants in the order (+, +), (-, +), (+, -),
/// (-, -); within each, forward then reverse depth; within each, depth
/// along z, then y, then x.
pub open spec fn sector_of(i: int) -> Sector {
    let q = i / 6;
    let r = (i / 3) % 2;
    let p = i % 3;
    Sector {
        plane: if p == 0 { Plane::XY } else if p == 1 { Plane::ZX } else { Plane::ZY },
        reverse: r == 1,
        pos_x: q % 2 == 0,
        pos_y: q < 2,
    }
}

/// The view that sector `i` of a pass starts from, at the first layer.
pub open spec fn first_view(i: int) -> CastRect {
    CastRect { sector: sector_of(i), depth: 1, rect: quadrant(sector_of(i)), kind: CastRectKind::View }
}

/// The cell is visible from `o` in the volume `m`: it is the observer's own
/// unoccluded cell, or some sector's cast from the first layer reaches it.
pub open spec fn visible(m: Map<(int, int, int), bool>, o: (int, int, int), c: (int, int, int)) -> bool {
    ||| (c == o && m.contains_key(c) && !m[c])
    ||| exists|i: int| 0 <= i < 24 && #[trigger] reached(m, o, sector_of(i), quadrant(sector_of(i)), 1, c)
}

fn sector_at(i: usize) -> (s: Sector)
    requires
        i < 24,
    ensures
        s == sector_of(i as int),
{
    let q = i / 6;
    let r = (i / 3) % 2;
    let p = i % 3;
    Sector {
        plane: if p == 0 { Plane::XY } else if p == 1 { Plane::ZX } else { Plane::ZY },
        reverse: r == 1,
        pos_x: q % 2 == 0,
        pos_y: q < 2,
    }
}

fn quadrant_rect(s: Sector) -> (r: Rect)
    ensures
        r == quadrant(s),
{
    Rect {
        sx: if s.pos_x { 0 } else { -SLOPE_SCALE },
        ex: if s.pos_x { SLOPE_SCALE } else { 0 },
        sy: if s.pos_y { 0 } else { -SLOPE_SCALE },
        ey: if s.pos_y { SLOPE_SCALE } else { 0 },
    }
}

/// `c` is one of the 26 cells around `o`.
pub open spec fn neighbour(o: (int, int, int), c: (int, int, int)) -> bool {
    &&& c != o
    &&& -1 <= c.0 - o.0 <= 1
    &&& -1 <= c.1 - o.1 <= 1
    &&& -1 <= c.2 - o.2 <= 1
}

proof fn lemma_reached_monotone(
    m1: Map<(int, int, int), bool>,
    m2: Map<(int, int, int), bool>,
    o: (int, int, int),
    s: Sector,
    view: Rect,
    d: int,
    c: (int, int, int),
)
    requires
        m1.dom() == m2.dom(),
        forall|x: (int, int, int)| #[trigger] occupied(m1, x) ==> occupied(m2, x),
        reached(m2, o, s, view, d, c),
    ensures
        reached(m1, o, s, view, d, c),
{
    let l = local(s, o, c);
    let (px, py) = choose|px: int, py: int| near_slope(l.0, l.2, px) && near_slope(l.1, l.2, py) && #[trigger] lit(m2, o, s, view, d, l.2, px, py);
    assert forall|j: int| d <= j < l.2 implies !#[trigger] blocked(m1, o, s, j, px, py) by {
        if blocked(m1, o, s, j, px, py) {
            let (a, b) = choose|a: int, b: int| occupied(m1, world(s, o, a, b, j)) && #[trigger] fp_contains(s, a, b, j, px, py);
            assert(occupied(m2, world(s, o, a, b, j)));
            assert(blocked(m2, o, s, j, px, py));
        }
    }
    assert(!occupied(m1, c)) by {
        if occupied(m1, c) {
            assert(occupied(m2, c));
        }
    }
    assert(lit(m1, o, s, view, d, l.2, px, py));
}

/// Occluding more cells never makes a cell visible: every cell visible from
/// `origin` in `after`, whose occluded cells include those of `before`, is
/// visible from `origin` in `before`.
pub proof fn lemma_occluding_never_reveals(before: Display, after: Display, origin: Voxel)
    requires
        before.wf(),
        after.wf(),
        before.shape() == after.shape(),
        forall|c: (int, int, int)| #[trigger] occupied(before.occupancy(), c) ==> occupied(after.occupancy(), c),
    ensures
        forall|c: (int, int, int)| #[trigger] visible(after.occupancy(), origin.key(), c) ==> visible(before.occupancy(), origin.key(), c),
{
    let m1 = before.occupancy();
    let m2 = after.occupancy();
    let o = origin.key();
    before.lemma_domain();
    after.lemma_domain();
    assert(m1.dom() =~= m2.dom());
    assert forall|c: (int, int, int)| #[trigger] visible(m2, o, c) implies visible(m1, o, c) by {
        if c == o && m2.contains_key(c) && !m2[c] {
            assert(!occupied(m2, c));
            assert(m1.contains_key(c));
            assert(!occupied(m1, c));
        } else {
            let i = choose|i: int| 0 <= i < 24 && #[trigger] reached(m2, o, sector_of(i), quadrant(sector_of(i)), 1, c);
            lemma_reached_monotone(m1, m2, o, sector_of(i), quadrant(sector_of(i)), 1, c);
            assert(reached(m1, o, sector_of(i), quadrant(sector_of(i)), 1, c));
        }
    }
}

/// The observer's own cell is visible whenever it lies in the volume and is
/// not occluded.
pub proof fn lemma_observer_sees_own_cell(volume: Display, origin: Voxel)
    requires
        volume.wf(),
        volume.occupancy().contains_key(origin.key()),
        !volume.occupancy()[origin.key()],
    ensures
        visible(volume.occupancy(), origin.key(), origin.key()),
{
}

/// A cell of the first layer within one voxel of a slope in `[-1, 1)` is at
/// most one cell off the axis.
proof fn lemma_first_layer_axis(a: int, p: int)
    requires
        near_slope(a, 1, p),
        -SLOPE_SCALE <= p < SLOPE_SCALE,
    ensures
        -1 <= a <= 1,
{
    assert(near_step(1) == SLOPE_SCALE) by {
        lemma_fundamental_div_mod_converse(SLOPE_SCALE as int, 1, SLOPE_SCALE as int, 0);
    }
    let n = near_step(1);
    if a >= 2 {
        assert((2 * a - 3) * n >= n) by (nonlinear_arith) requires a >= 2, n > 0;
    }
    if a <= -2 {
        assert((2 * a + 3) * n <= -n) by (nonlinear_arith) requires a <= -2, n > 0;
    }
}

/// With the 26 cells around the observer occluded, no sector reaches any cell.
proof fn lemma_enclosed_sector(m: Map<(int, int, int), bool>, o: (int, int, int), s: Sector, c: (int, int, int))
    requires
        forall|x: (int, int, int)| #[trigger] neighbour(o, x) ==> occupied(m, x),
    ensures
        !reached(m, o, s, quadrant(s), 1, c),
{
    if reached(m, o, s, quadrant(s), 1, c) {
        let l = local(s, o, c);
        let (px, py) = choose|px: int, py: int| near_slope(l.0, l.2, px) && near_slope(l.1, l.2, py) && #[trigger] lit(m, o, s, quadrant(s), 1, l.2, px, py);
        lemma_scale_divisible(1);
        if l.2 >= 2 {
            assert(neighbour(o, world(s, o, 0, 0, 1)));
            assert(near_step(1) == SLOPE_SCALE) by {
                lemma_fundamental_div_mod_converse(SLOPE_SCALE as int, 1, SLOPE_SCALE as int, 0);
            }
            let (f, n) = (far_step(1), near_step(1));
            assert((2 * 0 - 1) * f == -f && (2 * 0 + 1) * f == f) by (nonlinear_arith);
            assert((2 * 0 - 1) * n == -n && (2 * 0 + 1) * n == n) by (nonlinear_arith);
            assert(fp_lo(true, 0, 1) == -f);
            assert(fp_lo(false, 0, 1) == -n);
            assert(fp_hi(true, 0, 1) == f);
            assert(fp_hi(false, 0, 1) == n);
            assert(fp_contains(s, 0, 0, 1, px, py));
            assert(blocked(m, o, s, 1, px, py));
        } else {
            lemma_first_layer_axis(l.0, px);
            lemma_first_layer_axis(l.1, py);
            lemma_world_local(s, o, c);
            assert(neighbour(o, c));
        }
    }
}

/// An observer enclosed by occluded cells on all 26 sides sees no cell
/// beyond them, and in fact none but its own.
pub proof fn lemma_enclosed_observer(volume: Display, origin: Voxel)
    requires
        volume.wf(),
        forall|c: (int, int, int)| #[trigger] neighbour(origin.key(), c) ==> occupied(volume.occupancy(), c),
    ensures
        forall|c: (int, int, int)| #[trigger] visible(volume.occupancy(), origin.key(), c) ==> c == origin.key(),
        forall|c: (int, int, int)| #[trigger] visible(volume.occupancy(), origin.key(), c) ==> -1 <= c.0 - origin.x <= 1
            && -1 <= c.1 - origin.y <= 1 && -1 <= c.2 - origin.z <= 1,
{
    let m = volume.occupancy();
    let o = origin.key();
    assert forall|c: (int, int, int)| #[trigger] visible(m, o, c) implies c == o by {
        if c != o {
            let i = choose|i: int| 0 <= i < 24 && #[trigger] reached(m, o, sector_of(i), quadrant(sector_of(i)), 1, c);
            lemma_enclosed_sector(m, o, sector_of(i), c);
        }
    }
}

impl Display {
    /// Occlusion of each cell of the volume, keyed by coordinates.
    pub closed spec fn occupancy(self) -> Map<(int, int, int), bool> {
        grid_cells(self.occluded)
    }

    /// The volume's extent along x, y and z.
    pub closed spec fn shape(self) -> (int, int, int) {
        (self.nx as int, self.ny as int, self.nz as int)
    }

    pub closed spec fn origin(self) -> Voxel {
        self.origin
    }

    /// The view rectangles and occluder footprints of the last pass.
    pub closed spec fn drawn(self) -> Seq<CastRect> {
        self.cast_rects@
    }

    /// The view rectangles and occluder footprints of the last pass, for
    /// drawing: views in cyan, footprints in red.
    pub fn cast_rects(&self) -> (r: &Vec<CastRect>)
        ensures
            r@ == self.drawn(),
    {
        &self.cast_rects
    }

    pub closed spec fn wf(self) -> bool {
        &&& forall|c: (int, int, int)| #[trigger] grid_cells(self.occluded).contains_key(c)
            <==> in_shape(self.nx as int, self.ny as int, self.nz as int, c)
        &&& self.nx <= i32::MAX && self.ny <= i32::MAX && self.nz <= i32::MAX
        &&& self.nx * self.ny <= isize::MAX && self.nx * self.nz <= isize::MAX && self.ny * self.nz <= isize::MAX
        &&& self.nx * self.ny * self.nz <= isize::MAX
    }

    /// The cells of a well-formed volume are exactly those inside its shape.
    pub proof fn lemma_domain(self)
        requires
            self.wf(),
        ensures
            forall|c: (int, int, int)| #[trigger] self.occupancy().contains_key(c)
                <==> in_shape(self.shape().0, self.shape().1, self.shape().2, c),
    {
    }

    /// An unoccluded volume of the given extent, observed from the zero cell.
    pub fn new(nx: usize, ny: usize, nz: usize) -> (r: Display)
        requires
            nx <= i32::MAX,
            ny <= i32::MAX,
            nz <= i32::MAX,
            nx * ny <= isize::MAX,
            nx * nz <= isize::MAX,
            ny * nz <= isize::MAX,
            nx * ny * nz <= isize::MAX,
        ensures
            r.wf(),
            r.shape() == (nx as int, ny as int, nz as int),
            forall|c: (int, int, int)| #[trigger] r.occupancy().contains_key(c) ==> !r.occupancy()[c],
            r.origin() == (Voxel { x: 0, y: 0, z: 0 }),
    {
        Display {
            occluded: grid_filled(nx, ny, nz),
            nx,
            ny,
            nz,
            origin: Voxel { x: 0, y: 0, z: 0 },
            cast_rects: Vec::new(),
        }
    }

    /// The volume the engine starts with: 100 cells along each axis.
    pub fn init() -> (r: Display)
        ensures
            r.wf(),
            r.shape() == (100int, 100int, 100int),
            forall|c: (int, int, int)| #[trigger] r.occupancy().contains_key(c) ==> !r.occupancy()[c],
            r.origin() == (Voxel { x: 0, y: 0, z: 0 }),
    {
        Display::new(100, 100, 100)
    }

    /// Marks the cell occluded, or reports that it lies outside the volume.
    pub fn set_occluded(&mut self, pos: Voxel) -> (r: Result<(), OutOfBounds>)
        requires
            old(self).wf(),
        ensures
            final(self).wf(),
            final(self).shape() == old(self).shape(),
            final(self).origin() == old(self).origin(),
            r.is_ok() <==> in_shape(old(self).shape().0, old(self).shape().1, old(self).shape().2, pos.key()),
            r.is_ok() ==> final(self).occupancy() == old(self).occupancy().insert(pos.key(), true),
            r.is_err() ==> final(self).occupancy() == old(self).occupancy() && r == Err::<(), OutOfBounds>(OutOfBounds { pos }),
    {
        if pos.x >= 0 && pos.y >= 0 && pos.z >= 0 && (pos.x as usize) < self.nx && (pos.y as usize) < self.ny
            && (pos.z as usize) < self.nz {
            grid_set(&mut self.occluded, pos.x as usize, pos.y as usize, pos.z as usize, true);
            Ok(())
        } else {
            Err(OutOfBounds { pos })
        }
    }

    /// Moves the observer to `origin` and returns every visible cell, once
    /// each: the observer's own cell when it is not occluded, and each cell
    /// that one of the 24 sector casts reaches. The observer stands at the
    /// centre of its cell: slopes are measured from there.
    pub fn set_origin_and_recompute(&mut self, origin: Voxel) -> (r: Vec<Voxel>)
        requires
            old(self).wf(),
        ensures
            final(self).wf(),
            final(self).shape() == old(self).shape(),
            final(self).occupancy() == old(self).occupancy(),
            final(self).origin() == origin,
            forall|k: int| 0 <= k < final(self).drawn().len() ==> 1 <= (#[trigger] final(self).drawn()[k]).depth <= MAX_DEPTH,
            forall|i: int| #![trigger first_view(i)] 0 <= i < 24 ==> exists|k: int| 0 <= k < final(self).drawn().len()
                && #[trigger] final(self).drawn()[k] == first_view(i),
            forall|c: (int, int, int)|
                (exists|i: int| 0 <= i < r@.len() && #[trigger] r@[i].key() == c) <==> #[trigger] visible(old(self).occupancy(), origin.key(), c),
            forall|i: int, j: int| 0 <= i < r@.len() && 0 <= j < r@.len() && i != j
                ==> #[trigger] r@[i].key() != #[trigger] r@[j].key(),
    {
        self.origin = origin;
        let ghost m = grid_cells(self.occluded);
        let ghost o = origin.key();
        let mut vis = VisibleSet::new(self.nx, self.ny, self.nz);
        assert(vis.marks().dom() =~= m.dom());
        if origin.x >= 0 && origin.y >= 0 && origin.z >= 0 && (origin.x as usize) < self.nx
            && (origin.y as usize) < self.ny && (origin.z as usize) < self.nz {
            if !grid_get(&self.occluded, origin.x as usize, origin.y as usize, origin.z as usize).unwrap() {
                vis.report(origin.x as i64, origin.y as i64, origin.z as i64);
            }
        }
        let ghost marks0 = vis.marks();
        assert forall|c: (int, int, int)| #[trigger] marks0.contains_key(c) implies
            marks0[c] == (c == o && m.contains_key(c) && !m[c]) by {}
        let mut i: usize = 0;
        while i < 24
            invariant
                m == grid_cells(self.occluded),
                o == origin.key(),
                self.wf(),
                grid_bounded(m),
                0 <= i <= 24,
                vis.wf(),
                vis.marks().dom() == m.dom(),
                forall|k: int| 0 <= k < vis.rects().len() ==> 1 <= (#[trigger] vis.rects()[k]).depth <= MAX_DEPTH,
                forall|i2: int| #![trigger first_view(i2)] 0 <= i2 < i ==> exists|k: int| 0 <= k < vis.rects().len()
                    && #[trigger] vis.rects()[k] == first_view(i2),
                forall|c: (int, int, int)| #[trigger] vis.marks().contains_key(c) ==>
                    vis.marks()[c] == (marks0[c] || exists|i2: int| 0 <= i2 < i
                        && #[trigger] reached(m, o, sector_of(i2), quadrant(sector_of(i2)), 1, c)),
            decreases 24 - i,
        {
            let sector = sector_at(i);
            let view = quadrant_rect(sector);
            let ghost before = vis.rects();
            cast_light(&self.occluded, origin, sector, view, 1, &mut vis);
            proof {
                assert forall|k: int| 0 <= k < vis.rects().len() implies 1 <= (#[trigger] vis.rects()[k]).depth <= MAX_DEPTH by {
                    if k < before.len() {
                        assert(vis.rects()[k] == before[k]);
                    }
                }
                assert forall|i2: int| #![trigger first_view(i2)] 0 <= i2 < i + 1 implies exists|k: int| 0 <= k < vis.rects().len()
                    && #[trigger] vis.rects()[k] == first_view(i2) by {
                    if i2 < i {
                        let k = choose|k: int| 0 <= k < before.len()
                            && #[trigger] before[k] == first_view(i2);
                        assert(vis.rects()[k] == before[k]);
                    } else {
                        assert(vis.rects()[before.len() as int] == first_view(i2));
                    }
                }
            }
            proof {
                assert forall|c: (int, int, int)| #[trigger] vis.marks().contains_key(c) implies
                    vis.marks()[c] == (marks0[c] || exists|i2: int| 0 <= i2 < i + 1
                        && #[trigger] reached(m, o, sector_of(i2), quadrant(sector_of(i2)), 1, c)) by {
                    if reached(m, o, sector_of(i as int), quadrant(sector_of(i as int)), 1, c) {
                        assert(0 <= i < i + 1);
                    }
                    if exists|i2: int| 0 <= i2 < i + 1 && #[trigger] reached(m, o, sector_of(i2), quadrant(sector_of(i2)), 1, c) {
                        let i2 = choose|i2: int| 0 <= i2 < i + 1 && #[trigger] reached(m, o, sector_of(i2), quadrant(sector_of(i2)), 1, c);
                        if i2 < i {
                        }
                    }
                }
            }
            i += 1;
        }
        let ghost final_marks = vis.marks();
        let ghost drawn = vis.rects();
        let (r, rects) = vis.into_parts();
        self.cast_rects = rects;
        proof {
            assert forall|c: (int, int, int)|
                (exists|i: int| 0 <= i < r@.len() && #[trigger] r@[i].key() == c) <==> #[trigger] visible(m, o, c) by {
                if exists|i: int| 0 <= i < r@.len() && #[trigger] r@[i].key() == c {
                    let i = choose|i: int| 0 <= i < r@.len() && #[trigger] r@[i].key() == c;
                    assert(final_marks.contains_key(r@[i].key()));
                    assert(final_marks[r@[i].key()]);
                    assert(final_marks.contains_key(c) && final_marks[c]);
                }
                if visible(m, o, c) {
                    if exists|i2: int| 0 <= i2 < 24 && #[trigger] reached(m, o, sector_of(i2), quadrant(sector_of(i2)), 1, c) {
                        let i2 = choose|i2: int| 0 <= i2 < 24 && #[trigger] reached(m, o, sector_of(i2), quadrant(sector_of(i2)), 1, c);
                    }
                    assert(final_marks.contains_key(c) && final_marks[c]);
                }
            }
        }
        r
    }
}

} // verus!
