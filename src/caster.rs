//! The recursive caster: one sector at a time, layer by layer, the view is
//! narrowed by the footprints of the occluded cells met so far.
//!
//! A cell is reached by a cast when it is not occluded and its footprint
//! shares a slope point with the part of the view that no nearer occluder
//! of the same sector has covered.
use vstd::prelude::*;
use crate::rect::Rect;
use crate::difference::{covers, clear_of, inside, rectangle_minus_rectangles, lemma_covers_push};
use crate::grid::{Grid, grid_cells, grid_filled, grid_get, grid_set, in_shape};
use crate::geometry::{
    MAX_DEPTH, Plane, Sector, quadrant, world, local, fp_contains, near_slope, on_voxel, get_cube_occlusion,
    voxel_at, lemma_box_axis, lemma_footprint_near, lemma_voxel_monotone, lemma_world_local, lemma_local_world,
};

verus! {

/// A voxel coordinate.
#[derive(Clone, Copy, Debug, PartialEq, Eq, Structural)]
pub struct Voxel {
    pub x: i32,
    pub y: i32,
    pub z: i32,
}

impl Voxel {
    pub open spec fn key(self) -> (int, int, int) {
        (self.x as int, self.y as int, self.z as int)
    }
}

/// The cell is inside the grid and marked.
pub open spec fn occupied(m: Map<(int, int, int), bool>, c: (int, int, int)) -> bool {
    m.contains_key(c) && m[c]
}

/// Some occluded cell of layer `j` of the sector casts its footprint over the point.
pub open spec fn blocked(
    m: Map<(int, int, int), bool>,
    o: (int, int, int),
    s: Sector,
    j: int,
    px: int,
    py: int,
) -> bool {
    exists|a: int, b: int| occupied(m, world(s, o, a, b, j)) && #[trigger] fp_contains(s, a, b, j, px, py)
}

/// The point of `view` is still lit at layer `k` when the cast starts at
/// layer `d`: no occluder of layers `d` to `k - 1` covers it.
pub open spec fn lit(
    m: Map<(int, int, int), bool>,
    o: (int, int, int),
    s: Sector,
    view: Rect,
    d: int,
    k: int,
    px: int,
    py: int,
) -> bool {
    &&& view.contains(px, py)
    &&& forall|j: int| d <= j < k ==> !#[trigger] blocked(m, o, s, j, px, py)
}

/// The cast of `view` from layer `d` in sector `s` reports the world cell `c`:
/// `c` is an unoccluded cell of the grid in some layer `k` from `d` to
/// `MAX_DEPTH`, within one voxel on both transverse axes of a point of the
/// view still lit at layer `k`. At layer `d` these are the cells of the
/// view's voxel box widened by one cell on every side.
pub open spec fn reached(
    m: Map<(int, int, int), bool>,
    o: (int, int, int),
    s: Sector,
    view: Rect,
    d: int,
    c: (int, int, int),
) -> bool {
    let l = local(s, o, c);
    &&& d <= l.2 <= MAX_DEPTH
    &&& m.contains_key(c)
    &&& !m[c]
    &&& exists|px: int, py: int|
        near_slope(l.0, l.2, px) && near_slope(l.1, l.2, py) && #[trigger] lit(m, o, s, view, d, l.2, px, py)
}

/// Every key of the grid is a non-negative index that fits in an `i32`.
pub open spec fn grid_bounded(m: Map<(int, int, int), bool>) -> bool {
    forall|c: (int, int, int)| #[trigger] m.contains_key(c) ==> 0 <= c.0 <= i32::MAX && 0 <= c.1 <= i32::MAX && 0 <= c.2 <= i32::MAX
}

/// Cell `(a, b)` of layer `d` lies within one voxel of a point of the view.
pub open spec fn near_view(view: Rect, a: int, b: int, d: int) -> bool {
    exists|px: int, py: int| near_slope(a, d, px) && near_slope(b, d, py) && #[trigger] view.contains(px, py)
}

/// `(a2, b2)` lies in the box `[alo, ahi] x [blo, bhi]` and comes before
/// `(a, b)` in the scan of it.
pub open spec fn visited(bx: (int, int, int, int), a: int, b: int, a2: int, b2: int) -> bool {
    &&& bx.0 <= a2 <= bx.1
    &&& bx.2 <= b2 <= bx.3
    &&& (a2 < a || (a2 == a && b2 < b))
}

pub open spec fn blocked_before(
    m: Map<(int, int, int), bool>,
    o: (int, int, int),
    s: Sector,
    d: int,
    bx: (int, int, int, int),
    a: int,
    b: int,
    px: int,
    py: int,
) -> bool {
    exists|a2: int, b2: int|
        visited(bx, a, b, a2, b2) && occupied(m, world(s, o, a2, b2, d)) && #[trigger] fp_contains(s, a2, b2, d, px, py)
}

pub open spec fn scanned_before(
    m: Map<(int, int, int), bool>,
    o: (int, int, int),
    s: Sector,
    d: int,
    bx: (int, int, int, int),
    a: int,
    b: int,
    c: (int, int, int),
) -> bool {
    let l = local(s, o, c);
    &&& l.2 == d
    &&& visited(bx, a, b, l.0, l.1)
    &&& m.contains_key(c)
    &&& !m[c]
}

proof fn lemma_blocked_before_step(
    m: Map<(int, int, int), bool>,
    o: (int, int, int),
    s: Sector,
    d: int,
    bx: (int, int, int, int),
    a: int,
    b: int,
)
    requires
        bx.0 <= a <= bx.1,
        bx.2 <= b <= bx.3,
    ensures
        forall|px: int, py: int| #[trigger] blocked_before(m, o, s, d, bx, a, b + 1, px, py) <==> (blocked_before(m, o, s, d, bx, a, b, px, py)
            || (occupied(m, world(s, o, a, b, d)) && fp_contains(s, a, b, d, px, py))),
{
    assert forall|px: int, py: int| #[trigger] blocked_before(m, o, s, d, bx, a, b + 1, px, py) <==> (blocked_before(m, o, s, d, bx, a, b, px, py)
        || (occupied(m, world(s, o, a, b, d)) && fp_contains(s, a, b, d, px, py))) by {
        if blocked_before(m, o, s, d, bx, a, b + 1, px, py) {
            let (a2, b2) = choose|a2: int, b2: int|
                visited(bx, a, b + 1, a2, b2) && occupied(m, world(s, o, a2, b2, d)) && #[trigger] fp_contains(s, a2, b2, d, px, py);
            if !(a2 == a && b2 == b) {
                assert(visited(bx, a, b, a2, b2));
            }
        }
        if blocked_before(m, o, s, d, bx, a, b, px, py) {
            let (a2, b2) = choose|a2: int, b2: int|
                visited(bx, a, b, a2, b2) && occupied(m, world(s, o, a2, b2, d)) && #[trigger] fp_contains(s, a2, b2, d, px, py);
            assert(visited(bx, a, b + 1, a2, b2));
        }
        if occupied(m, world(s, o, a, b, d)) && fp_contains(s, a, b, d, px, py) {
            assert(visited(bx, a, b + 1, a, b));
        }
    }
}

proof fn lemma_blocked_before_row(
    m: Map<(int, int, int), bool>,
    o: (int, int, int),
    s: Sector,
    d: int,
    bx: (int, int, int, int),
    a: int,
)
    ensures
        forall|px: int, py: int| #[trigger] blocked_before(m, o, s, d, bx, a + 1, bx.2, px, py)
            <==> blocked_before(m, o, s, d, bx, a, bx.3 + 1, px, py),
{
    assert forall|px: int, py: int| #[trigger] blocked_before(m, o, s, d, bx, a + 1, bx.2, px, py)
        <==> blocked_before(m, o, s, d, bx, a, bx.3 + 1, px, py) by {
        if blocked_before(m, o, s, d, bx, a + 1, bx.2, px, py) {
            let (a2, b2) = choose|a2: int, b2: int|
                visited(bx, a + 1, bx.2, a2, b2) && occupied(m, world(s, o, a2, b2, d)) && #[trigger] fp_contains(s, a2, b2, d, px, py);
            assert(visited(bx, a, bx.3 + 1, a2, b2));
        }
        if blocked_before(m, o, s, d, bx, a, bx.3 + 1, px, py) {
            let (a2, b2) = choose|a2: int, b2: int|
                visited(bx, a, bx.3 + 1, a2, b2) && occupied(m, world(s, o, a2, b2, d)) && #[trigger] fp_contains(s, a2, b2, d, px, py);
            assert(visited(bx, a + 1, bx.2, a2, b2));
        }
    }
}

/// A footprint that covers a point of the quadrant lies within one voxel of
/// that point on both axes.
proof fn lemma_footprint_near_point(s: Sector, a: int, b: int, d: int, px: int, py: int)
    requires
        1 <= d <= MAX_DEPTH,
        fp_contains(s, a, b, d, px, py),
        quadrant(s).contains(px, py),
    ensures
        near_slope(a, d, px),
        near_slope(b, d, py),
{
    lemma_footprint_near(s.pos_x, a, d, px);
    lemma_footprint_near(s.pos_y, b, d, py);
}

/// Reaching from layer `d` splits into the cells of layer `d` near the view,
/// and what the remainder reaches from layer `d + 1`.
proof fn lemma_reached_split(
    m: Map<(int, int, int), bool>,
    o: (int, int, int),
    s: Sector,
    view: Rect,
    d: int,
    occluders: Seq<Rect>,
    rest: Seq<Rect>,
    c: (int, int, int),
)
    requires
        forall|px: int, py: int| #[trigger] covers(rest, px, py) <==> (view.contains(px, py) && clear_of(occluders, occluders.len() as int, px, py)),
        forall|px: int, py: int| view.contains(px, py) ==> (#[trigger] covers(occluders, px, py) <==> blocked(m, o, s, d, px, py)),
    ensures
        reached(m, o, s, view, d, c) <==> (
            (local(s, o, c).2 == d && m.contains_key(c) && !m[c] && near_view(view, local(s, o, c).0, local(s, o, c).1, d) && d <= MAX_DEPTH)
            || exists|i: int| 0 <= i < rest.len() && #[trigger] reached(m, o, s, rest[i], d + 1, c)),
{
    let l = local(s, o, c);
    let k = l.2;
    if k == d {
        if reached(m, o, s, view, d, c) {
            let (px, py) = choose|px: int, py: int| near_slope(l.0, l.2, px) && near_slope(l.1, l.2, py) && #[trigger] lit(m, o, s, view, d, l.2, px, py);
            assert(view.contains(px, py));
        }
        if near_view(view, l.0, l.1, d) && m.contains_key(c) && !m[c] && d <= MAX_DEPTH {
            let (px, py) = choose|px: int, py: int| near_slope(l.0, d, px) && near_slope(l.1, d, py) && #[trigger] view.contains(px, py);
            assert(lit(m, o, s, view, d, k, px, py));
        }
    } else if k > d {
        if reached(m, o, s, view, d, c) {
            let (px, py) = choose|px: int, py: int| near_slope(l.0, l.2, px) && near_slope(l.1, l.2, py) && #[trigger] lit(m, o, s, view, d, l.2, px, py);
            assert(!blocked(m, o, s, d, px, py));
            assert(!covers(occluders, px, py));
            assert forall|j: int| 0 <= j < occluders.len() implies !(#[trigger] occluders[j].contains(px, py)) by {
                if occluders[j].contains(px, py) {
                    assert(covers(occluders, px, py));
                }
            }
            assert(covers(rest, px, py));
            let i = choose|i: int| 0 <= i < rest.len() && #[trigger] rest[i].contains(px, py);
            assert(lit(m, o, s, rest[i], d + 1, k, px, py));
            assert(reached(m, o, s, rest[i], d + 1, c));
        }
        if exists|i: int| 0 <= i < rest.len() && #[trigger] reached(m, o, s, rest[i], d + 1, c) {
            let i = choose|i: int| 0 <= i < rest.len() && #[trigger] reached(m, o, s, rest[i], d + 1, c);
            let (px, py) = choose|px: int, py: int| near_slope(l.0, l.2, px) && near_slope(l.1, l.2, py) && #[trigger] lit(m, o, s, rest[i], d + 1, l.2, px, py);
            assert(covers(rest, px, py));
            assert(!covers(occluders, px, py));
            assert forall|j: int| d <= j < k implies !#[trigger] blocked(m, o, s, j, px, py) by {
                if j > d {
                    assert(d + 1 <= j < k);
                }
            }
            assert(lit(m, o, s, view, d, k, px, py));
        }
    }
}

/// What a rectangle handed to the visualization stands for.
#[derive(Clone, Copy, Debug, PartialEq, Eq, Structural)]
pub enum CastRectKind {
    /// the view a cast starts from at its layer
    View,
    /// the footprint of an occluded cell the cast scanned
    Occluder,
}

/// A scaled slope rectangle of one layer of one sector, for drawing.
#[derive(Clone, Copy, Debug, PartialEq, Eq, Structural)]
pub struct CastRect {
    pub sector: Sector,
    pub depth: u32,
    pub rect: Rect,
    pub kind: CastRectKind,
}

/// `new` extends `old`, and each added rectangle belongs to sector `s` and
/// to a layer from `lo` to `MAX_DEPTH`.
pub open spec fn trace_extends(old: Seq<CastRect>, new: Seq<CastRect>, s: Sector, lo: int) -> bool {
    &&& old.len() <= new.len()
    &&& forall|i: int| 0 <= i < old.len() ==> #[trigger] new[i] == old[i]
    &&& forall|i: int| old.len() <= i < new.len() ==> (#[trigger] new[i]).sector == s && lo <= new[i].depth <= MAX_DEPTH
}

proof fn lemma_trace_extends_trans(a: Seq<CastRect>, b: Seq<CastRect>, c: Seq<CastRect>, s: Sector, lo: int, lo2: int)
    requires
        trace_extends(a, b, s, lo),
        trace_extends(b, c, s, lo2),
        lo <= lo2,
    ensures
        trace_extends(a, c, s, lo),
{
    assert forall|i: int| 0 <= i < a.len() implies #[trigger] c[i] == a[i] by {
        assert(c[i] == b[i]);
    }
    assert forall|i: int| a.len() <= i < c.len() implies (#[trigger] c[i]).sector == s && lo <= c[i].depth <= MAX_DEPTH by {
        if i < b.len() {
            assert(c[i] == b[i]);
        }
    }
}

/// Cells reported visible so far, each once, and a mark for each of them;
/// and the rectangles the casts handed out for drawing.
pub struct VisibleSet {
    seen: Grid,
    cells: Vec<Voxel>,
    rects: Vec<CastRect>,
}

impl VisibleSet {
    pub closed spec fn marks(self) -> Map<(int, int, int), bool> {
        grid_cells(self.seen)
    }

    /// The reported cells, in the order they were reported.
    pub closed spec fn reported(self) -> Seq<Voxel> {
        self.cells@
    }

    /// The rectangles handed out for drawing, in the order of the casts.
    pub closed spec fn rects(self) -> Seq<CastRect> {
        self.rects@
    }

    /// Appends a rectangle for drawing.
    fn record(&mut self, r: CastRect)
        requires
            old(self).wf(),
        ensures
            final(self).wf(),
            final(self).marks() == old(self).marks(),
            final(self).rects() == old(self).rects().push(r),
    {
        let ghost cells = self.cells@;
        self.rects.push(r);
        assert(self.cells@ == cells);
    }

    pub closed spec fn wf(self) -> bool {
        &&& forall|i: int| 0 <= i < self.cells@.len() ==> #[trigger] grid_cells(self.seen).contains_key(self.cells@[i].key())
            && grid_cells(self.seen)[self.cells@[i].key()]
        &&& forall|c: (int, int, int)| #[trigger] grid_cells(self.seen).contains_key(c) && grid_cells(self.seen)[c]
            ==> exists|i: int| 0 <= i < self.cells@.len() && #[trigger] self.cells@[i].key() == c
        &&& forall|i: int, j: int| 0 <= i < self.cells@.len() && 0 <= j < self.cells@.len() && i != j
            ==> #[trigger] self.cells@[i].key() != #[trigger] self.cells@[j].key()
    }

    /// An empty set over a grid of the given shape.
    pub fn new(nx: usize, ny: usize, nz: usize) -> (r: VisibleSet)
        requires
            nx <= i32::MAX,
            ny <= i32::MAX,
            nz <= i32::MAX,
            nx * ny <= isize::MAX,
            nx * nz <= isize::MAX,
            ny * nz <= isize::MAX,
            nx * ny * nz <= isize::MAX,
        ensures
            r.wf(),
            r.reported().len() == 0,
            r.rects().len() == 0,
            forall|c: (int, int, int)| #[trigger] r.marks().contains_key(c) <==> in_shape(nx as int, ny as int, nz as int, c),
            forall|c: (int, int, int)| #[trigger] r.marks().contains_key(c) ==> !r.marks()[c],
    {
        VisibleSet { seen: grid_filled(nx, ny, nz), cells: Vec::new(), rects: Vec::new() }
    }

    /// The reported cells, each once, and the rectangles for drawing.
    pub fn into_parts(self) -> (parts: (Vec<Voxel>, Vec<CastRect>))
        requires
            self.wf(),
        ensures
            parts.1@ == self.rects(),
            parts.0@ == self.reported(),
            forall|i: int| 0 <= i < parts.0@.len() ==> #[trigger] self.marks().contains_key(parts.0@[i].key()) && self.marks()[parts.0@[i].key()],
            forall|c: (int, int, int)| #[trigger] self.marks().contains_key(c) && self.marks()[c]
                ==> exists|i: int| 0 <= i < parts.0@.len() && #[trigger] parts.0@[i].key() == c,
            forall|i: int, j: int| 0 <= i < parts.0@.len() && 0 <= j < parts.0@.len() && i != j
                ==> #[trigger] parts.0@[i].key() != #[trigger] parts.0@[j].key(),
    {
        (self.cells, self.rects)
    }

    /// Marks the cell and appends it, unless it was reported before.
    pub(crate) fn report(&mut self, x: i64, y: i64, z: i64)
        requires
            old(self).wf(),
            old(self).marks().contains_key((x as int, y as int, z as int)),
            0 <= x <= i32::MAX,
            0 <= y <= i32::MAX,
            0 <= z <= i32::MAX,
        ensures
            final(self).wf(),
            final(self).marks() == old(self).marks().insert((x as int, y as int, z as int), true),
            final(self).rects() == old(self).rects(),
    {
        let v = grid_get(&self.seen, x as usize, y as usize, z as usize);
        if v == Some(false) {
            let ghost old_cells = self.cells@;
            grid_set(&mut self.seen, x as usize, y as usize, z as usize, true);
            let voxel = Voxel { x: x as i32, y: y as i32, z: z as i32 };
            self.cells.push(voxel);
            proof {
                let key = (x as int, y as int, z as int);
                assert(self.cells@[old_cells.len() as int].key() == key);
                assert forall|c: (int, int, int)| #[trigger] grid_cells(self.seen).contains_key(c) && grid_cells(self.seen)[c]
                    implies exists|i: int| 0 <= i < self.cells@.len() && #[trigger] self.cells@[i].key() == c by {
                    if c != key {
                        let i = choose|i: int| 0 <= i < old_cells.len() && #[trigger] old_cells[i].key() == c;
                        assert(self.cells@[i] == old_cells[i]);
                    }
                }
                assert forall|i: int| 0 <= i < self.cells@.len() implies #[trigger] grid_cells(self.seen).contains_key(self.cells@[i].key())
                    && grid_cells(self.seen)[self.cells@[i].key()] by {
                    if i < old_cells.len() {
                        assert(self.cells@[i] == old_cells[i]);
                    }
                }
                assert forall|i: int, j: int| 0 <= i < self.cells@.len() && 0 <= j < self.cells@.len() && i != j
                    implies #[trigger] self.cells@[i].key() != #[trigger] self.cells@[j].key() by {
                    if i < old_cells.len() {
                        assert(self.cells@[i] == old_cells[i]);
                    }
                    if j < old_cells.len() {
                        assert(self.cells@[j] == old_cells[j]);
                    }
                }
            }
        } else {
            assert(old(self).marks().insert((x as int, y as int, z as int), true) =~= old(self).marks());
        }
    }
}

/// The world coordinates of cell `(a, b)` of layer `d` of the sector.
fn world_cell(s: Sector, o: Voxel, a: i64, b: i64, d: i64) -> (r: (i64, i64, i64))
    requires
        -64 <= a <= 64,
        -64 <= b <= 64,
        -64 <= d <= 64,
    ensures
        (r.0 as int, r.1 as int, r.2 as int) == world(s, o.key(), a as int, b as int, d as int),
{
    let w = if s.reverse { -d } else { d };
    let (ox, oy, oz) = (o.x as i64, o.y as i64, o.z as i64);
    match s.plane {
        Plane::XY => (ox + a, oy + b, oz + w),
        Plane::ZY => (ox + w, oy + b, oz + a),
        Plane::ZX => (ox + b, oy + w, oz + a),
    }
}

/// Whether the cell is occluded, or `None` outside the grid.
fn lookup(g: &Grid, x: i64, y: i64, z: i64) -> (r: Option<bool>)
    requires
        grid_bounded(grid_cells(*g)),
    ensures
        grid_cells(*g).contains_key((x as int, y as int, z as int)) ==> r == Some(grid_cells(*g)[(x as int, y as int, z as int)]),
        !grid_cells(*g).contains_key((x as int, y as int, z as int)) ==> r.is_none(),
{
    if x < 0 || y < 0 || z < 0 || x > i32::MAX as i64 || y > i32::MAX as i64 || z > i32::MAX as i64 {
        return None;
    }
    grid_get(g, x as usize, y as usize, z as usize)
}

/// Casts `view` from layer `depth` of the sector. In each layer it scans
/// the voxel box of the view widened by one cell: every unoccluded cell there
/// is reported, and every occluded one casts its footprint; the footprints
/// are subtracted from the view, and each remaining rectangle is cast from
/// the next layer. A cast from beyond `MAX_DEPTH` returns at once and
/// reports nothing; the recursion itself never makes such a call, since it
/// only casts the next layer while `depth < MAX_DEPTH`.
pub fn cast_light(vol: &Grid, origin: Voxel, sector: Sector, view: Rect, depth: u32, vis: &mut VisibleSet)
    requires
        1 <= depth,
        view.valid(),
        inside(view, quadrant(sector)),
        grid_bounded(grid_cells(*vol)),
        old(vis).wf(),
        old(vis).marks().dom() == grid_cells(*vol).dom(),
    ensures
        final(vis).wf(),
        final(vis).marks().dom() == grid_cells(*vol).dom(),
        forall|c: (int, int, int)| #[trigger] final(vis).marks().contains_key(c) ==>
            final(vis).marks()[c] == (old(vis).marks()[c] || reached(grid_cells(*vol), origin.key(), sector, view, depth as int, c)),
        forall|c: (int, int, int)| #[trigger] final(vis).marks().contains_key(c) && final(vis).marks()[c] && !old(vis).marks()[c]
            ==> depth <= local(sector, origin.key(), c).2 <= MAX_DEPTH,
        depth > MAX_DEPTH ==> final(vis).marks() == old(vis).marks() && final(vis).reported() == old(vis).reported()
            && final(vis).rects() == old(vis).rects(),
        trace_extends(old(vis).rects(), final(vis).rects(), sector, depth as int),
        depth <= MAX_DEPTH ==> final(vis).rects().len() > old(vis).rects().len()
            && final(vis).rects()[old(vis).rects().len() as int] == (CastRect { sector, depth, rect: view, kind: CastRectKind::View }),
    decreases MAX_DEPTH - depth,
{
    if depth > MAX_DEPTH {
        return;
    }
    let ghost rects0 = vis.rects();
    let ghost entry = CastRect { sector, depth, rect: view, kind: CastRectKind::View };
    vis.record(CastRect { sector, depth, rect: view, kind: CastRectKind::View });
    let ghost m = grid_cells(*vol);
    let ghost o = origin.key();
    let ghost marks0 = vis.marks();
    let ghost dd = depth as int;
    let d = depth as i64;
    assert((view.ex > 0) == sector.pos_x && (view.sx < 0) == !sector.pos_x);
    assert((view.ey > 0) == sector.pos_y && (view.sy < 0) == !sector.pos_y);
    let vsx = voxel_at(view.sx, depth);
    let vex = voxel_at(view.ex - 1, depth);
    let vsy = voxel_at(view.sy, depth);
    let vey = voxel_at(view.ey - 1, depth);
    let (alo, ahi, blo, bhi) = (vsx - 1, vex + 1, vsy - 1, vey + 1);
    let ghost bx = (alo as int, ahi as int, blo as int, bhi as int);
    proof {
        lemma_voxel_monotone(dd, view.sx as int, view.ex - 1, vsx as int, vex as int);
        lemma_voxel_monotone(dd, view.sy as int, view.ey - 1, vsy as int, vey as int);
    }
    let mut occluders: Vec<Rect> = Vec::new();
    let mut a: i64 = alo;
    while a <= ahi
        invariant
            1 <= depth <= MAX_DEPTH,
            d == depth,
            dd == d,
            bx == (alo as int, ahi as int, blo as int, bhi as int),
            alo == vsx - 1 && ahi == vex + 1 && blo == vsy - 1 && bhi == vey + 1,
            alo <= ahi + 1 && blo <= bhi + 1,
            on_voxel(vsx as int, dd, view.sx as int),
            on_voxel(vex as int, dd, view.ex - 1),
            on_voxel(vsy as int, dd, view.sy as int),
            on_voxel(vey as int, dd, view.ey - 1),
            -(d + 1) <= alo,
            ahi <= d + 1,
            -(d + 1) <= blo,
            bhi <= d + 1,
            m == grid_cells(*vol),
            o == origin.key(),
            view.valid(),
            inside(view, quadrant(sector)),
            (view.ex > 0) == sector.pos_x && (view.sx < 0) == !sector.pos_x,
            (view.ey > 0) == sector.pos_y && (view.sy < 0) == !sector.pos_y,
            grid_bounded(m),
            alo <= a <= ahi + 1,
            vis.wf(),
            vis.marks().dom() == m.dom(),
            trace_extends(rects0, vis.rects(), sector, dd),
            vis.rects().len() > rects0.len() && vis.rects()[rects0.len() as int] == entry,
            forall|c: (int, int, int)| #[trigger] vis.marks().contains_key(c) ==>
                vis.marks()[c] == (marks0[c] || scanned_before(m, o, sector, dd, bx, a as int, blo as int, c)),
            forall|px: int, py: int| view.contains(px, py) ==>
                (#[trigger] covers(occluders@, px, py) <==> blocked_before(m, o, sector, dd, bx, a as int, blo as int, px, py)),
        decreases ahi + 1 - a,
    {
        let mut b: i64 = blo;
        while b <= bhi
            invariant
                1 <= depth <= MAX_DEPTH,
                d == depth,
                dd == d,
                bx == (alo as int, ahi as int, blo as int, bhi as int),
                alo == vsx - 1 && ahi == vex + 1 && blo == vsy - 1 && bhi == vey + 1,
                alo <= ahi + 1 && blo <= bhi + 1,
                on_voxel(vsx as int, dd, view.sx as int),
                on_voxel(vex as int, dd, view.ex - 1),
                on_voxel(vsy as int, dd, view.sy as int),
                on_voxel(vey as int, dd, view.ey - 1),
                -(d + 1) <= alo,
                ahi <= d + 1,
                -(d + 1) <= blo,
                bhi <= d + 1,
                m == grid_cells(*vol),
                o == origin.key(),
                view.valid(),
                inside(view, quadrant(sector)),
                (view.ex > 0) == sector.pos_x && (view.sx < 0) == !sector.pos_x,
                (view.ey > 0) == sector.pos_y && (view.sy < 0) == !sector.pos_y,
                grid_bounded(m),
                alo <= a <= ahi,
                blo <= b <= bhi + 1,
                vis.wf(),
                vis.marks().dom() == m.dom(),
                trace_extends(rects0, vis.rects(), sector, dd),
                vis.rects().len() > rects0.len() && vis.rects()[rects0.len() as int] == entry,
                forall|c: (int, int, int)| #[trigger] vis.marks().contains_key(c) ==>
                    vis.marks()[c] == (marks0[c] || scanned_before(m, o, sector, dd, bx, a as int, b as int, c)),
                forall|px: int, py: int| view.contains(px, py) ==>
                    (#[trigger] covers(occluders@, px, py) <==> blocked_before(m, o, sector, dd, bx, a as int, b as int, px, py)),
            decreases bhi + 1 - b,
        {
            let ghost occ_before = occluders@;
            let ghost w = world(sector, o, a as int, b as int, dd);
            proof {
                lemma_blocked_before_step(m, o, sector, dd, bx, a as int, b as int);
                assert forall|c: (int, int, int)| c != w implies
                    #[trigger] scanned_before(m, o, sector, dd, bx, a as int, b as int + 1, c)
                    == scanned_before(m, o, sector, dd, bx, a as int, b as int, c) by {
                    lemma_world_local(sector, o, c);
                }
                lemma_local_world(sector, o, a as int, b as int, dd);
            }
            let (wx, wy, wz) = world_cell(sector, origin, a, b, d);
            match lookup(vol, wx, wy, wz) {
                Some(true) => {
                    let footprint = get_cube_occlusion(a, b, depth, &view);
                    assert forall|px: int, py: int| footprint.contains(px, py) <==> #[trigger] fp_contains(sector, a as int, b as int, dd, px, py) by {}
                    proof { lemma_covers_push(occ_before, footprint); }
                    occluders.push(footprint);
                    let ghost before = vis.rects();
                    vis.record(CastRect { sector, depth, rect: footprint, kind: CastRectKind::Occluder });
                    proof { lemma_trace_extends_trans(rects0, before, vis.rects(), sector, dd, dd); }
                },
                Some(false) => {
                    vis.report(wx, wy, wz);
                },
                None => {},
            }
            b += 1;
        }
        proof {
            lemma_blocked_before_row(m, o, sector, dd, bx, a as int);
            assert forall|c: (int, int, int)| #[trigger] vis.marks().contains_key(c) implies
                vis.marks()[c] == (marks0[c] || scanned_before(m, o, sector, dd, bx, a as int + 1, blo as int, c)) by {
                assert(scanned_before(m, o, sector, dd, bx, a as int + 1, blo as int, c)
                    == scanned_before(m, o, sector, dd, bx, a as int, bhi + 1, c));
            }
        }
        a += 1;
    }
    let ghost marks_scan = vis.marks();
    proof {
        assert forall|px: int, py: int| view.contains(px, py) implies
            (#[trigger] covers(occluders@, px, py) <==> blocked(m, o, sector, dd, px, py)) by {
            if blocked(m, o, sector, dd, px, py) {
                let (a2, b2) = choose|a2: int, b2: int| occupied(m, world(sector, o, a2, b2, dd)) && #[trigger] fp_contains(sector, a2, b2, dd, px, py);
                lemma_footprint_near_point(sector, a2, b2, dd, px, py);
                lemma_box_axis(dd, view.sx as int, view.ex as int, vsx as int, vex as int, a2);
                lemma_box_axis(dd, view.sy as int, view.ey as int, vsy as int, vey as int, b2);
                assert(visited(bx, ahi + 1, blo as int, a2, b2));
            }
        }
    }
    let ghost occ_all = occluders@;
    let rest = rectangle_minus_rectangles(view, occluders);
    if depth < MAX_DEPTH {
        let mut i: usize = 0;
        while i < rest.len()
            invariant
                1 <= depth < MAX_DEPTH,
                m == grid_cells(*vol),
                o == origin.key(),
                dd == depth,
                inside(view, quadrant(sector)),
                grid_bounded(m),
                0 <= i <= rest@.len(),
                forall|k: int| 0 <= k < rest@.len() ==> (#[trigger] rest@[k]).valid() && inside(rest@[k], view),
                vis.wf(),
                vis.marks().dom() == m.dom(),
                trace_extends(rects0, vis.rects(), sector, dd),
                vis.rects().len() > rects0.len() && vis.rects()[rects0.len() as int] == entry,
                forall|c: (int, int, int)| #[trigger] vis.marks().contains_key(c) ==>
                    vis.marks()[c] == (marks_scan[c] || exists|i2: int| 0 <= i2 < i && #[trigger] reached(m, o, sector, rest@[i2], dd + 1, c)),
            decreases rest@.len() - i,
        {
            assert(depth + 1 <= MAX_DEPTH);
            let ghost before = vis.rects();
            cast_light(vol, origin, sector, rest[i], depth + 1, vis);
            proof { lemma_trace_extends_trans(rects0, before, vis.rects(), sector, dd, dd + 1); }
            proof {
                assert forall|c: (int, int, int)| #[trigger] vis.marks().contains_key(c) implies
                    vis.marks()[c] == (marks_scan[c] || exists|i2: int| 0 <= i2 < i + 1 && #[trigger] reached(m, o, sector, rest@[i2], dd + 1, c)) by {
                    if reached(m, o, sector, rest@[i as int], dd + 1, c) {
                        assert(0 <= i < i + 1);
                    }
                    if exists|i2: int| 0 <= i2 < i + 1 && #[trigger] reached(m, o, sector, rest@[i2], dd + 1, c) {
                        let i2 = choose|i2: int| 0 <= i2 < i + 1 && #[trigger] reached(m, o, sector, rest@[i2], dd + 1, c);
                        if i2 < i {
                        }
                    }
                }
            }
            i += 1;
        }
    }
    proof {
        assert forall|c: (int, int, int)| #[trigger] vis.marks().contains_key(c) implies
            vis.marks()[c] == (marks0[c] || reached(m, o, sector, view, dd, c)) by {
            lemma_reached_split(m, o, sector, view, dd, occ_all, rest@, c);
            if exists|i: int| 0 <= i < rest@.len() && #[trigger] reached(m, o, sector, rest@[i], dd + 1, c) {
                let i = choose|i: int| 0 <= i < rest@.len() && #[trigger] reached(m, o, sector, rest@[i], dd + 1, c);
                assert(0 <= i < rest@.len());
            }
            let l = local(sector, o, c);
            if near_view(view, l.0, l.1, dd) {
                let (px, py) = choose|px: int, py: int| near_slope(l.0, dd, px) && near_slope(l.1, dd, py) && #[trigger] view.contains(px, py);
                lemma_box_axis(dd, view.sx as int, view.ex as int, vsx as int, vex as int, l.0);
                lemma_box_axis(dd, view.sy as int, view.ey as int, vsy as int, vey as int, l.1);
            }
            if l.2 == dd && visited(bx, ahi + 1, blo as int, l.0, l.1) {
                lemma_box_axis(dd, view.sx as int, view.ex as int, vsx as int, vex as int, l.0);
                lemma_box_axis(dd, view.sy as int, view.ey as int, vsy as int, vey as int, l.1);
                let px = choose|p: int| view.sx <= p < view.ex && #[trigger] near_slope(l.0, dd, p);
                let py = choose|p: int| view.sy <= p < view.ey && #[trigger] near_slope(l.1, dd, p);
                assert(view.contains(px, py));
            }
        }
    }
}

} // verus!
