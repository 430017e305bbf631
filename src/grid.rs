//! Dense three-dimensional boolean grids, held in an `ndarray` array.
use vstd::prelude::*;
use ndarray::Array3;

verus! {

/// A dense boolean grid, known to the rest of the library only through
/// `grid_cells` and the functions below.
#[verifier::external_body]
pub struct Grid {
    cells: Array3<bool>,
}

/// The elements of a grid, keyed by index; the keys are exactly the
/// in-bounds indices.
pub uninterp spec fn grid_cells(g: Grid) -> Map<(int, int, int), bool>;

/// The index lies in a grid of shape `(nx, ny, nz)`.
pub open spec fn in_shape(nx: int, ny: int, nz: int, c: (int, int, int)) -> bool {
    &&& 0 <= c.0 < nx
    &&& 0 <= c.1 < ny
    &&& 0 <= c.2 < nz
}

/// Relies on ndarray's `Array3::from_elem`: an array of the given shape with
/// every element equal to `false`. It panics when the product of the
/// non-zero lengths overflows `isize`; `requires` bounds every product of
/// one, two or three lengths by `isize::MAX`, so no product of the non-zero
/// lengths, nor any partial product along the way, can overflow.
#[verifier::external_body]
pub(crate) fn grid_filled(nx: usize, ny: usize, nz: usize) -> (g: Grid)
    requires
        nx <= i32::MAX,
        ny <= i32::MAX,
        nz <= i32::MAX,
        nx * ny <= isize::MAX,
        nx * nz <= isize::MAX,
        ny * nz <= isize::MAX,
        nx * ny * nz <= isize::MAX,
    ensures
        forall|c: (int, int, int)| #[trigger] grid_cells(g).contains_key(c) <==> in_shape(nx as int, ny as int, nz as int, c),
        forall|c: (int, int, int)| #[trigger] grid_cells(g).contains_key(c) ==> !grid_cells(g)[c],
{
    Grid { cells: Array3::from_elem((nx, ny, nz), false) }
}

/// Relies on ndarray's `ArrayBase::get`: the element at the index, or `None`
/// when the index is out of bounds.
#[verifier::external_body]
pub(crate) fn grid_get(g: &Grid, x: usize, y: usize, z: usize) -> (r: Option<bool>)
    ensures
        grid_cells(*g).contains_key((x as int, y as int, z as int)) ==> r == Some(grid_cells(*g)[(x as int, y as int, z as int)]),
        !grid_cells(*g).contains_key((x as int, y as int, z as int)) ==> r.is_none(),
{
    g.cells.get((x, y, z)).copied()
}

/// Relies on ndarray's `IndexMut` for `ArrayBase`: writes one element and
/// leaves the others. Indexing panics out of bounds, which `requires` leaves out.
#[verifier::external_body]
pub(crate) fn grid_set(g: &mut Grid, x: usize, y: usize, z: usize, v: bool)
    requires
        grid_cells(*old(g)).contains_key((x as int, y as int, z as int)),
    ensures
        grid_cells(*final(g)) == grid_cells(*old(g)).insert((x as int, y as int, z as int), v),
{
    g.cells[(x, y, z)] = v;
}

} // verus!
