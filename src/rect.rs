//! Axis-aligned rectangles with integer bounds.
//!
//! A rectangle stands for the half-open set of lattice points
//! `sx <= px < ex`, `sy <= py < ey`. It is valid when that set is not empty.
use vstd::prelude::*;

verus! {

/// Axis-aligned rectangle; `ex` and `ey` are ends, not lengths.
#[derive(Clone, Copy, Debug, PartialEq, Eq, Structural)]
pub struct Rect {
    pub sx: i64,
    pub sy: i64,
    pub ex: i64,
    pub ey: i64,
}

impl Rect {
    /// The lattice point `(px, py)` lies inside the rectangle.
    pub open spec fn contains(self, px: int, py: int) -> bool {
        &&& self.sx <= px < self.ex
        &&& self.sy <= py < self.ey
    }

    pub open spec fn valid(self) -> bool {
        self.sx < self.ex && self.sy < self.ey
    }

    pub open spec fn overlaps(self, other: Rect) -> bool {
        &&& self.sx < other.ex
        &&& self.ex > other.sx
        &&& self.sy < other.ey
        &&& self.ey > other.sy
    }

    /// Every point of `self` is a point of `other`.
    pub open spec fn within(self, other: Rect) -> bool {
        forall|px: int, py: int| #[trigger] self.contains(px, py) ==> other.contains(px, py)
    }

    pub open spec fn meet(self, other: Rect) -> Rect {
        Rect {
            sx: if self.sx >= other.sx { self.sx } else { other.sx },
            sy: if self.sy >= other.sy { self.sy } else { other.sy },
            ex: if self.ex <= other.ex { self.ex } else { other.ex },
            ey: if self.ey <= other.ey { self.ey } else { other.ey },
        }
    }

    pub fn is_valid(&self) -> (r: bool)
        ensures
            r == self.valid(),
    {
        self.sx < self.ex && self.sy < self.ey
    }

    pub fn intersects(&self, other: &Rect) -> (r: bool)
        ensures
            r == self.overlaps(*other),
    {
        self.sx < other.ex && self.ex > other.sx && self.sy < other.ey && self.ey > other.sy
    }

    /// The common part of two rectangles, or `None` when they share no point.
    pub fn intersection(&self, other: &Rect) -> (r: Option<Rect>)
        ensures
            r.is_some() <==> self.overlaps(*other) && self.meet(*other).valid(),
            self.valid() && other.valid() ==> (r.is_some() <==> self.overlaps(*other)),
            r matches Some(m) ==> m == self.meet(*other) && m.valid(),
    {
        if !self.intersects(other) {
            return None;
        }
        let result = Rect {
            sx: if self.sx >= other.sx { self.sx } else { other.sx },
            sy: if self.sy >= other.sy { self.sy } else { other.sy },
            ex: if self.ex <= other.ex { self.ex } else { other.ex },
            ey: if self.ey <= other.ey { self.ey } else { other.ey },
        };
        if result.is_valid() {
            Some(result)
        } else {
            None
        }
    }
}

/// A point lies in the meet of two rectangles exactly when it lies in both.
pub proof fn lemma_meet_contains(a: Rect, b: Rect, px: int, py: int)
    ensures
        a.meet(b).contains(px, py) <==> (a.contains(px, py) && b.contains(px, py)),
{
}

/// Two rectangles overlap exactly when they share a point, provided both are valid.
pub proof fn lemma_overlaps_iff_common_point(a: Rect, b: Rect)
    requires
        a.valid(),
        b.valid(),
    ensures
        a.overlaps(b) <==> exists|px: int, py: int| a.contains(px, py) && b.contains(px, py),
{
    if a.overlaps(b) {
        let m = a.meet(b);
        assert(m.contains(m.sx as int, m.sy as int));
        lemma_meet_contains(a, b, m.sx as int, m.sy as int);
    }
}

/// The laws of the rectangle algebra: overlap is symmetric, the intersection
/// is absent exactly when the rectangles do not overlap, and when present it
/// is a valid rectangle lying within both.
pub proof fn lemma_rect_algebra(a: Rect, b: Rect)
    requires
        a.valid(),
        b.valid(),
    ensures
        a.overlaps(b) == b.overlaps(a),
        a.overlaps(b) ==> a.meet(b).valid() && a.meet(b).within(a) && a.meet(b).within(b),
        !a.overlaps(b) ==> forall|px: int, py: int|
            !(#[trigger] a.contains(px, py) && b.contains(px, py)),
{
    lemma_overlaps_iff_common_point(a, b);
}

} // verus!
