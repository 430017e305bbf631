//! Areas, counted as lattice points.
use vstd::prelude::*;
use crate::rect::Rect;
use crate::difference::{covers, clear_of, pairwise_apart, inside};

verus! {

/// Points `(x, y)` with `y0 <= y < y1` for which `f` holds.
pub open spec fn column_count(x: int, y0: int, y1: int, f: spec_fn(int, int) -> bool) -> int
    decreases y1 - y0,
{
    if y1 <= y0 {
        0
    } else {
        column_count(x, y0, y1 - 1, f) + if f(x, y1 - 1) { 1int } else { 0int }
    }
}

/// Points of the box `[x0, x1) x [y0, y1)` for which `f` holds.
pub open spec fn box_count(x0: int, x1: int, y0: int, y1: int, f: spec_fn(int, int) -> bool) -> int
    decreases x1 - x0,
{
    if x1 <= x0 {
        0
    } else {
        box_count(x0, x1 - 1, y0, y1, f) + column_count(x1 - 1, y0, y1, f)
    }
}

/// Points of `r` for which `f` holds.
pub open spec fn count_in(r: Rect, f: spec_fn(int, int) -> bool) -> int {
    box_count(r.sx as int, r.ex as int, r.sy as int, r.ey as int, f)
}

pub open spec fn area(r: Rect) -> int {
    if r.valid() { (r.ex - r.sx) * (r.ey - r.sy) } else { 0 }
}

pub open spec fn area_sum(rs: Seq<Rect>) -> int
    decreases rs.len(),
{
    if rs.len() == 0 { 0 } else { area_sum(rs.drop_last()) + area(rs.last()) }
}

proof fn lemma_column_split(x: int, y0: int, y1: int, f: spec_fn(int, int) -> bool, g: spec_fn(int, int) -> bool, h: spec_fn(int, int) -> bool)
    requires
        forall|y: int| y0 <= y < y1 ==> (#[trigger] h(x, y) <==> (f(x, y) || g(x, y))) && !(f(x, y) && g(x, y)),
    ensures
        column_count(x, y0, y1, h) == column_count(x, y0, y1, f) + column_count(x, y0, y1, g),
    decreases y1 - y0,
{
    if y1 > y0 {
        lemma_column_split(x, y0, y1 - 1, f, g, h);
    }
}

/// Counting splits over a predicate that is the disjoint union of two others.
pub proof fn lemma_box_split(x0: int, x1: int, y0: int, y1: int, f: spec_fn(int, int) -> bool, g: spec_fn(int, int) -> bool, h: spec_fn(int, int) -> bool)
    requires
        forall|x: int, y: int| x0 <= x < x1 && y0 <= y < y1 ==> (#[trigger] h(x, y) <==> (f(x, y) || g(x, y))) && !(f(x, y) && g(x, y)),
    ensures
        box_count(x0, x1, y0, y1, h) == box_count(x0, x1, y0, y1, f) + box_count(x0, x1, y0, y1, g),
    decreases x1 - x0,
{
    if x1 > x0 {
        lemma_box_split(x0, x1 - 1, y0, y1, f, g, h);
        assert forall|y: int| y0 <= y < y1 implies (#[trigger] h(x1 - 1, y) <==> (f(x1 - 1, y) || g(x1 - 1, y)))
            && !(f(x1 - 1, y) && g(x1 - 1, y)) by {
            assert(x0 <= x1 - 1 < x1);
        }
        lemma_column_split(x1 - 1, y0, y1, f, g, h);
    }
}

proof fn lemma_column_rect(x: int, y0: int, y1: int, r: Rect)
    requires
        y0 <= r.sy,
        r.ey <= y1,
        r.sy <= r.ey,
    ensures
        column_count(x, y0, y1, |px: int, py: int| r.contains(px, py))
            == if r.sx <= x < r.ex { r.ey - r.sy } else { 0 },
    decreases y1 - y0,
{
    if y1 > y0 {
        if y1 - 1 >= r.ey {
            lemma_column_rect(x, y0, y1 - 1, r);
        } else {
            lemma_column_partial(x, y0, y1, r);
        }
    }
}

proof fn lemma_column_partial(x: int, y0: int, y1: int, r: Rect)
    requires
        y0 <= r.sy,
        y1 <= r.ey,
    ensures
        column_count(x, y0, y1, |px: int, py: int| r.contains(px, py))
            == if r.sx <= x < r.ex && y1 > r.sy { y1 - r.sy } else { 0 },
    decreases y1 - y0,
{
    if y1 > y0 {
        lemma_column_partial(x, y0, y1 - 1, r);
    }
}

proof fn lemma_box_rect(x0: int, x1: int, y0: int, y1: int, r: Rect)
    requires
        r.valid(),
        x0 <= r.sx,
        y0 <= r.sy,
        r.ey <= y1,
    ensures
        box_count(x0, x1, y0, y1, |px: int, py: int| r.contains(px, py))
            == if x1 <= r.sx { 0 } else if x1 <= r.ex { (x1 - r.sx) * (r.ey - r.sy) } else { (r.ex - r.sx) * (r.ey - r.sy) },
    decreases x1 - x0,
{
    if x1 > x0 {
        lemma_box_rect(x0, x1 - 1, y0, y1, r);
        lemma_column_rect(x1 - 1, y0, y1, r);
        let w = r.ey - r.sy;
        if r.sx < x1 <= r.ex {
            assert((x1 - 1 - r.sx) * w + w == (x1 - r.sx) * w) by (nonlinear_arith);
            assert((r.sx - r.sx) * w == 0) by (nonlinear_arith);
        }
    }
}

/// A valid rectangle inside the box contributes its area to the count.
pub proof fn lemma_count_rect(v: Rect, r: Rect)
    requires
        r.valid(),
        inside(r, v),
    ensures
        count_in(v, |px: int, py: int| r.contains(px, py)) == area(r),
{
    lemma_box_rect(v.sx as int, v.ex as int, v.sy as int, v.ey as int, r);
}

/// The points of `v` that disjoint valid rectangles inside it cover number
/// the sum of their areas.
pub proof fn lemma_count_union(v: Rect, rs: Seq<Rect>)
    requires
        forall|k: int| 0 <= k < rs.len() ==> (#[trigger] rs[k]).valid() && inside(rs[k], v),
        pairwise_apart(rs),
    ensures
        count_in(v, |px: int, py: int| covers(rs, px, py)) == area_sum(rs),
    decreases rs.len(),
{
    if rs.len() == 0 {
        lemma_count_nothing(v, |px: int, py: int| covers(rs, px, py));
    } else {
        let init = rs.drop_last();
        let r = rs.last();
        assert forall|k: int| 0 <= k < init.len() implies (#[trigger] init[k]).valid() && inside(init[k], v) by {
            assert(init[k] == rs[k]);
        }
        assert forall|i: int, k: int| 0 <= i < init.len() && 0 <= k < init.len() && i != k
            implies !(#[trigger] init[i].overlaps(#[trigger] init[k])) by {
            assert(init[i] == rs[i] && init[k] == rs[k]);
        }
        lemma_count_union(v, init);
        lemma_count_rect(v, r);
        assert(rs == init.push(r));
        let f = |px: int, py: int| covers(init, px, py);
        let g = |px: int, py: int| r.contains(px, py);
        let h = |px: int, py: int| covers(rs, px, py);
        assert forall|x: int, y: int| v.sx <= x < v.ex && v.sy <= y < v.ey implies (#[trigger] h(x, y) <==> (f(x, y) || g(x, y)))
            && !(f(x, y) && g(x, y)) by {
            if covers(rs, x, y) {
                let k = choose|k: int| 0 <= k < rs.len() && #[trigger] rs[k].contains(x, y);
                if k < init.len() {
                    assert(init[k] == rs[k]);
                }
            }
            if covers(init, x, y) {
                let k = choose|k: int| 0 <= k < init.len() && #[trigger] init[k].contains(x, y);
                assert(rs[k] == init[k]);
                assert(!rs[k].overlaps(rs[rs.len() - 1]));
            }
            if r.contains(x, y) {
                assert(rs[rs.len() - 1].contains(x, y));
            }
        }
        lemma_box_split(v.sx as int, v.ex as int, v.sy as int, v.ey as int, f, g, h);
    }
}

proof fn lemma_column_nothing(x: int, y0: int, y1: int, f: spec_fn(int, int) -> bool)
    requires
        forall|y: int| y0 <= y < y1 ==> !#[trigger] f(x, y),
    ensures
        column_count(x, y0, y1, f) == 0,
    decreases y1 - y0,
{
    if y1 > y0 {
        lemma_column_nothing(x, y0, y1 - 1, f);
    }
}

proof fn lemma_box_nothing(x0: int, x1: int, y0: int, y1: int, f: spec_fn(int, int) -> bool)
    requires
        forall|x: int, y: int| x0 <= x < x1 && y0 <= y < y1 ==> !#[trigger] f(x, y),
    ensures
        box_count(x0, x1, y0, y1, f) == 0,
    decreases x1 - x0,
{
    if x1 > x0 {
        lemma_box_nothing(x0, x1 - 1, y0, y1, f);
        lemma_column_nothing(x1 - 1, y0, y1, f);
    }
}

/// A predicate that no point of `v` meets counts zero.
pub proof fn lemma_count_nothing(v: Rect, f: spec_fn(int, int) -> bool)
    requires
        forall|x: int, y: int| v.contains(x, y) ==> !#[trigger] f(x, y),
    ensures
        count_in(v, f) == 0,
{
    lemma_box_nothing(v.sx as int, v.ex as int, v.sy as int, v.ey as int, f);
}

/// When disjoint valid rectangles inside `v` cover exactly the points of `v`
/// that no rectangle of `os` holds, their areas sum to the area of `v` less
/// the area of `v` that `os` covers.
pub proof fn lemma_remainder_area(v: Rect, os: Seq<Rect>, rs: Seq<Rect>)
    requires
        v.valid(),
        forall|k: int| 0 <= k < rs.len() ==> (#[trigger] rs[k]).valid() && inside(rs[k], v),
        pairwise_apart(rs),
        forall|px: int, py: int| #[trigger] covers(rs, px, py) <==> (v.contains(px, py) && clear_of(os, os.len() as int, px, py)),
    ensures
        area_sum(rs) == area(v) - count_in(v, |px: int, py: int| covers(os, px, py)),
{
    lemma_count_union(v, rs);
    lemma_count_rect(v, v);
    let f = |px: int, py: int| covers(rs, px, py);
    let g = |px: int, py: int| covers(os, px, py);
    let h = |px: int, py: int| v.contains(px, py);
    assert forall|x: int, y: int| v.sx <= x < v.ex && v.sy <= y < v.ey implies (#[trigger] h(x, y) <==> (f(x, y) || g(x, y)))
        && !(f(x, y) && g(x, y)) by {
        if covers(os, x, y) {
            let j = choose|j: int| 0 <= j < os.len() && #[trigger] os[j].contains(x, y);
            assert(!clear_of(os, os.len() as int, x, y));
        } else {
            assert forall|j: int| 0 <= j < os.len() implies !(#[trigger] os[j].contains(x, y)) by {
                if os[j].contains(x, y) {
                    assert(covers(os, x, y));
                }
            }
            assert(covers(rs, x, y));
        }
    }
    lemma_box_split(v.sx as int, v.ex as int, v.sy as int, v.ey as int, f, g, h);
}

} // verus!
