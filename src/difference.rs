//! Subtracting a set of rectangles from one rectangle.
//!
//! The remainder is returned as a list of valid, pairwise disjoint rectangles
//! whose union is exactly the part of the view that no occluder covers. The
//! decomposition is not minimal: a minimal one is NP-hard to find, and the
//! caster only needs a correct covering to recurse on.
use vstd::prelude::*;
use crate::rect::{Rect, lemma_meet_contains};
use crate::area::{area, area_sum, count_in, lemma_remainder_area};

verus! {

/// Some rectangle of `rs` holds the point.
pub open spec fn covers(rs: Seq<Rect>, px: int, py: int) -> bool {
    exists|i: int| 0 <= i < rs.len() && #[trigger] rs[i].contains(px, py)
}

/// No rectangle among the first `n` of `os` holds the point.
pub open spec fn clear_of(os: Seq<Rect>, n: int, px: int, py: int) -> bool {
    forall|j: int| 0 <= j < n ==> !(#[trigger] os[j].contains(px, py))
}

/// `a` lies within `b`, bound by bound.
pub open spec fn inside(a: Rect, b: Rect) -> bool {
    &&& b.sx <= a.sx
    &&& a.ex <= b.ex
    &&& b.sy <= a.sy
    &&& a.ey <= b.ey
}

/// No two distinct rectangles of `rs` overlap.
pub open spec fn pairwise_apart(rs: Seq<Rect>) -> bool {
    forall|i: int, k: int|
        0 <= i < rs.len() && 0 <= k < rs.len() && i != k ==> !(#[trigger] rs[i].overlaps(
            #[trigger] rs[k],
        ))
}

/// The two rectangles have no lattice point in common.
pub open spec fn apart(a: Rect, b: Rect) -> bool {
    forall|px: int, py: int| !(#[trigger] a.contains(px, py) && #[trigger] b.contains(px, py))
}

/// Appending a rectangle adds exactly its points to the covered set.
pub proof fn lemma_covers_push(rs: Seq<Rect>, x: Rect)
    ensures
        forall|px: int, py: int|
            #[trigger] covers(rs.push(x), px, py) <==> (covers(rs, px, py) || x.contains(px, py)),
{
    assert forall|px: int, py: int|
        #[trigger] covers(rs.push(x), px, py) <==> (covers(rs, px, py) || x.contains(px, py)) by {
        if covers(rs.push(x), px, py) {
            let k = choose|k: int| 0 <= k < rs.push(x).len() && #[trigger] rs.push(x)[k].contains(px, py);
            if k < rs.len() {
                assert(rs[k] == rs.push(x)[k]);
            }
        }
        if covers(rs, px, py) {
            let k = choose|k: int| 0 <= k < rs.len() && #[trigger] rs[k].contains(px, py);
            assert(rs.push(x)[k] == rs[k]);
        }
        if x.contains(px, py) {
            assert(rs.push(x)[rs.len() as int] == x);
        }
    }
}

/// Pieces of `r` around `m`, a valid rectangle inside `r`: a left and a right
/// strip of full height, and above and below `m` the strips of its own column.
fn split_around(r: &Rect, m: &Rect) -> (pieces: Vec<Rect>)
    requires
        r.valid(),
        m.valid(),
        inside(*m, *r),
    ensures
        forall|k: int| 0 <= k < pieces@.len() ==> (#[trigger] pieces@[k]).valid() && inside(pieces@[k], *r),
        pairwise_apart(pieces@),
        forall|px: int, py: int|
            #[trigger] covers(pieces@, px, py) <==> (r.contains(px, py) && !m.contains(px, py)),
{
    let mut pieces: Vec<Rect> = Vec::new();
    assert forall|px: int, py: int| !covers(pieces@, px, py) by {}
    if r.sx < m.sx {
        let left = Rect { sx: r.sx, sy: r.sy, ex: m.sx, ey: r.ey };
        proof { lemma_covers_push(pieces@, left); }
        pieces.push(left);
        assert forall|px: int, py: int|
            #[trigger] covers(pieces@, px, py) <==> (r.contains(px, py) && px < m.sx) by {
            assert(covers(pieces@, px, py) <==> (covers(Seq::<Rect>::empty(), px, py) || left.contains(px, py)));
        }
    }
    assert forall|px: int, py: int|
        #[trigger] covers(pieces@, px, py) <==> (r.contains(px, py) && px < m.sx) by {}
    if m.ex < r.ex {
        let right = Rect { sx: m.ex, sy: r.sy, ex: r.ex, ey: r.ey };
        proof { lemma_covers_push(pieces@, right); }
        pieces.push(right);
    }
    assert forall|px: int, py: int|
        #[trigger] covers(pieces@, px, py) <==> (r.contains(px, py) && (px < m.sx || px >= m.ex)) by {}
    if r.sy < m.sy {
        let top = Rect { sx: m.sx, sy: r.sy, ex: m.ex, ey: m.sy };
        proof { lemma_covers_push(pieces@, top); }
        pieces.push(top);
    }
    assert forall|px: int, py: int|
        #[trigger] covers(pieces@, px, py) <==> (r.contains(px, py) && (px < m.sx || px >= m.ex || py < m.sy)) by {}
    if m.ey < r.ey {
        let bottom = Rect { sx: m.sx, sy: m.ey, ex: m.ex, ey: r.ey };
        proof { lemma_covers_push(pieces@, bottom); }
        pieces.push(bottom);
    }
    pieces
}

/// Clearing one more rectangle adds exactly its own condition.
pub proof fn lemma_clear_of_step(os: Seq<Rect>, n: int, px: int, py: int)
    requires
        0 <= n < os.len(),
    ensures
        clear_of(os, n + 1, px, py) <==> (clear_of(os, n, px, py) && !os[n].contains(px, py)),
{
    if clear_of(os, n, px, py) && !os[n].contains(px, py) {
        assert forall|j: int| 0 <= j < n + 1 implies !(#[trigger] os[j].contains(px, py)) by {
            if j < n {
            }
        }
    }
}

/// Concatenation covers exactly what either part covers.
pub proof fn lemma_covers_append(a: Seq<Rect>, b: Seq<Rect>)
    ensures
        forall|px: int, py: int|
            #[trigger] covers(a + b, px, py) <==> (covers(a, px, py) || covers(b, px, py)),
{
    assert forall|px: int, py: int| #[trigger] covers(a + b, px, py) <==> (covers(a, px, py) || covers(b, px, py)) by {
        if covers(a + b, px, py) {
            let k = choose|k: int| 0 <= k < (a + b).len() && #[trigger] (a + b)[k].contains(px, py);
            if k < a.len() {
                assert(a[k] == (a + b)[k]);
            } else {
                assert(b[k - a.len()] == (a + b)[k]);
            }
        }
        if covers(a, px, py) {
            let k = choose|k: int| 0 <= k < a.len() && #[trigger] a[k].contains(px, py);
            assert((a + b)[k] == a[k]);
        }
        if covers(b, px, py) {
            let k = choose|k: int| 0 <= k < b.len() && #[trigger] b[k].contains(px, py);
            assert((a + b)[k + a.len()] == b[k]);
        }
    }
}

/// Subtracts every rectangle of `rectangles` from `rectangle`.
///
/// The result holds valid, pairwise disjoint rectangles inside `rectangle`,
/// none sharing a point with any subtracted rectangle, and a point is covered
/// by the result exactly when `rectangle` holds it and no subtracted rectangle
/// does. When nothing touches a valid `rectangle`, it comes back alone.
pub fn rectangle_minus_rectangles(rectangle: Rect, rectangles: Vec<Rect>) -> (result: Vec<Rect>)
    ensures
        forall|k: int| 0 <= k < result@.len() ==> (#[trigger] result@[k]).valid() && inside(result@[k], rectangle),
        pairwise_apart(result@),
        forall|k: int, j: int| 0 <= k < result@.len() && 0 <= j < rectangles@.len()
            ==> apart(#[trigger] result@[k], #[trigger] rectangles@[j]),
        forall|px: int, py: int|
            #[trigger] covers(result@, px, py) <==> (rectangle.contains(px, py) && clear_of(rectangles@, rectangles@.len() as int, px, py)),
        rectangle.valid() && (forall|j: int| 0 <= j < rectangles@.len() ==> apart(rectangle, #[trigger] rectangles@[j]))
            ==> result@ == seq![rectangle],
        rectangle.valid() ==> area_sum(result@) == area(rectangle) - count_in(rectangle, |px: int, py: int| covers(rectangles@, px, py)),
{
    let mut result: Vec<Rect> = Vec::new();
    if rectangle.is_valid() {
        result.push(rectangle);
    }
    assert forall|px: int, py: int|
        #[trigger] covers(result@, px, py) <==> (rectangle.contains(px, py) && clear_of(rectangles@, 0, px, py)) by {
        if rectangle.contains(px, py) {
            assert(result@[0].contains(px, py));
        }
    }
    let mut j: usize = 0;
    while j < rectangles.len()
        invariant
            0 <= j <= rectangles@.len(),
            forall|k: int| 0 <= k < result@.len() ==> (#[trigger] result@[k]).valid() && inside(result@[k], rectangle),
            pairwise_apart(result@),
            forall|px: int, py: int|
                #[trigger] covers(result@, px, py) <==> (rectangle.contains(px, py) && clear_of(rectangles@, j as int, px, py)),
            rectangle.valid() && (forall|j2: int| 0 <= j2 < j ==> apart(rectangle, #[trigger] rectangles@[j2]))
                ==> result@ == seq![rectangle],
        decreases rectangles@.len() - j,
    {
        let subtract_rect = rectangles[j];
        let mut new_result: Vec<Rect> = Vec::new();
        let ghost mut parents: Seq<int> = Seq::empty();
        let mut i: usize = 0;
        while i < result.len()
            invariant
                0 <= j < rectangles@.len(),
                subtract_rect == rectangles@[j as int],
                0 <= i <= result@.len(),
                forall|px: int, py: int|
                    #[trigger] covers(result@, px, py) <==> (rectangle.contains(px, py) && clear_of(rectangles@, j as int, px, py)),
                rectangle.valid() && (forall|j2: int| 0 <= j2 < j ==> apart(rectangle, #[trigger] rectangles@[j2]))
                    ==> result@ == seq![rectangle],
                forall|k: int| 0 <= k < result@.len() ==> (#[trigger] result@[k]).valid() && inside(result@[k], rectangle),
                pairwise_apart(result@),
                forall|k: int| 0 <= k < new_result@.len() ==> (#[trigger] new_result@[k]).valid() && inside(new_result@[k], rectangle),
                pairwise_apart(new_result@),
                parents.len() == new_result@.len(),
                forall|k: int| 0 <= k < new_result@.len() ==> 0 <= #[trigger] parents[k] < i && inside(new_result@[k], result@[parents[k]]),
                forall|px: int, py: int|
                    #[trigger] covers(new_result@, px, py) <==> (covers(result@.subrange(0, i as int), px, py) && !subtract_rect.contains(px, py)),
                apart(result@[0], subtract_rect) && result@ == seq![rectangle] ==> new_result@ == result@.subrange(0, i as int),
            decreases result@.len() - i,
        {
            let rect = result[i];
            let ghost before = new_result@;
            let ghost prefix = result@.subrange(0, i as int);
            let ghost next_prefix = result@.subrange(0, i + 1);
            assert(next_prefix == prefix.push(rect));
            proof { lemma_covers_push(prefix, rect); }
            match rect.intersection(&subtract_rect) {
                Some(m) => {
                    proof { assert forall|px: int, py: int| m.contains(px, py) <==> (rect.contains(px, py) && subtract_rect.contains(px, py)) by {
                        lemma_meet_contains(rect, subtract_rect, px, py);
                    } }
                    proof {
                        assert(m.contains(m.sx as int, m.sy as int));
                        lemma_meet_contains(rect, subtract_rect, m.sx as int, m.sy as int);
                    }
                    let mut splits = split_around(&rect, &m);
                    let ghost pieces = splits@;
                    proof {
                        lemma_covers_append(before, pieces);
                        assert forall|a: int, b: int| 0 <= a < pieces.len() && 0 <= b < before.len()
                            implies !pieces[a].overlaps(before[b]) && !before[b].overlaps(pieces[a]) by {
                            assert(!result@[i as int].overlaps(result@[parents[b]]));
                        }
                        parents = parents + Seq::new(pieces.len(), |k: int| i as int);
                    }
                    new_result.append(&mut splits);
                    assert(new_result@ == before + pieces);
                    assert forall|px: int, py: int|
                        #[trigger] covers(new_result@, px, py) <==> (covers(next_prefix, px, py) && !subtract_rect.contains(px, py)) by {
                        assert(covers(pieces, px, py) <==> (rect.contains(px, py) && !m.contains(px, py)));
                    }
                    assert forall|k: int| 0 <= k < new_result@.len() implies 0 <= #[trigger] parents[k] < i + 1 && inside(new_result@[k], result@[parents[k]]) by {
                        if k >= before.len() {
                            assert(new_result@[k] == pieces[k - before.len()]);
                        }
                    }
                    assert forall|a: int, b: int|
                        0 <= a < new_result@.len() && 0 <= b < new_result@.len() && a != b implies !(#[trigger] new_result@[a].overlaps(#[trigger] new_result@[b])) by {
                        if a >= before.len() {
                            assert(new_result@[a] == pieces[a - before.len()]);
                        }
                        if b >= before.len() {
                            assert(new_result@[b] == pieces[b - before.len()]);
                        }
                    }
                },
                None => {
                    proof {
                        lemma_covers_push(before, rect);
                        assert forall|px: int, py: int| !(rect.contains(px, py) && subtract_rect.contains(px, py)) by {
                            lemma_meet_contains(rect, subtract_rect, px, py);
                        }
                        assert forall|b: int| 0 <= b < before.len()
                            implies !rect.overlaps(before[b]) && !before[b].overlaps(rect) by {
                            assert(!result@[i as int].overlaps(result@[parents[b]]));
                        }
                        parents = parents.push(i as int);
                    }
                    new_result.push(rect);
                    assert(new_result@ == before.push(rect));
                    assert forall|px: int, py: int|
                        #[trigger] covers(new_result@, px, py) <==> (covers(next_prefix, px, py) && !subtract_rect.contains(px, py)) by {
                        assert(covers(before, px, py) <==> (covers(prefix, px, py) && !subtract_rect.contains(px, py)));
                        assert(covers(prefix.push(rect), px, py) <==> (covers(prefix, px, py) || rect.contains(px, py)));
                    }
                },
            }
            i += 1;
        }
        assert(result@.subrange(0, result@.len() as int) == result@);
        proof {
            assert forall|px: int, py: int|
                #[trigger] covers(new_result@, px, py) <==> (rectangle.contains(px, py) && clear_of(rectangles@, j + 1, px, py)) by {
                lemma_clear_of_step(rectangles@, j as int, px, py);
            }
        }
        result = new_result;
        j += 1;
    }
    proof {
        assert forall|k: int, j2: int| 0 <= k < result@.len() && 0 <= j2 < rectangles@.len()
            implies apart(#[trigger] result@[k], #[trigger] rectangles@[j2]) by {
            assert forall|px: int, py: int| !(#[trigger] result@[k].contains(px, py) && #[trigger] rectangles@[j2].contains(px, py)) by {
                if result@[k].contains(px, py) {
                    assert(covers(result@, px, py));
                    assert(clear_of(rectangles@, rectangles@.len() as int, px, py));
                }
            }
        }
    }
    proof {
        if rectangle.valid() {
            lemma_remainder_area(rectangle, rectangles@, result@);
        }
    }
    result
}

} // verus!
