//! Half-open integer intervals and their set difference.
use vstd::prelude::*;

verus! {

/// The half-open interval `[s, e)`; valid when it holds a point.
#[derive(Clone, Copy, Debug, PartialEq, Eq, Structural)]
pub struct Interval {
    pub s: i64,
    pub e: i64,
}

impl Interval {
    pub open spec fn contains(self, p: int) -> bool {
        self.s <= p < self.e
    }

    pub open spec fn valid(self) -> bool {
        self.s < self.e
    }

    pub fn is_valid(&self) -> (r: bool)
        ensures
            r == self.valid(),
    {
        self.s < self.e
    }
}

/// Some interval of `xs` holds the point.
pub open spec fn covers_point(xs: Seq<Interval>, p: int) -> bool {
    exists|i: int| 0 <= i < xs.len() && #[trigger] xs[i].contains(p)
}

/// No two distinct intervals of `xs` share a point.
pub open spec fn intervals_apart(xs: Seq<Interval>) -> bool {
    forall|i: int, k: int|
        0 <= i < xs.len() && 0 <= k < xs.len() && i != k ==> (#[trigger] xs[i]).e <= (#[trigger] xs[k]).s
            || xs[k].e <= xs[i].s
}

proof fn lemma_covers_point_push(xs: Seq<Interval>, x: Interval)
    ensures
        forall|p: int| #[trigger] covers_point(xs.push(x), p) <==> (covers_point(xs, p) || x.contains(p)),
{
    assert forall|p: int| #[trigger] covers_point(xs.push(x), p) <==> (covers_point(xs, p) || x.contains(p)) by {
        if covers_point(xs.push(x), p) {
            let k = choose|k: int| 0 <= k < xs.push(x).len() && #[trigger] xs.push(x)[k].contains(p);
            if k < xs.len() {
                assert(xs[k] == xs.push(x)[k]);
            }
        }
        if covers_point(xs, p) {
            let k = choose|k: int| 0 <= k < xs.len() && #[trigger] xs[k].contains(p);
            assert(xs.push(x)[k] == xs[k]);
        }
        if x.contains(p) {
            assert(xs.push(x)[xs.len() as int] == x);
        }
    }
}

/// Removes every cut from `base`, splitting it around each cut that overlaps
/// it and discarding empty pieces. The result holds valid, disjoint
/// intervals inside `base` that cover exactly the points of `base` that no
/// cut holds.
pub fn subtract_intervals(base: Interval, cuts: Vec<Interval>) -> (result: Vec<Interval>)
    ensures
        forall|k: int| 0 <= k < result@.len() ==> (#[trigger] result@[k]).valid() && base.s <= result@[k].s
            && result@[k].e <= base.e,
        intervals_apart(result@),
        forall|p: int| #[trigger] covers_point(result@, p) <==> (base.contains(p) && forall|j: int|
            0 <= j < cuts@.len() ==> !(#[trigger] cuts@[j].contains(p))),
{
    let mut result: Vec<Interval> = Vec::new();
    if base.is_valid() {
        result.push(base);
    }
    assert forall|p: int| #[trigger] covers_point(result@, p) <==> (base.contains(p) && forall|j: int|
        0 <= j < 0 ==> !(#[trigger] cuts@[j].contains(p))) by {
        if base.contains(p) {
            assert(result@[0].contains(p));
        }
    }
    let mut j: usize = 0;
    while j < cuts.len()
        invariant
            0 <= j <= cuts@.len(),
            forall|k: int| 0 <= k < result@.len() ==> (#[trigger] result@[k]).valid() && base.s <= result@[k].s
                && result@[k].e <= base.e,
            intervals_apart(result@),
            forall|p: int| #[trigger] covers_point(result@, p) <==> (base.contains(p) && forall|j2: int|
                0 <= j2 < j ==> !(#[trigger] cuts@[j2].contains(p))),
        decreases cuts@.len() - j,
    {
        let cut = cuts[j];
        let mut next: Vec<Interval> = Vec::new();
        let ghost mut parents: Seq<int> = Seq::empty();
        let mut i: usize = 0;
        while i < result.len()
            invariant
                0 <= j < cuts@.len(),
                cut == cuts@[j as int],
                0 <= i <= result@.len(),
                forall|k: int| 0 <= k < result@.len() ==> (#[trigger] result@[k]).valid() && base.s <= result@[k].s
                    && result@[k].e <= base.e,
                intervals_apart(result@),
                forall|p: int| #[trigger] covers_point(result@, p) <==> (base.contains(p) && forall|j2: int|
                    0 <= j2 < j ==> !(#[trigger] cuts@[j2].contains(p))),
                forall|k: int| 0 <= k < next@.len() ==> (#[trigger] next@[k]).valid() && base.s <= next@[k].s
                    && next@[k].e <= base.e,
                parents.len() == next@.len(),
                forall|k: int| 0 <= k < next@.len() ==> 0 <= #[trigger] parents[k] < i
                    && result@[parents[k]].s <= next@[k].s && next@[k].e <= result@[parents[k]].e,
                intervals_apart(next@),
                forall|p: int| #[trigger] covers_point(next@, p) <==> (covers_point(result@.subrange(0, i as int), p) && !cut.contains(p)),
            decreases result@.len() - i,
        {
            let piece = result[i];
            let ghost before = next@;
            let ghost prefix = result@.subrange(0, i as int);
            assert(result@.subrange(0, i + 1) == prefix.push(piece));
            proof {
                lemma_covers_point_push(prefix, piece);
            }
            if cut.s < cut.e && cut.s < piece.e && piece.s < cut.e {
                if piece.s < cut.s {
                    let left = Interval { s: piece.s, e: cut.s };
                    proof {
                        lemma_covers_point_push(next@, left);
                        assert forall|k: int| 0 <= k < next@.len() implies next@[k].e <= left.s || left.e <= next@[k].s by {
                            assert(result@[parents[k]].e <= piece.s || piece.e <= result@[parents[k]].s);
                        }
                        parents = parents.push(i as int);
                    }
                    next.push(left);
                }
                if cut.e < piece.e {
                    let right = Interval { s: cut.e, e: piece.e };
                    proof {
                        lemma_covers_point_push(next@, right);
                        assert forall|k: int| 0 <= k < next@.len() implies next@[k].e <= right.s || right.e <= next@[k].s by {
                            if k < before.len() {
                                assert(result@[parents[k]].e <= piece.s || piece.e <= result@[parents[k]].s);
                            }
                        }
                        parents = parents.push(i as int);
                    }
                    next.push(right);
                }
            } else {
                proof {
                    lemma_covers_point_push(next@, piece);
                    assert forall|k: int| 0 <= k < next@.len() implies next@[k].e <= piece.s || piece.e <= next@[k].s by {
                        assert(result@[parents[k]].e <= piece.s || piece.e <= result@[parents[k]].s);
                    }
                    parents = parents.push(i as int);
                }
                next.push(piece);
            }
            i += 1;
        }
        assert(result@.subrange(0, result@.len() as int) == result@);
        result = next;
        j += 1;
    }
    result
}

} // verus!
