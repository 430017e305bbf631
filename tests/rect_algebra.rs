use shadowcast3d::difference::rectangle_minus_rectangles;
use shadowcast3d::rect::Rect;

fn r(sx: i64, sy: i64, ex: i64, ey: i64) -> Rect {
    Rect { sx, sy, ex, ey }
}

fn area(v: &[Rect]) -> i64 {
    v.iter().map(|q| (q.ex - q.sx) * (q.ey - q.sy)).sum()
}

fn share_area(a: &Rect, b: &Rect) -> bool {
    a.sx.max(b.sx) < a.ex.min(b.ex) && a.sy.max(b.sy) < a.ey.min(b.ey)
}

#[test]
fn validity_needs_positive_extent() {
    assert!(r(0, 0, 1, 1).is_valid());
    assert!(!r(0, 0, 0, 1).is_valid());
    assert!(!r(0, 0, 1, 0).is_valid());
    assert!(!r(2, 2, 1, 3).is_valid());
}

#[test]
fn intersects_is_symmetric() {
    let cases = [
        (r(0, 0, 10, 10), r(5, 5, 15, 15)),
        (r(0, 0, 10, 10), r(10, 0, 20, 10)),
        (r(0, 0, 10, 10), r(2, 2, 3, 3)),
        (r(-5, -5, -1, -1), r(0, 0, 1, 1)),
    ];
    for (a, b) in cases.iter() {
        assert_eq!(a.intersects(b), b.intersects(a));
    }
    assert!(r(0, 0, 10, 10).intersects(&r(5, 5, 15, 15)));
    assert!(!r(0, 0, 10, 10).intersects(&r(10, 0, 20, 10)));
}

#[test]
fn intersection_is_none_exactly_without_overlap() {
    let a = r(0, 0, 10, 10);
    assert_eq!(a.intersection(&r(10, 0, 20, 10)), None);
    assert_eq!(a.intersection(&r(20, 20, 25, 25)), None);
    let m = a.intersection(&r(5, -3, 15, 4)).unwrap();
    assert_eq!(m, r(5, 0, 10, 4));
    assert!(m.sx >= a.sx && m.ex <= a.ex && m.sy >= a.sy && m.ey <= a.ey);
    assert!(m.sx >= 5 && m.ex <= 15 && m.sy >= -3 && m.ey <= 4);
}

#[test]
fn no_occluders_returns_view() {
    let v = r(0, 0, 10, 10);
    assert_eq!(rectangle_minus_rectangles(v, vec![]), vec![v]);
}

#[test]
fn centred_occluder_leaves_96() {
    let v = r(0, 0, 10, 10);
    let o = r(4, 4, 6, 6);
    let rest = rectangle_minus_rectangles(v, vec![o]);
    assert_eq!(area(&rest), 96);
    assert_eq!(rest.len(), 4);
    for p in rest.iter() {
        assert!(p.is_valid());
        assert!(!share_area(p, &o));
    }
}

#[test]
fn two_occluders_leave_92() {
    let v = r(0, 0, 10, 10);
    let os = vec![r(1, 1, 3, 3), r(7, 7, 9, 9)];
    let rest = rectangle_minus_rectangles(v, os.clone());
    assert_eq!(area(&rest), 92);
    for (i, p) in rest.iter().enumerate() {
        assert!(p.is_valid());
        for o in os.iter() {
            assert!(!share_area(p, o));
        }
        for q in rest.iter().skip(i + 1) {
            assert!(!share_area(p, q));
        }
    }
}

#[test]
fn disjoint_occluder_returns_view() {
    let v = r(0, 0, 10, 10);
    assert_eq!(rectangle_minus_rectangles(v, vec![r(20, 20, 25, 25)]), vec![v]);
}

#[test]
fn covering_occluder_leaves_nothing() {
    let v = r(0, 0, 10, 10);
    assert!(rectangle_minus_rectangles(v, vec![r(-1, -1, 11, 11)]).is_empty());
}

#[test]
fn invalid_view_is_dropped() {
    assert!(rectangle_minus_rectangles(r(5, 0, 5, 10), vec![]).is_empty());
}

#[test]
fn overlapping_occluders_count_once() {
    let v = r(0, 0, 10, 10);
    let rest = rectangle_minus_rectangles(v, vec![r(0, 0, 6, 10), r(4, 0, 8, 10)]);
    assert_eq!(area(&rest), 20);
    assert_eq!(rest, vec![r(8, 0, 10, 10)]);
}
