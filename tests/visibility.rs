use shadowcast3d::caster::{CastRectKind, Voxel};
use shadowcast3d::display::{Display, OutOfBounds};
use shadowcast3d::geometry::{get_cube_occlusion, MAX_DEPTH, SLOPE_SCALE};
use shadowcast3d::rect::Rect;
use std::collections::HashSet;

fn v(x: i32, y: i32, z: i32) -> Voxel {
    Voxel { x, y, z }
}

fn visible_set(d: &mut Display, o: Voxel) -> HashSet<(i32, i32, i32)> {
    let cells = d.set_origin_and_recompute(o);
    let set: HashSet<(i32, i32, i32)> = cells.iter().map(|c| (c.x, c.y, c.z)).collect();
    assert_eq!(set.len(), cells.len(), "each visible cell is reported once");
    set
}

#[test]
fn marking_inside_and_outside() {
    let mut d = Display::new(10, 10, 10);
    assert_eq!(d.set_occluded(v(0, 0, 0)), Ok(()));
    assert_eq!(d.set_occluded(v(9, 9, 9)), Ok(()));
    assert_eq!(d.set_occluded(v(10, 0, 0)), Err(OutOfBounds { pos: v(10, 0, 0) }));
    assert_eq!(d.set_occluded(v(0, -1, 0)), Err(OutOfBounds { pos: v(0, -1, 0) }));
}

#[test]
fn empty_volume_shows_the_whole_radius() {
    let mut d = Display::init();
    let seen = visible_set(&mut d, v(50, 50, 50));
    let r = MAX_DEPTH as i32;
    assert_eq!(seen.len(), ((2 * r + 1) * (2 * r + 1) * (2 * r + 1)) as usize);
    assert!(seen.contains(&(50, 50, 50)));
    assert!(seen.contains(&(50 + r, 50 - r, 50 + r)));
    assert!(!seen.contains(&(50 + r + 1, 50, 50)));
}

#[test]
fn observer_cell_is_visible() {
    let mut d = Display::new(20, 20, 20);
    let seen = visible_set(&mut d, v(3, 4, 5));
    assert!(seen.contains(&(3, 4, 5)));
}

#[test]
fn occluded_observer_cell_is_not_reported() {
    let mut d = Display::new(20, 20, 20);
    d.set_occluded(v(3, 4, 5)).unwrap();
    let seen = visible_set(&mut d, v(3, 4, 5));
    assert!(!seen.contains(&(3, 4, 5)));
    assert!(seen.contains(&(3, 4, 6)));
}

#[test]
fn enclosed_observer_sees_only_itself() {
    let mut d = Display::init();
    for dx in -1..=1 {
        for dy in -1..=1 {
            for dz in -1..=1 {
                if (dx, dy, dz) != (0, 0, 0) {
                    d.set_occluded(v(50 + dx, 50 + dy, 50 + dz)).unwrap();
                }
            }
        }
    }
    let seen = visible_set(&mut d, v(50, 50, 50));
    assert_eq!(seen.len(), 1);
    assert!(seen.contains(&(50, 50, 50)));
}

#[test]
fn wall_hides_what_is_behind_it() {
    let mut d = Display::new(40, 40, 40);
    for x in 0..40 {
        for y in 0..40 {
            d.set_occluded(v(x, y, 23)).unwrap();
        }
    }
    let seen = visible_set(&mut d, v(20, 20, 20));
    assert!(seen.contains(&(20, 20, 22)));
    assert!(seen.contains(&(20, 20, 17)));
    assert!(!seen.contains(&(20, 20, 23)));
    for c in seen.iter() {
        assert!(c.2 < 23);
    }
}

#[test]
fn adding_an_occluder_never_adds_visible_cells() {
    let mut d = Display::new(30, 30, 30);
    d.set_occluded(v(17, 15, 15)).unwrap();
    d.set_occluded(v(15, 13, 16)).unwrap();
    let before = visible_set(&mut d, v(15, 15, 15));
    d.set_occluded(v(15, 16, 17)).unwrap();
    let after = visible_set(&mut d, v(15, 15, 15));
    assert!(after.is_subset(&before));
    assert!(after.len() < before.len());
}

#[test]
fn recompute_is_repeatable() {
    let mut d = Display::new(30, 30, 30);
    d.set_occluded(v(12, 15, 18)).unwrap();
    let first = visible_set(&mut d, v(15, 15, 15));
    let second = visible_set(&mut d, v(15, 15, 15));
    assert_eq!(first, second);
}

#[test]
fn observer_outside_the_volume() {
    let mut d = Display::new(10, 10, 10);
    let seen = visible_set(&mut d, v(-3, 5, 5));
    assert!(!seen.contains(&(-3, 5, 5)));
    assert!(seen.contains(&(0, 5, 5)));
    // every cell of the volume is within the radius and nothing blocks it
    assert_eq!(seen.len(), 1000);
}

#[test]
fn footprint_of_first_layer_cells() {
    let q = Rect { sx: 0, sy: 0, ex: SLOPE_SCALE, ey: SLOPE_SCALE };
    let f = get_cube_occlusion(0, 0, 1, &q);
    assert_eq!(f, Rect { sx: -SLOPE_SCALE / 3, sy: -SLOPE_SCALE / 3, ex: SLOPE_SCALE, ey: SLOPE_SCALE });
    let g = get_cube_occlusion(1, 0, 1, &q);
    assert_eq!(g.sx, SLOPE_SCALE / 3);
    assert_eq!(g.ex, 3 * SLOPE_SCALE);
    let n = Rect { sx: -SLOPE_SCALE, sy: -SLOPE_SCALE, ex: 0, ey: 0 };
    let h = get_cube_occlusion(-1, 0, 2, &n);
    assert_eq!(h.sx, -3 * (SLOPE_SCALE / 3));
    assert_eq!(h.ex, -(SLOPE_SCALE / 5));
}

#[test]
fn diagonal_gap_between_walls_does_not_leak() {
    // Two walls that meet only at an edge, diagonally in front of the observer:
    // the sight line through that edge must stay blocked.
    let mut d = Display::new(30, 30, 30);
    for y in 0..30 {
        d.set_occluded(v(16, y, 16)).unwrap();
        d.set_occluded(v(15, y, 17)).unwrap();
    }
    let seen = visible_set(&mut d, v(15, 15, 15));
    assert!(seen.contains(&(15, 15, 16)));
    assert!(!seen.contains(&(16, 15, 18)));
    assert!(!seen.contains(&(17, 15, 21)));
    assert!(!seen.contains(&(16, 15, 16)));
}

#[test]
fn footprint_of_a_cell_far_off_the_axis() {
    // Cell five off the axis on both transverse axes in the first layer:
    // slopes 3 to 11, the start grown to the far face.
    let q = Rect { sx: 0, sy: 0, ex: SLOPE_SCALE, ey: SLOPE_SCALE };
    let f = get_cube_occlusion(5, 5, 1, &q);
    assert_eq!(f, Rect { sx: 3 * SLOPE_SCALE, sy: 3 * SLOPE_SCALE, ex: 11 * SLOPE_SCALE, ey: 11 * SLOPE_SCALE });
}

#[test]
fn pass_hands_out_views_and_footprints() {
    let mut d = Display::new(20, 20, 20);
    d.set_occluded(v(10, 10, 11)).unwrap();
    d.set_origin_and_recompute(v(10, 10, 10));
    let rects = d.cast_rects();
    let first_views = rects.iter().filter(|r| r.kind == CastRectKind::View && r.depth == 1).count();
    assert_eq!(first_views, 24);
    assert!(rects.iter().all(|r| r.depth >= 1 && r.depth <= MAX_DEPTH));
    let q = Rect { sx: 0, sy: 0, ex: SLOPE_SCALE, ey: SLOPE_SCALE };
    let blocker = get_cube_occlusion(0, 0, 1, &q);
    assert!(rects.iter().any(|r| r.kind == CastRectKind::Occluder && r.depth == 1 && r.rect == blocker));
}
