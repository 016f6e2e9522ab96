use ruglet::geometry::{sat_add, sat_sub, Area, Vec2, UNBOUNDED};

fn rect(x0: i64, y0: i64, x1: i64, y1: i64) -> Area {
    Area(Vec2::new(x0, y0), Vec2::new(x1, y1))
}

#[test]
fn pad_then_resize_moves_origin_by_padding() {
    let r = rect(10, 20, 110, 220);
    let p = 15;
    let back = r.pad(p).resize(r.size());
    assert_eq!(back.0, Vec2::new(25, 35));
    assert_eq!(back.size(), r.size());
}

#[test]
fn negative_padding_grows() {
    let r = rect(10, 10, 20, 20);
    assert_eq!(r.pad(-5), rect(5, 5, 25, 25));
}

#[test]
fn padding_past_the_middle_inverts() {
    let r = rect(0, 0, 10, 10);
    let p = r.pad(8);
    assert_eq!(p, rect(8, 8, 2, 2));
    assert_eq!(p.w(), -6);
}

#[test]
fn size_width_height() {
    let r = rect(3, 4, 13, 24);
    assert_eq!(r.w(), 10);
    assert_eq!(r.h(), 20);
    assert_eq!(r.size(), Vec2::new(10, 20));
}

#[test]
fn inside_includes_edges() {
    let r = rect(0, 0, 10, 10);
    assert!(Vec2::new(0, 0).inside(r));
    assert!(Vec2::new(10, 10).inside(r));
    assert!(Vec2::new(5, 5).inside(r));
    assert!(!Vec2::new(11, 5).inside(r));
    assert!(!Vec2::new(5, -1).inside(r));
}

#[test]
fn contains_detects_overlap() {
    let view = rect(0, 0, 100, 100);
    assert!(view.contains(rect(50, 50, 150, 150)));
    assert!(view.contains(rect(-50, -50, 10, 10)));
    assert!(view.contains(rect(-10, -10, 200, 200)));
    assert!(!view.contains(rect(100, 0, 200, 50)));
    assert!(!view.contains(rect(0, 150, 50, 200)));
}

#[test]
fn zero_area() {
    assert!(Area::zero().is_zero());
    assert!(!rect(0, 0, 1, 0).is_zero());
}

#[test]
fn saturating_arithmetic() {
    assert_eq!(sat_add(UNBOUNDED, 5), i64::MAX);
    assert_eq!(sat_add(3, 4), 7);
    assert_eq!(sat_sub(i64::MIN, 1), i64::MIN);
    assert_eq!(sat_sub(10, 4), 6);
    assert_eq!(rect(0, 0, UNBOUNDED, 0).pad(-1).1.x, i64::MAX);
}
