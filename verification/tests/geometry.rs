use dungeon_core::rect::Rect;

#[test]
fn rect_new_sets_bounds() {
    let r = Rect::new(3, 4, 5, 6);
    assert_eq!(r.x1, 3);
    assert_eq!(r.y1, 4);
    assert_eq!(r.x2, 8);
    assert_eq!(r.y2, 10);
}

#[test]
fn rect_center_is_midpoint() {
    let r = Rect::new(2, 2, 4, 6);
    assert_eq!(r.center(), (4, 5));
}

#[test]
fn rect_intersection_is_symmetric() {
    let a = Rect::new(0, 0, 5, 5);
    let b = Rect::new(3, 3, 5, 5);
    let c = Rect::new(20, 20, 2, 2);
    assert_eq!(a.intersect(&b), b.intersect(&a));
    assert_eq!(a.intersect(&c), c.intersect(&a));
    assert!(a.intersect(&b));
    assert!(!a.intersect(&c));
}

#[test]
fn rect_intersects_itself() {
    let a = Rect::new(7, 9, 3, 2);
    assert!(a.intersect(&a));
}

#[test]
fn separated_rects_do_not_intersect() {
    // one full empty column between them on the x axis, one empty row on y
    let a = Rect::new(0, 0, 4, 4);
    let b = Rect::new(6, 6, 4, 4);
    assert!(!a.intersect(&b));
    assert!(!b.intersect(&a));
}
