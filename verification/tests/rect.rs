use canvas2d::Rect;

#[test]
fn rect_contains_inside() {
    let r = Rect::new(5, 5, 10, 10);
    assert!(r.contains(7, 7));
}

#[test]
fn rect_contains_edge() {
    let r = Rect::new(0, 0, 5, 5);
    assert!(r.contains(0, 0));
    assert!(!r.contains(5, 5)); // exclusive
}

#[test]
fn rect_intersects() {
    let a = Rect::new(0, 0, 10, 10);
    let b = Rect::new(5, 5, 10, 10);
    assert!(a.intersects(&b));
}

#[test]
fn rect_no_intersect() {
    let a = Rect::new(0, 0, 5, 5);
    let b = Rect::new(10, 10, 5, 5);
    assert!(!a.intersects(&b));
}

#[test]
fn rect_clip() {
    let a = Rect::new(0, 0, 10, 10);
    let b = Rect::new(5, 5, 10, 10);
    let c = a.clip(&b).unwrap();
    assert_eq!(c, Rect::new(5, 5, 5, 5));
}

// -- further cases --

#[test]
fn rect_touching_edges_do_not_intersect() {
    let a = Rect::new(0, 0, 5, 5);
    let b = Rect::new(5, 0, 5, 5);
    assert!(!a.intersects(&b));
    assert!(!b.intersects(&a));
    assert_eq!(a.clip(&b), None);
}

#[test]
fn rect_clip_contained_and_symmetric() {
    let outer = Rect::new(-10, -10, 100, 100);
    let inner = Rect::new(3, 4, 5, 6);
    assert_eq!(outer.clip(&inner), Some(inner));
    assert_eq!(inner.clip(&outer), Some(inner));
    let a = Rect::new(-3, 2, 8, 8);
    let b = Rect::new(1, -4, 4, 9);
    assert_eq!(a.clip(&b), b.clip(&a));
    assert_eq!(a.clip(&b), Some(Rect::new(1, 2, 4, 3)));
}

#[test]
fn rect_empty_contains_nothing() {
    let r = Rect::new(3, 3, 0, 4);
    assert!(!r.contains(3, 3));
    // the overlap test compares edges only, so an empty rectangle inside another overlaps it
    assert!(r.intersects(&Rect::new(0, 0, 10, 10)));
    assert_eq!(r.clip(&Rect::new(0, 0, 10, 10)), Some(Rect::new(3, 3, 0, 4)));
}

#[test]
fn rect_extent_read_as_signed() {
    // an extent above i32::MAX reads as a negative one: the rectangle covers nothing
    let r = Rect::new(0, 0, u32::MAX, u32::MAX);
    assert!(!r.contains(0, 0));
    assert!(!r.intersects(&Rect::new(0, 0, 10, 10)));
}

#[test]
fn rect_contains_far_corner_excluded() {
    let r = Rect::new(-2, -2, 4, 4);
    assert!(r.contains(-2, -2));
    assert!(r.contains(1, 1));
    assert!(!r.contains(2, 1));
    assert!(!r.contains(1, 2));
    assert!(!r.contains(-3, 0));
}
