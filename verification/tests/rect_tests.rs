use imageproc::rect::{Rect, Region};

#[test]
fn test_intersect_disjoint() {
    let r = Rect::at(0, 0).of_size(5, 5);
    let s = Rect::at(10, 10).of_size(100, 12);
    assert_eq!(r.intersect(s), None);
}

#[test]
fn test_intersect_overlapping() {
    let r = Rect::at(0, 0).of_size(5, 5);
    let s = Rect::at(1, 4).of_size(10, 12);
    let i = Rect::at(1, 4).of_size(4, 1);
    assert_eq!(r.intersect(s), Some(i));
}

#[test]
fn test_contains_i32() {
    let r = Rect::at(5, 5).of_size(6, 6);
    assert!(r.contains(5, 5));
    assert!(r.contains(10, 10));
    assert!(!r.contains(10, 11));
    assert!(!r.contains(11, 10));
}

#[test]
fn rect_accessors_report_corners_and_size() {
    let r = Rect::at(-3, 7).of_size(4, 2);
    assert_eq!(r.left(), -3);
    assert_eq!(r.top(), 7);
    assert_eq!(r.right(), 0);
    assert_eq!(r.bottom(), 8);
    assert_eq!(r.width(), 4);
    assert_eq!(r.height(), 2);
}

#[test]
fn square_is_centred() {
    let r = Rect::square(10, 20, 5);
    assert_eq!(r.left(), 8);
    assert_eq!(r.top(), 18);
    assert_eq!(r.right(), 12);
    assert_eq!(r.bottom(), 22);
    assert_eq!(r.width(), 5);
    assert_eq!(r.height(), 5);
}

#[test]
fn intersect_is_symmetric_and_contained() {
    let r = Rect::at(-2, -2).of_size(6, 4);
    let s = Rect::at(0, 0).of_size(10, 10);
    let a = r.intersect(s);
    let b = s.intersect(r);
    assert_eq!(a, b);
    assert_eq!(a, Some(Rect::at(0, 0).of_size(4, 2)));
}

#[test]
fn intersect_touching_on_one_pixel() {
    let r = Rect::at(0, 0).of_size(3, 3);
    let s = Rect::at(2, 2).of_size(3, 3);
    assert_eq!(r.intersect(s), Some(Rect::at(2, 2).of_size(1, 1)));
}

#[test]
fn intersect_at_extreme_coordinates() {
    let r = Rect::at(i32::MIN, i32::MIN).of_size(u32::MAX, u32::MAX);
    let s = Rect::at(0, 0).of_size(1, 1);
    assert_eq!(r.intersect(s), Some(s));
    assert!(r.contains(i32::MAX - 1, 0));
    assert!(!r.contains(i32::MAX, 0));
}
