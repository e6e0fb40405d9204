use exam_paper_detector::geometry::{Point, Rect, Size};

#[test]
fn test_rect_area() {
    let rect = Rect::new(0, 0, 100, 50);
    assert_eq!(rect.area(), 5000);
}

#[test]
fn test_rect_center() {
    let rect = Rect::new(10, 20, 100, 50);
    let center = rect.center();
    assert_eq!(center.x, 60);
    assert_eq!(center.y, 45);
}

#[test]
fn test_rect_intersection() {
    let r1 = Rect::new(0, 0, 100, 100);
    let r2 = Rect::new(50, 50, 100, 100);
    let inter = r1.intersection(&r2).unwrap();
    assert_eq!(inter.x, 50);
    assert_eq!(inter.y, 50);
    assert_eq!(inter.width, 50);
    assert_eq!(inter.height, 50);
}

#[test]
fn test_rect_iou() {
    let r1 = Rect::new(0, 0, 100, 100);
    let r2 = Rect::new(50, 50, 100, 100);
    // IoU in millionths: 2500 / 17500 = 0.142857...
    let iou = r1.iou(&r2);
    assert!((iou - 142857).abs() < 100);
}

#[test]
fn test_rect_union() {
    let r1 = Rect::new(0, 0, 100, 100);
    let r2 = Rect::new(50, 50, 100, 100);
    let union = r1.union(&r2);
    assert_eq!(union.x, 0);
    assert_eq!(union.y, 0);
    assert_eq!(union.width, 150);
    assert_eq!(union.height, 150);
}

#[test]
fn test_point_distance() {
    let p1 = Point::new(0, 0);
    let p2 = Point::new(3, 4);
    assert_eq!(p1.distance_to(&p2), 5);
}

#[test]
fn test_rect_contains_point() {
    let rect = Rect::new(10, 10, 100, 100);
    assert!(rect.contains_point(&Point::new(50, 50)));
    assert!(!rect.contains_point(&Point::new(5, 5)));
}

#[test]
fn test_rect_alignment() {
    let r1 = Rect::new(0, 0, 100, 50);
    let r2 = Rect::new(50, 60, 100, 50);
    assert!(r1.is_vertically_aligned(&r2));
    assert!(!r1.is_horizontally_aligned(&r2));
}

#[test]
fn iou_exact_value_in_millionths() {
    let r1 = Rect::new(0, 0, 100, 100);
    let r2 = Rect::new(50, 50, 100, 100);
    assert_eq!(r1.iou(&r2), 142857);
    assert_eq!(r1.iou(&r1), 1000000);
    assert_eq!(r1.iou(&Rect::new(500, 500, 10, 10)), 0);
}

#[test]
fn disjoint_rects_have_no_intersection() {
    let r1 = Rect::new(0, 0, 10, 10);
    let r2 = Rect::new(20, 20, 10, 10);
    assert!(r1.intersection(&r2).is_none());
    assert!(!r1.intersects(&r2));
}

#[test]
fn distance_rounds_down() {
    let p1 = Point::new(0, 0);
    let p2 = Point::new(1, 1);
    assert_eq!(p1.distance_to(&p2), 1);
    let a = Rect::new(0, 0, 10, 10);
    let b = Rect::new(13, 14, 5, 5);
    assert_eq!(a.distance_to(&b), 5);
}

#[test]
fn size_area_and_expand() {
    assert_eq!(Size::new(7, 6).area(), 42);
    let r = Rect::new(10, 10, 20, 20).expand(5);
    assert_eq!((r.x, r.y, r.width, r.height), (5, 5, 30, 30));
}

#[test]
fn rect_from_points_orders_corners() {
    let r = Rect::from_points(Point::new(30, 40), Point::new(10, 5));
    assert_eq!((r.x, r.y, r.width, r.height), (10, 5, 20, 35));
    assert_eq!(r.top_left().x, 10);
    assert_eq!(r.bottom_right().y, 40);
}
