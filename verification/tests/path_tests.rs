use flwing::geometry::{BoundingBox, Point2D};
use flwing::path::{BezierPath, PathSegment};

#[test]
fn test_rectangle_path() {
    let path = BezierPath::rectangle(10, 20, 100, 50);
    assert!(path.closed);
    assert_eq!(path.segments.len(), 6); // move + 4 lines + close
    let bb = path.bounding_box().unwrap();
    assert_eq!(bb.min.x, 10);
    assert_eq!(bb.max.x, 110);
}

#[test]
fn rectangle_segments_trace_the_corners() {
    let path = BezierPath::rectangle(10, 20, 100, 50);
    assert_eq!(
        path.segments,
        vec![
            PathSegment::MoveTo(Point2D::new(10, 20)),
            PathSegment::LineTo(Point2D::new(110, 20)),
            PathSegment::LineTo(Point2D::new(110, 70)),
            PathSegment::LineTo(Point2D::new(10, 70)),
            PathSegment::LineTo(Point2D::new(10, 20)),
            PathSegment::Close,
        ]
    );
    let bb = path.bounding_box().unwrap();
    assert_eq!(bb, BoundingBox::new(Point2D::new(10, 20), Point2D::new(110, 70)));
}

#[test]
fn empty_path_has_no_bounding_box() {
    let mut path = BezierPath::new();
    assert!(path.bounding_box().is_none());
    path.close();
    assert!(path.closed);
    assert!(path.bounding_box().is_none());
    let d = BezierPath::default();
    assert!(d.segments.is_empty());
    assert!(!d.closed);
}

#[test]
fn bounding_box_covers_control_points() {
    let mut path = BezierPath::new();
    path.move_to(Point2D::new(0, 0));
    path.quad_to(Point2D::new(-5, 40), Point2D::new(10, 10));
    path.cubic_to(Point2D::new(3, -7), Point2D::new(50, 2), Point2D::new(20, 20));
    path.line_to(Point2D::new(1, 1));
    assert_eq!(path.segments.len(), 4);
    assert!(!path.closed);
    let bb = path.bounding_box().unwrap();
    assert_eq!(bb.min, Point2D::new(-5, -7));
    assert_eq!(bb.max, Point2D::new(50, 40));
}

#[test]
fn single_point_box() {
    let mut path = BezierPath::new();
    path.move_to(Point2D::new(7, -3));
    let bb = path.bounding_box().unwrap();
    assert_eq!(bb.min, Point2D::new(7, -3));
    assert_eq!(bb.max, Point2D::new(7, -3));
    assert_eq!(Point2D::zero(), Point2D::new(0, 0));
}
