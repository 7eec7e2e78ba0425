use bezier_curve::{de_casteljau, de_casteljau_layers, de_casteljau_split};

#[derive(Debug, Clone, Copy, PartialEq)]
struct Point2 {
    x: f64,
    y: f64,
}

impl Point2 {
    fn new(x: f64, y: f64) -> Self {
        Point2 { x, y }
    }

    fn lerp(&self, other: &Point2, t: f64) -> Point2 {
        Point2::new(self.x + t * (other.x - self.x), self.y + t * (other.y - self.y))
    }
}

fn at(t: f64) -> impl Fn(Point2, Point2) -> Point2 {
    move |a: Point2, b: Point2| a.lerp(&b, t)
}

fn origin() -> Point2 {
    Point2::new(0.0, 0.0)
}

#[test]
fn test_linear() {
    let pts = [Point2::new(0.0, 0.0), Point2::new(10.0, 0.0)];
    let p = de_casteljau(&pts, origin(), at(0.5));
    assert!((p.x - 5.0).abs() < 1e-10);
}

#[test]
fn test_quadratic() {
    let pts = [Point2::new(0.0, 0.0), Point2::new(5.0, 10.0), Point2::new(10.0, 0.0)];
    let p = de_casteljau(&pts, origin(), at(0.5));
    assert!((p.x - 5.0).abs() < 1e-10);
    assert!((p.y - 5.0).abs() < 1e-10);
}

#[test]
fn test_cubic() {
    let pts = [
        Point2::new(0.0, 0.0),
        Point2::new(0.0, 10.0),
        Point2::new(10.0, 10.0),
        Point2::new(10.0, 0.0),
    ];
    let p = de_casteljau(&pts, origin(), at(0.5));
    assert!((p.x - 5.0).abs() < 1e-10);
    assert!((p.y - 7.5).abs() < 1e-10);
}

#[test]
fn test_endpoints() {
    let pts = [Point2::new(1.0, 2.0), Point2::new(3.0, 4.0), Point2::new(5.0, 6.0)];
    assert_eq!(de_casteljau(&pts, origin(), at(0.0)), pts[0]);
    assert_eq!(de_casteljau(&pts, origin(), at(1.0)), pts[2]);
}

#[test]
fn test_single_point() {
    let pts = [Point2::new(5.0, 5.0)];
    assert_eq!(de_casteljau(&pts, origin(), at(0.7)), Point2::new(5.0, 5.0));
}

#[test]
fn test_empty() {
    let p = de_casteljau(&[], origin(), at(0.5));
    assert_eq!(p, Point2::new(0.0, 0.0));
}

#[test]
fn test_split_matches() {
    let pts = [
        Point2::new(0.0, 0.0),
        Point2::new(3.0, 9.0),
        Point2::new(6.0, 3.0),
        Point2::new(10.0, 0.0),
    ];
    let (left, right) = de_casteljau_split(&pts, at(0.5));
    // Left end should be first original point
    assert_eq!(left[0], pts[0]);
    // Right end should be last original point
    assert_eq!(*right.last().unwrap(), pts[3]);
    // Split point should match
    let split_l = de_casteljau(&left, origin(), at(1.0));
    let split_r = de_casteljau(&right, origin(), at(0.0));
    assert!((split_l.x - split_r.x).abs() < 1e-10);
    assert!((split_l.y - split_r.y).abs() < 1e-10);
}

#[test]
fn test_higher_degree() {
    // Degree 4 Bézier
    let pts = [
        Point2::new(0.0, 0.0),
        Point2::new(1.0, 5.0),
        Point2::new(5.0, 5.0),
        Point2::new(9.0, 5.0),
        Point2::new(10.0, 0.0),
    ];
    let p = de_casteljau(&pts, origin(), at(0.5));
    assert!((p.x - 5.0).abs() < 1e-10);
    assert!(p.y > 0.0);
}

#[test]
fn layers_shrink_by_one_down_to_the_curve_point() {
    let pts = [
        Point2::new(0.0, 0.0),
        Point2::new(0.0, 10.0),
        Point2::new(10.0, 10.0),
        Point2::new(10.0, 0.0),
    ];
    let layers = de_casteljau_layers(&pts, at(0.5));
    assert_eq!(layers.len(), 4);
    assert_eq!(layers[0], pts.to_vec());
    assert_eq!(layers[1], vec![Point2::new(0.0, 5.0), Point2::new(5.0, 10.0), Point2::new(10.0, 5.0)]);
    assert_eq!(layers[2], vec![Point2::new(2.5, 7.5), Point2::new(7.5, 7.5)]);
    assert_eq!(layers[3], vec![Point2::new(5.0, 7.5)]);
    assert_eq!(layers[3][0], de_casteljau(&pts, origin(), at(0.5)));
}

#[test]
fn layers_of_no_points_are_empty() {
    let layers = de_casteljau_layers(&[], at(0.5));
    assert!(layers.is_empty());
    let single = de_casteljau_layers(&[Point2::new(1.0, 2.0)], at(0.5));
    assert_eq!(single, vec![vec![Point2::new(1.0, 2.0)]]);
}

#[test]
fn split_of_no_points_is_two_empty_halves() {
    let (left, right) = de_casteljau_split(&[], at(0.5));
    assert!(left.is_empty());
    assert!(right.is_empty());
}

#[test]
fn split_halves_are_first_and_last_points_of_the_rows() {
    let pts = [
        Point2::new(0.0, 0.0),
        Point2::new(0.0, 10.0),
        Point2::new(10.0, 10.0),
        Point2::new(10.0, 0.0),
    ];
    let (left, right) = de_casteljau_split(&pts, at(0.5));
    assert_eq!(
        left,
        vec![Point2::new(0.0, 0.0), Point2::new(0.0, 5.0), Point2::new(2.5, 7.5), Point2::new(5.0, 7.5)]
    );
    assert_eq!(
        right,
        vec![Point2::new(5.0, 7.5), Point2::new(7.5, 7.5), Point2::new(10.0, 5.0), Point2::new(10.0, 0.0)]
    );
    // The halves meet at the point that evaluation gives.
    assert_eq!(left[3], de_casteljau(&pts, origin(), at(0.5)));
    assert_eq!(right[0], left[3]);
}

#[test]
fn projections_give_the_end_points() {
    let pts = [
        Point2::new(1.0, 2.0),
        Point2::new(7.0, -3.0),
        Point2::new(4.0, 4.0),
        Point2::new(-2.0, 8.0),
    ];
    assert_eq!(de_casteljau(&pts, origin(), |a: Point2, _b: Point2| a), pts[0]);
    assert_eq!(de_casteljau(&pts, origin(), |_a: Point2, b: Point2| b), pts[3]);
}

#[test]
fn works_on_integer_points() {
    // Midpoints of integer pairs: the scheme does not depend on the point type.
    let pts: [(i64, i64); 3] = [(0, 0), (8, 16), (16, 0)];
    let mid = |a: (i64, i64), b: (i64, i64)| ((a.0 + b.0) / 2, (a.1 + b.1) / 2);
    assert_eq!(de_casteljau(&pts, (0, 0), mid), (8, 8));
}
