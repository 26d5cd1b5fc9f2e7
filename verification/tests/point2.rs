use wilee_core::point2::Point2;

fn approx(value: f64, reference: f64, precision: f64) -> bool {
    let mut error: f64 = (value - reference).abs();
    if reference != 0.0 {
        error /= reference.abs();
    }
    error < precision
}

#[test]
fn test_point2_constructor() {
    let x: f64 = 1.3;
    let y: f64 = 4.3;
    let point: Point2<f64> = Point2::new(x, y);

    let precision: f64 = 0.01;
    assert!(approx(point.x, x, precision));
    assert!(approx(point.y, y, precision));
}

#[test]
fn point2_holds_exact_integer_coordinates() {
    let point: Point2<i32> = Point2::new(-7, 11);
    assert_eq!(point.x, -7);
    assert_eq!(point.y, 11);
}
