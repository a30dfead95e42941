use snake_core::segment::Segment;
use snake_core::vector::Vector;

fn fx(cells: f64) -> i64 {
    (cells * 1_000_000.0).round() as i64
}

fn vector(x: f64, y: f64) -> Vector {
    Vector::new(fx(x), fx(y))
}

#[test]
fn new_keeps_both_ends() {
    let start = vector(1.0, 2.0);
    let end = vector(3.0, 4.0);
    let segment = Segment::new(&start, &end);
    assert_eq!(*segment.start, start);
    assert_eq!(*segment.end, end);
}

#[test]
fn get_vector_is_the_displacement() {
    let start = vector(1.0, 2.0);
    let end = vector(4.0, -2.0);
    assert_eq!(Segment::new(&start, &end).get_vector(), vector(3.0, -4.0));
    assert_eq!(Segment::new(&end, &start).get_vector(), vector(-3.0, 4.0));
}

#[test]
fn length_is_the_distance_between_the_ends() {
    let start = vector(1.0, 2.0);
    let end = vector(4.0, -2.0);
    assert_eq!(Segment::new(&start, &end).length(), fx(5.0));
    assert_eq!(Segment::new(&end, &start).length(), fx(5.0));
    assert_eq!(Segment::new(&start, &start).length(), 0);
}

#[test]
fn both_ends_and_the_middle_are_inside() {
    let start = vector(1.5, 4.5);
    let end = vector(4.5, 4.5);
    let segment = Segment::new(&start, &end);
    assert!(segment.is_point_inside(&start));
    assert!(segment.is_point_inside(&end));
    assert!(segment.is_point_inside(&vector(3.0, 4.5)));
}

#[test]
fn every_point_between_the_ends_is_inside() {
    let segments = [
        (vector(0.0, 0.0), vector(3.0, 4.0)),
        (vector(-7.25, 2.5), vector(11.0, -40.0)),
        (vector(90.0, 90.0), vector(0.5, 99.5)),
        (vector(2.0, 2.0), vector(2.0, 2.0)),
    ];
    for (start, end) in segments {
        let segment = Segment::new(&start, &end);
        let mut t: i64 = 0;
        while t <= 1_000_000 {
            let point = start.add(&segment.get_vector().scale_by(t));
            assert!(segment.is_point_inside(&point), "t = {}", t);
            t += 12_500;
        }
    }
}

#[test]
fn points_of_the_line_beyond_the_ends_are_outside() {
    let start = vector(0.0, 0.0);
    let end = vector(3.0, 4.0);
    let segment = Segment::new(&start, &end);
    for t in [-2.0, -0.1, -0.01, 1.01, 1.1, 3.0] {
        let point = start.add(&segment.get_vector().scale_by(fx(t)));
        assert!(!segment.is_point_inside(&point), "t = {}", t);
    }
}

#[test]
fn points_off_the_line_are_outside() {
    let start = vector(0.0, 0.0);
    let end = vector(10.0, 0.0);
    let segment = Segment::new(&start, &end);
    assert!(!segment.is_point_inside(&vector(5.0, 0.5)));
    assert!(!segment.is_point_inside(&vector(5.0, -3.0)));
    assert!(!segment.is_point_inside(&vector(0.5, 1.5)));
}

#[test]
fn points_within_the_tolerance_of_the_line_are_inside() {
    let start = vector(0.0, 0.0);
    let end = vector(10.0, 0.0);
    let segment = Segment::new(&start, &end);
    assert!(segment.is_point_inside(&vector(5.0, 0.001)));
    // Just beyond an end: the way through the point is 0.008 longer.
    assert!(segment.is_point_inside(&vector(10.004, 0.0)));
    assert!(!segment.is_point_inside(&vector(10.005, 0.0)));
    assert!(segment.is_point_inside(&vector(-0.004, 0.0)));
    assert!(!segment.is_point_inside(&vector(-0.005, 0.0)));
}
