use kmeans_core::bounds::{get_min_max, MinMax, Point, MIN_FINITE_BITS};
use kmeans_core::assignment::MAX_FINITE_BITS;

fn pt(x: f64, y: f64) -> Point {
    Point { x: x.to_bits(), y: y.to_bits() }
}

fn floats(r: (u64, u64)) -> (f64, f64) {
    (f64::from_bits(r.0), f64::from_bits(r.1))
}

#[test]
fn bounding_box_of_points() {
    let mm = get_min_max(&vec![pt(1.0, -2.0), pt(-3.5, 4.0), pt(2.0, 0.5)]);
    assert_eq!(floats(mm.x()), (-3.5, 2.0));
    assert_eq!(floats(mm.y()), (-2.0, 4.0));
}

#[test]
fn bounding_box_of_no_points_keeps_start_values() {
    let mm = get_min_max(&vec![]);
    assert_eq!(mm, MinMax { xmin: MAX_FINITE_BITS, xmax: MIN_FINITE_BITS, ymin: MAX_FINITE_BITS, ymax: MIN_FINITE_BITS });
    assert_eq!(floats(mm.x()), (f64::MAX, f64::MIN));
}

#[test]
fn bounding_box_skips_nan() {
    let mm = get_min_max(&vec![pt(f64::NAN, 1.0), pt(5.0, f64::NAN), pt(7.0, 3.0)]);
    assert_eq!(floats(mm.x()), (5.0, 7.0));
    assert_eq!(floats(mm.y()), (1.0, 3.0));
}

#[test]
fn bounding_box_keeps_first_of_equal_zeros() {
    let mm = get_min_max(&vec![pt(-0.0, 0.0), pt(0.0, -0.0)]);
    assert_eq!(mm.xmin, (-0.0f64).to_bits());
    assert_eq!(mm.xmax, (-0.0f64).to_bits());
    assert_eq!(mm.ymin, 0.0f64.to_bits());
}

#[test]
fn bounding_box_with_infinities() {
    let mm = get_min_max(&vec![pt(f64::INFINITY, f64::NEG_INFINITY)]);
    assert_eq!(floats(mm.x()), (f64::MAX, f64::INFINITY));
    assert_eq!(floats(mm.y()), (f64::NEG_INFINITY, f64::MIN));
}

#[test]
fn bounding_box_encloses_points() {
    let raw = [(3.0, -1.0), (-2.0, 8.0), (0.25, 0.0), (1e10, -1e-10)];
    let pts: Vec<Point> = raw.iter().map(|(x, y)| pt(*x, *y)).collect();
    let mm = get_min_max(&pts);
    let (xmin, xmax) = floats(mm.x());
    let (ymin, ymax) = floats(mm.y());
    for (x, y) in raw {
        assert!(xmin <= x && x <= xmax);
        assert!(ymin <= y && y <= ymax);
    }
}
