use complib::complex::Complex;
use complib::geometry::{ccw, cross, dot, is_orthogonal, is_parallel, norm, point_add, point_sub, Line, LineStatus, Point};

#[test]
fn test_complex_basic() {
    let a = Complex::new(5_i64, 6);
    let b = Complex::new(7, 3);
    let plus = Complex::new(12, 9);
    let minus = Complex::new(-2, 3);
    let mul = Complex::new(17, 57);

    assert_eq!(a.plus(b), plus);
    assert_eq!(a.minus(b), minus);
    assert_eq!(a.times(b), mul);
    assert_eq!(mul.divide(a), b);
}

#[test]
fn complex_parts() {
    let a = Complex::new(3_i64, -4);
    assert_eq!(a.conjugate(), Complex::new(3, 4));
    assert_eq!(a.abs2(), 25);
    assert_eq!(Complex::new(7_i64, 1).divide(Complex::new(2, 0)), Complex::new(3, 0));
}

#[test]
fn test_geometry_point() {
    let p1 = Point::new(3, 4);
    let p2 = p1;
    assert_eq!(p1, p2);
    let p2 = Point::new(3, 2);
    assert_ne!(p1, p2);
    let p2 = Point::new(1, 4);
    assert_ne!(p1, p2);

    let p1 = Point::new(3, -2);
    let p2 = Point::new(1, 1);
    let mut p3 = p1;
    let mut p4 = p1;
    p3 = point_add(p3, p2);
    p4 = point_sub(p4, p2);

    assert_eq!(point_add(p1, p2), Point::new(4, -1));
    assert_eq!(point_sub(p1, p2), Point::new(2, -3));
    assert_eq!(p3, point_add(p1, p2));
    assert_eq!(p4, point_sub(p1, p2));

    let p1 = Point::new(3.0, 4.0_f64);
    let p2 = p1;
    assert_eq!(p1, p2);
    let p2 = Point::new(3.0, 2.0);
    assert_ne!(p1, p2);
    let p2 = Point::new(1.0, 4.0);
    assert_ne!(p1, p2);
}

#[test]
fn test_geometry_ccw() {
    assert_eq!(1, ccw(Point::new(1, 1), Point::new(2, 53), Point::new(-2, 21)));
    assert_eq!(-1, ccw(Point::new(1, 1), Point::new(-2, 21), Point::new(29, 2214)));
    assert_eq!(-2, ccw(Point::new(46, 46), Point::new(50, 50), Point::new(4002, 4002)));
    assert_eq!(2, ccw(Point::new(46, 46), Point::new(-4423, -4423), Point::new(4002, 4002)));
    assert_eq!(0, ccw(Point::new(46, 46), Point::new(46, 46), Point::new(46, 46)));
}

#[test]
fn test_geometry_line() {
    assert_eq!(Line::new(1, 0), Line::from(Point::new(0, 0), Point::new(-1, -1)).unwrap());
    assert_eq!(Line::new(2, 2), Line::new(2, 2));

    let a = Line::new(1_i64, 0);
    let b = Line::new_horizontal(3);
    let c = a.get_intersection(b).unwrap();
    assert_eq!(c, Point::new(3, 3));

    let a = Line::new_horizontal(7);
    let b = Line::new_horizontal(3);
    let c = a.get_intersection(b);
    assert_eq!(c, None);
}

#[test]
fn line_kinds_and_substitution() {
    assert_eq!(Line::from(Point::new(1, 1), Point::new(1, 1)), None);
    let v = Line::from(Point::new(2, 5), Point::new(2, -1)).unwrap();
    assert!(v.is_vertical());
    assert_eq!(v.get_intercept(), 2);
    let h = Line::from(Point::new(0, 4), Point::new(9, 4)).unwrap();
    assert!(h.is_horizontal());
    assert_eq!(h.get_status(), LineStatus::Horizontal);
    assert_eq!(v.get_intersection(h), Some(Point::new(2, 4)));
    let l = Line::new(2, 1);
    assert_eq!(l.get_data(), (2, 1));
    assert_eq!(l.substitution_x(3), Some(7));
    assert_eq!(l.substitution_y(7), Some(3));
    assert_eq!(l.substitution_y(-4), Some(-2));
    assert_eq!(h.substitution_y(0), None);
    assert_eq!(v.substitution_x(0), None);
    assert_eq!(Line::new(-1, 6).get_intersection(Line::new(1, 0)), Some(Point::new(3, 3)));
    let p = Line::from_point_slope(Point::new(1, 2), 3, LineStatus::Normal);
    assert_eq!(p, Line::new(3, -1));
    assert_eq!(Line::from_point_slope(Point::new(1, 2), 3, LineStatus::Vertical), Line::new_vertical(1));
    assert_eq!(Line::from(Point::new(0, 0), Point::new(2, 7)).unwrap().get_slope(), 3);
    assert_eq!(Line::from(Point::new(0, 0), Point::new(2, -7)).unwrap().get_slope(), -3);
}

#[test]
fn vector_products() {
    assert_eq!(cross(Point::new(1, 2), Point::new(3, 4)), -2);
    assert_eq!(dot(Point::new(1, 2), Point::new(3, 4)), 11);
    assert_eq!(norm(Point::new(3, -4)), 25);
}

#[test]
fn test_geometry_parallel() {
    assert!(is_parallel(Point::new(0_i64, 0), Point::new(1, 1), Point::new(2, 2), Point::new(3, 3)));
    assert!(!is_parallel(Point::new(0_i64, 8), Point::new(1, 1), Point::new(2, 2), Point::new(3, 3)));
}

#[test]
fn test_geometry_orthogonal() {
    assert!(is_orthogonal(Point::new(0_i64, 0), Point::new(1, 1), Point::new(10, -10), Point::new(-3, 3)));
    assert!(!is_orthogonal(Point::new(0_i64, 4), Point::new(1, 1), Point::new(10, -10), Point::new(-3, 3)));
}
