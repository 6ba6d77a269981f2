use art_gallery::primitives::{DirEdge, Point, PointOrientation};

fn tester(points: &[isize; 8], expect: bool) {
    let p1 = Point { x: points[0], y: points[1] };
    let q1 = Point { x: points[2], y: points[3] };
    let p2 = Point { x: points[4], y: points[5] };
    let q2 = Point { x: points[6], y: points[7] };
    let e1 = DirEdge::from_points(&p1, &q1);
    let e2 = DirEdge::from_points(&p2, &q2);

    println!("Running e1,e2");
    assert_eq!(e1.intersects(&e2), expect);
    println!("Running e2,e1");
    assert_eq!(e2.intersects(&e1), expect);
}

#[test]
fn test_intersection() {
    let t = [0, 0, 1, 2, 1, 0, 2, 2];
    tester(&t, false);
    let t = [10, 0, 0, 10, 0, 0, 10, 10];
    tester(&t, true);
    let t = [-5, -5, 0, 0, 1, 1, 10, 10];
    tester(&t, false);
    let t = [0, 0, 100, 0, 0, 0, 1, 1];
    tester(&t, true);
    let t = [0, 0, 100, 0, 50, 0, 1, 1];
    tester(&t, true);
}

#[test]
fn orientation_signs() {
    let a = Point::new(0, 0);
    let b = Point::new(4, 0);
    let c = Point::new(2, 3);
    assert_eq!(Point::orientation(&a, &b, &c), PointOrientation::Counterclockwise);
    assert_eq!(Point::orientation(&a, &c, &b), PointOrientation::Clockwise);
    assert_eq!(Point::orientation(&a, &b, &Point::new(8, 0)), PointOrientation::Collinear);
}

#[test]
fn orientation_is_exact_at_the_limits() {
    let lo = isize::MIN;
    let hi = isize::MAX;
    let p = Point::new(lo, lo);
    let q = Point::new(hi, hi);
    assert_eq!(Point::orientation(&p, &q, &Point::new(hi, lo)), PointOrientation::Clockwise);
    assert_eq!(Point::orientation(&p, &q, &Point::new(lo, hi)), PointOrientation::Counterclockwise);
    assert_eq!(Point::orientation(&p, &q, &Point::new(0, 0)), PointOrientation::Collinear);
    assert_eq!(Point::orientation(&p, &q, &Point::new(0, 1)), PointOrientation::Counterclockwise);
    assert_eq!(Point::orientation(&p, &q, &Point::new(1, 0)), PointOrientation::Clockwise);
}

#[test]
fn higher_than_breaks_ties_by_x() {
    let a = Point::new(0, 4);
    let b = Point::new(4, 4);
    let c = Point::new(9, 3);
    assert!(b.is_higher_than(&a));
    assert!(!a.is_higher_than(&b));
    assert!(a.is_higher_than(&c));
    assert!(!c.is_higher_than(&a));
}

#[test]
fn clone_keeps_the_coordinates() {
    let a = Point::new(-7, 12);
    let b = a.clone();
    assert_eq!(a, b);
    assert_eq!(b.x, -7);
    assert_eq!(b.y, 12);
}
