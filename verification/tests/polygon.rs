use art_gallery::dual::centroid_of;
use art_gallery::polygon::{PointType, SimplePolygon};
use art_gallery::primitives::{DirEdge, Point, PointOrientation};

fn polygon(coords: &[(isize, isize)]) -> SimplePolygon {
    let pts: Vec<Point> = coords.iter().map(|&(x, y)| Point::new(x, y)).collect();
    assert!(SimplePolygon::points_are_distinct(&pts));
    SimplePolygon::from_point_list(pts)
}

#[test]
fn test_area() {
    let p = SimplePolygon::gen_rand_hard(3, 5, 100).unwrap();
    println!("{:?} -- {}", p, p.get_determinant());
}

#[test]
fn determinant_is_twice_the_signed_area() {
    assert_eq!(polygon(&[(0, 0), (4, 0), (4, 4), (0, 4)]).get_determinant(), 32);
    assert_eq!(polygon(&[(0, 4), (4, 4), (4, 0), (0, 0)]).get_determinant(), -32);
    assert_eq!(polygon(&[(0, 0), (4, 0), (2, 3)]).get_determinant(), 12);
    assert_eq!(polygon(&[(-3, -3), (1, -3), (-1, 0)]).get_determinant(), 12);
}

#[test]
fn determinant_survives_large_partial_sums() {
    let big = isize::MAX / 2;
    // a thin triangle far from the origin: the terms are huge, the area is small
    let p = polygon(&[(big, big), (big + 1, big), (big, big + 1)]);
    assert_eq!(p.get_determinant(), 1);
}

#[test]
fn neighbours_wrap_around() {
    let p = polygon(&[(0, 0), (4, 0), (4, 4), (0, 4)]);
    assert_eq!(p.get_next_index(0), 1);
    assert_eq!(p.get_next_index(3), 0);
    assert_eq!(p.get_prev_index(0), 3);
    assert_eq!(p.get_prev_index(2), 1);
}

#[test]
fn distinctness_is_told() {
    let a = vec![Point::new(0, 0), Point::new(1, 0), Point::new(0, 1)];
    let b = vec![Point::new(0, 0), Point::new(1, 0), Point::new(0, 0)];
    assert!(SimplePolygon::points_are_distinct(&a));
    assert!(!SimplePolygon::points_are_distinct(&b));
    assert!(SimplePolygon::points_are_distinct(&Vec::new()));
}

#[test]
fn every_vertex_class_occurs() {
    // a crown: two tops with a notch between them, and a dent in the floor
    let p = polygon(&[(0, 0), (3, 2), (6, 0), (6, 6), (3, 3), (0, 6)]);
    assert_eq!(p.get_point_type(0), PointType::End);
    assert_eq!(p.get_point_type(1), PointType::Split);
    assert_eq!(p.get_point_type(2), PointType::End);
    assert_eq!(p.get_point_type(3), PointType::Start);
    assert_eq!(p.get_point_type(4), PointType::Merge);
    assert_eq!(p.get_point_type(5), PointType::Start);
    assert!(p.is_reflex(1));
    assert!(p.is_reflex(4));
    assert!(!p.is_reflex(0));
    let q = polygon(&[(0, 0), (4, 0), (4, 4), (0, 4)]);
    assert_eq!(q.get_point_type(1), PointType::Regular);
}

#[test]
fn events_run_from_the_top_down() {
    let p = polygon(&[(0, 0), (3, 2), (6, 0), (6, 6), (3, 3), (0, 6)]);
    assert_eq!(p.event_order(), vec![3, 5, 4, 1, 2, 0]);
}

#[test]
fn crown_is_cut_at_its_merge_and_split() {
    let p = polygon(&[(0, 0), (3, 2), (6, 0), (6, 6), (3, 3), (0, 6)]);
    let traps = p.sweep().unwrap();
    // six vertices, two starts, one merge: 6 - 2 + 1 trapezoids
    assert_eq!(traps.records().len(), 5);
    for t in traps.records() {
        assert!(t.top_vertex.1.is_higher_than(&t.bottom_vertex.1));
        assert_eq!(t.top_vertex.1, p.get_point_list()[t.top_vertex.0]);
        assert_eq!(t.bottom_vertex.1, p.get_point_list()[t.bottom_vertex.0]);
        assert!(t.left_edge.1.higher.is_higher_than(&t.left_edge.1.lower));
        assert!(t.right_edge.1.higher.is_higher_than(&t.right_edge.1.lower));
    }
    let ds = p.partition_monotone();
    assert_eq!(ds, vec![DirEdge::from_points(&Point::new(3, 3), &Point::new(3, 2))]);
    assert_eq!(p.partition_trapezoid().records().len(), 5);
}

#[test]
fn sweep_fails_on_a_ring_that_crosses_itself() {
    let p = polygon(&[(0, 0), (4, 4), (4, 0), (0, 4)]);
    assert!(p.sweep().is_none());
}

#[test]
fn triangulation_runs_from_lower_to_higher() {
    let p = polygon(&[(0, 0), (6, 0), (5, 2), (4, 3), (3, 4), (2, 3), (1, 2)]);
    let ds = p.triangulate_monotone();
    assert_eq!(ds.len(), 4);
    for d in &ds {
        assert!(d.end.is_higher_than(&d.start));
        assert!(p.get_point_list().contains(&d.start));
        assert!(p.get_point_list().contains(&d.end));
    }
}

#[test]
fn generator_gives_simple_polygons() {
    for n in [3usize, 4, 6, 9] {
        let p = SimplePolygon::gen_rand_hard(n, 50, 200).expect("a polygon within the tries");
        let pts = p.get_point_list();
        assert_eq!(pts.len(), n);
        assert!(SimplePolygon::points_are_distinct(pts));
        assert!(p.get_determinant() >= 0);
        for q in pts {
            assert!(0 <= q.x && q.x < 50 && 0 <= q.y && q.y < 50);
        }
        for i in 0..n {
            let a = &pts[(i + n - 1) % n];
            let c = &pts[(i + 1) % n];
            assert_ne!(Point::orientation(a, &pts[i], c), PointOrientation::Collinear);
            let ei = DirEdge::from_points(&pts[i], c);
            for j in 0..n {
                let apart = j != i && (j + 1) % n != i && (i + 1) % n != j;
                if apart {
                    let ej = DirEdge::from_points(&pts[j], &pts[(j + 1) % n]);
                    assert!(!ei.intersects(&ej));
                }
            }
        }
    }
}

#[test]
fn generator_gives_nothing_for_fewer_than_three() {
    assert!(SimplePolygon::gen_rand_hard(2, 100, 100).is_none());
    assert!(SimplePolygon::gen_rand_hard(0, 100, 100).is_none());
}

#[test]
fn generator_gives_up_in_a_square_too_small() {
    // one point only: no second point differs from the first
    assert!(SimplePolygon::gen_rand_hard(3, 1, 20).is_none());
    // a single attempt is none: the attempts are one fewer than the tries
    assert!(SimplePolygon::gen_rand_hard(3, 100, 1).is_none());
}

#[test]
fn centroid_rounds_down() {
    assert_eq!(centroid_of(&vec![Point::new(0, 0), Point::new(6, 0), Point::new(6, 6)]), Point::new(4, 2));
    assert_eq!(centroid_of(&vec![Point::new(0, 0), Point::new(1, 0), Point::new(0, 1)]), Point::new(0, 0));
    assert_eq!(centroid_of(&vec![Point::new(0, 0), Point::new(-1, 0), Point::new(0, -1)]), Point::new(-1, -1));
    assert_eq!(
        centroid_of(&vec![Point::new(isize::MAX, isize::MIN), Point::new(isize::MAX, isize::MIN)]),
        Point::new(isize::MAX, isize::MIN)
    );
}

#[test]
fn sweep_fails_where_a_vertex_touches_an_edge() {
    // the vertex (3,3) lies on the edge from (4,3) to (1,3)
    let p = polygon(&[(2, 0), (4, 3), (1, 3), (2, 1), (3, 3)]);
    assert!(p.sweep().is_none());
}
