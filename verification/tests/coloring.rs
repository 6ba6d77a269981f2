use art_gallery::dcel::DCEL;
use art_gallery::gallery::guard_polygon;
use art_gallery::polygon::SimplePolygon;
use art_gallery::primitives::Point;

fn polygon(coords: &[(isize, isize)]) -> SimplePolygon {
    let pts: Vec<Point> = coords.iter().map(|&(x, y)| Point::new(x, y)).collect();
    assert!(SimplePolygon::points_are_distinct(&pts));
    SimplePolygon::from_point_list(pts)
}

#[test]
fn first_triangle_gets_one_two_three() {
    let p = polygon(&[(0, 0), (4, 0), (2, 3)]);
    let d = DCEL::from_simple_polygon(&p);
    let c = d.three_color();
    assert_eq!(c.get(&Point::new(0, 0)), Some(1));
    assert_eq!(c.get(&Point::new(4, 0)), Some(2));
    assert_eq!(c.get(&Point::new(2, 3)), Some(3));
    assert_eq!(c.get(&Point::new(9, 9)), None);
    assert_eq!(c.len(), 3);
    assert_eq!(c.class_size(1), 1);
    assert_eq!(c.class_size(4), 0);
    assert_eq!(c.smallest_class(), 1);
    assert_eq!(c.guards(), vec![Point::new(0, 0)]);
    assert_eq!(c.class_points(3), vec![Point::new(2, 3)]);
}

#[test]
fn a_face_of_four_corners_gets_no_coloring() {
    let p = polygon(&[(0, 0), (4, 0), (4, 4), (0, 4)]);
    let d = DCEL::from_simple_polygon(&p);
    assert!(d.try_three_color().is_none());
}

#[test]
fn square_coloring_repeats_a_color_across_the_diagonal() {
    let p = polygon(&[(0, 0), (4, 0), (4, 4), (0, 4)]);
    let mut d = DCEL::from_simple_polygon(&p);
    d.add_internal_diagonals(&p.triangulate_monotone());
    let c = d.try_three_color().unwrap();
    // the diagonal joins (4,0) and (0,4): the other two corners share a color
    assert_eq!(c.get(&Point::new(0, 0)), c.get(&Point::new(4, 4)));
    assert_ne!(c.get(&Point::new(4, 0)), c.get(&Point::new(0, 4)));
    assert_eq!(c.entries().len(), 4);
    let k = c.smallest_class();
    assert_eq!(c.class_size(k), 1);
    assert_eq!(c.guards().len(), 1);
}

#[test]
fn guards_are_a_third_at_most() {
    let shapes: Vec<Vec<(isize, isize)>> = vec![
        vec![(0, 0), (4, 0), (2, 3)],
        vec![(0, 0), (4, 0), (4, 4), (0, 4)],
        vec![(0, 0), (6, 0), (6, 6), (5, 6), (5, 2), (3, 2), (3, 6), (0, 6)],
        vec![(0, 0), (6, 0), (5, 2), (4, 3), (3, 4), (2, 3), (1, 2)],
        vec![(0, 0), (10, 0), (10, 10), (6, 5), (5, 10), (4, 5), (0, 10)],
        vec![(0, 0), (3, 2), (6, 0), (6, 6), (3, 3), (0, 6)],
    ];
    for coords in shapes {
        let n = coords.len();
        let p = polygon(&coords);
        let g = guard_polygon(&p).expect("a simple polygon has its guards");
        assert!(3 * g.guards.len() <= n);
        assert!(!g.guards.is_empty());
        assert_eq!(g.coloring.len(), n);
        assert_eq!(g.dcel.get_internal_faces().len(), n - 2);
        assert_eq!(g.monotone.len() + g.triangulation.len(), n - 3);
        assert_eq!(g.dcel.dual_graph().len(), n - 3);
        assert!(g.dcel.check_consistency());
        let k = g.coloring.smallest_class();
        assert_eq!(g.guards.len(), g.coloring.class_size(k));
        for j in 1..=3 {
            assert!(g.coloring.class_size(k) <= g.coloring.class_size(j));
        }
        for q in &g.guards {
            assert_eq!(g.coloring.get(q), Some(k));
        }
        for f in g.dcel.get_internal_faces() {
            let mut seen = [false; 4];
            for q in g.dcel.get_point_list(f) {
                seen[g.coloring.get(&q).unwrap()] = true;
            }
            assert!(seen[1] && seen[2] && seen[3]);
        }
    }
}

#[test]
fn no_guards_where_the_sweep_fails() {
    let p = polygon(&[(0, 0), (4, 4), (4, 0), (0, 4)]);
    assert!(guard_polygon(&p).is_none());
}

#[test]
fn random_polygons_get_their_guards() {
    let mut done = 0;
    for _ in 0..20 {
        if let Some(p) = SimplePolygon::gen_rand_hard(8, 100, 100) {
            let g = guard_polygon(&p).expect("a simple polygon has its guards");
            assert!(3 * g.guards.len() <= 8);
            assert_eq!(g.dcel.get_internal_faces().len(), 6);
            done += 1;
        }
    }
    assert!(done > 0);
}
