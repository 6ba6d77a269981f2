use art_gallery::dcel::DCEL;
use art_gallery::polygon::{PointType, SimplePolygon};
use art_gallery::primitives::{DirEdge, Point};

fn polygon(coords: &[(isize, isize)]) -> SimplePolygon {
    let pts: Vec<Point> = coords.iter().map(|&(x, y)| Point::new(x, y)).collect();
    assert!(SimplePolygon::points_are_distinct(&pts));
    SimplePolygon::from_point_list(pts)
}

fn monotone_diagonals(p: &SimplePolygon) -> Vec<DirEdge> {
    let traps = p.sweep().expect("the sweep fails on no simple polygon");
    p.diagonals_of(&traps)
}

fn triangulation_diagonals(d: &DCEL) -> Vec<DirEdge> {
    let mut out = Vec::new();
    for face in d.get_internal_faces() {
        let piece = SimplePolygon::from_point_list(d.get_point_list(face));
        out.extend(piece.triangulate_monotone());
    }
    out
}

fn triangulated(coords: &[(isize, isize)]) -> DCEL {
    let p = polygon(coords);
    let mut d = DCEL::from_simple_polygon(&p);
    d.add_internal_diagonals(&monotone_diagonals(&p));
    let tri = triangulation_diagonals(&d);
    d.add_internal_diagonals(&tri);
    d
}

fn assert_all_triangles(d: &DCEL, expected_faces: usize) {
    let faces = d.get_internal_faces();
    assert_eq!(faces.len(), expected_faces);
    for f in faces {
        assert_eq!(d.get_point_list(f).len(), 3);
    }
}

fn assert_valid_coloring(d: &DCEL, n: usize) -> [usize; 4] {
    let c = d.try_three_color().expect("a triangulated polygon has a coloring");
    assert_eq!(c.len(), n);
    let mut counts = [0usize; 4];
    for (_, color) in c.entries() {
        assert!((1..=3).contains(color));
        counts[*color] += 1;
    }
    for f in d.get_internal_faces() {
        let pts = d.get_point_list(f);
        let mut seen = [false; 4];
        for p in &pts {
            seen[c.get(p).unwrap()] = true;
        }
        assert!(seen[1] && seen[2] && seen[3]);
    }
    counts
}

#[test]
fn triangle_end_to_end() {
    let coords = [(0, 0), (4, 0), (2, 3)];
    let p = polygon(&coords);
    assert!(monotone_diagonals(&p).is_empty());
    assert!(p.triangulate_monotone().is_empty());
    let d = triangulated(&coords);
    assert_all_triangles(&d, 1);
    let counts = assert_valid_coloring(&d, 3);
    assert_eq!(counts[1..], [1, 1, 1]);
    assert_eq!(*counts[1..].iter().min().unwrap(), 1);
}

#[test]
fn square_end_to_end() {
    let coords = [(0, 0), (4, 0), (4, 4), (0, 4)];
    let p = polygon(&coords);
    let kinds: Vec<PointType> = (0..4).map(|i| p.get_point_type(i)).collect();
    assert_eq!(kinds.iter().filter(|k| **k == PointType::Start).count(), 1);
    assert_eq!(kinds.iter().filter(|k| **k == PointType::Regular).count(), 2);
    assert_eq!(kinds.iter().filter(|k| **k == PointType::End).count(), 1);
    assert!(monotone_diagonals(&p).is_empty());
    let tri = p.triangulate_monotone();
    assert_eq!(tri.len(), 1);
    assert_eq!(tri[0], DirEdge::from_points(&Point::new(4, 0), &Point::new(0, 4)));
    let d = triangulated(&coords);
    assert_all_triangles(&d, 2);
    let counts = assert_valid_coloring(&d, 4);
    assert!(counts[1] >= 1 && counts[2] >= 1 && counts[3] >= 1);
    assert_eq!(*counts[1..].iter().min().unwrap(), 1);
}

#[test]
fn comb_end_to_end() {
    let coords = [(0, 0), (6, 0), (6, 6), (5, 6), (5, 2), (3, 2), (3, 6), (0, 6)];
    let p = polygon(&coords);
    let kinds: Vec<PointType> = (0..8).map(|i| p.get_point_type(i)).collect();
    assert!(kinds.contains(&PointType::Merge) || kinds.contains(&PointType::Split));
    assert!(!monotone_diagonals(&p).is_empty());
    let d = triangulated(&coords);
    assert_all_triangles(&d, 6);
    let counts = assert_valid_coloring(&d, 8);
    assert!(*counts[1..].iter().min().unwrap() <= 2);
}

#[test]
fn mountain_end_to_end() {
    let coords = [(0, 0), (6, 0), (5, 2), (4, 3), (3, 4), (2, 3), (1, 2)];
    let p = polygon(&coords);
    assert!(monotone_diagonals(&p).is_empty());
    assert_eq!(p.triangulate_monotone().len(), 4);
    let d = triangulated(&coords);
    assert_all_triangles(&d, 5);
    assert_valid_coloring(&d, 7);
}

#[test]
fn two_merges_end_to_end() {
    let coords = [(0, 0), (10, 0), (10, 10), (6, 5), (5, 10), (4, 5), (0, 10)];
    let p = polygon(&coords);
    assert_ne!(p.get_point_type(4), PointType::Split);
    assert_eq!(p.get_point_type(3), PointType::Merge);
    assert_eq!(p.get_point_type(5), PointType::Merge);
    assert!(monotone_diagonals(&p).len() >= 2);
    let d = triangulated(&coords);
    assert_all_triangles(&d, 5);
    assert_valid_coloring(&d, 7);
}

#[test]
fn diagonals_twice_change_nothing_more() {
    let coords = [(0, 0), (6, 0), (6, 6), (5, 6), (5, 2), (3, 2), (3, 6), (0, 6)];
    let p = polygon(&coords);
    let mon = monotone_diagonals(&p);
    let mut d = DCEL::from_simple_polygon(&p);
    d.add_internal_diagonals(&mon);
    let mut before: Vec<Vec<Point>> = d.get_internal_faces().iter().map(|f| d.get_point_list(f)).collect();
    d.add_internal_diagonals(&mon);
    let mut after: Vec<Vec<Point>> = d.get_internal_faces().iter().map(|f| d.get_point_list(f)).collect();
    let key = |v: &Vec<Point>| v.iter().map(|p| (p.x, p.y)).collect::<Vec<_>>();
    before.sort_by_key(key);
    after.sort_by_key(key);
    assert_eq!(before, after);
    assert_eq!(after.len(), mon.len() + 1);
}

fn shapes() -> Vec<Vec<(isize, isize)>> {
    vec![
        vec![(0, 0), (4, 0), (2, 3)],
        vec![(0, 0), (4, 0), (4, 4), (0, 4)],
        vec![(0, 0), (6, 0), (6, 6), (5, 6), (5, 2), (3, 2), (3, 6), (0, 6)],
        vec![(0, 0), (6, 0), (5, 2), (4, 3), (3, 4), (2, 3), (1, 2)],
        vec![(0, 0), (10, 0), (10, 10), (6, 5), (5, 10), (4, 5), (0, 10)],
        vec![(0, 0), (3, 2), (6, 0), (6, 6), (3, 3), (0, 6)],
    ]
}

fn assert_pieces_monotone(p: &SimplePolygon) {
    let mut d = DCEL::from_simple_polygon(p);
    let mon = monotone_diagonals(p);
    d.add_internal_diagonals(&mon);
    assert_eq!(d.get_internal_faces().len(), mon.len() + 1);
    for f in d.get_internal_faces() {
        let piece = SimplePolygon::from_point_list(d.get_point_list(f));
        assert!(piece.is_y_monotone());
        assert!(piece.get_determinant() > 0);
    }
}

#[test]
fn monotone_pieces_are_monotone() {
    for coords in shapes() {
        assert_pieces_monotone(&polygon(&coords));
    }
    let comb = polygon(&[(0, 0), (6, 0), (6, 6), (5, 6), (5, 2), (3, 2), (3, 6), (0, 6)]);
    assert!(!comb.is_y_monotone());
    assert!(polygon(&[(0, 0), (4, 0), (4, 4), (0, 4)]).is_y_monotone());
}

#[test]
fn random_pieces_are_monotone() {
    let mut done = 0;
    for _ in 0..30 {
        if let Some(p) = SimplePolygon::gen_rand_hard(9, 60, 100) {
            assert_pieces_monotone(&p);
            done += 1;
        }
    }
    assert!(done > 0);
}

#[test]
fn trapezoids_are_counted_by_vertex_class() {
    for coords in shapes() {
        let p = polygon(&coords);
        let n = coords.len();
        let mut opened = 0;
        let mut starts = 0;
        let mut merges = 0;
        for i in 0..n {
            opened += match p.get_point_type(i) {
                PointType::Start => {
                    starts += 1;
                    1
                }
                PointType::Split => 2,
                PointType::Merge => {
                    merges += 1;
                    1
                }
                PointType::Regular => 1,
                PointType::End => 0,
            };
        }
        let traps = p.sweep().unwrap();
        assert_eq!(traps.records().len(), opened);
        assert_eq!(traps.records().len(), n - starts + merges);
    }
}
