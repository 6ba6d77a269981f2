use art_gallery::dcel::DCEL;
use art_gallery::polygon::SimplePolygon;
use art_gallery::primitives::{DirEdge, Point};

fn polygon(coords: &[(isize, isize)]) -> SimplePolygon {
    let pts: Vec<Point> = coords.iter().map(|&(x, y)| Point::new(x, y)).collect();
    assert!(SimplePolygon::points_are_distinct(&pts));
    SimplePolygon::from_point_list(pts)
}

#[test]
fn test_split() {
    let p = SimplePolygon::gen_rand_hard(5, 1000, 100).unwrap();
    let mut x = DCEL::from_simple_polygon(&p);

    let p1 = x.vertices()[1].1;
    let p4 = x.vertices()[4].1;
    println!("{:?}", x.get_common_face(p1, p4));

    x.split_face(p1, p4);
    for f in x.get_internal_faces() {
        println!("{:?}", f)
    }
    println!("{:?}", x.get_external_face());
    for e in x.half_edges() {
        println!("{:?}", e)
    }
    for v in x.vertex_records() {
        println!("{:?}", v)
    }
}

#[test]
fn test_construction() {
    let p = SimplePolygon::gen_rand_hard(5, 1000, 100).unwrap();
    let x = DCEL::from_simple_polygon(&p);
    for f in x.get_internal_faces() {
        println!("{:?}", f)
    }
    println!("{:?}", x.get_external_face());
    for x in x.half_edges() {
        assert_ne!(x.origin, None);
        assert_ne!(x.next, None);
        assert_ne!(x.prev, None);
        assert_ne!(x.twin, None);
        println!("{:?}", x)
    }
    for x in x.vertex_records() {
        assert_ne!(x.incident_edge, None);
        println!("{:?}", x)
    }
}

#[test]
fn polygon_alone_has_two_faces() {
    let p = polygon(&[(0, 0), (4, 0), (4, 4), (0, 4)]);
    let d = DCEL::from_simple_polygon(&p);
    assert!(d.check_consistency());
    assert_eq!(d.half_edges().len(), 8);
    assert_eq!(d.vertex_records().len(), 4);
    let inside = d.get_internal_faces();
    assert_eq!(inside.len(), 1);
    assert!(inside[0].inner.is_none() && inside[0].outer.is_some());
    assert_eq!(d.get_point_list(inside[0]), *p.get_point_list());
    let outside = d.get_external_face();
    assert!(outside.inner.is_some() && outside.outer.is_none());
    assert!(d.has_vertex(&Point::new(4, 4)));
    assert!(!d.has_vertex(&Point::new(1, 1)));
}

#[test]
fn twins_and_neighbours_fit_together() {
    let p = polygon(&[(0, 0), (6, 0), (6, 6), (5, 6), (5, 2), (3, 2), (3, 6), (0, 6)]);
    let mut d = DCEL::from_simple_polygon(&p);
    let mon = p.diagonals_of(&p.sweep().unwrap());
    d.add_internal_diagonals(&mon);
    let tri = d.triangulation_diagonals();
    d.add_internal_diagonals(&tri);
    assert!(d.check_consistency());
    let edges = d.half_edges();
    assert_eq!(edges.len(), 2 * 8 + 2 * 5);
    let find = |k| edges.iter().find(|e| e.parent_key == k).unwrap();
    for e in &edges {
        let twin = find(e.twin.unwrap());
        assert_eq!(twin.twin, Some(e.parent_key));
        assert_ne!(twin.parent_key, e.parent_key);
        let next = find(e.next.unwrap());
        let prev = find(e.prev.unwrap());
        assert_eq!(next.prev, Some(e.parent_key));
        assert_eq!(prev.next, Some(e.parent_key));
        assert_eq!(next.incident_face, e.incident_face);
        assert_eq!(twin.origin, next.origin);
        assert_ne!(twin.incident_face, e.incident_face);
    }
    for f in d.get_internal_faces() {
        let mut e = find(f.outer.unwrap());
        let mut steps = 0;
        loop {
            assert_eq!(e.incident_face, Some(f.parent_key));
            e = find(e.next.unwrap());
            steps += 1;
            if e.parent_key == f.outer.unwrap() {
                break;
            }
            assert!(steps < 100);
        }
        assert_eq!(steps, 3);
    }
}

#[test]
fn diagonal_cuts_a_square_in_two_triangles() {
    let p = polygon(&[(0, 0), (4, 0), (4, 4), (0, 4)]);
    let mut d = DCEL::from_simple_polygon(&p);
    let a = d.vertices()[0].1;
    let b = d.vertices()[1].1;
    let c = d.vertices()[2].1;
    let e = d.vertices()[3].1;
    assert!(d.get_common_face(a, c).is_some());
    assert!(d.split_face(a, c));
    assert_eq!(d.get_internal_faces().len(), 2);
    assert_eq!(d.half_edges().len(), 10);
    let mut faces: Vec<Vec<(isize, isize)>> = d
        .get_internal_faces()
        .iter()
        .map(|f| {
            let mut v: Vec<(isize, isize)> = d.get_point_list(f).iter().map(|p| (p.x, p.y)).collect();
            v.sort();
            v
        })
        .collect();
    faces.sort();
    assert_eq!(faces, vec![vec![(0, 0), (0, 4), (4, 4)], vec![(0, 0), (4, 0), (4, 4)]]);
    // the other two corners now lie on different faces
    assert!(d.get_common_face(b, e).is_none());
    assert!(!d.split_face(b, e));
    assert_eq!(d.get_internal_faces().len(), 2);
    // neighbours on a face: a diagonal that is an edge already changes nothing
    assert!(d.split_face(a, c));
    assert!(d.split_face(a, b));
    assert_eq!(d.get_internal_faces().len(), 2);
    assert_eq!(d.half_edges().len(), 10);
    assert!(d.check_consistency());
}

#[test]
fn diagonal_across_a_hexagon_takes_the_general_way() {
    let p = polygon(&[(0, 0), (2, -1), (4, 0), (4, 3), (2, 4), (0, 3)]);
    let mut d = DCEL::from_simple_polygon(&p);
    let u = d.vertices()[0].1;
    let v = d.vertices()[3].1;
    assert!(d.split_face(u, v));
    let mut sizes: Vec<usize> = d.get_internal_faces().iter().map(|f| d.get_point_list(f).len()).collect();
    sizes.sort();
    assert_eq!(sizes, vec![4, 4]);
    assert_eq!(d.half_edges().len(), 14);
    assert!(d.check_consistency());
    for f in d.get_internal_faces() {
        let pts = d.get_point_list(f);
        assert!(pts.contains(&Point::new(0, 0)) && pts.contains(&Point::new(4, 3)));
    }
}

#[test]
fn diagonals_go_in_one_after_the_other() {
    let p = polygon(&[(0, 0), (2, -1), (4, 0), (4, 3), (2, 4), (0, 3)]);
    let mut d = DCEL::from_simple_polygon(&p);
    let ds = vec![
        DirEdge::from_points(&Point::new(0, 0), &Point::new(4, 3)),
        DirEdge::from_points(&Point::new(0, 0), &Point::new(4, 0)),
        DirEdge::from_points(&Point::new(4, 3), &Point::new(0, 3)),
        // no face has both ends of this one any more
        DirEdge::from_points(&Point::new(2, -1), &Point::new(2, 4)),
    ];
    d.add_internal_diagonals(&ds);
    let faces = d.get_internal_faces();
    assert_eq!(faces.len(), 4);
    for f in faces {
        assert_eq!(d.get_point_list(f).len(), 3);
    }
    assert!(d.check_consistency());
}

#[test]
fn dual_graph_of_a_square() {
    let p = polygon(&[(0, 0), (6, 0), (6, 6), (0, 6)]);
    let mut d = DCEL::from_simple_polygon(&p);
    assert!(d.dual_graph().is_empty());
    d.add_internal_diagonals(&p.triangulate_monotone());
    let dual = d.dual_graph();
    assert_eq!(dual.len(), 1);
    let ends = [(dual[0].start.x, dual[0].start.y), (dual[0].end.x, dual[0].end.y)];
    assert!(ends.contains(&(2, 2)) && ends.contains(&(4, 4)));
}

#[test]
fn dual_graph_of_a_triangulation_is_a_tree() {
    let p = polygon(&[(0, 0), (6, 0), (5, 2), (4, 3), (3, 4), (2, 3), (1, 2)]);
    let mut d = DCEL::from_simple_polygon(&p);
    d.add_internal_diagonals(&p.triangulate_monotone());
    assert_eq!(d.get_internal_faces().len(), 5);
    assert_eq!(d.dual_graph().len(), 4);
}

#[test]
fn dual_graph_has_no_cycle_and_is_in_one_piece() {
    let p = polygon(&[(0, 0), (6, 0), (6, 6), (5, 6), (5, 2), (3, 2), (3, 6), (0, 6)]);
    let mut d = DCEL::from_simple_polygon(&p);
    d.add_internal_diagonals(&p.diagonals_of(&p.sweep().unwrap()));
    let tri = d.triangulation_diagonals();
    d.add_internal_diagonals(&tri);
    let faces: Vec<_> = d.get_internal_faces().iter().map(|f| f.parent_key).collect();
    let place = |k| faces.iter().position(|f| *f == k);
    let edges = d.half_edges();
    let face_of = |k| edges.iter().find(|e| e.parent_key == k).unwrap().incident_face.unwrap();
    let mut group: Vec<usize> = (0..faces.len()).collect();
    let mut joined = 0;
    for e in &edges {
        let (a, b) = (place(e.incident_face.unwrap()), place(face_of(e.twin.unwrap())));
        if let (Some(a), Some(b)) = (a, b) {
            if a < b {
                // a diagonal: its two faces must not be joined yet
                assert_ne!(group[a], group[b]);
                let (from, to) = (group[b], group[a]);
                for g in group.iter_mut() {
                    if *g == from {
                        *g = to;
                    }
                }
                joined += 1;
            }
        }
    }
    assert_eq!(joined, faces.len() - 1);
    assert!(group.iter().all(|g| *g == group[0]));
}
