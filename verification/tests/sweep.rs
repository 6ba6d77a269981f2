use art_gallery::polygon::{PointType, SimplePolygon};
use art_gallery::primitives::Point;

fn polygon(coords: &[(isize, isize)]) -> SimplePolygon {
    let pts: Vec<Point> = coords.iter().map(|&(x, y)| Point::new(x, y)).collect();
    assert!(SimplePolygon::points_are_distinct(&pts));
    SimplePolygon::from_point_list(pts)
}

#[test]
fn square_vertex_types_and_trapezoids() {
    let p = polygon(&[(0, 0), (4, 0), (4, 4), (0, 4)]);
    assert_eq!(p.get_point_type(2), PointType::Start);
    assert_eq!(p.get_point_type(3), PointType::Regular);
    assert_eq!(p.get_point_type(1), PointType::Regular);
    assert_eq!(p.get_point_type(0), PointType::End);
    assert_eq!(p.event_order(), vec![2, 3, 1, 0]);
    let t = p.sweep().unwrap();
    let recs = t.records();
    assert_eq!(recs.len(), 3);
    assert_eq!((recs[0].left_edge.0, recs[0].right_edge.0), (2, 1));
    assert_eq!((recs[0].top_vertex.0, recs[0].bottom_vertex.0), (2, 3));
    assert_eq!((recs[1].left_edge.0, recs[1].right_edge.0), (3, 1));
    assert_eq!((recs[1].top_vertex.0, recs[1].bottom_vertex.0), (3, 1));
    assert_eq!((recs[2].left_edge.0, recs[2].right_edge.0), (3, 0));
    assert_eq!((recs[2].top_vertex.0, recs[2].bottom_vertex.0), (1, 0));
    assert_eq!(recs[1].left_edge.1.higher, Point::new(0, 4));
    assert_eq!(recs[1].left_edge.1.lower, Point::new(0, 0));
    assert!(p.partition_monotone().is_empty());
}
