use polygon_canvas::geometry::Line;
use polygon_canvas::geometry::Point;
use polygon_canvas::geometry::Polygon;
use polygon_canvas::Rat;

#[test]
fn test_line_creation() {
    let p1 = Point::new(Rat::new(1, 1), Rat::new(2, 1));
    let p2 = Point::new(Rat::new(4, 1), Rat::new(6, 1));
    let line = Line::new(p1, p2);
    assert_eq!(line.start, p1);
    assert_eq!(line.end, p2);
}

#[test]
fn test_line_slope() {
    let p1 = Point::new(Rat::new(1, 1), Rat::new(2, 1));
    let p2 = Point::new(Rat::new(4, 1), Rat::new(3, 1));
    let line = Line::new(p1, p2);
    assert_eq!(line.inv_slope(), Some(Rat::new(3, 1)));
}

#[test]
fn test_vertical_line_slope() {
    let p1 = Point::new(Rat::new(1, 1), Rat::new(2, 1));
    let p2 = Point::new(Rat::new(6, 1), Rat::new(2, 1));
    let line = Line::new(p1, p2);
    assert_eq!(line.inv_slope(), None);
}

#[test]
fn test_lower_endpoint() {
    let p1 = Point::new(Rat::new(1, 1), Rat::new(2, 1));
    let p2 = Point::new(Rat::new(4, 1), Rat::new(6, 1));
    let line = Line::new(p1, p2);
    assert_eq!(line.y_min_point(), p1);
}

#[test]
fn test_higher_endpoint() {
    let p1 = Point::new(Rat::new(1, 1), Rat::new(2, 1));
    let p2 = Point::new(Rat::new(4, 1), Rat::new(6, 1));
    let line = Line::new(p1, p2);
    assert_eq!(line.y_max_point(), p2);
}

#[test]
fn test_point_creation() {
    let p = Point::new(Rat::new(1, 1), Rat::new(2, 1));
    assert_eq!(p.x, Rat::new(1, 1));
    assert_eq!(p.y, Rat::new(2, 1));
}

#[test]
fn test_polygon_creation() {
    let polygon: Polygon<Rat> = Polygon::new();
    assert_eq!(polygon.vertices.len(), 0);
}

#[test]
fn test_add_point() {
    let mut polygon = Polygon::new();
    let p = Point::new(Rat::new(1, 1), Rat::new(2, 1));
    polygon.add_point(p);
    assert_eq!(polygon.vertices.len(), 1);
    assert_eq!(polygon.vertices[0], p);
}

#[test]
fn test_from_vec_odd_length_rejected() {
    let r = Polygon::from_vec(vec![Rat::new(1, 1), Rat::new(2, 1), Rat::new(3, 1)]);
    assert!(r.is_none());
}

#[test]
fn test_from_vec_pairs_coordinates() {
    let poly = Polygon::from_vec(vec![
        Rat::new(1, 1),
        Rat::new(2, 1),
        Rat::new(3, 1),
        Rat::new(4, 1),
    ])
    .unwrap();
    assert_eq!(poly.vertices.len(), 2);
    assert_eq!(poly.vertices[0], Point::new(Rat::new(1, 1), Rat::new(2, 1)));
    assert_eq!(poly.vertices[1], Point::new(Rat::new(3, 1), Rat::new(4, 1)));
}

#[test]
fn test_edges_close_the_polygon() {
    let poly = Polygon::from_vec(vec![
        Rat::new(0, 1),
        Rat::new(0, 1),
        Rat::new(8, 1),
        Rat::new(0, 1),
        Rat::new(8, 1),
        Rat::new(10, 1),
    ])
    .unwrap();
    let edges = poly.edges();
    assert_eq!(edges.len(), 3);
    assert_eq!(edges[0].start, poly.vertices[0]);
    assert_eq!(edges[0].end, poly.vertices[1]);
    assert_eq!(edges[2].start, poly.vertices[2]);
    assert_eq!(edges[2].end, poly.vertices[0]);
}
