use polygon_canvas::interior_spans;
use polygon_canvas::polygon_interior;
use polygon_canvas::CanvasSpec;
use polygon_canvas::FillRule;
use polygon_canvas::Polygon;
use polygon_canvas::Rat;

fn poly_of_ints(coords: &[i64]) -> Polygon<Rat> {
    let v: Vec<Rat> = coords.iter().map(|&c| Rat::new(c, 1)).collect();
    Polygon::from_vec(v).unwrap()
}

#[test]
fn test_convex_interior_marked_under_both_rules() {
    // a convex diamond with vertices off the integer rows: every pixel
    // whose sample point lies strictly inside is marked under both rules,
    // and the two rules agree everywhere
    let poly = Polygon::from_vec(vec![
        Rat::new(4, 1),
        Rat::new(1, 2),
        Rat::new(8, 1),
        Rat::new(11, 2),
        Rat::new(4, 1),
        Rat::new(21, 2),
        Rat::new(0, 1),
        Rat::new(11, 2),
    ])
    .unwrap();
    let spec = CanvasSpec::new(8, 12);
    let nz = polygon_interior(poly.clone(), spec, FillRule::NonZero);
    let eo = polygon_interior(poly, spec, FillRule::EvenOdd);
    // strictly interior sample pixels
    let strictly_inside = [(3, 3), (3, 4), (5, 1), (5, 7), (6, 1), (6, 7), (8, 2), (8, 5), (10, 4)];
    for &(r, c) in strictly_inside.iter() {
        assert!(nz.at(r, c));
        assert!(eo.at(r, c));
    }
    for r in 0..12 {
        for c in 0..8 {
            assert_eq!(nz.at(r, c), eo.at(r, c));
        }
    }
}

#[test]
fn test_bowtie_differs_between_rules() {
    // a self-intersecting six-vertex polygon: in the self-overlap region
    // the winding magnitude reaches 2, interior under non-zero but
    // exterior under even-odd
    let poly = poly_of_ints(&[0, 0, 20, 0, 3, 15, 13, 3, 8, 3, 18, 15]);
    let spec = CanvasSpec::new(30, 20);
    let nz = polygon_interior(poly.clone(), spec, FillRule::NonZero);
    let eo = polygon_interior(poly, spec, FillRule::EvenOdd);
    assert!(nz.at(7, 10));
    assert!(!eo.at(7, 10));
}

#[test]
fn test_horizontal_edge_matches_split_limit() {
    // the square's bottom edge is perfectly horizontal; dipping its
    // midpoint just below by 1/4096 splits it into two near-horizontal
    // edges that still round to the same scan row, so the mask is
    // unchanged
    let spec = CanvasSpec::new(10, 12);
    let flat = poly_of_ints(&[0, 0, 8, 0, 8, 10, 0, 10]);
    let dipped = Polygon::from_vec(vec![
        Rat::new(0, 1),
        Rat::new(0, 1),
        Rat::new(4, 1),
        Rat::new(-1, 4096),
        Rat::new(8, 1),
        Rat::new(0, 1),
        Rat::new(8, 1),
        Rat::new(10, 1),
        Rat::new(0, 1),
        Rat::new(10, 1),
    ])
    .unwrap();
    let m1 = polygon_interior(flat, spec, FillRule::NonZero);
    let m2 = polygon_interior(dipped, spec, FillRule::NonZero);
    for r in 0..12 {
        for c in 0..10 {
            assert_eq!(m1.at(r, c), m2.at(r, c));
        }
    }
}

#[test]
fn test_rasterization_is_deterministic() {
    let poly = poly_of_ints(&[0, 0, 20, 0, 3, 15, 13, 3, 8, 3, 18, 15]);
    let spec = CanvasSpec::new(30, 20);
    let m1 = polygon_interior(poly.clone(), spec, FillRule::NonZero);
    let m2 = polygon_interior(poly, spec, FillRule::NonZero);
    assert_eq!(m1, m2);
}

#[test]
fn test_degenerate_canvas_is_empty() {
    let poly = poly_of_ints(&[0, 0, 8, 0, 8, 10, 0, 10]);
    let m1 = polygon_interior(poly.clone(), CanvasSpec::new(0, 10), FillRule::NonZero);
    assert_eq!(m1.width, 0);
    assert_eq!(m1.height, 10);
    assert_eq!(m1.bits.len(), 0);
    let m2 = polygon_interior(poly.clone(), CanvasSpec::new(10, 0), FillRule::EvenOdd);
    assert_eq!(m2.bits.len(), 0);
    let m3 = polygon_interior(poly, CanvasSpec::new(0, 0), FillRule::NonZero);
    assert_eq!(m3.bits.len(), 0);
}

#[test]
fn test_spans_cover_exactly_the_interior() {
    let poly = poly_of_ints(&[0, 0, 8, 0, 8, 10, 0, 10]);
    let spec = CanvasSpec::new(12, 12);
    let spans = interior_spans(poly.clone(), spec, FillRule::NonZero);
    let mask = polygon_interior(poly, spec, FillRule::NonZero);
    assert_eq!(spans.len(), 12);
    for r in 0..12 {
        let mut covered = vec![false; 12];
        for &(lo, hi) in spans[r].iter() {
            assert!(lo < hi && hi <= 12);
            for c in lo..hi {
                covered[c] = true;
            }
        }
        for c in 0..12 {
            assert_eq!(covered[c], mask.at(r, c));
        }
    }
}

#[test]
fn test_spans_of_full_square_row() {
    let poly = poly_of_ints(&[0, 0, 8, 0, 8, 10, 0, 10]);
    let spec = CanvasSpec::new(8, 10);
    let spans = interior_spans(poly, spec, FillRule::NonZero);
    for r in 0..10 {
        assert_eq!(spans[r], vec![(0, 8)]);
    }
}

#[test]
fn test_polygon_left_of_canvas_is_clipped() {
    // the polygon lies wholly at negative x: nothing is marked
    let poly = poly_of_ints(&[-8, 0, -1, 0, -1, 10, -8, 10]);
    let spec = CanvasSpec::new(8, 10);
    let mask = polygon_interior(poly, spec, FillRule::NonZero);
    for r in 0..10 {
        for c in 0..8 {
            assert!(!mask.at(r, c));
        }
    }
}

#[test]
fn test_polygon_straddles_canvas_top() {
    // a square reaching above the canvas still fills the rows it covers
    let poly = poly_of_ints(&[0, -5, 6, -5, 6, 3, 0, 3]);
    let spec = CanvasSpec::new(8, 10);
    let mask = polygon_interior(poly, spec, FillRule::NonZero);
    for r in 0..10 {
        for c in 0..8 {
            let expect = r <= 3 && c < 6;
            assert_eq!(mask.at(r, c), expect);
        }
    }
}
