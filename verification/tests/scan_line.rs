use polygon_canvas::polygon_interior;
use polygon_canvas::CanvasSpec;
use polygon_canvas::FillRule;
use polygon_canvas::Polygon;
use polygon_canvas::Rat;

/// Builds a polygon from a flat list of integer coordinates.
fn poly_of_ints(coords: &[i64]) -> Polygon<Rat> {
    let v: Vec<Rat> = coords.iter().map(|&c| Rat::new(c, 1)).collect();
    Polygon::from_vec(v).unwrap()
}

#[test]
fn scan_line_test_scanline_full_float() {
    let poly = Polygon::from_vec(vec![
        Rat::new(0, 1),
        Rat::new(0, 1),
        Rat::new(7, 1),
        Rat::new(0, 1),
        Rat::new(7, 1),
        Rat::new(9, 1),
        Rat::new(0, 1),
        Rat::new(9, 1),
    ])
    .unwrap();
    let spec = CanvasSpec { width: 8, height: 10 };
    let result = polygon_interior(poly, spec, FillRule::NonZero);
    assert!(result.at(0, 0));
    assert!(result.at(9, 0));
    assert!(result.at(5, 5));
    // the square spans columns [0, 7): a crossing at exactly column 7
    // belongs to the pixel on its right, so column 7 stays exterior
    assert!(!result.at(0, 7));
}

#[test]
fn scan_line_test_scanline_full_int() {
    let poly = poly_of_ints(&[0, 0, 7, 0, 7, 9, 0, 9]);
    let spec = CanvasSpec { width: 8, height: 10 };
    let result = polygon_interior(poly, spec, FillRule::NonZero);
    assert!(result.at(0, 0));
    assert!(result.at(9, 0));
    assert!(result.at(5, 5));
    assert!(!result.at(0, 7));
}

#[test]
fn scan_line_test_scanline_triangle_float() {
    // lower triangle
    let poly = Polygon::from_vec(vec![
        Rat::new(0, 1),
        Rat::new(0, 1),
        Rat::new(7, 1),
        Rat::new(0, 1),
        Rat::new(7, 1),
        Rat::new(9, 1),
    ])
    .unwrap();
    let spec = CanvasSpec { width: 8, height: 10 };
    let result = polygon_interior(poly, spec, FillRule::NonZero);
    assert!(result.at(0, 1));
    assert!(!result.at(9, 0));
    assert!(result.at(5, 5));
    // at row 8 the hypotenuse crosses at 56/9 and the right side at 7:
    // column 7 lies right of both crossings, outside the triangle
    assert!(!result.at(8, 7));
}

#[test]
fn scan_line_test_scanline_triangle_int() {
    let poly = poly_of_ints(&[0, 0, 7, 0, 7, 9]);
    let spec = CanvasSpec { width: 8, height: 10 };
    let result = polygon_interior(poly, spec, FillRule::NonZero);
    assert!(result.at(0, 1));
    assert!(!result.at(9, 0));
    assert!(result.at(5, 5));
    assert!(!result.at(8, 7));
}

#[test]
fn test_square_exact_mask() {
    // square (0,0)-(8,0)-(8,10)-(0,10) on an 8x10 canvas: rows 0..9 and
    // columns 0..7 fully interior, nothing else
    let poly = poly_of_ints(&[0, 0, 8, 0, 8, 10, 0, 10]);
    let spec = CanvasSpec::new(8, 10);
    let result = polygon_interior(poly, spec, FillRule::NonZero);
    for r in 0..10 {
        for c in 0..8 {
            assert!(result.at(r, c));
        }
    }
}

#[test]
fn test_square_exact_mask_even_odd() {
    let poly = poly_of_ints(&[0, 0, 8, 0, 8, 10, 0, 10]);
    let spec = CanvasSpec::new(8, 10);
    let result = polygon_interior(poly, spec, FillRule::EvenOdd);
    for r in 0..10 {
        for c in 0..8 {
            assert!(result.at(r, c));
        }
    }
}

#[test]
fn test_triangle_narrows_toward_top_left() {
    // triangle (0,0)-(8,0)-(8,10): (row 0, col 1) is interior while
    // (row 9, col 0) is exterior
    let poly = poly_of_ints(&[0, 0, 8, 0, 8, 10]);
    let spec = CanvasSpec::new(8, 10);
    let result = polygon_interior(poly, spec, FillRule::NonZero);
    assert!(result.at(0, 1));
    assert!(!result.at(9, 0));
}

#[test]
fn test_fractional_vertices_round_exactly() {
    // a square from x,y = 1/2 to 15/2: rows ceil(0.5)=1 .. floor(7.5)=7,
    // columns ceil(0.5)=1 .. ceil(7.5)=8 exclusive
    let h = Rat::new(1, 2);
    let w = Rat::new(15, 2);
    let poly = Polygon::from_vec(vec![h, h, w, h, w, w, h, w]).unwrap();
    let spec = CanvasSpec::new(10, 10);
    let result = polygon_interior(poly, spec, FillRule::NonZero);
    for r in 0..10 {
        for c in 0..10 {
            let expect = (1..=7).contains(&r) && (1..=7).contains(&c);
            assert_eq!(result.at(r, c), expect);
        }
    }
}

#[test]
fn test_fill_rule_check() {
    assert!(FillRule::NonZero.check(-2));
    assert!(!FillRule::NonZero.check(0));
    assert!(FillRule::EvenOdd.check(3));
    assert!(FillRule::EvenOdd.check(-3));
    assert!(!FillRule::EvenOdd.check(2));
    assert!(!FillRule::EvenOdd.check(0));
}
