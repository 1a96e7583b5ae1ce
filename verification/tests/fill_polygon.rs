use image::Rgba;
use image::RgbaImage;
use palette::blend::Blend;
use palette::rgb::LinSrgba;
use palette::Srgba;
use polygon_canvas::interior_spans;
use polygon_canvas::CanvasSpec;
use polygon_canvas::FillRule;
use polygon_canvas::Polygon;
use polygon_canvas::Rat;

/// Blends the polygon's fill color into the image over the verified
/// interior spans, multiply-compositing in linear color space.
fn fill_polygon(canvas: &mut RgbaImage, poly: &Polygon<Rat>, color: LinSrgba<f64>, rule: FillRule) {
    let spec = CanvasSpec::new(canvas.width() as usize, canvas.height() as usize);
    let spans = interior_spans(poly.clone(), spec, rule);
    for (row, ranges) in spans.iter().enumerate() {
        for &(lo, hi) in ranges.iter() {
            for col in lo..hi {
                let pixel = canvas.get_pixel_mut(col as u32, row as u32);
                let bg: LinSrgba<f64> =
                    Srgba::new(pixel.0[0], pixel.0[1], pixel.0[2], pixel.0[3]).into_linear();
                let blended = bg.multiply(color);
                let out: Srgba<u8> = Srgba::from_linear(blended);
                pixel.0 = [out.red, out.green, out.blue, out.alpha];
            }
        }
    }
}

fn assert_color_at(img: &RgbaImage, row: u32, col: u32, color: &LinSrgba<f64>) {
    let p = img.get_pixel(col, row);
    let linear: LinSrgba<f64> = Srgba::new(p.0[0], p.0[1], p.0[2], p.0[3]).into_linear();
    assert!((linear.red - color.red).abs() < 1e-6);
    assert!((linear.green - color.green).abs() < 1e-6);
    assert!((linear.blue - color.blue).abs() < 1e-6);
    assert!((linear.alpha - color.alpha).abs() < 1e-6);
}

fn empty_image() -> RgbaImage {
    RgbaImage::from_pixel(30, 20, Rgba([255, 255, 255, 255]))
}

fn poly_of_ints(coords: &[i64]) -> Polygon<Rat> {
    let v: Vec<Rat> = coords.iter().map(|&c| Rat::new(c, 1)).collect();
    Polygon::from_vec(v).unwrap()
}

#[test]
fn fill_polygon_test_scanline_full_float() {
    let poly = poly_of_ints(&[0, 0, 8, 0, 8, 10, 0, 10]);
    let black = LinSrgba::new(0f64, 0f64, 0f64, 1f64);
    let mut canvas = empty_image();
    fill_polygon(&mut canvas, &poly, black, FillRule::NonZero);
    assert_color_at(&canvas, 0, 0, &black);
    assert_color_at(&canvas, 9, 0, &black);
    assert_color_at(&canvas, 5, 5, &black);
    assert_color_at(&canvas, 0, 7, &black);
}

#[test]
fn fill_polygon_test_scanline_full_int() {
    let poly = poly_of_ints(&[0, 0, 8, 0, 8, 10, 0, 10]);
    let black = LinSrgba::new(0f64, 0f64, 0f64, 1f64);
    let mut canvas = empty_image();
    fill_polygon(&mut canvas, &poly, black, FillRule::NonZero);
    assert_color_at(&canvas, 0, 0, &black);
    assert_color_at(&canvas, 9, 0, &black);
    assert_color_at(&canvas, 5, 5, &black);
    assert_color_at(&canvas, 0, 7, &black);
}

#[test]
fn fill_polygon_test_scanline_triangle_float() {
    // lower triangle
    let poly = poly_of_ints(&[0, 0, 8, 0, 8, 10]);
    let black = LinSrgba::new(0f64, 0f64, 0f64, 1f64);
    let white = LinSrgba::new(1f64, 1f64, 1f64, 1f64);
    let mut canvas = empty_image();
    fill_polygon(&mut canvas, &poly, black, FillRule::NonZero);
    assert_color_at(&canvas, 0, 0, &black);
    assert_color_at(&canvas, 9, 0, &white);
    assert_color_at(&canvas, 5, 5, &black);
    assert_color_at(&canvas, 0, 7, &black);
}

#[test]
fn fill_polygon_test_scanline_triangle_int() {
    let poly = poly_of_ints(&[0, 0, 8, 0, 8, 10]);
    let black = LinSrgba::new(0f64, 0f64, 0f64, 1f64);
    let white = LinSrgba::new(1f64, 1f64, 1f64, 1f64);
    let mut canvas = empty_image();
    fill_polygon(&mut canvas, &poly, black, FillRule::NonZero);
    assert_color_at(&canvas, 0, 1, &black);
    assert_color_at(&canvas, 9, 0, &white);
    assert_color_at(&canvas, 5, 5, &black);
    assert_color_at(&canvas, 8, 7, &black);
}

#[test]
fn test_scanline_rule_non_zero() {
    let poly = poly_of_ints(&[0, 0, 20, 0, 3, 15, 13, 3, 8, 3, 18, 15]);
    let black = LinSrgba::new(0f64, 0f64, 0f64, 1f64);
    let mut canvas = empty_image();
    fill_polygon(&mut canvas, &poly, black, FillRule::NonZero);
    // no hole in the self-intersect area
    assert_color_at(&canvas, 7, 10, &black);
}

#[test]
fn test_scanline_rule_even_odd() {
    let poly = poly_of_ints(&[0, 0, 20, 0, 3, 15, 13, 3, 8, 3, 18, 15]);
    let black = LinSrgba::new(0f64, 0f64, 0f64, 1f64);
    let white = LinSrgba::new(1f64, 1f64, 1f64, 1f64);
    let mut canvas = empty_image();
    fill_polygon(&mut canvas, &poly, black, FillRule::EvenOdd);
    // the self-overlap region loses its parity and stays unfilled
    assert_color_at(&canvas, 7, 10, &white);
}

#[test]
fn test_blending() {
    let square_left = poly_of_ints(&[0, 0, 20, 0, 20, 10, 0, 10]);
    let square_right = poly_of_ints(&[10, 0, 30, 0, 30, 10, 0, 10]);
    let white = LinSrgba::new(1f64, 1f64, 1f64, 1f64);
    let red = LinSrgba::new(1f64, 0f64, 0f64, 1f64);
    let green = LinSrgba::new(0f64, 1f64, 0f64, 1f64);
    let mut canvas = empty_image();
    fill_polygon(&mut canvas, &square_left, red, FillRule::EvenOdd);
    assert_color_at(&canvas, 5, 15, &white.multiply(red));
    fill_polygon(&mut canvas, &square_right, green, FillRule::EvenOdd);
    assert_color_at(&canvas, 5, 15, &white.multiply(red).multiply(green));
}
