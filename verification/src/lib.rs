//! Scan-line polygon rasterization.
//!
//! Turns an ordered sequence of 2D vertices into exact per-pixel
//! inside/outside decisions under either the non-zero-winding or the
//! even-odd fill rule.  Coordinates are exact rationals, so every rounding
//! decision at a row or column boundary is precise; self-intersecting and
//! concave polygons are resolved correctly rather than rejected.

pub mod algorithms;
pub mod canvas;
pub mod geometry;
pub mod nums;

pub use algorithms::fill_polygon::interior_spans;
pub use algorithms::scan_line::polygon_interior;
pub use algorithms::FillRule;
pub use canvas::CanvasSpec;
pub use canvas::Mask;
pub use geometry::Line;
pub use geometry::Point;
pub use geometry::Polygon;
pub use nums::Rat;
pub use nums::Round;
pub use nums::RoundToUsize;
