//! Passive geometric value types: points, line segments, polygons.

pub mod line;
pub mod point;
pub mod polygon;

pub use line::Line;
pub use point::Point;
pub use polygon::Polygon;
