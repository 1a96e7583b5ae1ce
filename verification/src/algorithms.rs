//! The rasterization algorithms: the scan-line sweep that produces a
//! boolean interior mask, and the span extraction used to fill polygons
//! into color surfaces.

pub mod fill_polygon;
pub mod scan_line;

pub use scan_line::FillRule;
