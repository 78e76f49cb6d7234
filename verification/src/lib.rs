//! Compositing engine for overlaying a logo raster onto a base raster.
//!
//! The engine is a pure pixel transform: it scales the logo to a target
//! size derived from the base, fades its alpha channel by a requested
//! opacity, places it at a corner anchor, and alpha-blends it over the
//! base in place. Decoding, encoding and every other kind of I/O belong
//! to the callers.

pub mod compositor;
pub mod format;
pub mod laws;
pub mod params;
pub mod raster;

pub use compositor::{
    adjust_opacity, composite_logo, overlay, placement_coords, scale_logo, CompositeError,
};
pub use format::{infer_format_from_extension, OutputFormat};
pub use params::{default_margin, default_position, parse_position, CompositeOptions, Position};
pub use raster::Raster;
