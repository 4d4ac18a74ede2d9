//! Converters that turn SVG markup and raster pixel buffers into `data:` URI
//! strings for inline embedding.

pub mod raster;
pub mod svg;

pub use raster::image_to_jpeg_data_uri;
pub use raster::image_to_png_data_uri;
pub use raster::ColorKind;
pub use raster::EncodeError;
pub use raster::PixelBuffer;
pub use svg::svg_str_to_data_uri;
