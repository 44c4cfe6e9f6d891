//! The core of a Mandelbrot rasterizer, without its floating-point
//! arithmetic: the parsing of the arguments, the counting of the steps of
//! the escape-time iteration, the shading of a pixel grid from escape times,
//! the split of an image into horizontal bands that are rendered apart, and
//! the finished buffer as the bytes of a PNG file.

pub mod bands;
pub mod dispatch;
pub mod escape;
pub mod parse;
pub mod raster;
pub mod sink;
