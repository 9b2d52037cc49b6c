//! The integer core of a tiled ray-tracing renderer.
//!
//! A render computes a colour for every pixel of an image. The work is shared
//! by cutting the image into rectangular chunks, one unit of work each, and
//! the colours that were computed for the chunks are then placed into one
//! pixel buffer.
//!
//! * [`chunks`] cuts an image into chunks, with the proof that the chunks
//!   cover every pixel exactly once, and fixes the order in which the pixels
//!   of a chunk are rendered.
//! * [`raster`] holds the pixel buffer and places colours into it, with the
//!   proof that after a render every pixel has the colour that was computed
//!   for it.
//!
//! The library holds no floating-point numbers: the colours it is given are
//! the bytes that the renderer has arrived at.

pub mod chunks;
pub mod raster;
