//! A small software renderer: a parser for the Wavefront mesh and material
//! formats, and integer rasterizers (lines and depth-tested flat-shaded
//! triangles) that draw into an RGBA frame buffer.
//!
//! Floating-point work (projection from normalized space, face shading and
//! vertex normalization) is done by the caller; this library takes integer
//! screen coordinates, fixed-point depths and 8-bit intensities, and keeps
//! the numeric fields of the file formats as text, each checked to be a
//! well-formed number.

pub mod framebuf;
pub mod line;
pub mod mtl;
pub mod obj;
pub mod raster;
pub mod render;
pub mod text;
