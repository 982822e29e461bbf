//! A minimal PNG container codec: chunk framing with CRC-32 trailers, the
//! IHDR-first / IEND-last chunk stream, and a one-bit pixel accessor.

pub mod bytes;
pub mod checksum;
pub mod chunk;
pub mod colour;
pub mod decode;
pub mod deflate;
pub mod encode;
pub mod image;
pub mod laws;

pub use chunk::{Chunk, Data};
pub use colour::ColourType;
pub use decode::FormatError;
pub use image::PNG;
