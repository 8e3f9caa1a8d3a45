//! DEFLATE and zlib decompression with machine-checked contracts.
//!
//! [`DeflateDecoder`] decodes a raw DEFLATE stream (RFC 1951) or a zlib
//! stream (RFC 1950) that is held in memory as a whole. What it returns is
//! stated against the stream formats as [`grammar`] writes them down: the
//! output is the one the format defines, and each error comes exactly for
//! the streams that have it.
pub mod adler;
pub mod bits;
pub mod bitstream;
pub mod builder;
pub mod decoder;
pub mod entries;
pub mod errors;
pub mod gif;
pub mod grammar;
pub mod grayscale;
pub mod header;
pub mod huffman;
pub mod inflate;
pub mod lookup;
pub mod output;
pub mod png;
pub mod ppm;
pub mod prefix;
pub mod stored;
pub mod symbols;
pub mod table;
pub mod walk;

pub use crate::decoder::DeflateDecoder;
pub use crate::errors::ZlibDecodeErrors;
pub use crate::gif::GifDecoderErrors;
pub use crate::grayscale::RgbToGrayScale;
pub use crate::png::PngInfo;
pub use crate::ppm::PPMEncoder;
