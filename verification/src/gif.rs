//! Errors of GIF decoding.
use vstd::prelude::*;
use vstd::std_specs::convert::FromSpecImpl;

verus! {

/// What can go wrong while a GIF file is decoded.
#[derive(Debug)]
pub enum GifDecoderErrors {
    /// File is not a gif
    NotAGif,
    /// A generic error
    Static(&'static str),
    /// Too large dimensions for width or height: which of the two, the
    /// limit, and the value found
    TooLargeDimensions(&'static str, usize, usize),
}

impl From<&'static str> for GifDecoderErrors {
    fn from(value: &'static str) -> (r: Self) {
        Self::Static(value)
    }
}

impl FromSpecImpl<&'static str> for GifDecoderErrors {
    open spec fn obeys_from_spec() -> bool {
        true
    }

    open spec fn from_spec(value: &'static str) -> Self {
        GifDecoderErrors::Static(value)
    }
}

} // verus!
