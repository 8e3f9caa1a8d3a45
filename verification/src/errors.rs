//! The ways a decode can fail.
use vstd::prelude::*;

verus! {

/// Why a DEFLATE or zlib stream could not be decoded.
///
/// Every failure aborts the whole decode; no partial output is handed out.
#[derive(Clone, Copy, Debug, PartialEq, Eq, Structural)]
pub enum ZlibDecodeErrors {
    /// The input ended while the grammar still required bits.
    InsufficientData,
    /// The input violates the DEFLATE grammar: a reserved block type, a
    /// stored length that disagrees with its complement, a code that is
    /// overfull or incomplete, a repeat without a length to repeat or past
    /// the last length, a reserved symbol, or a match that begins before
    /// the output does.
    CorruptData,
    /// The two-byte zlib header is invalid or asks for something
    /// unsupported.
    HeaderError,
    /// The Adler-32 trailer disagrees with the decoded bytes.
    ChecksumMismatch,
}

impl ZlibDecodeErrors {
    /// The description of each error.
    pub open spec fn description(self) -> &'static str {
        match self {
            ZlibDecodeErrors::InsufficientData => "insufficient data: the stream ended early",
            ZlibDecodeErrors::CorruptData => "corrupt data: the stream violates the DEFLATE grammar",
            ZlibDecodeErrors::HeaderError => "header error: invalid or unsupported zlib header",
            ZlibDecodeErrors::ChecksumMismatch => "checksum mismatch: Adler-32 trailer does not match",
        }
    }

    /// A short human-readable description of the failure.
    pub fn message(&self) -> (s: &'static str)
        ensures
            s == self.description(),
    {
        match self {
            ZlibDecodeErrors::InsufficientData => "insufficient data: the stream ended early",
            ZlibDecodeErrors::CorruptData => "corrupt data: the stream violates the DEFLATE grammar",
            ZlibDecodeErrors::HeaderError => "header error: invalid or unsupported zlib header",
            ZlibDecodeErrors::ChecksumMismatch => "checksum mismatch: Adler-32 trailer does not match",
        }
    }
}

} // verus!
