//! What the header of a PNG image says about it.
use vstd::prelude::*;

verus! {

/// The colour type of a PNG image.
#[derive(Clone, Copy, Debug, Default, PartialEq, Eq, Structural)]
pub enum PngColor {
    Palette,
    Luma,
    LumaA,
    RGB,
    RGBA,
    #[default]
    Unknown,
}

/// The filter method of a PNG image.
#[derive(Clone, Copy, Debug, Default, PartialEq, Eq, Structural)]
pub enum FilterMethod {
    NoFilter,
    Sub,
    Up,
    Average,
    Paeth,
    #[default]
    Unknown,
}

/// The interlace method of a PNG image.
#[derive(Clone, Copy, Debug, Default, PartialEq, Eq, Structural)]
pub enum InterlaceMethod {
    Standard,
    Adam7,
    #[default]
    Unknown,
}

/// The fields of the image header.
#[derive(Default, Debug)]
pub struct PngInfo {
    pub width: usize,
    pub height: usize,
    pub depth: u8,
    pub color: PngColor,
    pub component: u8,
    pub filter_method: FilterMethod,
    pub interlace_method: InterlaceMethod,
}

impl PngInfo {
    /// The number of bits of one row of samples.
    pub open spec fn row_bits(&self) -> int {
        self.component * self.width * self.depth
    }

    /// The number of bytes of one row: a filter byte and the samples,
    /// rounded up to whole bytes.
    pub open spec fn row_bytes(&self) -> int {
        (self.row_bits() + 7) / 8 + 1
    }

    /// The number of bytes that the decompressed image data must have at
    /// least: `row_bytes` for every row. `None` where a step of the
    /// computation does not fit the machine word.
    pub fn min_data_len(&self) -> (r: Option<usize>)
        ensures
            r matches Some(n) ==> n == self.row_bytes() * self.height,
            r is None <==> (self.component * self.width > usize::MAX || self.row_bits() + 7
                > usize::MAX || self.row_bytes() * self.height > usize::MAX),
    {
        let samples: usize = match (self.component as usize).checked_mul(self.width) {
            Some(v) => v,
            None => {
                return None;
            },
        };
        let bits: usize = match samples.checked_mul(self.depth as usize) {
            Some(v) => v,
            None => {
                return None;
            },
        };
        let padded: usize = match bits.checked_add(7) {
            Some(v) => v,
            None => {
                return None;
            },
        };
        proof {
            assert(padded >> 3 == padded / 8) by (bit_vector);
        }
        let row: usize = (padded >> 3) + 1;
        row.checked_mul(self.height)
    }
}

} // verus!
