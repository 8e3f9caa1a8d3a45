//! The conversion of RGB data to grayscale: its settings and what it does
//! to an image of a given layout.
use vstd::prelude::*;

verus! {

/// What the conversion does to an image.
#[derive(Clone, Copy, Debug, PartialEq, Eq, Structural)]
pub enum GrayscaleStep {
    /// The image is in grayscale already and is left as it is.
    Skip,
    /// The three colour channels become one luma channel.
    ToLuma,
    /// The three colour channels become one luma channel and the alpha
    /// channel stays.
    ToLumaAlpha,
}

/// Convert RGB data to grayscale.
///
/// This converts any image that holds three colour channels, with or
/// without a fourth channel, into grayscale.
pub struct RgbToGrayScale {
    pub preserve_alpha: bool,
}

impl RgbToGrayScale {
    /// A conversion that drops the alpha channel.
    pub fn new() -> (r: RgbToGrayScale)
        ensures
            !r.preserve_alpha,
    {
        RgbToGrayScale { preserve_alpha: false }
    }

    /// Says whether the conversion keeps the alpha channel.
    pub fn preserve_alpha(self, yes: bool) -> (r: RgbToGrayScale)
        ensures
            r.preserve_alpha == yes,
    {
        let mut this = self;
        this.preserve_alpha = yes;
        this
    }

    /// What the conversion does to an image that is in grayscale already
    /// (`is_luma`) or else holds `channels` separate channels. An image of
    /// any other layout than three or four channels cannot be converted.
    pub fn step_for(&self, is_luma: bool, channels: usize) -> (r: Option<GrayscaleStep>)
        ensures
            r == if is_luma {
                Some(GrayscaleStep::Skip)
            } else if channels == 3 {
                Some(GrayscaleStep::ToLuma)
            } else if channels == 4 {
                Some(
                    if self.preserve_alpha {
                        GrayscaleStep::ToLumaAlpha
                    } else {
                        GrayscaleStep::ToLuma
                    },
                )
            } else {
                None
            },
    {
        if is_luma {
            Some(GrayscaleStep::Skip)
        } else if channels == 3 {
            Some(GrayscaleStep::ToLuma)
        } else if channels == 4 {
            if self.preserve_alpha {
                Some(GrayscaleStep::ToLumaAlpha)
            } else {
                Some(GrayscaleStep::ToLuma)
            }
        } else {
            None
        }
    }
}

} // verus!
