//! The PPM and PAM image encoder's handle.
use vstd::prelude::*;

verus! {

/// An encoder of PPM and PAM images. It holds no state of its own.
#[derive(Copy, Clone, Default)]
pub struct PPMEncoder;

impl PPMEncoder {
    /// A new encoder.
    pub fn new() -> (r: PPMEncoder)
        ensures
            r == PPMEncoder,
    {
        PPMEncoder {  }
    }
}

} // verus!
