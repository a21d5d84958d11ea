//! One captured frame.

use crate::capture::DamageRegion;
use vstd::prelude::*;

verus! {

/// RGBA pixels, row by row, and what the compositor says was redrawn. An empty
/// list of regions says nothing about what was redrawn.
pub struct Frame {
    pub rgba: Vec<u8>,
    pub width: u32,
    pub height: u32,
    pub damage_regions: Vec<DamageRegion>,
}

impl Frame {
    /// The frame has pixels, all of them are there, and byte offsets into them
    /// fit a `u32`.
    pub open spec fn complete(self) -> bool {
        &&& 1 <= self.width
        &&& 1 <= self.height
        &&& self.width * self.height * 4 <= u32::MAX
        &&& self.width * self.height * 4 <= self.rgba@.len()
    }

    /// The frame is complete and its sides fit the sixteen bits that the wire
    /// format has for them.
    pub open spec fn streamable(self) -> bool {
        &&& self.complete()
        &&& self.width <= 0xffff
        &&& self.height <= 0xffff
    }

    pub fn new(rgba: Vec<u8>, width: u32, height: u32, damage_regions: Vec<DamageRegion>) -> (f: Self)
        ensures
            f == (Frame { rgba, width, height, damage_regions }),
    {
        Frame { rgba, width, height, damage_regions }
    }

    /// Whether the frame can be streamed.
    pub fn is_streamable(&self) -> (b: bool)
        ensures
            b == self.streamable(),
    {
        if self.width == 0 || self.height == 0 || self.width > 0xffff || self.height > 0xffff {
            return false;
        }
        assert(self.width * self.height <= 0xffff * 0xffff) by (nonlinear_arith)
            requires
                self.width <= 0xffff,
                self.height <= 0xffff,
        ;
        let bytes: u64 = self.width as u64 * self.height as u64 * 4;
        bytes <= u32::MAX as u64 && bytes <= self.rgba.len() as u64
    }
}

} // verus!
