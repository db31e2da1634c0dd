//! Sizes and regions in whole pixels.

use vstd::prelude::*;

verus! {

/// The size of a frame in pixels.
#[derive(Clone, Copy, Debug, PartialEq, Eq, Structural)]
pub struct FrameSize {
    pub width: i32,
    pub height: i32,
}

/// A face's bounding box in the pixels of a frame. A box that the detector
/// reports with its right edge left of its left edge has a negative width;
/// nothing here mends it.
#[derive(Clone, Copy, Debug, PartialEq, Eq, Structural)]
pub struct FaceRegion {
    pub x: i32,
    pub y: i32,
    pub width: i32,
    pub height: i32,
}

} // verus!
