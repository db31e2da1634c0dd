//! The size at which a frame is handed to the face locator.
//!
//! The detection network takes a square input. A frame is brought down by
//! one factor for both sides, the side of the square over the longer side of
//! the frame: the longer side becomes the side of the square, and the
//! shorter side what keeps the frame's shape.

use crate::geometry::FrameSize;
use crate::rounding::{magnitude, magnitude_of, saturate, signed_saturated};
use vstd::arithmetic::div_mod::{lemma_div_multiples_vanish, lemma_fundamental_div_mod};
use vstd::prelude::*;

verus! {

/// The side of the square that the detection network takes.
pub const NETWORK_SIDE: u32 = 300;

/// `extent` times `NETWORK_SIDE` over `longer`, its fraction dropped, as a
/// 32-bit signed number: the nearest one where the quotient is out of range.
/// Over a `longer` of zero an extent of zero gives 0, and any other the
/// bound of its sign.
pub open spec fn fitted_extent(extent: int, longer: int) -> int {
    if longer == 0 {
        if extent == 0 {
            0
        } else if extent < 0 {
            -0x8000_0000
        } else {
            0x7fff_ffff
        }
    } else {
        signed_saturated(
            (extent < 0) != (longer < 0),
            magnitude_of(extent) * NETWORK_SIDE as nat / magnitude_of(longer),
        )
    }
}

/// The longer side of a frame.
pub open spec fn longer_side(frame: FrameSize) -> int {
    if frame.width > frame.height {
        frame.width as int
    } else {
        frame.height as int
    }
}

/// The size at which a frame goes into the network.
pub open spec fn fitted_size(frame: FrameSize) -> FrameSize {
    FrameSize {
        width: fitted_extent(frame.width as int, longer_side(frame)) as i32,
        height: fitted_extent(frame.height as int, longer_side(frame)) as i32,
    }
}

/// Computes `fitted_extent`.
pub fn fit_extent(extent: i32, longer: i32) -> (r: i32)
    ensures
        r == fitted_extent(extent as int, longer as int),
{
    if longer == 0 {
        return if extent == 0 {
            0
        } else if extent < 0 {
            i32::MIN
        } else {
            i32::MAX
        };
    }
    let size: u128 = magnitude(extent);
    let side: u128 = magnitude(longer);
    let quotient: u128 = size * (NETWORK_SIDE as u128) / side;
    assert(quotient <= size * NETWORK_SIDE) by {
        vstd::arithmetic::div_mod::lemma_div_is_ordered_by_denominator(
            (size * NETWORK_SIDE) as int,
            1,
            side as int,
        );
    }
    saturate((extent < 0) != (longer < 0), quotient as u64)
}

/// The size at which a frame goes into the network: both sides times the
/// side of the network's square over the longer side.
pub fn input_size(frame: FrameSize) -> (r: FrameSize)
    ensures
        r == fitted_size(frame),
{
    let longer: i32 = if frame.width > frame.height {
        frame.width
    } else {
        frame.height
    };
    FrameSize { width: fit_extent(frame.width, longer), height: fit_extent(frame.height, longer) }
}

/// A frame that is not empty goes into the network with its longer side
/// exactly the side of the network's square, and its shorter side in the
/// same proportion, the fraction of a pixel dropped.
pub proof fn lemma_fitted_size_keeps_the_shape(frame: FrameSize)
    requires
        frame.width >= 0,
        frame.height >= 0,
        longer_side(frame) > 0,
    ensures
        ({
            let fitted = fitted_size(frame);
            let longer = longer_side(frame);
            &&& frame.width >= frame.height ==> fitted.width == NETWORK_SIDE
            &&& frame.height >= frame.width ==> fitted.height == NETWORK_SIDE
            &&& 0 <= fitted.width <= NETWORK_SIDE
            &&& 0 <= fitted.height <= NETWORK_SIDE
            &&& fitted.width * longer <= frame.width * NETWORK_SIDE < (fitted.width + 1) * longer
            &&& fitted.height * longer <= frame.height * NETWORK_SIDE < (fitted.height + 1)
                * longer
        }),
{
    let longer = longer_side(frame);
    lemma_fitted_extent_in_proportion(frame.width as int, longer);
    lemma_fitted_extent_in_proportion(frame.height as int, longer);
}

/// An extent within the longer side is fitted in proportion: to the side of
/// the network's square times the extent over the longer side, the fraction
/// dropped. The longer side itself is fitted to the side of the square.
pub proof fn lemma_fitted_extent_in_proportion(extent: int, longer: int)
    requires
        0 <= extent <= longer,
        0 < longer <= i32::MAX,
    ensures
        0 <= fitted_extent(extent, longer) <= NETWORK_SIDE,
        fitted_extent(extent, longer) * longer <= extent * NETWORK_SIDE < (fitted_extent(
            extent,
            longer,
        ) + 1) * longer,
        extent == longer ==> fitted_extent(extent, longer) == NETWORK_SIDE,
{
    let scaled = extent * NETWORK_SIDE;
    let quotient = scaled / longer;
    lemma_fundamental_div_mod(scaled, longer);
    assert(longer * quotient == quotient * longer) by (nonlinear_arith);
    assert((quotient + 1) * longer == quotient * longer + longer) by (nonlinear_arith);
    assert(quotient <= NETWORK_SIDE) by (nonlinear_arith)
        requires
            quotient * longer <= extent * NETWORK_SIDE,
            extent <= longer,
            longer > 0,
    ;
    assert(quotient >= 0) by (nonlinear_arith)
        requires
            (quotient + 1) * longer > extent * NETWORK_SIDE,
            extent >= 0,
            longer > 0,
    ;
    if extent == longer {
        lemma_div_multiples_vanish(NETWORK_SIDE as int, longer);
        assert(NETWORK_SIDE * longer == longer * NETWORK_SIDE) by (nonlinear_arith);
    }
}

} // verus!
