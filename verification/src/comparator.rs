//! The decision on a distance between two embeddings.
//!
//! Two embeddings match where their Euclidean distance, a double-precision
//! number, is less than a fixed threshold. The decision picks the colour in
//! which a face is framed.

use crate::double::{exponent, is_finite, is_negative, less_than, lt, significand, PRECISION};
use crate::rounding::{lemma_bit_length_unique, normalizing_shift, rounded_quotient};
use vstd::arithmetic::power2::{lemma2_to64, lemma2_to64_rest};
use vstd::prelude::*;

verus! {

/// The bits of `0.07`, the distance under which two embeddings match.
pub const MATCH_THRESHOLD: u64 = 0x3fb1_eb85_1eb8_51ec;

/// The outcome of comparing a face with the reference: the distance, as the
/// bits of a double-precision number, and whether it counts as a match.
#[derive(Clone, Copy, Debug, PartialEq, Eq, Structural)]
pub struct MatchDecision {
    pub distance: u64,
    pub is_match: bool,
}

/// The colour of a face's frame and caption.
#[derive(Clone, Copy, Debug, PartialEq, Eq, Structural)]
pub enum OverlayColor {
    Green,
    Red,
}

/// A colour as blue, green, red and alpha, each from 0 to 255.
#[derive(Clone, Copy, Debug, PartialEq, Eq, Structural)]
pub struct Channels {
    pub blue: u8,
    pub green: u8,
    pub red: u8,
    pub alpha: u8,
}

/// Whether a distance counts as a match: it is a number, and strictly less
/// than the threshold.
pub open spec fn is_match(distance: u64) -> bool {
    less_than(distance, MATCH_THRESHOLD)
}

/// The colour that shows a decision: green for a match, red otherwise.
pub open spec fn color_for(matched: bool) -> OverlayColor {
    if matched {
        OverlayColor::Green
    } else {
        OverlayColor::Red
    }
}

/// The channels of a colour.
pub open spec fn channels_of(color: OverlayColor) -> Channels {
    match color {
        OverlayColor::Green => Channels { blue: 0, green: 255, red: 0, alpha: 255 },
        OverlayColor::Red => Channels { blue: 0, green: 0, red: 255, alpha: 255 },
    }
}

impl MatchDecision {
    /// The decision on a distance.
    pub fn of_distance(distance: u64) -> (decision: MatchDecision)
        ensures
            decision.distance == distance,
            decision.is_match == is_match(distance),
    {
        MatchDecision { distance, is_match: lt(distance, MATCH_THRESHOLD) }
    }

    /// The colour in which the decision is shown.
    pub fn color(&self) -> (color: OverlayColor)
        ensures
            color == color_for(self.is_match),
    {
        if self.is_match {
            OverlayColor::Green
        } else {
            OverlayColor::Red
        }
    }
}

impl OverlayColor {
    /// The channels of the colour.
    pub fn channels(&self) -> (channels: Channels)
        ensures
            channels == channels_of(*self),
    {
        match self {
            OverlayColor::Green => Channels { blue: 0, green: 255, red: 0, alpha: 255 },
            OverlayColor::Red => Channels { blue: 0, green: 0, red: 255, alpha: 255 },
        }
    }
}

/// The threshold is seven hundredths as double precision has it: a
/// positive finite number whose significand is 7 over 100 rounded to the
/// digits of double precision.
pub proof fn lemma_threshold_is_seven_hundredths()
    ensures
        is_finite(MATCH_THRESHOLD),
        !is_negative(MATCH_THRESHOLD),
        significand(MATCH_THRESHOLD) == rounded_quotient(7, 100, PRECISION as nat),
        exponent(MATCH_THRESHOLD) == -(normalizing_shift(7, 100, PRECISION as nat) as int),
{
    lemma2_to64();
    lemma2_to64_rest();
    lemma_bit_length_unique(7, 3);
    lemma_bit_length_unique(100, 7);
    assert(normalizing_shift(7, 100, 53) == 56);
}

} // verus!
