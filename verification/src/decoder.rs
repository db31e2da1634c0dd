//! Decoding of the face locator's output into face regions.
//!
//! The locator answers with rows of seven single-precision numbers, one row
//! per candidate, the most confident first. A row's third number is the
//! confidence, the next four are the left, top, right and bottom edge as
//! fractions of the frame. A confidence of zero ends the list; a candidate
//! under one half is passed over; the others become regions in pixels, in
//! the order of the rows.

use crate::geometry::{FaceRegion, FrameSize};
use crate::single::{
    is_nan, is_zero, lemma_scaled_extent_is_not_negative, lemma_scaled_extent_stays_within,
    lemma_zero_scales_to_zero, less_than, lt, max, maximum, min, minimum, scale_extent,
    scaled_extent, HALF, ONE,
};
use vstd::prelude::*;

verus! {

/// How many numbers a candidate's row holds.
pub const ROW: usize = 7;

/// Where in a row the confidence stands.
pub const CONFIDENCE: usize = 2;

/// Where in a row the left edge stands.
pub const LEFT: usize = 3;

/// Where in a row the top edge stands.
pub const TOP: usize = 4;

/// Where in a row the right edge stands.
pub const RIGHT: usize = 5;

/// Where in a row the bottom edge stands.
pub const BOTTOM: usize = 6;

/// One candidate of the locator: five single-precision numbers, as bits.
#[derive(Clone, Copy, Debug, PartialEq, Eq, Structural)]
pub struct DetectionCandidate {
    pub confidence: u32,
    pub left: u32,
    pub top: u32,
    pub right: u32,
    pub bottom: u32,
}

/// What the scan does at a candidate.
#[derive(Clone, Copy, Debug, PartialEq, Eq, Structural)]
pub enum ScanStep {
    /// The list ends here: this candidate and all after it are not read.
    Stop,
    /// The candidate is passed over and the scan goes on.
    Skip,
    /// The candidate becomes a region.
    Accept,
}

/// What a confidence asks of the scan: zero stops it, less than one half is
/// skipped, anything else is accepted (so is a confidence that holds no
/// number, which is not less than anything).
pub open spec fn step_for(confidence: u32) -> ScanStep {
    if is_zero(confidence) {
        ScanStep::Stop
    } else if less_than(confidence, HALF) {
        ScanStep::Skip
    } else {
        ScanStep::Accept
    }
}

/// The region of a candidate in a frame. The left and top edge are raised to
/// zero and the right and bottom edge lowered to one, then each is
/// multiplied by the frame's width or height. Width and height are the
/// differences of the edges in pixels, wrapped to 32 bits.
pub open spec fn region_of(c: DetectionCandidate, frame: FrameSize) -> FaceRegion {
    let x = scaled_extent(frame.width as int, maximum(c.left, 0)) as i32;
    let y = scaled_extent(frame.height as int, maximum(c.top, 0)) as i32;
    let right = scaled_extent(frame.width as int, minimum(c.right, ONE)) as i32;
    let bottom = scaled_extent(frame.height as int, minimum(c.bottom, ONE)) as i32;
    FaceRegion {
        x,
        y,
        width: vstd::wrapping::i32_specs::wrapping_sub(right, x),
        height: vstd::wrapping::i32_specs::wrapping_sub(bottom, y),
    }
}

/// The candidate in row `index` of the locator's output.
pub open spec fn candidate_in(raw: Seq<u32>, index: int) -> DetectionCandidate {
    DetectionCandidate {
        confidence: raw[ROW * index + CONFIDENCE],
        left: raw[ROW * index + LEFT],
        top: raw[ROW * index + TOP],
        right: raw[ROW * index + RIGHT],
        bottom: raw[ROW * index + BOTTOM],
    }
}

/// The candidates of the locator's output: one for each full row.
pub open spec fn candidates_of(raw: Seq<u32>) -> Seq<DetectionCandidate> {
    Seq::new(raw.len() / (ROW as nat), |index: int| candidate_in(raw, index))
}

/// How many candidates the scan reads before it stops: the place of the
/// first confidence of zero, or the number of candidates where there is
/// none.
pub open spec fn scan_length(candidates: Seq<DetectionCandidate>) -> nat
    decreases candidates.len(),
{
    if candidates.len() == 0 || is_zero(candidates[0].confidence) {
        0
    } else {
        1 + scan_length(candidates.drop_first())
    }
}

/// The test that a candidate passes to become a region.
pub open spec fn accepts() -> spec_fn(DetectionCandidate) -> bool {
    |c: DetectionCandidate| step_for(c.confidence) == ScanStep::Accept
}

/// The map from a candidate to its region in `frame`.
pub open spec fn places(frame: FrameSize) -> spec_fn(DetectionCandidate) -> FaceRegion {
    |c: DetectionCandidate| region_of(c, frame)
}

/// The regions that a list of candidates decodes to: of the candidates
/// before the first confidence of zero, those that are accepted, each as its
/// region, in their order.
pub open spec fn decoded(candidates: Seq<DetectionCandidate>, frame: FrameSize) -> Seq<
    FaceRegion,
> {
    candidates.take(scan_length(candidates) as int).filter(accepts()).map_values(places(frame))
}

/// Decides what the scan does at a confidence.
pub fn classify(confidence: u32) -> (step: ScanStep)
    ensures
        step == step_for(confidence),
{
    if confidence % 0x8000_0000 == 0 {
        ScanStep::Stop
    } else if lt(confidence, HALF) {
        ScanStep::Skip
    } else {
        ScanStep::Accept
    }
}

/// Turns a candidate into its region in `frame`.
pub fn denormalize(c: &DetectionCandidate, frame: FrameSize) -> (region: FaceRegion)
    ensures
        region == region_of(*c, frame),
{
    let x: i32 = scale_extent(frame.width, max(c.left, 0));
    let y: i32 = scale_extent(frame.height, max(c.top, 0));
    let right: i32 = scale_extent(frame.width, min(c.right, ONE));
    let bottom: i32 = scale_extent(frame.height, min(c.bottom, ONE));
    FaceRegion { x, y, width: right.wrapping_sub(x), height: bottom.wrapping_sub(y) }
}

/// The number of candidates in the locator's output.
pub fn candidate_count(raw: &Vec<u32>) -> (count: usize)
    ensures
        count == candidates_of(raw@).len(),
{
    raw.len() / ROW
}

/// Reads the candidate in row `index`, where the output has such a row.
pub fn candidate_at(raw: &Vec<u32>, index: usize) -> (candidate: Option<DetectionCandidate>)
    ensures
        index < candidates_of(raw@).len() ==> candidate == Some(candidates_of(raw@)[index as int]),
        index >= candidates_of(raw@).len() ==> candidate.is_none(),
{
    if index < raw.len() / ROW {
        let base: usize = ROW * index;
        Some(
            DetectionCandidate {
                confidence: raw[base + CONFIDENCE],
                left: raw[base + LEFT],
                top: raw[base + TOP],
                right: raw[base + RIGHT],
                bottom: raw[base + BOTTOM],
            },
        )
    } else {
        None
    }
}

/// Where no candidate before `k` has a confidence of zero, and the one at
/// `k` has or the list ends there, the scan reads `k` candidates.
pub proof fn lemma_scan_length_is(candidates: Seq<DetectionCandidate>, k: int)
    requires
        0 <= k <= candidates.len(),
        forall|j: int| 0 <= j < k ==> !is_zero(#[trigger] candidates[j].confidence),
        k == candidates.len() || is_zero(candidates[k].confidence),
    ensures
        scan_length(candidates) == k,
    decreases k,
{
    if k > 0 {
        let rest = candidates.drop_first();
        assert forall|j: int| 0 <= j < k - 1 implies !is_zero(#[trigger] rest[j].confidence) by {
            assert(rest[j] == candidates[j + 1]);
        }
        lemma_scan_length_is(rest, k - 1);
    }
}

/// The scan stops at a confidence of zero and not before one.
pub proof fn lemma_scan_length_bounds(candidates: Seq<DetectionCandidate>)
    ensures
        scan_length(candidates) <= candidates.len(),
        forall|j: int|
            0 <= j < scan_length(candidates) ==> !is_zero(#[trigger] candidates[j].confidence),
        scan_length(candidates) < candidates.len() ==> is_zero(
            candidates[scan_length(candidates) as int].confidence,
        ),
    decreases candidates.len(),
{
    if candidates.len() == 0 || is_zero(candidates[0].confidence) {
    } else {
        let rest = candidates.drop_first();
        lemma_scan_length_bounds(rest);
        assert forall|j: int| 0 <= j < scan_length(candidates) implies !is_zero(
            #[trigger] candidates[j].confidence,
        ) by {
            if j > 0 {
                assert(candidates[j] == rest[j - 1]);
            }
        }
        assert(candidates[scan_length(candidates) as int] == rest[scan_length(rest) as int]
            || scan_length(rest) >= rest.len());
    }
}

/// Decodes the locator's output against the size of the frame: scans the
/// rows in order, stops at the first confidence of zero, passes over what is
/// under one half, and gives the region of each candidate that is left.
pub fn decode(raw: &Vec<u32>, frame: FrameSize) -> (regions: Vec<FaceRegion>)
    ensures
        regions@ == decoded(candidates_of(raw@), frame),
{
    let count: usize = raw.len() / ROW;
    let ghost candidates = candidates_of(raw@);
    let mut regions: Vec<FaceRegion> = Vec::new();
    let mut index: usize = 0;
    proof {
        assert(candidates.take(0) =~= Seq::<DetectionCandidate>::empty());
        reveal(Seq::filter);
        assert(candidates.take(0).filter(accepts()).map_values(places(frame)) =~= regions@);
    }
    while index < count
        invariant_except_break
            regions@ == candidates.take(index as int).filter(accepts()).map_values(places(frame)),
        invariant
            candidates == candidates_of(raw@),
            count == candidates.len(),
            count == raw.len() / ROW,
            index <= count,
            forall|j: int| 0 <= j < index ==> !is_zero(#[trigger] candidates[j].confidence),
        ensures
            index == count || is_zero(candidates[index as int].confidence),
            regions@ == candidates.take(index as int).filter(accepts()).map_values(places(frame)),
        decreases count - index,
    {
        let base: usize = ROW * index;
        let confidence: u32 = raw[base + CONFIDENCE];
        let step: ScanStep = classify(confidence);
        let ghost current = candidates[index as int];
        proof {
            assert(candidates.take(index + 1) =~= candidates.take(index as int).push(current));
            candidates.take(index as int).lemma_filter_push(current, accepts());
        }
        match step {
            ScanStep::Stop => {
                break ;
            },
            ScanStep::Skip => {},
            ScanStep::Accept => {
                let candidate = DetectionCandidate {
                    confidence,
                    left: raw[base + LEFT],
                    top: raw[base + TOP],
                    right: raw[base + RIGHT],
                    bottom: raw[base + BOTTOM],
                };
                let region: FaceRegion = denormalize(&candidate, frame);
                proof {
                    candidates.take(index as int).filter(accepts()).lemma_push_map_commute(
                        places(frame),
                        current,
                    );
                }
                regions.push(region);
            },
        }
        index = index + 1;
    }
    proof {
        lemma_scan_length_is(candidates, index as int);
    }
    regions
}

/// No more regions are decoded than there are candidates.
pub proof fn lemma_decoded_is_no_longer(candidates: Seq<DetectionCandidate>, frame: FrameSize)
    ensures
        decoded(candidates, frame).len() <= candidates.len(),
{
    lemma_scan_length_bounds(candidates);
    candidates.take(scan_length(candidates) as int).lemma_filter_len(accepts());
}

/// The scan of two lists joined stops in the first where that holds a
/// confidence of zero, and else goes on into the second.
pub proof fn lemma_scan_length_of_joined(
    first: Seq<DetectionCandidate>,
    second: Seq<DetectionCandidate>,
)
    ensures
        scan_length(first + second) == if scan_length(first) < first.len() {
            scan_length(first)
        } else {
            first.len() + scan_length(second)
        },
    decreases first.len(),
{
    lemma_scan_length_bounds(first);
    if first.len() == 0 {
        assert(first + second =~= second);
    } else if is_zero(first[0].confidence) {
        assert((first + second)[0] == first[0]);
    } else {
        assert((first + second)[0] == first[0]);
        assert((first + second).drop_first() =~= first.drop_first() + second);
        lemma_scan_length_of_joined(first.drop_first(), second);
    }
}

/// A confidence of zero at `k` ends the list: what is decoded is what the
/// `k` candidates before it decode to, whatever stands at `k` and after it,
/// and so no more than `k` regions.
pub proof fn lemma_zero_confidence_ends_the_list(
    candidates: Seq<DetectionCandidate>,
    frame: FrameSize,
    k: int,
)
    requires
        0 <= k < candidates.len(),
        is_zero(candidates[k].confidence),
    ensures
        decoded(candidates, frame) == decoded(candidates.take(k), frame),
        decoded(candidates, frame).len() <= k,
{
    let reach = scan_length(candidates) as int;
    let head = candidates.take(k);
    lemma_scan_length_bounds(candidates);
    assert(reach <= k) by {
        if reach > k {
            assert(!is_zero(candidates[k].confidence));
        }
    }
    assert forall|j: int| 0 <= j < reach implies !is_zero(#[trigger] head[j].confidence) by {
        assert(head[j] == candidates[j]);
    }
    lemma_scan_length_is(head, reach);
    assert(head.take(reach) =~= candidates.take(reach));
    candidates.take(reach).lemma_filter_len(accepts());
}

/// Two lists that agree before a confidence of zero at `k` decode to the
/// same regions: nothing at `k` or after it is looked at.
pub proof fn lemma_nothing_after_zero_is_read(
    one: Seq<DetectionCandidate>,
    other: Seq<DetectionCandidate>,
    frame: FrameSize,
    k: int,
)
    requires
        0 <= k < one.len(),
        0 <= k < other.len(),
        is_zero(one[k].confidence),
        is_zero(other[k].confidence),
        one.take(k) == other.take(k),
    ensures
        decoded(one, frame) == decoded(other, frame),
{
    lemma_zero_confidence_ends_the_list(one, frame, k);
    lemma_zero_confidence_ends_the_list(other, frame, k);
}

/// A candidate that is skipped leaves no trace: the list decodes as it does
/// without it, so the scan went on past it.
pub proof fn lemma_skipped_candidate_is_passed_over(
    before: Seq<DetectionCandidate>,
    skipped: DetectionCandidate,
    after: Seq<DetectionCandidate>,
    frame: FrameSize,
)
    requires
        step_for(skipped.confidence) == ScanStep::Skip,
    ensures
        decoded(before + seq![skipped] + after, frame) == decoded(before + after, frame),
{
    let with = before + seq![skipped] + after;
    let without = before + after;
    let one = seq![skipped];
    lemma_scan_length_bounds(before);
    lemma_scan_length_of_joined(before, after);
    assert(with =~= before + (one + after));
    lemma_scan_length_of_joined(before, one + after);
    if scan_length(before) < before.len() {
        let reach = scan_length(before) as int;
        assert(with.take(reach) =~= before.take(reach));
        assert(without.take(reach) =~= before.take(reach));
    } else {
        let tail = scan_length(after) as int;
        lemma_scan_length_bounds(after);
        lemma_scan_length_is(one, 1);
        lemma_scan_length_of_joined(one, after);
        assert(with.take(before.len() + 1 + tail) =~= before + one + after.take(tail));
        assert(without.take(before.len() + tail) =~= before + after.take(tail));
        Seq::filter_distributes_over_add(before + one, after.take(tail), accepts());
        Seq::filter_distributes_over_add(before, one, accepts());
        Seq::filter_distributes_over_add(before, after.take(tail), accepts());
        assert(one =~= Seq::<DetectionCandidate>::empty().push(skipped));
        Seq::<DetectionCandidate>::empty().lemma_filter_push(skipped, accepts());
        reveal(Seq::filter);
        assert(one.filter(accepts()) =~= Seq::<DetectionCandidate>::empty());
        assert((before + one).filter(accepts()) =~= before.filter(accepts()));
    }
}

/// A candidate with its edges brought into the frame: the left and top edge
/// no less than zero, the right and bottom edge no more than one.
pub open spec fn clipped(c: DetectionCandidate) -> DetectionCandidate {
    DetectionCandidate {
        confidence: c.confidence,
        left: maximum(c.left, 0),
        top: maximum(c.top, 0),
        right: minimum(c.right, ONE),
        bottom: minimum(c.bottom, ONE),
    }
}

/// Edges are clipped before they are turned into pixels: a candidate has
/// the region of the candidate with its edges brought into the frame. A
/// left or top edge that is negative or no number lands on pixel 0, and a
/// right or bottom edge that is more than one or no number is taken as one.
pub proof fn lemma_edges_are_clipped(c: DetectionCandidate, frame: FrameSize)
    ensures
        region_of(c, frame) == region_of(clipped(c), frame),
        less_than(c.left, 0) || is_nan(c.left) ==> region_of(c, frame).x == 0 && region_of(
            c,
            frame,
        ) == region_of(DetectionCandidate { left: 0, ..c }, frame),
        less_than(c.top, 0) || is_nan(c.top) ==> region_of(c, frame).y == 0 && region_of(c, frame)
            == region_of(DetectionCandidate { top: 0, ..c }, frame),
        less_than(ONE, c.right) || is_nan(c.right) ==> region_of(c, frame) == region_of(
            DetectionCandidate { right: ONE, ..c },
            frame,
        ),
        less_than(ONE, c.bottom) || is_nan(c.bottom) ==> region_of(c, frame) == region_of(
            DetectionCandidate { bottom: ONE, ..c },
            frame,
        ),
{
    lemma_zero_scales_to_zero(frame.width as int, 0);
    lemma_zero_scales_to_zero(frame.height as int, 0);
}

/// In a frame of up to `2^24` pixels a side no region starts left of or
/// above the frame, and a region whose right and bottom edge are not
/// negative ends within the frame.
pub proof fn lemma_region_lies_in_the_frame(c: DetectionCandidate, frame: FrameSize)
    requires
        0 <= frame.width <= 0x100_0000,
        0 <= frame.height <= 0x100_0000,
    ensures
        region_of(c, frame).x >= 0,
        region_of(c, frame).y >= 0,
        !less_than(c.right, 0) ==> 0 <= region_of(c, frame).x + region_of(c, frame).width
            <= frame.width,
        !less_than(c.bottom, 0) ==> 0 <= region_of(c, frame).y + region_of(c, frame).height
            <= frame.height,
{
    lemma_scaled_extent_is_not_negative(frame.width as int, maximum(c.left, 0));
    lemma_scaled_extent_is_not_negative(frame.height as int, maximum(c.top, 0));
    lemma_scaled_extent_stays_within(frame.width as int, minimum(c.right, ONE));
    lemma_scaled_extent_stays_within(frame.height as int, minimum(c.bottom, ONE));
    if !less_than(c.right, 0) {
        lemma_scaled_extent_is_not_negative(frame.width as int, minimum(c.right, ONE));
    }
    if !less_than(c.bottom, 0) {
        lemma_scaled_extent_is_not_negative(frame.height as int, minimum(c.bottom, ONE));
    }
}

} // verus!
