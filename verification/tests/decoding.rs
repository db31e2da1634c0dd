use redface::decoder::{
    candidate_at, candidate_count, classify, decode, denormalize, DetectionCandidate, ScanStep,
    BOTTOM, CONFIDENCE, LEFT, RIGHT, ROW, TOP,
};
use redface::geometry::{FaceRegion, FrameSize};

const VGA: FrameSize = FrameSize { width: 640, height: 480 };

fn row(confidence: f32, left: f32, top: f32, right: f32, bottom: f32) -> Vec<u32> {
    vec![
        0.0f32.to_bits(),
        1.0f32.to_bits(),
        confidence.to_bits(),
        left.to_bits(),
        top.to_bits(),
        right.to_bits(),
        bottom.to_bits(),
    ]
}

fn rows(list: &[Vec<u32>]) -> Vec<u32> {
    let mut raw = Vec::new();
    for r in list {
        raw.extend_from_slice(r);
    }
    raw
}

fn hardware(c: (f32, f32, f32, f32), frame: FrameSize) -> FaceRegion {
    let left = c.0.max(0.0);
    let top = c.1.max(0.0);
    let right = c.2.min(1.0);
    let bottom = c.3.min(1.0);
    let x = (frame.width as f32 * left) as i32;
    let y = (frame.height as f32 * top) as i32;
    let width = ((frame.width as f32 * right) as i32).wrapping_sub(x);
    let height = ((frame.height as f32 * bottom) as i32).wrapping_sub(y);
    FaceRegion { x, y, width, height }
}

fn next(state: &mut u64) -> u64 {
    *state = state
        .wrapping_mul(6364136223846793005)
        .wrapping_add(1442695040888963407);
    *state >> 16
}

#[test]
fn row_layout() {
    assert_eq!(ROW, 7);
    assert_eq!(
        (CONFIDENCE, LEFT, TOP, RIGHT, BOTTOM),
        (2, 3, 4, 5, 6)
    );
}

#[test]
fn one_face_then_a_weak_one_then_the_end() {
    let raw = rows(&[
        row(0.92, 0.1, 0.1, 0.5, 0.6),
        row(0.3, 0.2, 0.2, 0.4, 0.4),
        row(0.0, 0.0, 0.0, 0.0, 0.0),
    ]);
    let regions = decode(&raw, VGA);
    assert_eq!(regions, vec![FaceRegion { x: 64, y: 48, width: 256, height: 240 }]);
}

#[test]
fn zero_confidence_stops_the_scan() {
    let strong = row(0.9, 0.25, 0.25, 0.75, 0.75);
    let end = row(0.0, 0.0, 0.0, 0.0, 0.0);
    let raw = rows(&[strong.clone(), end.clone(), strong.clone(), strong.clone()]);
    assert_eq!(decode(&raw, VGA).len(), 1);
    let raw = rows(&[end.clone(), strong.clone(), strong.clone()]);
    assert_eq!(decode(&raw, VGA).len(), 0);
    // what follows the end is not read, whatever it holds
    let mut garbled = rows(&[strong.clone(), strong.clone(), end.clone()]);
    let clean = decode(&garbled, VGA);
    garbled.extend_from_slice(&row(f32::NAN, f32::INFINITY, -1.0, 7.0, f32::NAN));
    garbled.extend_from_slice(&[1, 2, 3]);
    assert_eq!(decode(&garbled, VGA), clean);
    assert_eq!(clean.len(), 2);
}

#[test]
fn negative_zero_confidence_stops_the_scan_too() {
    let raw = rows(&[row(-0.0, 0.1, 0.1, 0.5, 0.5), row(0.9, 0.1, 0.1, 0.5, 0.5)]);
    assert_eq!(decode(&raw, VGA).len(), 0);
    assert_eq!(classify((-0.0f32).to_bits()), ScanStep::Stop);
}

#[test]
fn weak_candidates_are_skipped_and_the_scan_goes_on() {
    let strong = row(0.9, 0.25, 0.25, 0.75, 0.75);
    let other = row(0.5, 0.0, 0.0, 0.5, 0.5);
    let weak = row(0.49, 0.1, 0.1, 0.2, 0.2);
    let with = rows(&[weak.clone(), strong.clone(), weak.clone(), weak.clone(), other.clone()]);
    let without = rows(&[strong, other]);
    assert_eq!(decode(&with, VGA), decode(&without, VGA));
    assert_eq!(
        decode(&with, VGA),
        vec![
            FaceRegion { x: 160, y: 120, width: 320, height: 240 },
            FaceRegion { x: 0, y: 0, width: 320, height: 240 },
        ]
    );
}

#[test]
fn classification_of_confidences() {
    assert_eq!(classify(0.0f32.to_bits()), ScanStep::Stop);
    assert_eq!(classify(f32::MIN_POSITIVE.to_bits()), ScanStep::Skip);
    assert_eq!(classify(1), ScanStep::Skip);
    assert_eq!(classify(0.3f32.to_bits()), ScanStep::Skip);
    assert_eq!(classify(0.49999997f32.to_bits()), ScanStep::Skip);
    assert_eq!(classify(0.5f32.to_bits()), ScanStep::Accept);
    assert_eq!(classify(0.92f32.to_bits()), ScanStep::Accept);
    assert_eq!(classify(1.0f32.to_bits()), ScanStep::Accept);
    assert_eq!(classify(7.0f32.to_bits()), ScanStep::Accept);
    assert_eq!(classify(f32::INFINITY.to_bits()), ScanStep::Accept);
    assert_eq!(classify(f32::NAN.to_bits()), ScanStep::Accept);
    assert_eq!(classify((-0.3f32).to_bits()), ScanStep::Skip);
    assert_eq!(classify(f32::NEG_INFINITY.to_bits()), ScanStep::Skip);
}

#[test]
fn classification_agrees_with_the_hardware() {
    let mut state: u64 = 31;
    for _ in 0..200000 {
        let bits = next(&mut state) as u32;
        let confidence = f32::from_bits(bits);
        let expected = if confidence == 0.0 {
            ScanStep::Stop
        } else if confidence < 0.5 {
            ScanStep::Skip
        } else {
            ScanStep::Accept
        };
        assert_eq!(classify(bits), expected);
    }
}

#[test]
fn edges_outside_the_frame_are_clipped() {
    let outside = DetectionCandidate {
        confidence: 0.9f32.to_bits(),
        left: (-0.2f32).to_bits(),
        top: (-3.0f32).to_bits(),
        right: 1.4f32.to_bits(),
        bottom: 9.0f32.to_bits(),
    };
    let inside = DetectionCandidate {
        confidence: 0.9f32.to_bits(),
        left: 0.0f32.to_bits(),
        top: 0.0f32.to_bits(),
        right: 1.0f32.to_bits(),
        bottom: 1.0f32.to_bits(),
    };
    assert_eq!(denormalize(&outside, VGA), denormalize(&inside, VGA));
    assert_eq!(
        denormalize(&outside, VGA),
        FaceRegion { x: 0, y: 0, width: 640, height: 480 }
    );
}

#[test]
fn only_the_near_side_of_an_edge_is_clipped() {
    // left and top are not lowered to one, right and bottom not raised to zero
    let c = DetectionCandidate {
        confidence: 0.9f32.to_bits(),
        left: 1.5f32.to_bits(),
        top: 2.0f32.to_bits(),
        right: (-0.5f32).to_bits(),
        bottom: (-1.0f32).to_bits(),
    };
    assert_eq!(
        denormalize(&c, VGA),
        FaceRegion { x: 960, y: 960, width: -320 - 960, height: -480 - 960 }
    );
}

#[test]
fn degenerate_regions_are_given_as_they_are() {
    let flat = DetectionCandidate {
        confidence: 0.9f32.to_bits(),
        left: 0.5f32.to_bits(),
        top: 0.5f32.to_bits(),
        right: 0.5f32.to_bits(),
        bottom: 0.25f32.to_bits(),
    };
    assert_eq!(
        denormalize(&flat, VGA),
        FaceRegion { x: 320, y: 240, width: 0, height: -120 }
    );
    let nowhere = DetectionCandidate {
        confidence: 0.9f32.to_bits(),
        left: f32::NAN.to_bits(),
        top: f32::INFINITY.to_bits(),
        right: f32::NAN.to_bits(),
        bottom: f32::NEG_INFINITY.to_bits(),
    };
    assert_eq!(
        denormalize(&nowhere, VGA),
        FaceRegion {
            x: 0,
            y: i32::MAX,
            width: 640,
            height: i32::MIN.wrapping_sub(i32::MAX),
        }
    );
}

#[test]
fn regions_agree_with_the_hardware() {
    let mut state: u64 = 32;
    for _ in 0..100000 {
        let frame = FrameSize {
            width: (next(&mut state) % 4000) as i32,
            height: (next(&mut state) % 4000) as i32,
        };
        let mut edge = |state: &mut u64| -> f32 {
            match next(state) % 8 {
                0 => f32::from_bits(next(state) as u32),
                _ => (next(state) % 3000) as f32 / 2000.0 - 0.25,
            }
        };
        let c = (edge(&mut state), edge(&mut state), edge(&mut state), edge(&mut state));
        let candidate = DetectionCandidate {
            confidence: 0.9f32.to_bits(),
            left: c.0.to_bits(),
            top: c.1.to_bits(),
            right: c.2.to_bits(),
            bottom: c.3.to_bits(),
        };
        assert_eq!(denormalize(&candidate, frame), hardware(c, frame));
    }
}

#[test]
fn regions_come_in_the_order_of_the_rows() {
    let raw = rows(&[
        row(0.6, 0.5, 0.5, 1.0, 1.0),
        row(0.99, 0.0, 0.0, 0.5, 0.5),
        row(0.7, 0.25, 0.0, 0.5, 0.5),
    ]);
    assert_eq!(
        decode(&raw, VGA),
        vec![
            FaceRegion { x: 320, y: 240, width: 320, height: 240 },
            FaceRegion { x: 0, y: 0, width: 320, height: 240 },
            FaceRegion { x: 160, y: 0, width: 160, height: 240 },
        ]
    );
}

#[test]
fn regions_are_in_pixels_of_the_frame_not_of_the_network_input() {
    let raw = rows(&[row(0.9, 0.5, 0.5, 1.0, 1.0)]);
    assert_eq!(
        decode(&raw, FrameSize { width: 1920, height: 1080 }),
        vec![FaceRegion { x: 960, y: 540, width: 960, height: 540 }]
    );
}

#[test]
fn empty_and_short_outputs() {
    assert_eq!(decode(&Vec::new(), VGA), Vec::new());
    assert_eq!(decode(&vec![0, 0, 0.9f32.to_bits()], VGA), Vec::new());
    let mut raw = row(0.9, 0.0, 0.0, 0.5, 0.5);
    raw.extend_from_slice(&[0, 0, 0.9f32.to_bits(), 0, 0, 0]);
    assert_eq!(candidate_count(&raw), 1);
    assert_eq!(decode(&raw, VGA).len(), 1);
}

#[test]
fn candidates_are_read_from_their_rows() {
    let raw = rows(&[row(0.9, 0.1, 0.2, 0.3, 0.4), row(0.8, 0.5, 0.6, 0.7, 0.8)]);
    assert_eq!(candidate_count(&raw), 2);
    assert_eq!(
        candidate_at(&raw, 1),
        Some(DetectionCandidate {
            confidence: 0.8f32.to_bits(),
            left: 0.5f32.to_bits(),
            top: 0.6f32.to_bits(),
            right: 0.7f32.to_bits(),
            bottom: 0.8f32.to_bits(),
        })
    );
    assert_eq!(candidate_at(&raw, 2), None);
}

#[test]
fn regions_lie_in_the_frame() {
    let mut state: u64 = 33;
    for _ in 0..100000 {
        let frame = FrameSize {
            width: (next(&mut state) % 0x100_0001) as i32,
            height: (next(&mut state) % 5000) as i32,
        };
        let mut edge = |state: &mut u64| -> u32 {
            match next(state) % 4 {
                0 => next(state) as u32 & 0x7fff_ffff,
                1 => next(state) as u32,
                _ => ((next(state) % 3000) as f32 / 2000.0 - 0.25).to_bits(),
            }
        };
        let c = DetectionCandidate {
            confidence: 0.9f32.to_bits(),
            left: edge(&mut state),
            top: edge(&mut state),
            right: edge(&mut state),
            bottom: edge(&mut state),
        };
        let region = denormalize(&c, frame);
        assert!(region.x >= 0 && region.y >= 0);
        if !(f32::from_bits(c.right) < 0.0) {
            let end = region.x as i64 + region.width as i64;
            assert!(0 <= end && end <= frame.width as i64);
        }
        if !(f32::from_bits(c.bottom) < 0.0) {
            let end = region.y as i64 + region.height as i64;
            assert!(0 <= end && end <= frame.height as i64);
        }
    }
}
