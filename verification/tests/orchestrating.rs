use redface::comparator::OverlayColor;
use redface::enrollment::{Embedding, EnrollmentStore};
use redface::geometry::{FaceRegion, FrameSize};
use redface::orchestrator::{
    Action, Event, Measured, Notice, Orchestrator, Overlay, Phase, SourceInfo, Stage, Step,
    CAPTION_RISE, ENTER, ESCAPE, MILLISECONDS,
};

const VGA: FrameSize = FrameSize { width: 640, height: 480 };
const FIRST: FaceRegion = FaceRegion { x: 64, y: 48, width: 256, height: 240 };
const SECOND: FaceRegion = FaceRegion { x: 320, y: 240, width: 320, height: 240 };

fn row(confidence: f32, left: f32, top: f32, right: f32, bottom: f32) -> Vec<u32> {
    vec![
        0.0f32.to_bits(),
        1.0f32.to_bits(),
        confidence.to_bits(),
        left.to_bits(),
        top.to_bits(),
        right.to_bits(),
        bottom.to_bits(),
    ]
}

fn two_faces() -> Vec<u32> {
    let mut raw = row(0.6, 0.1, 0.1, 0.5, 0.6);
    raw.extend_from_slice(&row(0.99, 0.5, 0.5, 1.0, 1.0));
    raw.extend_from_slice(&row(0.0, 0.0, 0.0, 0.0, 0.0));
    raw
}

fn sample(seed: u32) -> Vec<u32> {
    (0..128u32).map(|i| ((i * 31 + seed) as f32 / 977.0).to_bits()).collect()
}

fn measured(seed: u32, distance: f64) -> Event {
    Event::Extracted(Some(Measured {
        embedding: Embedding::from_values(sample(seed)).unwrap(),
        distance: distance.to_bits(),
    }))
}

fn plain(action: Action) -> Option<Step> {
    Some(Step { action, notice: None })
}

fn noted(action: Action, stage: Stage, region: Option<usize>) -> Option<Step> {
    Some(Step { action, notice: Some(Notice { stage, region }) })
}

fn opened(rendering: bool) -> Orchestrator {
    let mut o = Orchestrator::new(rendering, EnrollmentStore::load(None));
    let info = SourceInfo { frame: VGA, rate: 30.0f64.to_bits() };
    assert_eq!(o.step(Event::Opened(Some(info))), plain(Action::PollKey { timeout: 33 }));
    o
}

fn located(rendering: bool, key: i32, raw: Option<Vec<u32>>) -> (Orchestrator, Option<Step>) {
    let mut o = opened(rendering);
    assert_eq!(o.step(Event::Key(key)), plain(Action::ReadFrame));
    assert_eq!(
        o.step(Event::Frame(true)),
        plain(Action::Locate { input: FrameSize { width: 300, height: 225 } })
    );
    let answer = o.step(Event::Located(raw));
    (o, answer)
}

#[test]
fn keys_and_pacing_constants() {
    assert_eq!((ESCAPE, ENTER, MILLISECONDS, CAPTION_RISE), (27, 13, 1000, 5));
}

#[test]
fn a_source_that_cannot_be_opened_ends_the_loop() {
    let mut o = Orchestrator::new(true, EnrollmentStore::load(None));
    assert_eq!(o.phase(), Phase::Opening);
    assert_eq!(o.step(Event::Opened(None)), plain(Action::Shutdown));
    assert_eq!(o.phase(), Phase::Stopped);
    assert_eq!(o.step(Event::Key(0)), plain(Action::Shutdown));
    assert_eq!(o.step(Event::Frame(true)), plain(Action::Shutdown));
    assert_eq!(o.phase(), Phase::Stopped);
}

#[test]
fn the_timeout_is_the_frame_interval() {
    for (rate, timeout) in [(30.0f64, 33), (25.0, 40), (60.0, 16), (29.97, 33), (0.0, i32::MAX)] {
        let mut o = Orchestrator::new(false, EnrollmentStore::load(None));
        let info = SourceInfo { frame: VGA, rate: rate.to_bits() };
        assert_eq!(o.step(Event::Opened(Some(info))), plain(Action::PollKey { timeout }));
        assert_eq!(o.phase(), Phase::Polling);
    }
}

#[test]
fn escape_ends_the_loop() {
    let mut o = opened(true);
    assert_eq!(o.step(Event::Key(ESCAPE)), plain(Action::Shutdown));
    assert_eq!(o.phase(), Phase::Stopped);
}

#[test]
fn other_keys_are_ignored() {
    for key in [-1, 0, 32, 10, 113, 255] {
        let mut o = opened(true);
        assert_eq!(o.step(Event::Key(key)), plain(Action::ReadFrame));
        assert_eq!(o.phase(), Phase::Reading);
    }
}

#[test]
fn a_frame_that_cannot_be_read_costs_the_tick() {
    let mut o = opened(true);
    assert_eq!(o.step(Event::Key(-1)), plain(Action::ReadFrame));
    assert_eq!(
        o.step(Event::Frame(false)),
        noted(Action::PollKey { timeout: 33 }, Stage::Frame, None)
    );
    assert_eq!(o.phase(), Phase::Polling);
    assert_eq!(o.step(Event::Key(-1)), plain(Action::ReadFrame));
}

#[test]
fn a_failing_locator_means_no_faces_in_the_frame() {
    let (mut o, answer) = located(true, -1, None);
    assert_eq!(answer, noted(Action::Present, Stage::Locator, None));
    assert!(o.regions().is_empty());
    assert_eq!(o.step(Event::Presented), plain(Action::PollKey { timeout: 33 }));
    let (o, answer) = located(false, -1, None);
    assert_eq!(answer, noted(Action::PollKey { timeout: 33 }, Stage::Locator, None));
    assert_eq!(o.phase(), Phase::Polling);
}

#[test]
fn a_frame_without_faces_is_presented() {
    let (o, answer) = located(true, ENTER, Some(row(0.0, 0.0, 0.0, 0.0, 0.0)));
    assert_eq!(answer, plain(Action::Present));
    assert_eq!(o.reference().values(), &vec![0u32; 128]);
}

#[test]
fn faces_are_taken_in_order_and_drawn() {
    let (mut o, answer) = located(true, -1, Some(two_faces()));
    assert_eq!(o.regions(), &vec![FIRST, SECOND]);
    assert_eq!(answer, plain(Action::Extract { index: 0, region: FIRST }));
    assert_eq!(
        o.step(measured(1, 0.069)),
        plain(Action::Draw {
            overlay: Overlay {
                region: FIRST,
                color: OverlayColor::Green,
                distance: 0.069f64.to_bits(),
                caption_x: 64,
                caption_y: 43,
            }
        })
    );
    assert_eq!(o.step(Event::Drawn), plain(Action::Extract { index: 1, region: SECOND }));
    assert_eq!(
        o.step(measured(2, 0.07)),
        plain(Action::Draw {
            overlay: Overlay {
                region: SECOND,
                color: OverlayColor::Red,
                distance: 0.07f64.to_bits(),
                caption_x: 320,
                caption_y: 235,
            }
        })
    );
    assert_eq!(o.step(Event::Drawn), plain(Action::Present));
    assert_eq!(o.step(Event::Presented), plain(Action::PollKey { timeout: 33 }));
    assert_eq!(o.reference().values(), &vec![0u32; 128]);
}

#[test]
fn enter_enrolls_the_first_face_only() {
    let (mut o, answer) = located(true, ENTER, Some(two_faces()));
    assert_eq!(answer, plain(Action::Extract { index: 0, region: FIRST }));
    assert_eq!(o.step(measured(1, 0.5)), plain(Action::Persist));
    assert_eq!(o.phase(), Phase::Persisting);
    assert_eq!(o.reference().values(), &sample(1));
    let first = Action::Draw {
        overlay: Overlay {
            region: FIRST,
            color: OverlayColor::Red,
            distance: 0.5f64.to_bits(),
            caption_x: 64,
            caption_y: 43,
        },
    };
    assert_eq!(o.step(Event::Persisted(true)), plain(first));
    assert_eq!(o.step(Event::Drawn), plain(Action::Extract { index: 1, region: SECOND }));
    let answer = o.step(measured(2, 0.01));
    assert!(matches!(answer, Some(Step { action: Action::Draw { .. }, notice: None })));
    assert_eq!(o.reference().values(), &sample(1));
    assert_eq!(o.step(Event::Drawn), plain(Action::Present));
    assert_eq!(o.reference().values(), &sample(1));
}

#[test]
fn a_failed_write_is_reported_and_the_loop_goes_on() {
    let (mut o, _) = located(true, ENTER, Some(two_faces()));
    assert_eq!(o.step(measured(5, 0.5)), plain(Action::Persist));
    let answer = o.step(Event::Persisted(false));
    assert_eq!(
        answer,
        noted(
            Action::Draw {
                overlay: Overlay {
                    region: FIRST,
                    color: OverlayColor::Red,
                    distance: 0.5f64.to_bits(),
                    caption_x: 64,
                    caption_y: 43,
                }
            },
            Stage::Enrollment,
            Some(0)
        )
    );
    assert_eq!(o.phase(), Phase::Drawing);
    // the reference in memory is the new one all the same
    assert_eq!(o.reference().values(), &sample(5));
    assert_eq!(o.step(Event::Drawn), plain(Action::Extract { index: 1, region: SECOND }));
}

#[test]
fn a_failed_write_without_rendering() {
    let (mut o, _) = located(false, ENTER, Some(two_faces()));
    assert_eq!(o.step(measured(5, 0.5)), plain(Action::Persist));
    assert_eq!(
        o.step(Event::Persisted(false)),
        noted(Action::Extract { index: 1, region: SECOND }, Stage::Enrollment, Some(0))
    );
    assert_eq!(o.step(measured(6, 0.5)), plain(Action::PollKey { timeout: 33 }));
    assert_eq!(o.reference().values(), &sample(5));
}

#[test]
fn a_first_face_that_fails_leaves_the_second_unenrolled() {
    let (mut o, _) = located(true, ENTER, Some(two_faces()));
    assert_eq!(
        o.step(Event::Extracted(None)),
        noted(Action::Extract { index: 1, region: SECOND }, Stage::Extractor, Some(0))
    );
    let answer = o.step(measured(2, 0.01));
    assert!(matches!(answer, Some(Step { action: Action::Draw { .. }, notice: None })));
    assert_eq!(o.reference().values(), &vec![0u32; 128]);
}

#[test]
fn a_region_that_fails_is_skipped_alone() {
    let (mut o, _) = located(true, -1, Some(two_faces()));
    assert!(matches!(o.step(measured(1, 0.5)), Some(Step { action: Action::Draw { .. }, .. })));
    assert_eq!(o.step(Event::Drawn), plain(Action::Extract { index: 1, region: SECOND }));
    assert_eq!(
        o.step(Event::Extracted(None)),
        noted(Action::Present, Stage::Extractor, Some(1))
    );
    assert_eq!(o.step(Event::Presented), plain(Action::PollKey { timeout: 33 }));
}

#[test]
fn without_rendering_nothing_is_drawn_or_presented() {
    let (mut o, answer) = located(false, ENTER, Some(two_faces()));
    assert_eq!(answer, plain(Action::Extract { index: 0, region: FIRST }));
    assert_eq!(o.step(measured(1, 0.5)), plain(Action::Persist));
    assert_eq!(
        o.step(Event::Persisted(true)),
        plain(Action::Extract { index: 1, region: SECOND })
    );
    assert_eq!(o.step(measured(2, 0.5)), plain(Action::PollKey { timeout: 33 }));
    assert_eq!(o.reference().values(), &sample(1));
}

#[test]
fn enrollment_lasts_one_tick() {
    let (mut o, _) = located(false, ENTER, Some(two_faces()));
    assert_eq!(o.step(measured(1, 0.5)), plain(Action::Persist));
    o.step(Event::Persisted(true));
    assert_eq!(o.step(measured(2, 0.5)), plain(Action::PollKey { timeout: 33 }));
    assert_eq!(o.step(Event::Key(-1)), plain(Action::ReadFrame));
    o.step(Event::Frame(true));
    assert_eq!(
        o.step(Event::Located(Some(two_faces()))),
        plain(Action::Extract { index: 0, region: FIRST })
    );
    assert_eq!(
        o.step(measured(3, 0.5)),
        plain(Action::Extract { index: 1, region: SECOND })
    );
    assert_eq!(o.reference().values(), &sample(1));
}

#[test]
fn an_event_out_of_turn_changes_nothing() {
    let mut o = opened(true);
    assert_eq!(o.step(Event::Frame(true)), None);
    assert_eq!(o.step(Event::Drawn), None);
    assert_eq!(o.step(Event::Presented), None);
    assert_eq!(o.step(Event::Persisted(true)), None);
    assert_eq!(o.step(Event::Located(None)), None);
    assert_eq!(o.step(measured(1, 0.0)), None);
    assert_eq!(o.step(Event::Opened(None)), None);
    assert_eq!(o.phase(), Phase::Polling);
    assert_eq!(o.reference().values(), &vec![0u32; 128]);
    assert_eq!(o.step(Event::Key(-1)), plain(Action::ReadFrame));
    assert_eq!(o.step(Event::Key(ESCAPE)), None);
    assert_eq!(o.phase(), Phase::Reading);
}

#[test]
fn the_caption_of_a_region_at_the_top_wraps() {
    let mut raw = row(0.9, 0.0, f32::NEG_INFINITY, 0.5, 0.5);
    raw[4] = f32::NEG_INFINITY.to_bits();
    let mut o = Orchestrator::new(true, EnrollmentStore::load(None));
    let info = SourceInfo { frame: FrameSize { width: 640, height: -480 }, rate: 30.0f64.to_bits() };
    o.step(Event::Opened(Some(info)));
    o.step(Event::Key(-1));
    o.step(Event::Frame(true));
    let answer = o.step(Event::Located(Some(raw)));
    let region = o.regions()[0];
    assert_eq!(region.y, 0);
    assert_eq!(answer, plain(Action::Extract { index: 0, region }));
    match o.step(measured(1, 0.5)) {
        Some(Step { action: Action::Draw { overlay }, notice: None }) => {
            assert_eq!(overlay.caption_y, -5);
            assert_eq!(overlay.caption_x, 0);
        }
        other => panic!("{:?}", other),
    }
}
