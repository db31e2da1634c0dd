//! The loop that reads frames, finds faces and compares them, as a state
//! machine.
//!
//! The orchestrator decides; its caller acts. The caller performs the action
//! that a step names (poll the keyboard, read a frame, run the locator,
//! crop a region and extract its embedding, write the reference to disk,
//! draw, present), and hands back what came of it as the next event. The
//! very first event is the outcome of opening the video source.
//!
//! A tick polls the keyboard, reads a frame, locates the faces and goes
//! through them in the order in which they were decoded. A failure on the
//! way costs the frame or the region it happened on, is reported with the
//! step, and never ends the loop. The loop ends on the escape key, or where
//! the video source cannot be opened.

use crate::comparator::{color_for, is_match, MatchDecision, OverlayColor};
use crate::decoder::{candidates_of, decode, decoded};
use crate::double::{divide_truncated, six_decimals, truncated_quotient, format_six_decimals};
use crate::enrollment::{Embedding, EnrollmentStore, EMBEDDING_LENGTH};
use crate::geometry::{FaceRegion, FrameSize};
use crate::locator::{fitted_size, input_size};
use vstd::prelude::*;

verus! {

/// The key that ends the loop.
pub const ESCAPE: i32 = 27;

/// The key that enrolls the first face of the frame.
pub const ENTER: i32 = 13;

/// The number of milliseconds that the frame rate is divided into.
pub const MILLISECONDS: u32 = 1000;

/// How far above a region's top its caption starts.
pub const CAPTION_RISE: i32 = 5;

/// What the orchestrator waits for.
#[derive(Clone, Copy, Debug, PartialEq, Eq, Structural)]
pub enum Phase {
    /// The outcome of opening the video source.
    Opening,
    /// A key, or the end of the wait for one.
    Polling,
    /// A frame.
    Reading,
    /// The locator's output for the frame.
    Locating,
    /// The embedding of the region under the cursor.
    Extracting,
    /// The outcome of writing the reference to disk.
    Persisting,
    /// The region under the cursor to be drawn.
    Drawing,
    /// The frame to be presented.
    Presenting,
    /// Nothing: the loop has ended.
    Stopped,
}

/// What the video source says of itself once it is open: the size of its
/// frames, and its frames per second as the bits of a double-precision
/// number.
#[derive(Clone, Copy, Debug, PartialEq, Eq, Structural)]
pub struct SourceInfo {
    pub frame: FrameSize,
    pub rate: u64,
}

/// An embedding with its distance to the reference, as the bits of a
/// double-precision number.
#[derive(Debug)]
pub struct Measured {
    pub embedding: Embedding,
    pub distance: u64,
}

/// What came of the action that the last step named.
#[derive(Debug)]
pub enum Event {
    /// The video source was opened, or could not be.
    Opened(Option<SourceInfo>),
    /// The code of the key that was pressed during the wait.
    Key(i32),
    /// Whether a frame was read.
    Frame(bool),
    /// The locator's output, or nothing where it failed.
    Located(Option<Vec<u32>>),
    /// The embedding of the region and its distance to the reference, or
    /// nothing where the crop or the extraction failed.
    Extracted(Option<Measured>),
    /// Whether the reference was written to disk.
    Persisted(bool),
    /// The region was drawn.
    Drawn,
    /// The frame was presented.
    Presented,
}

/// An event with its vectors as sequences.
pub enum EventView {
    Opened(Option<SourceInfo>),
    Key(i32),
    Frame(bool),
    Located(Option<Seq<u32>>),
    Extracted(Option<(Seq<u32>, u64)>),
    Persisted(bool),
    Drawn,
    Presented,
}

impl View for Event {
    type V = EventView;

    open spec fn view(&self) -> EventView {
        match *self {
            Event::Opened(info) => EventView::Opened(info),
            Event::Key(code) => EventView::Key(code),
            Event::Frame(read) => EventView::Frame(read),
            Event::Located(Some(raw)) => EventView::Located(Some(raw@)),
            Event::Located(None) => EventView::Located(None),
            Event::Extracted(Some(measured)) => EventView::Extracted(
                Some((measured.embedding@, measured.distance)),
            ),
            Event::Extracted(None) => EventView::Extracted(None),
            Event::Persisted(written) => EventView::Persisted(written),
            Event::Drawn => EventView::Drawn,
            Event::Presented => EventView::Presented,
        }
    }
}

/// What is drawn for a face: a rectangle round its region and, above the
/// region's corner, the distance as a caption, both in one colour.
#[derive(Clone, Copy, Debug, PartialEq, Eq, Structural)]
pub struct Overlay {
    pub region: FaceRegion,
    pub color: OverlayColor,
    pub distance: u64,
    pub caption_x: i32,
    pub caption_y: i32,
}

impl Overlay {
    /// The caption: the distance in fixed-point notation with six decimals,
    /// in ASCII.
    pub fn caption(&self) -> (text: Vec<u8>)
        ensures
            text@ == six_decimals(self.distance),
    {
        format_six_decimals(self.distance)
    }
}

/// What the caller is to do next.
#[derive(Clone, Copy, Debug, PartialEq, Eq, Structural)]
pub enum Action {
    /// Wait up to `timeout` milliseconds for a key.
    PollKey { timeout: i32 },
    /// Read a frame from the video source.
    ReadFrame,
    /// Mirror the frame, convert its colours and run the locator on it,
    /// scaled to `input`.
    Locate { input: FrameSize },
    /// Crop `region`, the face with the number `index` in this frame, and
    /// extract its embedding.
    Extract { index: usize, region: FaceRegion },
    /// Write the reference, as the orchestrator now holds it, to disk.
    Persist,
    /// Draw the overlay on the frame.
    Draw { overlay: Overlay },
    /// Present the frame.
    Present,
    /// Release the video source, the networks and the window.
    Shutdown,
}

/// Where a failure happened.
#[derive(Clone, Copy, Debug, PartialEq, Eq, Structural)]
pub enum Stage {
    /// No frame could be read.
    Frame,
    /// The locator failed on the frame.
    Locator,
    /// A region could not be cropped, or the extractor failed on it.
    Extractor,
    /// The reference could not be written to disk.
    Enrollment,
}

/// A failure that the loop got over, for the log.
#[derive(Clone, Copy, Debug, PartialEq, Eq, Structural)]
pub struct Notice {
    pub stage: Stage,
    pub region: Option<usize>,
}

/// What a step answers: the next action, and a failure to report where the
/// event brought one.
#[derive(Clone, Copy, Debug, PartialEq, Eq, Structural)]
pub struct Step {
    pub action: Action,
    pub notice: Option<Notice>,
}

/// The overlay for a region whose embedding lies at `distance` from the
/// reference.
pub open spec fn overlay_for(region: FaceRegion, distance: u64) -> Overlay {
    Overlay {
        region,
        color: color_for(is_match(distance)),
        distance,
        caption_x: region.x,
        caption_y: vstd::wrapping::i32_specs::wrapping_sub(region.y, CAPTION_RISE),
    }
}

/// All that the orchestrator knows.
pub struct State {
    /// What it waits for.
    pub phase: Phase,
    /// Whether faces are drawn and frames presented.
    pub rendering: bool,
    /// The size of the frames.
    pub frame: FrameSize,
    /// The wait for a key, in milliseconds.
    pub timeout: i32,
    /// The key of this tick.
    pub key: i32,
    /// The regions of this frame.
    pub regions: Seq<FaceRegion>,
    /// The number of the region that is being worked on.
    pub cursor: nat,
    /// The distance of the region that is being worked on.
    pub distance: u64,
    /// The reference embedding.
    pub reference: Seq<u32>,
}

impl State {
    /// What holds of every state that the orchestrator gets into.
    pub open spec fn valid(self) -> bool {
        &&& self.regions.len() <= usize::MAX
        &&& self.cursor <= self.regions.len()
        &&& (self.phase == Phase::Extracting || self.phase == Phase::Persisting || self.phase
            == Phase::Drawing) ==> self.cursor < self.regions.len()
        &&& self.reference.len() == EMBEDDING_LENGTH
    }

    /// The loop ends.
    pub open spec fn halt(self) -> (State, Step) {
        (State { phase: Phase::Stopped, ..self }, Step { action: Action::Shutdown, notice: None })
    }

    /// The next tick begins.
    pub open spec fn poll(self, notice: Option<Notice>) -> (State, Step) {
        (
            State { phase: Phase::Polling, ..self },
            Step { action: Action::PollKey { timeout: self.timeout }, notice },
        )
    }

    /// The region under the cursor is taken up; where there is none left the
    /// frame is presented, or without rendering the next tick begins.
    pub open spec fn proceed(self, notice: Option<Notice>) -> (State, Step) {
        if self.cursor < self.regions.len() {
            (
                State { phase: Phase::Extracting, ..self },
                Step {
                    action: Action::Extract {
                        index: self.cursor as usize,
                        region: self.regions[self.cursor as int],
                    },
                    notice,
                },
            )
        } else if self.rendering {
            (State { phase: Phase::Presenting, ..self }, Step { action: Action::Present, notice })
        } else {
            self.poll(notice)
        }
    }

    /// The cursor moves to the next region.
    pub open spec fn advance(self, notice: Option<Notice>) -> (State, Step) {
        State { cursor: self.cursor + 1, ..self }.proceed(notice)
    }

    /// The region under the cursor is drawn, or without rendering left
    /// behind.
    pub open spec fn show(self, notice: Option<Notice>) -> (State, Step) {
        if self.rendering {
            (
                State { phase: Phase::Drawing, ..self },
                Step {
                    action: Action::Draw {
                        overlay: overlay_for(self.regions[self.cursor as int], self.distance),
                    },
                    notice,
                },
            )
        } else {
            self.advance(notice)
        }
    }
}

/// The state and the answer that follow on an event, or nothing where the
/// event is not what the state waits for.
pub open spec fn next(s: State, event: EventView) -> Option<(State, Step)> {
    match s.phase {
        Phase::Stopped => Some((s, Step { action: Action::Shutdown, notice: None })),
        Phase::Opening => match event {
            EventView::Opened(None) => Some(s.halt()),
            EventView::Opened(Some(info)) => Some(
                State {
                    frame: info.frame,
                    timeout: truncated_quotient(MILLISECONDS as nat, info.rate) as i32,
                    ..s
                }.poll(None),
            ),
            _ => None,
        },
        Phase::Polling => match event {
            EventView::Key(code) => if code == ESCAPE {
                Some(s.halt())
            } else {
                Some(
                    (
                        State { phase: Phase::Reading, key: code, ..s },
                        Step { action: Action::ReadFrame, notice: None },
                    ),
                )
            },
            _ => None,
        },
        Phase::Reading => match event {
            EventView::Frame(read) => if read {
                Some(
                    (
                        State { phase: Phase::Locating, ..s },
                        Step { action: Action::Locate { input: fitted_size(s.frame) }, notice: None },
                    ),
                )
            } else {
                Some(s.poll(Some(Notice { stage: Stage::Frame, region: None })))
            },
            _ => None,
        },
        Phase::Locating => match event {
            EventView::Located(Some(raw)) => Some(
                State { regions: decoded(candidates_of(raw), s.frame), cursor: 0, ..s }.proceed(
                    None,
                ),
            ),
            EventView::Located(None) => Some(
                State { regions: Seq::empty(), cursor: 0, ..s }.proceed(
                    Some(Notice { stage: Stage::Locator, region: None }),
                ),
            ),
            _ => None,
        },
        Phase::Extracting => match event {
            EventView::Extracted(Some((embedding, distance))) => if s.cursor == 0 && s.key
                == ENTER {
                Some(
                    (
                        State { phase: Phase::Persisting, reference: embedding, distance, ..s },
                        Step { action: Action::Persist, notice: None },
                    ),
                )
            } else {
                Some(State { distance, ..s }.show(None))
            },
            EventView::Extracted(None) => Some(
                s.advance(
                    Some(Notice { stage: Stage::Extractor, region: Some(s.cursor as usize) }),
                ),
            ),
            _ => None,
        },
        Phase::Persisting => match event {
            EventView::Persisted(written) => Some(
                s.show(
                    if written {
                        None
                    } else {
                        Some(Notice { stage: Stage::Enrollment, region: Some(s.cursor as usize) })
                    },
                ),
            ),
            _ => None,
        },
        Phase::Drawing => match event {
            EventView::Drawn => Some(s.advance(None)),
            _ => None,
        },
        Phase::Presenting => match event {
            EventView::Presented => Some(s.poll(None)),
            _ => None,
        },
    }
}

/// The state machine of the loop.
#[derive(Debug)]
pub struct Orchestrator {
    phase: Phase,
    rendering: bool,
    frame: FrameSize,
    timeout: i32,
    key: i32,
    regions: Vec<FaceRegion>,
    cursor: usize,
    distance: u64,
    store: EnrollmentStore,
}

impl View for Orchestrator {
    type V = State;

    closed spec fn view(&self) -> State {
        State {
            phase: self.phase,
            rendering: self.rendering,
            frame: self.frame,
            timeout: self.timeout,
            key: self.key,
            regions: self.regions@,
            cursor: self.cursor as nat,
            distance: self.distance,
            reference: self.store@,
        }
    }
}

impl Orchestrator {
    #[verifier::type_invariant]
    spec fn sound(self) -> bool {
        self@.valid()
    }

    /// An orchestrator that waits for the video source to be opened.
    pub fn new(rendering: bool, store: EnrollmentStore) -> (orchestrator: Orchestrator)
        ensures
            orchestrator@ == (State {
                phase: Phase::Opening,
                rendering,
                frame: FrameSize { width: 0, height: 0 },
                timeout: 0,
                key: 0,
                regions: Seq::empty(),
                cursor: 0,
                distance: 0,
                reference: store@,
            }),
            orchestrator@.valid(),
    {
        // `current` tells that the reference has the length of an embedding.
        let _reference: &Embedding = store.current();
        Orchestrator {
            phase: Phase::Opening,
            rendering,
            frame: FrameSize { width: 0, height: 0 },
            timeout: 0,
            key: 0,
            regions: Vec::new(),
            cursor: 0,
            distance: 0,
            store,
        }
    }

    /// What the orchestrator waits for.
    pub fn phase(&self) -> (phase: Phase)
        ensures
            phase == self@.phase,
    {
        self.phase
    }

    /// The reference embedding: what faces are compared with, and what is
    /// written to disk on `Action::Persist`.
    pub fn reference(&self) -> (reference: &Embedding)
        ensures
            reference@ == self@.reference,
            reference@.len() == EMBEDDING_LENGTH,
    {
        self.store.current()
    }

    /// The regions of the frame that is being worked on.
    pub fn regions(&self) -> (regions: &Vec<FaceRegion>)
        ensures
            regions@ == self@.regions,
    {
        &self.regions
    }

    fn poll(&mut self, notice: Option<Notice>) -> (step: Step)
        ensures
            (final(self)@, step) == old(self)@.poll(notice),
    {
        proof {
            use_type_invariant(&*self);
        }
        self.phase = Phase::Polling;
        Step { action: Action::PollKey { timeout: self.timeout }, notice }
    }

    fn proceed(&mut self, notice: Option<Notice>) -> (step: Step)
        ensures
            (final(self)@, step) == old(self)@.proceed(notice),
    {
        proof {
            use_type_invariant(&*self);
        }
        if self.cursor < self.regions.len() {
            self.phase = Phase::Extracting;
            Step {
                action: Action::Extract { index: self.cursor, region: self.regions[self.cursor] },
                notice,
            }
        } else if self.rendering {
            self.phase = Phase::Presenting;
            Step { action: Action::Present, notice }
        } else {
            self.poll(notice)
        }
    }

    fn advance(&mut self, notice: Option<Notice>) -> (step: Step)
        requires
            old(self)@.cursor < old(self)@.regions.len(),
        ensures
            (final(self)@, step) == old(self)@.advance(notice),
    {
        proof {
            use_type_invariant(&*self);
        }
        self.phase = Phase::Polling;
        self.cursor = self.cursor + 1;
        self.proceed(notice)
    }

    fn show(&mut self, notice: Option<Notice>) -> (step: Step)
        requires
            old(self)@.cursor < old(self)@.regions.len(),
        ensures
            (final(self)@, step) == old(self)@.show(notice),
    {
        proof {
            use_type_invariant(&*self);
        }
        if self.rendering {
            let region: FaceRegion = self.regions[self.cursor];
            let decision: MatchDecision = MatchDecision::of_distance(self.distance);
            self.phase = Phase::Drawing;
            Step {
                action: Action::Draw {
                    overlay: Overlay {
                        region,
                        color: decision.color(),
                        distance: self.distance,
                        caption_x: region.x,
                        caption_y: region.y.wrapping_sub(CAPTION_RISE),
                    },
                },
                notice,
            }
        } else {
            self.advance(notice)
        }
    }

    /// Takes what came of the last action and answers with the next one.
    /// An event that the orchestrator does not wait for changes nothing and
    /// gets no answer. Once the loop has ended every event is answered with
    /// `Action::Shutdown`.
    pub fn step(&mut self, event: Event) -> (answer: Option<Step>)
        ensures
            old(self)@.valid(),
            final(self)@.valid(),
            match next(old(self)@, event@) {
                Some((state, step)) => final(self)@ == state && answer == Some(step),
                None => final(self)@ == old(self)@ && answer.is_none(),
            },
    {
        proof {
            use_type_invariant(&*self);
        }
        match self.phase {
            Phase::Stopped => Some(Step { action: Action::Shutdown, notice: None }),
            Phase::Opening => match event {
                Event::Opened(None) => {
                    self.phase = Phase::Stopped;
                    Some(Step { action: Action::Shutdown, notice: None })
                },
                Event::Opened(Some(info)) => {
                    self.frame = info.frame;
                    self.timeout = divide_truncated(MILLISECONDS, info.rate);
                    Some(self.poll(None))
                },
                _ => None,
            },
            Phase::Polling => match event {
                Event::Key(code) => {
                    if code == ESCAPE {
                        self.phase = Phase::Stopped;
                        Some(Step { action: Action::Shutdown, notice: None })
                    } else {
                        self.key = code;
                        self.phase = Phase::Reading;
                        Some(Step { action: Action::ReadFrame, notice: None })
                    }
                },
                _ => None,
            },
            Phase::Reading => match event {
                Event::Frame(read) => {
                    if read {
                        self.phase = Phase::Locating;
                        Some(
                            Step {
                                action: Action::Locate { input: input_size(self.frame) },
                                notice: None,
                            },
                        )
                    } else {
                        Some(self.poll(Some(Notice { stage: Stage::Frame, region: None })))
                    }
                },
                _ => None,
            },
            Phase::Locating => match event {
                Event::Located(Some(raw)) => {
                    let regions: Vec<FaceRegion> = decode(&raw, self.frame);
                    assert(regions@.len() == regions.len());
                    self.cursor = 0;
                    self.regions = regions;
                    Some(self.proceed(None))
                },
                Event::Located(None) => {
                    self.cursor = 0;
                    self.regions = Vec::new();
                    Some(self.proceed(Some(Notice { stage: Stage::Locator, region: None })))
                },
                _ => None,
            },
            Phase::Extracting => match event {
                Event::Extracted(Some(measured)) => {
                    self.distance = measured.distance;
                    if self.cursor == 0 && self.key == ENTER {
                        self.store.enroll(measured.embedding);
                        self.phase = Phase::Persisting;
                        Some(Step { action: Action::Persist, notice: None })
                    } else {
                        Some(self.show(None))
                    }
                },
                Event::Extracted(None) => {
                    let index: usize = self.cursor;
                    Some(
                        self.advance(Some(Notice { stage: Stage::Extractor, region: Some(index) })),
                    )
                },
                _ => None,
            },
            Phase::Persisting => match event {
                Event::Persisted(written) => {
                    let notice: Option<Notice> = if written {
                        None
                    } else {
                        Some(Notice { stage: Stage::Enrollment, region: Some(self.cursor) })
                    };
                    Some(self.show(notice))
                },
                _ => None,
            },
            Phase::Drawing => match event {
                Event::Drawn => Some(self.advance(None)),
                _ => None,
            },
            Phase::Presenting => match event {
                Event::Presented => Some(self.poll(None)),
                _ => None,
            },
        }
    }
}

impl EventView {
    /// What holds of every event that a caller can make: the locator's
    /// output has a length that fits the machine, and an embedding has the
    /// length of one.
    pub open spec fn valid(self) -> bool {
        match self {
            EventView::Located(Some(raw)) => raw.len() <= usize::MAX,
            EventView::Extracted(Some((embedding, distance))) => embedding.len()
                == EMBEDDING_LENGTH,
            _ => true,
        }
    }
}

/// A step leads from a valid state to a valid state.
pub proof fn lemma_step_keeps_valid(s: State, event: EventView)
    requires
        s.valid(),
        event.valid(),
        next(s, event).is_some(),
    ensures
        next(s, event).unwrap().0.valid(),
{
    if let EventView::Located(Some(raw)) = event {
        crate::decoder::lemma_decoded_is_no_longer(candidates_of(raw), s.frame);
    }
}

/// Only the first face of a frame is ever enrolled, and only on the enter
/// key. The reference is written to disk exactly where a step has replaced
/// it, by the embedding of the region with the number 0; every other step
/// leaves the reference as it is.
pub proof fn lemma_only_the_first_face_is_enrolled(s: State, event: EventView)
    requires
        next(s, event).is_some(),
    ensures
        ({
            let (t, step) = next(s, event).unwrap();
            &&& step.action == Action::Persist <==> s.phase == Phase::Extracting && s.cursor == 0
                && s.key == ENTER && event is Extracted && event->Extracted_0.is_some()
            &&& step.action == Action::Persist ==> t.reference == event->Extracted_0.unwrap().0
                && t.phase == Phase::Persisting && t.cursor == 0
            &&& step.action != Action::Persist ==> t.reference == s.reference
        }),
{
}

/// A frame that cannot be read, a locator or an extractor that fails, and a
/// reference that cannot be written are reported and got over: the loop
/// goes on. After a failed write the orchestrator still holds the new
/// reference.
pub proof fn lemma_failures_do_not_end_the_loop(s: State, event: EventView)
    requires
        s.phase != Phase::Stopped,
        next(s, event).is_some(),
        event == EventView::Frame(false) || event == EventView::Located(None) || event
            == EventView::Extracted(None) || event == EventView::Persisted(false),
    ensures
        ({
            let (t, step) = next(s, event).unwrap();
            &&& t.phase != Phase::Stopped
            &&& step.action != Action::Shutdown
            &&& step.notice.is_some()
            &&& t.reference == s.reference
            &&& event == EventView::Frame(false) ==> step.notice.unwrap() == (Notice {
                stage: Stage::Frame,
                region: None,
            }) && step.action == (Action::PollKey { timeout: s.timeout })
            &&& event == EventView::Located(None) ==> step.notice.unwrap() == (Notice {
                stage: Stage::Locator,
                region: None,
            }) && t.regions.len() == 0
            &&& event == EventView::Extracted(None) ==> step.notice.unwrap() == (Notice {
                stage: Stage::Extractor,
                region: Some(s.cursor as usize),
            }) && t.cursor == s.cursor + 1
            &&& event == EventView::Persisted(false) ==> step.notice.unwrap() == (Notice {
                stage: Stage::Enrollment,
                region: Some(s.cursor as usize),
            })
        }),
{
}

/// The loop ends on the escape key and where the video source cannot be
/// opened, and on nothing else. It ends with `Action::Shutdown`, which no
/// step of a running loop answers with; once ended it stays so.
pub proof fn lemma_what_ends_the_loop(s: State, event: EventView)
    requires
        next(s, event).is_some(),
    ensures
        ({
            let (t, step) = next(s, event).unwrap();
            &&& s.phase == Phase::Stopped ==> t == s && step.action == Action::Shutdown
            &&& s.phase != Phase::Stopped ==> (t.phase == Phase::Stopped <==> (s.phase
                == Phase::Opening && event == EventView::Opened(None)) || (s.phase
                == Phase::Polling && event == EventView::Key(ESCAPE)))
            &&& step.action == Action::Shutdown <==> t.phase == Phase::Stopped
        }),
{
}

/// The regions of a frame are taken up one by one in the order in which
/// they were decoded. A region is asked for by its number, which is the
/// cursor: 0 after the locator's answer, one more after each region. The
/// regions change with the locator's answer alone.
pub proof fn lemma_regions_are_taken_in_order(s: State, event: EventView)
    requires
        s.valid(),
        next(s, event).is_some(),
    ensures
        ({
            let (t, step) = next(s, event).unwrap();
            &&& step.action is Extract ==> step.action->Extract_index == t.cursor
                && t.cursor < t.regions.len() && step.action->Extract_region
                == t.regions[t.cursor as int] && t.phase == Phase::Extracting
            &&& step.action is Extract ==> (if s.phase == Phase::Locating {
                t.cursor == 0
            } else {
                t.cursor == s.cursor + 1 && t.regions == s.regions
            })
            &&& s.phase != Phase::Locating ==> t.regions == s.regions
            &&& s.phase == Phase::Locating && event is Located ==> t.regions == (match event {
                EventView::Located(Some(raw)) => decoded(candidates_of(raw), s.frame),
                _ => Seq::empty(),
            })
            &&& step.action is Draw ==> step.action->Draw_overlay == overlay_for(
                t.regions[t.cursor as int],
                t.distance,
            ) && t.cursor == s.cursor && t.phase == Phase::Drawing
        }),
{
}

/// Without rendering nothing is drawn and nothing presented; with it every
/// region whose embedding was extracted is drawn, and every frame that was
/// read is presented once its regions are done.
pub proof fn lemma_rendering(s: State, event: EventView)
    requires
        s.valid(),
        next(s, event).is_some(),
    ensures
        ({
            let (t, step) = next(s, event).unwrap();
            &&& t.rendering == s.rendering
            &&& !s.rendering ==> !(step.action is Draw) && step.action != Action::Present
            &&& s.rendering && s.phase == Phase::Extracting && event is Extracted
                && event->Extracted_0.is_some() && !(s.cursor == 0 && s.key == ENTER)
                ==> step.action is Draw
            &&& s.rendering && s.phase == Phase::Persisting && event is Persisted
                ==> step.action is Draw
            &&& s.rendering && step.action is PollKey ==> s.phase == Phase::Opening || s.phase
                == Phase::Presenting || (s.phase == Phase::Reading && event == EventView::Frame(
                false,
            ))
        }),
{
}

} // verus!
