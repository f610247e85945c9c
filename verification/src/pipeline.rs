//! Frame pipeline orchestration.
//!
//! The pipeline is a small state machine: `Idle -> Running -> Stopping ->
//! Idle`, driven by an explicit cancellation request that every stage
//! observes. Each published stream (capture status, latest frame, latest
//! vision result) is a single-slot mailbox with conflate-on-overwrite
//! semantics: a new value unconditionally replaces any unconsumed
//! previous one, so consumers only ever see the most recent completed
//! value, never a backlog. The loops that feed the mailboxes (capture,
//! decode, analysis workers) live outside this library; they call in for
//! every decision and publication.

use crate::frame::Frame;
use crate::vision::VisionResult;
use vstd::prelude::*;

verus! {

/// Capture/decode health snapshot, updated independently of vision
/// results; the two streams are not synchronized to the same frame.
/// `fps_milli` is frames-per-second scaled by 1000.
#[derive(Debug, Clone)]
pub struct CaptureStatus {
    pub is_capturing: bool,
    pub window_found: bool,
    pub window_title: Option<String>,
    pub fps_milli: u32,
    pub last_capture_time: Option<u64>,
    pub resolution: Option<(u32, u32)>,
}

impl CaptureStatus {
    /// The status means "not capturing anything right now".
    pub open spec fn is_inactive(self) -> bool {
        &&& !self.is_capturing
        &&& !self.window_found
        &&& self.window_title is None
        &&& self.fps_milli == 0
        &&& self.last_capture_time is None
        &&& self.resolution is None
    }

    /// The inactive status.
    pub fn inactive() -> (r: CaptureStatus)
        ensures
            r.is_inactive(),
    {
        CaptureStatus {
            is_capturing: false,
            window_found: false,
            window_title: None,
            fps_milli: 0,
            last_capture_time: None,
            resolution: None,
        }
    }
}

impl Default for CaptureStatus {
    /// Same as `CaptureStatus::inactive`.
    fn default() -> (r: CaptureStatus)
        ensures
            r.is_inactive(),
    {
        CaptureStatus::inactive()
    }
}

/// Frames-per-second in milli-units from a frame count over an elapsed
/// span in milliseconds; 0 for an empty span, saturating at `u32::MAX`.
pub fn compute_fps_milli(frame_count: u64, elapsed_ms: u64) -> (r: u32)
    ensures
        elapsed_ms == 0 ==> r == 0,
        elapsed_ms > 0 && frame_count * 1000000 / (elapsed_ms as int) <= u32::MAX ==> r
            == frame_count * 1000000 / (elapsed_ms as int),
        elapsed_ms > 0 && frame_count * 1000000 / (elapsed_ms as int) > u32::MAX ==> r
            == u32::MAX,
{
    if elapsed_ms == 0 {
        return 0;
    }
    let wide: u128 = ((frame_count as u128) * 1000000) / (elapsed_ms as u128);
    if wide > 0xffffffff {
        u32::MAX
    } else {
        wide as u32
    }
}

/// A single-slot mailbox with conflate-on-overwrite publication: a new
/// value replaces whatever was there, and the version counter lets a
/// consumer detect that something changed.
pub struct Latest<T> {
    value: Option<T>,
    version: u64,
}

impl<T> Latest<T> {
    /// The current value, if any was ever published.
    pub closed spec fn current(self) -> Option<T> {
        self.value
    }

    /// How many publications have happened (saturating).
    pub closed spec fn revision(self) -> u64 {
        self.version
    }

    /// An empty slot.
    pub fn new() -> (r: Latest<T>)
        ensures
            r.current() is None,
            r.revision() == 0,
    {
        Latest { value: None, version: 0 }
    }

    /// Publish a value, unconditionally overwriting any unconsumed
    /// previous one.
    pub fn publish(&mut self, v: T)
        ensures
            final(self).current() == Some(v),
            final(self).revision() >= old(self).revision(),
            old(self).revision() < u64::MAX ==> final(self).revision() == old(self).revision()
                + 1,
    {
        self.value = Some(v);
        if self.version < u64::MAX {
            self.version = self.version + 1;
        }
    }

    /// Borrow the latest value.
    pub fn peek(&self) -> (r: &Option<T>)
        ensures
            *r == self.current(),
    {
        &self.value
    }
}

/// The orchestrator's run phase.
#[derive(Debug, Clone, Copy, PartialEq, Eq, Structural)]
pub enum PipelinePhase {
    Idle,
    Running,
    Stopping,
}

/// The pipeline's shared state: run phase, the cancellation flag every
/// stage polls, and the three latest-value streams.
pub struct Pipeline {
    phase: PipelinePhase,
    stop_requested: bool,
    status: Latest<CaptureStatus>,
    frame: Latest<Frame>,
    vision: Latest<VisionResult>,
}

impl Pipeline {
    pub closed spec fn phase(self) -> PipelinePhase {
        self.phase
    }

    pub closed spec fn stop_requested(self) -> bool {
        self.stop_requested
    }

    pub closed spec fn current_status(self) -> Option<CaptureStatus> {
        self.status.current()
    }

    pub closed spec fn current_vision(self) -> Option<VisionResult> {
        self.vision.current()
    }

    pub closed spec fn current_frame(self) -> Option<Frame> {
        self.frame.current()
    }

    /// A running pipeline has not been asked to stop.
    pub open spec fn inv(self) -> bool {
        self.phase() == PipelinePhase::Running ==> !self.stop_requested()
    }

    /// A fresh, idle pipeline with nothing published.
    pub fn new() -> (r: Pipeline)
        ensures
            r.inv(),
            r.phase() == PipelinePhase::Idle,
            !r.stop_requested(),
            r.current_status() is None,
            r.current_vision() is None,
            r.current_frame() is None,
    {
        Pipeline {
            phase: PipelinePhase::Idle,
            stop_requested: false,
            status: Latest::new(),
            frame: Latest::new(),
            vision: Latest::new(),
        }
    }

    /// Start the pipeline. Starting one that is already running (or
    /// stopping) is a no-op, so a second start request cannot spawn a
    /// second set of stages.
    pub fn start(&mut self)
        requires
            old(self).inv(),
        ensures
            final(self).inv(),
            old(self).phase() == PipelinePhase::Idle ==> final(self).phase()
                == PipelinePhase::Running && !final(self).stop_requested(),
            old(self).phase() != PipelinePhase::Idle ==> final(self).phase() == old(self).phase()
                && final(self).stop_requested() == old(self).stop_requested(),
            final(self).current_status() == old(self).current_status(),
            final(self).current_vision() == old(self).current_vision(),
            final(self).current_frame() == old(self).current_frame(),
    {
        if self.phase == PipelinePhase::Idle {
            self.phase = PipelinePhase::Running;
            self.stop_requested = false;
        }
    }

    /// Request cancellation: the single shared flag every stage polls.
    /// A running pipeline moves to `Stopping`.
    pub fn stop(&mut self)
        requires
            old(self).inv(),
        ensures
            final(self).inv(),
            final(self).stop_requested(),
            old(self).phase() == PipelinePhase::Running ==> final(self).phase()
                == PipelinePhase::Stopping,
            old(self).phase() != PipelinePhase::Running ==> final(self).phase() == old(
                self,
            ).phase(),
            final(self).current_status() == old(self).current_status(),
            final(self).current_vision() == old(self).current_vision(),
            final(self).current_frame() == old(self).current_frame(),
    {
        self.stop_requested = true;
        if self.phase == PipelinePhase::Running {
            self.phase = PipelinePhase::Stopping;
        }
    }

    /// What a stage loop must do next: keep working exactly while the
    /// pipeline runs and no cancellation is pending.
    pub fn should_continue(&self) -> (r: bool)
        ensures
            r == (self.phase() == PipelinePhase::Running && !self.stop_requested()),
    {
        self.phase == PipelinePhase::Running && !self.stop_requested
    }

    /// Publish a captured frame and the capture health that came with it
    /// (conflating: only the newest frame is retained for analysis).
    pub fn publish_frame(&mut self, frame: Frame, status: CaptureStatus)
        requires
            old(self).inv(),
        ensures
            final(self).inv(),
            final(self).phase() == old(self).phase(),
            final(self).stop_requested() == old(self).stop_requested(),
            final(self).current_frame() == Some(frame),
            final(self).current_status() == Some(status),
            final(self).current_vision() == old(self).current_vision(),
    {
        self.frame.publish(frame);
        self.status.publish(status);
    }

    /// Publish a vision result, unconditionally superseding the previous
    /// one (consumers never see a backlog).
    pub fn publish_vision(&mut self, result: VisionResult)
        requires
            old(self).inv(),
        ensures
            final(self).inv(),
            final(self).phase() == old(self).phase(),
            final(self).stop_requested() == old(self).stop_requested(),
            final(self).current_vision() == Some(result),
            final(self).current_status() == old(self).current_status(),
            final(self).current_frame() == old(self).current_frame(),
    {
        self.vision.publish(result);
    }

    /// Wind the pipeline down after cancellation: the final inactive
    /// status is published (so observers never see a stale "active"
    /// state) and the pipeline returns to `Idle`.
    pub fn finalize(&mut self)
        requires
            old(self).inv(),
            old(self).stop_requested(),
        ensures
            final(self).inv(),
            final(self).phase() == PipelinePhase::Idle,
            !final(self).stop_requested(),
            final(self).current_status() matches Some(s) && s.is_inactive(),
            final(self).current_vision() == old(self).current_vision(),
            final(self).current_frame() == old(self).current_frame(),
    {
        self.status.publish(CaptureStatus::inactive());
        self.phase = PipelinePhase::Idle;
        self.stop_requested = false;
    }

    /// The latest capture status, or inactive if none was published yet.
    pub fn capture_status(&self) -> (r: &Option<CaptureStatus>)
        ensures
            *r == self.current_status(),
    {
        self.status.peek()
    }

    /// The latest vision result, if any.
    pub fn latest_vision(&self) -> (r: &Option<VisionResult>)
        ensures
            *r == self.current_vision(),
    {
        self.vision.peek()
    }

    /// The latest captured frame, if any.
    pub fn latest_frame(&self) -> (r: &Option<Frame>)
        ensures
            *r == self.current_frame(),
    {
        self.frame.peek()
    }
}

}
