//! The side-by-side thumbnail comparer: its view mode, zoom, the
//! thumbnail position shown, and the frame steps of each side, changed one
//! control at a time.

use vstd::prelude::*;

verus! {

/// How the two thumbnails are shown.
#[derive(Clone, Copy, Debug, PartialEq, Eq, Structural)]
pub enum CompareMode {
    SideBySide,
    Single,
    Swipe,
    Stacked,
    /// Pixel difference: bright pixels mark differing channels.
    Diff,
}

impl CompareMode {
    /// The button label of a mode.
    pub fn label(self) -> (r: &'static str)
        ensures
            r@ == match self {
                CompareMode::SideBySide => "Side by side"@,
                CompareMode::Single => "Single"@,
                CompareMode::Swipe => "Swipe"@,
                CompareMode::Stacked => "Stacked"@,
                CompareMode::Diff => "Pixel diff"@,
            },
    {
        match self {
            CompareMode::SideBySide => "Side by side",
            CompareMode::Single => "Single",
            CompareMode::Swipe => "Swipe",
            CompareMode::Stacked => "Stacked",
            CompareMode::Diff => "Pixel diff",
        }
    }
}

impl Default for CompareMode {
    fn default() -> (r: Self)
        ensures
            r == CompareMode::SideBySide,
    {
        CompareMode::SideBySide
    }
}

/// The smallest, fitting and largest zoom, in percent.
pub const ZOOM_MIN: u32 = 20;
pub const ZOOM_FIT: u32 = 100;
pub const ZOOM_MAX: u32 = 300;

/// The comparer's controls.
#[derive(Clone, Copy, Debug)]
pub struct ComparerState {
    pub mode: CompareMode,
    /// Position of the swipe separator, 0 to 100.
    pub swipe_pct: u32,
    /// Which thumbnail position is shown.
    pub base_idx: usize,
    /// Frames stepped from that position on side A and side B.
    pub step_a: i32,
    pub step_b: i32,
    /// Zoom in percent.
    pub zoom: u32,
}

/// A control the user works.
#[derive(Clone, Copy, Debug)]
pub enum ComparerEvent {
    SetMode(CompareMode),
    ZoomIn,
    ZoomOut,
    Fit,
    PreviousPosition,
    NextPosition,
    /// One frame back (`false`) or forward (`true`) on side A.
    StepA(bool),
    /// One frame back (`false`) or forward (`true`) on side B.
    StepB(bool),
    ResetSteps,
    Swipe(u32),
}

/// The controls hold the values the comparer can reach.
pub open spec fn comparer_wf(s: ComparerState) -> bool {
    ZOOM_MIN <= s.zoom <= ZOOM_MAX
}

/// The state after `e`; `max_base` is the last thumbnail position of the
/// longer of the two files.
pub open spec fn comparer_step(s: ComparerState, e: ComparerEvent, max_base: usize) -> ComparerState {
    match e {
        ComparerEvent::SetMode(m) => ComparerState { mode: m, ..s },
        ComparerEvent::ZoomIn => ComparerState {
            zoom: if s.zoom + 10 < ZOOM_MAX { (s.zoom + 10) as u32 } else { ZOOM_MAX },
            ..s
        },
        ComparerEvent::ZoomOut => ComparerState {
            zoom: if s.zoom >= 10 && s.zoom - 10 > ZOOM_MIN { (s.zoom - 10) as u32 } else { ZOOM_MIN },
            ..s
        },
        ComparerEvent::Fit => ComparerState { zoom: ZOOM_FIT, ..s },
        ComparerEvent::PreviousPosition => ComparerState {
            base_idx: if s.base_idx > 0 { (s.base_idx - 1) as usize } else { 0 },
            step_a: 0,
            step_b: 0,
            ..s
        },
        ComparerEvent::NextPosition => ComparerState {
            base_idx: if s.base_idx + 1 < max_base { (s.base_idx + 1) as usize } else { max_base },
            step_a: 0,
            step_b: 0,
            ..s
        },
        ComparerEvent::StepA(fwd) => ComparerState {
            step_a: if fwd { (s.step_a + 1) as i32 } else { (s.step_a - 1) as i32 },
            ..s
        },
        ComparerEvent::StepB(fwd) => ComparerState {
            step_b: if fwd { (s.step_b + 1) as i32 } else { (s.step_b - 1) as i32 },
            ..s
        },
        ComparerEvent::ResetSteps => ComparerState { step_a: 0, step_b: 0, ..s },
        ComparerEvent::Swipe(p) => ComparerState { swipe_pct: p, ..s },
    }
}

impl ComparerState {
    /// The controls when a pair is opened.
    pub fn new() -> (r: Self)
        ensures
            comparer_wf(r),
            r.mode == CompareMode::SideBySide,
            r.swipe_pct == 50,
            r.base_idx == 0,
            r.step_a == 0,
            r.step_b == 0,
            r.zoom == ZOOM_FIT,
    {
        ComparerState {
            mode: CompareMode::SideBySide,
            swipe_pct: 50,
            base_idx: 0,
            step_a: 0,
            step_b: 0,
            zoom: ZOOM_FIT,
        }
    }

    /// Applies one control. Stepping a side past the range of `i32` is left
    /// out.
    pub fn apply(&mut self, e: ComparerEvent, max_base: usize)
        requires
            comparer_wf(*old(self)),
            e matches ComparerEvent::StepA(f) ==> (if f { old(self).step_a < i32::MAX } else { old(
                self,
            ).step_a > i32::MIN }),
            e matches ComparerEvent::StepB(f) ==> (if f { old(self).step_b < i32::MAX } else { old(
                self,
            ).step_b > i32::MIN }),
        ensures
            *final(self) == comparer_step(*old(self), e, max_base),
            comparer_wf(*final(self)),
    {
        match e {
            ComparerEvent::SetMode(m) => {
                self.mode = m;
            },
            ComparerEvent::ZoomIn => {
                let z = self.zoom + 10;
                self.zoom = if z < ZOOM_MAX {
                    z
                } else {
                    ZOOM_MAX
                };
            },
            ComparerEvent::ZoomOut => {
                let z = if self.zoom >= 10 {
                    self.zoom - 10
                } else {
                    0
                };
                self.zoom = if z > ZOOM_MIN {
                    z
                } else {
                    ZOOM_MIN
                };
            },
            ComparerEvent::Fit => {
                self.zoom = ZOOM_FIT;
            },
            ComparerEvent::PreviousPosition => {
                self.base_idx = if self.base_idx > 0 {
                    self.base_idx - 1
                } else {
                    0
                };
                self.step_a = 0;
                self.step_b = 0;
            },
            ComparerEvent::NextPosition => {
                self.base_idx = if self.base_idx < max_base && self.base_idx + 1 < max_base {
                    self.base_idx + 1
                } else {
                    max_base
                };
                self.step_a = 0;
                self.step_b = 0;
            },
            ComparerEvent::StepA(fwd) => {
                self.step_a = if fwd {
                    self.step_a + 1
                } else {
                    self.step_a - 1
                };
            },
            ComparerEvent::StepB(fwd) => {
                self.step_b = if fwd {
                    self.step_b + 1
                } else {
                    self.step_b - 1
                };
            },
            ComparerEvent::ResetSteps => {
                self.step_a = 0;
                self.step_b = 0;
            },
            ComparerEvent::Swipe(p) => {
                self.swipe_pct = p;
            },
        }
    }
}

/// Zooming out undoes zooming in whenever zooming in stayed below the
/// maximum; fitting always gives 100%.
pub proof fn lemma_zoom_round_trip(s: ComparerState, max_base: usize)
    requires
        comparer_wf(s),
        s.zoom + 10 < ZOOM_MAX,
    ensures
        comparer_step(comparer_step(s, ComparerEvent::ZoomIn, max_base), ComparerEvent::ZoomOut, max_base).zoom
            == s.zoom,
        comparer_step(s, ComparerEvent::Fit, max_base).zoom == ZOOM_FIT,
{
}

/// Moving between positions never leaves `0..=max_base` once inside it,
/// and always clears both frame steps.
pub proof fn lemma_position_stays_in_range(s: ComparerState, max_base: usize, forward: bool)
    requires
        s.base_idx <= max_base,
    ensures
        ({
            let e = if forward { ComparerEvent::NextPosition } else { ComparerEvent::PreviousPosition };
            let t = comparer_step(s, e, max_base);
            &&& t.base_idx <= max_base
            &&& t.step_a == 0
            &&& t.step_b == 0
        }),
{
}

} // verus!
