//! When a picture of the screen is taken, and when figures are shown on it.
use vstd::prelude::*;
use crate::axials::AxialMap;
use crate::coord::Axial;
use crate::projection::CellView;

verus! {

/// Frames before the scene is set.
pub const WARMUP: u32 = 48;

/// Frames between the scene and the picture.
pub const SETTLE: u32 = 24;

/// Frames between the picture and the end.
pub const EXIT_DELAY: u32 = 24;

/// The next frame; the last number stays.
pub open spec fn next_frame(frames: u32) -> u32 {
    if frames == u32::MAX {
        u32::MAX
    } else {
        (frames + 1) as u32
    }
}

fn count_frame(frames: u32) -> (next: u32)
    ensures
        next == next_frame(frames),
{
    if frames == u32::MAX {
        u32::MAX
    } else {
        frames + 1
    }
}

/// How far the taking of a picture has come.
#[derive(Clone, Copy, Debug, Eq, PartialEq, Structural)]
pub struct CapturePlan {
    pub frames: u32,
    pub staged: bool,
    pub requested: bool,
}

/// What a frame asks for: to set the scene, and to take the picture.
#[derive(Clone, Copy, Debug, Eq, PartialEq, Structural)]
pub struct CaptureStep {
    pub stage: bool,
    pub request: bool,
}

impl CapturePlan {
    pub fn new() -> (plan: CapturePlan)
        ensures
            plan == (CapturePlan { frames: 0, staged: false, requested: false }),
    {
        CapturePlan { frames: 0, staged: false, requested: false }
    }

    /// The plan after a frame.
    pub open spec fn after_frame(self) -> CapturePlan {
        let frames = next_frame(self.frames);
        let staged = self.staged || frames >= WARMUP;
        CapturePlan {
            frames,
            staged,
            requested: self.requested || (staged && frames >= WARMUP + SETTLE),
        }
    }

    /// Counts a frame.
    pub fn advance(&mut self) -> (step: CaptureStep)
        ensures
            *final(self) == old(self).after_frame(),
            step.stage == (!old(self).staged && final(self).staged),
            step.request == (!old(self).requested && final(self).requested),
    {
        self.frames = count_frame(self.frames);
        let stage: bool = !self.staged && self.frames >= WARMUP;
        if stage {
            self.staged = true;
        }
        let request: bool = self.staged && !self.requested && self.frames >= WARMUP + SETTLE;
        if request {
            self.requested = true;
        }
        CaptureStep { stage, request }
    }
}

/// The plan after some frames.
pub open spec fn after_frames(plan: CapturePlan, count: nat) -> CapturePlan
    decreases count,
{
    if count == 0 {
        plan
    } else {
        after_frames(plan, (count - 1) as nat).after_frame()
    }
}

/// From the start, the scene is set with the frame that ends the warm-up and the
/// picture is taken with the frame that ends the settling.
pub proof fn law_pictures_are_taken_in_time(count: nat)
    requires
        count <= u32::MAX,
    ensures
        ({
            let plan = after_frames(
                CapturePlan { frames: 0, staged: false, requested: false },
                count,
            );
            plan.frames == count && plan.staged == (count >= WARMUP) && plan.requested == (count
                >= WARMUP + SETTLE)
        }),
    decreases count,
{
    if count > 0 {
        law_pictures_are_taken_in_time((count - 1) as nat);
    }
}

/// Counts a frame before the end; whether it is there.
pub fn advance_exit(frames: &mut u32) -> (done: bool)
    ensures
        *final(frames) == next_frame(*old(frames)),
        done == (*final(frames) >= EXIT_DELAY),
{
    *frames = count_frame(*frames);
    *frames >= EXIT_DELAY
}

/// Gives a cell to a player, with as many soldiers as it can hold.
pub fn claim_screenshot_cell(
    cells: &mut AxialMap<CellView>,
    coordinate: Axial,
    owner: u32,
    infantry: u64,
)
    ensures
        final(cells)@ == (if old(cells)@.contains_key(coordinate) {
            let cell = old(cells)@[coordinate];
            old(cells)@.insert(
                coordinate,
                CellView {
                    owner: Some(owner),
                    infantry: if cell.military_capacity < infantry {
                        cell.military_capacity
                    } else {
                        infantry
                    },
                    ..cell
                },
            )
        } else {
            old(cells)@
        }),
{
    if let Some(seen) = cells.get(coordinate) {
        let cell: CellView = *seen;
        let held: u64 = if cell.military_capacity < infantry {
            cell.military_capacity
        } else {
            infantry
        };
        cells.insert(coordinate, CellView { owner: Some(owner), infantry: held, ..cell });
    }
}

/// Whether figures are shown, and whether they are to be read at once.
#[derive(Clone, Copy, Debug, Eq, PartialEq, Structural)]
pub struct PerformanceOverlayState {
    pub visible: bool,
    pub refresh_now: bool,
}

impl Default for PerformanceOverlayState {
    fn default() -> (state: PerformanceOverlayState)
        ensures
            !state.visible,
            !state.refresh_now,
    {
        PerformanceOverlayState { visible: false, refresh_now: false }
    }
}

impl PerformanceOverlayState {
    /// Shows or hides the figures. When they are shown they are read at once.
    pub fn toggle(&mut self)
        ensures
            final(self).visible == !old(self).visible,
            final(self).refresh_now == !old(self).visible,
    {
        self.visible = !self.visible;
        self.refresh_now = self.visible;
    }

    /// Whether the figures are to be read in this frame: on request, or when it
    /// is time.
    pub fn take_refresh(&mut self, due: bool) -> (refresh: bool)
        ensures
            refresh == (old(self).refresh_now || due),
            final(self).visible == old(self).visible,
            final(self).refresh_now == false,
    {
        let refresh: bool = self.refresh_now || due;
        self.refresh_now = false;
        refresh
    }
}

} // verus!
