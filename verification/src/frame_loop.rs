//! The frame loop: what a frame does, in which order, and what it leaves behind
//! for the next one.
//!
//! The loop decides; whoever drives it performs each step on the device and hands
//! back what came of it.

use vstd::prelude::*;

use crate::bloom;
use crate::bloom::Godray;
use crate::commands;
use crate::commands::{Cmd, Extent};
use crate::depth;
use crate::depth::{sampleable_depth_consumed, PrevDepthTrack, SAMPLEABLE_DEPTH_REST_LAYOUT};
use crate::draw_prep::DrawRun;
use crate::gpu_timer::{GpuPass, PipeStatPass, PipeStats};
use crate::image;
use crate::image::{ImageResource, LayoutUse};
use crate::mesh::Pass;
use crate::rev::FRAMES_IN_FLIGHT;

verus! {

pub const RESULT_NOT_READY: i32 = 1;

pub const RESULT_TIMEOUT: i32 = 2;

pub const RESULT_SURFACE_LOST: i32 = -1000000000;

pub const RESULT_OUT_OF_DATE: i32 = -1000001004;

/// How a frame starts.
#[derive(Clone, Copy, Debug, PartialEq, Eq, Structural)]
pub enum FrameStart {
    /// The window is minimized: reclaim uploads and frees, draw nothing.
    ReclaimIdle,
    /// Apply the pending changes of the swapchain first.
    Recreate,
    /// Nothing can be drawn into the swapchain.
    Skip,
    /// Submit an empty frame.
    EmptySubmit,
    Render,
}

/// The outcome of acquiring a swapchain image.
#[derive(Clone, Copy, Debug, PartialEq, Eq, Structural)]
pub enum Acquired {
    Image { index: u32, suboptimal: bool },
    /// No image is free.
    Missed,
    /// The surface changed under the swapchain.
    Stale,
    Error { code: i32 },
}

/// The outcome that a failed acquire stands for.
#[verifier::allow_in_spec]
pub fn acquire_failure(code: i32) -> Acquired
    returns
        (if code == RESULT_NOT_READY || code == RESULT_TIMEOUT {
            Acquired::Missed
        } else if code == RESULT_OUT_OF_DATE || code == RESULT_SURFACE_LOST {
            Acquired::Stale
        } else {
            Acquired::Error { code }
        }),
{
    if code == RESULT_NOT_READY || code == RESULT_TIMEOUT {
        Acquired::Missed
    } else if code == RESULT_OUT_OF_DATE || code == RESULT_SURFACE_LOST {
        Acquired::Stale
    } else {
        Acquired::Error { code }
    }
}

/// The next step of deciding whether a frame presents.
#[derive(Clone, Copy, Debug, PartialEq, Eq, Structural)]
pub enum PresentStep {
    /// Wait for the previous copy.
    WaitCopy { value: u64 },
    /// Look whether the previous copy has finished.
    ProbeCopy { value: u64 },
    /// Acquire an image, waiting for one at most this long.
    Acquire { timeout: u64 },
    /// Decided: present to this image, or to none.
    Done { target: Option<u32> },
    /// The swapchain cannot be used any more.
    Fail { code: i32 },
}

/// Where the decision starts. A pending capture must present: it waits for the
/// previous copy. Otherwise a frame presents when it is due and that copy is done.
#[verifier::allow_in_spec]
pub fn decide_present(force: bool, vsync: bool, interval_over: bool, last_copy: u64) -> PresentStep
    returns
        (if force {
            PresentStep::WaitCopy { value: last_copy }
        } else if vsync || interval_over {
            PresentStep::ProbeCopy { value: last_copy }
        } else {
            PresentStep::Done { target: None }
        }),
{
    if force {
        PresentStep::WaitCopy { value: last_copy }
    } else if vsync || interval_over {
        PresentStep::ProbeCopy { value: last_copy }
    } else {
        PresentStep::Done { target: None }
    }
}

/// What follows once the previous copy was waited for or looked at. A frame waits for
/// an image only with vsync or when it must present.
#[verifier::allow_in_spec]
pub fn copy_settled(force: bool, vsync: bool, reached: bool) -> PresentStep
    returns
        (if force || reached {
            PresentStep::Acquire {
                timeout: if vsync || force {
                    u64::MAX
                } else {
                    0
                },
            }
        } else {
            PresentStep::Done { target: None }
        }),
{
    if force || reached {
        PresentStep::Acquire {
            timeout: if vsync || force {
                u64::MAX
            } else {
                0
            },
        }
    } else {
        PresentStep::Done { target: None }
    }
}

/// The state that frames hand on to one another.
pub struct FrameLoop {
    /// Slot of the next frame.
    pub slot: usize,
    /// Size of the window.
    pub size: Extent,
    pub swapchain_extent: Extent,
    pub needs_recreate: bool,
    /// Empty frames left to submit.
    pub empty_submit: u32,
    /// The slot that the current present copy reads.
    pub copy_slot: Option<usize>,
    /// The slot's rate image was classified.
    pub vrs_ready: [bool; FRAMES_IN_FLIGHT],
    pub vrs_history: [bool; FRAMES_IN_FLIGHT],
    pub prev_depth: PrevDepthTrack,
}

/// Whether an image of this size has no pixels.
pub open spec fn no_pixels(e: Extent) -> bool {
    e.width == 0 || e.height == 0
}

impl FrameLoop {
    pub open spec fn wf(&self) -> bool {
        &&& self.slot < FRAMES_IN_FLIGHT
        &&& self.prev_depth.wf()
        &&& (self.copy_slot matches Some(s) ==> s < FRAMES_IN_FLIGHT)
    }

    pub fn new(size: Extent, swapchain_extent: Extent) -> (l: FrameLoop)
        ensures
            l.wf(),
            l.slot == 0,
            l.size == size,
            l.swapchain_extent == swapchain_extent,
            !l.needs_recreate,
            l.empty_submit == 0,
            l.copy_slot is None,
            forall|i: int| 0 <= i < FRAMES_IN_FLIGHT ==> !#[trigger] l.vrs_ready[i],
            forall|i: int| 0 <= i < FRAMES_IN_FLIGHT ==> !#[trigger] l.vrs_history[i],
            l.prev_depth.held() == Seq::new(FRAMES_IN_FLIGHT as nat, |i: int| None::<Extent>),
            l.prev_depth.unordered_reads() == Seq::new(FRAMES_IN_FLIGHT as nat, |i: int| false),
    {
        FrameLoop {
            slot: 0,
            size,
            swapchain_extent,
            needs_recreate: false,
            empty_submit: 0,
            copy_slot: None,
            vrs_ready: [false, false, false],
            vrs_history: [false, false, false],
            prev_depth: PrevDepthTrack::new(),
        }
    }

    /// How the next frame starts.
    pub fn begin_frame(&self) -> (r: FrameStart)
        ensures
            r == if no_pixels(self.size) {
                FrameStart::ReclaimIdle
            } else if self.needs_recreate {
                FrameStart::Recreate
            } else if self.empty_submit > 0 {
                FrameStart::EmptySubmit
            } else {
                FrameStart::Render
            },
    {
        if self.size.width == 0 || self.size.height == 0 {
            return FrameStart::ReclaimIdle;
        }
        if self.needs_recreate {
            return FrameStart::Recreate;
        }
        if self.empty_submit > 0 {
            return FrameStart::EmptySubmit;
        }
        FrameStart::Render
    }

    /// How the frame goes on once the pending changes were applied and the swapchain
    /// has its new size.
    pub fn after_recreate(&self) -> (r: FrameStart)
        ensures
            r == if no_pixels(self.swapchain_extent) {
                FrameStart::Skip
            } else if self.empty_submit > 0 {
                FrameStart::EmptySubmit
            } else {
                FrameStart::Render
            },
    {
        if self.swapchain_extent.width == 0 || self.swapchain_extent.height == 0 {
            return FrameStart::Skip;
        }
        if self.empty_submit > 0 {
            return FrameStart::EmptySubmit;
        }
        FrameStart::Render
    }

    /// The swapchain and the render targets were created anew, at `extent`: nothing of
    /// the old images is known, sampled or copied from any more.
    pub fn recreated(&mut self, extent: Extent)
        requires
            old(self).wf(),
        ensures
            final(self).wf(),
            final(self).prev_depth.held() == Seq::new(
                FRAMES_IN_FLIGHT as nat,
                |i: int| None::<Extent>,
            ),
            final(self).prev_depth.unordered_reads() == Seq::new(
                FRAMES_IN_FLIGHT as nat,
                |i: int| false,
            ),
            forall|i: int| 0 <= i < FRAMES_IN_FLIGHT ==> !#[trigger] final(self).vrs_ready[i],
            forall|i: int| 0 <= i < FRAMES_IN_FLIGHT ==> !#[trigger] final(self).vrs_history[i],
            *final(self) == (FrameLoop {
                swapchain_extent: extent,
                needs_recreate: false,
                copy_slot: None,
                vrs_ready: final(self).vrs_ready,
                vrs_history: final(self).vrs_history,
                prev_depth: final(self).prev_depth,
                ..*old(self)
            }),
    {
        self.swapchain_extent = extent;
        self.needs_recreate = false;
        self.clear_copy();
        self.vrs_ready = [false, false, false];
        self.vrs_history = [false, false, false];
        self.prev_depth.invalidate();
    }

    /// Notes the slot that the current copy reads.
    pub fn track_copy(&mut self, slot: usize)
        requires
            old(self).wf(),
            slot < FRAMES_IN_FLIGHT,
        ensures
            final(self).wf(),
            *final(self) == (FrameLoop { copy_slot: Some(slot), ..*old(self) }),
    {
        self.copy_slot = Some(slot);
    }

    /// Forgets the tracked copy: it has finished, or its images are gone.
    pub fn clear_copy(&mut self)
        requires
            old(self).wf(),
        ensures
            final(self).wf(),
            *final(self) == (FrameLoop { copy_slot: None, ..*old(self) }),
    {
        self.copy_slot = None;
    }

    /// Makes `slot` safe to render into. The result says whether the copy that reads
    /// it has to be waited for first.
    pub fn acquire_slot(&mut self, slot: usize) -> (wait: bool)
        requires
            old(self).wf(),
            slot < FRAMES_IN_FLIGHT,
        ensures
            final(self).wf(),
            wait == (old(self).copy_slot == Some(slot)),
            *final(self) == (FrameLoop {
                copy_slot: if wait {
                    None
                } else {
                    old(self).copy_slot
                },
                ..*old(self)
            }),
            final(self).copy_slot != Some(slot),
    {
        let wait: bool = match self.copy_slot {
            Some(s) => s == slot,
            None => false,
        };
        if wait {
            self.copy_slot = None;
        }
        wait
    }

    /// Asks for a new swapchain when this one no longer has the window's size. A
    /// presentation engine may call a fitting swapchain suboptimal forever.
    pub fn recreate_if_stale(&mut self)
        requires
            old(self).wf(),
        ensures
            final(self).wf(),
            *final(self) == (FrameLoop {
                needs_recreate: old(self).needs_recreate || old(self).swapchain_extent != old(self).size,
                ..*old(self)
            }),
    {
        if self.swapchain_extent.width != self.size.width || self.swapchain_extent.height
            != self.size.height {
            self.needs_recreate = true;
        }
    }

    /// Takes the outcome of the acquire and ends the decision.
    pub fn image_acquired(&mut self, outcome: Acquired) -> (r: PresentStep)
        requires
            old(self).wf(),
        ensures
            final(self).wf(),
            r == match outcome {
                Acquired::Image { index, .. } => PresentStep::Done { target: Some(index) },
                Acquired::Error { code } => PresentStep::Fail { code },
                _ => PresentStep::Done { target: None },
            },
            *final(self) == (FrameLoop {
                needs_recreate: old(self).needs_recreate || match outcome {
                    Acquired::Image { suboptimal, .. } => suboptimal && old(self).swapchain_extent
                        != old(self).size,
                    Acquired::Stale => true,
                    _ => false,
                },
                ..*old(self)
            }),
    {
        match outcome {
            Acquired::Image { index, suboptimal } => {
                if suboptimal {
                    self.recreate_if_stale();
                }
                PresentStep::Done { target: Some(index) }
            },
            Acquired::Missed => PresentStep::Done { target: None },
            Acquired::Stale => {
                self.needs_recreate = true;
                PresentStep::Done { target: None }
            },
            Acquired::Error { code } => PresentStep::Fail { code },
        }
    }

    /// Whether the frame must be submitted now, rather than with later ones.
    pub fn must_submit(&self, presents: bool, capture: bool) -> (r: bool)
        ensures
            r == (presents || self.needs_recreate || capture),
    {
        presents || self.needs_recreate || capture
    }

    /// Ends the frame: the next one uses the next slot.
    pub fn end_frame(&mut self)
        requires
            old(self).wf(),
        ensures
            final(self).wf(),
            *final(self) == (FrameLoop {
                slot: ((old(self).slot + 1) % (FRAMES_IN_FLIGHT as int)) as usize,
                ..*old(self)
            }),
    {
        self.slot = (self.slot + 1) % FRAMES_IN_FLIGHT;
    }
}

/// One phase of a rendered frame.
#[derive(Clone, Copy, Debug, PartialEq, Eq, Structural)]
pub enum FramePhase {
    /// Resolve the blended draws, which needs nothing of the slot.
    PrepareBlend,
    /// Forget the blended draws of the frame before.
    ClearBlend,
    WaitSlotAndReclaim,
    DecidePresent,
    AcquireSlot,
    WriteImmediates,
    PrepareMeshDraws,
    WriteUniforms,
    RecordRender,
    SubmitOrDefer,
    /// Present, where an image was acquired; with the resolve of the history if `taa`.
    Present { taa: bool },
    WaitForCopy,
}

/// The phases of a rendered frame. Blended draws are resolved before the slot is
/// waited for, so that they overlap the work of the frame before; everything that
/// writes the slot's buffers comes after.
pub open spec fn frame_phases(scene: bool, taa: bool, vsync: bool) -> Seq<FramePhase> {
    seq![
        if scene {
            FramePhase::PrepareBlend
        } else {
            FramePhase::ClearBlend
        },
        FramePhase::WaitSlotAndReclaim,
        FramePhase::DecidePresent,
        FramePhase::AcquireSlot,
        FramePhase::WriteImmediates,
        FramePhase::PrepareMeshDraws,
        FramePhase::WriteUniforms,
        FramePhase::RecordRender,
        FramePhase::SubmitOrDefer,
        FramePhase::Present { taa: scene && taa },
    ] + if vsync {
        seq![FramePhase::WaitForCopy]
    } else {
        Seq::empty()
    }
}

/// The phases of a frame that renders, in order. [`FrameLoop::end_frame`] ends it.
pub fn draw_frame(scene: bool, taa: bool, vsync: bool) -> (r: Vec<FramePhase>)
    ensures
        r@ == frame_phases(scene, taa, vsync),
{
    let mut r: Vec<FramePhase> = Vec::new();
    if scene {
        r.push(FramePhase::PrepareBlend);
    } else {
        r.push(FramePhase::ClearBlend);
    }
    r.push(FramePhase::WaitSlotAndReclaim);
    r.push(FramePhase::DecidePresent);
    r.push(FramePhase::AcquireSlot);
    r.push(FramePhase::WriteImmediates);
    r.push(FramePhase::PrepareMeshDraws);
    r.push(FramePhase::WriteUniforms);
    r.push(FramePhase::RecordRender);
    r.push(FramePhase::SubmitOrDefer);
    r.push(FramePhase::Present { taa: scene && taa });
    if vsync {
        r.push(FramePhase::WaitForCopy);
    }
    proof {
        assert(r@ =~= frame_phases(scene, taa, vsync));
    }
    r
}

/// A frame that must present is not dropped for being early or for a copy in flight:
/// it waits for the copy and then for an image, however long that takes.
pub proof fn law_forced_present_is_not_dropped(
    vsync: bool,
    interval_over: bool,
    last_copy: u64,
    reached: bool,
)
    ensures
        decide_present(true, vsync, interval_over, last_copy) == (PresentStep::WaitCopy {
            value: last_copy,
        }),
        copy_settled(true, vsync, reached) == (PresentStep::Acquire { timeout: u64::MAX }),
{
}

/// Without vsync and without a capture, deciding never waits.
pub proof fn law_mailbox_never_waits(interval_over: bool, last_copy: u64, reached: bool)
    ensures
        !(decide_present(false, false, interval_over, last_copy) is WaitCopy),
        copy_settled(false, false, reached) matches PresentStep::Acquire { timeout } ==> timeout
            == 0,
{
}

/// A semaphore value to wait for, and the stages that wait.
#[derive(Clone, Copy, Debug, PartialEq, Eq, Structural)]
pub struct TransferWait {
    pub value: u64,
    pub stages: u64,
}

/// The larger of two numbers.
#[verifier::allow_in_spec]
pub fn larger(a: u64, b: u64) -> u64
    returns
        (if a >= b {
            a
        } else {
            b
        }),
{
    if a >= b {
        a
    } else {
        b
    }
}

/// One wait that covers both: the later value, before the stages of either.
#[verifier::allow_in_spec]
pub fn fold_transfer_wait(a: Option<TransferWait>, b: Option<TransferWait>) -> Option<TransferWait>
    returns
        (match (a, b) {
            (Some(x), Some(y)) => Some(
                TransferWait { value: larger(x.value, y.value), stages: x.stages | y.stages },
            ),
            (Some(x), None) => Some(x),
            (None, y) => y,
        }),
{
    match (a, b) {
        (Some(x), Some(y)) => Some(
            TransferWait { value: larger(x.value, y.value), stages: x.stages | y.stages },
        ),
        (Some(x), None) => Some(x),
        (None, y) => y,
    }
}

/// The wait for mesh copies of last frame and for the shared indices of this one.
#[verifier::allow_in_spec]
pub fn mesh_wait(deferred: Option<u64>, quad: Option<u64>, stages: u64) -> Option<TransferWait>
    returns
        (match (deferred, quad) {
            (Some(a), Some(b)) => Some(TransferWait { value: larger(a, b), stages }),
            (Some(v), None) => Some(TransferWait { value: v, stages }),
            (None, Some(v)) => Some(TransferWait { value: v, stages }),
            (None, None) => None,
        }),
{
    match (deferred, quad) {
        (Some(a), Some(b)) => Some(TransferWait { value: larger(a, b), stages }),
        (Some(v), None) => Some(TransferWait { value: v, stages }),
        (None, Some(v)) => Some(TransferWait { value: v, stages }),
        (None, None) => None,
    }
}

/// Waiting for the folded value waits for both.
pub proof fn law_folded_wait_covers_both(a: Option<TransferWait>, b: Option<TransferWait>)
    ensures
        a matches Some(x) ==> fold_transfer_wait(a, b) is Some && fold_transfer_wait(
            a,
            b,
        )->Some_0.value >= x.value,
        b matches Some(y) ==> fold_transfer_wait(a, b) is Some && fold_transfer_wait(
            a,
            b,
        )->Some_0.value >= y.value,
        fold_transfer_wait(a, b) is Some <==> a is Some || b is Some,
{
}

/// Shading rates of the last classified frame of a slot.
#[derive(Clone, Copy, Debug, PartialEq, Eq, Structural)]
pub struct VrsMix {
    pub full: u64,
    pub half: u64,
    pub quarter: u64,
}

/// The rates to publish: none while the feature is off or missing.
pub fn vrs_mix(on: bool, counts: Option<[u32; 3]>) -> (r: VrsMix)
    ensures
        r == match counts {
            Some(c) if on => VrsMix {
                full: c[0] as u64,
                half: c[1] as u64,
                quarter: c[2] as u64,
            },
            _ => VrsMix { full: 0, half: 0, quarter: 0 },
        },
{
    match counts {
        Some(c) if on => VrsMix { full: c[0] as u64, half: c[1] as u64, quarter: c[2] as u64 },
        _ => VrsMix { full: 0, half: 0, quarter: 0 },
    }
}

/// Draws and triangles per camera group.
#[derive(Clone, Copy, Debug, PartialEq, Eq, Structural)]
pub struct CullGauges {
    pub draws_full: u64,
    pub draws_cutout: u64,
    pub draws_lod: u64,
    pub tris_full: u64,
    pub tris_cutout: u64,
    pub tris_lod: u64,
}

/// The gauges of a slot's cull counters: draws and indices per camera group.
pub fn cull_gauges(stats: [u32; 6]) -> (r: CullGauges)
    ensures
        r == (CullGauges {
            draws_full: stats[0] as u64,
            draws_cutout: stats[2] as u64,
            draws_lod: stats[4] as u64,
            tris_full: (stats[1] / 3) as u64,
            tris_cutout: (stats[3] / 3) as u64,
            tris_lod: (stats[5] / 3) as u64,
        }),
{
    CullGauges {
        draws_full: stats[0] as u64,
        draws_cutout: stats[2] as u64,
        draws_lod: stats[4] as u64,
        tris_full: (stats[1] / 3) as u64,
        tris_cutout: (stats[3] / 3) as u64,
        tris_lod: (stats[5] / 3) as u64,
    }
}

/// Fragment invocations per pass, by name.
#[derive(Clone, Copy, Debug, PartialEq, Eq, Structural)]
pub struct PipeGauges {
    pub frag_full: u64,
    pub frag_lod: u64,
    pub frag_cutout: u64,
    pub frag_blend: u64,
    pub frag_sky: u64,
    pub prims_full: u64,
}

/// The gauges of a slot's pipeline statistics.
pub fn pipe_gauges(s: &PipeStats) -> (r: PipeGauges)
    ensures
        r == (PipeGauges {
            frag_full: s.frag[PipeStatPass::OpaqueFull.ordinal() as int],
            frag_lod: s.frag[PipeStatPass::OpaqueLod.ordinal() as int],
            frag_cutout: s.frag[PipeStatPass::Cutout.ordinal() as int],
            frag_blend: s.frag[PipeStatPass::Transparent.ordinal() as int],
            frag_sky: s.frag[PipeStatPass::Sky.ordinal() as int],
            prims_full: s.prims_full,
        }),
{
    PipeGauges {
        frag_full: s.frag[PipeStatPass::OpaqueFull.ordinal() as usize],
        frag_lod: s.frag[PipeStatPass::OpaqueLod.ordinal() as usize],
        frag_cutout: s.frag[PipeStatPass::Cutout.ordinal() as usize],
        frag_blend: s.frag[PipeStatPass::Transparent.ordinal() as usize],
        frag_sky: s.frag[PipeStatPass::Sky.ordinal() as usize],
        prims_full: s.prims_full,
    }
}

/// Records the transition of the stand-in depth to where it is sampled, the first
/// time.
pub fn ensure_prev_depth_dummy(dummy: &mut ImageResource, cmds: &mut Vec<Cmd>)
    ensures
        old(dummy).layout == SAMPLEABLE_DEPTH_REST_LAYOUT ==> *final(dummy) == *old(dummy)
            && final(cmds)@ == old(cmds)@,
        old(dummy).layout != SAMPLEABLE_DEPTH_REST_LAYOUT ==> final(cmds)@ == old(cmds)@
            + commands::issued(
            seq![image::transition_barrier(*old(dummy), LayoutUse::FragmentSampled, false)],
        ),
        final(dummy).layout == SAMPLEABLE_DEPTH_REST_LAYOUT,
        *final(dummy) == (ImageResource { layout: SAMPLEABLE_DEPTH_REST_LAYOUT, ..*old(dummy) }),
{
    if dummy.layout() == SAMPLEABLE_DEPTH_REST_LAYOUT {
        return ;
    }
    dummy.transition(cmds, LayoutUse::FragmentSampled);
}

/// What the user switched on.
#[derive(Clone, Copy, Debug, PartialEq, Eq, Structural)]
pub struct RenderFlags {
    pub bloom: bool,
    pub taa: bool,
    pub exposure: bool,
    pub sky: bool,
    pub vrs: bool,
    pub shadows: bool,
}

/// What is known of a frame when its recording starts.
#[derive(Clone, Copy, Debug, PartialEq, Eq, Structural)]
pub struct RecordInputs {
    pub flags: RenderFlags,
    /// The frame has a 3D scene.
    pub scene: bool,
    /// The frame draws a sky.
    pub sky_list: bool,
    pub will_present: bool,
    pub profiling: bool,
    /// Layers or materials that frames in flight sample are about to be overwritten.
    pub overwrite_pending: bool,
    /// Culling was prepared and has its records.
    pub cull_ready: bool,
    /// The shadow map must be rewritten.
    pub shadow_rebuild: bool,
    /// The cascades of the shadow map are known.
    pub shadow_uniforms: bool,
    /// A capture of this frame is wanted.
    pub capture: bool,
    /// There are rate images.
    pub vrs_target: bool,
    /// The device draws water absorption.
    pub absorb_pipeline: bool,
    pub godray: Godray,
    pub render_extent: Extent,
}

/// What the steps of a frame that may record nothing have recorded.
#[derive(Clone, Copy, Debug, PartialEq, Eq, Structural)]
pub struct RecordedWork {
    /// Mesh copies were pending.
    pub copies: bool,
    /// The frame waits for the quad indices.
    pub quad_wait: bool,
    /// The frame waits for layers.
    pub texture_wait: bool,
    /// The frame waits for materials.
    pub material_wait: bool,
    /// The texture array moved.
    pub grew: bool,
    pub minimap: bool,
    /// Culling ran on the device.
    pub cull: bool,
    /// The pyramid, the spill image or the black texel was written.
    pub bloom: bool,
}

/// Whether [`RecordStep::NoteWork`] before the stamp of `pass` arms it. The steps
/// before any other stamp always record something.
#[verifier::allow_in_spec]
pub fn stamp_armed(pass: GpuPass, w: RecordedWork) -> bool
    returns
        (match pass {
            GpuPass::Copies => w.copies || w.quad_wait || w.texture_wait || w.material_wait
                || w.grew || w.minimap,
            GpuPass::Cull => w.cull,
            GpuPass::Bloom => w.bloom,
            _ => true,
        }),
{
    match pass {
        GpuPass::Copies => w.copies || w.quad_wait || w.texture_wait || w.material_wait || w.grew
            || w.minimap,
        GpuPass::Cull => w.cull,
        GpuPass::Bloom => w.bloom,
        _ => true,
    }
}

/// One step of recording a frame.
#[derive(Clone, Copy, Debug, PartialEq, Eq, Structural)]
pub enum RecordStep {
    /// Read the slot's boundary stamps.
    ReadLoad,
    /// Read the slot's pass stamps and statistics.
    ReadTimings,
    FlushPendingSubmits,
    BeginCommands,
    BeginLoad,
    BeginTimer,
    MeshCopies,
    QuadIndices,
    BlockTextures,
    Materials,
    FoldTransferWait,
    ComputeFallback,
    Minimap,
    /// Arm the stamp that follows where [`stamp_armed`] says so.
    NoteWork,
    /// Arm the stamp that follows.
    Recorded,
    Mark(GpuPass),
    Cull,
    ClearCullStats,
    ShadowPass,
    ShadowLitReady,
    ShadowUniforms,
    SkyLut { capture: bool },
    PrevDepthDummy,
    BeginPass {
        do_vrs: bool,
        sample_depth: bool,
        will_present: bool,
        absorb: bool,
        depth_sampled: bool,
    },
    ZeroCallGauges,
    BeginStats(PipeStatPass),
    EndStats(PipeStatPass),
    DrawOpaque,
    DrawCutout,
    DrawSky,
    DrawCubes,
    DrawLines,
    DrawContactShadows,
    DrawBlend,
    /// End the pass and make the color readable.
    EndSampled { classify_vrs: bool },
    /// End the pass and leave the color in its attachment layout.
    EndDeferred { classify_vrs: bool },
    VrsClassify,
    /// Meter the exposure, which makes the color readable.
    Exposure,
    Bloom,
    FinishTimer,
    FinishStats,
    EndLoad,
    EndCommands,
}

/// What a frame settles once, before it is recorded.
#[derive(Clone, Copy, Debug, PartialEq, Eq, Structural)]
pub struct RecordDecisions {
    /// Draw at the rates classified when the slot was last used.
    pub do_vrs: bool,
    pub classify_vrs: bool,
    pub spill_live: bool,
    /// Water absorption samples the previous frame's depth.
    pub absorb: bool,
    /// This frame's depth is stored for someone.
    pub sample_depth: bool,
    /// The previous frame's depth can be sampled.
    pub prev_valid: bool,
    /// The slot's depth was sampled in its previous life.
    pub depth_sampled: bool,
    pub run_exposure: bool,
}

/// `s` where `b`, nothing otherwise.
pub open spec fn when(b: bool, s: Seq<RecordStep>) -> Seq<RecordStep> {
    if b {
        s
    } else {
        Seq::empty()
    }
}

/// Some run draws blended meshes.
pub open spec fn has_blend(runs: Seq<DrawRun>) -> bool {
    exists|i: int| 0 <= i < runs.len() && (#[trigger] runs[i]).pass == Pass::Blend
}

/// What a frame in `slot` settles.
pub open spec fn decisions(l: FrameLoop, i: RecordInputs, runs: Seq<DrawRun>) -> RecordDecisions {
    let slot = l.slot as int;
    let vrs_on = i.scene && i.flags.vrs && i.vrs_target;
    let live = bloom::spill_live(i.flags.bloom, i.godray);
    let absorb = i.absorb_pipeline && has_blend(runs);
    RecordDecisions {
        do_vrs: vrs_on && l.vrs_ready[slot],
        classify_vrs: vrs_on,
        spill_live: live,
        absorb,
        sample_depth: sampleable_depth_consumed(
            i.will_present,
            i.flags.taa,
            live,
            vrs_on,
            absorb,
        ),
        prev_valid: l.prev_depth.held()[depth::slot_before(slot)] == Some(i.render_extent),
        depth_sampled: l.prev_depth.unordered_reads()[slot],
        run_exposure: i.scene && i.flags.exposure && i.will_present,
    }
}

/// Uploads and what precedes them.
pub open spec fn upload_steps(i: RecordInputs) -> Seq<RecordStep> {
    seq![RecordStep::ReadLoad] + when(i.profiling, seq![RecordStep::ReadTimings]) + when(
        i.overwrite_pending,
        seq![RecordStep::FlushPendingSubmits],
    ) + seq![RecordStep::BeginCommands, RecordStep::BeginLoad] + when(
        i.profiling,
        seq![RecordStep::BeginTimer],
    ) + seq![
        RecordStep::MeshCopies,
        RecordStep::QuadIndices,
        RecordStep::BlockTextures,
        RecordStep::Materials,
        RecordStep::FoldTransferWait,
        RecordStep::ComputeFallback,
        RecordStep::Minimap,
    ] + when(i.profiling, seq![RecordStep::NoteWork, RecordStep::Mark(GpuPass::Copies)])
}

/// Culling, shadows and clouds, which the scene pass reads.
pub open spec fn prelude_steps(i: RecordInputs) -> Seq<RecordStep> {
    (if i.scene && i.cull_ready {
        seq![RecordStep::Cull] + when(
            i.profiling,
            seq![RecordStep::NoteWork, RecordStep::Mark(GpuPass::Cull)],
        )
    } else {
        when(i.profiling, seq![RecordStep::ClearCullStats])
    }) + (if !i.scene {
        Seq::empty()
    } else if i.shadow_rebuild {
        seq![RecordStep::ShadowPass] + when(
            i.profiling,
            seq![RecordStep::Recorded, RecordStep::Mark(GpuPass::ShadowMap)],
        ) + when(!i.flags.shadows, seq![RecordStep::ShadowLitReady])
    } else {
        when(i.shadow_uniforms, seq![RecordStep::ShadowUniforms])
    }) + when(
        i.flags.sky && i.sky_list && i.scene,
        seq![RecordStep::SkyLut { capture: i.capture }],
    )
}

/// The scene pass up to its end. Whatever writes depth comes before the sky, and
/// everything transparent comes last.
pub open spec fn scene_steps(i: RecordInputs, d: RecordDecisions) -> Seq<RecordStep> {
    when(d.absorb && !d.prev_valid, seq![RecordStep::PrevDepthDummy]) + seq![
        RecordStep::BeginPass {
            do_vrs: d.do_vrs,
            sample_depth: d.sample_depth,
            will_present: i.will_present,
            absorb: d.absorb,
            depth_sampled: d.depth_sampled,
        },
    ] + (if !i.scene {
        seq![RecordStep::ZeroCallGauges]
    } else {
        opaque_steps(i) + transparent_steps(i)
    }) + when(i.profiling, seq![RecordStep::Mark(GpuPass::Overlay)])
}

pub open spec fn opaque_steps(i: RecordInputs) -> Seq<RecordStep> {
    seq![RecordStep::DrawOpaque, RecordStep::DrawCutout] + when(
        i.profiling,
        seq![RecordStep::BeginStats(PipeStatPass::Sky)],
    ) + when(i.flags.sky, seq![RecordStep::DrawSky]) + when(
        i.profiling,
        seq![RecordStep::EndStats(PipeStatPass::Sky), RecordStep::Mark(GpuPass::Sky)],
    )
}

pub open spec fn transparent_steps(i: RecordInputs) -> Seq<RecordStep> {
    seq![RecordStep::DrawCubes] + when(i.profiling, seq![RecordStep::Mark(GpuPass::Cubes)]) + seq![
        RecordStep::DrawLines,
    ] + when(i.profiling, seq![RecordStep::Mark(GpuPass::Lines)]) + seq![
        RecordStep::DrawContactShadows,
    ] + when(
        i.profiling,
        seq![
            RecordStep::Mark(GpuPass::Shadows),
            RecordStep::BeginStats(PipeStatPass::Transparent),
        ],
    ) + seq![RecordStep::DrawBlend] + when(
        i.profiling,
        seq![
            RecordStep::EndStats(PipeStatPass::Transparent),
            RecordStep::Mark(GpuPass::Transparent),
        ],
    )
}

/// The classification of this frame's depth for the slot's next use.
pub open spec fn classify_steps(i: RecordInputs, d: RecordDecisions) -> Seq<RecordStep> {
    when(
        d.classify_vrs,
        seq![RecordStep::VrsClassify] + when(
            i.profiling,
            seq![RecordStep::Recorded, RecordStep::Mark(GpuPass::Vrs)],
        ),
    )
}

/// The end of the pass and of the frame. The color is made readable exactly once
/// where the frame presents: by the metering where it runs, else by the pass.
pub open spec fn tail_steps(i: RecordInputs, d: RecordDecisions) -> Seq<RecordStep> {
    let resolve = when(i.profiling, seq![RecordStep::Mark(GpuPass::Resolve)]);
    seq![
        if i.will_present && !d.run_exposure {
            RecordStep::EndSampled { classify_vrs: d.classify_vrs }
        } else {
            RecordStep::EndDeferred { classify_vrs: d.classify_vrs }
        },
    ] + resolve + classify_steps(i, d) + when(
        d.run_exposure,
        seq![RecordStep::Exposure] + when(
            i.profiling,
            seq![RecordStep::Recorded, RecordStep::Mark(GpuPass::Exposure)],
        ),
    ) + when(i.will_present, seq![RecordStep::Bloom]) + when(
        i.profiling,
        seq![RecordStep::NoteWork, RecordStep::Mark(GpuPass::Bloom), RecordStep::FinishTimer]
            + when(i.scene, seq![RecordStep::FinishStats]),
    ) + seq![RecordStep::EndLoad, RecordStep::EndCommands]
}

/// The whole recording.
pub open spec fn record_steps(i: RecordInputs, d: RecordDecisions) -> Seq<RecordStep> {
    upload_steps(i) + prelude_steps(i) + scene_steps(i, d) + tail_steps(i, d)
}

fn push_uploads(steps: &mut Vec<RecordStep>, i: &RecordInputs)
    ensures
        final(steps)@ == old(steps)@ + upload_steps(*i),
{
    let ghost orig = steps@;
    steps.push(RecordStep::ReadLoad);
    if i.profiling {
        steps.push(RecordStep::ReadTimings);
    }
    if i.overwrite_pending {
        steps.push(RecordStep::FlushPendingSubmits);
    }
    steps.push(RecordStep::BeginCommands);
    steps.push(RecordStep::BeginLoad);
    if i.profiling {
        steps.push(RecordStep::BeginTimer);
    }
    steps.push(RecordStep::MeshCopies);
    steps.push(RecordStep::QuadIndices);
    steps.push(RecordStep::BlockTextures);
    steps.push(RecordStep::Materials);
    steps.push(RecordStep::FoldTransferWait);
    steps.push(RecordStep::ComputeFallback);
    steps.push(RecordStep::Minimap);
    if i.profiling {
        steps.push(RecordStep::NoteWork);
        steps.push(RecordStep::Mark(GpuPass::Copies));
    }
    proof {
        assert(steps@ =~= orig + upload_steps(*i));
    }
}

fn push_prelude(steps: &mut Vec<RecordStep>, i: &RecordInputs)
    ensures
        final(steps)@ == old(steps)@ + prelude_steps(*i),
{
    let ghost orig = steps@;
    if i.scene && i.cull_ready {
        steps.push(RecordStep::Cull);
        if i.profiling {
            steps.push(RecordStep::NoteWork);
            steps.push(RecordStep::Mark(GpuPass::Cull));
        }
    } else if i.profiling {
        steps.push(RecordStep::ClearCullStats);
    }
    if i.scene {
        if i.shadow_rebuild {
            steps.push(RecordStep::ShadowPass);
            if i.profiling {
                steps.push(RecordStep::Recorded);
                steps.push(RecordStep::Mark(GpuPass::ShadowMap));
            }
            if !i.flags.shadows {
                steps.push(RecordStep::ShadowLitReady);
            }
        } else if i.shadow_uniforms {
            steps.push(RecordStep::ShadowUniforms);
        }
    }
    if i.flags.sky && i.sky_list && i.scene {
        steps.push(RecordStep::SkyLut { capture: i.capture });
    }
    proof {
        assert(steps@ =~= orig + prelude_steps(*i));
    }
}

fn push_scene(steps: &mut Vec<RecordStep>, i: &RecordInputs, d: &RecordDecisions)
    ensures
        final(steps)@ == old(steps)@ + scene_steps(*i, *d),
{
    let ghost orig = steps@;
    if d.absorb && !d.prev_valid {
        steps.push(RecordStep::PrevDepthDummy);
    }
    steps.push(
        RecordStep::BeginPass {
            do_vrs: d.do_vrs,
            sample_depth: d.sample_depth,
            will_present: i.will_present,
            absorb: d.absorb,
            depth_sampled: d.depth_sampled,
        },
    );
    if i.scene {
        push_opaque(steps, i);
        push_transparent(steps, i);
    } else {
        steps.push(RecordStep::ZeroCallGauges);
    }
    if i.profiling {
        steps.push(RecordStep::Mark(GpuPass::Overlay));
    }
    proof {
        assert(steps@ =~= orig + scene_steps(*i, *d));
    }
}

fn push_opaque(steps: &mut Vec<RecordStep>, i: &RecordInputs)
    ensures
        final(steps)@ == old(steps)@ + opaque_steps(*i),
{
    let ghost orig = steps@;
    steps.push(RecordStep::DrawOpaque);
    steps.push(RecordStep::DrawCutout);
    if i.profiling {
        steps.push(RecordStep::BeginStats(PipeStatPass::Sky));
    }
    if i.flags.sky {
        steps.push(RecordStep::DrawSky);
    }
    if i.profiling {
        steps.push(RecordStep::EndStats(PipeStatPass::Sky));
        steps.push(RecordStep::Mark(GpuPass::Sky));
    }
    proof {
        assert(steps@ =~= orig + opaque_steps(*i));
    }
}

fn push_transparent(steps: &mut Vec<RecordStep>, i: &RecordInputs)
    ensures
        final(steps)@ == old(steps)@ + transparent_steps(*i),
{
    let ghost orig = steps@;
    steps.push(RecordStep::DrawCubes);
    if i.profiling {
        steps.push(RecordStep::Mark(GpuPass::Cubes));
    }
    steps.push(RecordStep::DrawLines);
    if i.profiling {
        steps.push(RecordStep::Mark(GpuPass::Lines));
    }
    steps.push(RecordStep::DrawContactShadows);
    if i.profiling {
        steps.push(RecordStep::Mark(GpuPass::Shadows));
        steps.push(RecordStep::BeginStats(PipeStatPass::Transparent));
    }
    steps.push(RecordStep::DrawBlend);
    if i.profiling {
        steps.push(RecordStep::EndStats(PipeStatPass::Transparent));
        steps.push(RecordStep::Mark(GpuPass::Transparent));
    }
    proof {
        assert(steps@ =~= orig + transparent_steps(*i));
    }
}

fn push_tail(steps: &mut Vec<RecordStep>, i: &RecordInputs, d: &RecordDecisions)
    ensures
        final(steps)@ == old(steps)@ + tail_steps(*i, *d),
{
    let ghost orig = steps@;
    if d.run_exposure {
        steps.push(RecordStep::EndDeferred { classify_vrs: d.classify_vrs });
    } else if i.will_present {
        steps.push(RecordStep::EndSampled { classify_vrs: d.classify_vrs });
    } else {
        steps.push(RecordStep::EndDeferred { classify_vrs: d.classify_vrs });
    }
    if i.profiling {
        steps.push(RecordStep::Mark(GpuPass::Resolve));
    }
    if d.classify_vrs {
        steps.push(RecordStep::VrsClassify);
        if i.profiling {
            steps.push(RecordStep::Recorded);
            steps.push(RecordStep::Mark(GpuPass::Vrs));
        }
    }
    if d.run_exposure {
        steps.push(RecordStep::Exposure);
        if i.profiling {
            steps.push(RecordStep::Recorded);
            steps.push(RecordStep::Mark(GpuPass::Exposure));
        }
    }
    if i.will_present {
        steps.push(RecordStep::Bloom);
    }
    if i.profiling {
        steps.push(RecordStep::NoteWork);
        steps.push(RecordStep::Mark(GpuPass::Bloom));
        steps.push(RecordStep::FinishTimer);
        if i.scene {
            steps.push(RecordStep::FinishStats);
        }
    }
    steps.push(RecordStep::EndLoad);
    steps.push(RecordStep::EndCommands);
    proof {
        assert(steps@ =~= orig + tail_steps(*i, *d));
    }
}

fn any_blend(runs: &Vec<DrawRun>) -> (r: bool)
    ensures
        r == has_blend(runs@),
{
    let mut i: usize = 0;
    while i < runs.len()
        invariant
            i <= runs.len(),
            forall|k: int| 0 <= k < i ==> (#[trigger] runs[k]).pass != Pass::Blend,
        decreases runs.len() - i,
    {
        if let Pass::Blend = runs[i].pass {
            return true;
        }
        i = i + 1;
    }
    false
}

/// A planned recording.
pub struct RecordPlan {
    pub steps: Vec<RecordStep>,
    pub decisions: RecordDecisions,
}

/// The previous depths after a frame in `slot` with decisions `d`.
pub open spec fn depth_after(
    held: Seq<Option<Extent>>,
    reads: Seq<bool>,
    slot: int,
    d: RecordDecisions,
    extent: Extent,
) -> (Seq<Option<Extent>>, Seq<bool>) {
    let begun = reads.update(slot, false);
    (
        held.update(
            slot,
            if d.sample_depth {
                Some(extent)
            } else {
                None
            },
        ),
        if d.absorb && d.prev_valid {
            begun.update(depth::slot_before(slot), true)
        } else {
            begun
        },
    )
}

impl FrameLoop {
    /// Plans the recording of the frame in the current slot, and takes note of what
    /// it leaves behind.
    pub fn record_render(&mut self, i: &RecordInputs, runs: &Vec<DrawRun>) -> (p: RecordPlan)
        requires
            old(self).wf(),
        ensures
            final(self).wf(),
            p.decisions == decisions(*old(self), *i, runs@),
            p.steps@ == record_steps(*i, p.decisions),
            (final(self).prev_depth.held(), final(self).prev_depth.unordered_reads())
                == depth_after(
                old(self).prev_depth.held(),
                old(self).prev_depth.unordered_reads(),
                old(self).slot as int,
                p.decisions,
                i.render_extent,
            ),
            final(self).vrs_ready@ == if p.decisions.classify_vrs {
                old(self).vrs_ready@.update(old(self).slot as int, true)
            } else {
                old(self).vrs_ready@
            },
            final(self).vrs_history@ == if p.decisions.classify_vrs {
                old(self).vrs_history@.update(old(self).slot as int, true)
            } else {
                old(self).vrs_history@
            },
            *final(self) == (FrameLoop {
                vrs_ready: final(self).vrs_ready,
                vrs_history: final(self).vrs_history,
                prev_depth: final(self).prev_depth,
                ..*old(self)
            }),
    {
        let ghost before = *self;
        let slot: usize = self.slot;
        let vrs_on: bool = i.scene && i.flags.vrs && i.vrs_target;
        let live: bool = bloom::spill_live(i.flags.bloom, i.godray);
        let absorb: bool = i.absorb_pipeline && any_blend(runs);
        let do_vrs: bool = vrs_on && self.vrs_ready[slot];
        let prev_valid: bool = self.prev_depth.valid(slot, i.render_extent);
        let depth_sampled: bool = self.prev_depth.begin_slot(slot);
        if absorb && prev_valid {
            self.prev_depth.mark_sampled(PrevDepthTrack::prev_slot(slot));
        }
        let d: RecordDecisions = RecordDecisions {
            do_vrs,
            classify_vrs: vrs_on,
            spill_live: live,
            absorb,
            sample_depth: sampleable_depth_consumed(
                i.will_present,
                i.flags.taa,
                live,
                vrs_on,
                absorb,
            ),
            prev_valid,
            depth_sampled,
            run_exposure: i.scene && i.flags.exposure && i.will_present,
        };
        self.prev_depth.finish(slot, d.sample_depth, i.render_extent);
        if vrs_on {
            self.vrs_ready[slot] = true;
            self.vrs_history[slot] = true;
        }
        let mut steps: Vec<RecordStep> = Vec::new();
        push_uploads(&mut steps, i);
        push_prelude(&mut steps, i);
        push_scene(&mut steps, i, &d);
        push_tail(&mut steps, i, &d);
        proof {
            assert(d == decisions(before, *i, runs@));
            assert(steps@ =~= record_steps(*i, d));
        }
        RecordPlan { steps, decisions: d }
    }
}

/// The steps for which `keep` holds, in order.
pub open spec fn select(s: Seq<RecordStep>, keep: spec_fn(RecordStep) -> bool) -> Seq<RecordStep>
    decreases s.len(),
{
    if s.len() == 0 {
        Seq::empty()
    } else {
        let rest = select(s.drop_last(), keep);
        if keep(s.last()) {
            rest.push(s.last())
        } else {
            rest
        }
    }
}

proof fn lemma_select_adds(
    a: Seq<RecordStep>,
    b: Seq<RecordStep>,
    keep: spec_fn(RecordStep) -> bool,
)
    ensures
        select(a + b, keep) == select(a, keep) + select(b, keep),
    decreases b.len(),
{
    if b.len() == 0 {
        assert(a + b =~= a);
        assert(select(a, keep) + select(b, keep) =~= select(a, keep));
    } else {
        assert((a + b).drop_last() =~= a + b.drop_last());
        lemma_select_adds(a, b.drop_last(), keep);
        assert(select(a + b, keep) =~= select(a, keep) + select(b, keep));
    }
}

proof fn lemma_select_none(s: Seq<RecordStep>, keep: spec_fn(RecordStep) -> bool)
    requires
        forall|k: int| 0 <= k < s.len() ==> !keep(#[trigger] s[k]),
    ensures
        select(s, keep) == Seq::<RecordStep>::empty(),
    decreases s.len(),
{
    if s.len() > 0 {
        assert(!keep(s[s.len() - 1]));
        assert forall|k: int| 0 <= k < s.drop_last().len() implies !keep(
            #[trigger] s.drop_last()[k],
        ) by {
            assert(!keep(s[k]));
        }
        lemma_select_none(s.drop_last(), keep);
    }
}

proof fn lemma_select_one(x: RecordStep, keep: spec_fn(RecordStep) -> bool)
    ensures
        select(seq![x], keep) == if keep(x) {
            seq![x]
        } else {
            Seq::empty()
        },
{
    assert(seq![x].drop_last() =~= Seq::<RecordStep>::empty());
    assert(select(seq![x].drop_last(), keep) =~= Seq::<RecordStep>::empty());
    assert(select(seq![x], keep) =~= if keep(x) {
        seq![x]
    } else {
        Seq::empty()
    });
}

/// A step that draws.
pub open spec fn is_draw(s: RecordStep) -> bool {
    s is DrawOpaque || s is DrawCutout || s is DrawSky || s is DrawCubes || s is DrawLines
        || s is DrawContactShadows || s is DrawBlend
}

/// A step that makes the frame's color readable.
pub open spec fn makes_readable(s: RecordStep) -> bool {
    s is EndSampled || s is Exposure
}

/// The draws of a frame: everything that writes depth, then the sky, then what only
/// tests against depth, and blended meshes last of all.
pub open spec fn draw_order(sky: bool) -> Seq<RecordStep> {
    seq![RecordStep::DrawOpaque, RecordStep::DrawCutout] + when(sky, seq![RecordStep::DrawSky])
        + seq![
        RecordStep::DrawCubes,
        RecordStep::DrawLines,
        RecordStep::DrawContactShadows,
        RecordStep::DrawBlend,
    ]
}

proof fn lemma_transparent_draws(i: RecordInputs)
    ensures
        select(transparent_steps(i), |s: RecordStep| is_draw(s)) == seq![
            RecordStep::DrawCubes,
            RecordStep::DrawLines,
            RecordStep::DrawContactShadows,
            RecordStep::DrawBlend,
        ],
{
    let keep = |s: RecordStep| is_draw(s);
    let a = seq![RecordStep::DrawCubes];
    let b = when(i.profiling, seq![RecordStep::Mark(GpuPass::Cubes)]);
    let c = seq![RecordStep::DrawLines];
    let d = when(i.profiling, seq![RecordStep::Mark(GpuPass::Lines)]);
    let e = seq![RecordStep::DrawContactShadows];
    let f = when(
        i.profiling,
        seq![
            RecordStep::Mark(GpuPass::Shadows),
            RecordStep::BeginStats(PipeStatPass::Transparent),
        ],
    );
    let g = seq![RecordStep::DrawBlend];
    let h = when(
        i.profiling,
        seq![
            RecordStep::EndStats(PipeStatPass::Transparent),
            RecordStep::Mark(GpuPass::Transparent),
        ],
    );
    lemma_select_one(RecordStep::DrawCubes, keep);
    lemma_select_one(RecordStep::DrawLines, keep);
    lemma_select_one(RecordStep::DrawContactShadows, keep);
    lemma_select_one(RecordStep::DrawBlend, keep);
    lemma_select_none(b, keep);
    lemma_select_none(d, keep);
    lemma_select_none(f, keep);
    lemma_select_none(h, keep);
    lemma_select_adds(a, b, keep);
    lemma_select_adds(a + b, c, keep);
    lemma_select_adds(a + b + c, d, keep);
    lemma_select_adds(a + b + c + d, e, keep);
    lemma_select_adds(a + b + c + d + e, f, keep);
    lemma_select_adds(a + b + c + d + e + f, g, keep);
    lemma_select_adds(a + b + c + d + e + f + g, h, keep);
    assert(select(transparent_steps(i), keep) =~= seq![
        RecordStep::DrawCubes,
        RecordStep::DrawLines,
        RecordStep::DrawContactShadows,
        RecordStep::DrawBlend,
    ]);
}

proof fn lemma_opaque_draws(i: RecordInputs)
    ensures
        select(opaque_steps(i), |s: RecordStep| is_draw(s)) == seq![
            RecordStep::DrawOpaque,
            RecordStep::DrawCutout,
        ] + when(i.flags.sky, seq![RecordStep::DrawSky]),
{
    let keep = |s: RecordStep| is_draw(s);
    let a1 = seq![RecordStep::DrawOpaque];
    let a2 = seq![RecordStep::DrawCutout];
    let a = seq![RecordStep::DrawOpaque, RecordStep::DrawCutout];
    let b = when(i.profiling, seq![RecordStep::BeginStats(PipeStatPass::Sky)]);
    let c = when(i.flags.sky, seq![RecordStep::DrawSky]);
    let d = when(
        i.profiling,
        seq![RecordStep::EndStats(PipeStatPass::Sky), RecordStep::Mark(GpuPass::Sky)],
    );
    assert(a =~= a1 + a2);
    lemma_select_one(RecordStep::DrawOpaque, keep);
    lemma_select_one(RecordStep::DrawCutout, keep);
    lemma_select_one(RecordStep::DrawSky, keep);
    lemma_select_adds(a1, a2, keep);
    lemma_select_none(b, keep);
    lemma_select_none(d, keep);
    if !i.flags.sky {
        lemma_select_none(c, keep);
    }
    lemma_select_adds(a, b, keep);
    lemma_select_adds(a + b, c, keep);
    lemma_select_adds(a + b + c, d, keep);
    assert(select(opaque_steps(i), keep) =~= seq![RecordStep::DrawOpaque, RecordStep::DrawCutout]
        + when(i.flags.sky, seq![RecordStep::DrawSky]));
}

/// Neither draws nor makes the color readable.
spec fn is_plain(s: RecordStep) -> bool {
    !is_draw(s) && !makes_readable(s)
}

spec fn all_plain(s: Seq<RecordStep>) -> bool {
    forall|k: int| 0 <= k < s.len() ==> is_plain(#[trigger] s[k])
}

proof fn lemma_plain_adds(a: Seq<RecordStep>, b: Seq<RecordStep>)
    requires
        all_plain(a),
        all_plain(b),
    ensures
        all_plain(a + b),
{
    assert forall|k: int| 0 <= k < (a + b).len() implies is_plain(#[trigger] (a + b)[k]) by {
        if k < a.len() {
            assert(is_plain(a[k]));
        } else {
            assert(is_plain(b[k - a.len()]));
        }
    }
}

proof fn lemma_uploads_are_plain(i: RecordInputs)
    ensures
        all_plain(upload_steps(i)),
{
    let a = seq![RecordStep::ReadLoad] + when(i.profiling, seq![RecordStep::ReadTimings]) + when(
        i.overwrite_pending,
        seq![RecordStep::FlushPendingSubmits],
    ) + seq![RecordStep::BeginCommands, RecordStep::BeginLoad] + when(
        i.profiling,
        seq![RecordStep::BeginTimer],
    );
    let b = seq![
        RecordStep::MeshCopies,
        RecordStep::QuadIndices,
        RecordStep::BlockTextures,
        RecordStep::Materials,
        RecordStep::FoldTransferWait,
        RecordStep::ComputeFallback,
        RecordStep::Minimap,
    ];
    let c = when(i.profiling, seq![RecordStep::NoteWork, RecordStep::Mark(GpuPass::Copies)]);
    lemma_plain_adds(a, b);
    lemma_plain_adds(a + b, c);
}

proof fn lemma_prelude_is_plain(i: RecordInputs)
    ensures
        all_plain(prelude_steps(i)),
{
    let a = if i.scene && i.cull_ready {
        seq![RecordStep::Cull] + when(
            i.profiling,
            seq![RecordStep::NoteWork, RecordStep::Mark(GpuPass::Cull)],
        )
    } else {
        when(i.profiling, seq![RecordStep::ClearCullStats])
    };
    let b = if !i.scene {
        Seq::empty()
    } else if i.shadow_rebuild {
        seq![RecordStep::ShadowPass] + when(
            i.profiling,
            seq![RecordStep::Recorded, RecordStep::Mark(GpuPass::ShadowMap)],
        ) + when(!i.flags.shadows, seq![RecordStep::ShadowLitReady])
    } else {
        when(i.shadow_uniforms, seq![RecordStep::ShadowUniforms])
    };
    let c = when(
        i.flags.sky && i.sky_list && i.scene,
        seq![RecordStep::SkyLut { capture: i.capture }],
    );
    assert(all_plain(a));
    assert(all_plain(b));
    lemma_plain_adds(a, b);
    lemma_plain_adds(a + b, c);
}

/// What selects draws or color finalizers skips plain steps.
proof fn lemma_plain_is_skipped(s: Seq<RecordStep>)
    requires
        all_plain(s),
    ensures
        select(s, |x: RecordStep| is_draw(x)) == Seq::<RecordStep>::empty(),
        select(s, |x: RecordStep| makes_readable(x)) == Seq::<RecordStep>::empty(),
{
    assert forall|k: int| 0 <= k < s.len() implies !is_draw(#[trigger] s[k]) && !makes_readable(
        s[k],
    ) by {
        assert(is_plain(s[k]));
    }
    lemma_select_none(s, |x: RecordStep| is_draw(x));
    lemma_select_none(s, |x: RecordStep| makes_readable(x));
}

/// Before and behind the scene, a frame's selection is that of its scene and tail.
proof fn lemma_select_frame(
    i: RecordInputs,
    d: RecordDecisions,
    keep: spec_fn(RecordStep) -> bool,
)
    requires
        select(upload_steps(i), keep) == Seq::<RecordStep>::empty(),
        select(prelude_steps(i), keep) == Seq::<RecordStep>::empty(),
    ensures
        select(record_steps(i, d), keep) == select(scene_steps(i, d), keep) + select(
            tail_steps(i, d),
            keep,
        ),
{
    let up = upload_steps(i);
    let pre = prelude_steps(i);
    let scene = scene_steps(i, d);
    let tail = tail_steps(i, d);
    lemma_select_adds(up, pre, keep);
    lemma_select_adds(up + pre, scene, keep);
    lemma_select_adds(up + pre + scene, tail, keep);
    assert(select(record_steps(i, d), keep) =~= select(scene, keep) + select(tail, keep));
}

/// The scene pass around its draws is plain.
proof fn lemma_select_scene(
    i: RecordInputs,
    d: RecordDecisions,
    keep: spec_fn(RecordStep) -> bool,
)
    requires
        forall|s: RecordStep| #[trigger] keep(s) ==> !is_plain(s),
    ensures
        select(scene_steps(i, d), keep) == if i.scene {
            select(opaque_steps(i), keep) + select(transparent_steps(i), keep)
        } else {
            Seq::empty()
        },
{
    let head = when(d.absorb && !d.prev_valid, seq![RecordStep::PrevDepthDummy]) + seq![
        RecordStep::BeginPass {
            do_vrs: d.do_vrs,
            sample_depth: d.sample_depth,
            will_present: i.will_present,
            absorb: d.absorb,
            depth_sampled: d.depth_sampled,
        },
    ];
    let last = when(i.profiling, seq![RecordStep::Mark(GpuPass::Overlay)]);
    lemma_select_none(head, keep);
    lemma_select_none(last, keep);
    let body = if !i.scene {
        seq![RecordStep::ZeroCallGauges]
    } else {
        opaque_steps(i) + transparent_steps(i)
    };
    if i.scene {
        lemma_select_adds(opaque_steps(i), transparent_steps(i), keep);
    } else {
        lemma_select_none(body, keep);
    }
    lemma_select_adds(head, body, keep);
    lemma_select_adds(head + body, last, keep);
    assert(select(scene_steps(i, d), keep) =~= select(body, keep));
}

proof fn lemma_tail_draws_nothing(i: RecordInputs, d: RecordDecisions)
    ensures
        select(tail_steps(i, d), |s: RecordStep| is_draw(s)) == Seq::<RecordStep>::empty(),
{
    lemma_select_none(tail_steps(i, d), |s: RecordStep| is_draw(s));
}

/// A frame with a scene draws everything that writes depth before anything that is
/// blended over it, each once; a frame without one draws nothing.
pub proof fn law_draw_order(i: RecordInputs, d: RecordDecisions)
    ensures
        select(record_steps(i, d), |s: RecordStep| is_draw(s)) == if i.scene {
            draw_order(i.flags.sky)
        } else {
            Seq::empty()
        },
{
    let keep = |s: RecordStep| is_draw(s);
    lemma_uploads_are_plain(i);
    lemma_prelude_is_plain(i);
    lemma_plain_is_skipped(upload_steps(i));
    lemma_plain_is_skipped(prelude_steps(i));
    lemma_select_frame(i, d, keep);
    lemma_select_scene(i, d, keep);
    lemma_tail_draws_nothing(i, d);
    lemma_opaque_draws(i);
    lemma_transparent_draws(i);
    assert(select(record_steps(i, d), keep) =~= if i.scene {
        draw_order(i.flags.sky)
    } else {
        Seq::empty()
    });
}

proof fn lemma_scene_finalizes_nothing(i: RecordInputs)
    ensures
        select(opaque_steps(i), |s: RecordStep| makes_readable(s)) == Seq::<RecordStep>::empty(),
        select(transparent_steps(i), |s: RecordStep| makes_readable(s)) == Seq::<
            RecordStep,
        >::empty(),
{
    lemma_select_none(opaque_steps(i), |s: RecordStep| makes_readable(s));
    lemma_select_none(transparent_steps(i), |s: RecordStep| makes_readable(s));
}

/// The steps behind the metering.
spec fn closing_steps(i: RecordInputs) -> Seq<RecordStep> {
    when(i.will_present, seq![RecordStep::Bloom]) + when(
        i.profiling,
        seq![RecordStep::NoteWork, RecordStep::Mark(GpuPass::Bloom), RecordStep::FinishTimer]
            + when(i.scene, seq![RecordStep::FinishStats]),
    ) + seq![RecordStep::EndLoad, RecordStep::EndCommands]
}

/// What ends the pass.
spec fn end_step(i: RecordInputs, d: RecordDecisions) -> RecordStep {
    if i.will_present && !d.run_exposure {
        RecordStep::EndSampled { classify_vrs: d.classify_vrs }
    } else {
        RecordStep::EndDeferred { classify_vrs: d.classify_vrs }
    }
}

/// The steps between the end of the pass and the metering.
spec fn middle_steps(i: RecordInputs, d: RecordDecisions) -> Seq<RecordStep> {
    when(i.profiling, seq![RecordStep::Mark(GpuPass::Resolve)]) + classify_steps(i, d)
}

/// The metering.
spec fn meter_steps(i: RecordInputs, d: RecordDecisions) -> Seq<RecordStep> {
    when(
        d.run_exposure,
        seq![RecordStep::Exposure] + when(
            i.profiling,
            seq![RecordStep::Recorded, RecordStep::Mark(GpuPass::Exposure)],
        ),
    )
}

proof fn lemma_tail_split(i: RecordInputs, d: RecordDecisions)
    ensures
        tail_steps(i, d) == seq![end_step(i, d)] + middle_steps(i, d) + meter_steps(i, d)
            + closing_steps(i),
{
    assert(tail_steps(i, d) =~= seq![end_step(i, d)] + middle_steps(i, d) + meter_steps(i, d)
        + closing_steps(i));
}

proof fn lemma_meter_finalizes(i: RecordInputs, d: RecordDecisions)
    ensures
        select(meter_steps(i, d), |s: RecordStep| makes_readable(s)) == when(
            d.run_exposure,
            seq![RecordStep::Exposure],
        ),
{
    let keep = |s: RecordStep| makes_readable(s);
    if d.run_exposure {
        let a = seq![RecordStep::Exposure];
        let b = when(
            i.profiling,
            seq![RecordStep::Recorded, RecordStep::Mark(GpuPass::Exposure)],
        );
        lemma_select_one(RecordStep::Exposure, keep);
        lemma_select_none(b, keep);
        lemma_select_adds(a, b, keep);
        assert(select(a + b, keep) =~= a);
    } else {
        lemma_select_none(meter_steps(i, d), keep);
    }
}

proof fn lemma_tail_finalizes(i: RecordInputs, d: RecordDecisions)
    requires
        d.run_exposure ==> i.will_present,
    ensures
        select(tail_steps(i, d), |s: RecordStep| makes_readable(s)) == if d.run_exposure {
            seq![RecordStep::Exposure]
        } else if i.will_present {
            seq![RecordStep::EndSampled { classify_vrs: d.classify_vrs }]
        } else {
            Seq::empty()
        },
{
    let keep = |s: RecordStep| makes_readable(s);
    let a = seq![end_step(i, d)];
    let b = middle_steps(i, d);
    let c = meter_steps(i, d);
    let e = closing_steps(i);
    lemma_tail_split(i, d);
    lemma_select_one(end_step(i, d), keep);
    lemma_select_none(b, keep);
    lemma_meter_finalizes(i, d);
    lemma_select_none(e, keep);
    lemma_select_adds(a, b, keep);
    lemma_select_adds(a + b, c, keep);
    lemma_select_adds(a + b + c, e, keep);
    assert(select(tail_steps(i, d), keep) =~= select(a, keep) + select(c, keep));
}

/// The color is made readable exactly once in a frame that presents, by the metering
/// where it runs and by the pass otherwise, and not at all in one that does not.
pub proof fn law_color_is_made_readable_once(i: RecordInputs, d: RecordDecisions)
    requires
        d.run_exposure ==> i.will_present,
    ensures
        select(record_steps(i, d), |s: RecordStep| makes_readable(s)) == if d.run_exposure {
            seq![RecordStep::Exposure]
        } else if i.will_present {
            seq![RecordStep::EndSampled { classify_vrs: d.classify_vrs }]
        } else {
            Seq::empty()
        },
{
    let keep = |s: RecordStep| makes_readable(s);
    lemma_uploads_are_plain(i);
    lemma_prelude_is_plain(i);
    lemma_plain_is_skipped(upload_steps(i));
    lemma_plain_is_skipped(prelude_steps(i));
    lemma_select_frame(i, d, keep);
    lemma_select_scene(i, d, keep);
    lemma_scene_finalizes_nothing(i);
    lemma_tail_finalizes(i, d);
    assert(select(record_steps(i, d), keep) =~= select(tail_steps(i, d), keep));
}

/// Depth is stored whenever a later step of this frame or the next frame samples it:
/// the classifier, the spill pass and the fused tonemap of a presented frame, and
/// water absorption.
pub proof fn law_depth_is_stored_for_every_consumer(
    l: FrameLoop,
    i: RecordInputs,
    runs: Seq<DrawRun>,
)
    ensures
        ({
            let d = decisions(l, i, runs);
            &&& d.classify_vrs ==> d.sample_depth
            &&& d.absorb ==> d.sample_depth
            &&& i.will_present && d.spill_live ==> d.sample_depth
            &&& i.will_present && i.flags.taa ==> d.sample_depth
            &&& d.sample_depth ==> d.classify_vrs || d.absorb || i.will_present
        }),
{
}

/// Water absorption samples depth of the size it draws at, stored by the frame just
/// before; otherwise the stand-in is sampled.
pub proof fn law_absorption_samples_the_frame_before(
    l: FrameLoop,
    i: RecordInputs,
    runs: Seq<DrawRun>,
)
    requires
        l.wf(),
    ensures
        ({
            let d = decisions(l, i, runs);
            let p = depth::slot_before(l.slot as int);
            &&& d.prev_valid <==> l.prev_depth.held()[p] == Some(i.render_extent)
            &&& d.absorb && !d.prev_valid ==> scene_steps(i, d)[0] == RecordStep::PrevDepthDummy
            &&& !(d.absorb && !d.prev_valid) ==> scene_steps(i, d)[0] is BeginPass
        }),
{
}

/// What a frame stores is exactly what the next frame finds, in the next slot.
pub proof fn law_next_frame_finds_the_stored_depth(
    held: Seq<Option<Extent>>,
    reads: Seq<bool>,
    slot: int,
    d: RecordDecisions,
    extent: Extent,
)
    requires
        held.len() == FRAMES_IN_FLIGHT,
        reads.len() == FRAMES_IN_FLIGHT,
        0 <= slot < FRAMES_IN_FLIGHT,
    ensures
        depth_after(held, reads, slot, d, extent).0[depth::slot_before(
            (slot + 1) % (FRAMES_IN_FLIGHT as int),
        )] == if d.sample_depth {
            Some(extent)
        } else {
            None
        },
{
}

/// A sampled depth is remembered until its own slot begins again, when the frame there
/// learns that it must wait for the readers.
pub proof fn law_depth_reads_are_remembered(
    held: Seq<Option<Extent>>,
    reads: Seq<bool>,
    slot: int,
    d: RecordDecisions,
    extent: Extent,
    other: int,
)
    requires
        held.len() == FRAMES_IN_FLIGHT,
        reads.len() == FRAMES_IN_FLIGHT,
        0 <= slot < FRAMES_IN_FLIGHT,
        0 <= other < FRAMES_IN_FLIGHT,
    ensures
        d.absorb && d.prev_valid ==> depth_after(held, reads, slot, d, extent).1[depth::slot_before(
            slot,
        )],
        other != slot && reads[other] ==> depth_after(held, reads, slot, d, extent).1[other],
        !depth_after(held, reads, slot, d, extent).1[slot],
{
}

/// Where a phase stands in a frame.
pub open spec fn phase_rank(p: FramePhase) -> int {
    match p {
        FramePhase::PrepareBlend => 0,
        FramePhase::ClearBlend => 0,
        FramePhase::WaitSlotAndReclaim => 1,
        FramePhase::DecidePresent => 2,
        FramePhase::AcquireSlot => 3,
        FramePhase::WriteImmediates => 4,
        FramePhase::PrepareMeshDraws => 5,
        FramePhase::WriteUniforms => 6,
        FramePhase::RecordRender => 7,
        FramePhase::SubmitOrDefer => 8,
        FramePhase::Present { .. } => 9,
        FramePhase::WaitForCopy => 10,
    }
}

/// A frame passes through every phase once and in order: nothing is written before the slot
/// is waited for and acquired, nothing is recorded before everything is written, and nothing
/// is presented before it is submitted. Only a frame with a scene resolves blended draws or
/// the history, and only a synchronized one waits for the copy.
pub proof fn law_phases_keep_their_order(scene: bool, taa: bool, vsync: bool)
    ensures
        ({
            let ps = frame_phases(scene, taa, vsync);
            &&& ps.len() == if vsync {
                11int
            } else {
                10
            }
            &&& forall|i: int| 0 <= i < ps.len() ==> phase_rank(#[trigger] ps[i]) == i
            &&& ps[0] is PrepareBlend <==> scene
            &&& ps[9] matches FramePhase::Present { taa: t } && t == (scene && taa)
        }),
{
}

/// An image without pixels has no width or no height.
pub proof fn law_no_pixels_means_no_area(e: Extent)
    ensures
        no_pixels(e) <==> e.width * e.height == 0,
{
    assert(e.width * e.height == 0 <==> e.width == 0 || e.height == 0) by (nonlinear_arith);
}

/// Notes for the timer stand wherever work was recorded.
pub open spec fn is_note(s: RecordStep) -> bool {
    s is NoteWork || s is Recorded
}

/// Where a step stands in a recording. Everything that is read comes after what writes it:
/// uploads before culling, culling and shadows before the pass, the pass before what reads
/// its color; and every mark comes right behind the work that it closes.
pub open spec fn step_rank(s: RecordStep) -> int {
    match s {
        RecordStep::ReadLoad => 0,
        RecordStep::ReadTimings => 1,
        RecordStep::FlushPendingSubmits => 2,
        RecordStep::BeginCommands => 3,
        RecordStep::BeginLoad => 4,
        RecordStep::BeginTimer => 5,
        RecordStep::MeshCopies => 6,
        RecordStep::QuadIndices => 7,
        RecordStep::BlockTextures => 8,
        RecordStep::Materials => 9,
        RecordStep::FoldTransferWait => 10,
        RecordStep::ComputeFallback => 11,
        RecordStep::Minimap => 12,
        RecordStep::Mark(GpuPass::Copies) => 13,
        RecordStep::Cull => 14,
        RecordStep::ClearCullStats => 14,
        RecordStep::Mark(GpuPass::Cull) => 15,
        RecordStep::ShadowPass => 16,
        RecordStep::ShadowUniforms => 16,
        RecordStep::Mark(GpuPass::ShadowMap) => 17,
        RecordStep::ShadowLitReady => 18,
        RecordStep::SkyLut { .. } => 19,
        RecordStep::PrevDepthDummy => 20,
        RecordStep::BeginPass { .. } => 21,
        RecordStep::ZeroCallGauges => 22,
        RecordStep::DrawOpaque => 23,
        RecordStep::DrawCutout => 24,
        RecordStep::BeginStats(PipeStatPass::Sky) => 25,
        RecordStep::DrawSky => 26,
        RecordStep::EndStats(PipeStatPass::Sky) => 27,
        RecordStep::Mark(GpuPass::Sky) => 28,
        RecordStep::DrawCubes => 29,
        RecordStep::Mark(GpuPass::Cubes) => 30,
        RecordStep::DrawLines => 31,
        RecordStep::Mark(GpuPass::Lines) => 32,
        RecordStep::DrawContactShadows => 33,
        RecordStep::Mark(GpuPass::Shadows) => 34,
        RecordStep::BeginStats(PipeStatPass::Transparent) => 35,
        RecordStep::DrawBlend => 36,
        RecordStep::EndStats(PipeStatPass::Transparent) => 37,
        RecordStep::Mark(GpuPass::Transparent) => 38,
        RecordStep::Mark(GpuPass::Overlay) => 39,
        RecordStep::EndSampled { .. } => 40,
        RecordStep::EndDeferred { .. } => 40,
        RecordStep::Mark(GpuPass::Resolve) => 41,
        RecordStep::VrsClassify => 42,
        RecordStep::Mark(GpuPass::Vrs) => 43,
        RecordStep::Exposure => 44,
        RecordStep::Mark(GpuPass::Exposure) => 45,
        RecordStep::Bloom => 46,
        RecordStep::Mark(GpuPass::Bloom) => 47,
        RecordStep::FinishTimer => 48,
        RecordStep::FinishStats => 49,
        RecordStep::EndLoad => 50,
        RecordStep::EndCommands => 51,
        _ => -1,
    }
}

/// Apart from notes, the steps stand in ascending order from `lo` to below `hi`.
spec fn climbs(s: Seq<RecordStep>, lo: int, hi: int) -> bool {
    &&& forall|i: int|
        0 <= i < s.len() && !is_note(#[trigger] s[i]) ==> lo <= step_rank(s[i]) < hi
    &&& forall|i: int, j: int|
        0 <= i < j < s.len() && !is_note(#[trigger] s[i]) && !is_note(#[trigger] s[j]) ==> step_rank(
            s[i],
        ) < step_rank(s[j])
}

proof fn lemma_climbs_on(a: Seq<RecordStep>, b: Seq<RecordStep>, lo: int, mid: int, hi: int)
    requires
        lo <= mid <= hi,
        climbs(a, lo, mid),
        climbs(b, mid, hi),
    ensures
        climbs(a + b, lo, hi),
{
    let s = a + b;
    assert forall|i: int| 0 <= i < s.len() && !is_note(#[trigger] s[i]) implies lo <= step_rank(s[i])
        < hi by {
        if i < a.len() {
            assert(s[i] == a[i]);
        } else {
            assert(s[i] == b[i - a.len()]);
        }
    }
    assert forall|i: int, j: int|
        0 <= i < j < s.len() && !is_note(#[trigger] s[i]) && !is_note(#[trigger] s[j]) implies step_rank(
        s[i],
    ) < step_rank(s[j]) by {
        if j < a.len() {
            assert(s[i] == a[i] && s[j] == a[j]);
        } else if i >= a.len() {
            assert(s[i] == b[i - a.len()] && s[j] == b[j - a.len()]);
        } else {
            assert(s[i] == a[i] && s[j] == b[j - a.len()]);
        }
    }
}

proof fn lemma_uploads_climb(i: RecordInputs)
    ensures
        climbs(upload_steps(i), 0, 14),
{
    let a = seq![RecordStep::ReadLoad];
    let b = when(i.profiling, seq![RecordStep::ReadTimings]);
    let c = when(i.overwrite_pending, seq![RecordStep::FlushPendingSubmits]);
    let d = seq![RecordStep::BeginCommands, RecordStep::BeginLoad];
    let e = when(i.profiling, seq![RecordStep::BeginTimer]);
    let f = seq![
        RecordStep::MeshCopies,
        RecordStep::QuadIndices,
        RecordStep::BlockTextures,
        RecordStep::Materials,
        RecordStep::FoldTransferWait,
        RecordStep::ComputeFallback,
        RecordStep::Minimap,
    ];
    let g = when(i.profiling, seq![RecordStep::NoteWork, RecordStep::Mark(GpuPass::Copies)]);
    lemma_climbs_on(a, b, 0, 1, 2);
    lemma_climbs_on(a + b, c, 0, 2, 3);
    lemma_climbs_on(a + b + c, d, 0, 3, 5);
    lemma_climbs_on(a + b + c + d, e, 0, 5, 6);
    lemma_climbs_on(a + b + c + d + e, f, 0, 6, 13);
    lemma_climbs_on(a + b + c + d + e + f, g, 0, 13, 14);
}

proof fn lemma_prelude_climbs(i: RecordInputs)
    ensures
        climbs(prelude_steps(i), 14, 20),
{
    let cull = if i.scene && i.cull_ready {
        seq![RecordStep::Cull] + when(
            i.profiling,
            seq![RecordStep::NoteWork, RecordStep::Mark(GpuPass::Cull)],
        )
    } else {
        when(i.profiling, seq![RecordStep::ClearCullStats])
    };
    let shadow = if !i.scene {
        Seq::empty()
    } else if i.shadow_rebuild {
        seq![RecordStep::ShadowPass] + when(
            i.profiling,
            seq![RecordStep::Recorded, RecordStep::Mark(GpuPass::ShadowMap)],
        ) + when(!i.flags.shadows, seq![RecordStep::ShadowLitReady])
    } else {
        when(i.shadow_uniforms, seq![RecordStep::ShadowUniforms])
    };
    let sky = when(
        i.flags.sky && i.sky_list && i.scene,
        seq![RecordStep::SkyLut { capture: i.capture }],
    );
    lemma_climbs_on(
        seq![RecordStep::Cull],
        when(i.profiling, seq![RecordStep::NoteWork, RecordStep::Mark(GpuPass::Cull)]),
        14,
        15,
        16,
    );
    assert(climbs(cull, 14, 16));
    lemma_climbs_on(
        seq![RecordStep::ShadowPass],
        when(i.profiling, seq![RecordStep::Recorded, RecordStep::Mark(GpuPass::ShadowMap)]),
        16,
        17,
        18,
    );
    lemma_climbs_on(
        seq![RecordStep::ShadowPass] + when(
            i.profiling,
            seq![RecordStep::Recorded, RecordStep::Mark(GpuPass::ShadowMap)],
        ),
        when(!i.flags.shadows, seq![RecordStep::ShadowLitReady]),
        16,
        18,
        19,
    );
    assert(climbs(shadow, 16, 19));
    lemma_climbs_on(cull, shadow, 14, 16, 19);
    lemma_climbs_on(cull + shadow, sky, 14, 19, 20);
}

proof fn lemma_draws_climb(i: RecordInputs)
    ensures
        climbs(opaque_steps(i) + transparent_steps(i), 23, 39),
{
    let a = seq![RecordStep::DrawOpaque, RecordStep::DrawCutout];
    let b = when(i.profiling, seq![RecordStep::BeginStats(PipeStatPass::Sky)]);
    let c = when(i.flags.sky, seq![RecordStep::DrawSky]);
    let d = when(
        i.profiling,
        seq![RecordStep::EndStats(PipeStatPass::Sky), RecordStep::Mark(GpuPass::Sky)],
    );
    lemma_climbs_on(a, b, 23, 25, 26);
    lemma_climbs_on(a + b, c, 23, 26, 27);
    lemma_climbs_on(a + b + c, d, 23, 27, 29);
    let p = seq![RecordStep::DrawCubes];
    let q = when(i.profiling, seq![RecordStep::Mark(GpuPass::Cubes)]);
    let r = seq![RecordStep::DrawLines];
    let s = when(i.profiling, seq![RecordStep::Mark(GpuPass::Lines)]);
    let t = seq![RecordStep::DrawContactShadows];
    let u = when(
        i.profiling,
        seq![
            RecordStep::Mark(GpuPass::Shadows),
            RecordStep::BeginStats(PipeStatPass::Transparent),
        ],
    );
    let v = seq![RecordStep::DrawBlend];
    let w = when(
        i.profiling,
        seq![
            RecordStep::EndStats(PipeStatPass::Transparent),
            RecordStep::Mark(GpuPass::Transparent),
        ],
    );
    lemma_climbs_on(p, q, 29, 30, 31);
    lemma_climbs_on(p + q, r, 29, 31, 32);
    lemma_climbs_on(p + q + r, s, 29, 32, 33);
    lemma_climbs_on(p + q + r + s, t, 29, 33, 34);
    lemma_climbs_on(p + q + r + s + t, u, 29, 34, 36);
    lemma_climbs_on(p + q + r + s + t + u, v, 29, 36, 37);
    lemma_climbs_on(p + q + r + s + t + u + v, w, 29, 37, 39);
    lemma_climbs_on(opaque_steps(i), transparent_steps(i), 23, 29, 39);
}

proof fn lemma_scene_climbs(i: RecordInputs, d: RecordDecisions)
    ensures
        climbs(scene_steps(i, d), 20, 40),
{
    let a = when(d.absorb && !d.prev_valid, seq![RecordStep::PrevDepthDummy]);
    let b = seq![
        RecordStep::BeginPass {
            do_vrs: d.do_vrs,
            sample_depth: d.sample_depth,
            will_present: i.will_present,
            absorb: d.absorb,
            depth_sampled: d.depth_sampled,
        },
    ];
    let c = if !i.scene {
        seq![RecordStep::ZeroCallGauges]
    } else {
        opaque_steps(i) + transparent_steps(i)
    };
    let e = when(i.profiling, seq![RecordStep::Mark(GpuPass::Overlay)]);
    lemma_draws_climb(i);
    assert(climbs(c, 22, 39));
    lemma_climbs_on(a, b, 20, 21, 22);
    lemma_climbs_on(a + b, c, 20, 22, 39);
    lemma_climbs_on(a + b + c, e, 20, 39, 40);
}

proof fn lemma_tail_climbs(i: RecordInputs, d: RecordDecisions)
    ensures
        climbs(tail_steps(i, d), 40, 52),
{
    let a = seq![
        if i.will_present && !d.run_exposure {
            RecordStep::EndSampled { classify_vrs: d.classify_vrs }
        } else {
            RecordStep::EndDeferred { classify_vrs: d.classify_vrs }
        },
    ];
    let b = when(i.profiling, seq![RecordStep::Mark(GpuPass::Resolve)]);
    let c = classify_steps(i, d);
    let vrs = when(i.profiling, seq![RecordStep::Recorded, RecordStep::Mark(GpuPass::Vrs)]);
    let meter = when(i.profiling, seq![RecordStep::Recorded, RecordStep::Mark(GpuPass::Exposure)]);
    let e = when(d.run_exposure, seq![RecordStep::Exposure] + meter);
    let f = when(i.will_present, seq![RecordStep::Bloom]);
    let stats = when(i.scene, seq![RecordStep::FinishStats]);
    let end = seq![RecordStep::NoteWork, RecordStep::Mark(GpuPass::Bloom), RecordStep::FinishTimer];
    let g = when(i.profiling, end + stats);
    let h = seq![RecordStep::EndLoad, RecordStep::EndCommands];
    lemma_climbs_on(seq![RecordStep::VrsClassify], vrs, 42, 43, 44);
    assert(climbs(c, 42, 44));
    lemma_climbs_on(seq![RecordStep::Exposure], meter, 44, 45, 46);
    assert(climbs(e, 44, 46));
    lemma_climbs_on(end, stats, 47, 49, 50);
    assert(climbs(g, 47, 50));
    lemma_climbs_on(a, b, 40, 41, 42);
    lemma_climbs_on(a + b, c, 40, 42, 44);
    lemma_climbs_on(a + b + c, e, 40, 44, 46);
    lemma_climbs_on(a + b + c + e, f, 40, 46, 47);
    lemma_climbs_on(a + b + c + e + f, g, 40, 47, 50);
    lemma_climbs_on(a + b + c + e + f + g, h, 40, 50, 52);
}

/// A recording keeps its order, whatever is on or off in the frame: no step stands twice,
/// and none before a step that it depends on. It begins and ends the command buffer, and
/// ends with that.
pub proof fn law_a_recording_keeps_its_order(i: RecordInputs, d: RecordDecisions, a: int, b: int)
    requires
        0 <= a < b < record_steps(i, d).len(),
    ensures
        ({
            let s = record_steps(i, d);
            &&& !is_note(s[a]) && !is_note(s[b]) ==> step_rank(s[a]) < step_rank(s[b])
            &&& !is_note(s[a]) ==> step_rank(s[a]) >= 0
            &&& s.last() is EndCommands
        }),
{
    lemma_uploads_climb(i);
    lemma_prelude_climbs(i);
    lemma_scene_climbs(i, d);
    lemma_tail_climbs(i, d);
    let up = upload_steps(i);
    let pre = prelude_steps(i);
    let scene = scene_steps(i, d);
    let tail = tail_steps(i, d);
    lemma_climbs_on(up, pre, 0, 14, 20);
    lemma_climbs_on(up + pre, scene, 0, 20, 40);
    lemma_climbs_on(up + pre + scene, tail, 0, 40, 52);
    assert(tail.last() is EndCommands);
}

/// An acquire that only came too early reports no error, so the frame is skipped; one that
/// reports an error ends the swapchain or is passed on with its code.
pub proof fn law_failed_acquires_are_told_apart(code: i32)
    ensures
        acquire_failure(code) is Missed ==> code > 0,
        acquire_failure(code) is Stale ==> code < 0,
        acquire_failure(code) matches Acquired::Error { code: c } ==> c == code,
        acquire_failure(code) is Error <==> !(code == RESULT_NOT_READY || code == RESULT_TIMEOUT
            || code == RESULT_OUT_OF_DATE || code == RESULT_SURFACE_LOST),
{
}

/// A frame that need not present does so only when it is due, and then only behind its own
/// last copy.
pub proof fn law_a_frame_presents_when_it_is_due(
    force: bool,
    vsync: bool,
    interval_over: bool,
    last_copy: u64,
)
    ensures
        decide_present(force, vsync, interval_over, last_copy) is Done <==> !force && !vsync
            && !interval_over,
        decide_present(force, vsync, interval_over, last_copy) matches PresentStep::WaitCopy {
            value,
        } ==> force && value == last_copy,
        decide_present(force, vsync, interval_over, last_copy) matches PresentStep::ProbeCopy {
            value,
        } ==> !force && value == last_copy,
        copy_settled(force, vsync, false) is Done <==> !force,
{
}

/// A folded wait is no longer than the longer of the two, and holds up the stages of both.
pub proof fn law_a_folded_wait_is_no_longer(x: TransferWait, y: TransferWait)
    ensures
        ({
            let w = fold_transfer_wait(Some(x), Some(y))->Some_0;
            &&& w.value == x.value || w.value == y.value
            &&& w.stages & x.stages == x.stages
            &&& w.stages & y.stages == y.stages
        }),
        fold_transfer_wait(Some(x), None) == Some(x),
        fold_transfer_wait(None, Some(y)) == Some(y),
{
    let a = x.stages;
    let b = y.stages;
    assert((a | b) & a == a && (a | b) & b == b) by (bit_vector);
}

/// The meshes of a frame wait for their copies and for the shared indices, and for nothing
/// where neither is under way.
pub proof fn law_meshes_wait_for_both(deferred: Option<u64>, quad: Option<u64>, stages: u64)
    ensures
        mesh_wait(deferred, quad, stages) is Some <==> deferred is Some || quad is Some,
        mesh_wait(deferred, quad, stages) matches Some(w) ==> {
            &&& w.stages == stages
            &&& deferred == Some(w.value) || quad == Some(w.value)
            &&& deferred is Some ==> deferred->Some_0 <= w.value
            &&& quad is Some ==> quad->Some_0 <= w.value
        },
{
}

} // verus!
