//! The sampleable depth image: when it is stored, where it rests, and which
//! frame may sample the one before it.

use vstd::prelude::*;

use crate::commands::{
    access_at, Access, Extent, ImageBarrier, Subresources, ACCESS_COLOR_ATTACHMENT_WRITE, ACCESS_DEPTH_READ,
    ACCESS_DEPTH_WRITE, ACCESS_SHADER_SAMPLED_READ, ASPECT_DEPTH, NO_HANDOVER,
    LAYOUT_DEPTH_ATTACHMENT, LAYOUT_SHADER_READ_ONLY, STAGE_COLOR_ATTACHMENT_OUTPUT,
    STAGE_COMPUTE_SHADER, STAGE_EARLY_FRAGMENT_TESTS, STAGE_FRAGMENT_SHADER,
    STAGE_LATE_FRAGMENT_TESTS,
};
use crate::rev;
use crate::rev::FRAMES_IN_FLIGHT;

verus! {

/// Layout in which the single-sample depth rests after the scene pass, where
/// every later consumer samples it without a further transition.
pub const SAMPLEABLE_DEPTH_REST_LAYOUT: i32 = LAYOUT_SHADER_READ_ONLY;

/// One sample per pixel, as a sample-count bit.
pub const SAMPLES_1: u32 = 1;

/// Whether a later pass samples the depth that this frame stores.
///
/// The rate classifier samples it in the same submit whether or not the frame is
/// presented; the spill pass and the fused tonemap only on presented frames; and
/// water absorption in the next frame.
#[verifier::allow_in_spec]
pub fn sampleable_depth_consumed(
    will_present: bool,
    taa: bool,
    spill_live: bool,
    classify_vrs: bool,
    absorb_store: bool,
) -> bool
    returns
        absorb_store || classify_vrs || (will_present && (taa || spill_live)),
{
    absorb_store || classify_vrs || (will_present && (taa || spill_live))
}

/// The layout of the scene's depth attachment during the pass. Absorption samples
/// the previous slot's image, so the pass never reads the attachment it writes.
#[verifier::allow_in_spec]
pub fn depth_pass_layout() -> i32
    returns
        LAYOUT_DEPTH_ATTACHMENT,
{
    LAYOUT_DEPTH_ATTACHMENT
}

/// Layout and write scope of the sampleable depth during the scene pass.
#[derive(Clone, Copy, Debug, PartialEq, Eq, Structural)]
pub struct AttachmentState {
    pub layout: i32,
    pub written: Access,
}

/// The state of the sampleable depth image during the scene pass: its own depth
/// tests when it is the attachment, and the resolve, which runs as a color
/// attachment write, when the attachment is multisampled.
pub open spec fn attachment_state(samples: u32, scene_layout: i32) -> AttachmentState {
    if samples == SAMPLES_1 {
        AttachmentState {
            layout: scene_layout,
            written: access_at(
                STAGE_EARLY_FRAGMENT_TESTS | STAGE_LATE_FRAGMENT_TESTS,
                ACCESS_DEPTH_READ | ACCESS_DEPTH_WRITE,
            ),
        }
    } else {
        AttachmentState {
            layout: LAYOUT_DEPTH_ATTACHMENT,
            written: access_at(STAGE_COLOR_ATTACHMENT_OUTPUT, ACCESS_COLOR_ATTACHMENT_WRITE),
        }
    }
}

pub fn sampleable_depth_attachment_state(samples: u32, scene_depth_layout: i32) -> (r:
    AttachmentState)
    ensures
        r == attachment_state(samples, scene_depth_layout),
{
    if samples == SAMPLES_1 {
        AttachmentState {
            layout: scene_depth_layout,
            written: access_at(
                STAGE_EARLY_FRAGMENT_TESTS | STAGE_LATE_FRAGMENT_TESTS,
                ACCESS_DEPTH_READ | ACCESS_DEPTH_WRITE,
            ),
        }
    } else {
        AttachmentState {
            layout: LAYOUT_DEPTH_ATTACHMENT,
            written: access_at(STAGE_COLOR_ATTACHMENT_OUTPUT, ACCESS_COLOR_ATTACHMENT_WRITE),
        }
    }
}

/// The one mip and layer of a depth image.
#[verifier::allow_in_spec]
pub fn depth_range() -> Subresources
    returns
        (Subresources { aspect: ASPECT_DEPTH, base_mip: 0, mips: 1, base_layer: 0, layers: 1 }),
{
    Subresources { aspect: ASPECT_DEPTH, base_mip: 0, mips: 1, base_layer: 0, layers: 1 }
}

/// The transition of the sampleable depth from the scene pass to its rest layout,
/// visible to every compute and fragment consumer.
pub open spec fn rest_barrier(samples: u32, image: u64) -> ImageBarrier {
    let state = attachment_state(samples, depth_pass_layout());
    ImageBarrier {
        image,
        src: state.written,
        dst: access_at(STAGE_COMPUTE_SHADER | STAGE_FRAGMENT_SHADER, ACCESS_SHADER_SAMPLED_READ),
        old_layout: state.layout,
        new_layout: SAMPLEABLE_DEPTH_REST_LAYOUT,
        src_family: NO_HANDOVER,
        dst_family: NO_HANDOVER,
        range: depth_range(),
    }
}

pub fn sampleable_depth_rest_barrier(samples: u32, image: u64) -> (r: ImageBarrier)
    ensures
        r == rest_barrier(samples, image),
{
    let state: AttachmentState = sampleable_depth_attachment_state(samples, depth_pass_layout());
    ImageBarrier {
        image,
        src: state.written,
        dst: access_at(STAGE_COMPUTE_SHADER | STAGE_FRAGMENT_SHADER, ACCESS_SHADER_SAMPLED_READ),
        old_layout: state.layout,
        new_layout: SAMPLEABLE_DEPTH_REST_LAYOUT,
        src_family: NO_HANDOVER,
        dst_family: NO_HANDOVER,
        range: depth_range(),
    }
}

/// Per-slot record of the depth that water absorption may sample one frame later.
pub struct PrevDepthTrack {
    stored: [bool; FRAMES_IN_FLIGHT],
    sampled: [bool; FRAMES_IN_FLIGHT],
    extent: [Option<Extent>; FRAMES_IN_FLIGHT],
}

/// The slot of the frame before the one in `slot`.
pub open spec fn slot_before(slot: int) -> int {
    if slot == 0 {
        FRAMES_IN_FLIGHT - 1
    } else {
        slot - 1
    }
}

impl PrevDepthTrack {
    /// What each slot holds: the size of the depth its last frame stored, if it
    /// stored any.
    pub closed spec fn held(&self) -> Seq<Option<Extent>> {
        Seq::new(
            FRAMES_IN_FLIGHT as nat,
            |i: int|
                if self.stored[i] {
                    self.extent[i]
                } else {
                    None
                },
        )
    }

    /// Which slots' depth was sampled since the slot was last begun.
    pub closed spec fn unordered_reads(&self) -> Seq<bool> {
        self.sampled@
    }

    /// A slot that stored depth knows its size.
    pub closed spec fn sizes_known(&self) -> bool {
        forall|i: int|
            0 <= i < FRAMES_IN_FLIGHT ==> (#[trigger] self.stored[i] == self.extent[i] is Some)
    }

    /// Every slot has its entry, and every stored size is known.
    pub open spec fn wf(&self) -> bool {
        &&& self.sizes_known()
        &&& self.held().len() == FRAMES_IN_FLIGHT
        &&& self.unordered_reads().len() == FRAMES_IN_FLIGHT
    }

    pub fn new() -> (t: PrevDepthTrack)
        ensures
            t.wf(),
            t.held() == Seq::new(FRAMES_IN_FLIGHT as nat, |i: int| None::<Extent>),
            t.unordered_reads() == Seq::new(FRAMES_IN_FLIGHT as nat, |i: int| false),
    {
        let t: PrevDepthTrack = PrevDepthTrack {
            stored: [false, false, false],
            sampled: [false, false, false],
            extent: [None, None, None],
        };
        proof {
            assert(t.held() =~= Seq::new(FRAMES_IN_FLIGHT as nat, |i: int| None::<Extent>));
            assert(t.unordered_reads() =~= Seq::new(FRAMES_IN_FLIGHT as nat, |i: int| false));
        }
        t
    }

    /// Forgets everything: the render targets were created anew.
    pub fn invalidate(&mut self)
        ensures
            final(self).wf(),
            final(self).held() == Seq::new(FRAMES_IN_FLIGHT as nat, |i: int| None::<Extent>),
            final(self).unordered_reads() == Seq::new(FRAMES_IN_FLIGHT as nat, |i: int| false),
    {
        *self = Self::new();
    }

    pub fn prev_slot(slot: usize) -> (p: usize)
        requires
            slot < FRAMES_IN_FLIGHT,
        ensures
            p == slot_before(slot as int),
    {
        (slot + FRAMES_IN_FLIGHT - 1) % FRAMES_IN_FLIGHT
    }

    /// Whether the frame in `slot` may sample the previous frame's depth: it was
    /// stored, at this pixel size.
    pub fn valid(&self, slot: usize, extent: Extent) -> (r: bool)
        requires
            self.wf(),
            slot < FRAMES_IN_FLIGHT,
        ensures
            r == (self.held()[slot_before(slot as int)] == Some(extent)),
    {
        let p: usize = Self::prev_slot(slot);
        match self.extent[p] {
            Some(e) => self.stored[p] && e.width == extent.width && e.height == extent.height,
            None => false,
        }
    }

    /// Begins the frame in `slot`. The result says whether the slot's depth was
    /// sampled in its previous life, so that the transition that discards it must
    /// also wait for fragment shaders.
    pub fn begin_slot(&mut self, slot: usize) -> (war: bool)
        requires
            old(self).wf(),
            slot < FRAMES_IN_FLIGHT,
        ensures
            final(self).wf(),
            war == old(self).unordered_reads()[slot as int],
            final(self).unordered_reads() == old(self).unordered_reads().update(
                slot as int,
                false,
            ),
            final(self).held() == old(self).held(),
    {
        let ghost before = *self;
        let war: bool = self.sampled[slot];
        self.sampled[slot] = false;
        proof {
            assert(self.stored == before.stored && self.extent == before.extent);
            assert(self.held() =~= before.held());
        }
        war
    }

    /// Notes that the depth of `slot` is sampled this frame.
    pub fn mark_sampled(&mut self, slot: usize)
        requires
            old(self).wf(),
            slot < FRAMES_IN_FLIGHT,
        ensures
            final(self).wf(),
            final(self).unordered_reads() == old(self).unordered_reads().update(slot as int, true),
            final(self).held() == old(self).held(),
    {
        let ghost before = *self;
        self.sampled[slot] = true;
        proof {
            assert(self.stored == before.stored && self.extent == before.extent);
            assert(self.held() =~= before.held());
        }
    }

    /// Ends the frame in `slot`, which stored its depth or did not.
    pub fn finish(&mut self, slot: usize, stored: bool, extent: Extent)
        requires
            old(self).wf(),
            slot < FRAMES_IN_FLIGHT,
        ensures
            final(self).wf(),
            final(self).held() == old(self).held().update(
                slot as int,
                if stored {
                    Some(extent)
                } else {
                    None
                },
            ),
            final(self).unordered_reads() == old(self).unordered_reads(),
    {
        let ghost before = *self;
        self.stored[slot] = stored;
        self.extent[slot] = if stored {
            Some(extent)
        } else {
            None
        };
        proof {
            assert(self.held() =~= before.held().update(
                slot as int,
                if stored {
                    Some(extent)
                } else {
                    None
                },
            ));
        }
    }
}

/// A frame samples the slot of the frame just before it, and never its own.
pub proof fn law_a_frame_samples_the_frame_before(n: int)
    requires
        n >= 1,
    ensures
        slot_before(rev::slot_of_frame(n)) == rev::slot_of_frame(n - 1),
        slot_before(rev::slot_of_frame(n)) != rev::slot_of_frame(n),
{
}

/// The rest transition leaves the image where every consumer expects it, and
/// orders it before both compute and fragment reads, whatever the sample count.
pub proof fn law_rest_barrier_serves_every_consumer(samples: u32, image: u64)
    ensures
        rest_barrier(samples, image).new_layout == SAMPLEABLE_DEPTH_REST_LAYOUT,
        rest_barrier(samples, image).old_layout == LAYOUT_DEPTH_ATTACHMENT,
        rest_barrier(samples, image).dst.stage & STAGE_COMPUTE_SHADER != 0,
        rest_barrier(samples, image).dst.stage & STAGE_FRAGMENT_SHADER != 0,
{
    assert((0x800u64 | 0x80u64) & 0x800u64 != 0 && (0x800u64 | 0x80u64) & 0x80u64 != 0)
        by (bit_vector);
}

} // verus!
