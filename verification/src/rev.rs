//! The ring of frames that may be in flight at once.

use vstd::prelude::*;

verus! {

/// Frames that may be recorded or executing at once. Each owns one slot of
/// every per-frame resource.
pub const FRAMES_IN_FLIGHT: usize = 3;

/// One slot of the ring.
#[derive(Clone, Copy, Debug, PartialEq, Eq, Structural)]
pub struct FrameSlot {
    slot: usize,
}

impl FrameSlot {
    pub closed spec fn at(&self) -> int {
        self.slot as int
    }

    pub open spec fn wf(&self) -> bool {
        0 <= self.at() < FRAMES_IN_FLIGHT
    }

    pub fn new(slot: usize) -> (s: FrameSlot)
        requires
            slot < FRAMES_IN_FLIGHT,
        ensures
            s.wf(),
            s.at() == slot,
    {
        FrameSlot { slot }
    }

    pub fn index(&self) -> (i: usize)
        ensures
            i == self.at(),
    {
        self.slot
    }
}

/// The slot that frame `n` records on.
pub open spec fn slot_of_frame(n: int) -> int {
    n % (FRAMES_IN_FLIGHT as int)
}

/// When a slot comes round again, every frame that used it before is at least a
/// whole ring in the past. Waiting for the slot's own fence therefore covers the
/// last use of everything it owns.
pub proof fn law_slot_reuse_is_a_ring_apart(earlier: int, later: int)
    requires
        0 <= earlier < later,
        slot_of_frame(earlier) == slot_of_frame(later),
    ensures
        earlier + FRAMES_IN_FLIGHT <= later,
{
}

} // verus!
