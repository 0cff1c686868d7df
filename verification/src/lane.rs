//! Queues beside the graphics queue.

use vstd::prelude::*;

use crate::commands::{STAGE_COPY, STAGE_FRAGMENT_SHADER, STAGE_NONE};

verus! {

/// How far a queue is set apart from the graphics queue.
#[derive(Clone, Copy, Debug, PartialEq, Eq, Structural)]
pub enum Tier {
    /// A family of its own: resources change owner on the way.
    DedicatedFamily,
    /// Another queue of the graphics family.
    SecondQueueSameFamily,
    /// No other queue: work goes into the frame's command buffer.
    SameQueueFallback,
}

/// A queue lane: its tier and the family of its queue.
#[derive(Clone, Copy, Debug, PartialEq, Eq, Structural)]
pub struct Lane {
    pub tier: Tier,
    pub family: u32,
}

impl Lane {
    /// Work on the lane is submitted on its own.
    #[verifier::allow_in_spec]
    pub fn is_separate_queue(&self) -> bool
        returns
            self.tier != Tier::SameQueueFallback,
    {
        self.tier != Tier::SameQueueFallback
    }

    /// Resources are released by one family and acquired by the other.
    #[verifier::allow_in_spec]
    pub fn needs_ownership_transfer(&self) -> bool
        returns
            self.tier == Tier::DedicatedFamily,
    {
        self.tier == Tier::DedicatedFamily
    }
}

/// What a lane submission waits for before it overwrites what frames read.
#[derive(Clone, Copy, Debug, PartialEq, Eq, Structural)]
pub enum ExtraWait {
    Nothing,
    /// The plan's own release, at the copy stage.
    Release,
    /// The last submitted frame, at the fragment stage.
    LastRender,
}

impl ExtraWait {
    /// The stage at which the lane waits.
    #[verifier::allow_in_spec]
    pub fn stage(&self) -> u64
        returns
            (match self {
                ExtraWait::Nothing => STAGE_NONE,
                ExtraWait::Release => STAGE_COPY,
                ExtraWait::LastRender => STAGE_FRAGMENT_SHADER,
            }),
    {
        match self {
            ExtraWait::Nothing => STAGE_NONE,
            ExtraWait::Release => STAGE_COPY,
            ExtraWait::LastRender => STAGE_FRAGMENT_SHADER,
        }
    }
}

} // verus!
