//! Creating a block: which driver call follows which, and what is undone when one
//! of them fails.

use vstd::prelude::*;

verus! {

/// The driver's code for exhausted device memory.
pub const ERROR_OUT_OF_DEVICE_MEMORY: i32 = -2;

/// What to do next for a block.
#[derive(Clone, Copy, Debug, PartialEq, Eq, Structural)]
pub enum BlockStep {
    CreateBuffer,
    /// Ask what memory the buffer needs and pick a type for it.
    PickMemory,
    AllocateMemory { host_visible: bool },
    /// Bind the memory to the buffer.
    BindMemory { host_visible: bool },
    /// Map the memory, for as long as the block lives.
    MapMemory,
    /// The call before failed with `code`: destroy the buffer, then free the memory
    /// if there is any.
    DestroyBuffer { memory: bool, code: i32 },
    FreeMemory { code: i32 },
    /// Nothing is left of the block.
    Fail { code: i32 },
    Done,
}

/// How a step went.
#[derive(Clone, Copy, Debug, PartialEq, Eq, Structural)]
pub enum StepOutcome {
    Success,
    /// A memory type was picked.
    Picked { host_visible: bool },
    /// No memory type fits.
    NoMemoryType,
    Error { code: i32 },
}

/// The code that a failed step reports: its own, or exhausted device memory where no
/// memory type fits.
pub open spec fn code_of(outcome: StepOutcome) -> Option<i32> {
    match outcome {
        StepOutcome::Error { code } => Some(code),
        StepOutcome::NoMemoryType => Some(ERROR_OUT_OF_DEVICE_MEMORY),
        _ => None,
    }
}

/// The step after `step`: on to the next call, or back over what was made.
pub open spec fn next_step(step: BlockStep, outcome: StepOutcome) -> BlockStep {
    match (step, code_of(outcome)) {
        (BlockStep::CreateBuffer, None) => BlockStep::PickMemory,
        (BlockStep::CreateBuffer, Some(code)) => BlockStep::Fail { code },
        (BlockStep::PickMemory, None) => BlockStep::AllocateMemory {
            host_visible: outcome matches StepOutcome::Picked { host_visible } && host_visible,
        },
        (BlockStep::PickMemory, Some(code)) => BlockStep::DestroyBuffer { memory: false, code },
        (BlockStep::AllocateMemory { host_visible }, None) => BlockStep::BindMemory { host_visible },
        (BlockStep::AllocateMemory { .. }, Some(code)) => BlockStep::DestroyBuffer {
            memory: false,
            code,
        },
        (BlockStep::BindMemory { host_visible }, None) => if host_visible {
            BlockStep::MapMemory
        } else {
            BlockStep::Done
        },
        (BlockStep::BindMemory { .. }, Some(code)) => BlockStep::DestroyBuffer { memory: true, code },
        (BlockStep::MapMemory, None) => BlockStep::Done,
        (BlockStep::MapMemory, Some(code)) => BlockStep::DestroyBuffer { memory: true, code },
        (BlockStep::DestroyBuffer { memory, code }, _) => if memory {
            BlockStep::FreeMemory { code }
        } else {
            BlockStep::Fail { code }
        },
        (BlockStep::FreeMemory { code }, _) => BlockStep::Fail { code },
        (BlockStep::Fail { .. }, _) => step,
        (BlockStep::Done, _) => step,
    }
}

pub fn after_block_step(step: BlockStep, outcome: StepOutcome) -> (next: BlockStep)
    ensures
        next == next_step(step, outcome),
{
    let failed: Option<i32> = match outcome {
        StepOutcome::Error { code } => Some(code),
        StepOutcome::NoMemoryType => Some(ERROR_OUT_OF_DEVICE_MEMORY),
        _ => None,
    };
    match step {
        BlockStep::CreateBuffer => match failed {
            None => BlockStep::PickMemory,
            Some(code) => BlockStep::Fail { code },
        },
        BlockStep::PickMemory => match failed {
            None => BlockStep::AllocateMemory {
                host_visible: match outcome {
                    StepOutcome::Picked { host_visible } => host_visible,
                    _ => false,
                },
            },
            Some(code) => BlockStep::DestroyBuffer { memory: false, code },
        },
        BlockStep::AllocateMemory { host_visible } => match failed {
            None => BlockStep::BindMemory { host_visible },
            Some(code) => BlockStep::DestroyBuffer { memory: false, code },
        },
        BlockStep::BindMemory { host_visible } => match failed {
            None => if host_visible {
                BlockStep::MapMemory
            } else {
                BlockStep::Done
            },
            Some(code) => BlockStep::DestroyBuffer { memory: true, code },
        },
        BlockStep::MapMemory => match failed {
            None => BlockStep::Done,
            Some(code) => BlockStep::DestroyBuffer { memory: true, code },
        },
        BlockStep::DestroyBuffer { memory, code } => if memory {
            BlockStep::FreeMemory { code }
        } else {
            BlockStep::Fail { code }
        },
        BlockStep::FreeMemory { code } => BlockStep::Fail { code },
        BlockStep::Fail { .. } => step,
        BlockStep::Done => step,
    }
}

/// What there is of a block.
pub struct Objects {
    pub buffers: int,
    pub memories: int,
}

/// What a step that went as `outcome` makes of `o`: a call that succeeds makes its
/// object, and a clean-up step destroys one.
pub open spec fn step_effect(step: BlockStep, outcome: StepOutcome, o: Objects) -> Objects {
    match step {
        BlockStep::CreateBuffer if code_of(outcome) is None => Objects {
            buffers: o.buffers + 1,
            ..o
        },
        BlockStep::AllocateMemory { .. } if code_of(outcome) is None => Objects {
            memories: o.memories + 1,
            ..o
        },
        BlockStep::DestroyBuffer { .. } => Objects { buffers: o.buffers - 1, ..o },
        BlockStep::FreeMemory { .. } => Objects { memories: o.memories - 1, ..o },
        _ => o,
    }
}

/// The step that a block has come to after the outcomes `run`.
pub open spec fn step_after(run: Seq<StepOutcome>) -> BlockStep
    decreases run.len(),
{
    if run.len() == 0 {
        BlockStep::CreateBuffer
    } else {
        next_step(step_after(run.drop_last()), run.last())
    }
}

/// What there is of the block after the outcomes `run`.
pub open spec fn objects_after(run: Seq<StepOutcome>) -> Objects
    decreases run.len(),
{
    if run.len() == 0 {
        Objects { buffers: 0, memories: 0 }
    } else {
        step_effect(step_after(run.drop_last()), run.last(), objects_after(run.drop_last()))
    }
}

/// What there is of a block that has come to `step`.
pub open spec fn objects_at(step: BlockStep) -> Objects {
    match step {
        BlockStep::CreateBuffer | BlockStep::Fail { .. } => Objects { buffers: 0, memories: 0 },
        BlockStep::PickMemory | BlockStep::AllocateMemory { .. } => Objects {
            buffers: 1,
            memories: 0,
        },
        BlockStep::BindMemory { .. } | BlockStep::MapMemory | BlockStep::Done => Objects {
            buffers: 1,
            memories: 1,
        },
        BlockStep::DestroyBuffer { memory, .. } => Objects {
            buffers: 1,
            memories: if memory {
                1
            } else {
                0
            },
        },
        BlockStep::FreeMemory { .. } => Objects { buffers: 0, memories: 1 },
    }
}

/// However the calls go, a block that failed has left nothing behind and destroyed
/// nothing twice, and a block that is done has its one buffer and its one memory.
pub proof fn law_a_failed_block_leaves_nothing(run: Seq<StepOutcome>)
    ensures
        objects_after(run) == objects_at(step_after(run)),
        step_after(run) is Fail ==> objects_after(run) == (Objects { buffers: 0, memories: 0 }),
        step_after(run) is Done ==> objects_after(run) == (Objects { buffers: 1, memories: 1 }),
    decreases run.len(),
{
    if run.len() > 0 {
        law_a_failed_block_leaves_nothing(run.drop_last());
    }
}

/// A call on the way to a block, not the way back.
pub open spec fn goes_forward(step: BlockStep) -> bool {
    step is CreateBuffer || step is PickMemory || step is AllocateMemory || step is BindMemory
        || step is MapMemory
}

/// The code that a step on the way back, or the failure itself, carries.
pub open spec fn carried(step: BlockStep) -> Option<i32> {
    match step {
        BlockStep::DestroyBuffer { code, .. } => Some(code),
        BlockStep::FreeMemory { code } => Some(code),
        BlockStep::Fail { code } => Some(code),
        _ => None,
    }
}

/// A block fails with the code of the one call that failed, whatever the clean-up
/// steps report; and no call is made after the one that failed.
pub proof fn law_a_block_fails_with_the_first_error(run: Seq<StepOutcome>, k: int)
    requires
        0 <= k < run.len(),
        goes_forward(step_after(run.take(k))),
        code_of(run[k]) is Some,
    ensures
        carried(step_after(run)) == code_of(run[k]),
        !goes_forward(step_after(run)),
    decreases run.len(),
{
    if k == run.len() - 1 {
        assert(run.drop_last() =~= run.take(k));
    } else {
        let shorter = run.drop_last();
        assert(shorter.take(k) =~= run.take(k));
        law_a_block_fails_with_the_first_error(shorter, k);
    }
}

/// How far a step is from the end, at most.
pub open spec fn steps_left(step: BlockStep) -> nat {
    match step {
        BlockStep::CreateBuffer => 7,
        BlockStep::PickMemory => 6,
        BlockStep::AllocateMemory { .. } => 5,
        BlockStep::BindMemory { .. } => 4,
        BlockStep::MapMemory => 3,
        BlockStep::DestroyBuffer { .. } => 2,
        BlockStep::FreeMemory { .. } => 1,
        _ => 0,
    }
}

/// Every step comes nearer to the end: a block is done or has failed after at most
/// seven.
pub proof fn law_block_steps_end(run: Seq<StepOutcome>)
    ensures
        run.len() >= 7 ==> step_after(run) is Fail || step_after(run) is Done,
        steps_left(step_after(run)) == 0 || steps_left(step_after(run)) + run.len() <= 7,
    decreases run.len(),
{
    if run.len() > 0 {
        law_block_steps_end(run.drop_last());
    }
}

} // verus!
