//! The compute queue's command buffers, each reused once the GPU has passed the
//! batch it was submitted with.

use vstd::prelude::*;

use crate::lane::Tier;
use crate::retire::TimelineValue;

verus! {

/// What a command buffer of the lane is doing.
#[derive(Clone, Copy, Debug, PartialEq, Eq, Structural)]
pub enum BatchUse {
    /// Nothing: it can be recorded anew.
    Idle,
    /// It is being recorded.
    Recording,
    /// The GPU may read it until the lane's timeline reaches `value`.
    Submitted { value: TimelineValue },
}

/// One command buffer.
#[derive(Clone, Copy, Debug, PartialEq, Eq, Structural)]
pub struct Batch {
    pub cmd: u64,
    pub role: BatchUse,
}

/// `b` once the timeline has reached `completed`.
pub open spec fn after_completion(b: Batch, completed: TimelineValue) -> Batch {
    match b.role {
        BatchUse::Submitted { value } if value <= completed => Batch {
            role: BatchUse::Idle,
            ..b
        },
        _ => b,
    }
}

/// Every batch once the timeline has reached `completed`.
pub open spec fn reclaimed(batches: Seq<Batch>, completed: TimelineValue) -> Seq<Batch> {
    Seq::new(batches.len(), |i: int| after_completion(batches[i], completed))
}

/// Index of the first idle batch.
pub open spec fn first_idle(batches: Seq<Batch>, i: int) -> bool {
    &&& 0 <= i < batches.len()
    &&& batches[i].role is Idle
    &&& forall|k: int| 0 <= k < i ==> !(#[trigger] batches[k].role is Idle)
}

/// No batch is idle.
pub open spec fn none_idle(batches: Seq<Batch>) -> bool {
    forall|k: int| 0 <= k < batches.len() ==> !(#[trigger] batches[k].role is Idle)
}

/// `batches` with the first idle one, `i`, being recorded.
pub open spec fn taken(batches: Seq<Batch>, i: int) -> Seq<Batch> {
    batches.update(i, Batch { role: BatchUse::Recording, ..batches[i] })
}

/// What beginning a batch comes to next.
#[derive(Clone, Copy, Debug, PartialEq, Eq, Structural)]
pub enum LaneStep {
    /// Record into this command buffer.
    Record { cmd: u64 },
    /// Nothing is idle: ask how far the GPU is.
    ReadCounter,
    /// Nothing is idle still: allocate a command buffer.
    Allocate,
}

/// `batches` as far as the lane knows, which may have read the counter.
pub open spec fn known(batches: Seq<Batch>, completed: Option<TimelineValue>) -> Seq<Batch> {
    match completed {
        Some(c) => reclaimed(batches, c),
        None => batches,
    }
}

/// Beginning a batch among `before` comes to `step` and leaves `after`; `asked`
/// when the counter was read.
pub open spec fn began(
    before: Seq<Batch>,
    asked: bool,
    step: LaneStep,
    after: Seq<Batch>,
) -> bool {
    match step {
        LaneStep::Record { cmd } => exists|i: int| #[trigger]
            first_idle(before, i) && cmd == before[i].cmd && after == taken(before, i),
        LaneStep::ReadCounter => !asked && none_idle(before) && after == before,
        LaneStep::Allocate => asked && none_idle(before) && after == before,
    }
}

/// The compute lane. Without a queue of its own it has no command buffers.
pub struct ComputeLane {
    pub tier: Tier,
    pub family: u32,
    pub batches: Option<Vec<Batch>>,
    /// Timeline value of the last submission.
    pub last: TimelineValue,
}

impl ComputeLane {
    /// The lane's command buffers are apart, and none waits for a value that was
    /// never submitted.
    pub open spec fn wf(&self) -> bool {
        &&& self.batches is Some <==> self.tier != Tier::SameQueueFallback
        &&& self.batches matches Some(list) ==> {
            &&& forall|i: int, j: int|
                0 <= i < j < list.len() ==> (#[trigger] list@[i]).cmd != (#[trigger] list@[j]).cmd
            &&& forall|i: int|
                0 <= i < list.len() ==> match (#[trigger] list@[i]).role {
                    BatchUse::Submitted { value } => value <= self.last,
                    _ => true,
                }
        }
    }

    pub fn new(family: u32, tier: Tier) -> (l: ComputeLane)
        ensures
            l.wf(),
            l.tier == tier,
            l.family == family,
            l.last == 0,
            l.batches matches Some(list) ==> list.len() == 0,
    {
        let batches = if tier == Tier::SameQueueFallback {
            None
        } else {
            Some(Vec::new())
        };
        ComputeLane { tier, family, batches, last: 0 }
    }

    pub fn tier(&self) -> (r: Tier)
        ensures
            r == self.tier,
    {
        self.tier
    }

    pub fn family(&self) -> (r: u32)
        ensures
            r == self.family,
    {
        self.family
    }

    pub fn is_separate_queue(&self) -> (r: bool)
        requires
            self.wf(),
        ensures
            r == (self.tier != Tier::SameQueueFallback),
    {
        self.batches.is_some()
    }

    /// Begins a batch in an idle command buffer. The GPU is asked only when none is
    /// known to be idle: the first call passes no `completed` value, the second the
    /// one that was read.
    pub fn begin(&mut self, completed: Option<TimelineValue>) -> (step: LaneStep)
        requires
            old(self).wf(),
            old(self).tier != Tier::SameQueueFallback,
        ensures
            final(self).wf(),
            *final(self) == (ComputeLane { batches: final(self).batches, ..*old(self) }),
            began(
                known(old(self).batches->Some_0@, completed),
                completed is Some,
                step,
                final(self).batches->Some_0@,
            ),
    {
        let mut found: Option<u64> = None;
        let ghost mut before: Seq<Batch> = Seq::empty();
        if let Some(list) = &mut self.batches {
            if let Some(c) = completed {
                reclaim(list, c);
            }
            proof {
                before = list@;
            }
            found = take_idle(list);
        }
        proof {
            assert(before =~= known(old(self).batches->Some_0@, completed));
        }
        match found {
            Some(cmd) => LaneStep::Record { cmd },
            None => if completed.is_none() {
                LaneStep::ReadCounter
            } else {
                LaneStep::Allocate
            },
        }
    }

    /// Adds a command buffer that was just allocated, to be recorded.
    pub fn grow(&mut self, cmd: u64)
        requires
            old(self).wf(),
            old(self).batches matches Some(list) && forall|i: int|
                0 <= i < list.len() ==> (#[trigger] list@[i]).cmd != cmd,
        ensures
            final(self).wf(),
            *final(self) == (ComputeLane { batches: final(self).batches, ..*old(self) }),
            final(self).batches->Some_0@ == old(self).batches->Some_0@.push(
                (Batch { cmd, role: BatchUse::Recording }),
            ),
    {
        if let Some(list) = &mut self.batches {
            list.push(Batch { cmd, role: BatchUse::Recording });
        }
    }

    /// Notes the submission of a recorded batch and returns its timeline value,
    /// which follows the one before.
    pub fn submit(&mut self, cmd: u64) -> (value: TimelineValue)
        requires
            old(self).wf(),
            old(self).tier != Tier::SameQueueFallback,
            old(self).last < u64::MAX,
        ensures
            final(self).wf(),
            value == old(self).last + 1,
            final(self).last == value,
            *final(self) == (ComputeLane {
                batches: final(self).batches,
                last: final(self).last,
                ..*old(self)
            }),
            final(self).batches->Some_0@ == submitted(old(self).batches->Some_0@, cmd, value),
    {
        self.last = self.last + 1;
        let value: TimelineValue = self.last;
        if let Some(list) = &mut self.batches {
            mark_submitted(list, cmd, value);
        }
        value
    }

    /// Drops the command buffers; true when there were any to destroy.
    pub fn destroy(&mut self) -> (had: bool)
        ensures
            had == old(self).batches is Some,
            final(self).batches is None,
            *final(self) == (ComputeLane { batches: None, ..*old(self) }),
    {
        let had: bool = self.batches.is_some();
        self.batches = None;
        had
    }
}

/// `batches` with the command buffer `cmd` submitted.
pub open spec fn submitted(batches: Seq<Batch>, cmd: u64, value: TimelineValue) -> Seq<Batch> {
    Seq::new(
        batches.len(),
        |i: int|
            if batches[i].cmd == cmd {
                Batch { cmd, role: BatchUse::Submitted { value } }
            } else {
                batches[i]
            },
    )
}

fn reclaim(list: &mut Vec<Batch>, completed: TimelineValue)
    ensures
        final(list)@ == reclaimed(old(list)@, completed),
{
    let ghost before = list@;
    let mut i: usize = 0;
    while i < list.len()
        invariant
            i <= list.len() == before.len(),
            forall|k: int|
                0 <= k < i ==> #[trigger] list@[k] == after_completion(before[k], completed),
            forall|k: int| i <= k < list.len() ==> #[trigger] list@[k] == before[k],
        decreases list.len() - i,
    {
        let b: Batch = list[i];
        if let BatchUse::Submitted { value } = b.role {
            if value <= completed {
                list.set(i, Batch { cmd: b.cmd, role: BatchUse::Idle });
            }
        }
        i = i + 1;
    }
    proof {
        assert(list@ =~= reclaimed(before, completed));
    }
}

fn take_idle(list: &mut Vec<Batch>) -> (cmd: Option<u64>)
    ensures
        match cmd {
            Some(c) => exists|i: int| #[trigger]
                first_idle(old(list)@, i) && c == old(list)@[i].cmd && final(list)@ == taken(
                    old(list)@,
                    i,
                ),
            None => none_idle(old(list)@) && final(list)@ == old(list)@,
        },
{
    let mut i: usize = 0;
    while i < list.len()
        invariant
            i <= list.len(),
            list@ == old(list)@,
            forall|k: int| 0 <= k < i ==> !(#[trigger] list@[k].role is Idle),
        decreases list.len() - i,
    {
        let b: Batch = list[i];
        if b.role == BatchUse::Idle {
            proof {
                assert(first_idle(old(list)@, i as int));
            }
            list.set(i, Batch { cmd: b.cmd, role: BatchUse::Recording });
            return Some(b.cmd);
        }
        i = i + 1;
    }
    None
}

fn mark_submitted(list: &mut Vec<Batch>, cmd: u64, value: TimelineValue)
    ensures
        final(list)@ == submitted(old(list)@, cmd, value),
{
    let ghost before = list@;
    let mut i: usize = 0;
    while i < list.len()
        invariant
            i <= list.len() == before.len(),
            forall|k: int|
                0 <= k < i ==> #[trigger] list@[k] == submitted(before, cmd, value)[k],
            forall|k: int| i <= k < list.len() ==> #[trigger] list@[k] == before[k],
        decreases list.len() - i,
    {
        if list[i].cmd == cmd {
            list.set(i, Batch { cmd, role: BatchUse::Submitted { value } });
        }
        i = i + 1;
    }
    proof {
        assert(list@ =~= submitted(before, cmd, value));
    }
}

/// A command buffer is never recorded anew while the GPU may read it: once it was
/// submitted at `value`, it is idle again only when the timeline has reached
/// `value`.
pub proof fn law_commands_are_not_reused_early(
    batches: Seq<Batch>,
    cmd: u64,
    value: TimelineValue,
    completed: TimelineValue,
    i: int,
)
    requires
        0 <= i < batches.len(),
        batches[i].cmd == cmd,
    ensures
        (reclaimed(submitted(batches, cmd, value), completed)[i].role is Idle) <==> value
            <= completed,
        !first_idle(submitted(batches, cmd, value), i),
{
}

/// A batch is begun with a command buffer that nothing uses: the first idle one. It is then
/// being recorded, and every other batch stays as it is. The counter is read only while
/// none is idle, and a new buffer is made only when reading it freed none.
pub proof fn law_a_batch_begins_with_an_idle_buffer(
    before: Seq<Batch>,
    asked: bool,
    step: LaneStep,
    after: Seq<Batch>,
)
    requires
        began(before, asked, step, after),
    ensures
        after.len() == before.len(),
        step matches LaneStep::Record { cmd } ==> exists|i: int|
            0 <= i < before.len() && (#[trigger] before[i]).cmd == cmd && before[i].role is Idle
                && after[i].cmd == cmd && after[i].role is Recording && (forall|k: int|
                0 <= k < i ==> !((#[trigger] before[k]).role is Idle)) && forall|k: int|
                0 <= k < before.len() && k != i ==> #[trigger] after[k] == before[k],
        !(step is Record) ==> after == before && forall|k: int|
            0 <= k < before.len() ==> !((#[trigger] before[k]).role is Idle),
        step is ReadCounter ==> !asked,
        step is Allocate ==> asked,
{
    if let LaneStep::Record { cmd } = step {
        let i = choose|i: int| #[trigger]
            first_idle(before, i) && cmd == before[i].cmd && after == taken(before, i);
        assert(before[i].cmd == cmd);
        assert forall|k: int| 0 <= k < i implies !((#[trigger] before[k]).role is Idle) by {}
    }
}

} // verus!
