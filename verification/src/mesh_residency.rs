//! Which meshes are on the GPU, and the copies that bring them there.
//!
//! Slots are assigned elsewhere; this mirror follows an ordered stream of uploads
//! and frees. A resident whose bytes are still in a staging buffer is not drawn:
//! it arrives with the flush that copies them. A batch on another queue is read by
//! the next graphics submission at the earliest, so what that submission has to
//! wait for and to acquire is kept until then.

use vstd::prelude::*;

use crate::allocator::Allocation;
use crate::commands::{BufferBarrier, BufferRegion, Cmd, NO_HANDOVER};
use crate::copies;
use crate::copies::{BufferRange, CopyBarrier};
use crate::lane::Lane;
use crate::mesh::Generation;
use crate::playback;
use crate::playback::{Gpu, Memory};
use crate::retire;
use crate::retire::{RetireQueue, TimelineValue};
use crate::staging::{StagingRegion, Stamp};

verus! {

/// Copied bytes per frame; spreads bursts of uploads.
pub const TRANSFER_BUDGET_BYTES_PER_FRAME: u64 = 0x80_0000;

/// Where a copy's bytes are staged.
pub enum CopySource {
    /// A staging allocation of its own.
    Alloc(Allocation),
    /// A region of the staging pool.
    Pool(StagingRegion),
}

/// A staged copy that has not been flushed.
pub struct PendingCopy {
    pub src_buffer: u64,
    pub src_offset: u64,
    pub dst_buffer: u64,
    pub dst_offset: u64,
    pub size: u64,
    pub source: CopySource,
}

impl PendingCopy {
    pub open spec fn wf(&self) -> bool {
        self.dst_offset + self.size <= u64::MAX
    }

    pub open spec fn region(&self) -> BufferRegion {
        BufferRegion {
            src_offset: self.src_offset,
            dst_offset: self.dst_offset,
            size: self.size,
        }
    }

    pub open spec fn range(&self) -> BufferRange {
        BufferRange { buffer: self.dst_buffer, offset: self.dst_offset, size: self.size }
    }
}

/// One mesh on the GPU.
pub struct GpuResident {
    pub buffer: u64,
    pub arena: Allocation,
    pub copy: Option<PendingCopy>,
    pub arrived_at: Option<TimelineValue>,
}

/// What the next graphics submission owes to earlier batches of another queue.
pub struct DeferredArrival {
    pub value: TimelineValue,
    pub acquires: Vec<BufferBarrier>,
}

pub struct MeshResidency {
    pub slots: Vec<Option<GpuResident>>,
    pub generations: Vec<Generation>,
    /// Slots with a staged copy, and the frame in which each was queued.
    pub pending: Vec<(u32, u64)>,
    /// Device and same-queue staging allocations, by the render timeline.
    pub retire: RetireQueue<Allocation>,
    /// Staging allocations of the lane, by its timeline.
    pub transfer_retire: RetireQueue<Allocation>,
    /// Occupied slots.
    pub live: usize,
    /// Slots that arrived with the last flushes.
    pub arrived_since_flush: Vec<u32>,
    pub deferred: Option<DeferredArrival>,
    pub frame: u64,
    /// Longest delay, in frames, of the last flush's pooled copies.
    pub last_pool_arrival_frames: u64,
}

/// Occupied slots.
pub open spec fn occupied(slots: Seq<Option<GpuResident>>) -> nat
    decreases slots.len(),
{
    if slots.len() == 0 {
        0
    } else {
        occupied(slots.drop_last()) + if slots.last() is Some {
            1nat
        } else {
            0
        }
    }
}

proof fn lemma_occupied_push(slots: Seq<Option<GpuResident>>, r: Option<GpuResident>)
    ensures
        occupied(slots.push(r)) == occupied(slots) + if r is Some {
            1nat
        } else {
            0
        },
{
    assert(slots.push(r).drop_last() =~= slots);
}

proof fn lemma_occupied_update(slots: Seq<Option<GpuResident>>, i: int, r: Option<GpuResident>)
    requires
        0 <= i < slots.len(),
    ensures
        occupied(slots.update(i, r)) + if slots[i] is Some {
            1nat
        } else {
            0
        } == occupied(slots) + if r is Some {
            1nat
        } else {
            0
        },
    decreases slots.len(),
{
    if i < slots.len() - 1 {
        lemma_occupied_update(slots.drop_last(), i, r);
        assert(slots.update(i, r).drop_last() =~= slots.drop_last().update(i, r));
    } else {
        assert(slots.update(i, r).drop_last() =~= slots.drop_last());
    }
}

proof fn lemma_occupied_bound(slots: Seq<Option<GpuResident>>)
    ensures
        occupied(slots) <= slots.len(),
        (forall|i: int| 0 <= i < slots.len() ==> (#[trigger] slots[i]) is None) ==> occupied(slots)
            == 0,
    decreases slots.len(),
{
    if slots.len() > 0 {
        lemma_occupied_bound(slots.drop_last());
        if forall|i: int| 0 <= i < slots.len() ==> (#[trigger] slots[i]) is None {
            assert forall|i: int| 0 <= i < slots.drop_last().len() implies (
            #[trigger] slots.drop_last()[i]) is None by {
                assert(slots[i] is None);
            }
            assert(slots[slots.len() - 1] is None);
        }
    }
}

/// The resident of `slot`.
pub open spec fn resident(slots: Seq<Option<GpuResident>>, slot: u32) -> Option<GpuResident> {
    if slot < slots.len() {
        slots[slot as int]
    } else {
        None
    }
}

/// The staged copy of `slot`.
pub open spec fn staged(slots: Seq<Option<GpuResident>>, slot: u32) -> Option<PendingCopy> {
    match resident(slots, slot) {
        Some(r) => r.copy,
        None => None,
    }
}

/// Bytes staged for `slot`.
pub open spec fn staged_bytes(slots: Seq<Option<GpuResident>>, slot: u32) -> u64 {
    match staged(slots, slot) {
        Some(c) => c.size,
        None => 0,
    }
}

/// From entry `i` on, the end of the batch that `budget` more bytes allow. The
/// first entry is always taken.
pub open spec fn batch_end(
    slots: Seq<Option<GpuResident>>,
    pending: Seq<(u32, u64)>,
    i: int,
    budget: int,
) -> int
    decreases pending.len() - i,
{
    if i >= pending.len() {
        pending.len() as int
    } else {
        let size = staged_bytes(slots, pending[i].0);
        if i > 0 && size > budget {
            i
        } else {
            batch_end(
                slots,
                pending,
                i + 1,
                if size > budget {
                    0
                } else {
                    budget - size
                },
            )
        }
    }
}

/// Entries flushed together.
pub open spec fn batch_count(slots: Seq<Option<GpuResident>>, pending: Seq<(u32, u64)>) -> int {
    batch_end(slots, pending, 0, TRANSFER_BUDGET_BYTES_PER_FRAME as int)
}

/// Bytes staged for the entries `i .. j`.
pub open spec fn bytes_between(
    slots: Seq<Option<GpuResident>>,
    pending: Seq<(u32, u64)>,
    i: int,
    j: int,
) -> int
    decreases j - i,
{
    if i >= j {
        0
    } else {
        staged_bytes(slots, pending[i].0) + bytes_between(slots, pending, i + 1, j)
    }
}

proof fn lemma_batch_from(
    slots: Seq<Option<GpuResident>>,
    pending: Seq<(u32, u64)>,
    i: int,
    budget: int,
)
    requires
        0 < i <= pending.len(),
        0 <= budget,
    ensures
        i <= batch_end(slots, pending, i, budget) <= pending.len(),
        bytes_between(slots, pending, i, batch_end(slots, pending, i, budget)) <= budget,
    decreases pending.len() - i,
{
    if i < pending.len() {
        let size = staged_bytes(slots, pending[i].0);
        if size <= budget {
            lemma_batch_from(slots, pending, i + 1, budget - size);
        }
    }
}

/// A batch is never empty while something waits, and past its first copy it stays
/// within the frame's budget.
pub proof fn law_batch_makes_progress_within_budget(
    slots: Seq<Option<GpuResident>>,
    pending: Seq<(u32, u64)>,
)
    requires
        pending.len() > 0,
    ensures
        1 <= batch_count(slots, pending) <= pending.len(),
        ({
            let first = staged_bytes(slots, pending[0].0);
            let all = bytes_between(slots, pending, 0, batch_count(slots, pending));
            first <= TRANSFER_BUDGET_BYTES_PER_FRAME ==> all <= TRANSFER_BUDGET_BYTES_PER_FRAME
        }),
        ({
            let first = staged_bytes(slots, pending[0].0);
            let all = bytes_between(slots, pending, 0, batch_count(slots, pending));
            first > TRANSFER_BUDGET_BYTES_PER_FRAME ==> all == first
        }),
{
    let first = staged_bytes(slots, pending[0].0);
    let rest = if first > TRANSFER_BUDGET_BYTES_PER_FRAME {
        0
    } else {
        TRANSFER_BUDGET_BYTES_PER_FRAME - first
    };
    lemma_batch_from(slots, pending, 1, rest as int);
    lemma_bytes_not_negative(slots, pending, 1, batch_count(slots, pending));
}

proof fn lemma_bytes_not_negative(
    slots: Seq<Option<GpuResident>>,
    pending: Seq<(u32, u64)>,
    i: int,
    j: int,
)
    ensures
        bytes_between(slots, pending, i, j) >= 0,
    decreases j - i,
{
    if i < j {
        lemma_bytes_not_negative(slots, pending, i + 1, j);
    }
}

/// Entry `k` of a batch copies something: its slot has a staged copy, and no
/// earlier entry took it.
pub open spec fn copies_at(
    slots: Seq<Option<GpuResident>>,
    batch: Seq<(u32, u64)>,
    k: int,
) -> bool {
    &&& staged(slots, batch[k].0) is Some
    &&& forall|j: int| 0 <= j < k ==> (#[trigger] batch[j]).0 != batch[k].0
}

/// The first `n` entries that copy something.
pub open spec fn copying(slots: Seq<Option<GpuResident>>, batch: Seq<(u32, u64)>, n: int) -> Seq<
    (u32, u64),
>
    decreases n,
{
    if n <= 0 {
        Seq::empty()
    } else if copies_at(slots, batch, n - 1) {
        copying(slots, batch, n - 1).push(batch[n - 1])
    } else {
        copying(slots, batch, n - 1)
    }
}

/// Copies between one pair of buffers.
pub struct CopyGroup {
    pub src: u64,
    pub dst: u64,
    pub regions: Vec<BufferRegion>,
}

/// A group as its pair of buffers and its regions.
pub type Group = (u64, u64, Seq<BufferRegion>);

pub open spec fn groups_view(groups: Seq<CopyGroup>) -> Seq<Group> {
    Seq::new(groups.len(), |i: int| (groups[i].src, groups[i].dst, groups[i].regions@))
}

/// The first group for the pair, at or behind `i`; the count of groups when there
/// is none.
pub open spec fn group_at(gs: Seq<Group>, src: u64, dst: u64, i: int) -> int
    decreases gs.len() - i,
{
    if i >= gs.len() {
        gs.len() as int
    } else if gs[i].0 == src && gs[i].1 == dst {
        i
    } else {
        group_at(gs, src, dst, i + 1)
    }
}

/// The groups with one more copy: in its pair's group, or in a new one.
pub open spec fn with_copy(gs: Seq<Group>, src: u64, dst: u64, region: BufferRegion) -> Seq<Group> {
    let i = group_at(gs, src, dst, 0);
    if i < gs.len() {
        gs.update(i, (src, dst, gs[i].2.push(region)))
    } else {
        gs.push((src, dst, seq![region]))
    }
}

/// The groups of the copies of `taken`, in order.
pub open spec fn grouped(slots: Seq<Option<GpuResident>>, taken: Seq<(u32, u64)>) -> Seq<Group>
    decreases taken.len(),
{
    if taken.len() == 0 {
        Seq::empty()
    } else {
        let c = staged(slots, taken.last().0)->Some_0;
        with_copy(grouped(slots, taken.drop_last()), c.src_buffer, c.dst_buffer, c.region())
    }
}

proof fn lemma_group_at_bound(gs: Seq<Group>, src: u64, dst: u64, i: int)
    requires
        0 <= i <= gs.len(),
    ensures
        i <= group_at(gs, src, dst, i) <= gs.len(),
    decreases gs.len() - i,
{
    if i < gs.len() && !(gs[i].0 == src && gs[i].1 == dst) {
        lemma_group_at_bound(gs, src, dst, i + 1);
    }
}

/// Puts a copy into its pair's group.
fn add_copy(groups: &mut Vec<CopyGroup>, src: u64, dst: u64, region: BufferRegion)
    ensures
        groups_view(final(groups)@) == with_copy(groups_view(old(groups)@), src, dst, region),
{
    let ghost gs = groups_view(groups@);
    let mut i: usize = 0;
    while i < groups.len()
        invariant
            i <= groups.len(),
            groups@ == old(groups)@,
            gs == groups_view(groups@),
            group_at(gs, src, dst, 0) == group_at(gs, src, dst, i as int),
        decreases groups.len() - i,
    {
        if groups[i].src == src && groups[i].dst == dst {
            groups[i].regions.push(region);
            proof {
                assert(groups_view(groups@) =~= with_copy(gs, src, dst, region));
            }
            return ;
        }
        i = i + 1;
    }
    let mut regions: Vec<BufferRegion> = Vec::new();
    regions.push(region);
    groups.push(CopyGroup { src, dst, regions });
    proof {
        assert(regions@ =~= seq![region]);
        assert(groups_view(groups@) =~= with_copy(gs, src, dst, region));
    }
}

/// The staged regions of one group and the copy that issues them.
pub open spec fn group_cmds(g: Group) -> Seq<Cmd> {
    Seq::new(g.2.len(), |i: int| Cmd::BufferRegion(g.2[i])).push(
        Cmd::CopyBuffer { src: g.0, dst: g.1 },
    )
}

/// The copies of the first `n` groups.
pub open spec fn groups_cmds(gs: Seq<Group>, n: int) -> Seq<Cmd>
    decreases n,
{
    if n <= 0 {
        Seq::empty()
    } else {
        groups_cmds(gs, n - 1) + group_cmds(gs[n - 1])
    }
}

/// Records every group.
fn record_groups(cmds: &mut Vec<Cmd>, groups: &Vec<CopyGroup>)
    ensures
        final(cmds)@ == old(cmds)@ + groups_cmds(groups_view(groups@), groups.len() as int),
{
    let ghost orig = cmds@;
    let ghost gs = groups_view(groups@);
    let mut k: usize = 0;
    proof {
        assert(cmds@ =~= orig + groups_cmds(gs, 0));
    }
    while k < groups.len()
        invariant
            k <= groups.len(),
            gs == groups_view(groups@),
            cmds@ == orig + groups_cmds(gs, k as int),
        decreases groups.len() - k,
    {
        let ghost before = cmds@;
        let mut i: usize = 0;
        while i < groups[k].regions.len()
            invariant
                k < groups.len(),
                i <= groups[k as int].regions.len(),
                cmds@ == before + Seq::new(
                    i as nat,
                    |j: int| Cmd::BufferRegion(groups[k as int].regions@[j]),
                ),
            decreases groups[k as int].regions.len() - i,
        {
            cmds.push(Cmd::BufferRegion(groups[k].regions[i]));
            i = i + 1;
            proof {
                assert(cmds@ =~= before + Seq::new(
                    i as nat,
                    |j: int| Cmd::BufferRegion(groups[k as int].regions@[j]),
                ));
            }
        }
        cmds.push(Cmd::CopyBuffer { src: groups[k].src, dst: groups[k].dst });
        k = k + 1;
        proof {
            assert(cmds@ =~= before + group_cmds(gs[k - 1]));
            assert(cmds@ =~= orig + groups_cmds(gs, k as int));
        }
    }
}

/// One barrier per written run.
pub open spec fn run_barriers(runs: Seq<BufferRange>, role: CopyBarrier) -> Seq<BufferBarrier> {
    Seq::new(
        runs.len(),
        |i: int|
            copies::copy_barrier(
                runs[i].buffer,
                runs[i].offset,
                runs[i].size,
                copies::mesh_reads(),
                role,
            ),
    )
}

fn barriers(runs: &Vec<BufferRange>, role: CopyBarrier) -> (r: Vec<BufferBarrier>)
    ensures
        r@ == run_barriers(runs@, role),
{
    let mut r: Vec<BufferBarrier> = Vec::new();
    let mut i: usize = 0;
    while i < runs.len()
        invariant
            i <= runs.len(),
            r@ == run_barriers(runs@, role).take(i as int),
        decreases runs.len() - i,
    {
        let run: BufferRange = runs[i];
        r.push(
            copies::copy_barrier(run.buffer, run.offset, run.size, copies::mesh_reads(), role),
        );
        i = i + 1;
        proof {
            assert(r@ =~= run_barriers(runs@, role).take(i as int));
        }
    }
    proof {
        assert(run_barriers(runs@, role).take(i as int) =~= run_barriers(runs@, role));
    }
    r
}

/// Buffer barriers issued together.
pub open spec fn issued(bs: Seq<BufferBarrier>) -> Seq<Cmd> {
    Seq::new(bs.len(), |i: int| Cmd::BufferBarrier(bs[i])).push(Cmd::Barriers)
}

pub fn issue(cmds: &mut Vec<Cmd>, bs: &Vec<BufferBarrier>)
    ensures
        final(cmds)@ == old(cmds)@ + issued(bs@),
{
    let ghost orig = cmds@;
    let mut i: usize = 0;
    while i < bs.len()
        invariant
            i <= bs.len(),
            cmds@ == orig + Seq::new(i as nat, |k: int| Cmd::BufferBarrier(bs@[k])),
        decreases bs.len() - i,
    {
        cmds.push(Cmd::BufferBarrier(bs[i]));
        i = i + 1;
        proof {
            assert(cmds@ =~= orig + Seq::new(i as nat, |k: int| Cmd::BufferBarrier(bs@[k])));
        }
    }
    cmds.push(Cmd::Barriers);
    proof {
        assert(cmds@ =~= orig + issued(bs@));
    }
}

/// `slot` is among the entries.
pub open spec fn names(taken: Seq<(u32, u64)>, slot: int) -> bool {
    exists|k: int| 0 <= k < taken.len() && (#[trigger] taken[k]).0 == slot
}

/// The residents once the copies of `taken` are taken.
pub open spec fn cleared(slots: Seq<Option<GpuResident>>, taken: Seq<(u32, u64)>) -> Seq<
    Option<GpuResident>,
> {
    Seq::new(
        slots.len(),
        |s: int|
            match slots[s] {
                Some(r) => if names(taken, s) {
                    Some(GpuResident { copy: None, ..r })
                } else {
                    slots[s]
                },
                None => None,
            },
    )
}

/// The slots of the entries.
pub open spec fn slots_of(taken: Seq<(u32, u64)>) -> Seq<u32> {
    Seq::new(taken.len(), |k: int| taken[k].0)
}

/// What the copies write, in order.
pub open spec fn ranges_of(slots: Seq<Option<GpuResident>>, taken: Seq<(u32, u64)>) -> Seq<
    BufferRange,
> {
    Seq::new(taken.len(), |k: int| staged(slots, taken[k].0)->Some_0.range())
}

/// The staging allocations of the copies, in order.
pub open spec fn allocs_of(slots: Seq<Option<GpuResident>>, taken: Seq<(u32, u64)>) -> Seq<
    Allocation,
>
    decreases taken.len(),
{
    if taken.len() == 0 {
        Seq::empty()
    } else {
        let rest = allocs_of(slots, taken.drop_last());
        match staged(slots, taken.last().0)->Some_0.source {
            CopySource::Alloc(a) => rest.push(a),
            CopySource::Pool(_) => rest,
        }
    }
}

/// The pool regions of the copies, in order.
pub open spec fn leases_of(slots: Seq<Option<GpuResident>>, taken: Seq<(u32, u64)>) -> Seq<
    StagingRegion,
>
    decreases taken.len(),
{
    if taken.len() == 0 {
        Seq::empty()
    } else {
        let rest = leases_of(slots, taken.drop_last());
        match staged(slots, taken.last().0)->Some_0.source {
            CopySource::Alloc(_) => rest,
            CopySource::Pool(r) => rest.push(r),
        }
    }
}

/// The longest delay, in frames, of the pooled copies.
pub open spec fn longest_delay(
    slots: Seq<Option<GpuResident>>,
    taken: Seq<(u32, u64)>,
    frame: u64,
) -> u64
    decreases taken.len(),
{
    if taken.len() == 0 {
        0
    } else {
        let rest = longest_delay(slots, taken.drop_last(), frame);
        let queued = taken.last().1;
        let delay: u64 = if frame > queued {
            (frame - queued) as u64
        } else {
            0
        };
        match staged(slots, taken.last().0)->Some_0.source {
            CopySource::Alloc(_) => rest,
            CopySource::Pool(_) => if delay > rest {
                delay
            } else {
                rest
            },
        }
    }
}

/// The copies of one flush, to be recorded and submitted.
pub struct CopyBatch {
    /// `record` goes to the lane, not to the frame's command buffer.
    pub on_lane: bool,
    pub record: Vec<Cmd>,
    /// For the next graphics submission.
    pub acquires: Vec<BufferBarrier>,
    pub slots: Vec<u32>,
    pub allocs: Vec<Allocation>,
    pub leases: Vec<StagingRegion>,
    pub max_pool_delay: u64,
}

/// The batch over the written runs `runs`.
pub open spec fn batch_record(gs: Seq<Group>, runs: Seq<BufferRange>, lane: Lane, family: u32) -> Seq<
    Cmd,
> {
    groups_cmds(gs, gs.len() as int) + if lane.needs_ownership_transfer() {
        issued(
            run_barriers(
                runs,
                CopyBarrier::Release { src_family: lane.family, dst_family: family },
            ),
        )
    } else if lane.is_separate_queue() {
        Seq::empty()
    } else {
        issued(run_barriers(runs, CopyBarrier::Draw))
    }
}

/// What the next graphics submission acquires.
pub open spec fn batch_acquires(runs: Seq<BufferRange>, lane: Lane, family: u32) -> Seq<
    BufferBarrier,
> {
    if lane.needs_ownership_transfer() {
        run_barriers(
            runs,
            CopyBarrier::Acquire { src_family: lane.family, dst_family: family },
        )
    } else {
        Seq::empty()
    }
}

/// `b` carries out the copies of `taken`.
pub open spec fn batch_ok(
    slots: Seq<Option<GpuResident>>,
    taken: Seq<(u32, u64)>,
    frame: u64,
    lane: Lane,
    family: u32,
    b: CopyBatch,
) -> bool {
    &&& b.on_lane == lane.is_separate_queue()
    &&& b.slots@ == slots_of(taken)
    &&& b.allocs@ == allocs_of(slots, taken)
    &&& b.leases@ == leases_of(slots, taken)
    &&& b.max_pool_delay == longest_delay(slots, taken, frame)
    &&& exists|runs: Seq<BufferRange>| #[trigger]
        copies::coalesced(ranges_of(slots, taken), runs) && b.record@ == batch_record(
            grouped(slots, taken),
            runs,
            lane,
            family,
        ) && b.acquires@ == batch_acquires(runs, lane, family)
}

/// An earlier entry of the same slot took the copy.
proof fn lemma_copying_names(
    slots: Seq<Option<GpuResident>>,
    batch: Seq<(u32, u64)>,
    n: int,
    slot: u32,
)
    requires
        0 <= n <= batch.len(),
    ensures
        names(copying(slots, batch, n), slot as int) <==> staged(slots, slot) is Some && exists|
            j: int,
        |
            0 <= j < n && (#[trigger] batch[j]).0 == slot,
    decreases n,
{
    if n > 0 {
        lemma_copying_names(slots, batch, n - 1, slot);
        let a = copying(slots, batch, n - 1);
        let b = copying(slots, batch, n);
        if copies_at(slots, batch, n - 1) {
            assert(b == a.push(batch[n - 1]));
            if names(a, slot as int) {
                let k = choose|k: int| 0 <= k < a.len() && (#[trigger] a[k]).0 == slot;
                assert(b[k].0 == slot);
            }
            if names(b, slot as int) {
                let k = choose|k: int| 0 <= k < b.len() && (#[trigger] b[k]).0 == slot;
                if k < a.len() {
                    assert(a[k].0 == slot);
                } else {
                    assert(batch[n - 1].0 == slot);
                }
            }
            if batch[n - 1].0 == slot {
                assert(b[a.len() as int].0 == slot);
            }
        } else if batch[n - 1].0 == slot && staged(slots, slot) is Some {
            let j = choose|j: int| 0 <= j < n - 1 && (#[trigger] batch[j]).0 == batch[n - 1].0;
            assert(batch[j].0 == slot);
        }
    }
}

/// Every entry that copies something has a staged copy.
proof fn lemma_copying_staged(slots: Seq<Option<GpuResident>>, batch: Seq<(u32, u64)>, n: int)
    requires
        0 <= n <= batch.len(),
    ensures
        forall|k: int|
            0 <= k < copying(slots, batch, n).len() ==> staged(
                slots,
                (#[trigger] copying(slots, batch, n)[k]).0,
            ) is Some,
        copying(slots, batch, n).len() <= n,
    decreases n,
{
    if n > 0 {
        lemma_copying_staged(slots, batch, n - 1);
    }
}

/// Takes the staged copy of `slot`.
fn take_copy(slots: &mut Vec<Option<GpuResident>>, slot: u32) -> (r: Option<PendingCopy>)
    ensures
        r == staged(old(slots)@, slot),
        final(slots).len() == old(slots).len(),
        forall|s: int|
            0 <= s < old(slots).len() ==> #[trigger] final(slots)@[s] == match old(slots)@[s] {
                Some(res) => if s == slot {
                    Some(GpuResident { copy: None, ..res })
                } else {
                    old(slots)@[s]
                },
                None => None,
            },
{
    let i: usize = slot as usize;
    if i >= slots.len() {
        return None;
    }
    match &mut slots[i] {
        Some(res) => res.copy.take(),
        None => None,
    }
}

impl MeshResidency {
    pub open spec fn wf(&self) -> bool {
        &&& self.slots.len() == self.generations.len()
        &&& self.slots.len() <= u32::MAX + 1
        &&& self.live == occupied(self.slots@)
        &&& forall|s: int|
            0 <= s < self.slots.len() ==> ((#[trigger] self.slots[s]) matches Some(r)
                ==> r.copy matches Some(c) ==> c.wf())
    }

    pub fn new() -> (r: Self)
        ensures
            r.wf(),
            r.slots@ == Seq::<Option<GpuResident>>::empty(),
            r.pending@ == Seq::<(u32, u64)>::empty(),
            r.retire@.len() == 0,
            r.transfer_retire@.len() == 0,
            r.live == 0,
            r.arrived_since_flush@ == Seq::<u32>::empty(),
            r.deferred is None,
            r.frame == 0,
            r.last_pool_arrival_frames == 0,
    {
        MeshResidency {
            slots: Vec::new(),
            generations: Vec::new(),
            pending: Vec::new(),
            retire: RetireQueue::new(),
            transfer_retire: RetireQueue::new(),
            live: 0,
            arrived_since_flush: Vec::new(),
            deferred: None,
            frame: 0,
            last_pool_arrival_frames: 0,
        }
    }

    /// Advances the frame count by which delays are measured.
    pub fn note_frame(&mut self)
        ensures
            *final(self) == (MeshResidency {
                frame: if old(self).frame == u64::MAX {
                    u64::MAX
                } else {
                    (old(self).frame + 1) as u64
                },
                ..*old(self)
            }),
    {
        if self.frame < u64::MAX {
            self.frame = self.frame + 1;
        }
    }

    /// The slot's bytes are on the GPU.
    pub open spec fn arrived(&self, slot: u32) -> bool {
        resident(self.slots@, slot) matches Some(r) && r.arrived_at is Some
    }

    pub fn is_arrived(&self, slot: u32) -> (r: bool)
        ensures
            r == self.arrived(slot),
    {
        let i: usize = slot as usize;
        if i < self.slots.len() {
            match &self.slots[i] {
                Some(r) => r.arrived_at.is_some(),
                None => false,
            }
        } else {
            false
        }
    }

    /// Hands out the slots that arrived since the last call.
    pub fn take_arrived(&mut self) -> (r: Vec<u32>)
        ensures
            r@ == old(self).arrived_since_flush@,
            final(self).arrived_since_flush@ == Seq::<u32>::empty(),
            *final(self) == (MeshResidency {
                arrived_since_flush: final(self).arrived_since_flush,
                ..*old(self)
            }),
    {
        let mut r: Vec<u32> = Vec::new();
        r.append(&mut self.arrived_since_flush);
        proof {
            assert(r@ =~= old(self).arrived_since_flush@);
        }
        r
    }

    /// Makes room for slot `i`.
    fn ensure_slot(&mut self, i: usize)
        requires
            old(self).wf(),
            i < usize::MAX,
            i <= u32::MAX,
        ensures
            final(self).wf(),
            i < final(self).slots.len(),
            final(self).slots.len() == if old(self).slots.len() > i {
                old(self).slots.len()
            } else {
                (i + 1) as usize
            },
            forall|s: int|
                0 <= s < final(self).slots.len() ==> #[trigger] final(self).slots@[s] == if s
                    < old(self).slots.len() {
                    old(self).slots@[s]
                } else {
                    None
                },
            forall|s: int|
                0 <= s < old(self).slots.len() ==> #[trigger] final(self).generations@[s]
                    == old(self).generations@[s],
            forall|s: int|
                old(self).slots.len() <= s < final(self).slots.len() ==> (
                #[trigger] final(self).generations@[s]).value() == 1,
            *final(self) == (MeshResidency {
                slots: final(self).slots,
                generations: final(self).generations,
                ..*old(self)
            }),
    {
        let ghost s0 = *self;
        while self.slots.len() <= i
            invariant
                self.wf(),
                i < usize::MAX,
                i <= u32::MAX,
                s0.slots.len() <= self.slots.len(),
                s0.slots.len() == s0.generations.len(),
                self.slots.len() > i + 1 ==> self.slots.len() == s0.slots.len(),
                forall|s: int|
                    0 <= s < self.slots.len() ==> #[trigger] self.slots@[s] == if s
                        < s0.slots.len() {
                        s0.slots@[s]
                    } else {
                        None
                    },
                forall|s: int|
                    0 <= s < s0.slots.len() ==> #[trigger] self.generations@[s]
                        == s0.generations@[s],
                forall|s: int|
                    s0.slots.len() <= s < self.slots.len() ==> (
                    #[trigger] self.generations@[s]).value() == 1,
                *self == (MeshResidency {
                    slots: self.slots,
                    generations: self.generations,
                    ..s0
                }),
            decreases i + 1 - self.slots.len(),
        {
            proof {
                lemma_occupied_push(self.slots@, None);
            }
            self.slots.push(None);
            self.generations.push(Generation::first());
        }
    }

    /// Installs `resident` at `slot` and queues its staged copy, if it has one.
    pub fn apply_upload(&mut self, slot: u32, generation: Generation, resident: GpuResident)
        requires
            old(self).wf(),
            slot < usize::MAX,
            resident.copy matches Some(c) ==> c.wf(),
        ensures
            final(self).wf(),
            final(self).slots.len() == if old(self).slots.len() > slot {
                old(self).slots.len()
            } else {
                (slot + 1) as usize
            },
            forall|s: int|
                0 <= s < final(self).slots.len() ==> #[trigger] final(self).slots@[s] == if s
                    == slot {
                    Some(resident)
                } else if s < old(self).slots.len() {
                    old(self).slots@[s]
                } else {
                    None
                },
            final(self).generations@[slot as int] == generation,
            forall|s: int|
                0 <= s < old(self).slots.len() && s != slot ==> (
                #[trigger] final(self).generations@[s]) == old(self).generations@[s],
            forall|s: int|
                old(self).slots.len() <= s < slot ==> (
                #[trigger] final(self).generations@[s]).value() == 1,
            final(self).pending@ == if resident.copy is Some {
                old(self).pending@.push((slot, old(self).frame))
            } else {
                old(self).pending@
            },
            *final(self) == (MeshResidency {
                slots: final(self).slots,
                generations: final(self).generations,
                pending: final(self).pending,
                live: final(self).live,
                ..*old(self)
            }),
    {
        let i: usize = slot as usize;
        self.ensure_slot(i);
        let ghost s1 = *self;
        if resident.copy.is_some() {
            let frame: u64 = self.frame;
            self.pending.push((slot, frame));
        }
        proof {
            lemma_occupied_bound(self.slots@);
            lemma_occupied_update(self.slots@, i as int, Some(resident));
            lemma_occupied_bound(self.slots@.update(i as int, Some(resident)));
        }
        if self.slots[i].is_none() {
            self.live = self.live + 1;
        }
        self.slots.set(i, Some(resident));
        self.generations.set(i, generation);
        proof {
            assert(self.slots@ == s1.slots@.update(i as int, Some(resident)));
        }
    }
}

/// What a freed resident leaves to the render timeline.
pub open spec fn retired_by(r: GpuResident, done_at: TimelineValue) -> Seq<
    retire::Retired<Allocation>,
> {
    let arena = seq![retire::Retired { value: done_at, item: r.arena }];
    match r.copy {
        Some(c) => match c.source {
            CopySource::Alloc(a) => arena.push(retire::Retired { value: done_at, item: a }),
            CopySource::Pool(_) => arena,
        },
        None => arena,
    }
}

/// The residents once `list` has arrived.
pub open spec fn landed(
    slots: Seq<Option<GpuResident>>,
    list: Seq<u32>,
    value: TimelineValue,
) -> Seq<Option<GpuResident>> {
    Seq::new(
        slots.len(),
        |s: int|
            match slots[s] {
                Some(r) => if list.contains(s as u32) {
                    Some(GpuResident { arrived_at: Some(value), ..r })
                } else {
                    slots[s]
                },
                None => None,
            },
    )
}

/// The slots of `list` that are occupied, in order.
pub open spec fn landing(slots: Seq<Option<GpuResident>>, list: Seq<u32>) -> Seq<u32>
    decreases list.len(),
{
    if list.len() == 0 {
        Seq::empty()
    } else {
        let rest = landing(slots, list.drop_last());
        if resident(slots, list.last()) is Some {
            rest.push(list.last())
        } else {
            rest
        }
    }
}

/// `items`, each waiting for `value`.
pub open spec fn waiting_for<T>(items: Seq<T>, value: TimelineValue) -> Seq<retire::Retired<T>> {
    Seq::new(items.len(), |i: int| retire::Retired { value, item: items[i] })
}

/// The stamp of a pool region that a batch has read.
#[verifier::allow_in_spec]
pub fn batch_stamp(on_lane: bool, value: TimelineValue) -> Stamp
    returns
        (if on_lane {
            Stamp::Transfer(value)
        } else {
            Stamp::Render(value)
        }),
{
    if on_lane {
        Stamp::Transfer(value)
    } else {
        Stamp::Render(value)
    }
}

/// `more` folded into what is owed: the later value and both lists.
pub open spec fn owed(
    before: Option<DeferredArrival>,
    value: TimelineValue,
    acquires: Seq<BufferBarrier>,
    after: Option<DeferredArrival>,
) -> bool {
    after matches Some(d) && match before {
        None => d.value == value && d.acquires@ == acquires,
        Some(p) => {
            &&& d.value == if p.value > value {
                p.value
            } else {
                value
            }
            &&& d.acquires@ == p.acquires@ + acquires
        },
    }
}

impl MeshResidency {
    /// Gives up the resident of `slot` once the frames up to `done_at` are done,
    /// unless the slot has moved on to another generation. Returns the stamp for
    /// its pool region, if it has one.
    pub fn apply_free(
        &mut self,
        slot: u32,
        generation: Generation,
        done_at: TimelineValue,
    ) -> (r: Option<(StagingRegion, Stamp)>)
        requires
            old(self).wf(),
        ensures
            final(self).wf(),
            ({
                let current = slot < old(self).slots.len() && old(self).generations@[slot as int].value() == generation.value();
                match resident(old(self).slots@, slot) {
                    Some(res) if current => {
                        &&& final(self).slots@ == old(self).slots@.update(slot as int, None)
                        &&& final(self).retire@ == old(self).retire@ + retired_by(res, done_at)
                        &&& r == match res.copy {
                            Some(c) => match c.source {
                                CopySource::Pool(region) => Some((region, Stamp::Render(done_at))),
                                CopySource::Alloc(_) => None,
                            },
                            None => None,
                        }
                    },
                    _ => *final(self) == *old(self) && r is None,
                }
            }),
            *final(self) == (MeshResidency {
                slots: final(self).slots,
                retire: final(self).retire,
                live: final(self).live,
                ..*old(self)
            }),
    {
        let ghost s0 = *self;
        let i: usize = slot as usize;
        if i >= self.slots.len() || self.generations[i].get() != generation.get() {
            return None;
        }
        if self.slots[i].is_none() {
            return None;
        }
        proof {
            lemma_occupied_update(self.slots@, i as int, None);
            lemma_occupied_bound(self.slots@.update(i as int, None));
        }
        let taken = self.slots[i].take();
        proof {
            assert(self.slots@ =~= s0.slots@.update(i as int, None));
        }
        match taken {
            None => None,
            Some(res) => {
                self.live = self.live - 1;
                self.retire.push(done_at, res.arena);
                let mut stamped: Option<(StagingRegion, Stamp)> = None;
                if let Some(copy) = res.copy {
                    match copy.source {
                        CopySource::Alloc(a) => {
                            self.retire.push(done_at, a);
                        },
                        CopySource::Pool(region) => {
                            stamped = Some((region, Stamp::Render(done_at)));
                        },
                    }
                }
                proof {
                    assert(self.retire@ =~= s0.retire@ + retired_by(
                        s0.slots@[i as int]->Some_0,
                        done_at,
                    ));
                }
                stamped
            },
        }
    }

    /// Entries that the next batch takes.
    fn count_batch(&self) -> (take: usize)
        requires
            self.wf(),
        ensures
            take == batch_count(self.slots@, self.pending@),
            take <= self.pending.len(),
    {
        let mut budget: u64 = TRANSFER_BUDGET_BYTES_PER_FRAME;
        let mut i: usize = 0;
        while i < self.pending.len()
            invariant
                self.wf(),
                i <= self.pending.len(),
                batch_end(self.slots@, self.pending@, i as int, budget as int) == batch_count(
                    self.slots@,
                    self.pending@,
                ),
            decreases self.pending.len() - i,
        {
            let slot: usize = self.pending[i].0 as usize;
            let mut size: u64 = 0;
            if slot < self.slots.len() {
                if let Some(r) = &self.slots[slot] {
                    if let Some(c) = &r.copy {
                        size = c.size;
                    }
                }
            }
            proof {
                assert(size == staged_bytes(self.slots@, self.pending@[i as int].0));
            }
            if i > 0 && size > budget {
                return i;
            }
            budget = if size > budget {
                0
            } else {
                budget - size
            };
            i = i + 1;
        }
        i
    }

    /// Takes the next batch of staged copies and records it. `None` when none of
    /// its entries still has one.
    #[verifier::rlimit(60)]
    pub fn begin_copies(&mut self, lane: Lane, graphics_family: u32) -> (r: Option<CopyBatch>)
        requires
            old(self).wf(),
        ensures
            final(self).wf(),
            ({
                let count = batch_count(old(self).slots@, old(self).pending@);
                let batch = old(self).pending@.take(count);
                let taken = copying(old(self).slots@, batch, count);
                &&& final(self).pending@ == old(self).pending@.skip(count)
                &&& final(self).slots@ == cleared(old(self).slots@, taken)
                &&& match r {
                    None => taken.len() == 0,
                    Some(b) => taken.len() > 0 && batch_ok(
                        old(self).slots@,
                        taken,
                        old(self).frame,
                        lane,
                        graphics_family,
                        b,
                    ),
                }
            }),
            *final(self) == (MeshResidency {
                slots: final(self).slots,
                pending: final(self).pending,
                ..*old(self)
            }),
    {
        let ghost s0 = *self;
        let take: usize = self.count_batch();
        let ghost batch = self.pending@.take(take as int);
        let remainder = self.pending.split_off(take);
        let mut groups: Vec<CopyGroup> = Vec::new();
        let mut ranges: Vec<BufferRange> = Vec::new();
        let mut slots: Vec<u32> = Vec::new();
        let mut allocs: Vec<Allocation> = Vec::new();
        let mut leases: Vec<StagingRegion> = Vec::new();
        let mut max_pool_delay: u64 = 0;
        let mut k: usize = 0;
        proof {
            assert(self.pending@ =~= batch);
            assert(remainder@ =~= s0.pending@.skip(take as int));
            assert(cleared(s0.slots@, copying(s0.slots@, batch, 0)) =~= s0.slots@);
            assert(groups_view(groups@) =~= grouped(s0.slots@, copying(s0.slots@, batch, 0)));
        }
        while k < self.pending.len()
            invariant
                s0.wf(),
                k <= batch.len(),
                self.pending@ == batch,
                *self == (MeshResidency { slots: self.slots, pending: self.pending, ..s0 }),
                self.slots@ == cleared(s0.slots@, copying(s0.slots@, batch, k as int)),
                groups_view(groups@) == grouped(s0.slots@, copying(s0.slots@, batch, k as int)),
                ranges@ == ranges_of(s0.slots@, copying(s0.slots@, batch, k as int)),
                slots@ == slots_of(copying(s0.slots@, batch, k as int)),
                allocs@ == allocs_of(s0.slots@, copying(s0.slots@, batch, k as int)),
                leases@ == leases_of(s0.slots@, copying(s0.slots@, batch, k as int)),
                max_pool_delay == longest_delay(
                    s0.slots@,
                    copying(s0.slots@, batch, k as int),
                    s0.frame,
                ),
                forall|j: int| 0 <= j < ranges.len() ==> (#[trigger] ranges[j]).end() <= u64::MAX,
            decreases batch.len() - k,
        {
            let (slot, queued_at) = self.pending[k];
            let ghost c0 = copying(s0.slots@, batch, k as int);
            let ghost c1 = copying(s0.slots@, batch, k + 1);
            let ghost before = self.slots@;
            proof {
                lemma_copying_names(s0.slots@, batch, k as int, slot);
                assert(staged(before, slot) is Some <==> copies_at(s0.slots@, batch, k as int)) by {
                    assert(batch[k as int].0 == slot);
                    if slot < before.len() {
                        assert(before[slot as int] == cleared(s0.slots@, c0)[slot as int]);
                    }
                }
                if slot < before.len() {
                    assert(before[slot as int] == cleared(s0.slots@, c0)[slot as int]);
                    assert(s0.slots@[slot as int] matches Some(r) ==> r.copy matches Some(c)
                        ==> c.wf());
                }
            }
            let copy = take_copy(&mut self.slots, slot);
            proof {
                lemma_cleared_step(s0.slots@, c0, before, self.slots@, batch[k as int], copy);
            }
            if let Some(copy) = copy {
                let ghost gc = copy;
                proof {
                    assert(c1 == c0.push(batch[k as int]));
                    assert(c1.drop_last() =~= c0);
                    assert(staged(s0.slots@, slot) == Some(gc));
                }
                let region = BufferRegion {
                    src_offset: copy.src_offset,
                    dst_offset: copy.dst_offset,
                    size: copy.size,
                };
                add_copy(&mut groups, copy.src_buffer, copy.dst_buffer, region);
                ranges.push(
                    BufferRange {
                        buffer: copy.dst_buffer,
                        offset: copy.dst_offset,
                        size: copy.size,
                    },
                );
                match copy.source {
                    CopySource::Alloc(a) => {
                        allocs.push(a);
                    },
                    CopySource::Pool(lease) => {
                        leases.push(lease);
                        let delay: u64 = if self.frame > queued_at {
                            self.frame - queued_at
                        } else {
                            0
                        };
                        if delay > max_pool_delay {
                            max_pool_delay = delay;
                        }
                    },
                }
                slots.push(slot);
                proof {
                    assert(ranges@ =~= ranges_of(s0.slots@, c1));
                    assert(slots@ =~= slots_of(c1));
                }
            }
            k = k + 1;
        }
        self.pending = remainder;
        let ghost taken = copying(s0.slots@, batch, take as int);
        proof {
            lemma_copying_staged(s0.slots@, batch, take as int);
            lemma_cleared_wf(s0.slots@, taken);
        }
        if slots.len() == 0 {
            return None;
        }
        let mut record: Vec<Cmd> = Vec::new();
        record_groups(&mut record, &groups);
        let runs = copies::coalesce_ranges(ranges);
        let separate: bool = lane.is_separate_queue();
        let mut acquires: Vec<BufferBarrier> = Vec::new();
        if lane.needs_ownership_transfer() {
            let release = barriers(
                &runs,
                CopyBarrier::Release { src_family: lane.family, dst_family: graphics_family },
            );
            issue(&mut record, &release);
            acquires =
            barriers(
                &runs,
                CopyBarrier::Acquire { src_family: lane.family, dst_family: graphics_family },
            );
        } else if !separate {
            let draw = barriers(&runs, CopyBarrier::Draw);
            issue(&mut record, &draw);
        }
        proof {
            assert(record@ =~= batch_record(
                grouped(s0.slots@, taken),
                runs@,
                lane,
                graphics_family,
            ));
            assert(acquires@ =~= batch_acquires(runs@, lane, graphics_family));
            assert(copies::coalesced(ranges_of(s0.slots@, taken), runs@));
        }
        Some(CopyBatch { on_lane: separate, record, acquires, slots, allocs, leases, max_pool_delay })
    }
}

/// One more entry of a batch.
proof fn lemma_cleared_step(
    slots: Seq<Option<GpuResident>>,
    c0: Seq<(u32, u64)>,
    before: Seq<Option<GpuResident>>,
    after: Seq<Option<GpuResident>>,
    e: (u32, u64),
    copy: Option<PendingCopy>,
)
    requires
        before == cleared(slots, c0),
        copy == staged(before, e.0),
        after.len() == before.len(),
        forall|s: int|
            0 <= s < before.len() ==> #[trigger] after[s] == match before[s] {
                Some(res) => if s == e.0 {
                    Some(GpuResident { copy: None, ..res })
                } else {
                    before[s]
                },
                None => None,
            },
    ensures
        copy is Some ==> after == cleared(slots, c0.push(e)),
        copy is None ==> after == cleared(slots, c0),
{
    let c1 = c0.push(e);
    assert forall|s: int| 0 <= s < slots.len() implies after[s] == if copy is Some {
        cleared(slots, c1)[s]
    } else {
        cleared(slots, c0)[s]
    } by {
        assert(before[s] == cleared(slots, c0)[s]);
        assert(names(c1, s) <==> names(c0, s) || s == e.0) by {
            if names(c1, s) {
                let k = choose|k: int| 0 <= k < c1.len() && (#[trigger] c1[k]).0 == s;
                if k < c0.len() {
                    assert(c0[k].0 == s);
                }
            }
            if names(c0, s) {
                let k = choose|k: int| 0 <= k < c0.len() && (#[trigger] c0[k]).0 == s;
                assert(c1[k].0 == s);
            }
            assert(c1[c0.len() as int].0 == e.0);
        }
    }
    if copy is Some {
        assert(after =~= cleared(slots, c1));
    } else {
        assert(after =~= cleared(slots, c0));
    }
}

/// Taking copies leaves the slots occupied as they were.
proof fn lemma_cleared_wf(slots: Seq<Option<GpuResident>>, taken: Seq<(u32, u64)>)
    ensures
        occupied(cleared(slots, taken)) == occupied(slots),
    decreases slots.len(),
{
    let c = cleared(slots, taken);
    if slots.len() > 0 {
        lemma_cleared_wf(slots.drop_last(), taken);
        assert(c.drop_last() =~= cleared(slots.drop_last(), taken));
        assert(c.last() == c[slots.len() - 1]);
    } else {
        assert(c =~= slots);
    }
}

/// Pushes every item of `items`, each waiting for `value`.
fn retire_all(queue: &mut RetireQueue<Allocation>, items: Vec<Allocation>, value: TimelineValue)
    ensures
        final(queue)@ == old(queue)@ + waiting_for(items@, value),
{
    let ghost orig = queue@;
    let ghost all = items@;
    // The last item leaves the list first, so the list is turned round.
    let mut rest: Vec<Allocation> = items;
    let mut turned: Vec<Allocation> = Vec::new();
    proof {
        assert(all.take(all.len() as int) =~= all);
    }
    while rest.len() > 0
        invariant
            rest.len() + turned.len() == all.len(),
            rest@ == all.take(rest.len() as int),
            forall|i: int| 0 <= i < turned.len() ==> turned[i] == #[trigger] all[all.len() - 1 - i],
        decreases rest.len(),
    {
        if let Some(a) = rest.pop() {
            turned.push(a);
        }
        proof {
            assert(rest@ =~= all.take(rest.len() as int));
        }
    }
    let ghost mut n: int = 0;
    proof {
        assert(queue@ =~= orig + waiting_for(all, value).take(0));
    }
    while turned.len() > 0
        invariant
            turned.len() + n == all.len(),
            0 <= n,
            forall|i: int| 0 <= i < turned.len() ==> turned[i] == #[trigger] all[all.len() - 1 - i],
            queue@ == orig + waiting_for(all, value).take(n),
        decreases turned.len(),
    {
        proof {
            assert(turned[turned.len() - 1] == all[all.len() - 1 - (turned.len() - 1)]);
        }
        if let Some(a) = turned.pop() {
            queue.push(value, a);
        }
        proof {
            n = n + 1;
            assert(queue@ =~= orig + waiting_for(all, value).take(n));
        }
    }
    proof {
        assert(waiting_for(all, value).take(n) =~= waiting_for(all, value));
    }
}

/// One more slot of a list has arrived.
proof fn lemma_landed_step(
    slots: Seq<Option<GpuResident>>,
    list: Seq<u32>,
    value: TimelineValue,
    now: Seq<Option<GpuResident>>,
    slot: u32,
    after: Seq<Option<GpuResident>>,
)
    requires
        now == landed(slots, list, value),
        after.len() == now.len(),
        forall|s: int|
            0 <= s < now.len() ==> #[trigger] after[s] == match now[s] {
                Some(r) => if s == slot {
                    Some(GpuResident { arrived_at: Some(value), ..r })
                } else {
                    now[s]
                },
                None => None,
            },
        slots.len() <= u32::MAX + 1,
    ensures
        after == landed(slots, list.push(slot), value),
{
    let more = list.push(slot);
    assert forall|s: int| 0 <= s < slots.len() implies after[s] == landed(slots, more, value)[s] by {
        assert(now[s] == landed(slots, list, value)[s]);
        assert(more.contains(s as u32) <==> list.contains(s as u32) || s == slot) by {
            if more.contains(s as u32) {
                let k = choose|k: int| 0 <= k < more.len() && more[k] == s as u32;
                if k < list.len() {
                    assert(list[k] == s as u32);
                }
            }
            if list.contains(s as u32) {
                let k = choose|k: int| 0 <= k < list.len() && list[k] == s as u32;
                assert(more[k] == s as u32);
            }
            assert(more[list.len() as int] == slot);
        }
    }
    assert(after =~= landed(slots, more, value));
}

proof fn lemma_landed_occupied(
    slots: Seq<Option<GpuResident>>,
    list: Seq<u32>,
    value: TimelineValue,
)
    ensures
        occupied(landed(slots, list, value)) == occupied(slots),
    decreases slots.len(),
{
    let c = landed(slots, list, value);
    if slots.len() > 0 {
        lemma_landed_occupied(slots.drop_last(), list, value);
        assert(c.drop_last() =~= landed(slots.drop_last(), list, value));
        assert(c.last() == c[slots.len() - 1]);
    } else {
        assert(c =~= slots);
    }
}

/// Marks the resident of `slot` as arrived; false when there is none.
fn land(slots: &mut Vec<Option<GpuResident>>, slot: u32, value: TimelineValue) -> (r: bool)
    ensures
        r == (resident(old(slots)@, slot) is Some),
        final(slots).len() == old(slots).len(),
        forall|s: int|
            0 <= s < old(slots).len() ==> #[trigger] final(slots)@[s] == match old(slots)@[s] {
                Some(res) => if s == slot {
                    Some(GpuResident { arrived_at: Some(value), ..res })
                } else {
                    old(slots)@[s]
                },
                None => None,
            },
{
    let i: usize = slot as usize;
    if i >= slots.len() {
        return false;
    }
    match &mut slots[i] {
        Some(res) => {
            res.arrived_at = Some(value);
            true
        },
        None => false,
    }
}

impl MeshResidency {
    /// Takes note that `batch` was submitted and is done at `arrived_at`: its
    /// slots have arrived, its staging allocations wait for that value, and what
    /// the next graphics submission owes to another queue is kept. Returns the
    /// stamps for the pool regions that it read.
    #[verifier::rlimit(40)]
    pub fn finish_copies(&mut self, batch: CopyBatch, arrived_at: TimelineValue) -> (stamps: Vec<
        (StagingRegion, Stamp),
    >)
        requires
            old(self).wf(),
        ensures
            final(self).wf(),
            final(self).slots@ == landed(old(self).slots@, batch.slots@, arrived_at),
            final(self).arrived_since_flush@ == old(self).arrived_since_flush@ + landing(
                old(self).slots@,
                batch.slots@,
            ),
            stamps@ == Seq::new(
                batch.leases@.len(),
                |i: int| (batch.leases@[i], batch_stamp(batch.on_lane, arrived_at)),
            ),
            batch.on_lane ==> {
                &&& owed(old(self).deferred, arrived_at, batch.acquires@, final(self).deferred)
                &&& final(self).transfer_retire@ == old(self).transfer_retire@ + waiting_for(
                    batch.allocs@,
                    arrived_at,
                )
                &&& final(self).retire == old(self).retire
            },
            !batch.on_lane ==> {
                &&& final(self).deferred == old(self).deferred
                &&& final(self).transfer_retire == old(self).transfer_retire
                &&& final(self).retire@ == old(self).retire@ + waiting_for(
                    batch.allocs@,
                    arrived_at,
                )
            },
            final(self).last_pool_arrival_frames == batch.max_pool_delay,
            *final(self) == (MeshResidency {
                slots: final(self).slots,
                arrived_since_flush: final(self).arrived_since_flush,
                deferred: final(self).deferred,
                retire: final(self).retire,
                transfer_retire: final(self).transfer_retire,
                last_pool_arrival_frames: final(self).last_pool_arrival_frames,
                ..*old(self)
            }),
    {
        let ghost s0 = *self;
        let CopyBatch { on_lane, record, acquires, slots, allocs, leases, max_pool_delay } = batch;
        let stamp = batch_stamp(on_lane, arrived_at);
        if on_lane {
            self.defer_arrival(arrived_at, acquires);
            retire_all(&mut self.transfer_retire, allocs, arrived_at);
        } else {
            retire_all(&mut self.retire, allocs, arrived_at);
        }
        let mut stamps: Vec<(StagingRegion, Stamp)> = Vec::new();
        let mut j: usize = 0;
        while j < leases.len()
            invariant
                j <= leases.len(),
                stamps@ == Seq::new(j as nat, |i: int| (leases@[i], stamp)),
            decreases leases.len() - j,
        {
            stamps.push((leases[j], stamp));
            j = j + 1;
            proof {
                assert(stamps@ =~= Seq::new(j as nat, |i: int| (leases@[i], stamp)));
            }
        }
        let ghost s1 = *self;
        let mut k: usize = 0;
        proof {
            assert(slots@.take(0) =~= Seq::empty());
            assert(landed(s0.slots@, slots@.take(0), arrived_at) =~= s0.slots@);
            assert(s0.arrived_since_flush@ + landing(s0.slots@, slots@.take(0))
                =~= s0.arrived_since_flush@);
        }
        while k < slots.len()
            invariant
                k <= slots.len(),
                s0.slots.len() <= u32::MAX + 1,
                s1.slots == s0.slots,
                s1.arrived_since_flush == s0.arrived_since_flush,
                *self == (MeshResidency {
                    slots: self.slots,
                    arrived_since_flush: self.arrived_since_flush,
                    ..s1
                }),
                self.slots@ == landed(s0.slots@, slots@.take(k as int), arrived_at),
                self.arrived_since_flush@ == s0.arrived_since_flush@ + landing(
                    s0.slots@,
                    slots@.take(k as int),
                ),
            decreases slots.len() - k,
        {
            let slot: u32 = slots[k];
            let ghost before = self.slots@;
            let here = land(&mut self.slots, slot, arrived_at);
            proof {
                assert(slots@.take(k + 1) =~= slots@.take(k as int).push(slot));
                assert(slots@.take(k + 1).drop_last() =~= slots@.take(k as int));
                lemma_landed_step(
                    s0.slots@,
                    slots@.take(k as int),
                    arrived_at,
                    before,
                    slot,
                    self.slots@,
                );
                if slot < before.len() {
                    assert(before[slot as int] == landed(
                        s0.slots@,
                        slots@.take(k as int),
                        arrived_at,
                    )[slot as int]);
                }
                assert(here == (resident(s0.slots@, slot) is Some));
            }
            if here {
                self.arrived_since_flush.push(slot);
            }
            proof {
                assert(self.arrived_since_flush@ =~= s0.arrived_since_flush@ + landing(
                    s0.slots@,
                    slots@.take(k + 1),
                ));
            }
            k = k + 1;
        }
        self.last_pool_arrival_frames = max_pool_delay;
        proof {
            assert(slots@.take(k as int) =~= slots@);
            lemma_landed_occupied(s0.slots@, slots@, arrived_at);
        }
        stamps
    }

    /// Keeps what the next graphics submission owes to a batch: folds it into what
    /// is still owed.
    pub fn defer_arrival(&mut self, value: TimelineValue, acquires: Vec<BufferBarrier>)
        ensures
            owed(old(self).deferred, value, acquires@, final(self).deferred),
            *final(self) == (MeshResidency { deferred: final(self).deferred, ..*old(self) }),
    {
        let mut more: Vec<BufferBarrier> = acquires;
        let prev = self.deferred.take();
        self.deferred =
        match prev {
            Some(mut d) => {
                d.acquires.append(&mut more);
                if value > d.value {
                    d.value = value;
                }
                Some(d)
            },
            None => Some(DeferredArrival { value, acquires: more }),
        };
    }

    /// What a graphics submission owes to earlier batches: the acquire barriers to
    /// record first and the lane value to wait for. `None` when nothing is owed.
    pub fn take_deferred_arrival(&mut self) -> (r: Option<(TimelineValue, Vec<Cmd>)>)
        ensures
            match old(self).deferred {
                None => r is None,
                Some(d) => r matches Some(out) && out.0 == d.value && out.1@
                    == if d.acquires.len() > 0 {
                    issued(d.acquires@)
                } else {
                    Seq::empty()
                },
            },
            final(self).deferred is None,
            *final(self) == (MeshResidency { deferred: None, ..*old(self) }),
    {
        match self.deferred.take() {
            None => None,
            Some(d) => {
                let mut cmds: Vec<Cmd> = Vec::new();
                if d.acquires.len() > 0 {
                    issue(&mut cmds, &d.acquires);
                    proof {
                        assert(cmds@ =~= issued(d.acquires@));
                    }
                }
                Some((d.value, cmds))
            },
        }
    }

    /// Staged copies wait for a flush.
    pub fn has_pending(&self) -> (r: bool)
        ensures
            r == (self.pending.len() > 0),
    {
        self.pending.len() > 0
    }

    /// The next graphics submission owes something.
    pub fn has_deferred(&self) -> (r: bool)
        ensures
            r == (self.deferred is Some),
    {
        self.deferred.is_some()
    }

    /// Something waits for a timeline.
    pub fn has_garbage(&self) -> (r: bool)
        ensures
            r == (self.retire@.len() > 0 || self.transfer_retire@.len() > 0),
    {
        !self.retire.is_empty() || !self.transfer_retire.is_empty()
    }

    /// Allocations that the frames up to `current` used.
    pub fn collect(&mut self, current: TimelineValue) -> (r: Vec<Allocation>)
        ensures
            r@ == retire::due(old(self).retire@, current),
            final(self).retire@ == retire::waiting(old(self).retire@, current),
            *final(self) == (MeshResidency { retire: final(self).retire, ..*old(self) }),
    {
        self.retire.collect(current)
    }

    /// Staging allocations that the lane is done with.
    pub fn collect_transfer(&mut self, current: TimelineValue) -> (r: Vec<Allocation>)
        ensures
            r@ == retire::due(old(self).transfer_retire@, current),
            final(self).transfer_retire@ == retire::waiting(old(self).transfer_retire@, current),
            *final(self) == (MeshResidency {
                transfer_retire: final(self).transfer_retire,
                ..*old(self)
            }),
    {
        self.transfer_retire.collect(current)
    }

    /// Every retired allocation, once the GPU is idle.
    pub fn collect_all(&mut self) -> (r: Vec<Allocation>)
        ensures
            r@ == retire::contents(old(self).retire@) + retire::contents(
                old(self).transfer_retire@,
            ),
            final(self).retire@.len() == 0,
            final(self).transfer_retire@.len() == 0,
            *final(self) == (MeshResidency {
                retire: final(self).retire,
                transfer_retire: final(self).transfer_retire,
                ..*old(self)
            }),
    {
        let mut r = self.retire.collect_all();
        let mut more = self.transfer_retire.collect_all();
        r.append(&mut more);
        r
    }

    /// Every allocation of every resident and everything retired, once the GPU is
    /// idle, and the pool regions of copies that were never issued. Leaves the mirror
    /// empty; what it owes to the next graphics submission, the arrivals and the frame
    /// counts stay.
    pub fn destroy_all(&mut self) -> (r: Leftovers)
        requires
            old(self).wf(),
        ensures
            final(self).wf(),
            r.leases@ == leased(old(self).slots@),
            r.allocs@ == held(old(self).slots@) + retire::contents(old(self).retire@) + retire::contents(
                old(self).transfer_retire@,
            ),
            final(self).slots.len() == old(self).slots.len(),
            forall|s: int|
                0 <= s < final(self).slots.len() ==> (#[trigger] final(self).slots@[s]) is None,
            final(self).pending.len() == 0,
            final(self).live == 0,
            final(self).retire@.len() == 0,
            final(self).transfer_retire@.len() == 0,
            *final(self) == (MeshResidency {
                slots: final(self).slots,
                pending: final(self).pending,
                live: final(self).live,
                retire: final(self).retire,
                transfer_retire: final(self).transfer_retire,
                ..*old(self)
            }),
    {
        let ghost s0 = *self;
        let mut r: Vec<Allocation> = Vec::new();
        let mut leases: Vec<StagingRegion> = Vec::new();
        let mut i: usize = 0;
        proof {
            assert(s0.slots@.take(0) =~= Seq::empty());
            assert(held(s0.slots@.take(0)) =~= Seq::<Allocation>::empty());
            assert(leased(s0.slots@.take(0)) =~= Seq::<StagingRegion>::empty());
        }
        while i < self.slots.len()
            invariant
                i <= self.slots.len(),
                self.slots.len() == s0.slots.len(),
                *self == (MeshResidency { slots: self.slots, ..s0 }),
                r@ == held(s0.slots@.take(i as int)),
                leases@ == leased(s0.slots@.take(i as int)),
                forall|s: int| 0 <= s < i ==> (#[trigger] self.slots@[s]) is None,
                forall|s: int| i <= s < self.slots.len() ==> #[trigger] self.slots@[s] == s0.slots@[s],
            decreases self.slots.len() - i,
        {
            let ghost before = self.slots@;
            let taken = self.slots[i].take();
            proof {
                assert(s0.slots@.take(i + 1).drop_last() =~= s0.slots@.take(i as int));
                assert(s0.slots@.take(i + 1).last() == s0.slots@[i as int]);
                assert(taken == s0.slots@[i as int]);
                assert forall|s: int| i + 1 <= s < self.slots.len() implies #[trigger] self.slots@[s]
                    == s0.slots@[s] by {
                    assert(before[s] == s0.slots@[s]);
                }
            }
            if let Some(res) = taken {
                r.push(res.arena);
                if let Some(copy) = res.copy {
                    match copy.source {
                        CopySource::Alloc(a) => {
                            r.push(a);
                        },
                        CopySource::Pool(region) => {
                            leases.push(region);
                        },
                    }
                }
            }
            proof {
                assert(r@ =~= held(s0.slots@.take(i + 1)));
                assert(leases@ =~= leased(s0.slots@.take(i + 1)));
            }
            i = i + 1;
        }
        proof {
            assert(s0.slots@.take(i as int) =~= s0.slots@);
        }
        let mut retired = self.collect_all();
        r.append(&mut retired);
        self.pending.clear();
        self.live = 0;
        proof {
            lemma_occupied_bound(self.slots@);
            assert(r@ =~= held(s0.slots@) + retire::contents(s0.retire@) + retire::contents(
                s0.transfer_retire@,
            ));
        }
        Leftovers { allocs: r, leases }
    }
}

/// What is left of the residents when all of them go.
pub struct Leftovers {
    pub allocs: Vec<Allocation>,
    /// Pool regions that no copy has read.
    pub leases: Vec<StagingRegion>,
}

/// The pool regions of the staged copies, in slot order.
pub open spec fn leased(slots: Seq<Option<GpuResident>>) -> Seq<StagingRegion>
    decreases slots.len(),
{
    if slots.len() == 0 {
        Seq::empty()
    } else {
        let before = leased(slots.drop_last());
        match slots.last() {
            Some(r) => match r.copy {
                Some(c) => match c.source {
                    CopySource::Pool(region) => before.push(region),
                    CopySource::Alloc(_) => before,
                },
                None => before,
            },
            None => before,
        }
    }
}

/// The allocations of one resident: its arena range, and its staging allocation.
pub open spec fn held_by(r: Option<GpuResident>) -> Seq<Allocation> {
    match r {
        None => Seq::empty(),
        Some(res) => match res.copy {
            Some(c) => match c.source {
                CopySource::Alloc(a) => seq![res.arena, a],
                CopySource::Pool(_) => seq![res.arena],
            },
            None => seq![res.arena],
        },
    }
}

/// The allocations of all residents.
pub open spec fn held(slots: Seq<Option<GpuResident>>) -> Seq<Allocation>
    decreases slots.len(),
{
    if slots.len() == 0 {
        Seq::empty()
    } else {
        held(slots.drop_last()) + held_by(slots.last())
    }
}

/// A finished batch brings in its own slots and leaves every other slot as it was.
pub proof fn law_only_the_batch_arrives(
    slots: Seq<Option<GpuResident>>,
    list: Seq<u32>,
    value: TimelineValue,
    slot: u32,
)
    requires
        slot < slots.len(),
        slots[slot as int] is Some,
    ensures
        list.contains(slot) ==> (landed(slots, list, value)[slot as int]->Some_0).arrived_at
            == Some(value),
        !list.contains(slot) ==> landed(slots, list, value)[slot as int] == slots[slot as int],
{
}

/// No copy is issued twice: once its batch is taken, a slot has none left.
pub proof fn law_no_copy_is_issued_twice(
    slots: Seq<Option<GpuResident>>,
    pending: Seq<(u32, u64)>,
    k: int,
)
    requires
        ({
            let count = batch_count(slots, pending);
            let taken = copying(slots, pending.take(count), count);
            0 <= k < taken.len()
        }),
        pending.len() > 0,
    ensures
        ({
            let count = batch_count(slots, pending);
            let taken = copying(slots, pending.take(count), count);
            staged(cleared(slots, taken), taken[k].0) is None
        }),
{
    law_batch_makes_progress_within_budget(slots, pending);
    let count = batch_count(slots, pending);
    let taken = copying(slots, pending.take(count), count);
    lemma_copying_staged(slots, pending.take(count), count);
    let slot = taken[k].0;
    assert(staged(slots, slot) is Some);
    assert(names(taken, slot as int));
}

/// Region `j` of group `i`, one of the first `n`, writes byte `p` of `buffer`.
spec fn covers(gs: Seq<Group>, n: int, i: int, j: int, buffer: u64, p: int) -> bool {
    &&& 0 <= i < n
    &&& 0 <= j < gs[i].2.len()
    &&& gs[i].1 == buffer
    &&& playback::region_writes(gs[i].2[j], p)
}

/// What region `j` of group `i` brings to byte `p`.
spec fn brought(gs: Seq<Group>, i: int, j: int, m: Memory, p: int) -> u8 {
    m(gs[i].0, gs[i].2[j].src_offset + (p - gs[i].2[j].dst_offset))
}

proof fn lemma_played_groups(
    g: Gpu,
    gs: Seq<Group>,
    n: int,
    staging: Seq<u8>,
    buffer: u64,
    p: int,
)
    requires
        0 <= n <= gs.len(),
        g.regions.len() == 0,
        forall|i: int, j: int|
            0 <= i < gs.len() && 0 <= j < gs.len() ==> (#[trigger] gs[i]).0 != (#[trigger] gs[j]).1,
    ensures
        ({
            let after = playback::play(g, groups_cmds(gs, n), staging);
            &&& after == (Gpu { memory: after.memory, regions: Seq::empty(), ..g })
            &&& (forall|i: int, j: int| !#[trigger] covers(gs, n, i, j, buffer, p))
                ==> (after.memory)(buffer, p) == (g.memory)(buffer, p)
            &&& (exists|i: int, j: int| #[trigger] covers(gs, n, i, j, buffer, p)) ==> exists|
                i: int,
                j: int,
            | #[trigger]
                covers(gs, n, i, j, buffer, p) && (after.memory)(buffer, p) == brought(
                    gs,
                    i,
                    j,
                    g.memory,
                    p,
                )
        }),
    decreases n,
{
    let after = playback::play(g, groups_cmds(gs, n), staging);
    if n == 0 {
        assert(groups_cmds(gs, 0) =~= Seq::empty());
        assert(g.regions =~= Seq::empty());
    } else {
        lemma_played_groups(g, gs, n - 1, staging, buffer, p);
        let rest = playback::play(g, groups_cmds(gs, n - 1), staging);
        let last = gs[n - 1];
        let listed = Seq::new(last.2.len(), |i: int| Cmd::BufferRegion(last.2[i]));
        playback::lemma_play_concat(g, groups_cmds(gs, n - 1), group_cmds(last), staging);
        playback::lemma_play_push(
            rest,
            listed,
            Cmd::CopyBuffer { src: last.0, dst: last.1 },
            staging,
        );
        playback::lemma_play_regions(rest, last.2, staging);
        assert(rest.regions + last.2 =~= last.2);
        playback::lemma_copied(rest.memory, last.0, last.1, last.2, buffer, p);
        assert(after.memory == playback::copied(rest.memory, last.0, last.1, last.2));
        if forall|i: int, j: int| !#[trigger] covers(gs, n, i, j, buffer, p) {
            assert forall|i: int, j: int| !#[trigger] covers(gs, n - 1, i, j, buffer, p) by {
                assert(!covers(gs, n, i, j, buffer, p));
            }
            if buffer == last.1 {
                assert forall|j: int| 0 <= j < last.2.len() implies !playback::region_writes(
                    #[trigger] last.2[j],
                    p,
                ) by {
                    assert(!covers(gs, n, n - 1, j, buffer, p));
                }
            }
        } else {
            if buffer == last.1 && exists|j: int|
                0 <= j < last.2.len() && playback::region_writes(#[trigger] last.2[j], p) {
                let j = choose|j: int|
                    0 <= j < last.2.len() && playback::region_writes(#[trigger] last.2[j], p)
                        && (after.memory)(buffer, p) == (rest.memory)(
                        last.0,
                        last.2[j].src_offset + (p - last.2[j].dst_offset),
                    );
                let q = last.2[j].src_offset + (p - last.2[j].dst_offset);
                lemma_played_groups(g, gs, n - 1, staging, last.0, q);
                assert forall|i: int, l: int| !#[trigger] covers(gs, n - 1, i, l, last.0, q) by {
                    if covers(gs, n - 1, i, l, last.0, q) {
                        assert(gs[n - 1].0 != gs[i].1);
                    }
                }
                assert(covers(gs, n, n - 1, j, buffer, p));
            } else {
                assert((after.memory)(buffer, p) == (rest.memory)(buffer, p));
                let (i, j) = choose|i: int, j: int| #[trigger] covers(gs, n, i, j, buffer, p);
                assert(i != n - 1);
                assert(covers(gs, n - 1, i, j, buffer, p));
                let (i, j) = choose|i: int, j: int| #[trigger]
                    covers(gs, n - 1, i, j, buffer, p) && (rest.memory)(buffer, p) == brought(
                        gs,
                        i,
                        j,
                        g.memory,
                        p,
                    );
                assert(covers(gs, n, i, j, buffer, p));
            }
        }
    }
}

/// Region `j` of group `i` is the copy `c`, field by field.
spec fn is_region(gs: Seq<Group>, i: int, j: int, c: PendingCopy) -> bool {
    &&& 0 <= i < gs.len()
    &&& 0 <= j < gs[i].2.len()
    &&& gs[i].0 == c.src_buffer
    &&& gs[i].1 == c.dst_buffer
    &&& gs[i].2[j].src_offset == c.src_offset
    &&& gs[i].2[j].dst_offset == c.dst_offset
    &&& gs[i].2[j].size == c.size
}

spec fn copy_of(slots: Seq<Option<GpuResident>>, taken: Seq<(u32, u64)>, k: int) -> PendingCopy {
    staged(slots, taken[k].0)->Some_0
}

/// Region `j` of group `i` is one of the copies.
spec fn comes_from(
    slots: Seq<Option<GpuResident>>,
    taken: Seq<(u32, u64)>,
    gs: Seq<Group>,
    i: int,
    j: int,
) -> bool {
    exists|k: int|
        0 <= k < taken.len() && #[trigger] is_region(gs, i, j, copy_of(slots, taken, k))
}

proof fn lemma_group_found(gs: Seq<Group>, src: u64, dst: u64, i: int)
    requires
        0 <= i <= gs.len(),
    ensures
        ({
            let at = group_at(gs, src, dst, i);
            &&& i <= at <= gs.len()
            &&& at < gs.len() ==> gs[at].0 == src && gs[at].1 == dst
        }),
    decreases gs.len() - i,
{
    if i < gs.len() && !(gs[i].0 == src && gs[i].1 == dst) {
        lemma_group_found(gs, src, dst, i + 1);
    }
}

proof fn lemma_grouped(slots: Seq<Option<GpuResident>>, taken: Seq<(u32, u64)>)
    ensures
        ({
            let gs = grouped(slots, taken);
            &&& forall|k: int|
                0 <= k < taken.len() ==> exists|i: int, j: int|
                    is_region(gs, i, j, #[trigger] copy_of(slots, taken, k))
            &&& forall|i: int, j: int|
                0 <= i < gs.len() && 0 <= j < gs[i].2.len() ==> #[trigger] comes_from(
                    slots,
                    taken,
                    gs,
                    i,
                    j,
                )
            &&& forall|i: int| 0 <= i < gs.len() ==> (#[trigger] gs[i]).2.len() > 0
        }),
    decreases taken.len(),
{
    let gs = grouped(slots, taken);
    if taken.len() > 0 {
        let less = taken.drop_last();
        let n = taken.len() - 1;
        lemma_grouped(slots, less);
        let hs = grouped(slots, less);
        let c = copy_of(slots, taken, n);
        assert(taken.last() == taken[n]);
        let at = group_at(hs, c.src_buffer, c.dst_buffer, 0);
        lemma_group_found(hs, c.src_buffer, c.dst_buffer, 0);
        let place = if at < hs.len() {
            hs[at].2.len() as int
        } else {
            0
        };
        assert(is_region(gs, at, place, c));
        assert forall|i: int, j: int, d: PendingCopy| #[trigger]
            is_region(hs, i, j, d) implies is_region(gs, i, j, d) by {}
        assert forall|k: int| 0 <= k < taken.len() implies exists|i: int, j: int|
            is_region(gs, i, j, #[trigger] copy_of(slots, taken, k)) by {
            if k < n {
                assert(copy_of(slots, less, k) == copy_of(slots, taken, k));
                let (i, j) = choose|i: int, j: int| is_region(hs, i, j, copy_of(slots, less, k));
                assert(is_region(gs, i, j, copy_of(slots, taken, k)));
            }
        }
        assert forall|i: int, j: int| 0 <= i < gs.len() && 0 <= j < gs[i].2.len() implies
            #[trigger] comes_from(slots, taken, gs, i, j) by {
            if i == at && j == place {
                assert(is_region(gs, i, j, copy_of(slots, taken, n)));
            } else {
                assert(0 <= i < hs.len() && 0 <= j < hs[i].2.len());
                assert(comes_from(slots, less, hs, i, j));
                let k = choose|k: int|
                    0 <= k < less.len() && #[trigger] is_region(
                        hs,
                        i,
                        j,
                        copy_of(slots, less, k),
                    );
                assert(copy_of(slots, less, k) == copy_of(slots, taken, k));
                assert(is_region(gs, i, j, copy_of(slots, taken, k)));
            }
        }
    }
}

/// `c` is the copy that is staged for slot `s`, and one of the first `n` of the queue names
/// that slot.
pub open spec fn brings(
    slots: Seq<Option<GpuResident>>,
    queue: Seq<(u32, u64)>,
    n: int,
    s: u32,
    c: PendingCopy,
) -> bool {
    &&& s < slots.len()
    &&& slots[s as int] matches Some(r) && r.copy == Some(c)
    &&& exists|k: int| 0 <= k < n && (#[trigger] queue[k]).0 == s
}

proof fn lemma_copying_distinct(slots: Seq<Option<GpuResident>>, batch: Seq<(u32, u64)>, n: int)
    requires
        0 <= n <= batch.len(),
    ensures
        slots_of(copying(slots, batch, n)).no_duplicates(),
    decreases n,
{
    let all = slots_of(copying(slots, batch, n));
    if n > 0 {
        lemma_copying_distinct(slots, batch, n - 1);
        let rest = slots_of(copying(slots, batch, n - 1));
        if copies_at(slots, batch, n - 1) {
            assert(all =~= rest.push(batch[n - 1].0));
            if rest.contains(batch[n - 1].0) {
                lemma_copying_names(slots, batch, n - 1, batch[n - 1].0);
                let k = choose|k: int| 0 <= k < rest.len() && rest[k] == batch[n - 1].0;
                assert(copying(slots, batch, n - 1)[k].0 == batch[n - 1].0);
                assert(names(copying(slots, batch, n - 1), batch[n - 1].0 as int));
            }
        }
    }
}

/// A flush carries out what it takes off the queue: the batch names each slot that it took
/// with a copy staged, and names it once.
pub proof fn law_the_batch_names_what_it_takes(
    slots: Seq<Option<GpuResident>>,
    queue: Seq<(u32, u64)>,
    n: int,
    frame: u64,
    lane: Lane,
    family: u32,
    b: CopyBatch,
)
    requires
        0 <= n <= queue.len(),
        batch_ok(slots, copying(slots, queue, n), frame, lane, family, b),
    ensures
        b.slots@.no_duplicates(),
        forall|s: u32| #[trigger]
            b.slots@.contains(s) <==> exists|c: PendingCopy| brings(slots, queue, n, s, c),
{
    let taken = copying(slots, queue, n);
    lemma_copying_distinct(slots, queue, n);
    assert forall|s: u32| #[trigger] b.slots@.contains(s) <==> exists|c: PendingCopy|
        brings(slots, queue, n, s, c) by {
        lemma_copying_names(slots, queue, n, s);
        if b.slots@.contains(s) {
            let k = choose|k: int| 0 <= k < b.slots@.len() && b.slots@[k] == s;
            assert(taken[k].0 == s);
            assert(names(taken, s as int));
            assert(brings(slots, queue, n, s, staged(slots, s)->Some_0));
        }
        if exists|c: PendingCopy| brings(slots, queue, n, s, c) {
            let c = choose|c: PendingCopy| brings(slots, queue, n, s, c);
            assert(staged(slots, s) == Some(c));
            assert(names(taken, s as int));
            let k = choose|k: int| 0 <= k < taken.len() && (#[trigger] taken[k]).0 == s;
            assert(b.slots@[k] == s);
        }
    }
}

/// Playing a batch moves the staged bytes to the meshes. Where no two copies of the batch
/// write the same byte, and none writes to a buffer that another is staged in, byte `i` of
/// every mesh of the batch is byte `i` of what was staged for it, no other byte of any
/// buffer changes, and nothing stays staged.
pub proof fn law_a_batch_moves_the_staged_bytes(
    slots: Seq<Option<GpuResident>>,
    queue: Seq<(u32, u64)>,
    n: int,
    frame: u64,
    lane: Lane,
    family: u32,
    b: CopyBatch,
    g: Gpu,
    staging: Seq<u8>,
)
    requires
        0 <= n <= queue.len(),
        batch_ok(slots, copying(slots, queue, n), frame, lane, family, b),
        g.regions.len() == 0,
        forall|s: u32, t: u32, c: PendingCopy, d: PendingCopy| #[trigger]
            brings(slots, queue, n, s, c) && #[trigger] brings(slots, queue, n, t, d) && s != t
                && c.dst_buffer == d.dst_buffer ==> c.dst_offset + c.size <= d.dst_offset
                || d.dst_offset + d.size <= c.dst_offset,
        forall|s: u32, t: u32, c: PendingCopy, d: PendingCopy| #[trigger]
            brings(slots, queue, n, s, c) && #[trigger] brings(slots, queue, n, t, d)
                ==> c.src_buffer != d.dst_buffer,
    ensures
        ({
            let after = playback::play(g, b.record@, staging);
            &&& after == (Gpu { memory: after.memory, regions: Seq::empty(), ..g })
            &&& forall|s: u32, c: PendingCopy, i: int| #[trigger]
                brings(slots, queue, n, s, c) && 0 <= i < c.size ==> #[trigger] (after.memory)(
                    c.dst_buffer,
                    c.dst_offset + i,
                ) == (g.memory)(c.src_buffer, c.src_offset + i)
            &&& forall|buffer: u64, p: int|
                (forall|s: u32, c: PendingCopy| #[trigger]
                    brings(slots, queue, n, s, c) ==> !(c.dst_buffer == buffer && c.dst_offset <= p
                        < c.dst_offset + c.size)) ==> #[trigger] (after.memory)(buffer, p)
                    == (g.memory)(buffer, p)
        }),
{
    let taken = copying(slots, queue, n);
    let gs = grouped(slots, taken);
    let after = playback::play(g, b.record@, staging);
    let moved = playback::play(g, groups_cmds(gs, gs.len() as int), staging);
    lemma_grouped(slots, taken);
    lemma_copying_staged(slots, queue, n);
    assert forall|k: int| 0 <= k < taken.len() implies brings(
        slots,
        queue,
        n,
        (#[trigger] taken[k]).0,
        copy_of(slots, taken, k),
    ) by {
        lemma_copying_names(slots, queue, n, taken[k].0);
        assert(names(taken, taken[k].0 as int));
    }
    assert forall|i: int, j: int| 0 <= i < gs.len() && 0 <= j < gs.len() implies (
    #[trigger] gs[i]).0 != (#[trigger] gs[j]).1 by {
        assert(gs[i].2.len() > 0 && gs[j].2.len() > 0);
        assert(comes_from(slots, taken, gs, i, 0) && comes_from(slots, taken, gs, j, 0));
        let k = choose|k: int|
            0 <= k < taken.len() && #[trigger] is_region(gs, i, 0, copy_of(slots, taken, k));
        let l = choose|l: int|
            0 <= l < taken.len() && #[trigger] is_region(gs, j, 0, copy_of(slots, taken, l));
        assert(brings(slots, queue, n, taken[k].0, copy_of(slots, taken, k)));
        assert(brings(slots, queue, n, taken[l].0, copy_of(slots, taken, l)));
    }
    lemma_played_groups(g, gs, gs.len() as int, staging, 0, 0);
    lemma_batch_tail(slots, taken, frame, lane, family, b, g, staging);
    assert(after == moved);
    assert forall|s: u32, c: PendingCopy, i: int| #[trigger]
        brings(slots, queue, n, s, c) && 0 <= i < c.size implies #[trigger] (after.memory)(
        c.dst_buffer,
        c.dst_offset + i,
    ) == (g.memory)(c.src_buffer, c.src_offset + i) by {
        let p = c.dst_offset + i;
        lemma_played_groups(g, gs, gs.len() as int, staging, c.dst_buffer, p);
        lemma_copying_names(slots, queue, n, s);
        assert(staged(slots, s) == Some(c));
        assert(names(taken, s as int));
        let k = choose|k: int| 0 <= k < taken.len() && (#[trigger] taken[k]).0 == s;
        assert(copy_of(slots, taken, k) == c);
        let (x, y) = choose|x: int, y: int| is_region(gs, x, y, copy_of(slots, taken, k));
        assert(covers(gs, gs.len() as int, x, y, c.dst_buffer, p));
        let (u, v) = choose|u: int, v: int| #[trigger]
            covers(gs, gs.len() as int, u, v, c.dst_buffer, p) && (moved.memory)(c.dst_buffer, p)
                == brought(gs, u, v, g.memory, p);
        assert(comes_from(slots, taken, gs, u, v));
        let l = choose|l: int|
            0 <= l < taken.len() && #[trigger] is_region(gs, u, v, copy_of(slots, taken, l));
        let d = copy_of(slots, taken, l);
        assert(brings(slots, queue, n, taken[l].0, d));
        assert(taken[l].0 == s);
        assert(d == c);
    }
    assert forall|buffer: u64, p: int|
        (forall|s: u32, c: PendingCopy| #[trigger]
            brings(slots, queue, n, s, c) ==> !(c.dst_buffer == buffer && c.dst_offset <= p
                < c.dst_offset + c.size)) implies #[trigger] (after.memory)(buffer, p)
        == (g.memory)(buffer, p) by {
        lemma_played_groups(g, gs, gs.len() as int, staging, buffer, p);
        assert forall|i: int, j: int| !#[trigger]
            covers(gs, gs.len() as int, i, j, buffer, p) by {
            if covers(gs, gs.len() as int, i, j, buffer, p) {
                assert(comes_from(slots, taken, gs, i, j));
                let k = choose|k: int|
                    0 <= k < taken.len() && #[trigger] is_region(gs, i, j, copy_of(slots, taken, k));
                assert(brings(slots, queue, n, taken[k].0, copy_of(slots, taken, k)));
            }
        }
    }
}

proof fn lemma_barriers_only_order(
    gs: Seq<Group>,
    runs: Seq<BufferRange>,
    lane: Lane,
    family: u32,
    g: Gpu,
    staging: Seq<u8>,
)
    ensures
        playback::play(g, batch_record(gs, runs, lane, family), staging) == playback::play(
            g,
            groups_cmds(gs, gs.len() as int),
            staging,
        ),
{
    let head = groups_cmds(gs, gs.len() as int);
    let release = issued(
        run_barriers(runs, CopyBarrier::Release { src_family: lane.family, dst_family: family }),
    );
    let draw = issued(run_barriers(runs, CopyBarrier::Draw));
    let tail = if lane.needs_ownership_transfer() {
        release
    } else if lane.is_separate_queue() {
        Seq::empty()
    } else {
        draw
    };
    playback::lemma_play_concat(g, head, tail, staging);
    playback::lemma_play_orders(playback::play(g, head, staging), tail, staging);
}

/// What stands behind the copies only orders them.
proof fn lemma_batch_tail(
    slots: Seq<Option<GpuResident>>,
    taken: Seq<(u32, u64)>,
    frame: u64,
    lane: Lane,
    family: u32,
    b: CopyBatch,
    g: Gpu,
    staging: Seq<u8>,
)
    requires
        batch_ok(slots, taken, frame, lane, family, b),
    ensures
        playback::play(g, b.record@, staging) == playback::play(
            g,
            groups_cmds(grouped(slots, taken), grouped(slots, taken).len() as int),
            staging,
        ),
{
    let gs = grouped(slots, taken);
    let runs = choose|runs: Seq<BufferRange>| #[trigger]
        copies::coalesced(ranges_of(slots, taken), runs) && b.record@ == batch_record(
            gs,
            runs,
            lane,
            family,
        ) && b.acquires@ == batch_acquires(runs, lane, family);
    lemma_barriers_only_order(gs, runs, lane, family, g, staging);
}

/// Some barrier of `bs` between the two families is over byte `p` of `buffer`.
pub open spec fn handed_over(
    bs: Seq<BufferBarrier>,
    src_family: u32,
    dst_family: u32,
    buffer: u64,
    p: int,
) -> bool {
    exists|i: int|
        0 <= i < bs.len() && (#[trigger] bs[i]).buffer == buffer && bs[i].offset <= p < bs[i].offset
            + bs[i].size && bs[i].src_family == src_family && bs[i].dst_family == dst_family
}

/// The buffer barriers of a plan.
pub open spec fn barriers_of(cmds: Seq<Cmd>) -> Seq<BufferBarrier>
    decreases cmds.len(),
{
    if cmds.len() == 0 {
        Seq::empty()
    } else {
        match cmds.last() {
            Cmd::BufferBarrier(b) => barriers_of(cmds.drop_last()).push(b),
            _ => barriers_of(cmds.drop_last()),
        }
    }
}

proof fn lemma_barriers_of(cmds: Seq<Cmd>, i: int)
    requires
        0 <= i < cmds.len(),
        cmds[i] is BufferBarrier,
    ensures
        barriers_of(cmds).contains(cmds[i]->BufferBarrier_0),
    decreases cmds.len(),
{
    let less = barriers_of(cmds.drop_last());
    let all = barriers_of(cmds);
    let b = cmds[i]->BufferBarrier_0;
    if i < cmds.len() - 1 {
        assert(cmds.drop_last()[i] == cmds[i]);
        lemma_barriers_of(cmds.drop_last(), i);
        let k = choose|k: int| 0 <= k < less.len() && less[k] == b;
        assert(all[k] == b);
    } else {
        assert(all[less.len() as int] == b);
    }
}

/// Every copied byte is handed to whoever draws it. On a family of its own the lane
/// releases the byte to the drawing family and the frame acquires it from the lane; on the
/// frame's own queue a barrier without a change of family orders the draw behind the copy;
/// on another queue of the same family nothing is handed over.
pub proof fn law_every_copied_byte_is_handed_over(
    slots: Seq<Option<GpuResident>>,
    queue: Seq<(u32, u64)>,
    n: int,
    frame: u64,
    lane: Lane,
    family: u32,
    b: CopyBatch,
    s: u32,
    c: PendingCopy,
    p: int,
)
    requires
        0 <= n <= queue.len(),
        batch_ok(slots, copying(slots, queue, n), frame, lane, family, b),
        brings(slots, queue, n, s, c),
        c.dst_offset <= p < c.dst_offset + c.size,
    ensures
        lane.tier is DedicatedFamily ==> handed_over(
            barriers_of(b.record@),
            lane.family,
            family,
            c.dst_buffer,
            p,
        ) && handed_over(b.acquires@, lane.family, family, c.dst_buffer, p),
        lane.tier is SameQueueFallback ==> handed_over(
            barriers_of(b.record@),
            NO_HANDOVER,
            NO_HANDOVER,
            c.dst_buffer,
            p,
        ) && b.acquires.len() == 0,
        lane.tier is SecondQueueSameFamily ==> b.acquires.len() == 0,
        b.on_lane <==> !(lane.tier is SameQueueFallback),
{
    let taken = copying(slots, queue, n);
    let gs = grouped(slots, taken);
    let runs = choose|runs: Seq<BufferRange>| #[trigger]
        copies::coalesced(ranges_of(slots, taken), runs) && b.record@ == batch_record(
            gs,
            runs,
            lane,
            family,
        ) && b.acquires@ == batch_acquires(runs, lane, family);
    let r = lemma_enclosing_run(slots, queue, n, s, c, runs);
    lemma_run_handed_over(
        b.record@,
        b.acquires@,
        groups_cmds(gs, gs.len() as int),
        runs,
        lane,
        family,
        r,
        c.dst_buffer,
        p,
    );
}

proof fn lemma_enclosing_run(
    slots: Seq<Option<GpuResident>>,
    queue: Seq<(u32, u64)>,
    n: int,
    s: u32,
    c: PendingCopy,
    runs: Seq<BufferRange>,
) -> (r: int)
    requires
        0 <= n <= queue.len(),
        brings(slots, queue, n, s, c),
        copies::coalesced(ranges_of(slots, copying(slots, queue, n)), runs),
    ensures
        0 <= r < runs.len(),
        runs[r].encloses(c.range()),
{
    let taken = copying(slots, queue, n);
    let ranges = ranges_of(slots, taken);
    lemma_copying_names(slots, queue, n, s);
    assert(staged(slots, s) == Some(c));
    assert(names(taken, s as int));
    let k = choose|k: int| 0 <= k < taken.len() && (#[trigger] taken[k]).0 == s;
    assert(ranges[k] == c.range());
    assert(copies::enclosed(runs, ranges[k]));
    choose|r: int| 0 <= r < runs.len() && (#[trigger] runs[r]).encloses(ranges[k])
}

proof fn lemma_run_handed_over(
    record: Seq<Cmd>,
    acquires: Seq<BufferBarrier>,
    head: Seq<Cmd>,
    runs: Seq<BufferRange>,
    lane: Lane,
    family: u32,
    r: int,
    buffer: u64,
    p: int,
)
    requires
        record == head + if lane.needs_ownership_transfer() {
            issued(
                run_barriers(
                    runs,
                    CopyBarrier::Release { src_family: lane.family, dst_family: family },
                ),
            )
        } else if lane.is_separate_queue() {
            Seq::empty()
        } else {
            issued(run_barriers(runs, CopyBarrier::Draw))
        },
        acquires == batch_acquires(runs, lane, family),
        0 <= r < runs.len(),
        runs[r].has(buffer, p),
    ensures
        lane.needs_ownership_transfer() ==> handed_over(
            barriers_of(record),
            lane.family,
            family,
            buffer,
            p,
        ) && handed_over(acquires, lane.family, family, buffer, p),
        !lane.is_separate_queue() ==> handed_over(
            barriers_of(record),
            NO_HANDOVER,
            NO_HANDOVER,
            buffer,
            p,
        ),
        !lane.needs_ownership_transfer() ==> acquires.len() == 0,
{
    if lane.needs_ownership_transfer() {
        let out = run_barriers(
            runs,
            CopyBarrier::Release { src_family: lane.family, dst_family: family },
        );
        lemma_handed_over(record, head, out, r, lane.family, family, buffer, p);
        assert(acquires[r].buffer == buffer);
    } else if !lane.is_separate_queue() {
        let out = run_barriers(runs, CopyBarrier::Draw);
        lemma_handed_over(record, head, out, r, NO_HANDOVER, NO_HANDOVER, buffer, p);
    }
}

proof fn lemma_handed_over(
    record: Seq<Cmd>,
    head: Seq<Cmd>,
    out: Seq<BufferBarrier>,
    r: int,
    src_family: u32,
    dst_family: u32,
    buffer: u64,
    p: int,
)
    requires
        record == head + issued(out),
        0 <= r < out.len(),
        out[r].buffer == buffer,
        out[r].offset <= p < out[r].offset + out[r].size,
        out[r].src_family == src_family,
        out[r].dst_family == dst_family,
    ensures
        handed_over(barriers_of(record), src_family, dst_family, buffer, p),
{
    let at = head.len() + r;
    assert(record[at] == Cmd::BufferBarrier(out[r]));
    lemma_barriers_of(record, at);
    let all = barriers_of(record);
    let i = choose|i: int| 0 <= i < all.len() && all[i] == out[r];
    assert(all[i].buffer == buffer);
}

/// Every staging resource of the batch goes back where it came from: an allocation to the
/// allocations, a region of the pool to the leases, and nothing else.
pub proof fn law_a_batch_returns_its_staging(
    slots: Seq<Option<GpuResident>>,
    queue: Seq<(u32, u64)>,
    n: int,
    frame: u64,
    lane: Lane,
    family: u32,
    b: CopyBatch,
)
    requires
        0 <= n <= queue.len(),
        batch_ok(slots, copying(slots, queue, n), frame, lane, family, b),
    ensures
        b.allocs.len() + b.leases.len() == b.slots.len(),
        forall|s: u32, c: PendingCopy| #[trigger]
            brings(slots, queue, n, s, c) ==> match c.source {
                CopySource::Alloc(a) => b.allocs@.contains(a),
                CopySource::Pool(r) => b.leases@.contains(r),
            },
{
    let taken = copying(slots, queue, n);
    lemma_sources(slots, taken);
    assert forall|s: u32, c: PendingCopy| #[trigger] brings(slots, queue, n, s, c) implies match c.source {
        CopySource::Alloc(a) => b.allocs@.contains(a),
        CopySource::Pool(r) => b.leases@.contains(r),
    } by {
        lemma_copying_names(slots, queue, n, s);
        assert(staged(slots, s) == Some(c));
        assert(names(taken, s as int));
        let k = choose|k: int| 0 <= k < taken.len() && (#[trigger] taken[k]).0 == s;
        assert(copy_of(slots, taken, k) == c);
    }
}

proof fn lemma_sources(slots: Seq<Option<GpuResident>>, taken: Seq<(u32, u64)>)
    ensures
        allocs_of(slots, taken).len() + leases_of(slots, taken).len() == taken.len(),
        forall|k: int|
            0 <= k < taken.len() ==> match (#[trigger] copy_of(slots, taken, k)).source {
                CopySource::Alloc(a) => allocs_of(slots, taken).contains(a),
                CopySource::Pool(r) => leases_of(slots, taken).contains(r),
            },
    decreases taken.len(),
{
    if taken.len() > 0 {
        let less = taken.drop_last();
        let n = taken.len() - 1;
        lemma_sources(slots, less);
        let a0 = allocs_of(slots, less);
        let l0 = leases_of(slots, less);
        let a1 = allocs_of(slots, taken);
        let l1 = leases_of(slots, taken);
        assert(taken.last() == taken[n]);
        assert forall|k: int| 0 <= k < taken.len() implies match (#[trigger] copy_of(
            slots,
            taken,
            k,
        )).source {
            CopySource::Alloc(a) => a1.contains(a),
            CopySource::Pool(r) => l1.contains(r),
        } by {
            let c = copy_of(slots, taken, k);
            if k < n {
                assert(copy_of(slots, less, k) == c);
                match c.source {
                    CopySource::Alloc(a) => {
                        let i = choose|i: int| 0 <= i < a0.len() && a0[i] == a;
                        assert(a1[i] == a);
                    },
                    CopySource::Pool(r) => {
                        let i = choose|i: int| 0 <= i < l0.len() && l0[i] == r;
                        assert(l1[i] == r);
                    },
                }
            } else {
                match c.source {
                    CopySource::Alloc(a) => {
                        assert(a1[a0.len() as int] == a);
                    },
                    CopySource::Pool(r) => {
                        assert(l1[l0.len() as int] == r);
                    },
                }
            }
        }
    }
}

/// The slots that land are those of the batch that still hold a mesh, in the batch's order.
pub proof fn law_only_occupied_slots_land(slots: Seq<Option<GpuResident>>, list: Seq<u32>)
    ensures
        landing(slots, list).len() <= list.len(),
        forall|s: u32| #[trigger]
            landing(slots, list).contains(s) <==> list.contains(s) && s < slots.len()
                && slots[s as int] is Some,
    decreases list.len(),
{
    let all = landing(slots, list);
    if list.len() > 0 {
        let less = list.drop_last();
        let rest = landing(slots, less);
        let n = list.len() - 1;
        law_only_occupied_slots_land(slots, less);
        assert forall|s: u32| #[trigger] all.contains(s) <==> list.contains(s) && s < slots.len()
            && slots[s as int] is Some by {
            if all.contains(s) {
                let k = choose|k: int| 0 <= k < all.len() && all[k] == s;
                if k < rest.len() {
                    assert(rest[k] == s);
                    assert(rest.contains(s));
                    let j = choose|j: int| 0 <= j < less.len() && less[j] == s;
                    assert(list[j] == s);
                } else {
                    assert(list[n] == s);
                }
            }
            if list.contains(s) && s < slots.len() && slots[s as int] is Some {
                let j = choose|j: int| 0 <= j < list.len() && list[j] == s;
                if j < n {
                    assert(less[j] == s);
                    assert(rest.contains(s));
                    let k = choose|k: int| 0 <= k < rest.len() && rest[k] == s;
                    assert(all[k] == s);
                } else {
                    assert(all[rest.len() as int] == s);
                }
            }
        }
    }
}

/// A freed mesh leaves its bytes in the arena, and its own staging allocation where it has
/// one, to the frame that may still read them.
pub proof fn law_a_freed_mesh_waits_for_its_readers(r: GpuResident, done_at: TimelineValue)
    ensures
        ({
            let out = retired_by(r, done_at);
            &&& out[0].item == r.arena
            &&& forall|i: int| 0 <= i < out.len() ==> (#[trigger] out[i]).value == done_at
            &&& r.copy matches Some(c) ==> (c.source matches CopySource::Alloc(a) ==> out.len() == 2
                && out[1].item == a)
            &&& !(r.copy is Some && r.copy->Some_0.source is Alloc) ==> out.len() == 1
        }),
{
}

/// Everything that waits for a value waits for that value, in order.
pub proof fn law_items_wait_for_their_value<T>(items: Seq<T>, value: TimelineValue, i: int)
    requires
        0 <= i < items.len(),
    ensures
        waiting_for(items, value).len() == items.len(),
        waiting_for(items, value)[i].item == items[i],
        waiting_for(items, value)[i].value == value,
{
}

/// What is owed to earlier batches is never forgotten: the next submission waits for the
/// latest of their values and acquires everything that any of them released.
pub proof fn law_nothing_owed_is_forgotten(
    before: Option<DeferredArrival>,
    value: TimelineValue,
    acquires: Seq<BufferBarrier>,
    after: Option<DeferredArrival>,
    b: BufferBarrier,
)
    requires
        owed(before, value, acquires, after),
    ensures
        after is Some,
        after->Some_0.value >= value,
        before matches Some(p) ==> after->Some_0.value >= p.value && (after->Some_0.value == p.value
            || after->Some_0.value == value),
        before is None ==> after->Some_0.value == value,
        after->Some_0.acquires@.contains(b) <==> acquires.contains(b) || (before is Some
            && before->Some_0.acquires@.contains(b)),
{
    let all = after->Some_0.acquires@;
    if let Some(p) = before {
        if acquires.contains(b) {
            let k = choose|k: int| 0 <= k < acquires.len() && acquires[k] == b;
            assert(all[p.acquires@.len() + k] == b);
        }
        if p.acquires@.contains(b) {
            let k = choose|k: int| 0 <= k < p.acquires@.len() && p.acquires@[k] == b;
            assert(all[k] == b);
        }
        if all.contains(b) {
            let k = choose|k: int| 0 <= k < all.len() && all[k] == b;
            if k < p.acquires@.len() {
                assert(p.acquires@[k] == b);
            } else {
                assert(acquires[k - p.acquires@.len()] == b);
            }
        }
    }
}

/// A region of the pool is still leased where the copy staged in it has not been flushed.
pub proof fn law_leased_regions_are_those_staged(slots: Seq<Option<GpuResident>>, s: int)
    requires
        0 <= s < slots.len(),
    ensures
        slots[s] matches Some(r) ==> (r.copy matches Some(c) ==> (
        c.source matches CopySource::Pool(region) ==> leased(slots).contains(region))),
        leased(slots).len() <= slots.len(),
    decreases slots.len(),
{
    let all = leased(slots);
    let less = slots.drop_last();
    let rest = leased(less);
    if slots.len() > 1 {
        law_leased_regions_are_those_staged(less, if s < less.len() {
            s
        } else {
            0
        });
    } else {
        assert(less =~= Seq::empty());
    }
    if slots[s] is Some && (slots[s]->Some_0).copy is Some && (
    slots[s]->Some_0).copy->Some_0.source is Pool {
        let region = (slots[s]->Some_0).copy->Some_0.source->Pool_0;
        if s < less.len() {
            assert(less[s] == slots[s]);
            assert(rest.contains(region));
            let k = choose|k: int| 0 <= k < rest.len() && rest[k] == region;
            assert(all[k] == region);
        } else {
            assert(all[rest.len() as int] == region);
        }
    }
}

} // verus!
