//! Compute jobs from submission to result.
//!
//! A job reserves its output in the readback ring when it is submitted, waits in
//! the queue, is recorded and submitted, and is handed out once the GPU is past
//! its timeline value. Results come in the order of submission.

use std::collections::VecDeque;

use vstd::prelude::*;

use crate::commands;
use crate::commands::{Binding, BufferRegion, Cmd, STAGE_ALL_COMMANDS, STAGE_COMPUTE_SHADER};
use crate::compute;
use crate::compute::{
    ComputeDescOwned, ComputeKind, ComputeLimits, EngineError, JobId, BUDGET_START_US,
    FALLBACK_FRAME_BUDGET_US, MAX_IN_FLIGHT, MAX_PUSH_BYTES,
};
use crate::compute_input::ComputeStager;
use crate::free_list;
use crate::ordering;
use crate::ordering::Flow;
use crate::playback;
use crate::playback::{Dispatched, Gpu, StampAt};
use crate::retire::TimelineValue;
use crate::staging;
use crate::staging::{StagingRegion, StagingRing, Stamp};

verus! {

/// A registered kind.
#[derive(Clone, Copy, Debug, PartialEq, Eq, Structural)]
pub struct KindState {
    pub pipeline: u64,
    pub layout: u64,
    pub set_layout: u64,
    pub push_bytes: u32,
    pub inputs: u32,
    pub output_bytes_max: u32,
    pub estimate_us: u32,
}

/// A job as the game submits it.
pub struct ComputeJob {
    pub kind: ComputeKind,
    pub push: Vec<u8>,
    /// Regions of the input ring, by binding.
    pub inputs: [Option<StagingRegion>; 2],
    pub output_bytes: u32,
    pub dispatch: [u32; 3],
}

/// A job that waits to be recorded.
pub struct QueuedJob {
    pub id: JobId,
    pub kind: ComputeKind,
    pub push: Vec<u8>,
    pub inputs: [Option<StagingRegion>; 2],
    pub output: StagingRegion,
    pub output_bytes: u32,
    pub dispatch: [u32; 3],
}

/// A recorded job.
#[derive(Clone, Copy, Debug)]
pub struct InFlight {
    pub id: JobId,
    pub kind: ComputeKind,
    /// The value that its submission signals, once it is submitted.
    pub value: Option<TimelineValue>,
    pub on_compute_lane: bool,
    pub gpu_done: bool,
    pub output: StagingRegion,
    pub output_bytes: u32,
    pub inputs: [Option<StagingRegion>; 2],
    /// Its pair of timestamp queries.
    pub timestamp_pair: Option<u32>,
}

pub struct ComputeRuntime {
    pub enabled: bool,
    pub input: ComputeStager,
    pub input_buffer: u64,
    pub readback: StagingRing,
    pub readback_buffer: u64,
    /// Device-local buffer that shaders write where the readback ring is slow.
    pub scratch: Option<u64>,
    /// Shaders write the readback ring.
    pub direct: bool,
    pub kinds: Vec<KindState>,
    pub queue: VecDeque<QueuedJob>,
    pub inflight: Vec<InFlight>,
    /// Results that were ready when another one was asked for.
    pub stash: VecDeque<(JobId, Vec<u8>)>,
    pub next_id: u64,
    /// Jobs queued or in flight.
    pub pending: usize,
    /// Jobs in flight that the GPU has not finished.
    pub gpu_inflight: usize,
    pub limits: ComputeLimits,
    /// Zero where there are no timestamps.
    pub query_pool: u64,
    pub query_free: Vec<u32>,
    pub host_query_reset: bool,
}

/// The bindings of a kind: its inputs and, behind them, the output.
pub open spec fn binding_list(inputs: u32) -> Seq<u32> {
    Seq::new((inputs + 1) as nat, |i: int| i as u32)
}

pub fn descriptor_bindings(inputs: u32) -> (r: Vec<u32>)
    requires
        inputs < u32::MAX,
    ensures
        r@ == binding_list(inputs),
{
    let mut r: Vec<u32> = Vec::new();
    let mut i: u32 = 0;
    while i <= inputs
        invariant
            inputs < u32::MAX,
            i <= inputs + 1,
            r@ == Seq::new(i as nat, |k: int| k as u32),
        decreases inputs + 1 - i,
    {
        r.push(i);
        i = i + 1;
        proof {
            assert(r@ =~= Seq::new(i as nat, |k: int| k as u32));
        }
    }
    r
}

/// Input `i` is there wherever the kind reads it.
pub open spec fn inputs_present(inputs: Seq<Option<StagingRegion>>, n: u32) -> bool {
    (n >= 1 ==> inputs[0] is Some) && (n >= 2 ==> inputs[1] is Some)
}

/// Some free range of the ring takes `bytes`.
pub open spec fn has_room(ring: &StagingRing, bytes: int) -> bool {
    exists|i: int|
        0 <= i < ring.list.free.len() && free_list::fits(
            #[trigger] ring.list.free[i],
            if bytes == 0 {
                1
            } else {
                free_list::align_up(bytes, ring.align as int)
            },
            ring.align as int,
        )
}

/// Jobs that the GPU has not finished.
pub open spec fn running(jobs: Seq<InFlight>) -> nat
    decreases jobs.len(),
{
    if jobs.len() == 0 {
        0
    } else {
        running(jobs.drop_last()) + if jobs.last().gpu_done {
            0nat
        } else {
            1
        }
    }
}

proof fn lemma_running_push(jobs: Seq<InFlight>, j: InFlight)
    ensures
        running(jobs.push(j)) == running(jobs) + if j.gpu_done {
            0nat
        } else {
            1
        },
{
    assert(jobs.push(j).drop_last() =~= jobs);
}

proof fn lemma_running_update(jobs: Seq<InFlight>, i: int, j: InFlight)
    requires
        0 <= i < jobs.len(),
    ensures
        running(jobs.update(i, j)) + if jobs[i].gpu_done {
            0nat
        } else {
            1
        } == running(jobs) + if j.gpu_done {
            0nat
        } else {
            1
        },
    decreases jobs.len(),
{
    if i < jobs.len() - 1 {
        lemma_running_update(jobs.drop_last(), i, j);
        assert(jobs.update(i, j).drop_last() =~= jobs.drop_last().update(i, j));
    } else {
        assert(jobs.update(i, j).drop_last() =~= jobs.drop_last());
    }
}

proof fn lemma_running_first(jobs: Seq<InFlight>)
    requires
        jobs.len() > 0,
    ensures
        running(jobs) == running(jobs.drop_first()) + if jobs[0].gpu_done {
            0nat
        } else {
            1
        },
        running(jobs) <= jobs.len(),
    decreases jobs.len(),
{
    if jobs.len() > 1 {
        let init = jobs.drop_last();
        lemma_running_first(init);
        assert(jobs.drop_first().drop_last() =~= init.drop_first());
        assert(jobs.drop_first().last() == jobs.last());
    } else {
        assert(jobs.drop_first() =~= Seq::<InFlight>::empty());
        assert(jobs.drop_last() =~= Seq::<InFlight>::empty());
        assert(running(jobs.drop_last()) == 0);
    }
}

/// Identifiers in the order in which results are handed out.
pub open spec fn order(
    stash: Seq<(JobId, Vec<u8>)>,
    inflight: Seq<InFlight>,
    queue: Seq<QueuedJob>,
) -> Seq<u64> {
    Seq::new(stash.len(), |i: int| stash[i].0.0) + Seq::new(
        inflight.len(),
        |i: int| inflight[i].id.0,
    ) + Seq::new(queue.len(), |i: int| queue[i].id.0)
}

/// Ascending without repetition.
pub open spec fn ascending(v: Seq<u64>) -> bool {
    forall|i: int, j: int| 0 <= i < j < v.len() ==> #[trigger] v[i] < #[trigger] v[j]
}

/// No pair of queries is in two places.
pub open spec fn pairs_apart(free: Seq<u32>, inflight: Seq<InFlight>) -> bool {
    &&& forall|i: int| 0 <= i < free.len() ==> (#[trigger] free[i]) < 0x4000_0000
    &&& forall|i: int, j: int| 0 <= i < j < free.len() ==> #[trigger] free[i] != #[trigger] free[j]
    &&& forall|i: int, j: int|
        0 <= i < free.len() && 0 <= j < inflight.len() ==> Some(#[trigger] free[i]) != (
        #[trigger] inflight[j]).timestamp_pair
    &&& forall|i: int, j: int|
        0 <= i < j < inflight.len() && (#[trigger] inflight[i]).timestamp_pair is Some
            ==> inflight[i].timestamp_pair != (#[trigger] inflight[j]).timestamp_pair
    &&& forall|j: int|
        0 <= j < inflight.len() ==> ((#[trigger] inflight[j]).timestamp_pair matches Some(p) ==> p
            < 0x4000_0000)
}

/// A queued job meets what its kind asks for.
pub open spec fn job_fits(kinds: Seq<KindState>, j: QueuedJob) -> bool {
    &&& j.kind.0 < kinds.len()
    &&& j.push.len() == kinds[j.kind.0 as int].push_bytes
    &&& inputs_present(j.inputs@, kinds[j.kind.0 as int].inputs)
    &&& 0 < j.output_bytes <= kinds[j.kind.0 as int].output_bytes_max
}

pub open spec fn kind_ok(k: KindState) -> bool {
    k.push_bytes <= MAX_PUSH_BYTES && k.inputs <= 2 && k.output_bytes_max > 0
}

/// The output buffer that the shader writes.
pub open spec fn output_buffer(rt: &ComputeRuntime) -> u64 {
    if rt.direct {
        rt.readback_buffer
    } else {
        match rt.scratch {
            Some(b) => b,
            None => rt.readback_buffer,
        }
    }
}

/// A region of `buffer`, never empty.
pub open spec fn region_binding(buffer: u64, r: StagingRegion) -> Binding {
    Binding::StorageBuffer {
        buffer,
        offset: r.offset,
        range: if r.len < 1 {
            1
        } else {
            r.len
        },
    }
}

fn bind_region(buffer: u64, r: StagingRegion) -> (b: Binding)
    ensures
        b == region_binding(buffer, r),
{
    Binding::StorageBuffer {
        buffer,
        offset: r.offset,
        range: if r.len < 1 {
            1
        } else {
            r.len
        },
    }
}

/// The timestamp before a job.
pub open spec fn timing_start(rt: &ComputeRuntime, pair: Option<u32>) -> Seq<Cmd> {
    match pair {
        Some(p) if rt.query_pool != 0 => seq![
            if rt.host_query_reset {
                Cmd::HostResetQueries { pool: rt.query_pool, first: (2 * p) as u32, count: 2 }
            } else {
                Cmd::ResetQueries { pool: rt.query_pool, first: (2 * p) as u32, count: 2 }
            },
            Cmd::WriteTimestamp {
                pool: rt.query_pool,
                query: (2 * p) as u32,
                stage: STAGE_COMPUTE_SHADER,
            },
        ],
        _ => Seq::empty(),
    }
}

/// The timestamp behind a job.
pub open spec fn timing_end(rt: &ComputeRuntime, pair: Option<u32>) -> Seq<Cmd> {
    match pair {
        Some(p) if rt.query_pool != 0 => seq![
            Cmd::WriteTimestamp {
                pool: rt.query_pool,
                query: (2 * p + 1) as u32,
                stage: STAGE_ALL_COMMANDS,
            },
        ],
        _ => Seq::empty(),
    }
}

/// The push constants of a job.
pub open spec fn push_cmds(push: Seq<u8>, layout: u64) -> Seq<Cmd> {
    if push.len() > 0 {
        Seq::new(push.len(), |i: int| Cmd::PushByte(push[i])).push(Cmd::PushConstants { layout })
    } else {
        Seq::empty()
    }
}

/// The inputs at the first bindings, the output behind them.
pub open spec fn binding_cmds(rt: &ComputeRuntime, k: KindState, job: QueuedJob) -> Seq<Cmd> {
    let out = region_binding(output_buffer(rt), job.output);
    let set = Cmd::PushSet { layout: k.layout };
    if k.inputs == 0 {
        seq![Cmd::Bind { binding: 0, what: out }, set]
    } else {
        let first = region_binding(rt.input_buffer, job.inputs@[0]->Some_0);
        if k.inputs == 1 {
            seq![
                Cmd::Bind { binding: 0, what: first },
                Cmd::Bind { binding: 1, what: out },
                set,
            ]
        } else {
            let second = region_binding(rt.input_buffer, job.inputs@[1]->Some_0);
            seq![
                Cmd::Bind { binding: 0, what: first },
                Cmd::Bind { binding: 1, what: second },
                Cmd::Bind { binding: 2, what: out },
                set,
            ]
        }
    }
}

/// How the output reaches the host: it is there already, or it is copied out of
/// the scratch buffer.
pub open spec fn readback_cmds(rt: &ComputeRuntime, job: QueuedJob) -> Seq<Cmd> {
    if rt.direct {
        seq![Cmd::MemoryBarrier { src: commands::compute_write(), dst: commands::host_read() }, Cmd::Barriers]
    } else {
        match rt.scratch {
            Some(scratch) => seq![
                Cmd::MemoryBarrier { src: commands::compute_write(), dst: commands::copy_read() },
                Cmd::Barriers,
                Cmd::BufferRegion(
                    BufferRegion {
                        src_offset: job.output.offset,
                        dst_offset: job.output.offset,
                        size: job.output_bytes as u64,
                    },
                ),
                Cmd::CopyBuffer { src: scratch, dst: rt.readback_buffer },
                Cmd::MemoryBarrier { src: commands::copy_write(), dst: commands::host_read() },
                Cmd::Barriers,
            ],
            None => Seq::empty(),
        }
    }
}

/// Everything recorded for one job; nothing for a kind that is not registered.
pub open spec fn job_cmds(rt: &ComputeRuntime, job: QueuedJob, pair: Option<u32>) -> Seq<Cmd> {
    if job.kind.0 < rt.kinds.len() {
        let k = rt.kinds[job.kind.0 as int];
        timing_start(rt, pair) + seq![Cmd::BindPipeline { pipeline: k.pipeline }] + push_cmds(
            job.push@,
            k.layout,
        ) + binding_cmds(rt, k, job) + seq![
            Cmd::Dispatch { x: job.dispatch@[0], y: job.dispatch@[1], z: job.dispatch@[2] },
        ] + readback_cmds(rt, job) + timing_end(rt, pair)
    } else {
        Seq::empty()
    }
}

impl ComputeRuntime {
    pub open spec fn wf(&self) -> bool {
        &&& self.input.ring.wf()
        &&& self.readback.wf()
        &&& self.pending == self.queue@.len() + self.inflight.len()
        &&& self.gpu_inflight == running(self.inflight@)
        &&& ascending(order(self.stash@, self.inflight@, self.queue@))
        &&& forall|i: int|
            0 <= i < order(self.stash@, self.inflight@, self.queue@).len() ==> (#[trigger] order(
                self.stash@,
                self.inflight@,
                self.queue@,
            )[i]) < self.next_id
        &&& forall|i: int| 0 <= i < self.kinds.len() ==> kind_ok(#[trigger] self.kinds[i])
        &&& forall|i: int|
            0 <= i < self.queue@.len() ==> job_fits(self.kinds@, #[trigger] self.queue@[i])
        &&& pairs_apart(self.query_free@, self.inflight@)
    }

    fn record_timing_start(&self, cmds: &mut Vec<Cmd>, pair: Option<u32>)
        requires
            pair matches Some(p) ==> p < 0x4000_0000,
        ensures
            final(cmds)@ == old(cmds)@ + timing_start(self, pair),
    {
        let ghost orig = cmds@;
        if let Some(p) = pair {
            if self.query_pool != 0 {
                let first: u32 = 2 * p;
                if self.host_query_reset {
                    cmds.push(Cmd::HostResetQueries { pool: self.query_pool, first, count: 2 });
                } else {
                    cmds.push(Cmd::ResetQueries { pool: self.query_pool, first, count: 2 });
                }
                cmds.push(
                    Cmd::WriteTimestamp {
                        pool: self.query_pool,
                        query: first,
                        stage: STAGE_COMPUTE_SHADER,
                    },
                );
            }
        }
        proof {
            assert(cmds@ =~= orig + timing_start(self, pair));
        }
    }

    fn record_timing_end(&self, cmds: &mut Vec<Cmd>, pair: Option<u32>)
        requires
            pair matches Some(p) ==> p < 0x4000_0000,
        ensures
            final(cmds)@ == old(cmds)@ + timing_end(self, pair),
    {
        let ghost orig = cmds@;
        if let Some(p) = pair {
            if self.query_pool != 0 {
                cmds.push(
                    Cmd::WriteTimestamp {
                        pool: self.query_pool,
                        query: 2 * p + 1,
                        stage: STAGE_ALL_COMMANDS,
                    },
                );
            }
        }
        proof {
            assert(cmds@ =~= orig + timing_end(self, pair));
        }
    }

    fn record_bindings(&self, cmds: &mut Vec<Cmd>, k: KindState, job: &QueuedJob)
        requires
            k.inputs <= 2,
            inputs_present(job.inputs@, k.inputs),
        ensures
            final(cmds)@ == old(cmds)@ + binding_cmds(self, k, *job),
    {
        let ghost orig = cmds@;
        let out_buffer: u64 = if self.direct {
            self.readback_buffer
        } else {
            match self.scratch {
                Some(b) => b,
                None => self.readback_buffer,
            }
        };
        if k.inputs >= 1 {
            if let Some(r) = job.inputs[0] {
                cmds.push(Cmd::Bind { binding: 0, what: bind_region(self.input_buffer, r) });
            }
        }
        if k.inputs >= 2 {
            if let Some(r) = job.inputs[1] {
                cmds.push(Cmd::Bind { binding: 1, what: bind_region(self.input_buffer, r) });
            }
        }
        cmds.push(Cmd::Bind { binding: k.inputs, what: bind_region(out_buffer, job.output) });
        cmds.push(Cmd::PushSet { layout: k.layout });
        proof {
            assert(cmds@ =~= orig + binding_cmds(self, k, *job));
        }
    }

    fn record_readback(&self, cmds: &mut Vec<Cmd>, job: &QueuedJob)
        ensures
            final(cmds)@ == old(cmds)@ + readback_cmds(self, *job),
    {
        let ghost orig = cmds@;
        if self.direct {
            cmds.push(Cmd::MemoryBarrier { src: commands::compute_write(), dst: commands::host_read() });
            cmds.push(Cmd::Barriers);
        } else if let Some(scratch) = self.scratch {
            cmds.push(Cmd::MemoryBarrier { src: commands::compute_write(), dst: commands::copy_read() });
            cmds.push(Cmd::Barriers);
            cmds.push(
                Cmd::BufferRegion(
                    BufferRegion {
                        src_offset: job.output.offset,
                        dst_offset: job.output.offset,
                        size: job.output_bytes as u64,
                    },
                ),
            );
            cmds.push(Cmd::CopyBuffer { src: scratch, dst: self.readback_buffer });
            cmds.push(Cmd::MemoryBarrier { src: commands::copy_write(), dst: commands::host_read() });
            cmds.push(Cmd::Barriers);
        }
        proof {
            assert(cmds@ =~= orig + readback_cmds(self, *job));
        }
    }

    /// Records one job.
    pub fn record_one(&self, job: &QueuedJob, pair: Option<u32>) -> (cmds: Vec<Cmd>)
        requires
            self.wf(),
            job.kind.0 < self.kinds.len() ==> job_fits(self.kinds@, *job),
            pair matches Some(p) ==> p < 0x4000_0000,
        ensures
            cmds@ == job_cmds(self, *job, pair),
    {
        let mut cmds: Vec<Cmd> = Vec::new();
        let i: usize = job.kind.0 as usize;
        if i >= self.kinds.len() {
            return cmds;
        }
        let k: KindState = self.kinds[i];
        proof {
            assert(kind_ok(self.kinds[i as int]));
        }
        self.record_timing_start(&mut cmds, pair);
        proof {
            assert(cmds@ =~= timing_start(self, pair));
        }
        commands::push_one(&mut cmds, Cmd::BindPipeline { pipeline: k.pipeline });
        record_push(&mut cmds, &job.push, k.layout);
        self.record_bindings(&mut cmds, k, job);
        commands::push_one(
            &mut cmds,
            Cmd::Dispatch { x: job.dispatch[0], y: job.dispatch[1], z: job.dispatch[2] },
        );
        self.record_readback(&mut cmds, job);
        self.record_timing_end(&mut cmds, pair);
        cmds
    }
}

fn record_push(cmds: &mut Vec<Cmd>, push: &Vec<u8>, layout: u64)
    ensures
        final(cmds)@ == old(cmds)@ + push_cmds(push@, layout),
{
    let ghost orig = cmds@;
    if push.len() > 0 {
        let mut b: usize = 0;
        while b < push.len()
            invariant
                b <= push.len(),
                cmds@ == orig + Seq::new(b as nat, |j: int| Cmd::PushByte(push@[j])),
            decreases push.len() - b,
        {
            cmds.push(Cmd::PushByte(push[b]));
            b = b + 1;
            proof {
                assert(cmds@ =~= orig + Seq::new(b as nat, |j: int| Cmd::PushByte(push@[j])));
            }
        }
        cmds.push(Cmd::PushConstants { layout });
    }
    proof {
        assert(cmds@ =~= orig + push_cmds(push@, layout));
    }
}

/// `job` is queued in `after` under the next id, its output reserved; nothing
/// else of `before` changes.
pub open spec fn queued(before: &ComputeRuntime, job: ComputeJob, after: &ComputeRuntime) -> bool {
    let q = after.queue@.last();
    &&& after.queue@.len() == before.queue@.len() + 1
    &&& after.queue@.drop_last() == before.queue@
    &&& q.id.0 == before.next_id
    &&& q.kind == job.kind
    &&& q.push == job.push
    &&& q.inputs == job.inputs
    &&& q.output_bytes == job.output_bytes
    &&& q.dispatch == job.dispatch
    &&& staging::lends(
        before.readback,
        job.output_bytes as usize,
        Some(q.output),
        after.readback,
    )
    &&& *after == (ComputeRuntime {
        readback: after.readback,
        queue: after.queue,
        next_id: (before.next_id + 1) as u64,
        pending: (before.pending + 1) as usize,
        ..*before
    })
}

/// An input region, where there is one, is given back.
pub open spec fn region_given_back(
    before: staging::StagingRing,
    region: Option<StagingRegion>,
    after: staging::StagingRing,
) -> bool {
    match region {
        Some(r) => staging::gives_back(before, r, after),
        None => after == before,
    }
}

/// Both input regions of a job are given back, the first one first.
pub open spec fn inputs_given_back(
    before: staging::StagingRing,
    inputs: Seq<Option<StagingRegion>>,
    after: staging::StagingRing,
) -> bool {
    exists|between: staging::StagingRing| #[trigger]
        region_given_back(before, inputs[0], between) && region_given_back(
            between,
            inputs[1],
            after,
        )
}

/// Why a job is refused; the names of parts stand for themselves.
pub enum Refusal {
    NoCompute,
    Part(Seq<char>),
    OutputTooLarge,
    InputGone,
    Busy,
}

/// `r` reports the refusal.
pub open spec fn reports<T>(r: Result<T, EngineError>, why: Refusal) -> bool {
    match why {
        Refusal::NoCompute => r matches Err(EngineError::NoCompute),
        Refusal::Part(part) => compute::refused_part(r, part),
        Refusal::OutputTooLarge => r matches Err(EngineError::OutputTooLarge),
        Refusal::InputGone => r matches Err(EngineError::InputGone),
        Refusal::Busy => r matches Err(EngineError::Busy),
    }
}

/// More workgroups than the device runs, on some axis.
pub open spec fn too_many_groups(dispatch: Seq<u32>, limits: &ComputeLimits) -> bool {
    ||| dispatch[0] > limits.max_work_group_count[0]
    ||| dispatch[1] > limits.max_work_group_count[1]
    ||| dispatch[2] > limits.max_work_group_count[2]
}

/// The first reason to refuse a job.
pub open spec fn refusal(rt: &ComputeRuntime, job: ComputeJob) -> Option<Refusal> {
    if !rt.enabled {
        Some(Refusal::NoCompute)
    } else if job.kind.0 >= rt.kinds.len() {
        Some(Refusal::Part("kind"@))
    } else {
        let k = rt.kinds[job.kind.0 as int];
        if job.output_bytes == 0 || job.output_bytes > k.output_bytes_max {
            Some(Refusal::OutputTooLarge)
        } else if job.push.len() != k.push_bytes {
            Some(Refusal::Part("push"@))
        } else if too_many_groups(job.dispatch@, &rt.limits) {
            Some(Refusal::Part("dispatch"@))
        } else if !inputs_present(job.inputs@, k.inputs) {
            Some(Refusal::InputGone)
        } else if !has_room(&rt.readback, job.output_bytes as int) {
            Some(Refusal::Busy)
        } else {
            None
        }
    }
}

/// The GPU has passed the job's value.
pub open spec fn newly_done(j: InFlight, render: u64, lane: Option<u64>) -> bool {
    &&& !j.gpu_done
    &&& j.value matches Some(v) && if j.on_compute_lane {
        lane matches Some(c) && c >= v
    } else {
        render >= v
    }
}

/// The job once the counters have been looked at.
pub open spec fn looked_at(j: InFlight, render: u64, lane: Option<u64>) -> InFlight {
    if newly_done(j, render, lane) {
        InFlight { gpu_done: true, timestamp_pair: None, ..j }
    } else {
        j
    }
}

pub open spec fn reaped(jobs: Seq<InFlight>, render: u64, lane: Option<u64>) -> Seq<InFlight> {
    Seq::new(jobs.len(), |i: int| looked_at(jobs[i], render, lane))
}

/// The query pairs that finished jobs leave, and their kinds, in order.
pub open spec fn timings(
    jobs: Seq<InFlight>,
    render: u64,
    lane: Option<u64>,
    pool: u64,
) -> Seq<(u32, ComputeKind)>
    decreases jobs.len(),
{
    if jobs.len() == 0 {
        Seq::empty()
    } else {
        let rest = timings(jobs.drop_last(), render, lane, pool);
        let j = jobs.last();
        match j.timestamp_pair {
            Some(p) if newly_done(j, render, lane) && pool != 0 => rest.push((p, j.kind)),
            _ => rest,
        }
    }
}

/// The pairs alone.
pub open spec fn pairs_of(t: Seq<(u32, ComputeKind)>) -> Seq<u32> {
    Seq::new(t.len(), |i: int| t[i].0)
}

impl ComputeRuntime {
    /// A runtime over two rings, which are off where their buffer is zero.
    pub fn new(
        input: ComputeStager,
        input_buffer: u64,
        readback: StagingRing,
        readback_buffer: u64,
        scratch: Option<u64>,
        direct: bool,
        limits: ComputeLimits,
        query_pool: u64,
        host_query_reset: bool,
    ) -> (rt: Self)
        requires
            input.ring.wf(),
            readback.wf(),
        ensures
            rt.wf(),
            rt.enabled == (input_buffer != 0 && readback_buffer != 0),
            rt.input == input,
            rt.input_buffer == input_buffer,
            rt.readback == readback,
            rt.readback_buffer == readback_buffer,
            rt.scratch == scratch,
            rt.direct == direct,
            rt.kinds.len() == 0,
            rt.queue@.len() == 0,
            rt.inflight.len() == 0,
            rt.stash@.len() == 0,
            rt.next_id == 1,
            rt.pending == 0,
            rt.gpu_inflight == 0,
            rt.limits == limits,
            rt.query_pool == query_pool,
            rt.query_free@ == if query_pool != 0 {
                Seq::new(64, |i: int| i as u32)
            } else {
                Seq::empty()
            },
            rt.host_query_reset == host_query_reset,
    {
        let mut query_free: Vec<u32> = Vec::new();
        if query_pool != 0 {
            let mut i: u32 = 0;
            while i < 64
                invariant
                    i <= 64,
                    query_free@ == Seq::new(i as nat, |k: int| k as u32),
                decreases 64 - i,
            {
                query_free.push(i);
                i = i + 1;
                proof {
                    assert(query_free@ =~= Seq::new(i as nat, |k: int| k as u32));
                }
            }
        }
        ComputeRuntime {
            enabled: input_buffer != 0 && readback_buffer != 0,
            input,
            input_buffer,
            readback,
            readback_buffer,
            scratch,
            direct,
            kinds: Vec::new(),
            queue: VecDeque::new(),
            inflight: Vec::new(),
            stash: VecDeque::new(),
            next_id: 1,
            pending: 0,
            gpu_inflight: 0,
            limits,
            query_pool,
            query_free,
            host_query_reset,
        }
    }

    pub fn enabled(&self) -> (r: bool)
        ensures
            r == self.enabled,
    {
        self.enabled
    }

    /// Jobs queued or in flight.
    pub fn pending(&self) -> (r: usize)
        ensures
            r == self.pending,
    {
        self.pending
    }

    pub fn queued_is_empty(&self) -> (r: bool)
        ensures
            r == (self.queue@.len() == 0),
    {
        self.queue.len() == 0
    }

    /// Checks a kind before its pipeline is made.
    pub fn check_kind(&self, desc: &ComputeDescOwned) -> (r: Result<(), EngineError>)
        ensures
            !self.enabled ==> r matches Err(EngineError::NoCompute),
            self.enabled ==> match compute::invalid_part(
                desc,
                &self.limits,
                self.readback.list.capacity,
            ) {
                Some(part) => compute::refused_part(r, part),
                None => r is Ok,
            },
    {
        if !self.enabled {
            return Err(EngineError::NoCompute);
        }
        compute::validate_desc(desc, &self.limits, self.readback.capacity())
    }

    /// Takes in a kind whose pipeline has been made.
    pub fn register(
        &mut self,
        desc: &ComputeDescOwned,
        pipeline: u64,
        layout: u64,
        set_layout: u64,
    ) -> (kind: ComputeKind)
        requires
            old(self).wf(),
            compute::invalid_part(desc, &old(self).limits, old(self).readback.list.capacity)
                is None,
            old(self).kinds.len() < u32::MAX,
        ensures
            final(self).wf(),
            kind.0 == old(self).kinds.len(),
            final(self).kinds@ == old(self).kinds@.push(
                (KindState {
                    pipeline,
                    layout,
                    set_layout,
                    push_bytes: desc.push_bytes,
                    inputs: desc.inputs,
                    output_bytes_max: desc.output_bytes_max,
                    estimate_us: BUDGET_START_US,
                }),
            ),
            *final(self) == (ComputeRuntime { kinds: final(self).kinds, ..*old(self) }),
    {
        let ghost s0 = *self;
        let id: u32 = self.kinds.len() as u32;
        self.kinds.push(
            KindState {
                pipeline,
                layout,
                set_layout,
                push_bytes: desc.push_bytes,
                inputs: desc.inputs,
                output_bytes_max: desc.output_bytes_max,
                estimate_us: BUDGET_START_US,
            },
        );
        proof {
            assert forall|i: int| 0 <= i < self.kinds.len() implies kind_ok(
                #[trigger] self.kinds[i],
            ) by {
                if i < s0.kinds.len() {
                    assert(kind_ok(s0.kinds[i]));
                }
            }
            assert forall|i: int| 0 <= i < self.queue@.len() implies job_fits(
                self.kinds@,
                #[trigger] self.queue@[i],
            ) by {
                assert(job_fits(s0.kinds@, s0.queue@[i]));
            }
        }
        ComputeKind(id)
    }

    /// Queues a job and reserves its output.
    pub fn submit_job(&mut self, job: ComputeJob) -> (r: Result<JobId, EngineError>)
        requires
            old(self).wf(),
            old(self).next_id < u64::MAX,
            old(self).pending < usize::MAX,
        ensures
            final(self).wf(),
            match refusal(old(self), job) {
                Some(why) => reports(r, why) && *final(self) == *old(self),
                None => {
                    &&& r matches Ok(id) && id.0 == old(self).next_id
                    &&& queued(old(self), job, final(self))
                },
            },
    {
        let ghost s0 = *self;
        if !self.enabled {
            return Err(EngineError::NoCompute);
        }
        let i: usize = job.kind.0 as usize;
        if i >= self.kinds.len() {
            return Err(EngineError::Invalid("kind"));
        }
        let k: KindState = self.kinds[i];
        if job.output_bytes == 0 || job.output_bytes > k.output_bytes_max {
            return Err(EngineError::OutputTooLarge);
        }
        if job.push.len() != k.push_bytes as usize {
            return Err(EngineError::Invalid("push"));
        }
        if job.dispatch[0] > self.limits.max_work_group_count[0] || job.dispatch[1]
            > self.limits.max_work_group_count[1] || job.dispatch[2]
            > self.limits.max_work_group_count[2] {
            return Err(EngineError::Invalid("dispatch"));
        }
        if (k.inputs >= 1 && job.inputs[0].is_none()) || (k.inputs >= 2 && job.inputs[1].is_none()) {
            return Err(EngineError::InputGone);
        }
        let output = match self.readback.acquire(job.output_bytes as usize) {
            None => {
                return Err(EngineError::Busy);
            },
            Some(region) => region,
        };
        proof {
            free_list::lemma_align_up(job.output_bytes as int, s0.readback.align as int);
            assert(has_room(&s0.readback, job.output_bytes as int));
        }
        let id = JobId(self.next_id);
        self.next_id = self.next_id + 1;
        self.queue.push_back(
            QueuedJob {
                id,
                kind: job.kind,
                push: job.push,
                inputs: job.inputs,
                output,
                output_bytes: job.output_bytes,
                dispatch: job.dispatch,
            },
        );
        self.pending = self.pending + 1;
        proof {
            let a = order(s0.stash@, s0.inflight@, s0.queue@);
            let b = order(self.stash@, self.inflight@, self.queue@);
            assert(b =~= a.push(id.0));
            assert(self.queue@.drop_last() =~= s0.queue@);
            assert forall|n: int| 0 <= n < self.queue@.len() implies job_fits(
                self.kinds@,
                #[trigger] self.queue@[n],
            ) by {
                if n < s0.queue@.len() {
                    assert(job_fits(s0.kinds@, s0.queue@[n]));
                }
            }
        }
        Ok(id)
    }

    /// Queues a job as [`ComputeRuntime::submit_job`] does. A refused job gives its
    /// input regions back.
    pub fn submit(&mut self, job: ComputeJob) -> (r: Result<JobId, EngineError>)
        requires
            old(self).wf(),
            old(self).next_id < u64::MAX,
            old(self).pending < usize::MAX,
        ensures
            final(self).wf(),
            match refusal(old(self), job) {
                Some(why) => {
                    &&& reports(r, why)
                    &&& inputs_given_back(
                        old(self).input.ring,
                        job.inputs@,
                        final(self).input.ring,
                    )
                    &&& *final(self) == (ComputeRuntime { input: final(self).input, ..*old(self) })
                },
                None => {
                    &&& r matches Ok(id) && id.0 == old(self).next_id
                    &&& queued(old(self), job, final(self))
                },
            },
    {
        let inputs: [Option<StagingRegion>; 2] = job.inputs;
        let r = self.submit_job(job);
        if r.is_err() {
            let ghost r0 = self.input.ring;
            if let Some(region) = inputs[0] {
                self.input.ring.release(region);
            }
            let ghost r1 = self.input.ring;
            proof {
                assert(region_given_back(r0, inputs@[0], r1));
            }
            if let Some(region) = inputs[1] {
                self.input.ring.release(region);
            }
            proof {
                assert(region_given_back(r1, inputs@[1], self.input.ring));
            }
        }
        r
    }

    /// Marks the jobs that the GPU has finished, and returns the query pairs that
    /// they leave, with their kinds.
    #[verifier::rlimit(60)]
    pub fn reap(&mut self, render: u64, lane: Option<u64>) -> (freed: Vec<(u32, ComputeKind)>)
        requires
            old(self).wf(),
        ensures
            final(self).wf(),
            final(self).inflight@ == reaped(old(self).inflight@, render, lane),
            freed@ == timings(old(self).inflight@, render, lane, old(self).query_pool),
            final(self).query_free@ == old(self).query_free@ + pairs_of(freed@),
            *final(self) == (ComputeRuntime {
                inflight: final(self).inflight,
                gpu_inflight: final(self).gpu_inflight,
                query_free: final(self).query_free,
                ..*old(self)
            }),
    {
        let ghost s0 = *self;
        let mut freed: Vec<(u32, ComputeKind)> = Vec::new();
        let mut i: usize = 0;
        proof {
            assert(s0.inflight@.take(0) =~= Seq::empty());
            assert(s0.query_free@ + pairs_of(freed@) =~= s0.query_free@);
        }
        while i < self.inflight.len()
            invariant
                s0.wf(),
                i <= self.inflight.len(),
                self.inflight.len() == s0.inflight.len(),
                *self == (ComputeRuntime {
                    inflight: self.inflight,
                    gpu_inflight: self.gpu_inflight,
                    query_free: self.query_free,
                    ..s0
                }),
                self.gpu_inflight == running(self.inflight@),
                pairs_apart(self.query_free@, self.inflight@),
                forall|k: int|
                    0 <= k < i ==> #[trigger] self.inflight[k] == looked_at(
                        s0.inflight[k],
                        render,
                        lane,
                    ),
                forall|k: int|
                    i <= k < self.inflight.len() ==> #[trigger] self.inflight[k] == s0.inflight[k],
                freed@ == timings(s0.inflight@.take(i as int), render, lane, s0.query_pool),
                self.query_free@ == s0.query_free@ + pairs_of(freed@),
            decreases self.inflight.len() - i,
        {
            let j: InFlight = self.inflight[i];
            proof {
                assert(j == s0.inflight[i as int]);
                assert(s0.inflight@.take(i + 1).drop_last() =~= s0.inflight@.take(i as int));
                assert(s0.inflight@.take(i + 1).last() == j);
            }
            let reached: bool = match j.value {
                None => false,
                Some(v) => if j.on_compute_lane {
                    match lane {
                        None => false,
                        Some(c) => c >= v,
                    }
                } else {
                    render >= v
                },
            };
            if !j.gpu_done && reached {
                let ghost before = *self;
                let done = InFlight { gpu_done: true, timestamp_pair: None, ..j };
                proof {
                    lemma_running_update(self.inflight@, i as int, done);
                }
                self.inflight.set(i, done);
                self.gpu_inflight = self.gpu_inflight - 1;
                proof {
                    lemma_pairs_without(before.query_free@, before.inflight@, i as int, done);
                }
                if let Some(pair) = j.timestamp_pair {
                    if self.query_pool != 0 {
                        proof {
                            lemma_pairs_freed(
                                before.query_free@,
                                before.inflight@,
                                i as int,
                                done,
                                pair,
                            );
                        }
                        self.query_free.push(pair);
                        freed.push((pair, j.kind));
                        proof {
                            assert(pairs_of(freed@) =~= pairs_of(freed@.drop_last()).push(pair));
                            assert(self.query_free@ =~= s0.query_free@ + pairs_of(freed@));
                        }
                    }
                }
            }
            i = i + 1;
        }
        proof {
            assert(s0.inflight@.take(i as int) =~= s0.inflight@);
            assert(self.inflight@ =~= reaped(s0.inflight@, render, lane));
            assert(order(self.stash@, self.inflight@, self.queue@) =~= order(
                s0.stash@,
                s0.inflight@,
                s0.queue@,
            ));
        }
        freed
    }

    /// Updates a kind's estimate from a measured time.
    pub fn note_measured(&mut self, kind: ComputeKind, us: u32)
        requires
            old(self).wf(),
        ensures
            final(self).wf(),
            final(self).kinds@ == if kind.0 < old(self).kinds.len() {
                let k = old(self).kinds@[kind.0 as int];
                old(self).kinds@.update(
                    kind.0 as int,
                    KindState {
                        estimate_us: compute::adapted(
                            k.estimate_us,
                            if us < 1 {
                                1
                            } else {
                                us
                            },
                        ) as u32,
                        ..k
                    },
                )
            } else {
                old(self).kinds@
            },
            *final(self) == (ComputeRuntime { kinds: final(self).kinds, ..*old(self) }),
    {
        let ghost s0 = *self;
        let i: usize = kind.0 as usize;
        if i < self.kinds.len() {
            let k: KindState = self.kinds[i];
            let measured: u32 = if us < 1 {
                1
            } else {
                us
            };
            let estimate_us: u32 = compute::adapt_estimate_us(k.estimate_us, measured);
            self.kinds.set(i, KindState { estimate_us, ..k });
            proof {
                assert forall|n: int| 0 <= n < self.kinds.len() implies kind_ok(
                    #[trigger] self.kinds[n],
                ) by {
                    assert(kind_ok(s0.kinds[n]));
                }
                assert forall|n: int| 0 <= n < self.queue@.len() implies job_fits(
                    self.kinds@,
                    #[trigger] self.queue@[n],
                ) by {
                    assert(job_fits(s0.kinds@, s0.queue@[n]));
                }
            }
        }
    }
}

/// A finished job has given up its pair.
proof fn lemma_pairs_without(free: Seq<u32>, jobs: Seq<InFlight>, i: int, done: InFlight)
    requires
        pairs_apart(free, jobs),
        0 <= i < jobs.len(),
        done.timestamp_pair is None,
    ensures
        pairs_apart(free, jobs.update(i, done)),
{
    let now = jobs.update(i, done);
    assert forall|a: int, b: int|
        0 <= a < free.len() && 0 <= b < now.len() implies Some(#[trigger] free[a]) != (
    #[trigger] now[b]).timestamp_pair by {
        if b != i {
            assert(now[b] == jobs[b]);
        }
    }
    assert forall|a: int, b: int|
        0 <= a < b < now.len() && (#[trigger] now[a]).timestamp_pair is Some implies now[a].timestamp_pair
        != (#[trigger] now[b]).timestamp_pair by {
        assert(a != i);
        assert(now[a] == jobs[a]);
        if b != i {
            assert(now[b] == jobs[b]);
        }
    }
    assert forall|b: int| 0 <= b < now.len() implies ((#[trigger] now[b]).timestamp_pair matches Some(
        p,
    ) ==> p < 0x4000_0000) by {
        if b != i {
            assert(now[b] == jobs[b]);
        }
    }
}

/// The pair that a finished job has given up is free.
proof fn lemma_pairs_freed(
    free: Seq<u32>,
    jobs: Seq<InFlight>,
    i: int,
    done: InFlight,
    pair: u32,
)
    requires
        pairs_apart(free, jobs),
        0 <= i < jobs.len(),
        jobs[i].timestamp_pair == Some(pair),
        done.timestamp_pair is None,
    ensures
        pairs_apart(free.push(pair), jobs.update(i, done)),
{
    lemma_pairs_without(free, jobs, i, done);
    let now = jobs.update(i, done);
    let more = free.push(pair);
    assert forall|a: int, b: int| 0 <= a < b < more.len() implies #[trigger] more[a]
        != #[trigger] more[b] by {
        if b == free.len() {
            assert(Some(free[a]) != jobs[i].timestamp_pair);
        } else {
            assert(free[a] != free[b]);
        }
    }
    assert forall|a: int, b: int|
        0 <= a < more.len() && 0 <= b < now.len() implies Some(#[trigger] more[a]) != (
    #[trigger] now[b]).timestamp_pair by {
        if a < free.len() {
            assert(Some(free[a]) != now[b].timestamp_pair);
        } else if b < i {
            assert(now[b] == jobs[b]);
            if jobs[b].timestamp_pair is Some {
                assert(jobs[b].timestamp_pair != jobs[i].timestamp_pair);
            }
        } else if b > i {
            assert(now[b] == jobs[b]);
            assert(jobs[i].timestamp_pair != jobs[b].timestamp_pair);
        }
    }
}

/// Finished jobs at the front.
pub open spec fn done_prefix(jobs: Seq<InFlight>) -> nat
    decreases jobs.len(),
{
    if jobs.len() > 0 && jobs[0].gpu_done {
        1 + done_prefix(jobs.drop_first())
    } else {
        0
    }
}

proof fn lemma_done_prefix(jobs: Seq<InFlight>)
    ensures
        done_prefix(jobs) <= jobs.len(),
        forall|k: int| 0 <= k < done_prefix(jobs) ==> (#[trigger] jobs[k]).gpu_done,
        done_prefix(jobs) < jobs.len() ==> !jobs[done_prefix(jobs) as int].gpu_done,
    decreases jobs.len(),
{
    if jobs.len() > 0 && jobs[0].gpu_done {
        let rest = jobs.drop_first();
        lemma_done_prefix(rest);
        assert forall|k: int| 0 <= k < done_prefix(jobs) implies (#[trigger] jobs[k]).gpu_done by {
            if k > 0 {
                assert(rest[k - 1] == jobs[k]);
            }
        }
        if done_prefix(jobs) < jobs.len() {
            assert(rest[done_prefix(rest) as int] == jobs[done_prefix(jobs) as int]);
        }
    }
}

/// When the regions of a job come back.
pub open spec fn job_stamp(j: InFlight) -> Stamp {
    let v = match j.value {
        Some(v) => v,
        None => 0,
    };
    if j.on_compute_lane {
        Stamp::Transfer(v)
    } else {
        Stamp::Render(v)
    }
}

/// The readback loans once the first `n` jobs have been read.
pub open spec fn readback_stamped(loans: Seq<staging::Loan>, jobs: Seq<InFlight>, n: int) -> Seq<
    staging::Loan,
>
    decreases n,
{
    if n <= 0 {
        loans
    } else {
        staging::stamped(
            readback_stamped(loans, jobs, n - 1),
            jobs[n - 1].output,
            job_stamp(jobs[n - 1]),
        )
    }
}

/// The input loans with the regions of one job stamped.
pub open spec fn job_inputs_stamped(loans: Seq<staging::Loan>, j: InFlight) -> Seq<staging::Loan> {
    let first = match j.inputs@[0] {
        Some(r) => staging::stamped(loans, r, job_stamp(j)),
        None => loans,
    };
    match j.inputs@[1] {
        Some(r) => staging::stamped(first, r, job_stamp(j)),
        None => first,
    }
}

/// The input loans once the first `n` jobs have been read.
pub open spec fn inputs_stamped(loans: Seq<staging::Loan>, jobs: Seq<InFlight>, n: int) -> Seq<
    staging::Loan,
>
    decreases n,
{
    if n <= 0 {
        loans
    } else {
        job_inputs_stamped(inputs_stamped(loans, jobs, n - 1), jobs[n - 1])
    }
}

/// Results and what the finished jobs leave to be measured.
pub struct Polled {
    pub results: Vec<(JobId, Vec<u8>)>,
    pub timings: Vec<(u32, ComputeKind)>,
}

/// `results` are the stashed ones and those of the first `n` jobs, read by
/// `copy_out`.
pub open spec fn results_ok<F: Fn(StagingRegion, u32) -> Vec<u8>>(
    copy_out: F,
    stash: Seq<(JobId, Vec<u8>)>,
    jobs: Seq<InFlight>,
    n: int,
    results: Seq<(JobId, Vec<u8>)>,
) -> bool {
    &&& results.len() == stash.len() + n
    &&& forall|i: int| 0 <= i < stash.len() ==> #[trigger] results[i] == stash[i]
    &&& forall|i: int|
        stash.len() <= i < results.len() ==> (#[trigger] results[i]).0 == jobs[i - stash.len()].id
            && call_ensures(
            copy_out,
            (jobs[i - stash.len()].output, jobs[i - stash.len()].output_bytes),
            results[i].1,
        )
}

/// `all` are the results that a poll of `rt` hands out.
pub open spec fn polled_ok<F: Fn(StagingRegion, u32) -> Vec<u8>>(
    rt: &ComputeRuntime,
    copy_out: F,
    render: u64,
    lane: Option<u64>,
    all: Seq<(JobId, Vec<u8>)>,
) -> bool {
    let jobs = reaped(rt.inflight@, render, lane);
    results_ok(copy_out, rt.stash@, jobs, done_prefix(jobs) as int, all)
}

impl ComputeRuntime {
    /// Hands out every result that is ready, in the order of submission, and takes
    /// back the regions that the GPU is past. `copy_out` reads a region.
    #[verifier::rlimit(80)]
    pub fn poll<F: Fn(StagingRegion, u32) -> Vec<u8>>(
        &mut self,
        render: u64,
        lane: Option<u64>,
        copy_out: &F,
    ) -> (p: Polled)
        requires
            old(self).wf(),
            forall|r: StagingRegion, n: u32| call_requires(*copy_out, (r, n)),
        ensures
            final(self).wf(),
            ({
                let jobs = reaped(old(self).inflight@, render, lane);
                let n = done_prefix(jobs) as int;
                &&& polled_ok(old(self), *copy_out, render, lane, p.results@)
                &&& p.timings@ == timings(
                    old(self).inflight@,
                    render,
                    lane,
                    old(self).query_pool,
                )
                &&& final(self).query_free@ == old(self).query_free@ + pairs_of(p.timings@)
                &&& final(self).inflight@ == jobs.skip(n)
                &&& final(self).pending == old(self).pending - n
                &&& final(self).readback.loans@ == staging::remaining(
                    readback_stamped(old(self).readback.loans@, jobs, n),
                    render,
                    lane,
                )
                &&& final(self).input.ring.loans@ == staging::remaining(
                    inputs_stamped(old(self).input.ring.loans@, jobs, n),
                    render,
                    lane,
                )
            }),
            final(self).stash@.len() == 0,
            *final(self) == (ComputeRuntime {
                input: final(self).input,
                readback: final(self).readback,
                inflight: final(self).inflight,
                stash: final(self).stash,
                pending: final(self).pending,
                gpu_inflight: final(self).gpu_inflight,
                query_free: final(self).query_free,
                ..*old(self)
            }),
    {
        let ghost s0 = *self;
        let freed = self.reap(render, lane);
        let ghost s1 = *self;
        let ghost jobs = self.inflight@;
        let mut results: Vec<(JobId, Vec<u8>)> = Vec::new();
        while self.stash.len() > 0
            invariant
                *self == (ComputeRuntime { stash: self.stash, ..s1 }),
                s1.stash == s0.stash,
                results.len() + self.stash@.len() == s0.stash@.len(),
                forall|i: int| 0 <= i < results.len() ==> #[trigger] results[i] == s0.stash@[i],
                forall|i: int|
                    0 <= i < self.stash@.len() ==> #[trigger] self.stash@[i]
                        == s0.stash@[results.len() + i],
            decreases self.stash@.len(),
        {
            let ghost before = self.stash@;
            if let Some(e) = self.stash.pop_front() {
                proof {
                    assert(e == before[0]);
                }
                results.push(e);
            }
            proof {
                assert forall|i: int| 0 <= i < self.stash@.len() implies #[trigger] self.stash@[i]
                    == s0.stash@[results.len() + i] by {
                    assert(self.stash@[i] == before[i + 1]);
                }
            }
        }
        let ghost mut n: int = 0;
        let mut more: bool = self.inflight.len() > 0;
        if more {
            more = self.inflight[0].gpu_done;
        }
        proof {
            assert(jobs.skip(0) =~= jobs);
            assert(self.stash@ =~= Seq::empty());
            let a = order(s1.stash@, jobs, s1.queue@);
            assert forall|i: int, k: int| 0 <= i < k < order(self.stash@, jobs, self.queue@).len() implies #[trigger] order(
                self.stash@,
                jobs,
                self.queue@,
            )[i] < #[trigger] order(self.stash@, jobs, self.queue@)[k] by {
                assert(a[i + s1.stash@.len()] < a[k + s1.stash@.len()]);
            }
            assert forall|i: int| 0 <= i < order(self.stash@, jobs, self.queue@).len() implies (
            #[trigger] order(self.stash@, jobs, self.queue@)[i]) < self.next_id by {
                assert(a[i + s1.stash@.len()] < s1.next_id);
            }
        }
        while more
            invariant
                self.wf(),
                self.stash@.len() == 0,
                0 <= n <= jobs.len(),
                *self == (ComputeRuntime {
                    input: self.input,
                    readback: self.readback,
                    inflight: self.inflight,
                    stash: self.stash,
                    pending: self.pending,
                    ..s1
                }),
                s1.stash == s0.stash,
                s1.pending == s0.pending,
                s1.readback == s0.readback,
                s1.input == s0.input,
                forall|r: StagingRegion, m: u32| call_requires(*copy_out, (r, m)),
                self.inflight@ == jobs.skip(n),
                self.pending == s0.pending - n,
                results_ok(*copy_out, s0.stash@, jobs, n, results@),
                self.readback.loans@ == readback_stamped(s0.readback.loans@, jobs, n),
                self.input.ring.loans@ == inputs_stamped(s0.input.ring.loans@, jobs, n),
                more == (n < jobs.len() && jobs[n].gpu_done),
                done_prefix(jobs) == n + done_prefix(jobs.skip(n)),
            decreases jobs.len() - n,
        {
            let ghost before = *self;
            let job: InFlight = self.inflight.remove(0);
            proof {
                assert(job == jobs[n]);
                assert(self.inflight@ =~= jobs.skip(n + 1));
                assert(jobs.skip(n).drop_first() =~= jobs.skip(n + 1));
                lemma_running_first(before.inflight@);
                assert(before.inflight@.drop_first() =~= self.inflight@);
                lemma_pairs_skip(before.query_free@, before.inflight@);
                let a = order(before.stash@, before.inflight@, before.queue@);
                let b = order(self.stash@, self.inflight@, self.queue@);
                assert(b =~= a.drop_first());
                assert(ascending(b)) by {
                    assert forall|x: int, y: int| 0 <= x < y < b.len() implies #[trigger] b[x]
                        < #[trigger] b[y] by {
                        assert(a[x + 1] < a[y + 1]);
                    }
                }
                assert forall|x: int| 0 <= x < b.len() implies (#[trigger] b[x]) < self.next_id by {
                    assert(a[x + 1] < before.next_id);
                }
            }
            self.pending = self.pending - 1;
            let bytes = copy_out(job.output, job.output_bytes);
            let v: u64 = match job.value {
                Some(v) => v,
                None => 0,
            };
            let stamp = if job.on_compute_lane {
                Stamp::Transfer(v)
            } else {
                Stamp::Render(v)
            };
            self.readback.stamp(job.output, stamp);
            if let Some(r) = job.inputs[0] {
                self.input.ring.stamp(r, stamp);
            }
            if let Some(r) = job.inputs[1] {
                self.input.ring.stamp(r, stamp);
            }
            let ghost had = results@;
            results.push((job.id, bytes));
            proof {
                assert(results_ok(*copy_out, s0.stash@, jobs, n + 1, results@)) by {
                    assert forall|i: int| 0 <= i < s0.stash@.len() implies #[trigger] results@[i]
                        == s0.stash@[i] by {
                        assert(had[i] == s0.stash@[i]);
                    }
                    assert forall|i: int| s0.stash@.len() <= i < results@.len() implies (
                    #[trigger] results@[i]).0 == jobs[i - s0.stash@.len()].id && call_ensures(
                        *copy_out,
                        (
                            jobs[i - s0.stash@.len()].output,
                            jobs[i - s0.stash@.len()].output_bytes,
                        ),
                        results@[i].1,
                    ) by {
                        if i < had.len() {
                            assert(results@[i] == had[i]);
                        }
                    }
                }
                n = n + 1;
            }
            more = self.inflight.len() > 0;
            if more {
                proof {
                    assert(self.inflight@[0] == jobs[n]);
                }
                more = self.inflight[0].gpu_done;
            }
        }
        proof {
            assert(done_prefix(jobs.skip(n)) == 0) by {
                if jobs.skip(n).len() > 0 {
                    assert(jobs.skip(n)[0] == jobs[n]);
                }
            }
        }
        self.readback.reclaim(render, lane);
        self.input.ring.reclaim(render, lane);
        Polled { results, timings: freed }
    }

    /// The result of `id`, if it is ready; other results that are stay for the
    /// next poll, in order.
    #[verifier::rlimit(60)]
    pub fn take_completed<F: Fn(StagingRegion, u32) -> Vec<u8>>(
        &mut self,
        id: JobId,
        render: u64,
        lane: Option<u64>,
        copy_out: &F,
    ) -> (r: (Option<Vec<u8>>, Vec<(u32, ComputeKind)>))
        requires
            old(self).wf(),
            forall|r: StagingRegion, n: u32| call_requires(*copy_out, (r, n)),
        ensures
            final(self).wf(),
            exists|all: Seq<(JobId, Vec<u8>)>| #[trigger]
                polled_ok(old(self), *copy_out, render, lane, all) && final(self).stash@
                    == all.filter(|e: (JobId, Vec<u8>)| e.0 != id) && match r.0 {
                    Some(bytes) => all.contains((id, bytes)),
                    None => forall|i: int| 0 <= i < all.len() ==> (#[trigger] all[i]).0 != id,
                },
            final(self).inflight@ == reaped(old(self).inflight@, render, lane).skip(
                done_prefix(reaped(old(self).inflight@, render, lane)) as int,
            ),
            r.1@ == timings(old(self).inflight@, render, lane, old(self).query_pool),
            ({
                let jobs = reaped(old(self).inflight@, render, lane);
                let n = done_prefix(jobs) as int;
                &&& final(self).query_free@ == old(self).query_free@ + pairs_of(r.1@)
                &&& final(self).pending == old(self).pending - n
                &&& final(self).readback.loans@ == staging::remaining(
                    readback_stamped(old(self).readback.loans@, jobs, n),
                    render,
                    lane,
                )
                &&& final(self).input.ring.loans@ == staging::remaining(
                    inputs_stamped(old(self).input.ring.loans@, jobs, n),
                    render,
                    lane,
                )
            }),
            *final(self) == (ComputeRuntime {
                input: final(self).input,
                readback: final(self).readback,
                inflight: final(self).inflight,
                stash: final(self).stash,
                pending: final(self).pending,
                gpu_inflight: final(self).gpu_inflight,
                query_free: final(self).query_free,
                ..*old(self)
            }),
    {
        let ghost s0 = *self;
        let polled = self.poll(render, lane, copy_out);
        let ghost s1 = *self;
        let ghost all = polled.results@;
        let ghost jobs = reaped(s0.inflight@, render, lane);
        let ghost n = done_prefix(jobs) as int;
        let ghost p = |e: (JobId, Vec<u8>)| e.0 != id;
        proof {
            lemma_done_prefix(jobs);
            lemma_results_ascend(s0, *copy_out, render, lane, all);
        }
        let mut rest: Vec<(JobId, Vec<u8>)> = polled.results;
        // The first result leaves the list last, so the list is turned round.
        let mut turned: Vec<(JobId, Vec<u8>)> = Vec::new();
        proof {
            assert(all.take(all.len() as int) =~= all);
        }
        while rest.len() > 0
            invariant
                rest.len() + turned.len() == all.len(),
                rest@ == all.take(rest.len() as int),
                forall|i: int|
                    0 <= i < turned.len() ==> turned[i] == #[trigger] all[all.len() - 1 - i],
            decreases rest.len(),
        {
            if let Some(e) = rest.pop() {
                turned.push(e);
            }
            proof {
                assert(rest@ =~= all.take(rest.len() as int));
            }
        }
        let mut found: Option<Vec<u8>> = None;
        let ghost mut k: int = 0;
        proof {
            assert(all.take(0) =~= Seq::empty());
            assert(all.take(0).filter(p) =~= Seq::empty()) by {
                reveal(Seq::filter);
            }
        }
        while turned.len() > 0
            invariant
                turned.len() + k == all.len(),
                0 <= k,
                p == (|e: (JobId, Vec<u8>)| e.0 != id),
                forall|i: int|
                    0 <= i < turned.len() ==> turned[i] == #[trigger] all[all.len() - 1 - i],
                *self == (ComputeRuntime { stash: self.stash, ..s1 }),
                self.stash@ == all.take(k).filter(p),
                match found {
                    Some(bytes) => all.contains((id, bytes)),
                    None => forall|i: int| 0 <= i < k ==> (#[trigger] all[i]).0 != id,
                },
            decreases turned.len(),
        {
            proof {
                assert(turned[turned.len() - 1] == all[all.len() - 1 - (turned.len() - 1)]);
                assert(all.take(k + 1).drop_last() =~= all.take(k));
                assert(all.take(k + 1).last() == all[k]);
                reveal(Seq::filter);
            }
            if let Some((jid, bytes)) = turned.pop() {
                proof {
                    assert((jid, bytes) == all[k]);
                }
                if jid == id {
                    proof {
                        assert(all.contains((id, bytes)));
                    }
                    found = Some(bytes);
                } else {
                    self.stash.push_back((jid, bytes));
                }
            }
            proof {
                k = k + 1;
            }
        }
        proof {
            assert(all.take(k) =~= all);
            assert(polled_ok(&s0, *copy_out, render, lane, all));
            lemma_stash_order(s1, all, id, *self);
        }
        (found, polled.timings)
    }
}

/// The first job is gone.
proof fn lemma_pairs_skip(free: Seq<u32>, jobs: Seq<InFlight>)
    requires
        pairs_apart(free, jobs),
        jobs.len() > 0,
    ensures
        pairs_apart(free, jobs.drop_first()),
{
    let now = jobs.drop_first();
    assert forall|a: int, b: int|
        0 <= a < free.len() && 0 <= b < now.len() implies Some(#[trigger] free[a]) != (
    #[trigger] now[b]).timestamp_pair by {
        assert(now[b] == jobs[b + 1]);
    }
    assert forall|a: int, b: int|
        0 <= a < b < now.len() && (#[trigger] now[a]).timestamp_pair is Some implies now[a].timestamp_pair
        != (#[trigger] now[b]).timestamp_pair by {
        assert(now[a] == jobs[a + 1]);
        assert(now[b] == jobs[b + 1]);
    }
    assert forall|b: int| 0 <= b < now.len() implies ((#[trigger] now[b]).timestamp_pair matches Some(
        p,
    ) ==> p < 0x4000_0000) by {
        assert(now[b] == jobs[b + 1]);
    }
}

/// Results come in the order of submission, before everything still in flight or
/// queued.
proof fn lemma_results_ascend<F: Fn(StagingRegion, u32) -> Vec<u8>>(
    rt: ComputeRuntime,
    copy_out: F,
    render: u64,
    lane: Option<u64>,
    all: Seq<(JobId, Vec<u8>)>,
)
    requires
        rt.wf(),
        polled_ok(&rt, copy_out, render, lane, all),
    ensures
        ({
            let jobs = reaped(rt.inflight@, render, lane);
            let n = done_prefix(jobs) as int;
            let ids = order(all, jobs.skip(n), rt.queue@);
            &&& ascending(ids)
            &&& forall|i: int| 0 <= i < ids.len() ==> (#[trigger] ids[i]) < rt.next_id
        }),
{
    let jobs = reaped(rt.inflight@, render, lane);
    let n = done_prefix(jobs) as int;
    lemma_done_prefix(jobs);
    let ids = order(all, jobs.skip(n), rt.queue@);
    let a = order(rt.stash@, rt.inflight@, rt.queue@);
    assert forall|i: int| 0 <= i < ids.len() implies ids[i] == a[i] by {
        if i < all.len() {
            if i < rt.stash@.len() {
                assert(all[i] == rt.stash@[i]);
            } else {
                assert(all[i].0 == jobs[i - rt.stash@.len()].id);
            }
        } else if i < all.len() + jobs.len() - n {
            assert(jobs.skip(n)[i - all.len()] == jobs[i - rt.stash@.len()]);
        }
    }
    assert(ids =~= a);
}

/// Leaving one result out keeps the order.
proof fn lemma_stash_order(
    before: ComputeRuntime,
    all: Seq<(JobId, Vec<u8>)>,
    id: JobId,
    after: ComputeRuntime,
)
    requires
        before.wf(),
        after == (ComputeRuntime { stash: after.stash, ..before }),
        after.stash@ == all.filter(|e: (JobId, Vec<u8>)| e.0 != id),
        ascending(order(all, before.inflight@, before.queue@)),
        forall|i: int|
            0 <= i < order(all, before.inflight@, before.queue@).len() ==> (#[trigger] order(
                all,
                before.inflight@,
                before.queue@,
            )[i]) < before.next_id,
    ensures
        after.wf(),
{
    let p = |e: (JobId, Vec<u8>)| e.0 != id;
    let kept = all.filter(p);
    let a = order(all, before.inflight@, before.queue@);
    let b = order(kept, before.inflight@, before.queue@);
    lemma_filter_positions(all, p);
    let pos = choose|pos: Seq<int>| #[trigger] keeps_order(all, kept, pos);
    let from = |i: int|
        if i < kept.len() {
            pos[i]
        } else {
            i - kept.len() + all.len()
        };
    assert forall|i: int| 0 <= i < b.len() implies b[i] == a[from(i)] && 0 <= from(i) < a.len() by {
        if i < kept.len() {
            assert(kept[i] == all[pos[i]]);
        }
    }
    assert forall|i: int, j: int| 0 <= i < j < b.len() implies #[trigger] b[i] < #[trigger] b[j] by {
        assert(from(i) < from(j)) by {
            if j < kept.len() {
                assert(pos[i] < pos[j]);
            }
        }
        assert(a[from(i)] < a[from(j)]);
    }
    assert forall|i: int| 0 <= i < b.len() implies (#[trigger] b[i]) < before.next_id by {
        assert(a[from(i)] < before.next_id);
    }
}

/// `kept` are the elements of `all` at the ascending positions `pos`.
spec fn keeps_order<T>(all: Seq<T>, kept: Seq<T>, pos: Seq<int>) -> bool {
    &&& pos.len() == kept.len()
    &&& forall|i: int|
        0 <= i < kept.len() ==> 0 <= #[trigger] pos[i] < all.len() && kept[i] == all[pos[i]]
    &&& forall|i: int, j: int| 0 <= i < j < pos.len() ==> #[trigger] pos[i] < #[trigger] pos[j]
}

proof fn lemma_filter_positions<T>(all: Seq<T>, p: spec_fn(T) -> bool)
    ensures
        exists|pos: Seq<int>| #[trigger] keeps_order(all, all.filter(p), pos),
    decreases all.len(),
{
    reveal(Seq::filter);
    if all.len() == 0 {
        assert(keeps_order(all, all.filter(p), Seq::<int>::empty()));
    } else {
        let init = all.drop_last();
        lemma_filter_positions(init, p);
        let pos = choose|pos: Seq<int>| #[trigger] keeps_order(init, init.filter(p), pos);
        if p(all.last()) {
            let more = pos.push(all.len() - 1);
            assert(all.filter(p) =~= init.filter(p).push(all.last()));
            assert(keeps_order(all, all.filter(p), more)) by {
                assert forall|i: int| 0 <= i < all.filter(p).len() implies 0
                    <= #[trigger] more[i] < all.len() && all.filter(p)[i] == all[more[i]] by {
                    if i < pos.len() {
                        assert(more[i] == pos[i]);
                        assert(0 <= pos[i] < init.len());
                    }
                }
                assert forall|i: int, j: int| 0 <= i < j < more.len() implies #[trigger] more[i]
                    < #[trigger] more[j] by {
                    if j < pos.len() {
                        assert(pos[i] < pos[j]);
                    } else {
                        assert(0 <= pos[i] < init.len());
                    }
                }
            }
        } else {
            assert(all.filter(p) == init.filter(p));
            assert(keeps_order(all, all.filter(p), pos)) by {
                assert forall|i: int| 0 <= i < all.filter(p).len() implies 0
                    <= #[trigger] pos[i] < all.len() && all.filter(p)[i] == all[pos[i]] by {
                    assert(0 <= pos[i] < init.len());
                }
            }
        }
    }
}

/// The record of a job that has left the queue.
pub open spec fn launched(
    j: QueuedJob,
    value: Option<TimelineValue>,
    on_lane: bool,
    pair: Option<u32>,
) -> InFlight {
    InFlight {
        id: j.id,
        kind: j.kind,
        value,
        on_compute_lane: on_lane,
        gpu_done: false,
        output: j.output,
        output_bytes: j.output_bytes,
        inputs: j.inputs,
        timestamp_pair: pair,
    }
}

/// The pair for the `k`-th of several jobs.
pub open spec fn pair_for(free: Seq<u32>, k: int) -> Option<u32> {
    if k < free.len() {
        Some(free[free.len() - 1 - k])
    } else {
        None
    }
}

/// The pairs left after `k` jobs.
pub open spec fn free_after(free: Seq<u32>, k: int) -> Seq<u32> {
    if k < free.len() {
        free.take(free.len() - k)
    } else {
        Seq::empty()
    }
}

/// Everything recorded for the first `n` jobs, with or without timestamps.
pub open spec fn jobs_cmds(
    rt: &ComputeRuntime,
    jobs: Seq<QueuedJob>,
    free: Seq<u32>,
    timed: bool,
    n: int,
) -> Seq<Cmd>
    decreases n,
{
    if n <= 0 {
        Seq::empty()
    } else {
        jobs_cmds(rt, jobs, free, timed, n - 1) + job_cmds(
            rt,
            jobs[n - 1],
            if timed {
                pair_for(free, n - 1)
            } else {
                None
            },
        )
    }
}

/// The jobs in flight once the first `n` queued ones are recorded.
pub open spec fn after_launch(
    inflight: Seq<InFlight>,
    jobs: Seq<QueuedJob>,
    free: Seq<u32>,
    timed: bool,
    value: Option<TimelineValue>,
    on_lane: bool,
    n: int,
) -> Seq<InFlight> {
    inflight + Seq::new(
        n as nat,
        |k: int|
            launched(
                jobs[k],
                value,
                on_lane,
                if timed {
                    pair_for(free, k)
                } else {
                    None
                },
            ),
    )
}

/// Estimated costs of the queued jobs.
pub open spec fn queue_costs(rt: &ComputeRuntime) -> Seq<u32> {
    Seq::new(rt.queue@.len(), |i: int| rt.kinds@[rt.queue@[i].kind.0 as int].estimate_us)
}

/// The first queued job has been recorded: it is in flight.
proof fn lemma_launch(before: ComputeRuntime, after: ComputeRuntime, j: InFlight)
    requires
        before.wf(),
        before.queue@.len() > 0,
        before.query_free@.len() > 0 || j.timestamp_pair is None,
        j == launched(
            before.queue@[0],
            j.value,
            j.on_compute_lane,
            j.timestamp_pair,
        ),
        j.timestamp_pair is Some ==> j.timestamp_pair == Some(before.query_free@.last())
            && after.query_free@ == before.query_free@.drop_last(),
        j.timestamp_pair is None ==> after.query_free@ == before.query_free@,
        after.queue@ == before.queue@.drop_first(),
        after.inflight@ == before.inflight@.push(j),
        after.gpu_inflight == before.gpu_inflight + 1,
        after == (ComputeRuntime {
            queue: after.queue,
            inflight: after.inflight,
            gpu_inflight: after.gpu_inflight,
            query_free: after.query_free,
            ..before
        }),
    ensures
        after.wf(),
{
    lemma_running_push(before.inflight@, j);
    let a = order(before.stash@, before.inflight@, before.queue@);
    let b = order(after.stash@, after.inflight@, after.queue@);
    assert(a =~= b);
    assert forall|i: int| 0 <= i < after.queue@.len() implies job_fits(
        after.kinds@,
        #[trigger] after.queue@[i],
    ) by {
        assert(job_fits(before.kinds@, before.queue@[i + 1]));
    }
    let free = before.query_free@;
    let jobs = before.inflight@;
    let now = after.inflight@;
    let left = after.query_free@;
    assert forall|x: int, y: int|
        0 <= x < left.len() && 0 <= y < now.len() implies Some(#[trigger] left[x]) != (
    #[trigger] now[y]).timestamp_pair by {
        assert(left[x] == free[x]);
        if y < jobs.len() {
            assert(now[y] == jobs[y]);
        } else if j.timestamp_pair is Some {
            assert(free[x] != free[free.len() - 1]);
        }
    }
    assert forall|x: int, y: int|
        0 <= x < y < now.len() && (#[trigger] now[x]).timestamp_pair is Some implies now[x].timestamp_pair
        != (#[trigger] now[y]).timestamp_pair by {
        assert(now[x] == jobs[x]);
        if y < jobs.len() {
            assert(now[y] == jobs[y]);
        } else if j.timestamp_pair is Some {
            assert(Some(free[free.len() - 1]) != jobs[x].timestamp_pair);
        }
    }
    assert forall|y: int| 0 <= y < now.len() implies ((#[trigger] now[y]).timestamp_pair matches Some(
        p,
    ) ==> p < 0x4000_0000) by {
        if y < jobs.len() {
            assert(now[y] == jobs[y]);
        } else if j.timestamp_pair is Some {
            assert(free[free.len() - 1] < 0x4000_0000);
        }
    }
    assert forall|x: int, y: int| 0 <= x < y < left.len() implies #[trigger] left[x]
        != #[trigger] left[y] by {
        assert(free[x] != free[y]);
    }
    assert forall|x: int| 0 <= x < left.len() implies (#[trigger] left[x]) < 0x4000_0000 by {
        assert(free[x] < 0x4000_0000);
    }
}

impl ComputeRuntime {
    /// Records the first queued job and puts it in flight.
    fn launch(
        &mut self,
        timed: bool,
        value: Option<TimelineValue>,
        on_lane: bool,
    ) -> (r: (JobId, Vec<Cmd>))
        requires
            old(self).wf(),
            old(self).queue@.len() > 0,
        ensures
            final(self).wf(),
            ({
                let j = old(self).queue@[0];
                let pair = if timed {
                    pair_for(old(self).query_free@, 0)
                } else {
                    None
                };
                &&& r.0 == j.id
                &&& r.1@ == job_cmds(old(self), j, pair)
                &&& final(self).queue@ == old(self).queue@.drop_first()
                &&& final(self).inflight@ == old(self).inflight@.push(
                    launched(j, value, on_lane, pair),
                )
                &&& final(self).query_free@ == if timed {
                    free_after(old(self).query_free@, 1)
                } else {
                    old(self).query_free@
                }
            }),
            *final(self) == (ComputeRuntime {
                queue: final(self).queue,
                inflight: final(self).inflight,
                gpu_inflight: final(self).gpu_inflight,
                query_free: final(self).query_free,
                ..*old(self)
            }),
    {
        let ghost s0 = *self;
        proof {
            assert(job_fits(self.kinds@, self.queue@[0]));
            if self.query_free@.len() > 0 {
                assert(self.query_free@[self.query_free@.len() - 1] < 0x4000_0000);
            }
            if self.inflight@.len() > 0 {
                lemma_running_first(self.inflight@);
            }
        }
        let spare: usize = self.query_free.len();
        let pair: Option<u32> = if timed && spare > 0 {
            Some(self.query_free[spare - 1])
        } else {
            None
        };
        let cmds = self.record_one(&self.queue[0], pair);
        if timed && spare > 0 {
            let _ = self.query_free.pop();
        }
        let job = self.queue.pop_front().unwrap();
        let id = job.id;
        self.inflight.push(
            InFlight {
                id: job.id,
                kind: job.kind,
                value,
                on_compute_lane: on_lane,
                gpu_done: false,
                output: job.output,
                output_bytes: job.output_bytes,
                inputs: job.inputs,
                timestamp_pair: pair,
            },
        );
        self.gpu_inflight = self.gpu_inflight + 1;
        proof {
            assert(self.queue@ =~= s0.queue@.drop_first());
            if timed {
                assert(self.query_free@ =~= free_after(s0.query_free@, 1));
            }
            if pair is Some {
                assert(self.query_free@ =~= s0.query_free@.drop_last());
            }
            lemma_launch(s0, *self, self.inflight@.last());
        }
        (id, cmds)
    }

    /// The next job for a queue of its own: recorded, in flight, and to be
    /// submitted. `None` while enough jobs are in flight or none waits.
    pub fn launch_async(&mut self) -> (r: Option<(JobId, Vec<Cmd>)>)
        requires
            old(self).wf(),
        ensures
            final(self).wf(),
            r is None <==> old(self).gpu_inflight >= MAX_IN_FLIGHT || old(self).queue@.len() == 0,
            match r {
                None => *final(self) == *old(self),
                Some((id, cmds)) => {
                    let j = old(self).queue@[0];
                    let pair = pair_for(old(self).query_free@, 0);
                    &&& id == j.id
                    &&& cmds@ == job_cmds(old(self), j, pair)
                    &&& final(self).queue@ == old(self).queue@.drop_first()
                    &&& final(self).inflight@ == old(self).inflight@.push(
                        launched(j, None, true, pair),
                    )
                    &&& final(self).query_free@ == free_after(old(self).query_free@, 1)
                    &&& final(self).gpu_inflight == old(self).gpu_inflight + 1
                },
            },
            *final(self) == (ComputeRuntime {
                queue: final(self).queue,
                inflight: final(self).inflight,
                gpu_inflight: final(self).gpu_inflight,
                query_free: final(self).query_free,
                ..*old(self)
            }),
    {
        let ghost s0 = *self;
        if self.gpu_inflight >= MAX_IN_FLIGHT || self.queue.len() == 0 {
            return None;
        }
        let r = self.launch(true, None, true);
        proof {
            lemma_running_push(s0.inflight@, self.inflight@.last());
        }
        Some(r)
    }

    /// Takes note that the job was submitted and signals `value`.
    pub fn note_submitted(&mut self, id: JobId, value: TimelineValue)
        requires
            old(self).wf(),
        ensures
            final(self).wf(),
            final(self).inflight@ == Seq::new(
                old(self).inflight@.len(),
                |i: int|
                    if old(self).inflight@[i].id == id {
                        InFlight { value: Some(value), ..old(self).inflight@[i] }
                    } else {
                        old(self).inflight@[i]
                    },
            ),
            *final(self) == (ComputeRuntime { inflight: final(self).inflight, ..*old(self) }),
    {
        let ghost s0 = *self;
        let mut i: usize = 0;
        while i < self.inflight.len()
            invariant
                s0.wf(),
                i <= self.inflight.len(),
                self.inflight.len() == s0.inflight.len(),
                *self == (ComputeRuntime { inflight: self.inflight, ..s0 }),
                running(self.inflight@) == running(s0.inflight@),
                forall|k: int|
                    0 <= k < self.inflight.len() ==> #[trigger] self.inflight[k] == if k < i
                        && s0.inflight[k].id == id {
                        InFlight { value: Some(value), ..s0.inflight[k] }
                    } else {
                        s0.inflight[k]
                    },
            decreases self.inflight.len() - i,
        {
            let j: InFlight = self.inflight[i];
            if j.id == id {
                let now = InFlight { value: Some(value), ..j };
                proof {
                    lemma_running_update(self.inflight@, i as int, now);
                }
                self.inflight.set(i, now);
            }
            i = i + 1;
        }
        proof {
            let a = order(s0.stash@, s0.inflight@, s0.queue@);
            let b = order(self.stash@, self.inflight@, self.queue@);
            assert(a =~= b);
            assert(pairs_apart(self.query_free@, self.inflight@)) by {
                assert forall|x: int| 0 <= x < self.inflight.len() implies (
                #[trigger] self.inflight@[x]).timestamp_pair == s0.inflight@[x].timestamp_pair by {
                    assert(self.inflight[x] == self.inflight@[x]);
                }
                assert forall|x: int, y: int|
                    0 <= x < self.query_free.len() && 0 <= y < self.inflight.len() implies Some(
                    #[trigger] self.query_free@[x],
                ) != (#[trigger] self.inflight@[y]).timestamp_pair by {
                    assert(Some(s0.query_free@[x]) != s0.inflight@[y].timestamp_pair);
                }
                assert forall|x: int, y: int|
                    0 <= x < y < self.inflight.len() && (
                    #[trigger] self.inflight@[x]).timestamp_pair is Some implies self.inflight@[x].timestamp_pair
                    != (#[trigger] self.inflight@[y]).timestamp_pair by {
                    assert(s0.inflight@[x].timestamp_pair != s0.inflight@[y].timestamp_pair);
                }
                assert forall|y: int| 0 <= y < self.inflight.len() implies ((
                #[trigger] self.inflight@[y]).timestamp_pair matches Some(p) ==> p < 0x4000_0000) by {
                    assert(s0.inflight@[y].timestamp_pair matches Some(p) ==> p < 0x4000_0000);
                }
            }
        }
    }

    /// Records the first `n` queued jobs, done at `value` of the render timeline.
    fn record_many(&mut self, n: usize, timed: bool, value: TimelineValue) -> (cmds: Vec<Cmd>)
        requires
            old(self).wf(),
            n <= old(self).queue@.len(),
        ensures
            final(self).wf(),
            cmds@ == jobs_cmds(old(self), old(self).queue@, old(self).query_free@, timed, n as int),
            final(self).queue@ == old(self).queue@.skip(n as int),
            final(self).inflight@ == after_launch(
                old(self).inflight@,
                old(self).queue@,
                old(self).query_free@,
                timed,
                Some(value),
                false,
                n as int,
            ),
            final(self).query_free@ == if timed {
                free_after(old(self).query_free@, n as int)
            } else {
                old(self).query_free@
            },
            *final(self) == (ComputeRuntime {
                queue: final(self).queue,
                inflight: final(self).inflight,
                gpu_inflight: final(self).gpu_inflight,
                query_free: final(self).query_free,
                ..*old(self)
            }),
    {
        let ghost s0 = *self;
        let mut cmds: Vec<Cmd> = Vec::new();
        let mut k: usize = 0;
        proof {
            assert(s0.queue@.skip(0) =~= s0.queue@);
            assert(after_launch(
                s0.inflight@,
                s0.queue@,
                s0.query_free@,
                timed,
                Some(value),
                false,
                0,
            ) =~= s0.inflight@);
            assert(free_after(s0.query_free@, 0) =~= s0.query_free@);
        }
        while k < n
            invariant
                self.wf(),
                k <= n <= s0.queue@.len(),
                cmds@ == jobs_cmds(&s0, s0.queue@, s0.query_free@, timed, k as int),
                self.queue@ == s0.queue@.skip(k as int),
                self.inflight@ == after_launch(
                    s0.inflight@,
                    s0.queue@,
                    s0.query_free@,
                    timed,
                    Some(value),
                    false,
                    k as int,
                ),
                self.query_free@ == if timed {
                    free_after(s0.query_free@, k as int)
                } else {
                    s0.query_free@
                },
                *self == (ComputeRuntime {
                    queue: self.queue,
                    inflight: self.inflight,
                    gpu_inflight: self.gpu_inflight,
                    query_free: self.query_free,
                    ..s0
                }),
            decreases n - k,
        {
            let ghost before = *self;
            let (_id, mut more) = self.launch(timed, Some(value), false);
            proof {
                assert(before.queue@[0] == s0.queue@[k as int]);
                if timed {
                    assert(pair_for(before.query_free@, 0) == pair_for(s0.query_free@, k as int));
                }
                let pair = if timed {
                    pair_for(s0.query_free@, k as int)
                } else {
                    None
                };
                assert(job_cmds(&before, s0.queue@[k as int], pair) == job_cmds(
                    &s0,
                    s0.queue@[k as int],
                    pair,
                ));
                assert(self.queue@ =~= s0.queue@.skip(k + 1));
                assert(self.inflight@ =~= after_launch(
                    s0.inflight@,
                    s0.queue@,
                    s0.query_free@,
                    timed,
                    Some(value),
                    false,
                    k + 1,
                ));
                if timed {
                    assert(self.query_free@ =~= free_after(s0.query_free@, k + 1));
                }
            }
            cmds.append(&mut more);
            k = k + 1;
        }
        cmds
    }

    /// On the frame's own queue: records as many of the waiting jobs as fit the
    /// frame's budget, done with the frame. Nothing while none waits.
    pub fn record_budgeted(&mut self, render_value: TimelineValue) -> (cmds: Vec<Cmd>)
        requires
            old(self).wf(),
        ensures
            final(self).wf(),
            exists|n: int|
                within_frame(old(self), n) && cmds@ == #[trigger] jobs_cmds(
                    old(self),
                    old(self).queue@,
                    old(self).query_free@,
                    true,
                    n,
                ) && final(self).queue@ == old(self).queue@.skip(n) && final(self).inflight@
                    == after_launch(
                    old(self).inflight@,
                    old(self).queue@,
                    old(self).query_free@,
                    true,
                    Some(render_value),
                    false,
                    n,
                ) && final(self).query_free@ == free_after(old(self).query_free@, n),
            *final(self) == (ComputeRuntime {
                queue: final(self).queue,
                inflight: final(self).inflight,
                gpu_inflight: final(self).gpu_inflight,
                query_free: final(self).query_free,
                ..*old(self)
            }),
    {
        let ghost s0 = *self;
        let mut costs: Vec<u32> = Vec::new();
        let mut i: usize = 0;
        while i < self.queue.len()
            invariant
                *self == s0,
                s0.wf(),
                i <= self.queue@.len(),
                costs@ == queue_costs(&s0).take(i as int),
            decreases self.queue@.len() - i,
        {
            proof {
                assert(job_fits(self.kinds@, self.queue@[i as int]));
            }
            let k: usize = self.queue[i].kind.0 as usize;
            costs.push(self.kinds[k].estimate_us);
            i = i + 1;
            proof {
                assert(costs@ =~= queue_costs(&s0).take(i as int));
            }
        }
        proof {
            assert(queue_costs(&s0).take(i as int) =~= queue_costs(&s0));
        }
        let n: usize = compute::jobs_fitting_budget(FALLBACK_FRAME_BUDGET_US, costs.as_slice());
        let cmds = self.record_many(n, true, render_value);
        proof {
            assert(within_frame(&s0, n as int));
            assert(cmds@ == jobs_cmds(&s0, s0.queue@, s0.query_free@, true, n as int));
        }
        cmds
    }

    /// Records every waiting job, without timestamps.
    pub fn record_all(&mut self, render_value: TimelineValue) -> (cmds: Vec<Cmd>)
        requires
            old(self).wf(),
        ensures
            final(self).wf(),
            cmds@ == jobs_cmds(
                old(self),
                old(self).queue@,
                old(self).query_free@,
                false,
                old(self).queue@.len() as int,
            ),
            final(self).queue@.len() == 0,
            final(self).inflight@ == after_launch(
                old(self).inflight@,
                old(self).queue@,
                old(self).query_free@,
                false,
                Some(render_value),
                false,
                old(self).queue@.len() as int,
            ),
            final(self).query_free@ == old(self).query_free@,
            *final(self) == (ComputeRuntime {
                queue: final(self).queue,
                inflight: final(self).inflight,
                gpu_inflight: final(self).gpu_inflight,
                query_free: final(self).query_free,
                ..*old(self)
            }),
    {
        let n: usize = self.queue.len();
        self.record_many(n, false, render_value)
    }
}

/// `n` is how many of the queued jobs the frame's budget takes.
pub open spec fn within_frame(rt: &ComputeRuntime, n: int) -> bool {
    let costs = queue_costs(rt);
    &&& 0 <= n <= costs.len()
    &&& (n == 0) == (costs.len() == 0)
    &&& n > 1 ==> compute::total_cost(costs, n) <= FALLBACK_FRAME_BUDGET_US
    &&& 0 < n < costs.len() ==> compute::total_cost(costs, n + 1) > FALLBACK_FRAME_BUDGET_US
}

/// The frame's budget takes one number of jobs.
pub proof fn law_frame_budget_is_exact(rt: &ComputeRuntime, m: int, n: int)
    requires
        within_frame(rt, m),
        within_frame(rt, n),
    ensures
        m == n,
{
    let costs = queue_costs(rt);
    if m < n {
        compute::lemma_total_cost_grows(costs, m + 1, n);
    }
    if n < m {
        compute::lemma_total_cost_grows(costs, n + 1, m);
    }
}

/// Results are handed out in the order in which their jobs were submitted, and
/// before every job that is still in flight or queued.
pub proof fn law_results_come_in_submission_order<F: Fn(StagingRegion, u32) -> Vec<u8>>(
    rt: ComputeRuntime,
    copy_out: F,
    render: u64,
    lane: Option<u64>,
    all: Seq<(JobId, Vec<u8>)>,
    i: int,
    j: int,
)
    requires
        rt.wf(),
        polled_ok(&rt, copy_out, render, lane, all),
        0 <= i < j < all.len(),
    ensures
        all[i].0.0 < all[j].0.0 < rt.next_id,
        forall|k: int| 0 <= k < rt.queue@.len() ==> all[j].0.0 < (#[trigger] rt.queue@[k]).id.0,
{
    lemma_results_ascend(rt, copy_out, render, lane, all);
    let jobs = reaped(rt.inflight@, render, lane);
    let n = done_prefix(jobs) as int;
    lemma_done_prefix(jobs);
    let ids = order(all, jobs.skip(n), rt.queue@);
    assert(ids[i] == all[i].0.0 && ids[j] == all[j].0.0);
    assert(ids[i] < ids[j]);
    assert(ids[j] < rt.next_id);
    assert forall|k: int| 0 <= k < rt.queue@.len() implies all[j].0.0 < (#[trigger] rt.queue@[k]).id.0 by {
        let at = all.len() + jobs.skip(n).len() + k;
        assert(ids[at] == rt.queue@[k].id.0);
        assert(ids[j] < ids[at]);
    }
}

/// No two jobs in flight write the same pair of timestamps.
pub proof fn law_query_pairs_are_exclusive(rt: &ComputeRuntime, i: int, j: int)
    requires
        rt.wf(),
        0 <= i < j < rt.inflight.len(),
        rt.inflight[i].timestamp_pair is Some,
    ensures
        rt.inflight[i].timestamp_pair != rt.inflight[j].timestamp_pair,
{
}

/// `d` is the dispatch of `job`: the pipeline of its kind, its three counts of groups on
/// the three axes, its push constants, its inputs at the first bindings and its output
/// behind them.
pub open spec fn dispatches(rt: &ComputeRuntime, job: QueuedJob, d: Dispatched) -> bool {
    let k = rt.kinds[job.kind.0 as int];
    &&& d.pipeline == k.pipeline
    &&& d.x == job.dispatch@[0]
    &&& d.y == job.dispatch@[1]
    &&& d.z == job.dispatch@[2]
    &&& job.push.len() > 0 ==> d.push_bytes == job.push@
    &&& k.inputs >= 1 ==> (d.bindings[0] matches Binding::StorageBuffer { buffer, offset, range }
        && buffer == rt.input_buffer && offset == job.inputs@[0]->Some_0.offset && range >= 1
        && range >= job.inputs@[0]->Some_0.len && range <= job.inputs@[0]->Some_0.len + 1)
    &&& k.inputs >= 2 ==> (d.bindings[1] matches Binding::StorageBuffer { buffer, offset, range }
        && buffer == rt.input_buffer && offset == job.inputs@[1]->Some_0.offset && range >= 1
        && range >= job.inputs@[1]->Some_0.len && range <= job.inputs@[1]->Some_0.len + 1)
    &&& d.bindings[k.inputs] matches Binding::StorageBuffer { buffer, offset, range } && offset
        == job.output.offset && range >= 1 && range >= job.output.len && range <= job.output.len
        + 1 && (rt.direct ==> buffer == rt.readback_buffer) && (!rt.direct && rt.scratch is Some
        ==> buffer == rt.scratch->Some_0) && (!rt.direct && rt.scratch is None ==> buffer
        == rt.readback_buffer)
}

proof fn lemma_job_set(
    rt: &ComputeRuntime,
    job: QueuedJob,
    g: Gpu,
    staging: Seq<u8>,
)
    requires
        job.kind.0 < rt.kinds.len(),
        kind_ok(rt.kinds[job.kind.0 as int]),
        g.staged_bindings.dom().is_empty(),
    ensures
        ({
            let k = rt.kinds[job.kind.0 as int];
            let after = playback::play(g, binding_cmds(rt, k, job), staging);
            &&& after == (Gpu {
                bindings: after.bindings,
                staged_bindings: after.staged_bindings,
                ..g
            })
            &&& after.staged_bindings.dom().is_empty()
            &&& after.bindings[k.inputs] == region_binding(output_buffer(rt), job.output)
            &&& k.inputs >= 1 ==> after.bindings[0] == region_binding(
                rt.input_buffer,
                job.inputs@[0]->Some_0,
            )
            &&& k.inputs >= 2 ==> after.bindings[1] == region_binding(
                rt.input_buffer,
                job.inputs@[1]->Some_0,
            )
        }),
{
    reveal_with_fuel(playback::upto, 5);
}

proof fn lemma_job_push(push: Seq<u8>, layout: u64, g: Gpu, staging: Seq<u8>)
    requires
        g.staged_words.len() == 0,
        g.staged_bytes.len() == 0,
    ensures
        ({
            let after = playback::play(g, push_cmds(push, layout), staging);
            &&& after == (Gpu {
                push_bytes: after.push_bytes,
                push_words: after.push_words,
                staged_bytes: Seq::empty(),
                staged_words: Seq::empty(),
                ..g
            })
            &&& push.len() > 0 ==> after.push_bytes == push
        }),
{
    assert(g.staged_bytes =~= Seq::empty());
    assert(g.staged_words =~= Seq::empty());
    if push.len() > 0 {
        let listed = Seq::new(push.len(), |i: int| Cmd::PushByte(push[i]));
        playback::lemma_play_push(g, listed, Cmd::PushConstants { layout }, staging);
        playback::lemma_play_push_bytes(g, push, staging);
        assert(g.staged_bytes + push =~= push);
    }
}

proof fn lemma_job_readback(rt: &ComputeRuntime, job: QueuedJob, g: Gpu, staging: Seq<u8>)
    requires
        g.regions.len() == 0,
    ensures
        ({
            let after = playback::play(g, readback_cmds(rt, job), staging);
            let copies = !rt.direct && rt.scratch is Some;
            &&& after == (Gpu { memory: after.memory, regions: Seq::empty(), ..g })
            &&& forall|b: u64, p: int| #[trigger]
                (after.memory)(b, p) == if copies && b == rt.readback_buffer && job.output.offset
                    <= p < job.output.offset + job.output_bytes {
                    (g.memory)(rt.scratch->Some_0, p)
                } else {
                    (g.memory)(b, p)
                }
        }),
{
    assert(g.regions =~= Seq::empty());
    let after = playback::play(g, readback_cmds(rt, job), staging);
    reveal_with_fuel(playback::upto, 7);
    if !rt.direct && rt.scratch is Some {
        let r = BufferRegion {
            src_offset: job.output.offset,
            dst_offset: job.output.offset,
            size: job.output_bytes as u64,
        };
        assert(g.regions.push(r) =~= seq![r]);
        assert(after.memory == playback::copied(
            g.memory,
            rt.scratch->Some_0,
            rt.readback_buffer,
            seq![r],
        ));
        assert forall|b: u64, p: int| #[trigger]
            (after.memory)(b, p) == if b == rt.readback_buffer && job.output.offset <= p
                < job.output.offset + job.output_bytes {
                (g.memory)(rt.scratch->Some_0, p)
            } else {
                (g.memory)(b, p)
            } by {
            playback::lemma_copied_one(
                g.memory,
                rt.scratch->Some_0,
                rt.readback_buffer,
                r,
                b,
                p,
            );
        }
    }
}

/// What is recorded for a job of a registered kind runs it: exactly one dispatch, with the
/// job's own pipeline, counts, push constants, inputs and output. What the shader leaves
/// at the job's output is what the host finds there, and apart from the shader nothing
/// else is written.
pub proof fn law_a_job_is_dispatched_once(
    rt: &ComputeRuntime,
    job: QueuedJob,
    pair: Option<u32>,
    g: Gpu,
    staging: Seq<u8>,
)
    requires
        job.kind.0 < rt.kinds.len(),
        kind_ok(rt.kinds[job.kind.0 as int]),
        g.fresh(),
    ensures
        ({
            let after = playback::play(g, job_cmds(rt, job, pair), staging);
            let d = after.dispatches.last();
            let shaded = (g.shader)(d);
            let copies = !rt.direct && rt.scratch is Some;
            &&& after.fresh()
            &&& after.shader == g.shader
            &&& after.dispatches.len() == g.dispatches.len() + 1
            &&& after.dispatches.drop_last() == g.dispatches
            &&& dispatches(rt, job, d)
            &&& d.memory == g.memory
            &&& forall|p: int|
                job.output.offset <= p < job.output.offset + job.output_bytes ==> #[trigger] (
                after.memory)(rt.readback_buffer, p) == shaded(
                    if copies {
                        rt.scratch->Some_0
                    } else {
                        rt.readback_buffer
                    },
                    p,
                )
            &&& forall|b: u64, p: int|
                !(b == rt.readback_buffer && job.output.offset <= p < job.output.offset
                    + job.output_bytes) ==> #[trigger] (after.memory)(b, p) == shaded(b, p)
        }),
{
    let k = rt.kinds[job.kind.0 as int];
    let start = timing_start(rt, pair);
    let bind = Cmd::BindPipeline { pipeline: k.pipeline };
    let push = push_cmds(job.push@, k.layout);
    let set = binding_cmds(rt, k, job);
    let run = Cmd::Dispatch { x: job.dispatch@[0], y: job.dispatch@[1], z: job.dispatch@[2] };
    let back = readback_cmds(rt, job);
    let end = timing_end(rt, pair);
    lemma_job_parts(rt, job, pair, g, staging);
    let g1 = playback::play(g, start, staging);
    let g2 = playback::play(g1, seq![bind], staging);
    let g3 = playback::play(g2, push, staging);
    let g4 = playback::play(g3, set, staging);
    let g5 = playback::play(g4, seq![run], staging);
    let g6 = playback::play(g5, back, staging);
    lemma_timing_start(rt, pair, g, staging);
    playback::lemma_play_one(g1, bind, staging);
    lemma_job_push(job.push@, k.layout, g2, staging);
    lemma_job_set(rt, job, g3, staging);
    playback::lemma_play_one(g4, run, staging);
    lemma_job_readback(rt, job, g5, staging);
    lemma_timing_end(rt, pair, g6, staging);
    assert(g6.dispatches.drop_last() =~= g.dispatches);
}

/// The parts of a job's plan, one behind the other.
proof fn lemma_job_parts(
    rt: &ComputeRuntime,
    job: QueuedJob,
    pair: Option<u32>,
    g: Gpu,
    staging: Seq<u8>,
)
    requires
        job.kind.0 < rt.kinds.len(),
    ensures
        ({
            let k = rt.kinds[job.kind.0 as int];
            let run = Cmd::Dispatch {
                x: job.dispatch@[0],
                y: job.dispatch@[1],
                z: job.dispatch@[2],
            };
            let g1 = playback::play(g, timing_start(rt, pair), staging);
            let g2 = playback::play(g1, seq![Cmd::BindPipeline { pipeline: k.pipeline }], staging);
            let g3 = playback::play(g2, push_cmds(job.push@, k.layout), staging);
            let g4 = playback::play(g3, binding_cmds(rt, k, job), staging);
            let g5 = playback::play(g4, seq![run], staging);
            let g6 = playback::play(g5, readback_cmds(rt, job), staging);
            playback::play(g, job_cmds(rt, job, pair), staging) == playback::play(
                g6,
                timing_end(rt, pair),
                staging,
            )
        }),
{
    let k = rt.kinds[job.kind.0 as int];
    let start = timing_start(rt, pair);
    let bind = seq![Cmd::BindPipeline { pipeline: k.pipeline }];
    let push = push_cmds(job.push@, k.layout);
    let set = binding_cmds(rt, k, job);
    let run = seq![
        Cmd::Dispatch { x: job.dispatch@[0], y: job.dispatch@[1], z: job.dispatch@[2] },
    ];
    let back = readback_cmds(rt, job);
    let end = timing_end(rt, pair);
    playback::lemma_play_concat(g, start + bind + push + set + run + back, end, staging);
    playback::lemma_play_concat(g, start + bind + push + set + run, back, staging);
    playback::lemma_play_concat(g, start + bind + push + set, run, staging);
    playback::lemma_play_concat(g, start + bind + push, set, staging);
    playback::lemma_play_concat(g, start + bind, push, staging);
    playback::lemma_play_concat(g, start, bind, staging);
}

/// Timestamps touch nothing but the stamps.
proof fn lemma_timing_start(rt: &ComputeRuntime, pair: Option<u32>, g: Gpu, staging: Seq<u8>)
    ensures
        ({
            let after = playback::play(g, timing_start(rt, pair), staging);
            let timed = pair is Some && rt.query_pool != 0;
            let first = (2 * pair->Some_0) as u32;
            &&& after == (Gpu { stamps: after.stamps, clean: after.clean, ..g })
            &&& !timed ==> after.stamps == g.stamps
            &&& timed ==> after.stamps == g.stamps.push(
                StampAt {
                    pool: rt.query_pool,
                    query: first,
                    dispatches: g.dispatches.len() as int,
                    clean: true,
                },
            ) && after.clean.contains((rt.query_pool, first + 1))
        }),
{
    if pair is Some && rt.query_pool != 0 {
        let first = (2 * pair->Some_0) as u32;
        let reset = if rt.host_query_reset {
            Cmd::HostResetQueries { pool: rt.query_pool, first, count: 2 }
        } else {
            Cmd::ResetQueries { pool: rt.query_pool, first, count: 2 }
        };
        let write = Cmd::WriteTimestamp {
            pool: rt.query_pool,
            query: first,
            stage: STAGE_COMPUTE_SHADER,
        };
        playback::lemma_play_two(g, reset, write, staging);
    } else {
        playback::lemma_play_nothing(g, staging);
    }
}

proof fn lemma_timing_end(rt: &ComputeRuntime, pair: Option<u32>, g: Gpu, staging: Seq<u8>)
    ensures
        ({
            let after = playback::play(g, timing_end(rt, pair), staging);
            let timed = pair is Some && rt.query_pool != 0;
            let second = (2 * pair->Some_0 + 1) as u32;
            &&& after == (Gpu { stamps: after.stamps, clean: after.clean, ..g })
            &&& !timed ==> after.stamps == g.stamps
            &&& timed ==> after.stamps == g.stamps.push(
                StampAt {
                    pool: rt.query_pool,
                    query: second,
                    dispatches: g.dispatches.len() as int,
                    clean: g.clean.contains((rt.query_pool, second as int)),
                },
            )
        }),
{
    if pair is Some && rt.query_pool != 0 {
        playback::lemma_play_one(
            g,
            Cmd::WriteTimestamp {
                pool: rt.query_pool,
                query: (2 * pair->Some_0 + 1) as u32,
                stage: STAGE_ALL_COMMANDS,
            },
            staging,
        );
    } else {
        playback::lemma_play_nothing(g, staging);
    }
}

/// A timed job is stamped once before its dispatch and once behind it, at the two queries
/// of its pair, both of them reset first; an untimed one is not stamped.
pub proof fn law_a_timed_job_is_stamped_around_its_dispatch(
    rt: &ComputeRuntime,
    job: QueuedJob,
    pair: Option<u32>,
    g: Gpu,
    staging: Seq<u8>,
)
    requires
        job.kind.0 < rt.kinds.len(),
        kind_ok(rt.kinds[job.kind.0 as int]),
        pair matches Some(p) ==> p < 0x4000_0000,
        g.fresh(),
    ensures
        ({
            let after = playback::play(g, job_cmds(rt, job, pair), staging);
            let n = g.stamps.len() as int;
            let ran = g.dispatches.len() as int;
            if pair is Some && rt.query_pool != 0 {
                &&& after.stamps.len() == n + 2
                &&& after.stamps.take(n) == g.stamps
                &&& after.stamps[n] == (StampAt {
                    pool: rt.query_pool,
                    query: (2 * pair->Some_0) as u32,
                    dispatches: ran,
                    clean: true,
                })
                &&& after.stamps[n + 1] == (StampAt {
                    pool: rt.query_pool,
                    query: (2 * pair->Some_0 + 1) as u32,
                    dispatches: ran + 1,
                    clean: true,
                })
            } else {
                after.stamps == g.stamps
            }
        }),
{
    let k = rt.kinds[job.kind.0 as int];
    let bind = Cmd::BindPipeline { pipeline: k.pipeline };
    let run = Cmd::Dispatch { x: job.dispatch@[0], y: job.dispatch@[1], z: job.dispatch@[2] };
    lemma_job_parts(rt, job, pair, g, staging);
    let g1 = playback::play(g, timing_start(rt, pair), staging);
    let g2 = playback::play(g1, seq![bind], staging);
    let g3 = playback::play(g2, push_cmds(job.push@, k.layout), staging);
    let g4 = playback::play(g3, binding_cmds(rt, k, job), staging);
    let g5 = playback::play(g4, seq![run], staging);
    let g6 = playback::play(g5, readback_cmds(rt, job), staging);
    lemma_timing_start(rt, pair, g, staging);
    playback::lemma_play_one(g1, bind, staging);
    lemma_job_push(job.push@, k.layout, g2, staging);
    lemma_job_set(rt, job, g3, staging);
    playback::lemma_play_one(g4, run, staging);
    lemma_job_readback(rt, job, g5, staging);
    lemma_timing_end(rt, pair, g6, staging);
    assert(g6.stamps == g1.stamps);
    let after = playback::play(g, job_cmds(rt, job, pair), staging);
    assert(after.stamps.take(g.stamps.len() as int) =~= g.stamps);
}

/// Several jobs recorded together run one by one in the order of the queue.
pub proof fn law_jobs_run_in_queue_order(
    rt: &ComputeRuntime,
    jobs: Seq<QueuedJob>,
    free: Seq<u32>,
    timed: bool,
    n: int,
    g: Gpu,
    staging: Seq<u8>,
)
    requires
        0 <= n <= jobs.len(),
        forall|i: int| 0 <= i < rt.kinds.len() ==> kind_ok(#[trigger] rt.kinds[i]),
        forall|i: int| 0 <= i < n ==> (#[trigger] jobs[i]).kind.0 < rt.kinds.len(),
        g.fresh(),
    ensures
        ({
            let after = playback::play(g, jobs_cmds(rt, jobs, free, timed, n), staging);
            let ran = g.dispatches.len();
            &&& after.fresh()
            &&& after.dispatches.len() == ran + n
            &&& forall|i: int| 0 <= i < ran ==> #[trigger] after.dispatches[i] == g.dispatches[i]
            &&& forall|i: int|
                0 <= i < n ==> dispatches(rt, #[trigger] jobs[i], after.dispatches[ran + i])
        }),
    decreases n,
{
    if n > 0 {
        law_jobs_run_in_queue_order(rt, jobs, free, timed, n - 1, g, staging);
        let mid = playback::play(g, jobs_cmds(rt, jobs, free, timed, n - 1), staging);
        let pair = if timed {
            pair_for(free, n - 1)
        } else {
            None
        };
        let last = job_cmds(rt, jobs[n - 1], pair);
        playback::lemma_play_concat(g, jobs_cmds(rt, jobs, free, timed, n - 1), last, staging);
        assert(kind_ok(rt.kinds[jobs[n - 1].kind.0 as int]));
        law_a_job_is_dispatched_once(rt, jobs[n - 1], pair, mid, staging);
        let after = playback::play(g, jobs_cmds(rt, jobs, free, timed, n), staging);
        let ran = g.dispatches.len();
        assert forall|i: int| 0 <= i < ran + n - 1 implies #[trigger] after.dispatches[i]
            == mid.dispatches[i] by {
            assert(after.dispatches.drop_last()[i] == mid.dispatches[i]);
        }
    }
}

/// A submitted job waits in the queue as it was submitted: behind all others, with every
/// group count, push byte, input and the output size that it came with.
pub proof fn law_a_submitted_job_waits_unchanged(
    before: &ComputeRuntime,
    job: ComputeJob,
    after: &ComputeRuntime,
)
    requires
        queued(before, job, after),
    ensures
        ({
            let n = before.queue@.len();
            let q = after.queue@[n as int];
            &&& after.queue@.len() == n + 1
            &&& forall|i: int| 0 <= i < n ==> #[trigger] after.queue@[i] == before.queue@[i]
            &&& q.id.0 == before.next_id
            &&& after.next_id == q.id.0 + 1 || before.next_id == u64::MAX
            &&& q.kind.0 == job.kind.0
            &&& q.dispatch@[0] == job.dispatch@[0]
            &&& q.dispatch@[1] == job.dispatch@[1]
            &&& q.dispatch@[2] == job.dispatch@[2]
            &&& q.push@ == job.push@
            &&& q.inputs@[0] == job.inputs@[0]
            &&& q.inputs@[1] == job.inputs@[1]
            &&& q.output_bytes == job.output_bytes
        }),
{
    let n = before.queue@.len();
    assert forall|i: int| 0 <= i < n implies #[trigger] after.queue@[i] == before.queue@[i] by {
        assert(after.queue@.drop_last()[i] == before.queue@[i]);
    }
}

/// A job that leaves the queue for the GPU keeps its name, its regions and the size of its
/// output, so that what is read for it later is what was reserved for it.
pub proof fn law_a_launched_job_keeps_its_regions(
    inflight: Seq<InFlight>,
    jobs: Seq<QueuedJob>,
    free: Seq<u32>,
    timed: bool,
    value: Option<TimelineValue>,
    on_lane: bool,
    n: int,
    i: int,
)
    requires
        0 <= i < n <= jobs.len(),
    ensures
        ({
            let after = after_launch(inflight, jobs, free, timed, value, on_lane, n);
            let f = after[inflight.len() + i];
            &&& after.len() == inflight.len() + n
            &&& forall|j: int| 0 <= j < inflight.len() ==> #[trigger] after[j] == inflight[j]
            &&& f.id.0 == jobs[i].id.0
            &&& f.kind.0 == jobs[i].kind.0
            &&& f.output.offset == jobs[i].output.offset
            &&& f.output.len == jobs[i].output.len
            &&& f.output_bytes == jobs[i].output_bytes
            &&& f.inputs@[0] == jobs[i].inputs@[0]
            &&& f.inputs@[1] == jobs[i].inputs@[1]
            &&& f.value == value
            &&& f.on_compute_lane == on_lane
            &&& !f.gpu_done
            &&& !timed ==> f.timestamp_pair is None
            &&& timed ==> (f.timestamp_pair is Some <==> i < free.len())
            &&& f.timestamp_pair matches Some(p) ==> free.contains(p)
        }),
{
    if timed && i < free.len() {
        assert(free[free.len() - 1 - i] == pair_for(free, i)->Some_0);
    }
}

/// What is handed out under a job's name was read from that job's output region, as many
/// bytes as it asked for, and only once the GPU has passed the job.
pub proof fn law_a_result_is_the_job_s_own_output<F: Fn(StagingRegion, u32) -> Vec<u8>>(
    rt: ComputeRuntime,
    copy_out: F,
    render: u64,
    lane: Option<u64>,
    all: Seq<(JobId, Vec<u8>)>,
    i: int,
)
    requires
        polled_ok(&rt, copy_out, render, lane, all),
        rt.stash@.len() <= i < all.len(),
    ensures
        exists|j: int|
            0 <= j < rt.inflight@.len() && {
                let f = #[trigger] rt.inflight@[j];
                &&& all[i].0.0 == f.id.0
                &&& call_ensures(copy_out, (f.output, f.output_bytes), all[i].1)
                &&& !f.gpu_done ==> f.value is Some
                &&& !f.gpu_done && f.on_compute_lane ==> lane is Some && lane->Some_0
                    >= f.value->Some_0
                &&& !f.gpu_done && !f.on_compute_lane ==> render >= f.value->Some_0
            },
{
    let jobs = reaped(rt.inflight@, render, lane);
    lemma_done_prefix(jobs);
    let j = i - rt.stash@.len();
    assert(jobs[j] == looked_at(rt.inflight@[j], render, lane));
    assert(all[i].0 == jobs[j].id);
}

/// A job is taken where, and only where, computing is on, its kind is registered, its output
/// is not empty and not larger than its kind allows, its push constants have the kind's
/// size, every axis of its dispatch is within the device's limit, every input that the
/// kind reads is there, and the readback ring has room for the output.
pub proof fn law_a_job_is_refused_for_cause(rt: &ComputeRuntime, job: ComputeJob)
    ensures
        refusal(rt, job) is None <==> {
            &&& rt.enabled
            &&& job.kind.0 < rt.kinds.len()
            &&& 0 < job.output_bytes <= rt.kinds[job.kind.0 as int].output_bytes_max
            &&& job.push.len() == rt.kinds[job.kind.0 as int].push_bytes
            &&& job.dispatch@[0] <= rt.limits.max_work_group_count[0]
            &&& job.dispatch@[1] <= rt.limits.max_work_group_count[1]
            &&& job.dispatch@[2] <= rt.limits.max_work_group_count[2]
            &&& rt.kinds[job.kind.0 as int].inputs >= 1 ==> job.inputs@[0] is Some
            &&& rt.kinds[job.kind.0 as int].inputs >= 2 ==> job.inputs@[1] is Some
            &&& has_room(&rt.readback, job.output_bytes as int)
        },
        refusal(rt, job) is Some && refusal(rt, job)->Some_0 is Busy ==> !has_room(
            &rt.readback,
            job.output_bytes as int,
        ),
        refusal(rt, job) is Some && refusal(rt, job)->Some_0 is NoCompute <==> !rt.enabled,
{
}

/// The pair that a job gets is free before and not after, and jobs get different pairs.
pub proof fn law_a_pair_is_handed_to_one_job(free: Seq<u32>, j: int, k: int)
    requires
        free.no_duplicates(),
        0 <= j < k,
    ensures
        pair_for(free, j) is Some <==> j < free.len(),
        pair_for(free, j) matches Some(p) ==> free.contains(p) && !free_after(free, k).contains(p)
            && pair_for(free, k) != Some(p),
        forall|p: u32| #[trigger] free_after(free, k).contains(p) ==> free.contains(p),
        free_after(free, 0) == free || free.len() == 0,
{
    let rest = free_after(free, k);
    if j < free.len() {
        let p = free[free.len() - 1 - j];
        if rest.contains(p) {
            let i = choose|i: int| 0 <= i < rest.len() && rest[i] == p;
            assert(free[i] == p);
        }
    }
    assert forall|p: u32| #[trigger] rest.contains(p) implies free.contains(p) by {
        let i = choose|i: int| 0 <= i < rest.len() && rest[i] == p;
        assert(free[i] == p);
    }
    assert(free.len() > 0 ==> free.take(free.len() - 0) =~= free);
}

/// A finished job leaves its pair of timestamps to be read under its own kind, and no other
/// job does.
pub proof fn law_finished_jobs_leave_their_timestamps(
    jobs: Seq<InFlight>,
    render: u64,
    lane: Option<u64>,
    pool: u64,
)
    ensures
        pool == 0 ==> timings(jobs, render, lane, pool).len() == 0,
        timings(jobs, render, lane, pool).len() <= jobs.len(),
        forall|e: (u32, ComputeKind)| #[trigger]
            timings(jobs, render, lane, pool).contains(e) ==> exists|i: int|
                0 <= i < jobs.len() && (#[trigger] jobs[i]).timestamp_pair == Some(e.0)
                    && jobs[i].kind == e.1 && newly_done(jobs[i], render, lane),
        pool != 0 ==> forall|i: int|
            0 <= i < jobs.len() && newly_done(#[trigger] jobs[i], render, lane)
                && jobs[i].timestamp_pair is Some ==> timings(jobs, render, lane, pool).contains(
                (jobs[i].timestamp_pair->Some_0, jobs[i].kind),
            ),
    decreases jobs.len(),
{
    let all = timings(jobs, render, lane, pool);
    if jobs.len() > 0 {
        let less = jobs.drop_last();
        let rest = timings(less, render, lane, pool);
        let n = jobs.len() - 1;
        law_finished_jobs_leave_their_timestamps(less, render, lane, pool);
        assert forall|e: (u32, ComputeKind)| #[trigger] all.contains(e) implies exists|i: int|
            0 <= i < jobs.len() && (#[trigger] jobs[i]).timestamp_pair == Some(e.0) && jobs[i].kind
                == e.1 && newly_done(jobs[i], render, lane) by {
            let k = choose|k: int| 0 <= k < all.len() && all[k] == e;
            if k < rest.len() {
                assert(rest[k] == e);
                assert(rest.contains(e));
                let i = choose|i: int|
                    0 <= i < less.len() && (#[trigger] less[i]).timestamp_pair == Some(e.0)
                        && less[i].kind == e.1 && newly_done(less[i], render, lane);
                assert(jobs[i] == less[i]);
            } else {
                assert(jobs[n].timestamp_pair == Some(e.0));
            }
        }
        if pool != 0 {
            assert forall|i: int|
                0 <= i < jobs.len() && newly_done(#[trigger] jobs[i], render, lane)
                    && jobs[i].timestamp_pair is Some implies all.contains(
                (jobs[i].timestamp_pair->Some_0, jobs[i].kind),
            ) by {
                let e = (jobs[i].timestamp_pair->Some_0, jobs[i].kind);
                if i < n {
                    assert(less[i] == jobs[i]);
                    assert(rest.contains(e));
                    let k = choose|k: int| 0 <= k < rest.len() && rest[k] == e;
                    assert(all[k] == e);
                } else {
                    assert(all[rest.len() as int] == e);
                }
            }
        }
    }
}

/// A kind's bindings are its inputs in order, and the output behind them.
pub proof fn law_a_kind_binds_its_inputs_and_its_output(inputs: u32, i: int)
    requires
        inputs < u32::MAX,
        0 <= i <= inputs,
    ensures
        binding_list(inputs).len() == inputs + 1,
        binding_list(inputs)[i] == i,
{
}

/// The host reads a result only behind a barrier that waits for it: for the shader that
/// wrote it, or for the copy out of the scratch buffer, which itself waits for the shader.
pub proof fn law_a_result_is_waited_for(rt: &ComputeRuntime, job: QueuedJob, pair: Option<u32>)
    requires
        job.kind.0 < rt.kinds.len(),
        rt.direct || rt.scratch is Some,
    ensures
        ordering::waits(ordering::settled(), job_cmds(rt, job, pair)),
        ordering::after(ordering::settled(), job_cmds(rt, job, pair)) == (Flow {
            dirty: None,
            ready: commands::host_read(),
        }),
{
    let k = rt.kinds[job.kind.0 as int];
    let f0 = ordering::settled();
    let pipe = seq![Cmd::BindPipeline { pipeline: k.pipeline }];
    let start = timing_start(rt, pair);
    let push = push_cmds(job.push@, k.layout);
    let set = binding_cmds(rt, k, job);
    let run = Cmd::Dispatch { x: job.dispatch@[0], y: job.dispatch@[1], z: job.dispatch@[2] };
    let back = readback_cmds(rt, job);
    let end = timing_end(rt, pair);
    ordering::lemma_quiet(f0, start);
    ordering::lemma_quiet(f0, pipe);
    ordering::lemma_quiet(f0, push);
    ordering::lemma_quiet(f0, set);
    ordering::lemma_concat(f0, start, pipe);
    ordering::lemma_concat(f0, start + pipe, push);
    ordering::lemma_concat(f0, start + pipe + push, set);
    let head = start + pipe + push + set;
    ordering::lemma_one(f0, run);
    ordering::lemma_concat(f0, head, seq![run]);
    let f1 = ordering::after_one(f0, run);
    lemma_readback_flow(rt, job, f1);
    ordering::lemma_concat(f0, head + seq![run], back);
    let f2 = ordering::after(f1, back);
    ordering::lemma_quiet(f2, end);
    ordering::lemma_concat(f0, head + seq![run] + back, end);
    assert(job_cmds(rt, job, pair) =~= head + seq![run] + back + end);
}

proof fn lemma_readback_flow(rt: &ComputeRuntime, job: QueuedJob, f: Flow)
    requires
        rt.direct || rt.scratch is Some,
        f.dirty == Some(ordering::storing()),
    ensures
        ordering::waits(f, readback_cmds(rt, job)),
        ordering::after(f, readback_cmds(rt, job)) == (Flow {
            dirty: None,
            ready: commands::host_read(),
        }),
{
    let back = readback_cmds(rt, job);
    if rt.direct {
        ordering::lemma_barrier(f, commands::compute_write(), commands::host_read());
        assert(back =~= commands::memory_barrier(commands::compute_write(), commands::host_read()));
    } else {
        let region = back[2];
        let src = rt.scratch->Some_0;
        let a = commands::memory_barrier(commands::compute_write(), commands::copy_read());
        let c = seq![region, Cmd::CopyBuffer { src, dst: rt.readback_buffer }];
        let z = commands::memory_barrier(commands::copy_write(), commands::host_read());
        assert(back =~= a + c + z);
        ordering::lemma_barrier(f, commands::compute_write(), commands::copy_read());
        let f1 = ordering::after(f, a);
        ordering::lemma_copy(f1, region, src, rt.readback_buffer);
        let f2 = ordering::after(f1, c);
        ordering::lemma_barrier(f2, commands::copy_write(), commands::host_read());
        ordering::lemma_concat(f, a, c);
        ordering::lemma_concat(f, a + c, z);
    }
}

} // verus!
