//! One frame's draw commands: sized and either written on the host, when few
//! meshes are live, or left to a compute dispatch.
//!
//! Both ways fill the same partitions. Camera groups are split by distance bucket;
//! shadow cascades are not.

use vstd::prelude::*;

use crate::arena;
use crate::arena::ArenaDirectory;
use crate::bytes;
use crate::commands;
use crate::commands::{
    Access, Binding, BufferRegion, Cmd, ACCESS_INDIRECT_COMMAND_READ, ACCESS_SHADER_STORAGE_READ,
    ACCESS_SHADER_STORAGE_WRITE, ACCESS_TRANSFER_READ, ACCESS_TRANSFER_WRITE, STAGE_CLEAR,
    STAGE_COMPUTE_SHADER, STAGE_COPY, STAGE_DRAW_INDIRECT, WHOLE_SIZE,
};
use crate::cull_emit;
use crate::cull_emit::{CpuCullScratch, CullMode, SlotTests};
use crate::cull_math;
use crate::cull_math::{
    DrawIndexedIndirect, PartitionGpu, CMD_STRIDE, CPU_CULL_MAX, FLAG_STATS, MAX_FACE_RUNS,
    STATS_BYTES,
};
use crate::descriptors;
use crate::numbers;
use crate::ordering;
use crate::ordering::Flow;
use crate::playback;
use crate::playback::Gpu;
use crate::rev::FRAMES_IN_FLIGHT;
use crate::text;

verus! {

/// Smallest device buffer.
pub const MIN_DEVICE_BUFFER: u64 = 4096;

/// Capacity of a grow-only buffer that holds at least `needed` bytes.
pub open spec fn device_capacity(needed: int) -> int {
    let pow = numbers::next_pow2(needed);
    if pow < MIN_DEVICE_BUFFER {
        MIN_DEVICE_BUFFER as int
    } else {
        pow
    }
}

/// The capacity to grow to; `None` while what is there is enough.
pub fn grown_capacity(capacity: u64, needed: u64) -> (r: Option<u64>)
    requires
        needed <= 0x8000_0000_0000_0000,
    ensures
        needed <= capacity ==> r is None,
        needed > capacity ==> r == Some(device_capacity(needed as int) as u64),
        r matches Some(c) ==> c >= needed,
{
    if needed <= capacity {
        return None;
    }
    let pow: u64 = numbers::next_power_of_two(needed);
    proof {
        numbers::law_next_pow2_is_least(needed as int);
    }
    if pow < MIN_DEVICE_BUFFER {
        Some(MIN_DEVICE_BUFFER)
    } else {
        Some(pow)
    }
}

/// Live records up to which the host emits commands: what `setting` says, where
/// it is a number of 32 bits, or the default.
pub open spec fn limit_of(setting: Option<&str>) -> u32 {
    match setting {
        Some(s) => match text::number_in(s@) {
            Some(n) if n <= u32::MAX => n as u32,
            _ => CPU_CULL_MAX,
        },
        None => CPU_CULL_MAX,
    }
}

/// The limit that `setting` asks for.
pub fn cpu_cull_max(setting: Option<&str>) -> (r: u32)
    ensures
        r == limit_of(setting),
{
    match setting {
        Some(s) => match text::parse_plain(s) {
            Some(n) => if n <= u32::MAX as u64 {
                n as u32
            } else {
                CPU_CULL_MAX
            },
            None => CPU_CULL_MAX,
        },
        None => CPU_CULL_MAX,
    }
}

/// The words of one command.
pub open spec fn command_words(c: DrawIndexedIndirect) -> Seq<u32> {
    seq![c.index_count, c.instance_count, c.first_index, c.vertex_offset as u32, c.first_instance]
}

/// The words of a command list.
pub open spec fn commands_words(cmds: Seq<DrawIndexedIndirect>) -> Seq<u32>
    decreases cmds.len(),
{
    if cmds.len() == 0 {
        Seq::empty()
    } else {
        commands_words(cmds.drop_last()) + command_words(cmds.last())
    }
}

fn collect_command_words(cmds: &Vec<DrawIndexedIndirect>) -> (words: Vec<u32>)
    ensures
        words@ == commands_words(cmds@),
{
    let mut words: Vec<u32> = Vec::new();
    let mut i: usize = 0;
    proof {
        assert(cmds@.take(0) =~= Seq::empty());
    }
    while i < cmds.len()
        invariant
            i <= cmds.len(),
            words@ == commands_words(cmds@.take(i as int)),
        decreases cmds.len() - i,
    {
        let ghost before = words@;
        let c: DrawIndexedIndirect = cmds[i];
        words.push(c.index_count);
        words.push(c.instance_count);
        words.push(c.first_index);
        words.push(c.vertex_offset as u32);
        words.push(c.first_instance);
        i = i + 1;
        proof {
            assert(cmds@.take(i as int).drop_last() =~= cmds@.take(i - 1));
            assert(words@ =~= before + command_words(c));
        }
    }
    proof {
        assert(cmds@.take(i as int) =~= cmds@);
    }
    words
}

/// The bytes of a command list, as the device reads them.
pub fn command_bytes(cmds: &Vec<DrawIndexedIndirect>) -> (b: Vec<u8>)
    ensures
        bytes::in_memory(commands_words(cmds@), b@),
{
    let words = collect_command_words(cmds);
    bytes::words_to_bytes(words.as_slice())
}

/// The words of a partition table.
pub open spec fn partition_words(parts: Seq<PartitionGpu>) -> Seq<u32> {
    Seq::new(
        2 * parts.len(),
        |i: int|
            if i % 2 == 0 {
                parts[i / 2].offset
            } else {
                parts[i / 2].capacity
            },
    )
}

fn collect_partition_words(parts: &Vec<PartitionGpu>) -> (words: Vec<u32>)
    ensures
        words@ == partition_words(parts@),
{
    let mut words: Vec<u32> = Vec::new();
    let mut i: usize = 0;
    while i < parts.len()
        invariant
            i <= parts.len(),
            words.len() == 2 * i,
            forall|k: int| 0 <= k < words.len() ==> #[trigger] words[k] == partition_words(parts@)[k],
        decreases parts.len() - i,
    {
        words.push(parts[i].offset);
        words.push(parts[i].capacity);
        i = i + 1;
    }
    proof {
        assert(words@ =~= partition_words(parts@));
    }
    words
}

/// Bytes to write into a host-visible buffer.
pub struct HostWrite {
    pub offset: u64,
    pub bytes: Vec<u8>,
}

/// `w` writes the commands `cmds` of partition `p`.
pub open spec fn writes_partition(
    w: HostWrite,
    p: PartitionGpu,
    cmds: Seq<DrawIndexedIndirect>,
) -> bool {
    w.offset == p.offset * 20 && bytes::in_memory(commands_words(cmds), w.bytes@)
}

/// Partitions below `n` that hold commands.
pub open spec fn filled(cmds: Seq<Vec<DrawIndexedIndirect>>, n: int) -> Seq<int>
    decreases n,
{
    if n <= 0 {
        Seq::empty()
    } else if cmds[n - 1].len() > 0 {
        filled(cmds, n - 1).push(n - 1)
    } else {
        filled(cmds, n - 1)
    }
}

/// One write per partition that holds commands, in order.
pub open spec fn writes_ok(
    parts: Seq<PartitionGpu>,
    cmds: Seq<Vec<DrawIndexedIndirect>>,
    writes: Seq<HostWrite>,
) -> bool {
    let list = filled(cmds, parts.len() as int);
    &&& writes.len() == list.len()
    &&& forall|k: int|
        0 <= k < writes.len() ==> writes_partition(
            #[trigger] writes[k],
            parts[list[k]],
            cmds[list[k]]@,
        )
}

/// One contiguous write per partition that holds commands.
pub fn command_writes(parts: &Vec<PartitionGpu>, cmds: &Vec<Vec<DrawIndexedIndirect>>) -> (writes: Vec<
    HostWrite,
>)
    requires
        cmds.len() >= parts.len(),
    ensures
        writes_ok(parts@, cmds@, writes@),
{
    let mut writes: Vec<HostWrite> = Vec::new();
    let mut i: usize = 0;
    while i < parts.len()
        invariant
            i <= parts.len() <= cmds.len(),
            ({
                let list = filled(cmds@, i as int);
                &&& writes.len() == list.len()
                &&& forall|k: int|
                    0 <= k < writes.len() ==> writes_partition(
                        #[trigger] writes[k],
                        parts@[list[k]],
                        cmds@[list[k]]@,
                    )
            }),
        decreases parts.len() - i,
    {
        if cmds[i].len() > 0 {
            let ghost before = writes@;
            let offset: u64 = parts[i].offset as u64 * CMD_STRIDE;
            writes.push(HostWrite { offset, bytes: command_bytes(&cmds[i]) });
            proof {
                let list = filled(cmds@, i + 1);
                assert forall|k: int| 0 <= k < writes.len() implies writes_partition(
                    #[trigger] writes[k],
                    parts@[list[k]],
                    cmds@[list[k]]@,
                ) by {
                    if k < before.len() {
                        assert(writes@[k] == before[k]);
                    }
                }
            }
        }
        i = i + 1;
    }
    writes
}

/// How a frame's commands come about.
pub enum CullPlan {
    /// Nothing is live.
    Nothing,
    /// Written on the host: `total` commands at most, in `writes`, and how many there
    /// are of each partition.
    Host { total: u32, writes: Vec<HostWrite>, counts: Vec<u8> },
    /// Left to the compute dispatch.
    Device { total: u32, partitions: Vec<u8>, visible: Vec<u8> },
}

/// Commands per mesh that partitions are sized for.
#[verifier::allow_in_spec]
pub fn runs_per_mesh(face_cull: bool) -> u32
    returns
        (if face_cull {
            MAX_FACE_RUNS
        } else {
            1u32
        }),
{
    if face_cull {
        MAX_FACE_RUNS
    } else {
        1
    }
}

/// What a frame may take for granted of its inputs.
pub open spec fn frame_inputs(
    dir: &ArenaDirectory,
    arrived: Seq<bool>,
    visible: Seq<u32>,
    tests: Seq<SlotTests>,
    slot_count: u32,
    mode: CullMode,
    reach: Option<Seq<bool>>,
) -> bool {
    let count = cull_math::partition_count_spec(dir.buffers.len() as int);
    &&& dir.wf()
    &&& reach matches Some(table) ==> table.len() == 4 * dir.buffers.len()
    &&& arena::offset_of(dir.live@, runs_per_mesh(mode.face), reach, count) <= u32::MAX
    &&& count <= usize::MAX
    &&& cull_emit::cull_inputs(
        dir,
        cull_math::walk_mask(dir.live_bits@, visible, slot_count, mode.shadow),
        arrived,
        visible,
        Seq::new(count as nat, |p: int| PartitionGpu { offset: 0, capacity: 0 }),
        mode,
        tests,
        slot_count,
    )
}

/// `parts` is the directory's partition table.
pub open spec fn is_table(
    dir: &ArenaDirectory,
    runs: u32,
    reach: Option<Seq<bool>>,
    parts: Seq<PartitionGpu>,
) -> bool {
    &&& parts.len() == cull_math::partition_count_spec(dir.buffers.len() as int)
    &&& forall|p: int|
        0 <= p < parts.len() ==> (#[trigger] parts[p]).offset == arena::offset_of(
            dir.live@,
            runs,
            reach,
            p,
        ) && parts[p].capacity == arena::capacity_of(dir.live@, runs, reach, p)
}

/// `plan`, `parts` and `after` are what sizing and culling a frame come to, from
/// the state `before`.
pub open spec fn prepared(
    before: &CullState,
    slot: int,
    dir: &ArenaDirectory,
    arrived: Seq<bool>,
    visible: Seq<u32>,
    tests: Seq<SlotTests>,
    slot_count: u32,
    shadow: bool,
    reach: Option<Seq<bool>>,
    parts: Seq<PartitionGpu>,
    plan: CullPlan,
    after: &CullState,
) -> bool {
    let mode = CullMode { face: before.face_cull, shadow };
    let runs = runs_per_mesh(mode.face);
    let total = arena::offset_of(dir.live@, runs, reach, parts.len() as int);
    let walk = cull_math::walk_mask(dir.live_bits@, visible, slot_count, mode.shadow);
    let all = cull_emit::plain_emissions(dir, arrived, visible, mode, tests, slot_count as int);
    &&& is_table(dir, runs, reach, parts)
    &&& match plan {
        CullPlan::Nothing => total == 0 && *after == *before,
        CullPlan::Host { total: t, writes, counts } => {
            &&& t == total && total > 0
            &&& arena::laned_count(dir.slots@) <= before.cpu_max
            &&& after.scratch.live_vis@ == walk
            &&& cull_emit::holds(all, parts, after.scratch.part_cmds@, after.scratch.counts@)
            &&& writes_ok(parts, after.scratch.part_cmds@, writes@)
            &&& bytes::in_memory(after.scratch.counts@, counts@)
            &&& cull_emit::stats_hold(all, after.stats[slot]@)
            &&& after.stats@ == before.stats@.update(slot, after.stats[slot])
            &&& *after == (CullState { scratch: after.scratch, stats: after.stats, ..*before })
        },
        CullPlan::Device { total: t, partitions: table, visible: mask } => {
            &&& t == total && total > 0
            &&& arena::laned_count(dir.slots@) > before.cpu_max
            &&& bytes::in_memory(partition_words(parts), table@)
            &&& bytes::in_memory(visible, mask@)
            &&& *after == *before
        },
    }
}

/// How frames are culled, and what the last ones drew.
pub struct CullState {
    pub pipeline: u64,
    pub layout: u64,
    /// Draw only the faces of a mesh that can be seen.
    pub face_cull: bool,
    /// Live records up to which the host emits the commands.
    pub cpu_max: u32,
    pub scratch: CpuCullScratch,
    /// Draws and indices of each camera group, by frame slot.
    pub stats: [[u32; 6]; FRAMES_IN_FLIGHT],
}

impl CullState {
    /// `setting` is the limit that the environment asks for.
    pub fn new(pipeline: u64, layout: u64, setting: Option<&str>) -> (s: CullState)
        ensures
            s.pipeline == pipeline,
            s.layout == layout,
            s.face_cull,
            s.cpu_max == limit_of(setting),
            s.scratch.part_cmds.len() == 0,
            s.scratch.counts.len() == 0,
            s.scratch.live_vis.len() == 0,
            forall|i: int| 0 <= i < FRAMES_IN_FLIGHT ==> #[trigger] s.stats[i]@ == seq![
                0u32,
                0u32,
                0u32,
                0u32,
                0u32,
                0u32,
            ],
    {
        let scratch = CpuCullScratch {
            part_cmds: Vec::new(),
            counts: Vec::new(),
            live_vis: Vec::new(),
        };
        let none: [u32; 6] = [0, 0, 0, 0, 0, 0];
        proof {
            assert(none@ =~= seq![0u32, 0u32, 0u32, 0u32, 0u32, 0u32]);
        }
        CullState {
            pipeline,
            layout,
            face_cull: true,
            cpu_max: cpu_cull_max(setting),
            scratch,
            stats: [none, none, none],
        }
    }

    /// Applies to the frames that are prepared from now on.
    pub fn set_face_cull(&mut self, on: bool)
        ensures
            *final(self) == (CullState { face_cull: on, ..*old(self) }),
    {
        self.face_cull = on;
    }

    /// What the last finished frame of `slot` drew.
    pub fn stats(&self, slot: usize) -> (r: [u32; 6])
        requires
            slot < FRAMES_IN_FLIGHT,
        ensures
            r == self.stats[slot as int],
    {
        self.stats[slot]
    }

    /// Takes the statistics that the device wrote for `slot`.
    pub fn note_stats(&mut self, slot: usize, stats: [u32; 6])
        requires
            slot < FRAMES_IN_FLIGHT,
        ensures
            final(self).stats@ == old(self).stats@.update(slot as int, stats),
            *final(self) == (CullState { stats: final(self).stats, ..*old(self) }),
    {
        self.stats[slot] = stats;
    }

    /// A frame without culling drew nothing.
    pub fn clear_stats_cpu(&mut self, slot: usize)
        requires
            slot < FRAMES_IN_FLIGHT,
        ensures
            final(self).stats[slot as int]@ == seq![0u32, 0u32, 0u32, 0u32, 0u32, 0u32],
            final(self).stats@ == old(self).stats@.update(
                slot as int,
                final(self).stats[slot as int],
            ),
            *final(self) == (CullState { stats: final(self).stats, ..*old(self) }),
    {
        let none: [u32; 6] = [0, 0, 0, 0, 0, 0];
        proof {
            assert(none@ =~= seq![0u32, 0u32, 0u32, 0u32, 0u32, 0u32]);
        }
        self.note_stats(slot, none);
    }

    /// Sizes the partitions and, when at most `cpu_max` records are live, emits the
    /// commands on the host.
    pub fn prepare(
        &mut self,
        slot: usize,
        dir: &ArenaDirectory,
        arrived: &[bool],
        visible: &[u32],
        tests: &[SlotTests],
        slot_count: u32,
        shadow: bool,
        reach: Option<&Vec<bool>>,
        partitions: &mut Vec<PartitionGpu>,
    ) -> (plan: CullPlan)
        requires
            slot < FRAMES_IN_FLIGHT,
            frame_inputs(
                dir,
                arrived@,
                visible@,
                tests@,
                slot_count,
                (CullMode { face: old(self).face_cull, shadow }),
                arena::table_view(reach),
            ),
        ensures
            prepared(
                old(self),
                slot as int,
                dir,
                arrived@,
                visible@,
                tests@,
                slot_count,
                shadow,
                arena::table_view(reach),
                final(partitions)@,
                plan,
                final(self),
            ),
    {
        let mode = CullMode { face: self.face_cull, shadow };
        let runs: u32 = runs_per_mesh(mode.face);
        let total: u32 = dir.partitions_into(partitions, runs, reach);
        if partitions.len() == 0 || total == 0 {
            return CullPlan::Nothing;
        }
        if dir.camera_live() <= self.cpu_max {
            let stats = cull_emit::cpu_cull_into(
                dir,
                arrived,
                visible,
                partitions.as_slice(),
                tests,
                slot_count,
                mode,
                &mut self.scratch,
            );
            let writes = command_writes(partitions, &self.scratch.part_cmds);
            let counts = bytes::words_to_bytes(self.scratch.counts.as_slice());
            self.note_stats(slot, stats);
            return CullPlan::Host { total, writes, counts };
        }
        let words = collect_partition_words(partitions);
        CullPlan::Device {
            total,
            partitions: bytes::words_to_bytes(words.as_slice()),
            visible: bytes::words_to_bytes(visible),
        }
    }

    /// Records the dispatch of one frame; nothing for one whose commands the host
    /// wrote.
    pub fn record(
        &self,
        b: CullBuffers,
        slot_count: u32,
        workgroup: u32,
        on_host: bool,
        stats: bool,
    ) -> (cmds: Vec<Cmd>)
        requires
            workgroup > 0,
        ensures
            cmds@ == cull_cmds(
                self.pipeline,
                self.layout,
                b,
                slot_count,
                workgroup,
                on_host,
                stats,
            ),
    {
        record_cull(self.pipeline, self.layout, b, slot_count, workgroup, on_host, stats)
    }
}

/// What the dispatch binds fills the cull pass's layout.
pub proof fn law_cull_bindings_fill_the_layout(b: CullBuffers, layout: u64, i: int)
    requires
        0 <= i < 8,
    ensures
        cull_bindings(b, layout)[i] matches Cmd::Bind { binding, what } && {
            &&& binding == i
            &&& descriptors::cull_layout()[i].binding == binding
            &&& descriptors::cull_layout()[i].kind == descriptors::kind_of(what)
        },
{
}

/// Host writes never run past the command buffer: each ends by the end of its
/// partition.
pub proof fn law_host_writes_stay_in_their_partition(
    p: PartitionGpu,
    cmds: Seq<DrawIndexedIndirect>,
    w: HostWrite,
)
    requires
        writes_partition(w, p, cmds),
        cmds.len() <= p.capacity,
    ensures
        w.offset + w.bytes.len() <= 20 * (p.offset + p.capacity),
        w.bytes.len() == 20 * cmds.len(),
{
    lemma_commands_words_len(cmds);
}

proof fn lemma_commands_words_len(cmds: Seq<DrawIndexedIndirect>)
    ensures
        commands_words(cmds).len() == 5 * cmds.len(),
    decreases cmds.len(),
{
    if cmds.len() > 0 {
        lemma_commands_words_len(cmds.drop_last());
    }
}

/// The five words of a command, by their places in `VkDrawIndexedIndirectCommand`: index
/// count, instance count, first index, vertex offset, first instance.
pub proof fn law_command_words_by_place(cmds: Seq<DrawIndexedIndirect>, k: int)
    requires
        0 <= k < cmds.len(),
    ensures
        commands_words(cmds).len() == 5 * cmds.len(),
        commands_words(cmds)[5 * k] == cmds[k].index_count,
        commands_words(cmds)[5 * k + 1] == cmds[k].instance_count,
        commands_words(cmds)[5 * k + 2] == cmds[k].first_index,
        commands_words(cmds)[5 * k + 3] as i32 == cmds[k].vertex_offset,
        commands_words(cmds)[5 * k + 4] == cmds[k].first_instance,
    decreases cmds.len(),
{
    let less = cmds.drop_last();
    lemma_commands_words_len(cmds);
    lemma_commands_words_len(less);
    if k < less.len() {
        law_command_words_by_place(less, k);
        assert(less[k] == cmds[k]);
    } else {
        let v = cmds[k].vertex_offset;
        assert((v as u32) as i32 == v) by (bit_vector);
    }
}

/// Command `k`, read out of memory as the device reads it: five words from byte `20 * k`.
pub open spec fn command_at(b: Seq<u8>, k: int, little: bool) -> DrawIndexedIndirect {
    DrawIndexedIndirect {
        index_count: bytes::word_at(b, 20 * k, little) as u32,
        instance_count: bytes::word_at(b, 20 * k + 4, little) as u32,
        first_index: bytes::word_at(b, 20 * k + 8, little) as u32,
        vertex_offset: (bytes::word_at(b, 20 * k + 12, little) as u32) as i32,
        first_instance: bytes::word_at(b, 20 * k + 16, little) as u32,
    }
}

/// All the commands in `b`, as the device reads them.
pub open spec fn commands_at(b: Seq<u8>, little: bool) -> Seq<DrawIndexedIndirect> {
    Seq::new((b.len() / 20) as nat, |k: int| command_at(b, k, little))
}

/// The device reads the commands that were written, each with every field in its place.
pub proof fn law_commands_read_back(cmds: Seq<DrawIndexedIndirect>, b: Seq<u8>)
    requires
        bytes::in_memory(commands_words(cmds), b),
    ensures
        b.len() == 20 * cmds.len(),
        commands_at(b, true) == cmds || commands_at(b, false) == cmds,
{
    let words = commands_words(cmds);
    lemma_commands_words_len(cmds);
    bytes::law_memory_reads_back(words, b);
    let little = bytes::reads_as(b, words, true);
    assert forall|k: int| 0 <= k < cmds.len() implies #[trigger] command_at(b, k, little)
        == cmds[k] by {
        law_command_words_by_place(cmds, k);
        assert(words[5 * k] == bytes::word_at(b, 4 * (5 * k), little));
        assert(words[5 * k + 1] == bytes::word_at(b, 4 * (5 * k + 1), little));
        assert(words[5 * k + 2] == bytes::word_at(b, 4 * (5 * k + 2), little));
        assert(words[5 * k + 3] == bytes::word_at(b, 4 * (5 * k + 3), little));
        assert(words[5 * k + 4] == bytes::word_at(b, 4 * (5 * k + 4), little));
    }
    assert(commands_at(b, little) =~= cmds);
}

/// A host write puts the commands of a partition where the partition begins, counted in
/// commands of twenty bytes, and the device reads them there.
pub proof fn law_host_writes_read_back(
    p: PartitionGpu,
    cmds: Seq<DrawIndexedIndirect>,
    w: HostWrite,
)
    requires
        writes_partition(w, p, cmds),
    ensures
        w.offset == 20 * p.offset,
        w.bytes.len() == 20 * cmds.len(),
        commands_at(w.bytes@, true) == cmds || commands_at(w.bytes@, false) == cmds,
{
    law_commands_read_back(cmds, w.bytes@);
}

/// Partition `k`, read out of memory as the device reads it: two words from byte `8 * k`,
/// where it begins and how many commands it holds.
pub open spec fn partition_at(b: Seq<u8>, k: int, little: bool) -> PartitionGpu {
    PartitionGpu {
        offset: bytes::word_at(b, 8 * k, little) as u32,
        capacity: bytes::word_at(b, 8 * k + 4, little) as u32,
    }
}

/// All the partitions in `b`, as the device reads them.
pub open spec fn partitions_at(b: Seq<u8>, little: bool) -> Seq<PartitionGpu> {
    Seq::new((b.len() / 8) as nat, |k: int| partition_at(b, k, little))
}

/// The device reads the partition table that was written.
pub proof fn law_partitions_read_back(parts: Seq<PartitionGpu>, b: Seq<u8>)
    requires
        bytes::in_memory(partition_words(parts), b),
    ensures
        b.len() == 8 * parts.len(),
        partitions_at(b, true) == parts || partitions_at(b, false) == parts,
{
    let words = partition_words(parts);
    bytes::law_memory_reads_back(words, b);
    let little = bytes::reads_as(b, words, true);
    assert forall|k: int| 0 <= k < parts.len() implies #[trigger] partition_at(b, k, little)
        == parts[k] by {
        assert(words[2 * k] == bytes::word_at(b, 4 * (2 * k), little));
        assert(words[2 * k + 1] == bytes::word_at(b, 4 * (2 * k + 1), little));
    }
    assert(partitions_at(b, little) =~= parts);
}

/// `b` is the parameter block of `p`, by the byte at which the shader finds each member:
/// the camera's planes at 0, the shadow's at 80, the camera's block at 240 with the slot
/// count behind it, its place in the block at 256 with the arena count behind it, the
/// flags at 272 and 276, the slab at 280 and 284.
pub open spec fn params_at(b: Seq<u8>, little: bool, p: CullParams) -> bool {
    &&& forall|i: int|
        0 <= i < 20 ==> #[trigger] p.cam_planes@[i] == bytes::word_at(b, 4 * i, little)
    &&& forall|i: int|
        0 <= i < 40 ==> #[trigger] p.shadow_planes@[i] == bytes::word_at(
            b,
            80 + 4 * i,
            little,
        )
    &&& p.cam_block@[0] == bytes::word_at(b, 240, little)
    &&& p.cam_block@[1] == bytes::word_at(b, 244, little)
    &&& p.cam_block@[2] == bytes::word_at(b, 248, little)
    &&& p.slot_count == bytes::word_at(b, 252, little)
    &&& p.cam_frac@[0] == bytes::word_at(b, 256, little)
    &&& p.cam_frac@[1] == bytes::word_at(b, 260, little)
    &&& p.cam_frac@[2] == bytes::word_at(b, 264, little)
    &&& p.arena_count == bytes::word_at(b, 268, little)
    &&& p.shadow == (bytes::word_at(b, 272, little) == 1)
    &&& p.face_cull == (bytes::word_at(b, 276, little) == 1)
    &&& p.clip == bytes::word_at(b, 280, little)
    &&& p.clip_v == bytes::word_at(b, 284, little)
}

/// The shader reads the parameters that were written.
pub proof fn law_params_read_back(p: CullParams, b: Seq<u8>)
    requires
        bytes::in_memory(params_words(p), b),
    ensures
        b.len() == 288,
        params_at(b, true, p) || params_at(b, false, p),
{
    let words = params_words(p);
    bytes::law_memory_reads_back(words, b);
    let little = bytes::reads_as(b, words, true);
    assert forall|i: int| 0 <= i < 20 implies #[trigger] p.cam_planes@[i] == bytes::word_at(
        b,
        4 * i,
        little,
    ) by {
        assert(words[i] == bytes::word_at(b, 4 * i, little));
    }
    assert forall|i: int| 0 <= i < 40 implies #[trigger] p.shadow_planes@[i] == bytes::word_at(
        b,
        80 + 4 * i,
        little,
    ) by {
        assert(words[20 + i] == bytes::word_at(b, 4 * (20 + i), little));
    }
    assert(words[60] == bytes::word_at(b, 240, little));
    assert(words[61] == bytes::word_at(b, 244, little));
    assert(words[62] == bytes::word_at(b, 248, little));
    assert(words[63] == bytes::word_at(b, 252, little));
    assert(words[64] == bytes::word_at(b, 256, little));
    assert(words[65] == bytes::word_at(b, 260, little));
    assert(words[66] == bytes::word_at(b, 264, little));
    assert(words[67] == bytes::word_at(b, 268, little));
    assert(words[68] == bytes::word_at(b, 272, little));
    assert(words[69] == bytes::word_at(b, 276, little));
    assert(words[70] == bytes::word_at(b, 280, little));
    assert(words[71] == bytes::word_at(b, 284, little));
    assert(params_at(b, little, p));
}

proof fn lemma_cull_clears(g: Gpu, b: CullBuffers, stats: bool, staging: Seq<u8>)
    requires
        b.stats != b.counts,
    ensures
        ({
            let after = playback::play(g, cull_clears(b, stats), staging);
            &&& after == (Gpu { memory: after.memory, ..g })
            &&& forall|p: int| 0 <= p ==> #[trigger] (after.memory)(b.counts, p) == 0
            &&& stats ==> forall|p: int| 0 <= p < 24 ==> #[trigger] (after.memory)(b.stats, p) == 0
        }),
{
    let counts = Cmd::FillBuffer { buffer: b.counts, offset: 0, size: WHOLE_SIZE, word: 0 };
    let cells = Cmd::FillBuffer { buffer: b.stats, offset: 0, size: STATS_BYTES, word: 0 };
    playback::lemma_play_one(g, counts, staging);
    playback::lemma_play_two(g, counts, cells, staging);
}

proof fn lemma_cull_set(g: Gpu, b: CullBuffers, layout: u64, staging: Seq<u8>)
    requires
        g.staged_bindings.dom().is_empty(),
    ensures
        ({
            let after = playback::play(g, cull_bindings(b, layout), staging);
            &&& after == (Gpu {
                bindings: after.bindings,
                staged_bindings: after.staged_bindings,
                ..g
            })
            &&& after.staged_bindings.dom().is_empty()
            &&& after.bindings[0] == whole(b.records)
            &&& after.bindings[1] == whole(b.arenas)
            &&& after.bindings[2] == whole(b.parts)
            &&& after.bindings[3] == whole(b.commands)
            &&& after.bindings[4] == whole(b.counts)
            &&& after.bindings[5] == (Binding::UniformBuffer {
                buffer: b.params,
                offset: 0,
                range: WHOLE_SIZE,
            })
            &&& after.bindings[6] == whole(b.visible)
            &&& after.bindings[7] == whole(b.stats)
        }),
{
    reveal_with_fuel(playback::upto, 10);
}

proof fn lemma_stats_copy(g: Gpu, b: CullBuffers, staging: Seq<u8>)
    requires
        g.regions.len() == 0,
    ensures
        ({
            let after = playback::play(g, stats_copy(b), staging);
            &&& after == (Gpu { memory: after.memory, regions: Seq::empty(), ..g })
            &&& forall|p: int|
                0 <= p < 24 ==> #[trigger] (after.memory)(b.stats_host, p) == (g.memory)(b.stats, p)
        }),
{
    let r = BufferRegion { src_offset: 0, dst_offset: 0, size: STATS_BYTES };
    let copy = Cmd::CopyBuffer { src: b.stats, dst: b.stats_host };
    let head = seq![Cmd::BufferRegion(r), copy];
    let wait = commands::memory_barrier(commands::copy_write(), commands::host_read());
    playback::lemma_play_concat(g, head, wait, staging);
    playback::lemma_play_two(g, Cmd::BufferRegion(r), copy, staging);
    let mid = playback::play(g, head, staging);
    playback::lemma_play_memory_barrier(
        mid,
        commands::copy_write(),
        commands::host_read(),
        staging,
    );
    assert(g.regions.push(r) =~= seq![r]);
    assert forall|p: int| 0 <= p < 24 implies #[trigger] (mid.memory)(b.stats_host, p)
        == (g.memory)(b.stats, p) by {
        playback::lemma_copied_one(g.memory, b.stats, b.stats_host, r, b.stats_host, p);
    }
}

/// One dispatch covers every slot and no workgroup more, with each buffer at the binding
/// where the shader looks for it. It finds the counts, and the statistics where they are
/// taken, at zero, and what it leaves in the statistics reaches the host's copy.
pub proof fn law_a_cull_dispatch_covers_the_slots(
    state: CullState,
    b: CullBuffers,
    slot_count: u32,
    workgroup: u32,
    stats: bool,
    g: Gpu,
    staging: Seq<u8>,
)
    requires
        workgroup > 0,
        g.fresh(),
        b.stats != b.counts,
    ensures
        ({
            let cmds = cull_cmds(
                state.pipeline,
                state.layout,
                b,
                slot_count,
                workgroup,
                false,
                stats,
            );
            let after = playback::play(g, cmds, staging);
            let d = after.dispatches.last();
            &&& after.fresh()
            &&& after.dispatches.len() == g.dispatches.len() + 1
            &&& after.dispatches.drop_last() == g.dispatches
            &&& d.pipeline == state.pipeline
            &&& d.x * workgroup >= slot_count
            &&& slot_count > 0 ==> (d.x - 1) * workgroup < slot_count
            &&& slot_count == 0 ==> d.x == 0
            &&& d.y == 1 && d.z == 1
            &&& d.push_words.len() == 1
            &&& d.push_words[0] == if stats {
                1u32
            } else {
                0
            }
            &&& d.bindings[0] == (Binding::StorageBuffer {
                buffer: b.records,
                offset: 0,
                range: WHOLE_SIZE,
            })
            &&& d.bindings[1] == (Binding::StorageBuffer {
                buffer: b.arenas,
                offset: 0,
                range: WHOLE_SIZE,
            })
            &&& d.bindings[2] == (Binding::StorageBuffer {
                buffer: b.parts,
                offset: 0,
                range: WHOLE_SIZE,
            })
            &&& d.bindings[3] == (Binding::StorageBuffer {
                buffer: b.commands,
                offset: 0,
                range: WHOLE_SIZE,
            })
            &&& d.bindings[4] == (Binding::StorageBuffer {
                buffer: b.counts,
                offset: 0,
                range: WHOLE_SIZE,
            })
            &&& d.bindings[5] == (Binding::UniformBuffer {
                buffer: b.params,
                offset: 0,
                range: WHOLE_SIZE,
            })
            &&& d.bindings[6] == (Binding::StorageBuffer {
                buffer: b.visible,
                offset: 0,
                range: WHOLE_SIZE,
            })
            &&& d.bindings[7] == (Binding::StorageBuffer {
                buffer: b.stats,
                offset: 0,
                range: WHOLE_SIZE,
            })
            &&& forall|p: int| 0 <= p ==> #[trigger] (d.memory)(b.counts, p) == 0
            &&& stats ==> forall|p: int| 0 <= p < 24 ==> #[trigger] (d.memory)(b.stats, p) == 0
            &&& stats ==> forall|p: int|
                0 <= p < 24 ==> #[trigger] (after.memory)(b.stats_host, p) == (g.shader)(d)(
                    b.stats,
                    p,
                )
        }),
{
    let cmds = cull_cmds(state.pipeline, state.layout, b, slot_count, workgroup, false, stats);
    let after = playback::play(g, cmds, staging);
    let d = after.dispatches.last();
    let clears = cull_clears(b, stats);
    let wait = commands::memory_barrier(fill_write(), compute_storage());
    let bind = seq![Cmd::BindPipeline { pipeline: state.pipeline }];
    let set = cull_bindings(b, state.layout);
    let word = Cmd::PushWord(
        if stats {
            FLAG_STATS
        } else {
            0
        },
    );
    let push = Cmd::PushConstants { layout: state.layout };
    let groups = commands::ceil_div(slot_count as int, workgroup as int) as u32;
    let dispatch = Cmd::Dispatch { x: groups, y: 1, z: 1 };
    let run = seq![word, push, dispatch];
    let done = commands::memory_barrier(commands::compute_write(), cull_readers(stats));
    let tail = if stats {
        stats_copy(b)
    } else {
        Seq::empty()
    };
    assert(cmds == clears + wait + bind + set + run + done + tail);
    let g1 = playback::play(g, clears, staging);
    let g2 = playback::play(g1, bind, staging);
    let g3 = playback::play(g2, set, staging);
    let g4 = playback::play(g3, run, staging);
    playback::lemma_play_concat(g, clears + wait + bind + set + run + done, tail, staging);
    playback::lemma_play_concat(g, clears + wait + bind + set + run, done, staging);
    playback::lemma_play_concat(g, clears + wait + bind + set, run, staging);
    playback::lemma_play_concat(g, clears + wait + bind, set, staging);
    playback::lemma_play_concat(g, clears + wait, bind, staging);
    playback::lemma_play_concat(g, clears, wait, staging);
    playback::lemma_play_memory_barrier(g1, fill_write(), compute_storage(), staging);
    playback::lemma_play_memory_barrier(g4, commands::compute_write(), cull_readers(stats), staging);
    lemma_cull_clears(g, b, stats, staging);
    playback::lemma_play_one(g1, bind[0], staging);
    lemma_cull_set(g2, b, state.layout, staging);
    playback::lemma_play_three(g3, word, push, dispatch, staging);
    assert(after == playback::play(g4, tail, staging));
    lemma_stats_copy(g4, b, staging);
    assert(g3.staged_words.push(word->PushWord_0) =~= seq![word->PushWord_0]);
    assert(g4.dispatches.drop_last() =~= g.dispatches);
    let n = slot_count as int;
    let w = workgroup as int;
    assert(n == w * (n / w) + n % w && 0 <= n % w < w) by (nonlinear_arith)
        requires
            w > 0,
    ;
    assert(0 <= n / w <= n) by (nonlinear_arith)
        requires
            w > 0,
            n >= 0,
    ;
    assert(n % w != 0 ==> n / w + 1 <= n) by (nonlinear_arith)
        requires
            w > 0,
            n >= 0,
    ;
    assert(d.x == commands::ceil_div(n, w));
    assert((n / w + 1) * w == w * (n / w) + w) by (nonlinear_arith);
    assert((n / w) * w == w * (n / w)) by (nonlinear_arith);
    assert((n / w - 1) * w == w * (n / w) - w) by (nonlinear_arith);
    assert(n / w == 0 ==> w * (n / w) == 0) by (nonlinear_arith);
}

/// Frames whose commands the host wrote dispatch nothing.
pub proof fn law_host_frames_record_nothing(
    state: CullState,
    b: CullBuffers,
    slot_count: u32,
    workgroup: u32,
    stats: bool,
)
    ensures
        cull_cmds(state.pipeline, state.layout, b, slot_count, workgroup, true, stats).len() == 0,
{
}

/// The buffers of one dispatch.
#[derive(Clone, Copy, Debug, PartialEq, Eq, Structural)]
pub struct CullBuffers {
    pub records: u64,
    pub arenas: u64,
    pub parts: u64,
    pub commands: u64,
    pub counts: u64,
    pub params: u64,
    pub visible: u64,
    pub stats: u64,
    /// Host-visible copy of `stats`.
    pub stats_host: u64,
}

/// All of a storage buffer.
#[verifier::allow_in_spec]
pub fn whole(buffer: u64) -> Binding
    returns
        (Binding::StorageBuffer { buffer, offset: 0, range: WHOLE_SIZE }),
{
    Binding::StorageBuffer { buffer, offset: 0, range: WHOLE_SIZE }
}

/// The buffers in the shader's binding order.
pub open spec fn cull_bindings(b: CullBuffers, layout: u64) -> Seq<Cmd> {
    seq![
        Cmd::Bind { binding: 0, what: whole(b.records) },
        Cmd::Bind { binding: 1, what: whole(b.arenas) },
        Cmd::Bind { binding: 2, what: whole(b.parts) },
        Cmd::Bind { binding: 3, what: whole(b.commands) },
        Cmd::Bind { binding: 4, what: whole(b.counts) },
        Cmd::Bind {
            binding: 5,
            what: Binding::UniformBuffer { buffer: b.params, offset: 0, range: WHOLE_SIZE },
        },
        Cmd::Bind { binding: 6, what: whole(b.visible) },
        Cmd::Bind { binding: 7, what: whole(b.stats) },
        Cmd::PushSet { layout },
    ]
}

/// The buffers that a dispatch counts in start at zero.
pub open spec fn cull_clears(b: CullBuffers, stats: bool) -> Seq<Cmd> {
    let counts = Cmd::FillBuffer { buffer: b.counts, offset: 0, size: WHOLE_SIZE, word: 0 };
    if stats {
        seq![
            counts,
            Cmd::FillBuffer { buffer: b.stats, offset: 0, size: STATS_BYTES, word: 0 },
        ]
    } else {
        seq![counts]
    }
}

/// What waits for the dispatch: the draws, and the copy of the statistics.
#[verifier::allow_in_spec]
pub fn cull_readers(stats: bool) -> Access
    returns
        (if stats {
            commands::access_at(
                STAGE_DRAW_INDIRECT | STAGE_COPY,
                ACCESS_INDIRECT_COMMAND_READ | ACCESS_TRANSFER_READ,
            )
        } else {
            commands::access_at(STAGE_DRAW_INDIRECT, ACCESS_INDIRECT_COMMAND_READ)
        }),
{
    if stats {
        commands::access_at(
            STAGE_DRAW_INDIRECT | STAGE_COPY,
            ACCESS_INDIRECT_COMMAND_READ | ACCESS_TRANSFER_READ,
        )
    } else {
        commands::access_at(STAGE_DRAW_INDIRECT, ACCESS_INDIRECT_COMMAND_READ)
    }
}

/// Fills writing buffers.
#[verifier::allow_in_spec]
pub fn fill_write() -> Access
    returns
        commands::access_at(STAGE_CLEAR, ACCESS_TRANSFER_WRITE),
{
    commands::access_at(STAGE_CLEAR, ACCESS_TRANSFER_WRITE)
}

/// Shaders reading and writing storage.
#[verifier::allow_in_spec]
pub fn compute_storage() -> Access
    returns
        commands::access_at(
            STAGE_COMPUTE_SHADER,
            ACCESS_SHADER_STORAGE_READ | ACCESS_SHADER_STORAGE_WRITE,
        ),
{
    commands::access_at(
        STAGE_COMPUTE_SHADER,
        ACCESS_SHADER_STORAGE_READ | ACCESS_SHADER_STORAGE_WRITE,
    )
}

/// The statistics on their way to the host.
pub open spec fn stats_copy(b: CullBuffers) -> Seq<Cmd> {
    seq![
        Cmd::BufferRegion(BufferRegion { src_offset: 0, dst_offset: 0, size: STATS_BYTES }),
        Cmd::CopyBuffer { src: b.stats, dst: b.stats_host },
    ] + commands::memory_barrier(commands::copy_write(), commands::host_read())
}

/// The dispatch of one frame: nothing where the host has written the commands.
pub open spec fn cull_cmds(
    pipeline: u64,
    layout: u64,
    b: CullBuffers,
    slot_count: u32,
    workgroup: u32,
    on_host: bool,
    stats: bool,
) -> Seq<Cmd> {
    if on_host {
        Seq::empty()
    } else {
        cull_clears(b, stats) + commands::memory_barrier(fill_write(), compute_storage()) + seq![
            Cmd::BindPipeline { pipeline },
        ] + cull_bindings(b, layout) + seq![
            Cmd::PushWord(
                if stats {
                    FLAG_STATS
                } else {
                    0
                },
            ),
            Cmd::PushConstants { layout },
            Cmd::Dispatch {
                x: commands::ceil_div(slot_count as int, workgroup as int) as u32,
                y: 1,
                z: 1,
            },
        ] + commands::memory_barrier(commands::compute_write(), cull_readers(stats)) + if stats {
            stats_copy(b)
        } else {
            Seq::empty()
        }
    }
}

fn record_bindings(cmds: &mut Vec<Cmd>, b: CullBuffers, layout: u64)
    ensures
        final(cmds)@ == old(cmds)@ + cull_bindings(b, layout),
{
    let ghost orig = cmds@;
    cmds.push(Cmd::Bind { binding: 0, what: whole(b.records) });
    cmds.push(Cmd::Bind { binding: 1, what: whole(b.arenas) });
    cmds.push(Cmd::Bind { binding: 2, what: whole(b.parts) });
    cmds.push(Cmd::Bind { binding: 3, what: whole(b.commands) });
    cmds.push(Cmd::Bind { binding: 4, what: whole(b.counts) });
    cmds.push(
        Cmd::Bind {
            binding: 5,
            what: Binding::UniformBuffer { buffer: b.params, offset: 0, range: WHOLE_SIZE },
        },
    );
    cmds.push(Cmd::Bind { binding: 6, what: whole(b.visible) });
    cmds.push(Cmd::Bind { binding: 7, what: whole(b.stats) });
    cmds.push(Cmd::PushSet { layout });
    proof {
        assert(cmds@ =~= orig + cull_bindings(b, layout));
    }
}

fn record_dispatch(cmds: &mut Vec<Cmd>, layout: u64, slot_count: u32, workgroup: u32, stats: bool)
    requires
        workgroup > 0,
    ensures
        final(cmds)@ == old(cmds)@ + seq![
            Cmd::PushWord(
                if stats {
                    FLAG_STATS
                } else {
                    0
                },
            ),
            Cmd::PushConstants { layout },
            Cmd::Dispatch {
                x: commands::ceil_div(slot_count as int, workgroup as int) as u32,
                y: 1,
                z: 1,
            },
        ],
{
    let ghost orig = cmds@;
    let flags: u32 = if stats {
        FLAG_STATS
    } else {
        0
    };
    let x: u32 = commands::div_ceil(slot_count, workgroup);
    cmds.push(Cmd::PushWord(flags));
    cmds.push(Cmd::PushConstants { layout });
    cmds.push(Cmd::Dispatch { x, y: 1, z: 1 });
    proof {
        assert(cmds@ =~= orig + seq![
            Cmd::PushWord(flags),
            Cmd::PushConstants { layout },
            Cmd::Dispatch { x, y: 1, z: 1 },
        ]);
    }
}

fn record_cull(
    pipeline: u64,
    layout: u64,
    b: CullBuffers,
    slot_count: u32,
    workgroup: u32,
    on_host: bool,
    stats: bool,
) -> (cmds: Vec<Cmd>)
    requires
        workgroup > 0,
    ensures
        cmds@ == cull_cmds(pipeline, layout, b, slot_count, workgroup, on_host, stats),
{
    let mut cmds: Vec<Cmd> = Vec::new();
    if on_host {
        return cmds;
    }
    cmds.push(Cmd::FillBuffer { buffer: b.counts, offset: 0, size: WHOLE_SIZE, word: 0 });
    if stats {
        cmds.push(Cmd::FillBuffer { buffer: b.stats, offset: 0, size: STATS_BYTES, word: 0 });
    }
    proof {
        assert(cmds@ =~= cull_clears(b, stats));
    }
    commands::record_memory_barrier(&mut cmds, fill_write(), compute_storage());
    commands::push_one(&mut cmds, Cmd::BindPipeline { pipeline });
    record_bindings(&mut cmds, b, layout);
    record_dispatch(&mut cmds, layout, slot_count, workgroup, stats);
    commands::record_memory_barrier(&mut cmds, commands::compute_write(), cull_readers(stats));
    let ghost part = cmds@;
    if stats {
        cmds.push(
            Cmd::BufferRegion(BufferRegion { src_offset: 0, dst_offset: 0, size: STATS_BYTES }),
        );
        cmds.push(Cmd::CopyBuffer { src: b.stats, dst: b.stats_host });
        commands::record_memory_barrier(&mut cmds, commands::copy_write(), commands::host_read());
        proof {
            assert(cmds@ =~= part + stats_copy(b));
        }
    } else {
        proof {
            assert(cmds@ =~= part + Seq::<Cmd>::empty());
        }
    }
    cmds
}

/// What the dispatch is told, floats as bit patterns: five camera planes, two
/// times five shadow planes, the camera's block and its place inside it, and the
/// slab that full-resolution meshes cover.
#[derive(Clone, Copy, Debug)]
pub struct CullParams {
    pub cam_planes: [u32; 20],
    /// Zero where no shadow is drawn.
    pub shadow_planes: [u32; 40],
    pub cam_block: [u32; 3],
    pub slot_count: u32,
    pub cam_frac: [u32; 3],
    pub arena_count: u32,
    pub shadow: bool,
    pub face_cull: bool,
    pub clip: u32,
    pub clip_v: u32,
}

/// Words of the parameter block.
pub const CULL_PARAM_WORDS: usize = 72;

/// Words of a flag.
pub open spec fn flag_word(on: bool) -> u32 {
    if on {
        1
    } else {
        0
    }
}

/// The parameter block as the shader reads it.
pub open spec fn params_words(p: CullParams) -> Seq<u32> {
    p.cam_planes@ + p.shadow_planes@ + p.cam_block@ + seq![p.slot_count] + p.cam_frac@ + seq![
        p.arena_count,
        flag_word(p.shadow),
        flag_word(p.face_cull),
        p.clip,
        p.clip_v,
    ]
}

impl CullParams {
    pub fn words(&self) -> (w: Vec<u32>)
        ensures
            w@ == params_words(*self),
            w.len() == CULL_PARAM_WORDS,
    {
        let mut w: Vec<u32> = Vec::new();
        let mut i: usize = 0;
        while i < 20
            invariant
                i <= 20,
                w@ == self.cam_planes@.take(i as int),
            decreases 20 - i,
        {
            w.push(self.cam_planes[i]);
            i = i + 1;
            proof {
                assert(w@ =~= self.cam_planes@.take(i as int));
            }
        }
        let mut j: usize = 0;
        proof {
            assert(self.cam_planes@.take(20) =~= self.cam_planes@);
            assert(w@ =~= self.cam_planes@ + self.shadow_planes@.take(0));
        }
        while j < 40
            invariant
                j <= 40,
                w@ == self.cam_planes@ + self.shadow_planes@.take(j as int),
            decreases 40 - j,
        {
            w.push(self.shadow_planes[j]);
            j = j + 1;
            proof {
                assert(w@ =~= self.cam_planes@ + self.shadow_planes@.take(j as int));
            }
        }
        proof {
            assert(self.shadow_planes@.take(40) =~= self.shadow_planes@);
        }
        w.push(self.cam_block[0]);
        w.push(self.cam_block[1]);
        w.push(self.cam_block[2]);
        w.push(self.slot_count);
        w.push(self.cam_frac[0]);
        w.push(self.cam_frac[1]);
        w.push(self.cam_frac[2]);
        w.push(self.arena_count);
        w.push(
            if self.shadow {
                1
            } else {
                0
            },
        );
        w.push(
            if self.face_cull {
                1
            } else {
                0
            },
        );
        w.push(self.clip);
        w.push(self.clip_v);
        proof {
            assert(w@ =~= params_words(*self));
        }
        w
    }

    /// The parameter block in memory.
    pub fn bytes(&self) -> (b: Vec<u8>)
        ensures
            bytes::in_memory(params_words(*self), b@),
            b.len() == 288,
    {
        let w = self.words();
        bytes::words_to_bytes(w.as_slice())
    }
}

/// A grown buffer holds what is needed, is a power of two, and is never smaller than a
/// page.
pub proof fn law_a_device_buffer_holds_what_is_needed(needed: int)
    requires
        needed >= 1,
    ensures
        device_capacity(needed) >= needed,
        device_capacity(needed) >= 4096,
        device_capacity(needed) == 4096 || device_capacity(needed) < 2 * needed,
{
    numbers::law_next_pow2_is_least(needed);
}

/// The setting decides up to how many records the host culls, where it is a number of 32
/// bits; anything else leaves the default.
pub proof fn law_the_setting_limits_the_host(setting: Option<&str>)
    ensures
        setting is None ==> limit_of(setting) == 1024,
        setting matches Some(s) ==> (text::number_in(s@) matches Some(n) ==> (n <= u32::MAX
            ==> limit_of(setting) == n) && (n > u32::MAX ==> limit_of(setting) == 1024)) && (
        text::number_in(s@) is None ==> limit_of(setting) == 1024),
{
}

/// Partitions that any command goes to are written, each once and in the order of the
/// table, and no empty one is.
pub proof fn law_every_filled_partition_is_written(
    parts: Seq<PartitionGpu>,
    cmds: Seq<Vec<DrawIndexedIndirect>>,
    writes: Seq<HostWrite>,
    p: int,
)
    requires
        writes_ok(parts, cmds, writes),
        0 <= p < parts.len(),
        parts.len() <= cmds.len(),
        cmds[p].len() > 0,
    ensures
        exists|k: int|
            0 <= k < writes.len() && (#[trigger] writes[k]).offset == 20 * parts[p].offset && (
            commands_at(writes[k].bytes@, true) == cmds[p]@ || commands_at(
                writes[k].bytes@,
                false,
            ) == cmds[p]@),
{
    let n = parts.len() as int;
    lemma_filled_lists(cmds, n);
    let list = filled(cmds, n);
    assert(list.contains(p));
    let k = choose|k: int| 0 <= k < list.len() && list[k] == p;
    assert(writes_partition(writes[k], parts[list[k]], cmds[list[k]]@));
    law_host_writes_read_back(parts[p], cmds[p]@, writes[k]);
    assert(writes[k].offset == 20 * parts[p].offset);
}

proof fn lemma_filled_lists(cmds: Seq<Vec<DrawIndexedIndirect>>, n: int)
    requires
        0 <= n <= cmds.len(),
    ensures
        forall|p: int| 0 <= p < n && (#[trigger] cmds[p]).len() > 0 ==> filled(cmds, n).contains(p),
    decreases n,
{
    let list = filled(cmds, n);
    if n > 0 {
        let less = filled(cmds, n - 1);
        lemma_filled_lists(cmds, n - 1);
        assert forall|p: int| 0 <= p < n && (#[trigger] cmds[p]).len() > 0 implies list.contains(
            p,
        ) by {
            if p < n - 1 {
                assert(less.contains(p));
                let k = choose|k: int| 0 <= k < less.len() && less[k] == p;
                assert(list[k] == p);
            } else {
                assert(list[list.len() - 1] == p);
            }
        }
    }
}

/// Everything in a cull waits for what it reads: the dispatch for the buffers that it counts
/// in to be cleared, the draws for the commands that it wrote, and the host for the
/// statistics that are copied out.
pub proof fn law_a_cull_waits_for_what_it_reads(
    pipeline: u64,
    layout: u64,
    b: CullBuffers,
    slot_count: u32,
    workgroup: u32,
    stats: bool,
)
    ensures
        ({
            let cmds = cull_cmds(pipeline, layout, b, slot_count, workgroup, false, stats);
            &&& ordering::waits(ordering::settled(), cmds)
            &&& ordering::after(ordering::settled(), cmds) == (Flow {
                dirty: None,
                ready: if stats {
                    commands::host_read()
                } else {
                    ordering::drawing()
                },
            })
        }),
{
    let f0 = ordering::settled();
    let clears = cull_clears(b, stats);
    let wait = commands::memory_barrier(fill_write(), compute_storage());
    let setup = seq![Cmd::BindPipeline { pipeline }] + cull_bindings(b, layout) + seq![
        Cmd::PushWord(
            if stats {
                FLAG_STATS
            } else {
                0
            },
        ),
        Cmd::PushConstants { layout },
    ];
    let run = Cmd::Dispatch {
        x: commands::ceil_div(slot_count as int, workgroup as int) as u32,
        y: 1,
        z: 1,
    };
    let done = commands::memory_barrier(commands::compute_write(), cull_readers(stats));
    let region = Cmd::BufferRegion(BufferRegion { src_offset: 0, dst_offset: 0, size: STATS_BYTES });
    let copy = seq![region, Cmd::CopyBuffer { src: b.stats, dst: b.stats_host }];
    let shown = commands::memory_barrier(commands::copy_write(), commands::host_read());
    lemma_clears_flow(b, stats);
    let f1 = ordering::after(f0, clears);
    ordering::lemma_barrier(f1, fill_write(), compute_storage());
    let f2 = ordering::after(f1, wait);
    ordering::lemma_quiet(f2, setup);
    ordering::lemma_one(f2, run);
    let f3 = ordering::after_one(f2, run);
    ordering::lemma_barrier(f3, commands::compute_write(), cull_readers(stats));
    let f4 = ordering::after(f3, done);
    ordering::lemma_concat(f0, clears, wait);
    ordering::lemma_concat(f0, clears + wait, setup);
    ordering::lemma_concat(f0, clears + wait + setup, seq![run]);
    ordering::lemma_concat(f0, clears + wait + setup + seq![run], done);
    let cmds = cull_cmds(pipeline, layout, b, slot_count, workgroup, false, stats);
    let most = clears + wait + setup + seq![run] + done;
    if stats {
        ordering::lemma_copy(f4, region, b.stats, b.stats_host);
        let f5 = ordering::after(f4, copy);
        ordering::lemma_barrier(f5, commands::copy_write(), commands::host_read());
        ordering::lemma_concat(f0, most, copy);
        ordering::lemma_concat(f0, most + copy, shown);
        assert(cmds =~= most + copy + shown);
    } else {
        assert(cmds =~= most);
    }
}

proof fn lemma_clears_flow(b: CullBuffers, stats: bool)
    ensures
        ordering::waits(ordering::settled(), cull_clears(b, stats)),
        ordering::after(ordering::settled(), cull_clears(b, stats)) == (Flow {
            dirty: Some(ordering::filling()),
            ready: ordering::shading(),
        }),
{
    let f0 = ordering::settled();
    let clears = cull_clears(b, stats);
    let c = clears[0];
    ordering::lemma_one(f0, c);
    if stats {
        let d = clears[1];
        ordering::lemma_one(ordering::after_one(f0, c), d);
        ordering::lemma_concat(f0, seq![c], seq![d]);
        assert(clears =~= seq![c] + seq![d]);
    } else {
        assert(clears =~= seq![c]);
    }
}

/// What a dispatch binds is what the layout of its set declares: every binding of the layout
/// is given a buffer of the declared kind, and no other is given one.
pub proof fn law_bindings_fill_the_cull_layout(b: CullBuffers, layout: u64, i: int)
    requires
        0 <= i < descriptors::cull_layout().len(),
    ensures
        ({
            let declared = descriptors::cull_layout()[i];
            let bound = cull_bindings(b, layout)[i];
            &&& cull_bindings(b, layout).len() == descriptors::cull_layout().len() + 1
            &&& cull_bindings(b, layout).last() is PushSet
            &&& bound is Bind && bound->Bind_binding == declared.binding
            &&& declared.kind is UniformBuffer ==> bound->Bind_what is UniformBuffer
            &&& declared.kind is StorageBuffer ==> bound->Bind_what is StorageBuffer
            &&& declared.kind is UniformBuffer || declared.kind is StorageBuffer
            &&& declared.stages == descriptors::SHADER_COMPUTE
        }),
{
}

} // verus!
