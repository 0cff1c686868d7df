//! Fixed-capacity table of material descriptions, one per texture layer.
//!
//! The table starts out as the default for every layer. Sets and appends mark the
//! entries that changed; a flush copies that range on the lane with no host wait.
//! The buffer is never reallocated.

use vstd::prelude::*;

use crate::bytes;
use crate::commands;
use crate::commands::{
    BufferBarrier, BufferRegion, Cmd, ACCESS_SHADER_STORAGE_READ, NO_HANDOVER,
    STAGE_FRAGMENT_SHADER,
};
use crate::copies;
use crate::copies::CopyBarrier;
use crate::lane::{ExtraWait, Lane};
use crate::playback;
use crate::playback::{Gpu, Memory};
use crate::retire;
use crate::retire::{RetireQueue, TimelineValue};

verus! {

/// Entries of the table: every layer that a vertex can name.
pub const MATERIAL_DESC_CAPACITY: usize = 16384;

/// Bytes of one entry.
pub const ENTRY_BYTES: u64 = 16;

/// Bytes of the table.
pub const TABLE_BYTES: u64 = 0x4_0000;

/// The layer is shaded procedurally instead of sampled.
pub const MATERIAL_FLAG_PROCEDURAL: u32 = 1;

/// How one layer is shaded: flag bits and three parameter words.
#[derive(Clone, Copy, Debug, PartialEq, Eq, Structural)]
pub struct MaterialDesc {
    pub flags: u32,
    pub param0: u32,
    pub param1: u32,
    pub param2: u32,
}

impl MaterialDesc {
    /// The default: sample the array layer.
    #[verifier::allow_in_spec]
    pub fn array_layer() -> MaterialDesc
        returns
            (MaterialDesc { flags: 0, param0: 0, param1: 0, param2: 0 }),
    {
        MaterialDesc { flags: 0, param0: 0, param1: 0, param2: 0 }
    }
}

/// The default for every layer.
pub open spec fn default_table() -> Seq<MaterialDesc> {
    Seq::new(MATERIAL_DESC_CAPACITY as nat, |i: int| MaterialDesc::array_layer())
}

pub fn default_material_table() -> (t: Vec<MaterialDesc>)
    ensures
        t@ == default_table(),
{
    let mut t: Vec<MaterialDesc> = Vec::new();
    while t.len() < MATERIAL_DESC_CAPACITY
        invariant
            t.len() <= MATERIAL_DESC_CAPACITY,
            forall|i: int| 0 <= i < t.len() ==> #[trigger] t[i] == MaterialDesc::array_layer(),
        decreases MATERIAL_DESC_CAPACITY - t.len(),
    {
        t.push(MaterialDesc::array_layer());
    }
    proof {
        assert(t@ =~= default_table());
    }
    t
}

/// As many of `n` entries as fit behind `used`.
pub open spec fn fitting(used: int, n: int) -> int {
    if used + n <= MATERIAL_DESC_CAPACITY {
        n
    } else {
        MATERIAL_DESC_CAPACITY - used
    }
}

/// The table after `descs` replace everything.
pub open spec fn set_table(descs: Seq<MaterialDesc>) -> Seq<MaterialDesc> {
    Seq::new(
        MATERIAL_DESC_CAPACITY as nat,
        |i: int|
            if i < descs.len() {
                descs[i]
            } else {
                MaterialDesc::array_layer()
            },
    )
}

/// The table after `descs` follow the first `used` entries.
pub open spec fn append_table(
    cpu: Seq<MaterialDesc>,
    used: int,
    descs: Seq<MaterialDesc>,
) -> Seq<MaterialDesc> {
    Seq::new(
        MATERIAL_DESC_CAPACITY as nat,
        |i: int|
            if used <= i < used + descs.len() {
                descs[i - used]
            } else {
                cpu[i]
            },
    )
}

/// Replaces the table; what is left of it goes back to the default. Returns the
/// count of entries in use; what does not fit is dropped.
pub fn write_material_set(cpu: &mut Vec<MaterialDesc>, descs: &[MaterialDesc]) -> (used: usize)
    requires
        old(cpu).len() == MATERIAL_DESC_CAPACITY,
    ensures
        used == fitting(0, descs@.len() as int),
        final(cpu)@ == set_table(descs@),
{
    let n: usize = if descs.len() < MATERIAL_DESC_CAPACITY {
        descs.len()
    } else {
        MATERIAL_DESC_CAPACITY
    };
    let mut i: usize = 0;
    while i < MATERIAL_DESC_CAPACITY
        invariant
            cpu.len() == MATERIAL_DESC_CAPACITY,
            i <= MATERIAL_DESC_CAPACITY,
            n == fitting(0, descs@.len() as int),
            forall|k: int| 0 <= k < i ==> #[trigger] cpu[k] == set_table(descs@)[k],
        decreases MATERIAL_DESC_CAPACITY - i,
    {
        if i < n {
            cpu.set(i, descs[i]);
        } else {
            cpu.set(i, MaterialDesc::array_layer());
        }
        i = i + 1;
    }
    proof {
        assert(cpu@ =~= set_table(descs@));
    }
    n
}

/// Writes `descs` behind the first `used` entries. Returns the new count; what
/// does not fit is dropped.
pub fn write_material_append(
    cpu: &mut Vec<MaterialDesc>,
    used: usize,
    descs: &[MaterialDesc],
) -> (now: usize)
    requires
        old(cpu).len() == MATERIAL_DESC_CAPACITY,
        used <= MATERIAL_DESC_CAPACITY,
    ensures
        now == used + fitting(used as int, descs@.len() as int),
        final(cpu)@ == append_table(old(cpu)@, used as int, descs@),
{
    let ghost orig = cpu@;
    let room: usize = MATERIAL_DESC_CAPACITY - used;
    let n: usize = if descs.len() < room {
        descs.len()
    } else {
        room
    };
    let mut i: usize = 0;
    while i < n
        invariant
            cpu.len() == MATERIAL_DESC_CAPACITY,
            orig.len() == MATERIAL_DESC_CAPACITY,
            used + n <= MATERIAL_DESC_CAPACITY,
            n <= descs@.len(),
            i <= n,
            forall|k: int|
                0 <= k < cpu.len() ==> #[trigger] cpu[k] == if used <= k < used + i {
                    descs@[k - used]
                } else {
                    orig[k]
                },
        decreases n - i,
    {
        cpu.set(used + i, descs[i]);
        i = i + 1;
    }
    proof {
        assert(cpu@ =~= append_table(orig, used as int, descs@));
    }
    used + n
}

/// The barrier for `role` where the fragment shader reads what a copy wrote.
#[verifier::allow_in_spec]
pub fn material_copy_barrier(buffer: u64, offset: u64, size: u64, role: CopyBarrier) -> BufferBarrier
    returns
        (match role {
            CopyBarrier::Release { src_family, dst_family } => copies::copy_barrier(
                buffer,
                offset,
                size,
                ACCESS_SHADER_STORAGE_READ,
                role,
            ),
            _ => BufferBarrier {
                dst: commands::access_at(STAGE_FRAGMENT_SHADER, ACCESS_SHADER_STORAGE_READ),
                ..copies::copy_barrier(buffer, offset, size, ACCESS_SHADER_STORAGE_READ, role)
            },
        }),
{
    let b = copies::copy_barrier(buffer, offset, size, ACCESS_SHADER_STORAGE_READ, role);
    match role {
        CopyBarrier::Release { src_family, dst_family } => b,
        _ => BufferBarrier {
            dst: commands::access_at(STAGE_FRAGMENT_SHADER, ACCESS_SHADER_STORAGE_READ),
            ..b
        },
    }
}

/// The four words of each entry.
pub open spec fn words_of(descs: Seq<MaterialDesc>) -> Seq<u32> {
    Seq::new(
        4 * descs.len(),
        |i: int|
            {
                let d = descs[i / 4];
                if i % 4 == 0 {
                    d.flags
                } else if i % 4 == 1 {
                    d.param0
                } else if i % 4 == 2 {
                    d.param1
                } else {
                    d.param2
                }
            },
    )
}

/// The words of the entries `lo .. hi`.
fn collect_words(cpu: &Vec<MaterialDesc>, lo: usize, hi: usize) -> (words: Vec<u32>)
    requires
        lo <= hi <= cpu.len(),
    ensures
        words@ == words_of(cpu@.subrange(lo as int, hi as int)),
{
    let ghost part = cpu@.subrange(lo as int, hi as int);
    let mut words: Vec<u32> = Vec::new();
    let mut i: usize = lo;
    while i < hi
        invariant
            lo <= i <= hi <= cpu.len(),
            part == cpu@.subrange(lo as int, hi as int),
            words.len() == 4 * (i - lo),
            forall|k: int| 0 <= k < words.len() ==> #[trigger] words[k] == words_of(part)[k],
        decreases hi - i,
    {
        let d: MaterialDesc = cpu[i];
        words.push(d.flags);
        words.push(d.param0);
        words.push(d.param1);
        words.push(d.param2);
        proof {
            assert(part[i - lo] == d);
        }
        i = i + 1;
    }
    proof {
        assert(words@ =~= words_of(part));
    }
    words
}

pub struct MaterialTable {
    pub buffer: u64,
    pub memory: u64,
    pub cpu: Vec<MaterialDesc>,
    /// Entries in use.
    pub used: usize,
    /// Entries changed since the last flush.
    pub pending_lo: u32,
    pub pending_hi: u32,
    pub staging_retire: RetireQueue<(u64, u64)>,
    pub transfer_retire: RetireQueue<(u64, u64)>,
    pub release_cmds: RetireQueue<(u64, u64)>,
    /// What the recorded work leaves in the buffer.
    pub gpu: Ghost<Seq<MaterialDesc>>,
}

/// The recorded copy of the changed entries.
pub struct TableFlush {
    /// For a graphics command buffer submitted first, where it is not empty.
    pub release: Vec<Cmd>,
    pub wait: ExtraWait,
    /// `record` goes to the lane, not to the frame's command buffer.
    pub on_lane: bool,
    pub record: Vec<Cmd>,
    /// For the frame's command buffer.
    pub acquire: Vec<Cmd>,
    /// Contents of the staging buffer.
    pub bytes: Vec<u8>,
}

/// Fragment shaders reading the table.
#[verifier::allow_in_spec]
pub fn table_read() -> commands::Access
    returns
        commands::access_at(STAGE_FRAGMENT_SHADER, ACCESS_SHADER_STORAGE_READ),
{
    commands::access_at(STAGE_FRAGMENT_SHADER, ACCESS_SHADER_STORAGE_READ)
}

/// A barrier over the table's range.
#[verifier::allow_in_spec]
pub fn range_barrier(
    buffer: u64,
    offset: u64,
    size: u64,
    src: commands::Access,
    dst: commands::Access,
    families: (u32, u32),
) -> BufferBarrier
    returns
        (BufferBarrier {
            buffer,
            offset,
            size,
            src,
            dst,
            src_family: families.0,
            dst_family: families.1,
        }),
{
    BufferBarrier {
        buffer,
        offset,
        size,
        src,
        dst,
        src_family: families.0,
        dst_family: families.1,
    }
}

/// The staged copy of `size` bytes to `offset`.
pub open spec fn table_copy(buffer: u64, offset: u64, size: u64) -> Seq<Cmd> {
    seq![
        Cmd::BufferRegion(BufferRegion { src_offset: 0, dst_offset: offset, size }),
        Cmd::CopyStaging { dst: buffer },
    ]
}

/// One buffer barrier of its own.
pub open spec fn single(b: BufferBarrier) -> Seq<Cmd> {
    seq![Cmd::BufferBarrier(b), Cmd::Barriers]
}

fn record_barrier(cmds: &mut Vec<Cmd>, b: BufferBarrier)
    ensures
        final(cmds)@ == old(cmds)@ + single(b),
{
    let ghost orig = cmds@;
    cmds.push(Cmd::BufferBarrier(b));
    cmds.push(Cmd::Barriers);
    proof {
        assert(cmds@ =~= orig + single(b));
    }
}

fn record_table_copy(cmds: &mut Vec<Cmd>, buffer: u64, offset: u64, size: u64)
    ensures
        final(cmds)@ == old(cmds)@ + table_copy(buffer, offset, size),
{
    let ghost orig = cmds@;
    cmds.push(Cmd::BufferRegion(BufferRegion { src_offset: 0, dst_offset: offset, size }));
    cmds.push(Cmd::CopyStaging { dst: buffer });
    proof {
        assert(cmds@ =~= orig + table_copy(buffer, offset, size));
    }
}

/// The copy of a changed range: on the frame's own queue between two barriers; on
/// another queue of its family bare, ordered by timelines; on another family
/// between an acquire and a release.
pub open spec fn flush_record(
    buffer: u64,
    offset: u64,
    size: u64,
    lane: Lane,
    graphics_family: u32,
) -> Seq<Cmd> {
    if !lane.is_separate_queue() {
        single(
            range_barrier(
                buffer,
                offset,
                size,
                table_read(),
                commands::copy_write(),
                (NO_HANDOVER, NO_HANDOVER),
            ),
        ) + table_copy(buffer, offset, size) + single(
            material_copy_barrier(buffer, offset, size, CopyBarrier::Draw),
        )
    } else if lane.needs_ownership_transfer() {
        single(
            range_barrier(
                buffer,
                offset,
                size,
                commands::no_access(),
                commands::copy_write(),
                (graphics_family, lane.family),
            ),
        ) + table_copy(buffer, offset, size) + single(
            material_copy_barrier(
                buffer,
                offset,
                size,
                CopyBarrier::Release { src_family: lane.family, dst_family: graphics_family },
            ),
        )
    } else {
        table_copy(buffer, offset, size)
    }
}

/// What a copy of `entries` to `lo` leaves of `gpu`.
pub open spec fn overlaid(
    gpu: Seq<MaterialDesc>,
    lo: int,
    entries: Seq<MaterialDesc>,
) -> Seq<MaterialDesc> {
    Seq::new(
        gpu.len(),
        |i: int|
            if lo <= i < lo + entries.len() {
                entries[i - lo]
            } else {
                gpu[i]
            },
    )
}

/// The flush of the entries `lo .. hi`.
pub open spec fn flush_plan(
    t: &MaterialTable,
    lane: Lane,
    graphics_family: u32,
    f: TableFlush,
) -> bool {
    let lo = t.pending_lo as int;
    let hi = t.pending_hi as int;
    let offset = (lo * 16) as u64;
    let size = ((hi - lo) * 16) as u64;
    let transfer = lane.needs_ownership_transfer();
    &&& f.on_lane == lane.is_separate_queue()
    &&& f.wait == if transfer {
        ExtraWait::Release
    } else if lane.is_separate_queue() {
        ExtraWait::LastRender
    } else {
        ExtraWait::Nothing
    }
    &&& f.release@ == if transfer {
        single(
            range_barrier(
                t.buffer,
                offset,
                size,
                table_read(),
                commands::no_access(),
                (graphics_family, lane.family),
            ),
        )
    } else {
        Seq::empty()
    }
    &&& f.record@ == flush_record(t.buffer, offset, size, lane, graphics_family)
    &&& f.acquire@ == if transfer {
        single(
            material_copy_barrier(
                t.buffer,
                offset,
                size,
                CopyBarrier::Acquire { src_family: lane.family, dst_family: graphics_family },
            ),
        )
    } else {
        Seq::empty()
    }
    &&& bytes::in_memory(words_of(t.cpu@.subrange(lo, hi)), f.bytes@)
}

impl MaterialTable {
    pub open spec fn wf(&self) -> bool {
        &&& self.cpu.len() == MATERIAL_DESC_CAPACITY
        &&& self.used <= MATERIAL_DESC_CAPACITY
        &&& self.pending_lo <= self.pending_hi <= MATERIAL_DESC_CAPACITY
        &&& forall|i: int|
            self.used <= i < MATERIAL_DESC_CAPACITY ==> #[trigger] self.cpu[i]
                == MaterialDesc::array_layer()
        &&& self.gpu@.len() == MATERIAL_DESC_CAPACITY
        &&& forall|i: int|
            0 <= i < MATERIAL_DESC_CAPACITY && !(self.pending_lo <= i < self.pending_hi)
                ==> self.gpu@[i] == #[trigger] self.cpu[i]
    }

    /// The default table. Nothing is known of the new buffer until
    /// [`Self::upload_blocking`]: every entry waits.
    pub fn new(buffer: u64, memory: u64) -> (t: Self)
        ensures
            t.wf(),
            t.buffer == buffer,
            t.memory == memory,
            t.cpu@ == default_table(),
            t.used == 0,
            t.pending_lo == 0,
            t.pending_hi == MATERIAL_DESC_CAPACITY,
            t.staging_retire@.len() == 0,
            t.transfer_retire@.len() == 0,
            t.release_cmds@.len() == 0,
    {
        let cpu = default_material_table();
        let ghost unknown = Seq::new(
            MATERIAL_DESC_CAPACITY as nat,
            |i: int| arbitrary::<MaterialDesc>(),
        );
        MaterialTable {
            buffer,
            memory,
            cpu,
            used: 0,
            pending_lo: 0,
            pending_hi: 16384,
            staging_retire: RetireQueue::new(),
            transfer_retire: RetireQueue::new(),
            release_cmds: RetireQueue::new(),
            gpu: Ghost(unknown),
        }
    }

    pub fn buffer(&self) -> (r: u64)
        ensures
            r == self.buffer,
    {
        self.buffer
    }

    pub fn used(&self) -> (r: usize)
        ensures
            r == self.used,
    {
        self.used
    }

    /// Changed entries wait for a flush; the GPU may be reading the old ones.
    pub fn has_overwrite_pending(&self) -> (r: bool)
        ensures
            r == (self.pending_lo < self.pending_hi),
    {
        self.pending_lo < self.pending_hi
    }

    /// Something waits for a timeline.
    pub fn has_garbage(&self) -> (r: bool)
        ensures
            r == (self.staging_retire@.len() > 0 || self.transfer_retire@.len() > 0
                || self.release_cmds@.len() > 0),
    {
        !self.staging_retire.is_empty() || !self.transfer_retire.is_empty()
            || !self.release_cmds.is_empty()
    }

    /// Replaces the whole table. Entries past the capacity are dropped, and entries
    /// that were in use go back to the default.
    pub fn queue_set(&mut self, descs: &[MaterialDesc])
        requires
            old(self).wf(),
        ensures
            final(self).wf(),
            final(self).cpu@ == set_table(descs@),
            final(self).used == fitting(0, descs@.len() as int),
            (final(self).pending_lo, final(self).pending_hi) == marked(
                old(self).pending_lo,
                old(self).pending_hi,
                0,
                if old(self).used > final(self).used {
                    old(self).used as u32
                } else {
                    final(self).used as u32
                },
            ),
            *final(self) == (MaterialTable {
                cpu: final(self).cpu,
                used: final(self).used,
                pending_lo: final(self).pending_lo,
                pending_hi: final(self).pending_hi,
                ..*old(self)
            }),
    {
        let ghost s0 = *self;
        let old_used: usize = self.used;
        self.used = write_material_set(&mut self.cpu, descs);
        let top: usize = if old_used > self.used {
            old_used
        } else {
            self.used
        };
        self.mark_pending(0, top as u32);
        proof {
            assert forall|i: int|
                0 <= i < MATERIAL_DESC_CAPACITY && !(self.pending_lo <= i
                    < self.pending_hi) implies self.gpu@[i] == #[trigger] self.cpu[i] by {
                assert(self.cpu@[i] == set_table(descs@)[i]);
                assert(s0.cpu[i] == MaterialDesc::array_layer());
            }
        }
    }

    /// Appends behind the entries in use. What does not fit is dropped.
    pub fn queue_append(&mut self, descs: &[MaterialDesc])
        requires
            old(self).wf(),
        ensures
            final(self).wf(),
            final(self).cpu@ == append_table(old(self).cpu@, old(self).used as int, descs@),
            final(self).used == old(self).used + fitting(
                old(self).used as int,
                descs@.len() as int,
            ),
            (final(self).pending_lo, final(self).pending_hi) == marked(
                old(self).pending_lo,
                old(self).pending_hi,
                old(self).used as u32,
                final(self).used as u32,
            ),
            *final(self) == (MaterialTable {
                cpu: final(self).cpu,
                used: final(self).used,
                pending_lo: final(self).pending_lo,
                pending_hi: final(self).pending_hi,
                ..*old(self)
            }),
    {
        let start: usize = self.used;
        self.used = write_material_append(&mut self.cpu, start, descs);
        self.mark_pending(start as u32, self.used as u32);
    }

    /// Adds `lo .. hi` to the changed range.
    fn mark_pending(&mut self, lo: u32, hi: u32)
        ensures
            (final(self).pending_lo, final(self).pending_hi) == marked(
                old(self).pending_lo,
                old(self).pending_hi,
                lo,
                hi,
            ),
            *final(self) == (MaterialTable {
                pending_lo: final(self).pending_lo,
                pending_hi: final(self).pending_hi,
                ..*old(self)
            }),
    {
        if lo >= hi {
            return ;
        }
        if self.pending_lo >= self.pending_hi {
            self.pending_lo = lo;
            self.pending_hi = hi;
        } else {
            if lo < self.pending_lo {
                self.pending_lo = lo;
            }
            if hi > self.pending_hi {
                self.pending_hi = hi;
            }
        }
    }

    /// Records the copy of the changed entries; `None` when there are none.
    pub fn flush(&mut self, lane: Lane, graphics_family: u32) -> (r: Option<TableFlush>)
        requires
            old(self).wf(),
        ensures
            final(self).wf(),
            match r {
                None => old(self).pending_lo >= old(self).pending_hi && *final(self) == *old(self),
                Some(f) => {
                    &&& old(self).pending_lo < old(self).pending_hi
                    &&& flush_plan(old(self), lane, graphics_family, f)
                    &&& final(self).pending_lo == 0
                    &&& final(self).pending_hi == 0
                    &&& *final(self) == (MaterialTable {
                        pending_lo: 0,
                        pending_hi: 0,
                        gpu: final(self).gpu,
                        ..*old(self)
                    })
                },
            },
            final(self).gpu@ == overlaid(
                old(self).gpu@,
                old(self).pending_lo as int,
                old(self).cpu@.subrange(
                    old(self).pending_lo as int,
                    old(self).pending_hi as int,
                ),
            ),
            final(self).gpu@ == final(self).cpu@,
    {
        let ghost s0 = *self;
        let ghost after = overlaid(
            s0.gpu@,
            s0.pending_lo as int,
            s0.cpu@.subrange(s0.pending_lo as int, s0.pending_hi as int),
        );
        proof {
            assert forall|i: int| 0 <= i < MATERIAL_DESC_CAPACITY implies after[i] == s0.cpu@[i] by {
                if !(s0.pending_lo <= i < s0.pending_hi) {
                    assert(s0.gpu@[i] == s0.cpu[i]);
                }
            }
            assert(after =~= s0.cpu@);
        }
        if self.pending_lo >= self.pending_hi {
            proof {
                assert(after =~= self.gpu@);
            }
            return None;
        }
        let lo: u32 = self.pending_lo;
        let hi: u32 = self.pending_hi;
        self.pending_lo = 0;
        self.pending_hi = 0;
        self.gpu = Ghost(after);
        let offset: u64 = lo as u64 * ENTRY_BYTES;
        let size: u64 = (hi - lo) as u64 * ENTRY_BYTES;
        let words = collect_words(&self.cpu, lo as usize, hi as usize);
        let data = bytes::words_to_bytes(words.as_slice());
        let separate: bool = lane.is_separate_queue();
        let transfer: bool = lane.needs_ownership_transfer();
        let buffer: u64 = self.buffer;
        let wait = if transfer {
            ExtraWait::Release
        } else if separate {
            ExtraWait::LastRender
        } else {
            ExtraWait::Nothing
        };
        let mut release: Vec<Cmd> = Vec::new();
        let mut record: Vec<Cmd> = Vec::new();
        let mut acquire: Vec<Cmd> = Vec::new();
        if transfer {
            record_barrier(
                &mut release,
                range_barrier(
                    buffer,
                    offset,
                    size,
                    table_read(),
                    commands::no_access(),
                    (graphics_family, lane.family),
                ),
            );
        }
        if !separate {
            record_barrier(
                &mut record,
                range_barrier(
                    buffer,
                    offset,
                    size,
                    table_read(),
                    commands::copy_write(),
                    (NO_HANDOVER, NO_HANDOVER),
                ),
            );
        } else if transfer {
            record_barrier(
                &mut record,
                range_barrier(
                    buffer,
                    offset,
                    size,
                    commands::no_access(),
                    commands::copy_write(),
                    (graphics_family, lane.family),
                ),
            );
        }
        record_table_copy(&mut record, buffer, offset, size);
        if !separate {
            record_barrier(
                &mut record,
                material_copy_barrier(buffer, offset, size, CopyBarrier::Draw),
            );
        } else if transfer {
            record_barrier(
                &mut record,
                material_copy_barrier(
                    buffer,
                    offset,
                    size,
                    CopyBarrier::Release { src_family: lane.family, dst_family: graphics_family },
                ),
            );
            record_barrier(
                &mut acquire,
                material_copy_barrier(
                    buffer,
                    offset,
                    size,
                    CopyBarrier::Acquire { src_family: lane.family, dst_family: graphics_family },
                ),
            );
        }
        proof {
            assert(record@ =~= flush_record(buffer, offset, size, lane, graphics_family));
            assert(release@ =~= if transfer {
                single(
                    range_barrier(
                        buffer,
                        offset,
                        size,
                        table_read(),
                        commands::no_access(),
                        (graphics_family, lane.family),
                    ),
                )
            } else {
                Seq::empty()
            });
            assert(acquire@ =~= if transfer {
                single(
                    material_copy_barrier(
                        buffer,
                        offset,
                        size,
                        CopyBarrier::Acquire {
                            src_family: lane.family,
                            dst_family: graphics_family,
                        },
                    ),
                )
            } else {
                Seq::empty()
            });
        }
        Some(TableFlush { release, wait, on_lane: separate, record, acquire, bytes: data })
    }

    /// Records the upload of the whole table, which the host waits for before the
    /// buffer is used.
    pub fn upload_blocking(&mut self, lane: Lane, graphics_family: u32) -> (f: TableFlush)
        requires
            old(self).wf(),
        ensures
            final(self).wf(),
            *final(self) == (MaterialTable {
                pending_lo: 0,
                pending_hi: 0,
                gpu: final(self).gpu,
                ..*old(self)
            }),
            final(self).gpu@ == overlaid(old(self).gpu@, 0, old(self).cpu@),
            final(self).gpu@ == final(self).cpu@,
            f.release@ == Seq::<Cmd>::empty(),
            f.wait == ExtraWait::Nothing,
            f.on_lane == lane.is_separate_queue(),
            f.record@ == table_copy(old(self).buffer, 0, TABLE_BYTES)
                + if lane.needs_ownership_transfer() {
                single(
                    material_copy_barrier(
                        old(self).buffer,
                        0,
                        TABLE_BYTES,
                        CopyBarrier::Release {
                            src_family: lane.family,
                            dst_family: graphics_family,
                        },
                    ),
                )
            } else if !lane.is_separate_queue() {
                single(
                    material_copy_barrier(old(self).buffer, 0, TABLE_BYTES, CopyBarrier::Draw),
                )
            } else {
                Seq::empty()
            },
            f.acquire@ == if lane.needs_ownership_transfer() {
                single(
                    material_copy_barrier(
                        old(self).buffer,
                        0,
                        TABLE_BYTES,
                        CopyBarrier::Acquire {
                            src_family: lane.family,
                            dst_family: graphics_family,
                        },
                    ),
                )
            } else {
                Seq::empty()
            },
            bytes::in_memory(words_of(old(self).cpu@), f.bytes@),
    {
        let words = collect_words(&self.cpu, 0, self.cpu.len());
        proof {
            assert(self.cpu@.subrange(0, self.cpu.len() as int) =~= self.cpu@);
        }
        let data = bytes::words_to_bytes(words.as_slice());
        let separate: bool = lane.is_separate_queue();
        let transfer: bool = lane.needs_ownership_transfer();
        let mut record: Vec<Cmd> = Vec::new();
        let mut acquire: Vec<Cmd> = Vec::new();
        record_table_copy(&mut record, self.buffer, 0, TABLE_BYTES);
        if transfer {
            record_barrier(
                &mut record,
                material_copy_barrier(
                    self.buffer,
                    0,
                    TABLE_BYTES,
                    CopyBarrier::Release { src_family: lane.family, dst_family: graphics_family },
                ),
            );
            record_barrier(
                &mut acquire,
                material_copy_barrier(
                    self.buffer,
                    0,
                    TABLE_BYTES,
                    CopyBarrier::Acquire { src_family: lane.family, dst_family: graphics_family },
                ),
            );
        } else if !separate {
            record_barrier(
                &mut record,
                material_copy_barrier(self.buffer, 0, TABLE_BYTES, CopyBarrier::Draw),
            );
        }
        self.pending_lo = 0;
        self.pending_hi = 0;
        self.gpu = Ghost(overlaid(self.gpu@, 0, self.cpu@));
        proof {
            assert(self.gpu@ =~= self.cpu@);
        }
        TableFlush {
            release: Vec::new(),
            wait: ExtraWait::Nothing,
            on_lane: separate,
            record,
            acquire,
            bytes: data,
        }
    }

    /// Holds a staging buffer and its memory until the frame is done.
    pub fn retire_staging(&mut self, done_at: TimelineValue, buffer: u64, memory: u64)
        requires
            old(self).wf(),
        ensures
            final(self).wf(),
            final(self).staging_retire@ == old(self).staging_retire@.push(
                (retire::Retired { value: done_at, item: (buffer, memory) }),
            ),
            *final(self) == (MaterialTable {
                staging_retire: final(self).staging_retire,
                ..*old(self)
            }),
    {
        self.staging_retire.push(done_at, (buffer, memory));
    }

    /// Holds a staging buffer and its memory until the lane is done.
    pub fn retire_transfer(&mut self, done_at: TimelineValue, buffer: u64, memory: u64)
        requires
            old(self).wf(),
        ensures
            final(self).wf(),
            final(self).transfer_retire@ == old(self).transfer_retire@.push(
                (retire::Retired { value: done_at, item: (buffer, memory) }),
            ),
            *final(self) == (MaterialTable {
                transfer_retire: final(self).transfer_retire,
                ..*old(self)
            }),
    {
        self.transfer_retire.push(done_at, (buffer, memory));
    }

    /// Holds a release's semaphore and command buffer until the frame is done.
    pub fn retire_release(&mut self, done_at: TimelineValue, semaphore: u64, cmd: u64)
        requires
            old(self).wf(),
        ensures
            final(self).wf(),
            final(self).release_cmds@ == old(self).release_cmds@.push(
                (retire::Retired { value: done_at, item: (semaphore, cmd) }),
            ),
            *final(self) == (MaterialTable {
                release_cmds: final(self).release_cmds,
                ..*old(self)
            }),
    {
        self.release_cmds.push(done_at, (semaphore, cmd));
    }

    /// Staging buffers and releases that the frames up to `current` used.
    pub fn collect(&mut self, current: TimelineValue) -> (r: (Vec<(u64, u64)>, Vec<(u64, u64)>))
        requires
            old(self).wf(),
        ensures
            final(self).wf(),
            r.0@ == retire::due(old(self).staging_retire@, current),
            r.1@ == retire::due(old(self).release_cmds@, current),
            final(self).staging_retire@ == retire::waiting(old(self).staging_retire@, current),
            final(self).release_cmds@ == retire::waiting(old(self).release_cmds@, current),
            *final(self) == (MaterialTable {
                staging_retire: final(self).staging_retire,
                release_cmds: final(self).release_cmds,
                ..*old(self)
            }),
    {
        let staging = self.staging_retire.collect(current);
        let releases = self.release_cmds.collect(current);
        (staging, releases)
    }

    /// Staging buffers that the lane is done with.
    pub fn collect_transfer(&mut self, current: TimelineValue) -> (r: Vec<(u64, u64)>)
        requires
            old(self).wf(),
        ensures
            final(self).wf(),
            r@ == retire::due(old(self).transfer_retire@, current),
            final(self).transfer_retire@ == retire::waiting(old(self).transfer_retire@, current),
            *final(self) == (MaterialTable {
                transfer_retire: final(self).transfer_retire,
                ..*old(self)
            }),
    {
        self.transfer_retire.collect(current)
    }
}

/// The changed range with `lo .. hi` added: the hull of both, or the one that is
/// not empty.
pub open spec fn marked(pending_lo: u32, pending_hi: u32, lo: u32, hi: u32) -> (u32, u32) {
    if lo >= hi {
        (pending_lo, pending_hi)
    } else if pending_lo >= pending_hi {
        (lo, hi)
    } else {
        (
            if lo < pending_lo {
                lo
            } else {
                pending_lo
            },
            if hi > pending_hi {
                hi
            } else {
                pending_hi
            },
        )
    }
}

/// Entry `i` of the table in `buffer`, as a shader reads it: four words from byte
/// `16 * i`, the flags first and the parameters behind them.
pub open spec fn entry_at(m: Memory, buffer: u64, i: int, little: bool) -> MaterialDesc {
    let b = playback::bytes_at(m, buffer, 16 * i, 16);
    MaterialDesc {
        flags: bytes::word_at(b, 0, little) as u32,
        param0: bytes::word_at(b, 4, little) as u32,
        param1: bytes::word_at(b, 8, little) as u32,
        param2: bytes::word_at(b, 12, little) as u32,
    }
}

/// Entries `lo .. hi` of the table in `buffer` read as `cpu` has them.
pub open spec fn reads_entries(
    m: Memory,
    buffer: u64,
    cpu: Seq<MaterialDesc>,
    lo: int,
    hi: int,
    little: bool,
) -> bool {
    forall|i: int| lo <= i < hi ==> #[trigger] entry_at(m, buffer, i, little) == cpu[i]
}

proof fn lemma_entry_words(descs: Seq<MaterialDesc>, b: Seq<u8>, little: bool, k: int)
    requires
        bytes::reads_as(b, words_of(descs), little),
        0 <= k < descs.len(),
    ensures
        ({
            let e = Seq::new(16, |i: int| b[16 * k + i]);
            &&& descs[k].flags == bytes::word_at(e, 0, little)
            &&& descs[k].param0 == bytes::word_at(e, 4, little)
            &&& descs[k].param1 == bytes::word_at(e, 8, little)
            &&& descs[k].param2 == bytes::word_at(e, 12, little)
        }),
{
    reveal(bytes::word_at);
    let w = words_of(descs);
    assert(w[4 * k] == bytes::word_at(b, 4 * (4 * k), little));
    assert(w[4 * k + 1] == bytes::word_at(b, 4 * (4 * k + 1), little));
    assert(w[4 * k + 2] == bytes::word_at(b, 4 * (4 * k + 2), little));
    assert(w[4 * k + 3] == bytes::word_at(b, 4 * (4 * k + 3), little));
}

/// What a copy of staged bytes to the table does.
proof fn lemma_table_copy(
    g: Gpu,
    buffer: u64,
    offset: u64,
    size: u64,
    staging: Seq<u8>,
)
    requires
        g.regions.len() == 0,
    ensures
        ({
            let after = playback::play(g, table_copy(buffer, offset, size), staging);
            &&& after == (Gpu { memory: after.memory, regions: Seq::empty(), ..g })
            &&& forall|b: u64, p: int| #[trigger]
                (after.memory)(b, p) == if b == buffer && offset <= p < offset + size {
                    staging[p - offset]
                } else {
                    (g.memory)(b, p)
                }
        }),
{
    let r = BufferRegion { src_offset: 0, dst_offset: offset, size };
    let copy = Cmd::CopyStaging { dst: buffer };
    playback::lemma_play_two(g, Cmd::BufferRegion(r), copy, staging);
    assert(g.regions.push(r) =~= seq![r]);
    let own = |b: u64, p: int| staging[p];
    let after = playback::play(g, table_copy(buffer, offset, size), staging);
    assert(after.memory == playback::copied_from(own, g.memory, buffer, seq![r]));
    assert forall|b: u64, p: int| #[trigger]
        (after.memory)(b, p) == if b == buffer && offset <= p < offset + size {
            staging[p - offset]
        } else {
            (g.memory)(b, p)
        } by {
        playback::lemma_staged_one(own, g.memory, buffer, r, b, p);
    }
}

proof fn lemma_single(g: Gpu, b: BufferBarrier, staging: Seq<u8>)
    ensures
        playback::play(g, single(b), staging) == g,
{
    playback::lemma_play_orders(g, single(b), staging);
}

proof fn lemma_flush_record(
    g: Gpu,
    buffer: u64,
    offset: u64,
    size: u64,
    lane: Lane,
    family: u32,
    staging: Seq<u8>,
)
    ensures
        playback::play(g, flush_record(buffer, offset, size, lane, family), staging)
            == playback::play(g, table_copy(buffer, offset, size), staging),
{
    let copy = table_copy(buffer, offset, size);
    let mid = playback::play(g, copy, staging);
    if !lane.is_separate_queue() {
        let b = range_barrier(
            buffer,
            offset,
            size,
            table_read(),
            commands::copy_write(),
            (NO_HANDOVER, NO_HANDOVER),
        );
        let e = material_copy_barrier(buffer, offset, size, CopyBarrier::Draw);
        playback::lemma_play_concat(g, single(b) + copy, single(e), staging);
        playback::lemma_play_concat(g, single(b), copy, staging);
        lemma_single(g, b, staging);
        lemma_single(mid, e, staging);
    } else if lane.needs_ownership_transfer() {
        let b = range_barrier(
            buffer,
            offset,
            size,
            commands::no_access(),
            commands::copy_write(),
            (family, lane.family),
        );
        let e = material_copy_barrier(
            buffer,
            offset,
            size,
            CopyBarrier::Release { src_family: lane.family, dst_family: family },
        );
        playback::lemma_play_concat(g, single(b) + copy, single(e), staging);
        playback::lemma_play_concat(g, single(b), copy, staging);
        lemma_single(g, b, staging);
        lemma_single(mid, e, staging);
    }
}

/// A flush brings the changed entries to the table: shaders read each of them as the host
/// has it, every field in its place, and no other byte changes.
pub proof fn law_a_flush_writes_the_changed_entries(
    t: &MaterialTable,
    lane: Lane,
    graphics_family: u32,
    f: TableFlush,
    g: Gpu,
)
    requires
        t.wf(),
        flush_plan(t, lane, graphics_family, f),
        g.regions.len() == 0,
    ensures
        ({
            let after = playback::play(g, f.record@, f.bytes@);
            let lo = t.pending_lo as int;
            let hi = t.pending_hi as int;
            &&& after == (Gpu { memory: after.memory, regions: Seq::empty(), ..g })
            &&& reads_entries(after.memory, t.buffer, t.cpu@, lo, hi, true) || reads_entries(
                after.memory,
                t.buffer,
                t.cpu@,
                lo,
                hi,
                false,
            )
            &&& forall|b: u64, p: int|
                !(b == t.buffer && 16 * lo <= p < 16 * hi) ==> #[trigger] (after.memory)(b, p) == (
                g.memory)(b, p)
        }),
{
    let lo = t.pending_lo as int;
    let hi = t.pending_hi as int;
    let part = t.cpu@.subrange(lo, hi);
    let offset = (lo * 16) as u64;
    let size = ((hi - lo) * 16) as u64;
    let after = playback::play(g, f.record@, f.bytes@);
    lemma_flush_record(g, t.buffer, offset, size, lane, graphics_family, f.bytes@);
    lemma_table_copy(g, t.buffer, offset, size, f.bytes@);
    bytes::law_memory_reads_back(words_of(part), f.bytes@);
    let little = bytes::reads_as(f.bytes@, words_of(part), true);
    assert forall|i: int| lo <= i < hi implies #[trigger] entry_at(
        after.memory,
        t.buffer,
        i,
        little,
    ) == t.cpu@[i] by {
        lemma_entry_words(part, f.bytes@, little, i - lo);
        let seen = playback::bytes_at(after.memory, t.buffer, 16 * i, 16);
        assert(seen =~= Seq::new(16, |j: int| f.bytes@[16 * (i - lo) + j]));
    }
    assert(reads_entries(after.memory, t.buffer, t.cpu@, lo, hi, little));
}

/// The first upload brings every entry to the table.
pub proof fn law_the_first_upload_writes_every_entry(
    t: &MaterialTable,
    tail: Seq<Cmd>,
    staged: Seq<u8>,
    g: Gpu,
)
    requires
        t.wf(),
        bytes::in_memory(words_of(t.cpu@), staged),
        forall|i: int| 0 <= i < tail.len() ==> playback::only_orders(#[trigger] tail[i]),
        g.regions.len() == 0,
    ensures
        ({
            let after = playback::play(
                g,
                table_copy(t.buffer, 0, TABLE_BYTES) + tail,
                staged,
            );
            let n = MATERIAL_DESC_CAPACITY as int;
            reads_entries(after.memory, t.buffer, t.cpu@, 0, n, true) || reads_entries(
                after.memory,
                t.buffer,
                t.cpu@,
                0,
                n,
                false,
            )
        }),
{
    let copy = table_copy(t.buffer, 0, TABLE_BYTES);
    let n = MATERIAL_DESC_CAPACITY as int;
    let mid = playback::play(g, copy, staged);
    let after = playback::play(g, copy + tail, staged);
    playback::lemma_play_concat(g, copy, tail, staged);
    playback::lemma_play_orders(mid, tail, staged);
    lemma_table_copy(g, t.buffer, 0, TABLE_BYTES, staged);
    bytes::law_memory_reads_back(words_of(t.cpu@), staged);
    let little = bytes::reads_as(staged, words_of(t.cpu@), true);
    assert forall|i: int| 0 <= i < n implies #[trigger] entry_at(after.memory, t.buffer, i, little)
        == t.cpu@[i] by {
        lemma_entry_words(t.cpu@, staged, little, i);
        let seen = playback::bytes_at(after.memory, t.buffer, 16 * i, 16);
        assert(seen =~= Seq::new(16, |j: int| staged[16 * i + j]));
    }
    assert(reads_entries(after.memory, t.buffer, t.cpu@, 0, n, little));
}

/// A set leaves nothing of the table before: the given entries from the first on, as far as
/// the table reaches, and plain layers behind them.
pub proof fn law_a_set_replaces_the_table(descs: Seq<MaterialDesc>, i: int)
    requires
        0 <= i < 16384,
    ensures
        set_table(descs).len() == 16384,
        i < descs.len() ==> set_table(descs)[i] == descs[i],
        i >= descs.len() ==> set_table(descs)[i].flags == 0 && set_table(descs)[i].param0 == 0
            && set_table(descs)[i].param1 == 0 && set_table(descs)[i].param2 == 0,
        fitting(0, descs.len() as int) <= descs.len(),
        fitting(0, descs.len() as int) <= 16384,
        fitting(0, descs.len() as int) == descs.len() || fitting(0, descs.len() as int) == 16384,
{
}

/// An append keeps the entries in use, puts the new ones behind them in order, and counts
/// those that found room.
pub proof fn law_an_append_keeps_the_table(
    cpu: Seq<MaterialDesc>,
    used: int,
    descs: Seq<MaterialDesc>,
    i: int,
)
    requires
        0 <= used <= 16384,
        0 <= i < 16384,
    ensures
        append_table(cpu, used, descs).len() == 16384,
        i < used ==> append_table(cpu, used, descs)[i] == cpu[i],
        used <= i && i - used < descs.len() ==> append_table(cpu, used, descs)[i] == descs[i
            - used],
        i - used >= descs.len() ==> append_table(cpu, used, descs)[i] == cpu[i],
        0 <= fitting(used, descs.len() as int) <= descs.len(),
        used + fitting(used, descs.len() as int) <= 16384,
        fitting(used, descs.len() as int) == descs.len() || used + fitting(
            used,
            descs.len() as int,
        ) == 16384,
{
}

/// The changed range grows to the least range over what was changed before and what is
/// changed now.
pub proof fn law_the_changed_range_is_least(
    pending_lo: u32,
    pending_hi: u32,
    lo: u32,
    hi: u32,
    a: u32,
    b: u32,
)
    requires
        a <= b,
        pending_lo < pending_hi ==> a <= pending_lo && pending_hi <= b,
        lo < hi ==> a <= lo && hi <= b,
    ensures
        ({
            let (l, h) = marked(pending_lo, pending_hi, lo, hi);
            &&& pending_lo < pending_hi ==> l <= pending_lo && pending_hi <= h
            &&& lo < hi ==> l <= lo && hi <= h
            &&& l < h ==> a <= l && h <= b
            &&& l < h <==> pending_lo < pending_hi || lo < hi
        }),
{
}

/// The command is a barrier over byte `at` of `buffer`.
pub open spec fn over_byte(c: Cmd, buffer: u64, at: int) -> bool {
    c matches Cmd::BufferBarrier(b) && b.buffer == buffer && b.offset <= at < b.offset + b.size
}

/// Every changed byte is copied between the frames that read it. On the frame's own queue
/// the copy waits for the reads before it and the reads behind it wait for the copy. On a
/// family of its own the byte changes hands on the way there and on the way back, each time
/// the two sides name the same families; on another queue of the family the lane starts
/// behind the last frame.
pub proof fn law_a_flush_waits_for_its_readers(
    t: &MaterialTable,
    lane: Lane,
    graphics_family: u32,
    f: TableFlush,
    at: int,
)
    requires
        t.wf(),
        flush_plan(t, lane, graphics_family, f),
        16 * t.pending_lo <= at < 16 * t.pending_hi,
    ensures
        ({
            let reads = commands::access_at(STAGE_FRAGMENT_SHADER, ACCESS_SHADER_STORAGE_READ);
            let before = f.record@[0];
            let behind = f.record@[4];
            let a = before->BufferBarrier_0;
            let z = behind->BufferBarrier_0;
            &&& !(lane.tier is SecondQueueSameFamily) ==> {
                &&& over_byte(before, t.buffer, at) && a.dst == commands::copy_write()
                &&& f.record@[3] == (Cmd::CopyStaging { dst: t.buffer })
                &&& over_byte(behind, t.buffer, at) && z.src == commands::copy_write()
            }
            &&& lane.tier is SameQueueFallback ==> {
                &&& a.src == reads && z.dst == reads
                &&& a.src_family == a.dst_family && z.src_family == z.dst_family
                &&& f.wait is Nothing
            }
            &&& lane.tier is DedicatedFamily ==> {
                let given = f.release@[0];
                let taken = f.acquire@[0];
                let r = given->BufferBarrier_0;
                let q = taken->BufferBarrier_0;
                &&& over_byte(given, t.buffer, at) && r.src == reads
                &&& r.src_family == a.src_family == graphics_family
                &&& r.dst_family == a.dst_family == lane.family
                &&& over_byte(taken, t.buffer, at) && q.dst == reads
                &&& z.src_family == q.src_family == lane.family
                &&& z.dst_family == q.dst_family == graphics_family
                &&& f.wait is Release
            }
            &&& lane.tier is SecondQueueSameFamily ==> f.wait is LastRender
        }),
{
}

} // verus!
