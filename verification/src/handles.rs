//! The single authority for mesh identity: mints generational handles, recycles
//! freed slots and answers metadata lookups. Holds no driver resources.

use core::marker::PhantomData;

use vstd::prelude::*;

use crate::mesh::{Generation, GpuHandle, Pass};

verus! {

/// Snapshot of mesh-slot and arena occupancy.
#[derive(Clone, Copy, Debug)]
#[non_exhaustive]
pub struct MeshStats {
    /// Currently registered mesh slots.
    pub live_slots: u32,
    /// Live slots per pass (opaque, cutout, blend).
    pub live_per_pass: [u32; 3],
    /// One past the highest registered slot: the value cull loops iterate to.
    pub slot_high_water: u32,
    /// Live-count threshold below which culling runs on the CPU.
    pub cpu_cull_max: u32,
    /// Occupied arena-directory rows.
    pub arenas: u32,
    /// Allocated device-arena capacity in bytes.
    pub arena_bytes: u64,
    /// Suballocated device-arena bytes currently in use.
    pub arena_bytes_used: u64,
}

/// The one statistics cell that the handle table, the arena directory and the mesh
/// allocator publish to. Its owner lends it to every operation that publishes, and
/// reads from it what all of them have stored.
#[derive(Debug)]
pub struct MeshStatsShared {
    pub stats: MeshStats,
}

impl MeshStatsShared {
    pub fn new(cpu_cull_max: u32) -> (shared: Self)
        ensures
            shared.stats.live_slots == 0,
            shared.stats.live_per_pass@ == seq![0u32, 0, 0],
            shared.stats.slot_high_water == 0,
            shared.stats.cpu_cull_max == cpu_cull_max,
            shared.stats.arenas == 0,
            shared.stats.arena_bytes == 0,
            shared.stats.arena_bytes_used == 0,
    {
        let live_per_pass: [u32; 3] = [0, 0, 0];
        assert(live_per_pass@ =~= seq![0u32, 0, 0]);
        MeshStatsShared {
            stats: MeshStats {
                live_slots: 0,
                live_per_pass,
                slot_high_water: 0,
                cpu_cull_max,
                arenas: 0,
                arena_bytes: 0,
                arena_bytes_used: 0,
            },
        }
    }

    pub fn store_slots(&mut self, live: u32, per_pass: [u32; 3], high_water: u32)
        ensures
            final(self).stats == (MeshStats {
                live_slots: live,
                live_per_pass: per_pass,
                slot_high_water: high_water,
                ..old(self).stats
            }),
    {
        self.stats.live_slots = live;
        self.stats.live_per_pass = per_pass;
        self.stats.slot_high_water = high_water;
    }

    pub fn store_arenas(&mut self, arenas: u32)
        ensures
            final(self).stats == (MeshStats { arenas, ..old(self).stats }),
    {
        self.stats.arenas = arenas;
    }

    pub fn store_bytes(&mut self, cap: u64, used: u64)
        ensures
            final(self).stats == (MeshStats {
                arena_bytes: cap,
                arena_bytes_used: used,
                ..old(self).stats
            }),
    {
        self.stats.arena_bytes = cap;
        self.stats.arena_bytes_used = used;
    }

    pub fn load(&self) -> (stats: MeshStats)
        ensures
            stats == self.stats,
    {
        self.stats
    }
}

/// Metadata that reports a [`Pass`] so the allocator can keep per-pass counts.
pub trait SlotPass {
    spec fn pass_of(&self) -> Option<Pass>;

    fn slot_pass(&self) -> (pass: Option<Pass>)
        ensures
            pass == self.pass_of(),
    ;
}

impl SlotPass for u32 {
    open spec fn pass_of(&self) -> Option<Pass> {
        None
    }

    fn slot_pass(&self) -> (pass: Option<Pass>) {
        None
    }
}

/// Per-mesh dynamic style, patched on change.
#[derive(Clone, Copy, Debug, PartialEq, Eq, Structural)]
pub struct DrawDyn {
    pub mode: u32,
    pub flat_rgba: u32,
}

impl DrawDyn {
    /// Rest state: plain textured.
    pub fn resting() -> (d: Self)
        ensures
            d == (DrawDyn { mode: 0, flat_rgba: 0 }),
    {
        DrawDyn { mode: 0, flat_rgba: 0 }
    }
}

/// Culling and draw metadata for one mesh. The box corners are held by the bit
/// patterns of their coordinates.
#[derive(Clone, Copy)]
pub struct MeshMeta {
    pub aabb_min: [u32; 3],
    pub aabb_max: [u32; 3],
    /// Seven index boundaries: `bounds[k]..bounds[k + 1]` is face `k`'s range
    /// and `bounds[0]..bounds[6]` the whole mesh.
    pub bounds: [u32; 7],
    pub vertex_offset: i32,
    pub pass: Pass,
    pub dyn_lane: DrawDyn,
}

impl SlotPass for MeshMeta {
    open spec fn pass_of(&self) -> Option<Pass> {
        Some(self.pass)
    }

    fn slot_pass(&self) -> (pass: Option<Pass>) {
        Some(self.pass)
    }
}

/// The generation after `g`: counts up and skips zero on wrap.
pub open spec fn next_generation(g: u32) -> u32 {
    if g == u32::MAX {
        1
    } else {
        (g + 1) as u32
    }
}

/// The generation `k` frees after `g`.
pub open spec fn generation_after(g: u32, k: nat) -> u32
    decreases k,
{
    if k == 0 {
        g
    } else {
        next_generation(generation_after(g, (k - 1) as nat))
    }
}

/// Bumps a 1-based generation, skipping the reserved 0 on wrap.
pub fn bump_generation(g: Generation) -> (next: Generation)
    ensures
        next.value() == next_generation(g.value()),
{
    let value: u32 = g.get().wrapping_add(1);
    match Generation::new(value) {
        Some(next) => next,
        None => Generation::first(),
    }
}

/// Occupied slots.
pub open spec fn count_live<M>(meta: Seq<Option<M>>) -> nat
    decreases meta.len(),
{
    if meta.len() == 0 {
        0
    } else {
        count_live(meta.drop_last()) + if meta.last() is Some {
            1nat
        } else {
            0
        }
    }
}

pub open spec fn in_pass<M: SlotPass>(meta: Option<M>, pass: Pass) -> bool {
    meta matches Some(m) && m.pass_of() == Some(pass)
}

/// Occupied slots whose metadata reports `pass`.
pub open spec fn count_pass<M: SlotPass>(meta: Seq<Option<M>>, pass: Pass) -> nat
    decreases meta.len(),
{
    if meta.len() == 0 {
        0
    } else {
        count_pass(meta.drop_last(), pass) + if in_pass(meta.last(), pass) {
            1nat
        } else {
            0
        }
    }
}

/// One past the highest occupied slot.
pub open spec fn is_live_end<M>(meta: Seq<Option<M>>, end: int) -> bool {
    &&& 0 <= end <= meta.len()
    &&& end > 0 ==> meta[end - 1] is Some
    &&& forall|i: int| end <= i < meta.len() ==> (#[trigger] meta[i]) is None
}

pub struct HandleAllocator<H: GpuHandle, M> {
    pub meta: Vec<Option<M>>,
    /// 1-based; bumped (never to 0) when a slot is freed.
    pub generations: Vec<Generation>,
    pub free: Vec<u32>,
    pub live: usize,
    pub live_per_pass: [u32; 3],
    /// One past the highest occupied slot (retreats when the tail is freed).
    pub high_water: u32,
    pub marker: PhantomData<H>,
}

impl<H: GpuHandle, M: Copy + SlotPass> HandleAllocator<H, M> {
    /// The free stack is exactly the empty slots, and every count is exact.
    pub open spec fn wf(&self) -> bool {
        &&& self.meta.len() == self.generations.len()
        &&& self.meta.len() <= u32::MAX
        &&& self.counts_exact()
        &&& forall|i: int, j: int|
            0 <= i < j < self.free.len() ==> #[trigger] self.free[i] != #[trigger] self.free[j]
        &&& forall|k: int|
            0 <= k < self.free.len() ==> (#[trigger] self.free[k]) < self.meta.len()
                && self.meta[self.free[k] as int] is None
        &&& forall|i: int|
            0 <= i < self.meta.len() && (#[trigger] self.meta[i]) is None ==> self.free@.contains(
                i as u32,
            )
        &&& forall|i: int| 0 <= i < self.generations.len() ==> (#[trigger] self.generations[i]).value() != 0
    }

    /// Live count, per-pass counts and high-water mark match the slots.
    pub open spec fn counts_exact(&self) -> bool {
        &&& self.live == count_live(self.meta@)
        &&& self.live_per_pass[0] == count_pass(self.meta@, Pass::Opaque)
        &&& self.live_per_pass[1] == count_pass(self.meta@, Pass::Cutout)
        &&& self.live_per_pass[2] == count_pass(self.meta@, Pass::Blend)
        &&& is_live_end(self.meta@, self.high_water as int)
    }

    /// What a handle resolves to.
    pub open spec fn lookup(&self, h: H) -> Option<M> {
        let slot = h.slot_of() as int;
        if slot < self.meta.len() && self.generations[slot].value() == h.generation_of() {
            self.meta[slot]
        } else {
            None
        }
    }

    /// The cell `after` is `before` with this table's counts.
    pub open spec fn published(&self, before: MeshStatsShared, after: MeshStatsShared) -> bool {
        after.stats == (MeshStats {
            live_slots: self.live as u32,
            live_per_pass: self.live_per_pass,
            slot_high_water: self.high_water,
            ..before.stats
        })
    }

    pub fn new() -> (table: Self)
        ensures
            table.wf(),
            table.meta.len() == 0,
            table.live == 0,
            table.live_per_pass@ == seq![0u32, 0, 0],
            table.high_water == 0,
    {
        let live_per_pass: [u32; 3] = [0, 0, 0];
        assert(live_per_pass@ =~= seq![0u32, 0, 0]);
        HandleAllocator {
            meta: Vec::new(),
            generations: Vec::new(),
            free: Vec::new(),
            live: 0,
            live_per_pass,
            high_water: 0,
            marker: PhantomData,
        }
    }

    /// Publishes the counts to the cell that the table's operations are lent from
    /// then on.
    pub fn attach_stats(&self, stats: &mut MeshStatsShared)
        requires
            self.wf(),
        ensures
            self.published(*old(stats), *final(stats)),
            shows(*final(stats), *self),
    {
        self.publish(stats);
    }

    pub fn live_count(&self) -> (count: usize)
        requires
            self.wf(),
        ensures
            count == count_live(self.meta@),
    {
        self.live
    }

    pub fn live_per_pass(&self) -> (counts: [u32; 3])
        requires
            self.wf(),
        ensures
            counts[0] == count_pass(self.meta@, Pass::Opaque),
            counts[1] == count_pass(self.meta@, Pass::Cutout),
            counts[2] == count_pass(self.meta@, Pass::Blend),
    {
        self.live_per_pass
    }

    pub fn slot_high_water(&self) -> (end: u32)
        requires
            self.wf(),
        ensures
            is_live_end(self.meta@, end as int),
    {
        self.high_water
    }

    fn publish(&self, stats: &mut MeshStatsShared)
        requires
            self.counts_exact(),
            self.meta.len() <= u32::MAX,
        ensures
            self.published(*old(stats), *final(stats)),
            shows(*final(stats), *self),
    {
        proof {
            lemma_counts_bounded(self.meta@);
        }
        stats.store_slots(self.live as u32, self.live_per_pass, self.high_water);
    }

    /// Adds one slot to, or takes one from, the count of `pass`.
    fn bump_pass(&mut self, pass: Option<Pass>, up: bool)
        ensures
            final(self).meta == old(self).meta,
            final(self).generations == old(self).generations,
            final(self).free == old(self).free,
            final(self).live == old(self).live,
            final(self).high_water == old(self).high_water,
            match pass {
                None => final(self).live_per_pass == old(self).live_per_pass,
                Some(p) => final(self).live_per_pass@ == old(self).live_per_pass@.update(
                    p.ordinal(),
                    bumped(old(self).live_per_pass[p.ordinal()], up),
                ),
            },
    {
        match pass {
            None => {},
            Some(p) => {
                let i: usize = p.index();
                let count: u32 = self.live_per_pass[i];
                self.live_per_pass[i] = if up {
                    count.saturating_add(1)
                } else {
                    count.saturating_sub(1)
                };
            },
        }
    }

    /// Assigns `meta` to a fresh or recycled slot, mints its handle and publishes the
    /// counts to `stats`.
    pub fn alloc_slot(&mut self, meta: M, stats: &mut MeshStatsShared) -> (h: H)
        requires
            old(self).wf(),
            old(self).free.len() > 0 || old(self).meta.len() < u32::MAX,
        ensures
            final(self).wf(),
            ({
                let slot = h.slot_of() as int;
                if old(self).free.len() > 0 {
                    &&& slot == old(self).free@.last()
                    &&& final(self).free@ == old(self).free@.drop_last()
                    &&& final(self).generations@ == old(self).generations@
                    &&& final(self).meta@ == old(self).meta@.update(slot, Some(meta))
                    &&& h.generation_of() == old(self).generations[slot].value()
                } else {
                    &&& slot == old(self).meta.len()
                    &&& final(self).free@ == old(self).free@
                    &&& h.generation_of() == 1
                    &&& final(self).generations.len() == slot + 1
                    &&& final(self).generations@.take(slot) == old(self).generations@
                    &&& final(self).generations[slot].value() == 1
                    &&& final(self).meta@ == old(self).meta@.push(Some(meta))
                }
            }),
            old(self).lookup(h) is None,
            final(self).lookup(h) == Some(meta),
            final(self).published(*old(stats), *final(stats)),
            shows(*final(stats), *final(self)),
    {
        proof {
            lemma_counts_bounded(self.meta@);
            if self.free.len() > 0 {
                let slot = self.free@.last() as int;
                assert(self.meta[slot] is None);
                lemma_count_update(self.meta@, slot, Some(meta));
                lemma_counts_bounded(self.meta@.update(slot, Some(meta)));
            }
            lemma_count_push(self.meta@, Some(meta));
        }
        self.live = self.live + 1;
        self.bump_pass(meta.slot_pass(), true);
        let ghost free0 = self.free@;
        let ghost meta0 = self.meta@;
        let h: H = match self.free.pop() {
            Some(i) => {
                self.meta.set(i as usize, Some(meta));
                proof {
                    assert forall|k: int| 0 <= k < self.meta.len() && (
                    #[trigger] self.meta[k]) is None implies self.free@.contains(k as u32) by {
                        assert(meta0[k] is None);
                        let j = choose|j: int| 0 <= j < free0.len() && free0[j] == k as u32;
                        assert(self.free@[j] == k as u32);
                    }
                }
                H::from_parts(i, self.generations[i as usize])
            },
            None => {
                let i: u32 = self.meta.len() as u32;
                self.meta.push(Some(meta));
                self.generations.push(Generation::first());
                H::from_parts(i, Generation::first())
            },
        };
        let end: u32 = h.slot() + 1;
        if self.high_water < end {
            self.high_water = end;
        }
        self.publish(stats);
        h
    }

    /// Frees `h`'s slot (generation-checked): bumps the generation and recycles
    /// the slot. Returns false for a stale or double free, which publishes nothing.
    pub fn free_slot(&mut self, h: H, stats: &mut MeshStatsShared) -> (freed: bool)
        requires
            old(self).wf(),
        ensures
            final(self).wf(),
            freed == (old(self).lookup(h) is Some),
            final(self).lookup(h) is None,
            !freed ==> *final(self) == *old(self) && *final(stats) == *old(stats),
            freed ==> {
                let slot = h.slot_of() as int;
                &&& final(self).meta@ == old(self).meta@.update(slot, None)
                &&& final(self).generations.len() == old(self).generations.len()
                &&& final(self).generations[slot].value() == next_generation(h.generation_of())
                &&& forall|i: int|
                    0 <= i < old(self).generations.len() && i != slot
                        ==> #[trigger] final(self).generations[i] == old(self).generations[i]
                &&& final(self).free@ == old(self).free@.push(h.slot_of())
                &&& final(self).published(*old(stats), *final(stats))
                &&& shows(*final(stats), *final(self))
            },
    {
        let slot: usize = h.slot() as usize;
        if slot >= self.generations.len() {
            return false;
        }
        let generation: Generation = self.generations[slot];
        if generation.get() != h.generation().get() {
            return false;
        }
        let meta: M = match self.meta[slot] {
            Some(meta) => meta,
            None => {
                return false;
            },
        };
        proof {
            lemma_counts_bounded(self.meta@);
            lemma_count_update(self.meta@, slot as int, None);
            lemma_counts_bounded(self.meta@.update(slot as int, None));
        }
        let ghost meta0 = self.meta@;
        let ghost free0 = self.free@;
        self.meta.set(slot, None);
        self.bump_pass(meta.slot_pass(), false);
        self.generations.set(slot, bump_generation(generation));
        self.free.push(h.slot());
        self.live = self.live - 1;
        proof {
            assert(next_generation(generation.value()) != generation.value());
            assert forall|i: int, j: int| 0 <= i < j < self.free.len() implies #[trigger] self.free[i]
                != #[trigger] self.free[j] by {
                if j == free0.len() {
                    assert(meta0[free0[i] as int] is None);
                }
            }
            assert forall|k: int| 0 <= k < self.meta.len() && (
            #[trigger] self.meta[k]) is None implies self.free@.contains(k as u32) by {
                if k == slot {
                    assert(self.free@[free0.len() as int] == k as u32);
                } else {
                    assert(meta0[k] is None);
                    let j = choose|j: int| 0 <= j < free0.len() && free0[j] == k as u32;
                    assert(self.free@[j] == k as u32);
                }
            }
        }
        if h.slot() + 1 == self.high_water {
            let mut end: usize = slot;
            while end > 0 && self.meta[end - 1].is_none()
                invariant
                    end <= slot,
                    slot < self.meta.len(),
                    self.meta[slot as int] is None,
                    is_live_end(self.meta@, slot + 1) || forall|i: int|
                        slot <= i < self.meta.len() ==> (#[trigger] self.meta[i]) is None,
                    forall|i: int| end <= i < self.meta.len() ==> (#[trigger] self.meta[i]) is None,
                decreases end,
            {
                end = end - 1;
            }
            self.high_water = end as u32;
        }
        self.publish(stats);
        true
    }

    /// Mutable metadata with generation check.
    pub fn meta_mut(&mut self, h: H) -> (found: Option<&mut M>)
        requires
            old(self).wf(),
        ensures
            match found {
                None => old(self).lookup(h) is None && *final(self) == *old(self),
                Some(m) => {
                    let slot = h.slot_of() as int;
                    &&& old(self).lookup(h) == Some(*m)
                    &&& final(self).meta@ == old(self).meta@.update(slot, Some(*final(m)))
                    &&& final(self).generations == old(self).generations
                    &&& final(self).free == old(self).free
                    &&& final(self).live == old(self).live
                    &&& final(self).live_per_pass == old(self).live_per_pass
                    &&& final(self).high_water == old(self).high_water
                },
            },
    {
        let slot: usize = h.slot() as usize;
        if slot >= self.generations.len() {
            return None;
        }
        if self.generations[slot].get() != h.generation().get() {
            return None;
        }
        if self.meta[slot].is_none() {
            return None;
        }
        self.meta[slot].as_mut()
    }
}

/// A count one up or one down, held at the ends of its range.
pub open spec fn bumped(count: u32, up: bool) -> u32 {
    if up {
        if count == u32::MAX {
            count
        } else {
            (count + 1) as u32
        }
    } else {
        if count == 0 {
            0
        } else {
            (count - 1) as u32
        }
    }
}

spec fn weight(b: bool) -> int {
    if b {
        1
    } else {
        0
    }
}

proof fn lemma_counts_bounded<M: SlotPass>(meta: Seq<Option<M>>)
    ensures
        count_live(meta) <= meta.len(),
        count_pass(meta, Pass::Opaque) <= count_live(meta),
        count_pass(meta, Pass::Cutout) <= count_live(meta),
        count_pass(meta, Pass::Blend) <= count_live(meta),
    decreases meta.len(),
{
    if meta.len() > 0 {
        lemma_counts_bounded(meta.drop_last());
    }
}

proof fn lemma_count_push<M: SlotPass>(meta: Seq<Option<M>>, m: Option<M>)
    ensures
        count_live(meta.push(m)) == count_live(meta) + weight(m is Some),
        forall|p: Pass| #[trigger]
            count_pass(meta.push(m), p) == count_pass(meta, p) + weight(in_pass(m, p)),
{
    assert(meta.push(m).drop_last() =~= meta);
}

proof fn lemma_count_update<M: SlotPass>(meta: Seq<Option<M>>, i: int, m: Option<M>)
    requires
        0 <= i < meta.len(),
    ensures
        count_live(meta.update(i, m)) == count_live(meta) - weight(meta[i] is Some) + weight(
            m is Some,
        ),
        forall|p: Pass| #[trigger]
            count_pass(meta.update(i, m), p) == count_pass(meta, p) - weight(in_pass(meta[i], p))
                + weight(in_pass(m, p)),
    decreases meta.len(),
{
    let after = meta.update(i, m);
    if i == meta.len() - 1 {
        assert(after.drop_last() =~= meta.drop_last());
    } else {
        lemma_count_update(meta.drop_last(), i, m);
        assert(after.drop_last() =~= meta.drop_last().update(i, m));
        assert forall|p: Pass| #[trigger]
            count_pass(after, p) == count_pass(meta, p) - weight(in_pass(meta[i], p)) + weight(
                in_pass(m, p),
            ) by {
            assert(count_pass(meta.drop_last().update(i, m), p) == count_pass(meta.drop_last(), p)
                - weight(in_pass(meta[i], p)) + weight(in_pass(m, p)));
        }
    }
}

/// Patching a slot's metadata keeps the table well-formed as long as the pass
/// that it reports stays the same.
pub proof fn law_patching_keeps_counts_exact<H: GpuHandle, M: Copy + SlotPass>(
    before: HandleAllocator<H, M>,
    after: HandleAllocator<H, M>,
    h: H,
    patched: M,
)
    requires
        before.wf(),
        before.lookup(h) matches Some(m) && m.pass_of() == patched.pass_of(),
        after.meta@ == before.meta@.update(h.slot_of() as int, Some(patched)),
        after.generations == before.generations,
        after.free == before.free,
        after.live == before.live,
        after.live_per_pass == before.live_per_pass,
        after.high_water == before.high_water,
    ensures
        after.wf(),
        after.lookup(h) == Some(patched),
{
    let slot = h.slot_of() as int;
    lemma_count_update(before.meta@, slot, Some(patched));
    assert(count_pass(after.meta@, Pass::Opaque) == count_pass(before.meta@, Pass::Opaque));
    assert(count_pass(after.meta@, Pass::Cutout) == count_pass(before.meta@, Pass::Cutout));
    assert(count_pass(after.meta@, Pass::Blend) == count_pass(before.meta@, Pass::Blend));
    assert forall|k: int| 0 <= k < after.free.len() implies (#[trigger] after.free[k])
        < after.meta.len() && after.meta[after.free[k] as int] is None by {
        assert(before.meta[before.free[k] as int] is None);
    }
    assert forall|i: int| 0 <= i < after.meta.len() && (
    #[trigger] after.meta[i]) is None implies after.free@.contains(i as u32) by {
        assert(before.meta[i] is None);
    }
}

/// The cell shows the table's counts.
pub open spec fn shows<H: GpuHandle, M: Copy + SlotPass>(
    cell: MeshStatsShared,
    table: HandleAllocator<H, M>,
) -> bool {
    &&& cell.stats.live_slots == count_live(table.meta@)
    &&& cell.stats.live_per_pass[0] == count_pass(table.meta@, Pass::Opaque)
    &&& cell.stats.live_per_pass[1] == count_pass(table.meta@, Pass::Cutout)
    &&& cell.stats.live_per_pass[2] == count_pass(table.meta@, Pass::Blend)
    &&& is_live_end(table.meta@, cell.stats.slot_high_water as int)
}

/// Once a table has published to a cell, the cell shows its counts, and what others
/// have stored there is as they left it.
pub proof fn law_the_cell_shows_the_table<H: GpuHandle, M: Copy + SlotPass>(
    table: HandleAllocator<H, M>,
    before: MeshStatsShared,
    after: MeshStatsShared,
)
    requires
        table.wf(),
        table.published(before, after),
    ensures
        shows(after, table),
        after.stats.cpu_cull_max == before.stats.cpu_cull_max,
        after.stats.arenas == before.stats.arenas,
        after.stats.arena_bytes == before.stats.arena_bytes,
        after.stats.arena_bytes_used == before.stats.arena_bytes_used,
{
    lemma_counts_bounded(table.meta@);
}

/// A slot's generation returns to an earlier value only after every other
/// non-zero value has been used: a stale handle stays stale through any shorter
/// run of frees.
pub proof fn law_generations_do_not_repeat_early(g: u32, k: nat)
    requires
        g != 0,
        0 < k < u32::MAX,
    ensures
        generation_after(g, k) != g,
        generation_after(g, k) != 0,
{
    lemma_generation_after(g, k);
}

proof fn lemma_generation_after(g: u32, k: nat)
    requires
        g != 0,
        k < u32::MAX,
    ensures
        generation_after(g, k) == (if g + k <= u32::MAX {
            g + k
        } else {
            g + k - u32::MAX
        }),
    decreases k,
{
    if k > 0 {
        lemma_generation_after(g, (k - 1) as nat);
    }
}

/// A freed handle never resolves again: not right after the free, and not after
/// its slot has been handed out anew.
pub proof fn law_stale_handle_never_resolves<H: GpuHandle, M: Copy + SlotPass>(
    table: HandleAllocator<H, M>,
    stale: H,
    frees: nat,
)
    requires
        table.wf(),
        stale.generation_of() != 0,
        0 < frees < u32::MAX,
        stale.slot_of() < table.meta.len(),
        table.generations[stale.slot_of() as int].value() == generation_after(
            stale.generation_of(),
            frees,
        ),
    ensures
        table.lookup(stale) is None,
{
    law_generations_do_not_repeat_early(stale.generation_of(), frees);
}

/// Minting and freeing one slot leaves what every other slot's handle resolves
/// to untouched.
pub proof fn law_other_slots_are_untouched<H: GpuHandle, M: Copy + SlotPass>(
    before: HandleAllocator<H, M>,
    after: HandleAllocator<H, M>,
    slot: int,
    other: H,
)
    requires
        before.wf(),
        other.slot_of() != slot,
        other.slot_of() < before.meta.len(),
        before.meta.len() <= after.meta.len(),
        before.generations.len() <= after.generations.len(),
        forall|i: int| 0 <= i < before.meta.len() && i != slot ==> #[trigger] after.meta[i] == before.meta[i],
        forall|i: int|
            0 <= i < before.generations.len() && i != slot ==> #[trigger] after.generations[i]
                == before.generations[i],
    ensures
        after.lookup(other) == before.lookup(other),
{
}

/// One up and one down leave a count as it was, short of the ends of its range.
pub proof fn law_counts_move_by_one(count: u32)
    ensures
        count < u32::MAX ==> bumped(count, true) == count + 1 && bumped(bumped(count, true), false)
            == count,
        count > 0 ==> bumped(count, false) == count - 1 && bumped(bumped(count, false), true)
            == count,
        bumped(u32::MAX, true) == u32::MAX,
        bumped(0, false) == 0,
{
}

} // verus!
