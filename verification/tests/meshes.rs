use ash::vk;
use std::mem::size_of;
use voxel_engine::allocator::{Allocation, Pool};
use voxel_engine::commands::{Access, BufferBarrier, Cmd};
use voxel_engine::copies::{coalesce_ranges, copy_barrier, mesh_reads, BufferRange, CopyBarrier};
use voxel_engine::handles::{HandleAllocator, MeshStatsShared, SlotPass};
use voxel_engine::host_buffer::{
    after_allocate, bar_charge, host_buffer_memory_type, shrink_capacity, BarBudget, HostBuffer,
    Placement, HOST_BAR_CAP, IMM_MIN_CAPACITY, IMM_SHRINK_WINDOW,
};
use voxel_engine::lane::{Lane, Tier};
use voxel_engine::materials::{
    default_material_table, write_material_append, write_material_set, MaterialDesc,
    MaterialTable, ENTRY_BYTES, MATERIAL_DESC_CAPACITY, MATERIAL_FLAG_PROCEDURAL, TABLE_BYTES,
};
use voxel_engine::memory::{MemoryProps, MemoryType, HOST_COHERENT};
use voxel_engine::mesh::{Generation, MeshHandle, Pass};
use voxel_engine::mesh_residency::{
    CopySource, DeferredArrival, GpuResident, MeshResidency, PendingCopy,
    TRANSFER_BUDGET_BYTES_PER_FRAME,
};
use voxel_engine::retire::RetireQueue;
use voxel_engine::staging::{StagingRing, Stamp};

/// A statistics cell that nobody reads.
fn cell() -> MeshStatsShared {
    MeshStatsShared::new(1024)
}

#[test]
fn mesh_handle_option_has_niche() {
    // NonZeroU32 generation gives Option<MeshHandle> a niche → 8 bytes, so
    // the streaming lane's millions of Option<MeshHandle> stay compact.
    assert_eq!(size_of::<MeshHandle>(), 8);
    assert_eq!(size_of::<Option<MeshHandle>>(), size_of::<MeshHandle>());
}

#[test]
fn handle_allocator_reuses_slot_with_bumped_nonzero_generation() {
    // M = u32 stands in for MeshMeta: this exercises identity only.
    let mut a: HandleAllocator<MeshHandle, u32> = HandleAllocator::new();
    let h0 = a.alloc_slot(10, &mut cell());
    assert_eq!(h0.slot, 0);
    assert_eq!(h0.generation.get(), 1, "generations are 1-based");
    assert_eq!(a.meta_mut(h0).copied(), Some(10));
    assert_eq!(a.live_count(), 1);

    assert!(a.free_slot(h0, &mut cell()));
    // A stale handle resolves to nothing after its slot is freed.
    assert_eq!(a.meta_mut(h0).copied(), None);
    // Double free is rejected (generation already moved on).
    assert!(!a.free_slot(h0, &mut cell()));
    assert_eq!(a.live_count(), 0);

    // Realloc reuses slot 0 with a bumped, still-nonzero generation.
    let h1 = a.alloc_slot(20, &mut cell());
    assert_eq!(h1.slot, 0);
    assert_eq!(h1.generation.get(), 2);
    assert_eq!(a.meta_mut(h1).copied(), Some(20));
    // The old handle still doesn't alias the reused slot.
    assert_eq!(a.meta_mut(h0).copied(), None);
    assert_eq!(a.live_count(), 1);
    assert_eq!(a.slot_high_water(), 1);
}

#[derive(Clone, Copy)]
struct PassMeta(Pass);

impl SlotPass for PassMeta {
    fn pass_of(&self) -> Option<Pass> {
        Some(self.0)
    }

    fn slot_pass(&self) -> Option<Pass> {
        Some(self.0)
    }
}

#[test]
fn handle_allocator_live_per_pass_and_high_water_stay_exact() {
    let mut a: HandleAllocator<MeshHandle, PassMeta> = HandleAllocator::new();
    let o0 = a.alloc_slot(PassMeta(Pass::Opaque), &mut cell());
    let c0 = a.alloc_slot(PassMeta(Pass::Cutout), &mut cell());
    let b0 = a.alloc_slot(PassMeta(Pass::Blend), &mut cell());
    assert_eq!(a.live_count(), 3);
    assert_eq!(a.live_per_pass(), [1, 1, 1]);
    assert_eq!(a.slot_high_water(), 3);

    assert!(a.free_slot(c0, &mut cell()));
    assert_eq!(a.live_count(), 2);
    assert_eq!(a.live_per_pass(), [1, 0, 1]);
    assert_eq!(a.slot_high_water(), 3, "hole in the middle does not retreat");

    assert!(a.free_slot(b0, &mut cell()));
    assert_eq!(a.live_per_pass(), [1, 0, 0]);
    assert_eq!(a.slot_high_water(), 1, "tail free retreats to live end");

    // Regenerate slot 0: free then alloc — counts stay exact.
    assert!(a.free_slot(o0, &mut cell()));
    assert_eq!(a.live_count(), 0);
    assert_eq!(a.live_per_pass(), [0, 0, 0]);
    assert_eq!(a.slot_high_water(), 0);
    let o1 = a.alloc_slot(PassMeta(Pass::Opaque), &mut cell());
    assert_eq!(o1.slot, 0);
    assert_eq!(a.live_count(), 1);
    assert_eq!(a.live_per_pass(), [1, 0, 0]);
    assert_eq!(a.slot_high_water(), 1);
    assert!(!a.free_slot(o0, &mut cell()), "stale generation is not a live slot");
    assert_eq!(a.live_count(), 1);
    assert_eq!(a.live_per_pass(), [1, 0, 0]);
}

#[test]
fn handle_counts_are_published() {
    let mut a: HandleAllocator<MeshHandle, PassMeta> = HandleAllocator::new();
    let mut stats = cell();
    a.attach_stats(&mut stats);
    let h = a.alloc_slot(PassMeta(Pass::Cutout), &mut stats);
    let s = stats.load();
    assert_eq!((s.live_slots, s.slot_high_water, s.cpu_cull_max), (1, 1, 1024));
    assert_eq!(s.live_per_pass, [0, 1, 0]);
    assert!(a.free_slot(h, &mut stats));
    assert_eq!((stats.load().live_slots, stats.load().slot_high_water), (0, 0));
    assert!(!a.free_slot(h, &mut stats));
}

fn props(types: &[(vk::MemoryPropertyFlags, u32)], heap_sizes: &[u64]) -> MemoryProps {
    MemoryProps {
        types: types
            .iter()
            .map(|&(flags, heap)| MemoryType { flags: flags.as_raw(), heap })
            .collect(),
        heaps: heap_sizes.to_vec(),
    }
}

#[test]
fn host_buffers_prefer_the_bar_type_until_the_cap_and_fall_back_to_system_memory() {
    // Discrete layout: device-local VRAM, system host-coherent, then a
    // small BAR window (no ReBAR).
    let host = vk::MemoryPropertyFlags::HOST_VISIBLE | vk::MemoryPropertyFlags::HOST_COHERENT;
    assert_eq!(host.as_raw(), HOST_COHERENT);
    let bar = host | vk::MemoryPropertyFlags::DEVICE_LOCAL;
    let discrete = props(
        &[(vk::MemoryPropertyFlags::DEVICE_LOCAL, 0), (host, 1), (bar, 2)],
        &[8 << 30, 16 << 30, 256 << 20],
    );
    let all = 0b111;
    assert_eq!(host_buffer_memory_type(&discrete, all, 1 << 20, 0), Some((2, true)));
    // At the cap the same request lands in system memory.
    assert_eq!(
        host_buffer_memory_type(&discrete, all, 1 << 20, HOST_BAR_CAP),
        Some((1, false))
    );
    assert_eq!(
        host_buffer_memory_type(&discrete, all, 1 << 20, HOST_BAR_CAP - (1 << 20)),
        Some((2, true))
    );
    // A request larger than the cap skips the small BAR even when unused.
    assert_eq!(
        host_buffer_memory_type(&discrete, all, HOST_BAR_CAP + 1, 0),
        Some((1, false))
    );
    // A type filter excluding the BAR type skips it regardless of headroom.
    assert_eq!(host_buffer_memory_type(&discrete, 0b011, 1 << 20, 0), Some((1, false)));
    // ReBAR: the BAR heap is the full VRAM window, so the cap does not apply.
    let rebar = props(
        &[(vk::MemoryPropertyFlags::DEVICE_LOCAL, 0), (host, 1), (bar, 0)],
        &[8 << 30, 16 << 30],
    );
    assert_eq!(
        host_buffer_memory_type(&rebar, all, 1 << 20, HOST_BAR_CAP),
        Some((2, true))
    );
    // No BAR type at all: plain host-coherent.
    let no_bar = props(
        &[(vk::MemoryPropertyFlags::DEVICE_LOCAL, 0), (host, 1)],
        &[8 << 30, 16 << 30],
    );
    assert_eq!(host_buffer_memory_type(&no_bar, 0b11, 4096, 0), Some((1, false)));
    // Device-local only (no host-visible type): nothing suitable.
    let dl = props(&[(vk::MemoryPropertyFlags::DEVICE_LOCAL, 0)], &[8 << 30]);
    assert_eq!(host_buffer_memory_type(&dl, 0b1, 4096, 0), None);

    // Only the small window is charged, and a failed window falls back.
    assert_eq!(bar_charge(&discrete, 2, 4096), 4096);
    assert_eq!(bar_charge(&rebar, 2, 4096), 0);
    assert!(matches!(
        after_allocate(&discrete, all, 2, true, 4096, true),
        Placement::Keep { bar_bytes: 4096 }
    ));
    assert!(matches!(
        after_allocate(&discrete, all, 2, true, 4096, false),
        Placement::Retry { type_index: 1 }
    ));
    assert!(matches!(
        after_allocate(&discrete, all, 1, false, 4096, false),
        Placement::Fail
    ));
}

#[test]
fn shrink_decay_rules() {
    // At or below the floor: never shrink, even when idle.
    assert_eq!(shrink_capacity(IMM_MIN_CAPACITY, 0), None);
    assert_eq!(shrink_capacity(0, 0), None);
    // A whole window with zero usage: destroy outright.
    assert_eq!(shrink_capacity(1 << 20, 0), Some(0));
    // Capacity within 4x of the mark: keep.
    assert_eq!(shrink_capacity(1 << 20, 1 << 18), None); // exactly 4x
    assert_eq!(shrink_capacity(1 << 20, (1 << 18) + 1), None);
    assert_eq!(shrink_capacity(1 << 20, 1 << 19), None);
    // Way oversized: recreate at 2x the mark.
    assert_eq!(shrink_capacity(1 << 20, (1 << 18) - 1), Some((1 << 19) - 2));
    assert_eq!(shrink_capacity(16 << 20, 100 << 10), Some(200 << 10));
    // The 2x target is always strictly below the old capacity.
    let target = shrink_capacity(16 << 20, 100 << 10).unwrap();
    assert!(target.next_power_of_two().max(IMM_MIN_CAPACITY) < 16 << 20);
}

#[test]
fn host_buffer_grows_at_once_and_shrinks_after_a_window() {
    let mut budget = BarBudget::new();
    let mut b = HostBuffer::new();
    assert!(b.bound().is_none());
    let up = b.maintain(0);
    assert!(up.release.is_none() && up.create.is_none() && !up.changed);
    let up = b.maintain(16 << 20);
    assert_eq!(up.create, Some(16 << 20));
    assert!(up.release.is_none());
    b.attach(7, 16 << 20, 100);
    budget.charge(100);
    assert_eq!(b.bound(), Some(7));
    assert!(b.fits(16 << 20, 0));
    assert!(!b.fits(16 << 20, 1));
    assert!(!b.fits(u64::MAX, 2));
    let mut shrunk = None;
    for frame in 0..2 * IMM_SHRINK_WINDOW {
        let up = b.maintain(100 << 10);
        if let Some(r) = up.release {
            assert_eq!((r.buffer, r.bar_bytes), (7, 100));
            budget.credit(r.bar_bytes);
            shrunk = Some((frame, up.create));
            break;
        }
    }
    let (frame, create) = shrunk.expect("oversized for a whole window");
    assert!(frame + 1 >= IMM_SHRINK_WINDOW);
    assert_eq!(create, Some(256 << 10));
    assert_eq!(budget.used, 0);
}

#[test]
fn table_bytes_are_256_kib() {
    assert_eq!(TABLE_BYTES, 256 * 1024);
    assert_eq!(ENTRY_BYTES, 16);
}

#[test]
fn queue_set_marks_prefix_and_resets_used() {
    let mut cpu = default_material_table();
    let d = MaterialDesc { flags: MATERIAL_FLAG_PROCEDURAL, ..MaterialDesc::array_layer() };
    let used = write_material_set(&mut cpu, &[d, d, d]);
    assert_eq!(used, 3);
    let used = write_material_set(&mut cpu, &[d]);
    assert_eq!(used, 1);
    assert_eq!(cpu[1], MaterialDesc::array_layer());
}

#[test]
fn material_table_drops_what_does_not_fit() {
    let d = MaterialDesc { flags: 1, param0: 2, param1: 3, param2: 4 };
    let mut cpu = default_material_table();
    let many = vec![d; MATERIAL_DESC_CAPACITY + 5];
    assert_eq!(write_material_set(&mut cpu, &many), MATERIAL_DESC_CAPACITY);
    let mut cpu = default_material_table();
    let used = write_material_append(&mut cpu, MATERIAL_DESC_CAPACITY - 1, &[d, d]);
    assert_eq!(used, MATERIAL_DESC_CAPACITY);
    assert_eq!(cpu[MATERIAL_DESC_CAPACITY - 1], d);
}

#[test]
fn material_flush_stages_the_words_that_changed() {
    let d = MaterialDesc { flags: 1, param0: 2, param1: 3, param2: 4 };
    let mut t = MaterialTable::new(5, 6);
    let lane = Lane { tier: Tier::SecondQueueSameFamily, family: 0 };
    assert!(t.has_overwrite_pending());
    let first = t.upload_blocking(lane, 0);
    assert_eq!(first.bytes, vec![0u8; TABLE_BYTES as usize]);
    assert!(!t.has_overwrite_pending());
    assert!(t.flush(lane, 0).is_none());
    t.queue_append(&[d]);
    assert_eq!(t.used(), 1);
    let f = t.flush(lane, 0).unwrap();
    let want: Vec<u8> = [1u32, 2, 3, 4].iter().flat_map(|w| w.to_ne_bytes()).collect();
    assert_eq!(f.bytes, want);
    assert!(f.on_lane);
    assert!(f.record.iter().any(|c| matches!(c, Cmd::CopyStaging { dst: 5 })));
    assert!(t.flush(lane, 0).is_none());
    let whole = t.upload_blocking(lane, 0);
    assert_eq!(whole.bytes.len() as u64, TABLE_BYTES);
    assert_eq!(whole.bytes[..16], want);
}

#[test]
fn coalesce_merges_touching_runs_per_buffer_only() {
    let a = 1;
    let b = 2;
    let r = |buffer, offset, size| BufferRange { buffer, offset, size };
    // Out-of-order input; [0,256) + [256,512) + [512,520) touch; [1024,..)
    // is a separate run; buffer b's touching range must not merge into a.
    let merged = coalesce_ranges(vec![
        r(a, 512, 8),
        r(a, 0, 256),
        r(b, 520, 16),
        r(a, 1024, 100),
        r(a, 256, 256),
    ]);
    assert_eq!(merged, vec![r(a, 0, 520), r(a, 1024, 100), r(b, 520, 16)]);
    // Overlap keeps the farthest end; a gap of one byte stays split.
    let merged = coalesce_ranges(vec![r(a, 0, 100), r(a, 50, 100), r(a, 151, 1)]);
    assert_eq!(merged, vec![r(a, 0, 150), r(a, 151, 1)]);
    assert!(coalesce_ranges(Vec::new()).is_empty());
}

fn some_barrier() -> BufferBarrier {
    let none = Access { stage: 0, access: 0 };
    BufferBarrier {
        buffer: 0,
        offset: 0,
        size: 0,
        src: none,
        dst: none,
        src_family: 0,
        dst_family: 0,
    }
}

#[test]
fn deferred_arrival_folds_until_taken() {
    let mut res = MeshResidency::new();
    assert!(!res.has_deferred());
    res.defer_arrival(3, vec![]);
    res.defer_arrival(2, vec![some_barrier()]);
    assert!(res.has_deferred());
    let DeferredArrival { value, acquires } = res.deferred.take().expect("owed");
    assert_eq!(value, 3);
    assert_eq!(acquires.len(), 1);
    assert!(!res.has_deferred());
}

#[test]
fn taking_an_arrival_issues_its_acquires() {
    let mut res = MeshResidency::new();
    assert!(res.take_deferred_arrival().is_none());
    res.defer_arrival(3, vec![some_barrier()]);
    let (value, cmds) = res.take_deferred_arrival().unwrap();
    assert_eq!(value, 3);
    assert!(matches!(cmds[..], [Cmd::BufferBarrier(_), Cmd::Barriers]));
    res.defer_arrival(4, vec![]);
    let (_, cmds) = res.take_deferred_arrival().unwrap();
    assert!(cmds.is_empty());
}

fn dummy() -> Allocation {
    Allocation { buffer: 0, offset: 0, size: 0, mapped: None, block: 0, pool: Pool::Device }
}

#[test]
fn pooled_mesh_arrives_one_frame_later_with_a_fake_timeline() {
    let mut pool = StagingRing::new(8, 8);
    let lease = pool.acquire(8).expect("host pool");

    let mut res = MeshResidency::new();
    res.apply_upload(
        0,
        Generation::first(),
        GpuResident {
            buffer: 0,
            arena: dummy(),
            copy: Some(PendingCopy {
                src_buffer: 0,
                src_offset: 0,
                dst_buffer: 0,
                dst_offset: 0,
                size: 8,
                source: CopySource::Pool(lease),
            }),
            arrived_at: None,
        },
    );
    assert!(!res.is_arrived(0), "pending copy is not arrived at apply");
    assert!(!res.has_deferred(), "the lane wait is not armed until flush");

    // Drain then draw: note_frame then flush. Delay == 1; the graphics
    // wait is deferred (no same-frame wait).
    res.note_frame();
    let done = 1;
    let lane = Lane { tier: Tier::SecondQueueSameFamily, family: 0 };
    let batch = res.begin_copies(lane, 0).expect("one copy is pending");
    let stamps = res.finish_copies(batch, done);
    assert_eq!(stamps.len(), 1);
    for (region, stamp) in stamps {
        assert!(matches!(stamp, Stamp::Transfer(1)));
        pool.stamp(region, stamp);
    }
    assert!(res.is_arrived(0));
    assert_eq!(res.last_pool_arrival_frames, 1);
    assert_eq!(res.take_arrived(), vec![0]);
    assert!(res.has_deferred(), "lane wait is deferred to the next graphics submit");

    // Stamp::Transfer(1): reclaim needs the transfer timeline.
    pool.reclaim(0, None);
    assert!(pool.acquire(8).is_none(), "region waits for the fake transfer timeline");
    pool.reclaim(done, None);
    assert!(pool.acquire(8).is_none(), "a render counter does not free a Transfer stamp");
    pool.reclaim(0, Some(done));
    assert!(pool.acquire(8).is_some(), "reclaimed one deferred frame later, no GPU wait");
}

fn staged(slot: u64, size: u64) -> GpuResident {
    GpuResident {
        buffer: 9,
        arena: dummy(),
        copy: Some(PendingCopy {
            src_buffer: 8,
            src_offset: 0,
            dst_buffer: 9,
            dst_offset: slot * size,
            size,
            source: CopySource::Alloc(dummy()),
        }),
        arrived_at: None,
    }
}

#[test]
fn a_frame_copies_within_its_budget_but_always_something() {
    let mut res = MeshResidency::new();
    let lane = Lane { tier: Tier::SameQueueFallback, family: 0 };
    assert!(res.begin_copies(lane, 0).is_none());
    let big = TRANSFER_BUDGET_BYTES_PER_FRAME + 1;
    res.apply_upload(0, Generation::first(), staged(0, big));
    res.apply_upload(1, Generation::first(), staged(1, big));
    let batch = res.begin_copies(lane, 0).unwrap();
    assert_eq!(batch.slots, vec![0]);
    assert!(!batch.on_lane);
    res.finish_copies(batch, 4);
    assert!(res.is_arrived(0) && !res.is_arrived(1));
    assert!(res.has_pending());
    assert!(res.has_garbage());
    assert!(res.collect(3).is_empty());
    assert_eq!(res.collect(4).len(), 1);
    let batch = res.begin_copies(lane, 0).unwrap();
    assert_eq!(batch.slots, vec![1]);
}

#[test]
fn freeing_a_mesh_retires_what_it_held() {
    let mut res = MeshResidency::new();
    let g = Generation::first();
    res.apply_upload(0, g, staged(0, 16));
    assert!(res.apply_free(0, Generation::new(9).unwrap(), 5).is_none());
    assert!(res.has_pending());
    assert!(res.apply_free(0, g, 5).is_none());
    assert!(!res.is_arrived(0));
    assert!(res.begin_copies(Lane { tier: Tier::SameQueueFallback, family: 0 }, 0).is_none());
    assert_eq!(res.collect(5).len(), 2);
    let left = res.destroy_all();
    assert!(left.allocs.is_empty() && left.leases.is_empty());
}

#[test]
fn destroying_hands_back_every_lease() {
    let mut ring = StagingRing::new(16, 4);
    let region = ring.acquire(8).unwrap();
    let mut res = MeshResidency::new();
    res.apply_upload(0, Generation::first(), staged(0, 16));
    let mut leased = staged(1, 8);
    if let Some(c) = leased.copy.as_mut() {
        c.source = CopySource::Pool(region);
    }
    res.apply_upload(1, Generation::first(), leased);
    let left = res.destroy_all();
    // Two meshes, and the staging allocation of the first.
    assert_eq!(left.allocs.len(), 3);
    assert_eq!(left.leases, vec![region]);
    assert!(!res.has_pending() && !res.is_arrived(0));
}

#[test]
fn release_and_acquire_name_the_same_range() {
    let reads = mesh_reads();
    let role = |src_family, dst_family| (src_family, dst_family);
    let (s, d) = role(3, 0);
    let rel =
        copy_barrier(1, 2, 4, reads, CopyBarrier::Release { src_family: s, dst_family: d });
    let acq =
        copy_barrier(1, 2, 4, reads, CopyBarrier::Acquire { src_family: s, dst_family: d });
    assert_eq!((rel.buffer, rel.offset, rel.size), (acq.buffer, acq.offset, acq.size));
    assert_eq!((rel.src_family, rel.dst_family), (3, 0));
    assert_eq!((acq.src_family, acq.dst_family), (3, 0));
    assert_eq!(rel.dst.access, 0);
    assert_eq!(acq.src.access, 0);
}

#[test]
fn retired_items_leave_in_order_of_arrival() {
    let mut q: RetireQueue<&str> = RetireQueue::new();
    q.push(5, "a");
    q.push(2, "b");
    q.push(5, "c");
    assert_eq!(q.collect(2), vec!["b"]);
    assert!(q.collect(4).is_empty());
    assert_eq!(q.collect(5), vec!["a", "c"]);
    assert!(q.is_empty());
    q.push(9, "d");
    assert_eq!(q.collect_all(), vec!["d"]);
}
