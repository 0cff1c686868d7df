use voxel_engine::arena::{group_lane, ArenaBox, ArenaDirectory, MeshAabb};
use voxel_engine::cull_math::{
    camera_part, group_indirect_calls, partition_count, shadow_part, Group, PartitionGpu, BUCKETS,
    CAMERA_GROUPS, GROUPS, SHADOW_GROUPS,
};
use voxel_engine::handles::{HandleAllocator, MeshStatsShared};
use voxel_engine::mesh::{Generation, MeshHandle, Pass};

/// A statistics cell that nobody reads.
fn cell() -> MeshStatsShared {
    MeshStatsShared::new(1024)
}

fn genr(v: u32) -> Generation {
    Generation::new(v).unwrap()
}

fn g1() -> Generation {
    genr(1)
}

fn bits(v: [f32; 3]) -> [u32; 3] {
    v.map(f32::to_bits)
}

fn floats(v: [u32; 3]) -> [f32; 3] {
    v.map(f32::from_bits)
}

fn unit() -> MeshAabb {
    MeshAabb { block: [0; 3], min: bits([0.0; 3]), max: bits([1.0; 3]) }
}

/// The smallest box around `b` and `m`, relative to the origin of `b`.
fn expand(b: ArenaBox, m: MeshAabb) -> ArenaBox {
    let (mut mn, mut mx) = (floats(b.min), floats(b.max));
    let (amin, amax) = (floats(m.min), floats(m.max));
    for i in 0..3 {
        let d = (m.block[i] - b.origin[i]) as f32;
        mn[i] = mn[i].min(amin[i] + d);
        mx[i] = mx[i].max(amax[i] + d);
    }
    ArenaBox { origin: b.origin, min: bits(mn), max: bits(mx) }
}

#[derive(Clone, Copy)]
struct Eye {
    block: [i32; 3],
    frac: [f32; 3],
}

fn origin_eye() -> Eye {
    Eye { block: [0; 3], frac: [0.0; 3] }
}

const SPLITS: [f32; 3] = [16.0, 64.0, 256.0];

/// Whether some point of the box has a distance in `bucket`.
fn reaches(b: ArenaBox, bucket: usize, eye: Eye) -> bool {
    let (mut near, mut far) = (0.0f32, 0.0f32);
    for i in 0..3 {
        let off = (b.origin[i] - eye.block[i]) as f32 - eye.frac[i];
        let (lo, hi) = (f32::from_bits(b.min[i]) + off, f32::from_bits(b.max[i]) + off);
        let c = 0.0f32.clamp(lo, hi);
        near += c * c;
        far += lo.abs().max(hi.abs()).powi(2);
    }
    let (dmin, dmax) = (near.sqrt(), far.sqrt());
    let lo = if bucket == 0 { 0.0 } else { SPLITS[bucket - 1] };
    match SPLITS.get(bucket) {
        Some(&hi) => dmax >= lo && dmin < hi,
        None => dmax >= lo,
    }
}

#[test]
fn empty_directory_has_no_partitions() {
    let dir = ArenaDirectory::new();
    let (parts, total) = dir.partitions();
    assert!(parts.is_empty());
    assert_eq!(total, 0);
}

const FULL: bool = false;
const LOD: bool = true;

#[test]
fn single_arena_single_opaque_upload_produces_exact_partition() {
    let mut dir = ArenaDirectory::new();
    let arena = dir.note_upload(0, g1(), 1, Pass::Opaque, FULL, unit(), expand, &mut cell());
    assert_eq!(arena, 0);
    assert_eq!(dir.arena_count(), 1);
    let (parts, total) = dir.partitions();
    // 3 camera groups * K buckets + 2 shadow groups, one arena.
    assert_eq!(parts.len(), partition_count(1));
    for bucket in 0..BUCKETS {
        assert_eq!(
            parts[camera_part(Group::Opaque as usize, 0, bucket, 1)],
            PartitionGpu {
                offset: bucket as u32,
                capacity: 1
            }
        );
        assert_eq!(
            parts[camera_part(Group::Cutout as usize, 0, bucket, 1)].capacity,
            0,
            "cutout buckets stay empty"
        );
        assert_eq!(
            parts[camera_part(Group::OpaqueLod as usize, 0, bucket, 1)].capacity,
            0,
            "lod buckets stay empty"
        );
    }
    // Shadow Near/Far reuse full-res Opaque's live count, unbucketed.
    // Command offsets skip empty Cutout/LOD buckets (capacity 0).
    assert_eq!(
        parts[shadow_part(0, 0, 1)],
        PartitionGpu {
            offset: BUCKETS as u32,
            capacity: 1
        }
    );
    assert_eq!(
        parts[shadow_part(1, 0, 1)],
        PartitionGpu {
            offset: BUCKETS as u32 + 1,
            capacity: 1
        }
    );
    // K opaque camera slots + 2 shadow slots.
    assert_eq!(total, BUCKETS as u32 + 2);
}

#[test]
fn lod_opaque_uploads_take_their_own_group_and_never_cast() {
    let mut dir = ArenaDirectory::new();
    dir.note_upload(0, g1(), 1, Pass::Opaque, LOD, unit(), expand, &mut cell());
    dir.note_upload(1, g1(), 1, Pass::Opaque, FULL, unit(), expand, &mut cell());
    dir.note_upload(2, g1(), 1, Pass::Opaque, LOD, unit(), expand, &mut cell());
    let (parts, total) = dir.partitions();
    assert_eq!(
        parts[camera_part(Group::Opaque as usize, 0, 0, 1)].capacity,
        1
    );
    assert_eq!(
        parts[camera_part(Group::Cutout as usize, 0, 0, 1)].capacity,
        0
    );
    // Shadow casters are the full-res set only (cull.comp: scale <= 1).
    assert_eq!(parts[shadow_part(0, 0, 1)].capacity, 1);
    assert_eq!(
        parts[camera_part(Group::OpaqueLod as usize, 0, 0, 1)].capacity,
        2
    );
    // Opaque K + LOD 2K + 2 shadow.
    assert_eq!(total, (BUCKETS + BUCKETS * 2 + 2) as u32);
}

#[test]
fn blend_uploads_do_not_occupy_a_cull_lane() {
    // Blend never reaches the GPU cull (CPU-sorted path); its records still
    // register a reference (for reuse bookkeeping) but no live count.
    let mut dir = ArenaDirectory::new();
    dir.note_upload(0, g1(), 1, Pass::Blend, FULL, unit(), expand, &mut cell());
    let (parts, total) = dir.partitions();
    assert!(parts.iter().all(|p| p.capacity == 0));
    assert_eq!(total, 0);
}

#[test]
fn partitions_are_group_major_offsets_accumulate_across_arenas() {
    let mut dir = ArenaDirectory::new();
    dir.note_upload(0, g1(), 1, Pass::Opaque, FULL, unit(), expand, &mut cell()); // arena 0: 1 opaque
    dir.note_upload(1, g1(), 1, Pass::Opaque, FULL, unit(), expand, &mut cell()); // arena 0: 2 opaque (same buffer)
    dir.note_upload(2, g1(), 2, Pass::Cutout, FULL, unit(), expand, &mut cell()); // arena 1: 1 cutout
    dir.note_upload(3, g1(), 2, Pass::Opaque, LOD, unit(), expand, &mut cell()); // arena 1: 1 LOD opaque
    assert_eq!(dir.arena_count(), 2);
    let (parts, total) = dir.partitions();
    assert_eq!(parts.len(), partition_count(2));
    // Opaque a0: K buckets, each capacity 2, offsets 0,2,4,6.
    for bucket in 0..BUCKETS {
        let p = parts[camera_part(Group::Opaque as usize, 0, bucket, 2)];
        assert_eq!(p.capacity, 2);
        assert_eq!(p.offset, (bucket * 2) as u32);
    }
    // Opaque a1: empty.
    for bucket in 0..BUCKETS {
        assert_eq!(
            parts[camera_part(Group::Opaque as usize, 1, bucket, 2)].capacity,
            0
        );
    }
    // Cutout a0 empty, a1 capacity 1 across K buckets.
    for bucket in 0..BUCKETS {
        assert_eq!(
            parts[camera_part(Group::Cutout as usize, 0, bucket, 2)].capacity,
            0
        );
        assert_eq!(
            parts[camera_part(Group::Cutout as usize, 1, bucket, 2)].capacity,
            1
        );
    }
    // LOD a0 empty, a1 capacity 1.
    for bucket in 0..BUCKETS {
        assert_eq!(
            parts[camera_part(Group::OpaqueLod as usize, 0, bucket, 2)].capacity,
            0
        );
        assert_eq!(
            parts[camera_part(Group::OpaqueLod as usize, 1, bucket, 2)].capacity,
            1
        );
    }
    // Shadows unbucketed, reuse full-res Opaque live counts (a0=2, a1=0).
    assert_eq!(parts[shadow_part(0, 0, 2)].capacity, 2);
    assert_eq!(parts[shadow_part(0, 1, 2)].capacity, 0);
    assert_eq!(parts[shadow_part(1, 0, 2)].capacity, 2);
    assert_eq!(parts[shadow_part(1, 1, 2)].capacity, 0);
    // Opaque: K*2, Cutout: K*1, LOD: K*1, ShadowNear: 2, ShadowFar: 2.
    assert_eq!(total, (BUCKETS * 2 + BUCKETS + BUCKETS + 2 + 2) as u32);
}

#[test]
fn note_free_decrements_live_count_and_capacity_shrinks() {
    let mut dir = ArenaDirectory::new();
    dir.note_upload(0, g1(), 1, Pass::Opaque, FULL, unit(), expand, &mut cell());
    dir.note_upload(1, g1(), 1, Pass::Opaque, FULL, unit(), expand, &mut cell());
    assert_eq!(dir.occupied_arenas(), 1);
    assert_eq!(dir.live_end(), 2);
    dir.note_free(0, g1(), &mut cell());
    assert_eq!(dir.occupied_arenas(), 1);
    assert_eq!(dir.live_end(), 2);
    let (parts, total) = dir.partitions();
    assert_eq!(parts[camera_part(0, 0, 0, 1)].capacity, 1);
    // K camera slots + 2 shadow slots, each sized off the remaining live count.
    assert_eq!(total, BUCKETS as u32 + 2);
}

#[test]
fn note_free_on_last_reference_drains_the_arena_row_for_reuse() {
    let mut dir = ArenaDirectory::new();
    dir.note_upload(0, g1(), 1, Pass::Opaque, FULL, unit(), expand, &mut cell());
    assert_eq!(dir.occupied_arenas(), 1);
    dir.note_free(0, g1(), &mut cell());
    assert_eq!(dir.occupied_arenas(), 0);
    assert_eq!(dir.live_end(), 0);
    assert_eq!(dir.arena_count(), 1); // row kept, but refs == 0 now
    // A fresh upload reuses the drained row instead of growing the table.
    let arena = dir.note_upload(1, g1(), 2, Pass::Cutout, FULL, unit(), expand, &mut cell());
    assert_eq!(arena, 0, "drained row should be reused, not appended");
    assert_eq!(dir.arena_count(), 1);
}

#[test]
fn note_upload_matches_a_still_live_buffer_instead_of_reusing_a_drained_row() {
    let mut dir = ArenaDirectory::new();
    dir.note_upload(0, g1(), 1, Pass::Opaque, FULL, unit(), expand, &mut cell());
    // A second upload to the SAME live buffer must hit the existing row, not
    // mint a new one (this is how one arena block accrues multiple meshes).
    let arena = dir.note_upload(1, g1(), 1, Pass::Cutout, FULL, unit(), expand, &mut cell());
    assert_eq!(arena, 0);
    assert_eq!(dir.arena_count(), 1);
    let (parts, _) = dir.partitions();
    assert_eq!(parts[camera_part(0, 0, 0, 1)].capacity, 1); // Opaque
    assert_eq!(parts[camera_part(1, 0, 0, 1)].capacity, 1); // Cutout
}

#[test]
fn note_free_with_stale_generation_is_a_no_op() {
    // A slot freed then immediately re-uploaded (new generation) must not
    // have a late/duplicate free for the OLD generation decrement its
    // still-live count out from under it.
    let mut dir = ArenaDirectory::new();
    dir.note_upload(0, g1(), 1, Pass::Opaque, FULL, unit(), expand, &mut cell());
    dir.note_free(0, genr(1), &mut cell()); // real free: drains the slot
    assert_eq!(dir.occupied_arenas(), 0);
    dir.note_upload(0, genr(2), 2, Pass::Cutout, FULL, unit(), expand, &mut cell()); // reused, new generation
    assert_eq!(dir.occupied_arenas(), 1);
    assert_eq!(dir.live_end(), 1);
    dir.note_free(0, genr(1), &mut cell()); // stale duplicate: must be ignored
    assert_eq!(dir.occupied_arenas(), 1);
    assert_eq!(dir.live_end(), 1);
    let (parts, total) = dir.partitions();
    assert_eq!(
        parts[camera_part(1, 0, 0, 1)].capacity,
        1,
        "Cutout slot must still be live"
    );
    assert_eq!(
        total, BUCKETS as u32,
        "stale free must not have drained the reused slot"
    );
}

#[test]
fn blend_set_tracks_uploads_and_frees_only_for_blend_slots() {
    let mut dir = ArenaDirectory::new();
    assert!(dir.blend_slots().is_empty());
    dir.note_upload(3, g1(), 1, Pass::Blend, FULL, unit(), expand, &mut cell());
    dir.note_upload(7, g1(), 1, Pass::Opaque, FULL, unit(), expand, &mut cell());
    dir.note_upload(9, g1(), 2, Pass::Blend, FULL, unit(), expand, &mut cell());
    dir.note_upload(12, g1(), 2, Pass::Blend, FULL, unit(), expand, &mut cell());
    let mut got = dir.blend_slots().to_vec();
    got.sort_unstable();
    assert_eq!(got, [3, 9, 12]);
    // Removing from the middle (swap_remove) keeps the moved slot findable.
    dir.note_free(9, g1(), &mut cell());
    let mut got = dir.blend_slots().to_vec();
    got.sort_unstable();
    assert_eq!(got, [3, 12]);
    dir.note_free(12, g1(), &mut cell());
    assert_eq!(*dir.blend_slots(), [3]);
    // A stale free never touches the set; a real one drains it.
    dir.note_free(3, genr(2), &mut cell());
    assert_eq!(*dir.blend_slots(), [3]);
    dir.note_free(3, g1(), &mut cell());
    assert!(dir.blend_slots().is_empty());
    // Re-registering a drained slot as Blend re-adds it exactly once.
    dir.note_upload(3, genr(2), 1, Pass::Blend, FULL, unit(), expand, &mut cell());
    dir.note_upload(3, genr(2), 1, Pass::Blend, FULL, unit(), expand, &mut cell());
    assert_eq!(*dir.blend_slots(), [3]);
    // Re-registering it as Opaque (without a free in between) removes it.
    dir.note_upload(3, genr(3), 1, Pass::Opaque, FULL, unit(), expand, &mut cell());
    assert!(dir.blend_slots().is_empty());
}

#[test]
fn partitions_into_reuses_the_callers_allocation() {
    let mut dir = ArenaDirectory::new();
    dir.note_upload(0, g1(), 1, Pass::Opaque, FULL, unit(), expand, &mut cell());
    let mut parts = Vec::with_capacity(64);
    let ptr = parts.as_ptr();
    let total = dir.partitions_into(&mut parts, 1, None);
    assert_eq!(parts.as_ptr(), ptr);
    assert_eq!(parts.len(), partition_count(1));
    // K camera (opaque) slots + 2 unbucketed shadow slots.
    assert_eq!(total, BUCKETS as u32 + 2);
}

#[test]
fn partitions_scale_camera_capacity_by_runs_per_mesh() {
    let mut dir = ArenaDirectory::new();
    dir.note_upload(0, g1(), 1, Pass::Opaque, FULL, unit(), expand, &mut cell());
    let mut parts = Vec::new();
    let total = dir.partitions_into(&mut parts, 3, None);
    for bucket in 0..BUCKETS {
        assert_eq!(
            parts[camera_part(Group::Opaque as usize, 0, bucket, 1)].capacity,
            3
        );
    }
    assert_eq!(parts[shadow_part(0, 0, 1)].capacity, 1);
    assert_eq!(parts[shadow_part(1, 0, 1)].capacity, 1);
    assert_eq!(total, BUCKETS as u32 * 3 + 2);
}

#[test]
fn live_end_follows_the_highest_registered_slot() {
    let mut dir = ArenaDirectory::new();
    assert_eq!(dir.live_end(), 0);
    dir.note_upload(4, g1(), 1, Pass::Opaque, FULL, unit(), expand, &mut cell());
    assert_eq!(dir.live_end(), 5);
    dir.note_upload(40, g1(), 1, Pass::Blend, FULL, unit(), expand, &mut cell());
    dir.note_upload(20, g1(), 1, Pass::Cutout, FULL, unit(), expand, &mut cell());
    assert_eq!(dir.live_end(), 41);
    // Freeing below the top leaves it; freeing the top retreats past the
    // dead gap to the next registered slot.
    dir.note_free(20, g1(), &mut cell());
    assert_eq!(dir.live_end(), 41);
    dir.note_free(40, g1(), &mut cell());
    assert_eq!(dir.live_end(), 5);
    // A stale free of the top is ignored.
    dir.note_free(4, genr(2), &mut cell());
    assert_eq!(dir.live_end(), 5);
    dir.note_free(4, g1(), &mut cell());
    assert_eq!(dir.live_end(), 0);
}

#[test]
fn note_record_moves_a_recomposed_slot_between_lanes() {
    let mut dir = ArenaDirectory::new();
    dir.note_upload(0, g1(), 1, Pass::Opaque, FULL, unit(), expand, &mut cell());
    // A mover recomposed at a coarser detail migrates to the LOD lane...
    dir.note_record(0, Pass::Opaque, LOD, unit(), expand);
    let (parts, _) = dir.partitions();
    assert_eq!(
        parts[camera_part(Group::Opaque as usize, 0, 0, 1)].capacity,
        0
    );
    assert_eq!(
        parts[camera_part(Group::OpaqueLod as usize, 0, 0, 1)].capacity,
        1
    );
    // ...and back; an unchanged lane is a no-op; a free still balances.
    dir.note_record(0, Pass::Opaque, FULL, unit(), expand);
    dir.note_record(0, Pass::Opaque, FULL, unit(), expand);
    let (parts, _) = dir.partitions();
    assert_eq!(
        parts[camera_part(Group::Opaque as usize, 0, 0, 1)].capacity,
        1
    );
    assert_eq!(
        parts[camera_part(Group::OpaqueLod as usize, 0, 0, 1)].capacity,
        0
    );
    dir.note_free(0, g1(), &mut cell());
    let (parts, total) = dir.partitions();
    assert!(parts.iter().all(|p| p.capacity == 0));
    assert_eq!(total, 0);
    // A non-resident slot is ignored.
    dir.note_record(7, Pass::Opaque, LOD, unit(), expand);
    assert_eq!(dir.partitions().1, 0);
}

#[test]
fn group_lane_maps_camera_passes_and_excludes_blend() {
    assert_eq!(group_lane(Pass::Opaque, FULL), Some(0));
    assert_eq!(group_lane(Pass::Opaque, LOD), Some(2));
    assert_eq!(group_lane(Pass::Cutout, FULL), Some(1));
    assert_eq!(group_lane(Pass::Cutout, LOD), Some(1));
    assert_eq!(group_lane(Pass::Blend, FULL), None);
    assert_eq!(group_lane(Pass::Blend, LOD), None);
}

#[test]
fn camera_buckets_are_k_wide_shadows_are_unbucketed() {
    let mut dir = ArenaDirectory::new();
    dir.note_upload(0, g1(), 1, Pass::Opaque, FULL, unit(), expand, &mut cell());
    let (parts, _) = dir.partitions();
    assert_eq!(
        GROUPS, 5,
        "Opaque, Cutout, OpaqueLod, ShadowNear, ShadowFar"
    );
    assert_eq!(parts.len(), CAMERA_GROUPS * BUCKETS + SHADOW_GROUPS);
    // Adjacent camera buckets of the same arena share capacity but not offset.
    let b0 = parts[camera_part(0, 0, 0, 1)];
    let b1 = parts[camera_part(0, 0, 1, 1)];
    assert_eq!(b0.capacity, b1.capacity);
    assert_eq!(b1.offset, b0.offset + b0.capacity);
    // Shadow groups occupy one partition per arena, not K.
    assert_eq!(
        shadow_part(1, 0, 1) - shadow_part(0, 0, 1),
        1,
        "cascades are adjacent unbucketed partitions"
    );
}

fn partitions_at(dir: &mut ArenaDirectory, eye: Eye) -> (Vec<PartitionGpu>, u32) {
    let mut parts = Vec::new();
    let table = dir.reachable_buckets(expand, |b: ArenaBox, k: usize| reaches(b, k, eye));
    let total = dir.partitions_into(&mut parts, 1, Some(&table));
    (parts, total)
}

fn opaque_caps(parts: &[PartitionGpu], arena: usize, n: usize) -> [u32; BUCKETS] {
    std::array::from_fn(|b| parts[camera_part(Group::Opaque as usize, arena, b, n)].capacity)
}

#[test]
fn near_mesh_zeros_every_camera_bucket_but_zero_shadows_untouched() {
    let mut dir = ArenaDirectory::new();
    dir.note_upload(0, g1(), 1, Pass::Opaque, FULL, unit(), expand, &mut cell());
    let (parts, total) = partitions_at(&mut dir, origin_eye());
    assert_eq!(opaque_caps(&parts, 0, 1), [1, 0, 0, 0]);
    assert_eq!(parts[shadow_part(0, 0, 1)].capacity, 1);
    assert_eq!(parts[shadow_part(1, 0, 1)].capacity, 1);
    // One camera slot + two unbucketed shadow slots.
    assert_eq!(total, 3);
    assert_eq!(group_indirect_calls(&parts, Group::Opaque, 1), 1);
    assert_eq!(group_indirect_calls(&parts, Group::Cutout, 1), 0);
    assert_eq!(group_indirect_calls(&parts, Group::OpaqueLod, 1), 0);
}

#[test]
fn group_indirect_calls_counts_nonzero_capacity_partitions() {
    let mut dir = ArenaDirectory::new();
    dir.note_upload(0, g1(), 1, Pass::Opaque, FULL, unit(), expand, &mut cell());
    dir.note_upload(1, g1(), 2, Pass::Opaque, LOD, unit(), expand, &mut cell());
    let (parts, _) = partitions_at(&mut dir, origin_eye());
    // Two arenas: near full-res + near LOD. Each keeps bucket 0 only.
    assert_eq!(dir.arena_count(), 2);
    assert_eq!(group_indirect_calls(&parts, Group::Opaque, 2), 1);
    assert_eq!(group_indirect_calls(&parts, Group::OpaqueLod, 2), 1);
    assert_eq!(group_indirect_calls(&parts, Group::Cutout, 2), 0);
    // Empty table / zero arenas.
    assert_eq!(group_indirect_calls(&[], Group::Opaque, 0), 0);
}

#[test]
fn far_mesh_zeros_every_camera_bucket_but_the_last_shadows_untouched() {
    let far = MeshAabb {
        block: [0, 0, 300],
        min: bits([0.0; 3]),
        max: bits([1.0; 3]),
    };
    let mut dir = ArenaDirectory::new();
    dir.note_upload(0, g1(), 1, Pass::Opaque, FULL, far, expand, &mut cell());
    let (parts, total) = partitions_at(&mut dir, origin_eye());
    assert_eq!(opaque_caps(&parts, 0, 1), [0, 0, 0, 1]);
    assert_eq!(parts[shadow_part(0, 0, 1)].capacity, 1);
    assert_eq!(parts[shadow_part(1, 0, 1)].capacity, 1);
    assert_eq!(total, 3);
}

#[test]
fn spanning_union_keeps_every_bucket_the_box_can_reach() {
    // A long box along Z from the eye to past split 0 (16), not to split 1 (64).
    let span = MeshAabb {
        block: [0; 3],
        min: bits([0.0, 0.0, 0.0]),
        max: bits([1.0, 1.0, 20.0]),
    };
    let mut dir = ArenaDirectory::new();
    dir.note_upload(0, g1(), 1, Pass::Opaque, FULL, span, expand, &mut cell());
    let (parts, _) = partitions_at(&mut dir, origin_eye());
    assert_eq!(opaque_caps(&parts, 0, 1), [1, 1, 0, 0]);
    assert_eq!(parts[shadow_part(0, 0, 1)].capacity, 1);
}

#[test]
fn free_dirties_the_union_so_a_far_companion_stops_keeping_far_buckets() {
    let far = MeshAabb {
        block: [0, 0, 300],
        min: bits([0.0; 3]),
        max: bits([1.0; 3]),
    };
    let mut dir = ArenaDirectory::new();
    dir.note_upload(0, g1(), 1, Pass::Opaque, FULL, unit(), expand, &mut cell());
    dir.note_upload(1, g1(), 1, Pass::Opaque, FULL, far, expand, &mut cell());
    let (parts, _) = partitions_at(&mut dir, origin_eye());
    // Union of near+far covers every bucket.
    assert_eq!(opaque_caps(&parts, 0, 1), [2, 2, 2, 2]);
    dir.note_free(1, g1(), &mut cell());
    let (parts, total) = partitions_at(&mut dir, origin_eye());
    assert_eq!(opaque_caps(&parts, 0, 1), [1, 0, 0, 0]);
    assert_eq!(parts[shadow_part(0, 0, 1)].capacity, 1);
    assert_eq!(total, 3);
}

#[test]
fn upload_after_free_in_the_same_arena_is_not_culled_by_a_stale_union() {
    // A free leaves the union stale; the next table is computed from the
    // arena's members, the new slot among them, not from the stale box.
    let far = MeshAabb {
        block: [0, 0, 300],
        min: bits([0.0; 3]),
        max: bits([1.0; 3]),
    };
    let mut dir = ArenaDirectory::new();
    dir.note_upload(0, g1(), 1, Pass::Opaque, FULL, unit(), expand, &mut cell());
    dir.note_upload(1, g1(), 1, Pass::Opaque, FULL, far, expand, &mut cell());
    dir.note_free(1, g1(), &mut cell());
    dir.note_upload(2, g1(), 1, Pass::Opaque, FULL, far, expand, &mut cell());
    let (parts, _) = partitions_at(&mut dir, origin_eye());
    // Two live meshes; missing the new slot would zero far buckets.
    assert_eq!(opaque_caps(&parts, 0, 1), [2, 2, 2, 2]);
}

#[test]
fn each_arena_zeros_buckets_from_its_own_union() {
    let far = MeshAabb {
        block: [0, 0, 300],
        min: bits([0.0; 3]),
        max: bits([1.0; 3]),
    };
    let mut dir = ArenaDirectory::new();
    dir.note_upload(0, g1(), 1, Pass::Opaque, FULL, unit(), expand, &mut cell());
    dir.note_upload(1, g1(), 2, Pass::Opaque, FULL, far, expand, &mut cell());
    let (parts, _) = partitions_at(&mut dir, origin_eye());
    assert_eq!(opaque_caps(&parts, 0, 2), [1, 0, 0, 0]);
    assert_eq!(
        [
            parts[camera_part(0, 1, 0, 2)].capacity,
            parts[camera_part(0, 1, 1, 2)].capacity,
            parts[camera_part(0, 1, 2, 2)].capacity,
            parts[camera_part(0, 1, 3, 2)].capacity,
        ],
        [0, 0, 0, 1]
    );
    assert_eq!(parts[shadow_part(0, 0, 2)].capacity, 1);
    assert_eq!(parts[shadow_part(0, 1, 2)].capacity, 1);
}

#[test]
fn camera_live_sums_camera_lanes_and_excludes_blend() {
    let mut dir = ArenaDirectory::new();
    assert_eq!(dir.camera_live(), 0);
    dir.note_upload(0, g1(), 1, Pass::Opaque, FULL, unit(), expand, &mut cell());
    dir.note_upload(1, g1(), 1, Pass::Cutout, FULL, unit(), expand, &mut cell());
    dir.note_upload(2, g1(), 1, Pass::Opaque, LOD, unit(), expand, &mut cell());
    dir.note_upload(3, g1(), 1, Pass::Blend, FULL, unit(), expand, &mut cell());
    assert_eq!(dir.camera_live(), 3);
    dir.note_free(0, g1(), &mut cell());
    assert_eq!(dir.camera_live(), 2);
}

#[test]
fn a_slot_registered_twice_counts_once() {
    let mut stats = cell();
    let mut dir = ArenaDirectory::new();
    dir.note_upload(0, g1(), 1, Pass::Opaque, FULL, unit(), expand, &mut stats);
    dir.note_upload(0, genr(2), 1, Pass::Opaque, FULL, unit(), expand, &mut stats);
    assert_eq!(dir.camera_live(), 1);
    assert_eq!((dir.refs[0], dir.live[0]), (1, [1, 0, 0]));
    assert_eq!(dir.members[0], vec![0]);
    dir.note_free(0, genr(2), &mut stats);
    assert_eq!(dir.camera_live(), 0);
    assert_eq!((dir.occupied_arenas(), stats.load().arenas), (0, 0));
}

#[test]
fn a_slot_that_moves_to_another_buffer_leaves_its_row() {
    let mut stats = cell();
    let mut dir = ArenaDirectory::new();
    let a = dir.note_upload(0, g1(), 1, Pass::Opaque, FULL, unit(), expand, &mut stats);
    let b = dir.note_upload(0, genr(2), 2, Pass::Cutout, FULL, unit(), expand, &mut stats);
    // The row of the first buffer drained and is taken again.
    assert_eq!((a, b), (0, 0));
    assert_eq!((dir.arena_count(), dir.arena_buffer(0)), (1, 2));
    assert_eq!((dir.live[0], dir.camera_live()), ([0, 1, 0], 1));
    dir.note_upload(1, g1(), 3, Pass::Opaque, FULL, unit(), expand, &mut stats);
    let c = dir.note_upload(1, genr(2), 2, Pass::Blend, FULL, unit(), expand, &mut stats);
    assert_eq!((c, dir.refs[0], dir.refs[1]), (0, 2, 0));
    assert_eq!((dir.camera_live(), dir.blend_slots().len()), (1, 1));
    assert_eq!(stats.load().arenas, 1);
}

#[test]
fn one_cell_shows_handles_and_arenas() {
    let mut stats = MeshStatsShared::new(64);
    let mut table: HandleAllocator<MeshHandle, u32> = HandleAllocator::new();
    let mut dir = ArenaDirectory::new();
    table.attach_stats(&mut stats);
    dir.attach_stats(&mut stats);
    let h = table.alloc_slot(7, &mut stats);
    dir.note_upload(0, g1(), 1, Pass::Opaque, FULL, unit(), expand, &mut stats);
    let seen = stats.load();
    assert_eq!((seen.live_slots, seen.slot_high_water, seen.arenas), (1, 1, 1));
    assert!(table.free_slot(h, &mut stats));
    assert_eq!((stats.load().live_slots, stats.load().arenas), (0, 1));
    dir.note_free(0, g1(), &mut stats);
    let seen = stats.load();
    assert_eq!((seen.slot_high_water, seen.arenas, seen.cpu_cull_max), (0, 0, 64));
}

#[test]
fn slots_below_a_new_one_start_as_zero_boxes() {
    let mut dir = ArenaDirectory::new();
    dir.note_upload(2, g1(), 1, Pass::Opaque, FULL, unit(), expand, &mut cell());
    let zero = MeshAabb { block: [0; 3], min: [0; 3], max: [0; 3] };
    assert_eq!(dir.aabbs, vec![zero, zero, unit()]);
    assert_eq!(dir.cull_face_quads[0], [0; 3]);
    assert_eq!(dir.cull_bits[..2], [0, 0]);
}

#[test]
fn the_union_of_a_row_covers_its_meshes() {
    let far = MeshAabb { block: [100, 0, 0], ..unit() };
    let mut dir = ArenaDirectory::new();
    dir.note_upload(0, g1(), 1, Pass::Opaque, FULL, unit(), expand, &mut cell());
    dir.note_upload(1, g1(), 1, Pass::Cutout, FULL, far, expand, &mut cell());
    let bounds = dir.unions[0].bounds;
    for m in [unit(), far] {
        assert_eq!(expand(bounds, m), bounds);
    }
    // A bucket is kept as soon as the box around the row reaches it.
    let table = dir.reachable_buckets(expand, |b: ArenaBox, k: usize| {
        k == 2 && floats(b.max)[0] > 100.0
    });
    assert_eq!(table, vec![false, false, true, false]);
}
