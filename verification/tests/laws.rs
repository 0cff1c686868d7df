use voxel_engine::allocator::{Allocation, FreshBlock, GpuAllocator, Pool, PoolStep};
use voxel_engine::arena::{
    cull_bits_arena, cull_bits_face, cull_bits_lod, cull_bits_pass, pack_cull_bits,
    ArenaDirectory, MeshAabb, CULL_FACE_BIT,
};
use voxel_engine::bytes::words_to_bytes;
use voxel_engine::commands::{
    div_ceil, Cmd, Extent, ImageBarrier, LAYOUT_GENERAL, LAYOUT_SHADER_READ_ONLY, LAYOUT_UNDEFINED,
};
use voxel_engine::compute::{device_local_type, is_direct, ring_memory_type, ComputeDesc};
use voxel_engine::cull::{CullBuffers, CullState};
use voxel_engine::depth::SAMPLEABLE_DEPTH_REST_LAYOUT;
use voxel_engine::descriptors::cull_set_layout;
use voxel_engine::draw_prep::{prepare_blend_draws, Placed};
use voxel_engine::exposure::tile_means_memory_type;
use voxel_engine::frame_loop::{ensure_prev_depth_dummy, pipe_gauges, FrameLoop};
use voxel_engine::gpu_timer::{
    load_query, pipe_stat_query, GpuPass, PipeStatPass, PipeStats, COPY_STAMP_BASE, GPU_STAMPS,
    LOAD_STAMP_BASE, PIPE_QUERY_COUNT, QUERY_COUNT,
};
use voxel_engine::handles::{bump_generation, DrawDyn, MeshStatsShared};
use voxel_engine::hiz::{HizChain, HizState};
use voxel_engine::image::ImageResource;
use voxel_engine::image_upload::upload_memory_types;
use voxel_engine::memory::{
    find_memory_type, heap_size, types_with, MemoryProps, MemoryType, HOST_COHERENT,
    MEMORY_DEVICE_LOCAL, MEMORY_HOST_CACHED, MEMORY_HOST_VISIBLE,
};
use voxel_engine::mesh::{Generation, Pass};
use voxel_engine::mesh_residency::{GpuResident, MeshResidency};
use voxel_engine::numbers::next_power_of_two;
use voxel_engine::pyramid::MipTarget;
use voxel_engine::rev::FRAMES_IN_FLIGHT;
use voxel_engine::staging::{Stamp, StagingRing};

fn props() -> MemoryProps {
    MemoryProps {
        types: vec![
            MemoryType { flags: MEMORY_DEVICE_LOCAL, heap: 0 },
            MemoryType { flags: HOST_COHERENT, heap: 1 },
        ],
        heaps: vec![1 << 30, 1 << 20],
    }
}

/// Takes `size` staging bytes, from a new block named `name` where none has room.
fn staging(a: &mut GpuAllocator, size: u64, name: u64) -> Allocation {
    match a.alloc_staging(size, 4) {
        PoolStep::Ready(x) => x,
        PoolStep::NeedBlock { buffer_size } => a.install(
            Pool::Staging,
            FreshBlock {
                buffer: name,
                memory: name + 100,
                memory_size: buffer_size,
                mapped: Some(name + 200),
                buffer_size,
            },
            size,
            4,
        ),
    }
}

fn image_barriers(cmds: &[Cmd]) -> Vec<ImageBarrier> {
    cmds.iter()
        .filter_map(|c| match c {
            Cmd::ImageBarrier(b) => Some(*b),
            _ => None,
        })
        .collect()
}

#[test]
fn cull_bits_are_read_back() {
    for (pass, number) in [(Pass::Opaque, 0), (Pass::Cutout, 1), (Pass::Blend, 2)] {
        for lod in [false, true] {
            for word in [1u32, 77, 0x000F_FFFF] {
                let bits = pack_cull_bits(word, pass, lod);
                assert_eq!(cull_bits_arena(bits), word);
                assert_eq!(cull_bits_pass(bits), number);
                assert_eq!(cull_bits_lod(bits), lod);
                assert!(!cull_bits_face(bits));
                let face = bits | CULL_FACE_BIT;
                assert!(cull_bits_face(face));
                assert_eq!(cull_bits_arena(face), word);
                assert_eq!(cull_bits_pass(face), number);
                assert_eq!(cull_bits_lod(face), lod);
            }
        }
    }
}

#[test]
fn words_are_their_bytes_in_memory() {
    let bytes = words_to_bytes(&[0x0403_0201, 0xFFFF_0000]);
    assert_eq!(bytes.len(), 8);
    assert_eq!(bytes[..4], 0x0403_0201u32.to_ne_bytes());
    assert_eq!(bytes[4..], 0xFFFF_0000u32.to_ne_bytes());
    assert!(words_to_bytes(&[]).is_empty());
}

#[test]
fn a_block_in_use_is_not_released() {
    let mut a = GpuAllocator::new(props());
    let first = staging(&mut a, 0x400_0000, 1);
    let second = staging(&mut a, 0x400_0000, 2);
    let third = staging(&mut a, 0x400_0000, 3);
    assert_ne!(first.block, second.block);
    a.free(first);
    a.free(third);
    // One empty block stays warm, the one in use stays, the other goes.
    let gone = a.shrink_staging();
    assert_eq!(gone.len(), 1);
    assert_eq!((gone[0].buffer, gone[0].memory), (3, 103));
    assert!(a.shrink_staging().is_empty());
    let stats = a.stats();
    assert_eq!((stats.staging_blocks, stats.staging_used), (2, 0x400_0000));
    a.free(second);
    assert_eq!(a.shrink_staging().len(), 1);
}

#[test]
fn an_allocation_outlives_other_requests() {
    let mut a = GpuAllocator::new(props());
    let kept = staging(&mut a, 256, 1);
    let mut others = Vec::new();
    for i in 0..8u64 {
        let other = staging(&mut a, 100 + i, 2 + i);
        let apart = other.block != kept.block
            || other.offset >= kept.offset + kept.size
            || other.offset + other.size <= kept.offset;
        assert!(apart);
        others.push(other);
    }
    for other in others {
        a.free(other);
    }
    assert_eq!(a.stats().staging_used, 256);
    a.free(kept);
    assert_eq!(a.stats().staging_used, 0);
}

#[test]
fn memory_types_are_listed_in_order() {
    let p = props();
    assert_eq!(types_with(&p, MEMORY_HOST_VISIBLE), vec![1]);
    assert_eq!(types_with(&p, 0), vec![0, 1]);
    assert_eq!(find_memory_type(&p, 0b11, MEMORY_DEVICE_LOCAL), 0);
    assert_eq!(find_memory_type(&p, 0b11, HOST_COHERENT), 1);
    assert_eq!(heap_size(&p, 1), 1 << 20);
}

#[test]
fn a_loan_ends_when_its_stamp_is_reached() {
    let mut ring = StagingRing::new(64, 16);
    let render = ring.acquire(16).expect("room");
    let copy = ring.acquire(16).expect("room");
    let open = ring.acquire(32).expect("room");
    assert!(ring.acquire(16).is_none());
    ring.stamp(render, Stamp::Render(5));
    ring.stamp(copy, Stamp::Transfer(7));
    ring.reclaim(4, Some(6));
    assert!(ring.acquire(16).is_none());
    ring.reclaim(5, None);
    assert_eq!(ring.acquire(16), Some(render));
    ring.reclaim(5, Some(7));
    assert_eq!(ring.acquire(16), Some(copy));
    ring.release(open);
    assert_eq!(ring.acquire(32), Some(open));
}

#[test]
fn a_filled_pyramid_is_built_again_from_where_it_rests() {
    let mut chain = HizChain {
        image: 9,
        mips: vec![
            MipTarget { view: 1, extent: Extent { width: 64, height: 32 } },
            MipTarget { view: 2, extent: Extent { width: 32, height: 16 } },
            MipTarget { view: 3, extent: Extent { width: 16, height: 8 } },
        ],
        ready: false,
    };
    let state = HizState { depth: 4, mip: 5, layout: 6, depth_sampler: 7 };
    assert_eq!(chain.hiz_to_general_barrier().old_layout, LAYOUT_UNDEFINED);
    let mut clear = Vec::new();
    chain.record_hiz_clear(&mut clear);
    let cleared = image_barriers(&clear);
    assert_eq!(cleared.len(), 2);
    assert!(clear.iter().any(|c| matches!(c, Cmd::ClearColor { image: 9, .. })));
    let enter = chain.hiz_to_general_barrier();
    assert_eq!(enter.old_layout, cleared[1].new_layout);
    assert_eq!(enter.src, cleared[1].dst);
    let mut build = Vec::new();
    chain.record_hiz_generate(&mut build, state, 11, Extent { width: 128, height: 64 });
    let rest = image_barriers(&build).pop().expect("laid to rest");
    assert_eq!((rest.old_layout, rest.new_layout), (LAYOUT_GENERAL, LAYOUT_SHADER_READ_ONLY));
    assert_eq!(rest.old_layout, enter.new_layout);
    assert_eq!(chain.hiz_to_general_barrier(), enter);
    let dispatches: Vec<(u32, u32)> = build
        .iter()
        .filter_map(|c| match c {
            Cmd::Dispatch { x, y, .. } => Some((*x, *y)),
            _ => None,
        })
        .collect();
    assert_eq!(dispatches, vec![(8, 4), (4, 2), (2, 1)]);
}

#[test]
fn cull_bindings_fill_their_layout() {
    let state = CullState::new(1, 2, None);
    let b = CullBuffers {
        records: 10,
        arenas: 11,
        parts: 12,
        commands: 13,
        counts: 14,
        params: 15,
        visible: 16,
        stats: 17,
        stats_host: 18,
    };
    let bound: Vec<u32> = state
        .record(b, 64, 64, false, false)
        .iter()
        .filter_map(|c| match c {
            Cmd::Bind { binding, .. } => Some(*binding),
            _ => None,
        })
        .collect();
    let layout: Vec<u32> = cull_set_layout().iter().map(|l| l.binding).collect();
    assert_eq!(bound, layout);
}

#[test]
fn queries_are_never_shared() {
    let mut used: Vec<u32> = (0..(FRAMES_IN_FLIGHT * GPU_STAMPS) as u32).collect();
    used.push(COPY_STAMP_BASE);
    used.push(COPY_STAMP_BASE + 1);
    for slot in 0..FRAMES_IN_FLIGHT {
        used.push(load_query(slot, 0));
        used.push(load_query(slot, 1));
    }
    assert_eq!(load_query(0, 0), LOAD_STAMP_BASE);
    let all: Vec<u32> = (0..QUERY_COUNT).collect();
    assert_eq!(used, all);
    let mut pipe = Vec::new();
    for slot in 0..FRAMES_IN_FLIGHT {
        for pass in [
            PipeStatPass::OpaqueFull,
            PipeStatPass::OpaqueLod,
            PipeStatPass::Cutout,
            PipeStatPass::Sky,
            PipeStatPass::Transparent,
        ] {
            pipe.push(pipe_stat_query(slot, pass));
        }
    }
    let every: Vec<u32> = (0..PIPE_QUERY_COUNT).collect();
    assert_eq!(pipe, every);
}

#[test]
fn every_pass_has_its_own_meter() {
    let all = GpuPass::all();
    for (i, a) in all.iter().enumerate() {
        for b in &all[i + 1..] {
            assert_ne!(a.meter(), b.meter());
        }
    }
}

#[test]
fn generations_wrap_past_zero() {
    let last = Generation::new(u32::MAX).expect("not zero");
    assert_eq!(bump_generation(last).get(), 1);
    let first = Generation::new(1).expect("not zero");
    assert_eq!(bump_generation(first).get(), 2);
    assert!(Generation::new(0).is_none());
}

#[test]
fn workgroups_cover_with_none_to_spare() {
    for (n, d) in [(0u32, 8u32), (1, 8), (8, 8), (9, 8), (u32::MAX, 2), (u32::MAX, 1)] {
        let g = div_ceil(n, d);
        assert!(g as u64 * d as u64 >= n as u64);
        assert!(g == 0 || (g as u64 - 1) * (d as u64) < n as u64);
    }
}

#[test]
fn the_power_above_is_the_least() {
    for n in [1u64, 2, 3, 64, 65, 0x4000_0000_0000_0001] {
        let p = next_power_of_two(n);
        assert_eq!(p, n.next_power_of_two());
        assert!(p >= n && p / 2 < n);
    }
}

#[test]
fn the_hash_example_describes_its_kind() {
    let d = ComputeDesc::example(&[3, 2, 35, 7]).owned();
    assert_eq!(d.spirv, vec![3, 2, 35, 7]);
    assert_eq!(d.entry, "main");
    assert_eq!((d.push_bytes, d.inputs, d.output_bytes_max), (8, 1, 16384));
    assert_eq!(d.workgroup, [64, 1, 1]);
}

#[test]
fn readback_memory_is_direct_where_the_device_offers_it() {
    let cached = HOST_COHERENT | MEMORY_HOST_CACHED;
    let mut p = props();
    p.types.push(MemoryType { flags: cached, heap: 1 });
    assert_eq!(ring_memory_type(&p, 0b111, true, Some(1)), Some(1));
    assert_eq!(tile_means_memory_type(&p, 0b111), 2);
    assert_eq!(tile_means_memory_type(&p, 0b011), 1);
    assert_eq!(upload_memory_types(&p, 0b111, 0b110), (0, 1));
    p.types.push(MemoryType { flags: cached | MEMORY_DEVICE_LOCAL, heap: 0 });
    assert_eq!(ring_memory_type(&p, 0b1111, true, Some(1)), Some(3));
    assert_eq!(ring_memory_type(&p, 0b1111, false, Some(1)), Some(1));
    assert_eq!(ring_memory_type(&p, 0b0111, true, None), None);
    assert!(is_direct(p.types[3].flags) && !is_direct(p.types[2].flags));
    // Scratch memory stays out of the host's sight where it can.
    assert_eq!(device_local_type(&p, 0b1111), Some(0));
    assert_eq!(device_local_type(&p, 0b1110), Some(3));
    assert_eq!(device_local_type(&p, 0b0110), None);
    let a = GpuAllocator::new(p);
    assert_eq!(a.block_memory(Pool::Device, 0b0001, None, 64), Some((0, false)));
    assert_eq!(a.block_memory(Pool::Staging, 0b0010, None, 64), Some((1, true)));
    assert_eq!(a.block_memory(Pool::Staging, 0, None, 64), None);
}

#[test]
fn blended_meshes_wait_for_their_bytes() {
    let mut cell = MeshStatsShared::new(1024);
    let aabb = MeshAabb { block: [0; 3], min: [0; 3], max: [0; 3] };
    let generation = Generation::first();
    let mut dir = ArenaDirectory::new();
    let mut res = MeshResidency::new();
    for (slot, arrived) in [(0u32, Some(1u64)), (1, Some(1)), (2, None), (3, Some(1))] {
        dir.note_upload(slot, generation, 40, Pass::Blend, false, aabb, |b, _| b, &mut cell);
        res.apply_upload(
            slot,
            generation,
            GpuResident {
                buffer: 40,
                arena: Allocation {
                    buffer: 40,
                    offset: 0,
                    size: 1,
                    mapped: None,
                    block: 0,
                    pool: Pool::Device,
                },
                copy: None,
                arrived_at: arrived,
            },
        );
    }
    // Slot 3 is hidden, slot 2 has not arrived, and slot 1 is the farther one.
    let place = |slot: u32| {
        Some(Placed { count: 6, vertex_offset: 0, dist2: (slot as f32 + 1.0).to_bits() })
    };
    let d = prepare_blend_draws(&dir, &res, &[0b0111], true, &place);
    assert_eq!(d.order.iter().map(|e| e.slot).collect::<Vec<u32>>(), vec![1, 0]);
    assert_eq!(d.commands.len(), 2);
    assert_eq!((d.commands[0].index_count, d.commands[0].first_instance), (6, 1));
    assert_eq!(d.runs.len(), 1);
    assert_eq!((d.runs[0].buffer, d.runs[0].count), (40, 2));
    assert!(prepare_blend_draws(&dir, &res, &[0b0111], false, &place).order.is_empty());
    let nowhere = |_: u32| None;
    assert!(prepare_blend_draws(&dir, &res, &[0b0111], true, &nowhere).order.is_empty());
}

#[test]
fn the_stand_in_depth_is_moved_once() {
    let mut dummy = ImageResource {
        image: 3,
        memory: 4,
        view: 5,
        layout: LAYOUT_UNDEFINED,
        subresource: HizChain {
            image: 3,
            mips: vec![MipTarget { view: 5, extent: Extent { width: 1, height: 1 } }],
            ready: false,
        }
        .all_mips(),
    };
    let mut cmds = Vec::new();
    ensure_prev_depth_dummy(&mut dummy, &mut cmds);
    let b = image_barriers(&cmds);
    assert_eq!(b.len(), 1);
    assert_eq!((b[0].image, b[0].new_layout), (3, SAMPLEABLE_DEPTH_REST_LAYOUT));
    let before = cmds.len();
    ensure_prev_depth_dummy(&mut dummy, &mut cmds);
    assert_eq!(cmds.len(), before);
}

#[test]
fn a_forgotten_copy_is_not_waited_for() {
    let extent = Extent { width: 8, height: 8 };
    let mut l = FrameLoop::new(extent, extent);
    l.track_copy(2);
    l.clear_copy();
    assert!(!l.acquire_slot(2));
}

#[test]
fn gauges_name_the_passes() {
    let g = pipe_gauges(&PipeStats { frag: [1, 2, 3, 4, 5], prims_full: 6 });
    assert_eq!((g.frag_full, g.frag_lod, g.frag_cutout), (1, 2, 3));
    assert_eq!((g.frag_sky, g.frag_blend, g.prims_full), (4, 5, 6));
    let mut stats = MeshStatsShared::new(7);
    stats.store_bytes(100, 60);
    let seen = stats.load();
    assert_eq!((seen.arena_bytes, seen.arena_bytes_used, seen.cpu_cull_max), (100, 60, 7));
    let rest = DrawDyn::resting();
    assert_eq!((rest.mode, rest.flat_rgba), (0, 0));
}
