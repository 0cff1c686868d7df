use ash::vk;
use voxel_engine::bloom::BLOOM_PUSH_BYTES;
use voxel_engine::commands::{color_range, Access, Cmd, Extent, LAYOUT_DEPTH_ATTACHMENT};
use voxel_engine::depth::{
    depth_pass_layout, sampleable_depth_attachment_state, sampleable_depth_consumed,
    sampleable_depth_rest_barrier, PrevDepthTrack, SAMPLEABLE_DEPTH_REST_LAYOUT, SAMPLES_1,
};
use voxel_engine::exposure::{
    exposure_for_compose, slot_parity, tile_grid, tile_means_size, ExposureCompute, ExposureRing,
    ExposureShared, ExposureState, ExposureWrite, HdrSource, DEFAULT_EXPOSURE,
};
use voxel_engine::gpu_timer::{
    idle_gap_ticks, load_query, pipe_stat_query, pipe_stats_of, GpuLoadShared, GpuPass,
    GpuPipeStats, GpuTimer, PipeStatPass, PipeStatRow, GPU_PASSES, GPU_STAMPS, PIPE_QUERY_COUNT,
    PIPE_STAT_FLAGS, PIPE_STAT_PASSES, QUERY_COUNT,
};
use voxel_engine::hiz::{HizChain, HizState};
use voxel_engine::image::{
    create_image_array, image_purpose, render_target_oom_message, sample_count, AllocError,
    ImageDesc, ImageResource, LayoutUse, SAMPLES_8, VIEW_2D, VIEW_2D_ARRAY,
};
use voxel_engine::pyramid::MipTarget;
use voxel_engine::rev::{FrameSlot, FRAMES_IN_FLIGHT};

const DEPTH_SLOTS: usize = FRAMES_IN_FLIGHT;

fn extent(w: u32, h: u32) -> Extent {
    Extent { width: w, height: h }
}

fn stage(s: vk::PipelineStageFlags2) -> u64 {
    s.as_raw()
}

fn pair(s: vk::PipelineStageFlags2, a: vk::AccessFlags2) -> Access {
    Access { stage: s.as_raw(), access: a.as_raw() }
}

#[test]
fn sampled_depth_resolve_uses_color_output_sync_scope() {
    let scene_layout = vk::ImageLayout::DEPTH_ATTACHMENT_OPTIMAL.as_raw();
    let s = sampleable_depth_attachment_state(
        vk::SampleCountFlags::TYPE_8.as_raw(),
        scene_layout,
    );
    assert_eq!(s.layout, vk::ImageLayout::DEPTH_ATTACHMENT_OPTIMAL.as_raw());
    assert_eq!(s.written.stage, vk::PipelineStageFlags2::COLOR_ATTACHMENT_OUTPUT.as_raw());
    assert_eq!(s.written.access, vk::AccessFlags2::COLOR_ATTACHMENT_WRITE.as_raw());

    let s = sampleable_depth_attachment_state(
        vk::SampleCountFlags::TYPE_1.as_raw(),
        scene_layout,
    );
    assert_eq!(s.layout, scene_layout);
    let early = stage(vk::PipelineStageFlags2::EARLY_FRAGMENT_TESTS);
    let late = stage(vk::PipelineStageFlags2::LATE_FRAGMENT_TESTS);
    let write = vk::AccessFlags2::DEPTH_STENCIL_ATTACHMENT_WRITE.as_raw();
    assert!(s.written.stage & early == early);
    assert!(s.written.stage & late == late);
    assert!(s.written.access & write == write);
}

#[test]
fn sampleable_depth_rests_in_shader_read_only() {
    assert_eq!(
        SAMPLEABLE_DEPTH_REST_LAYOUT,
        vk::ImageLayout::SHADER_READ_ONLY_OPTIMAL.as_raw()
    );
    let b = sampleable_depth_rest_barrier(SAMPLES_1, 9);
    assert_eq!(b.image, 9);
    assert_eq!(b.old_layout, depth_pass_layout());
    assert_eq!(b.new_layout, SAMPLEABLE_DEPTH_REST_LAYOUT);
}

#[test]
fn sampleable_depth_consumed_gates_on_actual_consumers() {
    // Nothing samples: TAA off, no spill, no VRS, no absorb — even if presenting.
    assert!(!sampleable_depth_consumed(false, false, false, false, false));
    assert!(!sampleable_depth_consumed(true, false, false, false, false));
    // VRS classify samples in the same submit, presented or not.
    assert!(sampleable_depth_consumed(false, false, false, true, false));
    assert!(sampleable_depth_consumed(true, false, false, true, false));
    // Fused TAA tonemap samples only on presented frames.
    assert!(sampleable_depth_consumed(true, true, false, false, false));
    assert!(!sampleable_depth_consumed(false, true, false, false, false));
    // Spill/godrays sample only on presented frames.
    assert!(sampleable_depth_consumed(true, false, true, false, false));
    assert!(!sampleable_depth_consumed(false, false, true, false, false));
    // Absorb Blend stores for the next frame, presented or not.
    assert!(sampleable_depth_consumed(false, false, false, false, true));
    assert!(sampleable_depth_consumed(true, false, false, false, true));
}

#[test]
fn prev_depth_invalid_on_first_frame() {
    let t = PrevDepthTrack::new();
    for slot in 0..DEPTH_SLOTS {
        assert!(!t.valid(slot, extent(1920, 1080)), "slot {slot}");
    }
}

#[test]
fn prev_depth_valid_after_previous_slot_stores_same_extent() {
    let mut t = PrevDepthTrack::new();
    let e = extent(1920, 1080);
    t.finish(0, true, e);
    assert!(t.valid(1, e));
    assert!(!t.valid(2, e), "slot 2's previous is slot 1, not yet stored");
    t.finish(1, true, e);
    assert!(t.valid(2, e));
    t.finish(2, true, e);
    assert!(t.valid(0, e), "ring wrap: slot 0 samples slot 2");
}

#[test]
fn prev_depth_invalid_when_previous_slot_did_not_store() {
    let mut t = PrevDepthTrack::new();
    let e = extent(1920, 1080);
    t.finish(0, false, e);
    assert!(!t.valid(1, e));
    t.finish(0, true, e);
    t.finish(1, false, e);
    assert!(!t.valid(2, e));
    assert!(t.valid(1, e), "slot 0 still stored");
}

#[test]
fn prev_depth_invalid_when_render_extent_changed() {
    let mut t = PrevDepthTrack::new();
    t.finish(0, true, extent(1920, 1080));
    assert!(!t.valid(1, extent(1280, 720)));
    assert!(t.valid(1, extent(1920, 1080)));
}

#[test]
fn prev_depth_invalid_after_recreate() {
    let mut t = PrevDepthTrack::new();
    let e = extent(1920, 1080);
    t.finish(0, true, e);
    t.finish(1, true, e);
    t.mark_sampled(0);
    t.invalidate();
    for slot in 0..DEPTH_SLOTS {
        assert!(!t.valid(slot, e), "slot {slot}");
        assert!(!t.begin_slot(slot), "WAR bit cleared on slot {slot}");
    }
}

#[test]
fn prev_depth_war_bit_set_by_sample_cleared_by_begin() {
    let mut t = PrevDepthTrack::new();
    let e = extent(800, 600);
    t.finish(0, true, e);
    assert!(!t.begin_slot(0), "nothing has sampled slot 0 yet");
    t.mark_sampled(0);
    assert!(t.begin_slot(0));
    assert!(!t.begin_slot(0), "WAR bit is consumed once");
}

#[test]
fn prev_slot_is_the_previous_ring_index() {
    assert_eq!(PrevDepthTrack::prev_slot(0), DEPTH_SLOTS - 1);
    assert_eq!(PrevDepthTrack::prev_slot(1), 0);
    if DEPTH_SLOTS > 2 {
        assert_eq!(PrevDepthTrack::prev_slot(2), 1);
    }
}

/// The slot fence proves the frame that last used the slot; a buffer written more
/// recently may still be in flight.
#[test]
fn readback_reads_only_fence_proven_buffers() {
    let mut last_writer: [Option<usize>; FRAMES_IN_FLIGHT] = [None; FRAMES_IN_FLIGHT];
    for frame in 0..64 {
        let slot = FrameSlot::new(frame % FRAMES_IN_FLIGHT);
        let (write, read) = slot_parity(slot);
        if let Some(writer) = last_writer[read] {
            assert!(
                writer + FRAMES_IN_FLIGHT <= frame,
                "frame {frame} reads a buffer last written by frame {writer}, \
                 which the slot fence does not prove complete"
            );
        }
        last_writer[write] = Some(frame);
    }
}

#[test]
fn exposure_is_one_until_something_is_metered() {
    assert_eq!(f32::from_bits(DEFAULT_EXPOSURE), 1.0);
    let mut shared = ExposureShared::new();
    assert_eq!(exposure_for_compose(true, &shared), DEFAULT_EXPOSURE);
    shared.store(2.5f32.to_bits());
    assert_eq!(exposure_for_compose(true, &shared), 2.5f32.to_bits());
    assert_eq!(exposure_for_compose(false, &shared), DEFAULT_EXPOSURE);
}

#[test]
fn tiles_round_up_and_are_never_none() {
    let g = tile_grid(extent(1920, 1081), 16);
    assert_eq!((g.width, g.height), (120, 68));
    let g = tile_grid(extent(0, 0), 16);
    assert_eq!((g.width, g.height), (1, 1));
    assert_eq!(tile_means_size(10), 40);
}

#[test]
fn exposure_state_publishes_and_restarts_with_the_grid() {
    let mut s = ExposureState::new(extent(64, 32), 16);
    assert_eq!(s.tile_count(), 8);
    s.publish(3.0f32.to_bits());
    assert_eq!(s.current(), 3.0f32.to_bits());
    assert_eq!(s.shared().load(), 3.0f32.to_bits());
    s.recreate(extent(128, 32), 16);
    assert_eq!(s.tile_count(), 16);
    s.reset();
    assert_eq!(s.current(), DEFAULT_EXPOSURE);
}

#[test]
fn exposure_pass_dispatches_eight_by_eight_tiles_a_group() {
    let s = ExposureState::new(extent(160, 32), 16);
    let mut cmds = Vec::new();
    s.record_exposure_pass(
        &mut cmds,
        ExposureCompute { pipeline: 1, layout: 2, sampler: 3 },
        HdrSource { image: 4, view: 5, offscreen: true },
        ExposureWrite { buf: 6 },
    );
    assert!(cmds.iter().any(|c| matches!(c, Cmd::Dispatch { x: 2, y: 1, z: 1 })));
    let ring = ExposureRing { slots: [6, 7, 8], tile_count: 8 };
    let (w, r) = ring.views(FrameSlot::new(1));
    assert_eq!((w.buf, r.buf), (7, 7));
    assert_eq!(ring.slot_of(r), Some(1));
}

#[test]
fn gpu_pass_ordinals_index_all_in_record_order() {
    // `GpuPass as usize` indexes the per-pass readback sink and `all` is the
    // record order; every pass also needs a distinct profile meter.
    let mut meters = Vec::new();
    for (i, pass) in GpuPass::all().into_iter().enumerate() {
        assert_eq!(pass as usize, i, "{pass:?} is out of order");
        meters.push(pass.meter() as usize);
    }
    meters.sort_unstable();
    meters.dedup();
    assert_eq!(meters.len(), GPU_PASSES);
    assert_eq!(GPU_STAMPS, GPU_PASSES + 1);
    assert_eq!(
        QUERY_COUNT as usize,
        GPU_STAMPS * FRAMES_IN_FLIGHT + 2 + 2 * FRAMES_IN_FLIGHT
    );
    // Opaque split: stamped after each camera group, in draw order
    // (full-res, coarse LOD, then cutout). Combined `opaque` is summed
    // at readback and is not a GpuPass.
    assert_eq!(GpuPass::OpaqueFull as usize, GpuPass::Clear as usize + 1);
    assert_eq!(GpuPass::OpaqueLod as usize, GpuPass::OpaqueFull as usize + 1);
    assert_eq!(GpuPass::Cutout as usize, GpuPass::OpaqueLod as usize + 1);
    assert_eq!(GpuPass::Sky as usize, GpuPass::Cutout as usize + 1);
}

#[test]
fn gpu_load_disabled_by_default() {
    let mut shared = GpuLoadShared::new();
    assert!(!shared.is_enabled());
    assert!(shared.load().is_none());
    shared.store(1.5f32.to_bits(), 0.25f32.to_bits());
    assert!(shared.load().is_none(), "store must not publish while disabled");
    shared.set_enabled(true);
    assert!(shared.load().is_none(), "enabling does not invent a sample");
    shared.store(1.5f32.to_bits(), 0.25f32.to_bits());
    let g = shared.load().expect("enabled + stored");
    assert_eq!(f32::from_bits(g.frame_ms), 1.5);
    assert_eq!(f32::from_bits(g.gap_ms), 0.25);
    shared.set_enabled(false);
    assert!(shared.load().is_none());
    shared.set_enabled(true);
    assert!(
        shared.load().is_none(),
        "disable clears ready; re-enable waits for a fresh store"
    );
}

#[test]
fn idle_gap_is_zero_where_submits_overlap() {
    assert_eq!(idle_gap_ticks(10, 10 + 1_000_000), 1_000_000);
    assert_eq!(idle_gap_ticks(0, 1000), 1000);
    assert_eq!(idle_gap_ticks(42, 42), 0);
    assert_eq!(idle_gap_ticks(100, 50), 0);
}

#[test]
fn pipe_stat_query_is_slot_delayed_linear() {
    assert_eq!(pipe_stat_query(0, PipeStatPass::OpaqueFull), 0);
    assert_eq!(pipe_stat_query(0, PipeStatPass::Transparent), 4);
    assert_eq!(pipe_stat_query(1, PipeStatPass::OpaqueFull), PIPE_STAT_PASSES as u32);
    assert_eq!(
        pipe_stat_query(1, PipeStatPass::Sky),
        PIPE_STAT_PASSES as u32 + PipeStatPass::Sky as u32
    );
    assert_eq!(PIPE_QUERY_COUNT as usize, PIPE_STAT_PASSES * FRAMES_IN_FLIGHT);
    // Counter layout inside one query: IA prims, clip prims, frag invocs.
    assert_eq!(std::mem::size_of::<PipeStatRow>(), 3 * 8);
    let flags = vk::QueryPipelineStatisticFlags::INPUT_ASSEMBLY_PRIMITIVES
        | vk::QueryPipelineStatisticFlags::CLIPPING_PRIMITIVES
        | vk::QueryPipelineStatisticFlags::FRAGMENT_SHADER_INVOCATIONS;
    assert_eq!(PIPE_STAT_FLAGS, flags.as_raw());
}

#[test]
fn timer_spans_are_read_back_a_ring_later() {
    let mut t = GpuTimer::new(5, true);
    let mut cmds = Vec::new();
    assert!(t.plan_read(0).is_none());
    t.begin(&mut cmds, 0);
    t.recorded(0);
    t.mark(&mut cmds, 0, GpuPass::Cull);
    t.mark(&mut cmds, 0, GpuPass::Lines);
    t.recorded(0);
    t.mark(&mut cmds, 0, GpuPass::Sky);
    t.finish(0);
    let stamps = cmds.iter().filter(|c| matches!(c, Cmd::WriteTimestamp { pool: 5, .. })).count();
    assert_eq!(stamps, 3);
    let range = t.plan_read(0).unwrap();
    assert_eq!((range.first, range.count), (0, 3));
    let ticks = t.take_read(0, Some(vec![100, 150, 175])).unwrap();
    let spans: Vec<_> = ticks.spans.iter().map(|s| (s.pass, s.ticks)).collect();
    assert_eq!(spans, vec![(GpuPass::Cull, 50), (GpuPass::Sky, 25)]);
    assert!(ticks.gap.is_none());
    t.begin(&mut cmds, 1);
    t.recorded(1);
    t.mark(&mut cmds, 1, GpuPass::Cull);
    t.finish(1);
    assert!(t.plan_read(1).is_some());
    let ticks = t.take_read(1, Some(vec![200, 230])).unwrap();
    assert_eq!(ticks.gap, Some(25));
}

#[test]
fn without_a_pool_nothing_is_timed() {
    let mut t = GpuTimer::new(0, true);
    let mut cmds = Vec::new();
    assert!(!t.enabled());
    t.begin(&mut cmds, 0);
    t.mark(&mut cmds, 0, GpuPass::Cull);
    t.finish(0);
    t.begin_copy(&mut cmds);
    t.end_copy(&mut cmds);
    assert!(cmds.is_empty());
    assert!(t.plan_copy().is_none());
    assert!(t.plan_read(0).is_none());
}

#[test]
fn load_stamps_follow_the_copy_pair() {
    assert_eq!(load_query(0, 0), 59);
    assert_eq!(load_query(2, 1), 64);
    let mut t = GpuTimer::new(5, true);
    let mut cmds = Vec::new();
    t.begin_load(&mut cmds, 1, true);
    t.end_load(&mut cmds, 1);
    let range = t.plan_load(1, true).unwrap();
    assert_eq!((range.first, range.count), (61, 2));
    let l = t.take_load(Some((10, 30))).unwrap();
    assert_eq!((l.frame, l.gap), (20, 0));
    let l = t.take_load(Some((45, 50))).unwrap();
    assert_eq!((l.frame, l.gap), (5, 15));
    assert!(t.plan_load(1, false).is_none());
}

#[test]
fn copy_pair_is_readable_once_it_was_written() {
    let mut t = GpuTimer::new(5, true);
    let mut cmds = Vec::new();
    assert!(t.plan_copy().is_none());
    t.begin_copy(&mut cmds);
    t.end_copy(&mut cmds);
    let r = t.plan_copy().unwrap();
    assert_eq!((r.first, r.count), (57, 2));
}

#[test]
fn pipe_stats_take_fragments_of_every_pass_and_full_primitives() {
    let row = |n: u64| PipeStatRow { ia_prims: n, clip_prims: 10 * n, frag_invocs: 100 * n };
    let s = pipe_stats_of(&[row(1), row(2), row(3), row(4), row(5)]);
    assert_eq!(s.frag, [100, 200, 300, 400, 500]);
    assert_eq!(s.prims_full, 10);
    let mut stats = GpuPipeStats::new(3, false);
    let mut cmds = Vec::new();
    assert!(stats.plan_read(2).is_none());
    stats.prepare(&mut cmds, 2);
    stats.begin_pass(&mut cmds, 2, PipeStatPass::Cutout);
    stats.end_pass(&mut cmds, 2, PipeStatPass::Cutout);
    stats.finish(2);
    assert!(cmds.iter().any(|c| matches!(c, Cmd::BeginQuery { pool: 3, query: 12 })));
    assert!(cmds.iter().any(|c| matches!(c, Cmd::EndQuery { pool: 3, query: 12 })));
    assert_eq!(stats.plan_read(2).map(|r| (r.first, r.count)), Some((10, 5)));
}

fn chain() -> HizChain {
    let mips = vec![
        MipTarget { view: 20, extent: extent(8, 4) },
        MipTarget { view: 21, extent: extent(4, 2) },
        MipTarget { view: 22, extent: extent(2, 1) },
    ];
    HizChain { image: 19, mips, ready: false }
}

#[test]
fn push_layout_is_two_uint2s() {
    let mut c = chain();
    let mut cmds = Vec::new();
    c.record_hiz_generate(
        &mut cmds,
        HizState { depth: 1, mip: 2, layout: 3, depth_sampler: 4 },
        30,
        extent(16, 8),
    );
    let mut words = 0;
    let mut pushes = 0;
    for cmd in &cmds {
        match cmd {
            Cmd::PushWord(_) => words += 1,
            Cmd::PushConstants { .. } => {
                assert_eq!(words * std::mem::size_of::<u32>(), 16);
                words = 0;
                pushes += 1;
            }
            _ => {}
        }
    }
    assert_eq!(pushes, 3);
    let dispatches = cmds.iter().filter(|c| matches!(c, Cmd::Dispatch { .. })).count();
    assert_eq!(dispatches, 3);
    assert!(c.ready);
    assert_eq!(BLOOM_PUSH_BYTES, 32);
}

#[test]
fn unused_color_range_helper_stays_single_mip() {
    // The pyramid uses `HizChain::all_mips`; the shared colour range is
    // still the single-mip helper used by every other colour image.
    let r = color_range(1, 0, 1);
    assert_eq!(r.mips, 1);
    assert_eq!(chain().all_mips().mips, 3);
}

#[test]
fn src_when_used_matches_each_variant_real_prior_use() {
    assert_eq!(
        LayoutUse::TransferDst.src_when_used(),
        pair(
            vk::PipelineStageFlags2::FRAGMENT_SHADER,
            vk::AccessFlags2::SHADER_SAMPLED_READ
        )
    );
    assert_eq!(
        LayoutUse::FragmentSampledAfterTransfer.src_when_used(),
        pair(vk::PipelineStageFlags2::COPY, vk::AccessFlags2::TRANSFER_WRITE)
    );
    assert_eq!(
        LayoutUse::ComputeStorageWrite.src_when_used(),
        pair(
            vk::PipelineStageFlags2::COMPUTE_SHADER | vk::PipelineStageFlags2::FRAGMENT_SHADER,
            vk::AccessFlags2::NONE
        )
    );
    assert_eq!(
        LayoutUse::SampledAfterComputeWrite.src_when_used(),
        pair(
            vk::PipelineStageFlags2::COMPUTE_SHADER,
            vk::AccessFlags2::SHADER_STORAGE_WRITE
        )
    );
    assert_eq!(
        LayoutUse::TransferClear.src_when_used(),
        pair(
            vk::PipelineStageFlags2::FRAGMENT_SHADER,
            vk::AccessFlags2::SHADER_SAMPLED_READ
        )
    );
    assert_eq!(
        LayoutUse::FragmentSampledAfterClear.src_when_used(),
        pair(vk::PipelineStageFlags2::CLEAR, vk::AccessFlags2::TRANSFER_WRITE)
    );
    assert_eq!(
        LayoutUse::ColorAttachmentWrite.src_when_used(),
        pair(
            vk::PipelineStageFlags2::FRAGMENT_SHADER,
            vk::AccessFlags2::SHADER_SAMPLED_READ
        )
    );
    assert_eq!(
        LayoutUse::FragmentSampled.src_when_used(),
        pair(
            vk::PipelineStageFlags2::COLOR_ATTACHMENT_OUTPUT,
            vk::AccessFlags2::COLOR_ATTACHMENT_WRITE
        )
    );
}

/// Ping-pong states stay within covered layout transitions.
#[test]
fn history_dst_layouts_stay_within_the_tracked_states() {
    let mut layouts = [vk::ImageLayout::UNDEFINED.as_raw(); 2];
    let mut read_idx = 0usize;
    for _ in 0..8 {
        let r = read_idx;
        let w = 1 - r;
        assert_eq!(
            LayoutUse::ColorAttachmentWrite.dst().layout,
            vk::ImageLayout::COLOR_ATTACHMENT_OPTIMAL.as_raw()
        );
        layouts[r] = LayoutUse::FragmentSampled.dst().layout;
        layouts[w] = LayoutUse::FragmentSampled.dst().layout;
        read_idx = w;
    }
    assert_eq!(layouts[read_idx], vk::ImageLayout::SHADER_READ_ONLY_OPTIMAL.as_raw());
    assert_eq!(layouts[1 - read_idx], vk::ImageLayout::SHADER_READ_ONLY_OPTIMAL.as_raw());
}

#[test]
fn image_purpose_names_extent_and_msaa() {
    let extent = Extent { width: 6880, height: 2880 };
    assert_eq!(
        image_purpose("HDR colour", extent, vk::SampleCountFlags::TYPE_8.as_raw()),
        "HDR colour 6880x2880 8x MSAA"
    );
    assert_eq!(
        image_purpose("HDR colour", extent, vk::SampleCountFlags::TYPE_1.as_raw()),
        "HDR colour 6880x2880"
    );
}

#[test]
fn alloc_error_formats_size_mb_and_purpose() {
    let purpose = image_purpose(
        "HDR colour",
        Extent { width: 6880, height: 2880 },
        vk::SampleCountFlags::TYPE_8.as_raw(),
    );
    let err = AllocError::new(
        1211 * 1024 * 1024,
        purpose,
        vk::Result::ERROR_OUT_OF_DEVICE_MEMORY.as_raw(),
    );
    let formatted = err.message();
    assert!(formatted.contains("1211 MB"), "size in MB missing: {formatted}");
    assert!(
        formatted.contains("HDR colour 6880x2880 8x MSAA"),
        "purpose missing: {formatted}"
    );
    assert!(
        formatted.contains("ERROR_OUT_OF_DEVICE_MEMORY"),
        "vk result missing: {formatted}"
    );

    assert_eq!(
        render_target_oom_message(&err),
        "renderer: could not allocate render targets (1211 MB): ERROR_OUT_OF_DEVICE_MEMORY — lower MSAA or render scale"
    );
}

#[test]
fn sizes_are_whole_megabytes() {
    let err = |size| AllocError::new(size, String::new(), -2);
    assert_eq!(err((1 << 20) - 1).size_mb(), 0);
    assert_eq!(err(1 << 20).size_mb(), 1);
    assert_eq!(err((1 << 21) - 1).size_mb(), 1);
    assert_eq!(err(u64::MAX).size_mb(), (1 << 44) - 1);
    let other = AllocError::new(1 << 20, "staging".to_string(), vk::Result::ERROR_DEVICE_LOST.as_raw());
    assert!(other.message().contains("ERROR_DEVICE_LOST"));
}

#[test]
fn sample_counts_are_the_flag_itself() {
    assert_eq!(sample_count(SAMPLES_8), 8);
    assert_eq!(sample_count(SAMPLES_1), 1);
}

#[test]
fn a_failed_image_hands_back_those_before_it() {
    let made: Result<Vec<usize>, _> =
        create_image_array(3, &|i| if i < 2 { Ok(10 + i) } else { Err("full") });
    match made {
        Err(u) => {
            assert_eq!(u.made, vec![10, 11]);
            assert_eq!(u.error, "full");
        }
        Ok(_) => panic!("the third image fails"),
    }
    let made = create_image_array(2, &|i: usize| if i < 2 { Ok(i) } else { Err(()) });
    assert!(matches!(made, Ok(v) if v == vec![0, 1]));
}

#[test]
fn transitions_chain_from_the_layout_before() {
    let desc = ImageDesc {
        extent: extent(4, 4),
        format: vk::Format::R16G16B16A16_SFLOAT.as_raw(),
        usage: 6,
        layers: 2,
        aspect: vk::ImageAspectFlags::COLOR.as_raw(),
        samples: 1,
    };
    assert_eq!(desc.view_type(), VIEW_2D_ARRAY);
    assert_eq!(ImageDesc { layers: 1, ..desc }.view_type(), VIEW_2D);
    assert_eq!(VIEW_2D, vk::ImageViewType::TYPE_2D.as_raw());
    assert_eq!(VIEW_2D_ARRAY, vk::ImageViewType::TYPE_2D_ARRAY.as_raw());
    let mut img = ImageResource::create(1, 2, 3, &desc);
    assert_eq!(img.subresource_range().layers, 2);
    let mut cmds = Vec::new();
    img.transition(&mut cmds, LayoutUse::ColorAttachmentWrite);
    img.transition(&mut cmds, LayoutUse::FragmentSampled);
    img.transition_discard(&mut cmds, LayoutUse::ColorAttachmentWrite);
    let seen: Vec<_> = cmds
        .iter()
        .filter_map(|c| match c {
            Cmd::ImageBarrier(b) => Some((b.old_layout, b.new_layout)),
            _ => None,
        })
        .collect();
    let (att, read) = (
        vk::ImageLayout::COLOR_ATTACHMENT_OPTIMAL.as_raw(),
        vk::ImageLayout::SHADER_READ_ONLY_OPTIMAL.as_raw(),
    );
    assert_eq!(seen, vec![(0, att), (att, read), (0, att)]);
    assert_eq!(img.layout(), att);
    assert_eq!(depth_pass_layout(), LAYOUT_DEPTH_ATTACHMENT);
}
