use ash::vk;
use voxel_engine::bloom::{
    black_desc, is_positive, spill_live, BloomChain, BloomFrame, BloomPipelines, BloomState,
    BloomTuning, Godray, SpillTarget, WarpMap,
};
use voxel_engine::commands::{Cmd, Extent};
use voxel_engine::descriptors::{
    create_sampler_set_layout, cull_set_layout, push_combined_image_sampler, DescriptorKind,
};
use voxel_engine::device::{
    evaluate, max_msaa, pick_device, plan_device, Candidate, DeviceExtension, DeviceReport,
    ExtensionNames, MemoryBudget, QueueFamily, QUEUE_GRAPHICS, QUEUE_TRANSFER,
    TYPE_DISCRETE_GPU, TYPE_INTEGRATED_GPU, TYPE_VIRTUAL_GPU,
};
use voxel_engine::draw_prep::{
    batch_draws, cover_mask, cull_slot_count, float_order, imm_offsets, shadow_work,
    sort_far_to_near, write_immediates, DrawEntry, ImmPart, ImmSizes, ShadowWork,
};
use voxel_engine::exposure::HdrSource;
use voxel_engine::frame_loop::{
    acquire_failure, copy_settled, cull_gauges, decide_present, draw_frame, fold_transfer_wait,
    mesh_wait, stamp_armed, vrs_mix, Acquired, FrameLoop, FramePhase, FrameStart, PresentStep,
    RecordInputs, RecordStep, RecordedWork, RenderFlags, TransferWait, RESULT_NOT_READY,
    RESULT_OUT_OF_DATE, RESULT_SURFACE_LOST, RESULT_TIMEOUT,
};
use voxel_engine::gpu_timer::GpuPass;
use voxel_engine::image::ImageResource;
use voxel_engine::instance::{after_attempt, first_step, validation_requested, InstanceStep};
use voxel_engine::lane::Tier;
use voxel_engine::mesh::Pass;
use voxel_engine::mesh3d_desc::{
    create_mesh3d_set_layout, push_mesh3d_descriptors, push_prev_depth, Mesh3dResources,
};
use voxel_engine::numbers::{mip_count, mip_extent, next_power_of_two};
use voxel_engine::pyramid::MipTarget;
use voxel_engine::text::{append_decimal, parse_plain, parse_trimmed};

fn extent(width: u32, height: u32) -> Extent {
    Extent { width, height }
}

fn names() -> ExtensionNames {
    ExtensionNames {
        swapchain: ash::khr::swapchain::NAME.to_bytes().to_vec(),
        push_descriptor: ash::khr::push_descriptor::NAME.to_bytes().to_vec(),
        memory_budget: ash::ext::memory_budget::NAME.to_bytes().to_vec(),
        fragment_shading_rate: ash::khr::fragment_shading_rate::NAME.to_bytes().to_vec(),
        local_read: ash::khr::dynamic_rendering_local_read::NAME.to_bytes().to_vec(),
    }
}

fn report(physical: u64, device_type: i32) -> DeviceReport {
    let n = names();
    DeviceReport {
        physical,
        api_version: vk::make_api_version(0, 1, 3, 0),
        device_type,
        dynamic_rendering: true,
        synchronization2: true,
        draw_indirect_count: true,
        multi_draw_indirect: true,
        draw_indirect_first_instance: true,
        sampler_anisotropy: true,
        max_anisotropy: 16,
        extensions: Some(vec![n.swapchain, n.push_descriptor, n.memory_budget]),
        attachment_rate: false,
        rate_texel: extent(0, 0),
        local_read: false,
        families: vec![
            QueueFamily { flags: QUEUE_GRAPHICS | QUEUE_TRANSFER, count: 4, presents: true },
            QueueFamily { flags: QUEUE_TRANSFER, count: 1, presents: false },
        ],
        color_samples: 0b1111,
        depth_samples: 0b0111,
    }
}

#[test]
fn constants_are_those_of_the_api() {
    assert_eq!(QUEUE_GRAPHICS, vk::QueueFlags::GRAPHICS.as_raw());
    assert_eq!(QUEUE_TRANSFER, vk::QueueFlags::TRANSFER.as_raw());
    assert_eq!(TYPE_DISCRETE_GPU, vk::PhysicalDeviceType::DISCRETE_GPU.as_raw());
    assert_eq!(TYPE_INTEGRATED_GPU, vk::PhysicalDeviceType::INTEGRATED_GPU.as_raw());
    assert_eq!(TYPE_VIRTUAL_GPU, vk::PhysicalDeviceType::VIRTUAL_GPU.as_raw());
    assert_eq!(RESULT_NOT_READY, vk::Result::NOT_READY.as_raw());
    assert_eq!(RESULT_TIMEOUT, vk::Result::TIMEOUT.as_raw());
    assert_eq!(RESULT_SURFACE_LOST, vk::Result::ERROR_SURFACE_LOST_KHR.as_raw());
    assert_eq!(RESULT_OUT_OF_DATE, vk::Result::ERROR_OUT_OF_DATE_KHR.as_raw());
}

#[test]
fn a_device_below_the_needed_version_is_no_candidate() {
    let n = names();
    let mut r = report(1, TYPE_DISCRETE_GPU);
    assert!(evaluate(&r, &n).is_some());
    r.api_version = vk::make_api_version(0, 1, 2, 200);
    assert!(evaluate(&r, &n).is_none());
    r.api_version = vk::make_api_version(0, 2, 0, 0);
    assert!(evaluate(&r, &n).is_some());
    r.api_version = vk::make_api_version(0, 1, 4, 0);
    assert!(evaluate(&r, &n).is_some());
}

#[test]
fn a_device_without_a_needed_feature_is_no_candidate() {
    let n = names();
    let mut r = report(1, TYPE_DISCRETE_GPU);
    r.dynamic_rendering = false;
    assert!(evaluate(&r, &n).is_none());
    let mut r = report(1, TYPE_DISCRETE_GPU);
    r.synchronization2 = false;
    assert!(evaluate(&r, &n).is_none());
    let mut r = report(1, TYPE_DISCRETE_GPU);
    r.extensions = None;
    assert!(evaluate(&r, &n).is_none());
    let mut r = report(1, TYPE_DISCRETE_GPU);
    r.extensions = Some(vec![names().swapchain]);
    assert!(evaluate(&r, &n).is_none());
    let mut r = report(1, TYPE_DISCRETE_GPU);
    r.families[0].presents = false;
    assert!(evaluate(&r, &n).is_none());
}

#[test]
fn the_best_device_is_taken_and_its_queues_planned() {
    let n = names();
    let reports = vec![
        report(1, TYPE_INTEGRATED_GPU),
        report(2, TYPE_DISCRETE_GPU),
        report(3, TYPE_VIRTUAL_GPU),
    ];
    let c = pick_device(&reports, &n).unwrap();
    assert_eq!(c.physical, 2);
    assert_eq!((c.graphics_family, c.present_family, c.transfer_family), (0, 0, Some(1)));
    assert_eq!(c.max_anisotropy, Some(16));
    assert!(c.memory_budget && c.fragment_shading_rate.is_none() && !c.local_read);
    let p = plan_device(&c);
    assert_eq!(p.tier, Tier::DedicatedFamily);
    assert_eq!((p.transfer.family, p.transfer.index), (1, 0));
    let families: Vec<_> = p.queues.iter().map(|q| (q.family, q.count)).collect();
    assert_eq!(families, vec![(0, 1), (1, 1)]);
    assert!(p.extensions.iter().any(|e| matches!(e, DeviceExtension::MemoryBudget)));
    assert!(!p.extensions.iter().any(|e| matches!(e, DeviceExtension::LocalRead)));
    assert!(pick_device(&Vec::new(), &n).is_none());
}

fn candidate() -> Candidate {
    evaluate(&report(1, TYPE_DISCRETE_GPU), &names()).unwrap()
}

#[test]
fn without_a_transfer_family_the_second_graphics_queue_serves() {
    let c = Candidate { transfer_family: None, ..candidate() };
    let p = plan_device(&c);
    assert_eq!(p.tier, Tier::SecondQueueSameFamily);
    assert_eq!((p.transfer.family, p.transfer.index), (0, 1));
    assert_eq!((p.queues.len(), p.queues[0].count), (1, 2));
    let c = Candidate { transfer_family: None, graphics_queue_count: 1, ..candidate() };
    let p = plan_device(&c);
    assert_eq!(p.tier, Tier::SameQueueFallback);
    assert_eq!((p.transfer.family, p.transfer.index), (0, 0));
}

#[test]
fn most_samples_both_attachments_take() {
    assert_eq!(candidate().msaa_caps, 0b0111);
    assert_eq!(max_msaa(0b1111), 8);
    assert_eq!(max_msaa(0b0111), 4);
    assert_eq!(max_msaa(0b0001), 1);
    assert!(MemoryBudget::when_enabled(false).is_none());
    assert!(MemoryBudget::when_enabled(true).is_some());
}

#[test]
fn the_layer_is_tried_once() {
    assert!(validation_requested(None, true));
    assert!(!validation_requested(None, false));
    assert!(!validation_requested(Some("0"), true));
    assert!(!validation_requested(Some("OFF"), true));
    assert!(!validation_requested(Some("False"), true));
    assert!(validation_requested(Some("1"), false));
    assert!(validation_requested(Some(""), false));
    assert!(matches!(first_step(true, true), InstanceStep::WithLayer));
    assert!(matches!(first_step(true, false), InstanceStep::Plain));
    assert!(matches!(first_step(false, true), InstanceStep::Plain));
    assert!(matches!(
        after_attempt(InstanceStep::WithLayer, true),
        InstanceStep::Done { messages: true }
    ));
    assert!(matches!(after_attempt(InstanceStep::WithLayer, false), InstanceStep::Plain));
    assert!(matches!(
        after_attempt(InstanceStep::Plain, true),
        InstanceStep::Done { messages: false }
    ));
    assert!(matches!(after_attempt(InstanceStep::Plain, false), InstanceStep::Fail));
}

#[test]
fn immediates_are_packed_on_sixteen_bytes() {
    let o = imm_offsets(ImmSizes { cube: 5, line: 16, shadow: 0, d2: 33, d2_tex: 1 });
    assert_eq!((o.line, o.shadow, o.d2, o.d2_tex, o.total), (16, 32, 32, 80, 81));
    let all = write_immediates(o, true);
    assert_eq!(all.len(), 5);
    assert!(all.iter().any(|w| matches!(w.part, ImmPart::FlatTextured) && w.offset == 80));
    let hidden = write_immediates(o, false);
    assert!(!hidden.iter().any(|w| matches!(w.part, ImmPart::Flat | ImmPart::FlatTextured)));
}

#[test]
fn float_order_is_the_total_order() {
    let v = [f32::NEG_INFINITY, -1.5, -0.0, 0.0, f32::MIN_POSITIVE, 1.0, f32::INFINITY];
    for a in v {
        for b in v {
            assert_eq!(
                float_order(a.to_bits()) < float_order(b.to_bits()),
                a.total_cmp(&b).is_lt(),
                "{a} {b}"
            );
        }
    }
}

fn entry(slot: u32, buffer: u64, dist2: f32) -> DrawEntry {
    DrawEntry {
        buffer,
        pass: Pass::Blend,
        first: 0,
        count: 6,
        vertex_offset: slot as i32,
        slot,
        dist2: dist2.to_bits(),
    }
}

#[test]
fn blended_meshes_are_drawn_far_to_near_in_runs() {
    let entries = vec![entry(0, 1, 1.0), entry(1, 1, 9.0), entry(2, 2, 4.0), entry(3, 1, 9.0)];
    let order = sort_far_to_near(&entries);
    let slots: Vec<u32> = order.iter().map(|e| e.slot).collect();
    assert_eq!(slots, vec![1, 3, 2, 0]);
    let d = batch_draws(order);
    assert_eq!(d.commands.len(), 4);
    assert_eq!(d.commands[0].first_instance, 1);
    let runs: Vec<_> = d.runs.iter().map(|r| (r.buffer, r.first, r.count)).collect();
    assert_eq!(runs, vec![(1, 0, 2), (2, 2, 1), (1, 3, 1)]);
}

#[test]
fn cull_inputs_cover_the_live_slots() {
    assert_eq!(cull_slot_count(10, 7), 7);
    assert_eq!(cull_slot_count(5, 7), 5);
    let mut mask = vec![1u32];
    assert_eq!(cover_mask(&mut mask, 65), 3);
    assert_eq!(mask, vec![1, 0, 0]);
    assert!(matches!(shadow_work(true, true, true), ShadowWork::FitAndDraw));
    assert!(matches!(shadow_work(true, true, false), ShadowWork::FitOnly));
    assert!(matches!(shadow_work(false, true, true), ShadowWork::Keep));
    assert!(matches!(shadow_work(true, false, true), ShadowWork::Keep));
}

#[test]
fn acquire_failures_are_sorted_by_code() {
    assert!(matches!(acquire_failure(RESULT_NOT_READY), Acquired::Missed));
    assert!(matches!(acquire_failure(RESULT_TIMEOUT), Acquired::Missed));
    assert!(matches!(acquire_failure(RESULT_OUT_OF_DATE), Acquired::Stale));
    assert!(matches!(acquire_failure(RESULT_SURFACE_LOST), Acquired::Stale));
    assert!(matches!(acquire_failure(-4), Acquired::Error { code: -4 }));
}

#[test]
fn mailbox_presents_only_when_it_would_not_wait() {
    assert!(matches!(
        decide_present(false, false, false, 3),
        PresentStep::Done { target: None }
    ));
    assert!(matches!(
        decide_present(false, false, true, 3),
        PresentStep::ProbeCopy { value: 3 }
    ));
    assert!(matches!(
        copy_settled(false, false, false),
        PresentStep::Done { target: None }
    ));
    assert!(matches!(copy_settled(false, false, true), PresentStep::Acquire { timeout: 0 }));
    assert!(matches!(
        copy_settled(true, false, true),
        PresentStep::Acquire { timeout: u64::MAX }
    ));
}

#[test]
fn the_loop_recreates_a_stale_swapchain() {
    let mut l = FrameLoop::new(extent(8, 8), extent(8, 8));
    assert!(matches!(l.begin_frame(), FrameStart::Render));
    assert!(matches!(
        l.image_acquired(Acquired::Image { index: 2, suboptimal: true }),
        PresentStep::Done { target: Some(2) }
    ));
    assert!(!l.needs_recreate, "still the size of the window");
    l.size = extent(9, 8);
    l.image_acquired(Acquired::Image { index: 2, suboptimal: true });
    assert!(l.needs_recreate);
    assert!(matches!(l.begin_frame(), FrameStart::Recreate));
    let mut l = FrameLoop::new(extent(8, 8), extent(8, 8));
    assert!(matches!(
        l.image_acquired(Acquired::Error { code: -4 }),
        PresentStep::Fail { code: -4 }
    ));
    assert!(matches!(l.image_acquired(Acquired::Missed), PresentStep::Done { target: None }));
    assert!(!l.needs_recreate);
}

#[test]
fn slots_advance_round_the_ring() {
    let mut l = FrameLoop::new(extent(8, 8), extent(8, 8));
    let mut seen = Vec::new();
    for _ in 0..4 {
        seen.push(l.slot);
        l.end_frame();
    }
    assert_eq!(seen, vec![0, 1, 2, 0]);
    l.track_copy(1);
    assert!(l.acquire_slot(1));
    assert!(!l.acquire_slot(1));
}

#[test]
fn a_frame_records_before_it_submits() {
    let phases = draw_frame(true, true, false);
    let at = |want: &dyn Fn(&FramePhase) -> bool| phases.iter().position(want).unwrap();
    let record = at(&|p| matches!(p, FramePhase::RecordRender));
    let submit = at(&|p| matches!(p, FramePhase::SubmitOrDefer));
    let present = at(&|p| matches!(p, FramePhase::Present { taa: true }));
    let wait = at(&|p| matches!(p, FramePhase::WaitSlotAndReclaim));
    assert!(wait < record && record < submit && submit < present);
    assert!(phases.iter().any(|p| matches!(p, FramePhase::PrepareBlend)));
    assert!(!draw_frame(false, false, false)
        .iter()
        .any(|p| matches!(p, FramePhase::PrepareBlend)));
}

#[test]
fn folded_waits_cover_both() {
    let a = TransferWait { value: 3, stages: 1 };
    let b = TransferWait { value: 5, stages: 4 };
    let f = fold_transfer_wait(Some(a), Some(b)).unwrap();
    assert_eq!((f.value, f.stages), (5, 5));
    assert!(fold_transfer_wait(None, None).is_none());
    let m = mesh_wait(Some(7), Some(2), 8).unwrap();
    assert_eq!((m.value, m.stages), (7, 8));
    assert!(mesh_wait(None, None, 8).is_none());
}

#[test]
fn gauges_split_the_counters() {
    let m = vrs_mix(true, Some([5, 6, 7]));
    assert_eq!((m.full, m.half, m.quarter), (5, 6, 7));
    let m = vrs_mix(false, Some([5, 6, 7]));
    assert_eq!((m.full, m.half, m.quarter), (0, 0, 0));
    let g = cull_gauges([1, 30, 2, 60, 3, 90]);
    assert_eq!((g.draws_full, g.draws_cutout, g.draws_lod), (1, 2, 3));
    assert_eq!((g.tris_full, g.tris_cutout, g.tris_lod), (10, 20, 30));
}

fn godray(strength: f32) -> Godray {
    Godray {
        sun_u: 0,
        sun_v: 0,
        strength: strength.to_bits(),
        jitter_u: 0,
        jitter_v: 0,
        tint_r: 0,
        tint_g: 0,
        tint_b: 0,
    }
}

fn inputs() -> RecordInputs {
    RecordInputs {
        flags: RenderFlags {
            bloom: true,
            taa: true,
            exposure: true,
            sky: true,
            vrs: false,
            shadows: true,
        },
        scene: true,
        sky_list: true,
        will_present: true,
        profiling: false,
        overwrite_pending: false,
        cull_ready: true,
        shadow_rebuild: false,
        shadow_uniforms: false,
        capture: false,
        vrs_target: false,
        absorb_pipeline: false,
        godray: godray(0.0),
        render_extent: extent(64, 64),
    }
}

#[test]
fn draws_are_recorded_in_pass_order() {
    let mut l = FrameLoop::new(extent(64, 64), extent(64, 64));
    let p = l.record_render(&inputs(), &Vec::new());
    assert!(p.decisions.sample_depth && !p.decisions.do_vrs && !p.decisions.prev_valid);
    let pos = |want: &dyn Fn(&RecordStep) -> bool| p.steps.iter().position(want);
    let begin = pos(&|s| matches!(s, RecordStep::BeginPass { .. })).unwrap();
    let opaque = pos(&|s| matches!(s, RecordStep::DrawOpaque)).unwrap();
    let cutout = pos(&|s| matches!(s, RecordStep::DrawCutout)).unwrap();
    let sky = pos(&|s| matches!(s, RecordStep::DrawSky)).unwrap();
    let blend = pos(&|s| matches!(s, RecordStep::DrawBlend)).unwrap();
    let bloom = pos(&|s| matches!(s, RecordStep::Bloom)).unwrap();
    assert!(begin < opaque && opaque < cutout && cutout < sky && sky < blend && blend < bloom);
    assert!(matches!(p.steps[p.steps.len() - 1], RecordStep::EndCommands));
    assert!(pos(&|s| matches!(s, RecordStep::Mark(_))).is_none());
    assert!(pos(&|s| matches!(s, RecordStep::VrsClassify)).is_none());
    let timed = RecordInputs { profiling: true, ..inputs() };
    let p = l.record_render(&timed, &Vec::new());
    assert!(p.steps.iter().any(|s| matches!(s, RecordStep::Mark(GpuPass::Cull))));
}

#[test]
fn a_stored_depth_serves_the_next_frame() {
    let mut l = FrameLoop::new(extent(64, 64), extent(64, 64));
    l.record_render(&inputs(), &Vec::new());
    l.end_frame();
    assert!(l.prev_depth.valid(1, extent(64, 64)));
    assert!(!l.prev_depth.valid(1, extent(32, 64)));
}

#[test]
fn recreating_forgets_the_old_images() {
    let mut l = FrameLoop::new(extent(64, 64), extent(64, 64));
    l.record_render(&inputs(), &Vec::new());
    l.track_copy(0);
    l.end_frame();
    l.needs_recreate = true;
    l.recreated(extent(32, 64));
    assert_eq!((l.swapchain_extent.width, l.swapchain_extent.height), (32, 64));
    assert!(!l.needs_recreate && !l.prev_depth.valid(1, extent(64, 64)));
    assert!(!l.acquire_slot(0), "the copy read an image that is gone");
    assert_eq!(l.slot, 1);
    assert_eq!((l.vrs_ready, l.vrs_history), ([false; 3], [false; 3]));
}

#[test]
fn a_stamp_is_armed_by_the_work_before_it() {
    let none = RecordedWork {
        copies: false,
        quad_wait: false,
        texture_wait: false,
        material_wait: false,
        grew: false,
        minimap: false,
        cull: false,
        bloom: false,
    };
    assert!(!stamp_armed(GpuPass::Copies, none));
    assert!(!stamp_armed(GpuPass::Cull, none));
    assert!(!stamp_armed(GpuPass::Bloom, none));
    assert!(stamp_armed(GpuPass::Sky, none));
    assert!(stamp_armed(GpuPass::Copies, RecordedWork { grew: true, ..none }));
    assert!(stamp_armed(GpuPass::Copies, RecordedWork { material_wait: true, ..none }));
    assert!(!stamp_armed(GpuPass::Copies, RecordedWork { cull: true, bloom: true, ..none }));
    assert!(stamp_armed(GpuPass::Cull, RecordedWork { cull: true, ..none }));
    assert!(stamp_armed(GpuPass::Bloom, RecordedWork { bloom: true, ..none }));
}

fn bloom_state() -> BloomState {
    let pipes = BloomPipelines {
        threshold: 1,
        downsample: 2,
        layout: 3,
        sampler: 4,
        composite_sampler: 5,
        spill: 6,
        spill_layout: 7,
        depth_sampler: 8,
    };
    BloomState::new(pipes, ImageResource::create(90, 91, 92, &black_desc(97)))
}

fn bloom_chain() -> BloomChain {
    let mips = vec![
        MipTarget { view: 41, extent: extent(32, 32) },
        MipTarget { view: 42, extent: extent(16, 16) },
    ];
    BloomChain { image: 40, sample_view: 43, mips, cleared: false }
}

fn bloom_frame(bloom: bool, strength: f32) -> BloomFrame {
    BloomFrame {
        bloom,
        hdr: HdrSource { image: 50, view: 51, offscreen: true },
        render_extent: extent(64, 64),
        spill: SpillTarget { image: 60, view: 61, extent: extent(32, 32) },
        depth_view: 70,
        warp: WarpMap::Identity,
        godray: godray(strength),
        tuning: BloomTuning {
            exposure: 0x3F80_0000,
            thr_lo: 0,
            thr_hi: 0,
            thr_scale: 0,
            strength: 0x3F80_0000,
            spill_group: 8,
        },
    }
}

#[test]
fn bloom_off_clears_the_chain_once() {
    let mut s = bloom_state();
    let mut chain = bloom_chain();
    let mut cmds = Vec::new();
    s.record_bloom_pass(&mut cmds, &mut chain, &bloom_frame(false, 0.0));
    assert!(cmds.iter().any(|c| matches!(c, Cmd::ClearColor { image: 40, .. })));
    assert!(chain.cleared);
    let mut again = Vec::new();
    s.record_bloom_pass(&mut again, &mut chain, &bloom_frame(false, 0.0));
    assert!(!again.iter().any(|c| matches!(c, Cmd::ClearColor { image: 40, .. })));
    assert!(!again.iter().any(|c| matches!(c, Cmd::Dispatch { .. })));
    assert_eq!(s.black_view(), 92);
}

#[test]
fn bloom_on_dispatches_once_per_level() {
    let mut s = bloom_state();
    let mut chain = bloom_chain();
    let mut cmds = Vec::new();
    s.record_bloom_pass(&mut cmds, &mut chain, &bloom_frame(true, 0.0));
    let n = cmds.iter().filter(|c| matches!(c, Cmd::Dispatch { .. })).count();
    let mut with_rays = Vec::new();
    s.record_bloom_pass(&mut with_rays, &mut chain, &bloom_frame(true, 0.5));
    let m = with_rays.iter().filter(|c| matches!(c, Cmd::Dispatch { .. })).count();
    // One per level, and one for the spill, which bloom alone keeps alive.
    assert_eq!(n, 3);
    assert_eq!(m, 3);
    let mut rays_only = Vec::new();
    s.record_bloom_pass(&mut rays_only, &mut chain, &bloom_frame(false, 0.5));
    assert_eq!(rays_only.iter().filter(|c| matches!(c, Cmd::Dispatch { .. })).count(), 1);
    assert!(spill_live(true, godray(0.0)));
    assert!(spill_live(false, godray(0.5)));
    assert!(!spill_live(false, godray(-0.5)));
}

#[test]
fn positive_bits_are_positive_floats() {
    for v in [0.0f32, -0.0, 1.0, -1.0, f32::INFINITY, f32::NAN, -f32::NAN, f32::MIN_POSITIVE] {
        assert_eq!(is_positive(v.to_bits()), v > 0.0, "{v}");
    }
}

#[test]
fn mesh_descriptors_fill_their_layout() {
    let layout = create_mesh3d_set_layout();
    let m = Mesh3dResources {
        records: 1,
        dyns: 2,
        tex_sampler: 3,
        tex_view: 4,
        ubo: 5,
        cascade_ubo: 6,
        shadow_sampler: 7,
        shadow_view: 8,
    };
    let mut writes: Vec<u32> = push_mesh3d_descriptors(&m).iter().map(|w| w.binding).collect();
    writes.push(push_prev_depth(9, 10).binding);
    writes.sort_unstable();
    let mut bindings: Vec<u32> = layout.iter().map(|b| b.binding).collect();
    bindings.sort_unstable();
    assert_eq!(writes, bindings);
    assert!(layout.iter().any(|b| matches!(b.kind, DescriptorKind::UniformBuffer)));
    let one = create_sampler_set_layout();
    assert_eq!((one.len(), one[0].stages), (1, vk::ShaderStageFlags::FRAGMENT.as_raw()));
    assert_eq!(push_combined_image_sampler(3, 4).binding, one[0].binding);
    let kinds: Vec<_> = cull_set_layout().iter().map(|b| b.kind).collect();
    assert_eq!(kinds.len(), 8);
    assert_eq!(kinds[5], DescriptorKind::UniformBuffer);
    assert_eq!(kinds[4], DescriptorKind::StorageBuffer);
}

fn decimal(n: u64) -> String {
    let mut s = String::new();
    append_decimal(&mut s, n);
    s
}

#[test]
fn numbers_are_written_and_read() {
    for n in [0, 7, 10, 1211, u64::MAX] {
        assert_eq!(decimal(n), n.to_string());
        assert_eq!(parse_plain(&n.to_string()), Some(n));
    }
    assert_eq!(parse_plain("18446744073709551616"), None);
    assert_eq!(parse_plain("+5"), "+5".parse().ok());
    assert_eq!(parse_plain(" 5"), None);
    assert_eq!(parse_trimmed("\t 5\n"), Some(5));
    assert_eq!(parse_plain("-1"), None);
}

#[test]
fn sides_halve_down_to_one() {
    assert_eq!(next_power_of_two(65), 128);
    assert_eq!(next_power_of_two(0), 1);
    assert_eq!(mip_count(16), 5);
    assert_eq!(mip_count(1), 1);
    assert_eq!(mip_extent(5, 1), 2);
    assert_eq!(mip_extent(1, 9), 1);
}
