use std::collections::VecDeque;
use voxel_engine::compute::{
    adapt_estimate_us, jobs_fitting_budget, measured_ticks, parse_mb, pick_compute_queue, ring_bytes,
    ring_geometry, validate_desc, ComputeDesc, ComputeKind, ComputeLimits, EngineError, JobId,
    BUDGET_MAX_US, BUDGET_MIN_US, BUDGET_START_US, COMPUTE_INPUT_BYTES,
};
use voxel_engine::compute_input::{ComputeInput, ComputeStager};
use voxel_engine::compute_lane::{ComputeLane, LaneStep};
use voxel_engine::compute_runtime::{descriptor_bindings, ComputeJob, ComputeRuntime};
use voxel_engine::commands::Cmd;
use voxel_engine::lane::Tier;
use voxel_engine::shader::{entry_name, shader_words, SPIRV_MAGIC};
use voxel_engine::staging::{StagingRegion, StagingRing, Stamp};

#[test]
fn budget_empty_is_zero() {
    assert_eq!(jobs_fitting_budget(200, &[]), 0);
}

#[test]
fn budget_packs_until_full() {
    assert_eq!(jobs_fitting_budget(200, &[100, 100]), 2);
    assert_eq!(jobs_fitting_budget(200, &[100, 100, 100]), 2);
    assert_eq!(jobs_fitting_budget(200, &[50, 50, 50, 50]), 4);
    assert_eq!(jobs_fitting_budget(200, &[200]), 1);
    assert_eq!(jobs_fitting_budget(200, &[200, 1]), 1);
}

#[test]
fn budget_always_takes_the_first_job() {
    assert_eq!(jobs_fitting_budget(200, &[500]), 1);
    assert_eq!(jobs_fitting_budget(200, &[500, 50]), 1);
    assert_eq!(jobs_fitting_budget(50, &[200, 50]), 1);
}

#[test]
fn free_jobs_take_no_budget() {
    assert_eq!(jobs_fitting_budget(1, &[0, 0]), 2);
    assert_eq!(jobs_fitting_budget(0, &[0, 0, 1]), 2);
    assert_eq!(jobs_fitting_budget(u32::MAX, &[u32::MAX, 1]), 1);
}

#[test]
fn adapt_estimate_ema_and_clamp() {
    assert_eq!(adapt_estimate_us(200, 50), 125);
    assert_eq!(adapt_estimate_us(200, 4000), BUDGET_MAX_US);
    assert_eq!(adapt_estimate_us(50, 50), BUDGET_MIN_US);
    assert_eq!(adapt_estimate_us(2000, 2000), BUDGET_MAX_US);
    assert_eq!(adapt_estimate_us(BUDGET_START_US, BUDGET_START_US), 200);
}

#[test]
fn job_ids_are_monotonic_and_fifo() {
    let mut rt = runtime();
    let kind = rt.register(&desc().owned(), 1, 2, 3);
    let mut q = VecDeque::new();
    let a = rt.submit_job(job(kind)).unwrap();
    q.push_back(a);
    let b = rt.submit_job(job(kind)).unwrap();
    q.push_back(b);
    let c = rt.submit_job(job(kind)).unwrap();
    q.push_back(c);
    assert!(a < b && b < c);
    assert_eq!(a.raw(), 1);
    let drained: Vec<_> = q.drain(..).collect();
    assert_eq!(drained, vec![a, b, c]);
    let queued: Vec<JobId> = rt.queue.iter().map(|j| j.id).collect();
    assert_eq!(queued, drained);
}

#[test]
fn readback_ring_reclaim_with_fake_timeline() {
    let mut ring = StagingRing::new(16, 16);
    let a = ring.acquire(16).unwrap();
    ring.stamp(a, Stamp::Render(2));
    ring.reclaim(1, None);
    assert!(ring.acquire(16).is_none(), "region waits for the fake timeline");
    ring.reclaim(2, None);
    let b = ring.acquire(16).expect("reclaimed at timeline 2");
    assert_eq!(b.offset, 0);
    ring.stamp(b, Stamp::Transfer(4));
    ring.reclaim(100, None);
    assert!(ring.acquire(16).is_none(), "Transfer stamp ignores the render counter");
    ring.reclaim(0, Some(4));
    assert!(ring.acquire(16).is_some());
}

#[test]
fn parse_compute_mb_env() {
    assert_eq!(parse_mb("16"), Some(16 << 20));
    assert_eq!(parse_mb(" 32 "), Some(32 << 20));
    assert_eq!(parse_mb("0"), Some(0));
    assert_eq!(parse_mb(""), None);
    assert_eq!(parse_mb("nope"), None);
}

#[test]
fn pick_dedicated_compute_family() {
    let p = pick_compute_queue(0, 16, Tier::DedicatedFamily, 1, 2, Some((2, 8)));
    assert_eq!(p.tier, Tier::DedicatedFamily);
    assert_eq!(p.family, 2);
    assert_eq!(p.queue_index, 0);
    assert_eq!(p.graphics_queues, 1);
}

#[test]
fn pick_compute_shares_transfer_family_second_queue() {
    let p = pick_compute_queue(0, 16, Tier::DedicatedFamily, 1, 2, Some((1, 2)));
    assert_eq!(p.tier, Tier::DedicatedFamily);
    assert_eq!(p.family, 1);
    assert_eq!(p.queue_index, 1);
}

#[test]
fn pick_second_graphics_queue_when_transfer_took_the_first_extra() {
    let p = pick_compute_queue(0, 16, Tier::SecondQueueSameFamily, 0, 16, None);
    assert_eq!(p.tier, Tier::SecondQueueSameFamily);
    assert_eq!(p.queue_index, 2);
    assert_eq!(p.graphics_queues, 3);
}

#[test]
fn pick_second_graphics_queue_when_transfer_is_dedicated() {
    let p = pick_compute_queue(0, 16, Tier::DedicatedFamily, 1, 2, None);
    assert_eq!(p.tier, Tier::SecondQueueSameFamily);
    assert_eq!(p.queue_index, 1);
    assert_eq!(p.graphics_queues, 2);
}

#[test]
fn pick_same_queue_fallback() {
    let p = pick_compute_queue(0, 1, Tier::SameQueueFallback, 0, 1, None);
    assert_eq!(p.tier, Tier::SameQueueFallback);
    assert_eq!(p.queue_index, 0);
    assert_eq!(p.graphics_queues, 1);
}

fn send<T: Send>() {}

fn send_sync<T: Send + Sync>() {}

#[test]
fn stager_is_send_sync_input_is_send() {
    send_sync::<ComputeStager>();
    send_sync::<ComputeRuntime>();
    send::<ComputeInput>();
    send::<JobId>();
    send::<ComputeKind>();
}

fn limits() -> ComputeLimits {
    ComputeLimits {
        max_work_group_invocations: 256,
        max_work_group_size: [256, 256, 64],
        max_work_group_count: [65535, 65535, 65535],
        max_push: 128,
    }
}

fn runtime() -> ComputeRuntime {
    ComputeRuntime::new(
        ComputeStager::new(1024, 16),
        11,
        StagingRing::new(4096, 16),
        12,
        None,
        true,
        limits(),
        13,
        true,
    )
}

fn desc<'a>() -> ComputeDesc<'a> {
    ComputeDesc {
        spirv: &[1, 2, 3, 4],
        entry: "main",
        push_bytes: 4,
        inputs: 0,
        output_bytes_max: 64,
        workgroup: [64, 1, 1],
    }
}

fn job(kind: ComputeKind) -> ComputeJob {
    ComputeJob {
        kind,
        push: vec![1, 2, 3, 4],
        inputs: [None, None],
        output_bytes: 16,
        dispatch: [2, 1, 1],
    }
}

#[test]
fn ring_sizes_come_from_the_setting_or_the_default() {
    assert_eq!(ring_bytes(Some("2"), COMPUTE_INPUT_BYTES), 2 << 20);
    assert_eq!(ring_bytes(Some("?"), COMPUTE_INPUT_BYTES), 16 << 20);
    assert_eq!(ring_bytes(None, COMPUTE_INPUT_BYTES), 16 << 20);
    assert_eq!(ring_geometry(0, 64), None);
    assert_eq!(ring_geometry(100, 64), Some((128, 64)));
    assert_eq!(ring_geometry(100, 1).map(|g| g.1), Some(16));
}

#[test]
fn descriptors_hold_the_inputs_then_the_output() {
    assert_eq!(descriptor_bindings(2), vec![0, 1, 2]);
    assert_eq!(descriptor_bindings(0), vec![0]);
}

#[test]
fn kinds_outside_the_limits_are_refused() {
    let l = limits();
    assert!(validate_desc(&desc().owned(), &l, 4096).is_ok());
    let big_group = ComputeDesc { workgroup: [512, 1, 1], ..desc() };
    assert!(matches!(validate_desc(&big_group.owned(), &l, 4096), Err(EngineError::Invalid(_))));
    let no_group = ComputeDesc { workgroup: [0, 1, 1], ..desc() };
    assert!(matches!(validate_desc(&no_group.owned(), &l, 4096), Err(EngineError::Invalid(_))));
    let big_push = ComputeDesc { push_bytes: 132, ..desc() };
    assert!(matches!(validate_desc(&big_push.owned(), &l, 4096), Err(EngineError::Invalid(_))));
    let many_inputs = ComputeDesc { inputs: 3, ..desc() };
    assert!(matches!(validate_desc(&many_inputs.owned(), &l, 4096), Err(EngineError::Invalid(_))));
    let big_output = ComputeDesc { output_bytes_max: 8192, ..desc() };
    assert!(validate_desc(&big_output.owned(), &l, 4096).is_err());
}

#[test]
fn jobs_outside_their_kind_are_refused() {
    let mut rt = runtime();
    assert!(matches!(
        rt.submit_job(job(ComputeKind(0))),
        Err(EngineError::Invalid(_))
    ));
    let kind = rt.register(&desc().owned(), 1, 2, 3);
    let mut short_push = job(kind);
    short_push.push = vec![1];
    assert!(matches!(rt.submit_job(short_push), Err(EngineError::Invalid(_))));
    let mut too_large = job(kind);
    too_large.output_bytes = 65;
    assert!(matches!(rt.submit_job(too_large), Err(EngineError::OutputTooLarge)));
    let mut busy = 0;
    loop {
        match rt.submit_job(job(kind)) {
            Ok(_) => busy += 1,
            Err(e) => {
                assert!(matches!(e, EngineError::Busy));
                break;
            }
        }
    }
    assert_eq!(busy, 4096 / 16);
    assert_eq!(rt.pending(), 256);
}

#[test]
fn a_job_needs_its_inputs() {
    let mut rt = runtime();
    let two = ComputeDesc { inputs: 1, ..desc() };
    let kind = rt.register(&two.owned(), 1, 2, 3);
    assert!(matches!(rt.submit_job(job(kind)), Err(EngineError::InputGone)));
}

#[test]
fn off_without_memory() {
    let mut rt = ComputeRuntime::new(
        ComputeStager::new(0, 16),
        0,
        StagingRing::new(0, 16),
        0,
        None,
        false,
        limits(),
        0,
        false,
    );
    assert!(!rt.enabled());
    assert!(matches!(rt.submit_job(job(ComputeKind(0))), Err(EngineError::NoCompute)));
}

#[test]
fn errors_say_what_went_wrong() {
    let said = |e: EngineError| e.message();
    assert_eq!(said(EngineError::NoCompute), "device does not support compute jobs");
    assert_eq!(said(EngineError::Invalid("push")), "invalid compute desc: push");
    assert_eq!(said(EngineError::Pipeline), "compute pipeline creation failed");
    assert_eq!(said(EngineError::OutputTooLarge), "compute job output exceeds kind maximum");
    assert_eq!(said(EngineError::InputGone), "compute job input region is missing");
    assert_eq!(said(EngineError::Busy), "compute staging or readback ring is full");
}

#[test]
fn a_lane_job_is_read_back_once_its_value_is_reached() {
    let mut rt = runtime();
    let kind = rt.register(&desc().owned(), 1, 2, 3);
    let id = rt.submit_job(job(kind)).unwrap();
    let (launched, cmds) = rt.launch_async().unwrap();
    assert_eq!(launched, id);
    assert!(cmds.iter().any(|c| matches!(c, Cmd::Dispatch { x: 2, y: 1, z: 1 })));
    assert_eq!(cmds.iter().filter(|c| matches!(c, Cmd::PushByte(_))).count(), 4);
    rt.note_submitted(id, 7);
    let read = |r: StagingRegion, n: u32| vec![r.offset as u8; n as usize];
    assert!(rt.poll(100, Some(6), &read).results.is_empty());
    let p = rt.poll(0, Some(7), &read);
    assert_eq!(p.results, vec![(id, vec![0u8; 16])]);
    assert_eq!(p.timings.len(), 1);
    assert_eq!(p.timings[0].1, kind);
    assert_eq!(rt.pending(), 0);
    assert!(rt.queued_is_empty());
}

#[test]
fn the_frame_budget_bounds_what_is_recorded() {
    let mut rt = runtime();
    let kind = rt.register(&desc().owned(), 1, 2, 3);
    for _ in 0..3 {
        rt.submit_job(job(kind)).unwrap();
    }
    // A fresh kind is estimated at the whole budget: one job a frame.
    let cmds = rt.record_budgeted(1);
    assert_eq!(cmds.iter().filter(|c| matches!(c, Cmd::Dispatch { .. })).count(), 1);
    for _ in 0..16 {
        rt.note_measured(kind, 0);
    }
    let cmds = rt.record_budgeted(2);
    assert_eq!(cmds.iter().filter(|c| matches!(c, Cmd::Dispatch { .. })).count(), 2);
    let read = |_: StagingRegion, n: u32| vec![0u8; n as usize];
    let ids: Vec<u64> = rt.poll(2, None, &read).results.iter().map(|r| r.0.raw()).collect();
    assert_eq!(ids, vec![1, 2, 3]);
}

#[test]
fn taking_one_result_stashes_the_others() {
    let mut rt = runtime();
    let kind = rt.register(&desc().owned(), 1, 2, 3);
    let a = rt.submit_job(job(kind)).unwrap();
    let b = rt.submit_job(job(kind)).unwrap();
    rt.record_all(4);
    let read = |_: StagingRegion, n: u32| vec![1u8; n as usize];
    assert!(rt.take_completed(b, 3, None, &read).0.is_none());
    assert_eq!(rt.take_completed(b, 4, None, &read).0, Some(vec![1u8; 16]));
    assert!(rt.take_completed(b, 4, None, &read).0.is_none());
    assert_eq!(rt.take_completed(a, 4, None, &read).0, Some(vec![1u8; 16]));
}

#[test]
fn compute_input_takes_no_more_than_it_asked_for() {
    let region = StagingRegion { offset: 32, len: 16 };
    let mut input = ComputeInput::new(region, 5);
    assert_eq!(*input.bytes(), vec![0u8; 5]);
    assert!(!input.write(&[1; 6]));
    assert!(input.write(&[1, 2]));
    assert_eq!(*input.bytes(), vec![1, 2, 0, 0, 0]);
    assert_eq!(input.region().offset, 32);
}

#[test]
fn stager_lends_and_takes_back() {
    let mut stager = ComputeStager::new(32, 16);
    assert_eq!(stager.capacity_bytes(), 32);
    let a = stager.acquire(5).unwrap();
    let b = stager.acquire(16).unwrap();
    assert_eq!((a.region().offset, a.region().len), (0, 16));
    assert_eq!((b.region().offset, b.region().len), (16, 16));
    assert!(stager.acquire(1).is_none());
    a.release(&mut stager);
    assert_eq!(stager.acquire(9).unwrap().region().offset, 0);
}

#[test]
fn a_refused_job_gives_its_inputs_back() {
    let mut rt = runtime();
    let one = ComputeDesc { inputs: 1, ..desc() };
    let kind = rt.register(&one.owned(), 1, 2, 3);
    let region = rt.input.acquire(16).unwrap().region();
    let mut refused = job(kind);
    refused.inputs = [Some(region), None];
    refused.output_bytes = 0;
    assert!(matches!(rt.submit(refused), Err(EngineError::OutputTooLarge)));
    assert_eq!(rt.input.acquire(16).unwrap().region(), region);
    let mut accepted = job(kind);
    accepted.inputs = [Some(region), None];
    let id = rt.submit(accepted).unwrap();
    assert_eq!(id.raw(), 1);
    assert_ne!(rt.input.acquire(16).unwrap().region(), region);
}

#[test]
fn lane_command_buffers_come_back_once_the_gpu_has_passed_them() {
    let mut lane = ComputeLane::new(2, Tier::DedicatedFamily);
    assert!(lane.is_separate_queue());
    assert_eq!(lane.begin(None), LaneStep::ReadCounter);
    assert_eq!(lane.begin(Some(0)), LaneStep::Allocate);
    lane.grow(40);
    assert_eq!(lane.submit(40), 1);
    assert_eq!(lane.begin(None), LaneStep::ReadCounter);
    assert_eq!(lane.begin(Some(0)), LaneStep::Allocate);
    lane.grow(41);
    assert_eq!(lane.begin(Some(1)), LaneStep::Record { cmd: 40 });
    assert_eq!(lane.submit(40), 2);
    assert_eq!(lane.submit(41), 3);
    assert_eq!(lane.begin(Some(3)), LaneStep::Record { cmd: 40 });
    assert_eq!(lane.begin(None), LaneStep::Record { cmd: 41 });
    assert!(lane.destroy());
    assert!(!lane.destroy());
    let mut none = ComputeLane::new(0, Tier::SameQueueFallback);
    assert!(!none.is_separate_queue());
    assert!(!none.destroy());
    assert_eq!((none.tier(), none.family()), (Tier::SameQueueFallback, 0));
}

#[test]
fn shader_words_are_read_in_either_byte_order() {
    let words = [SPIRV_MAGIC, 0x0001_0600, 42];
    let le: Vec<u8> = words.iter().flat_map(|w| w.to_le_bytes()).collect();
    let be: Vec<u8> = words.iter().flat_map(|w| w.to_be_bytes()).collect();
    assert_eq!(shader_words(&le).unwrap(), words);
    assert_eq!(shader_words(&be).unwrap(), words);
    assert!(matches!(shader_words(&le[..10]), Err(EngineError::Invalid(_))));
}

#[test]
fn entry_names_hold_no_nul() {
    assert!(entry_name("main").is_ok());
    assert!(matches!(entry_name("ma\0in"), Err(EngineError::Invalid(_))));
}

#[test]
fn stamps_that_run_backwards_measure_nothing() {
    assert_eq!(measured_ticks(5, 12), Some(7));
    assert_eq!(measured_ticks(5, 5), Some(0));
    assert_eq!(measured_ticks(5, 4), None);
    assert_eq!(measured_ticks(0, u64::MAX), Some(u64::MAX));
}
