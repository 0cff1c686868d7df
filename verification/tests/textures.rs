use voxel_engine::block_textures::{
    array_upload, changed_layer_indices, default_layers, grow_plan, layer_capacity, BlockTextures,
    GpuArray, TextureFlush, FORMAT_R8G8B8A8_SRGB, MIN_LAYER_CAPACITY,
};
use voxel_engine::commands::{Cmd, LAYOUT_SHADER_READ_ONLY, LAYOUT_TRANSFER_DST};
use voxel_engine::image_upload::upload_image;
use voxel_engine::lane::{ExtraWait, Lane, Tier};
use voxel_engine::mips::build_mip_chain;
use voxel_engine::runs::consecutive_runs;

fn to_linear(v: u8) -> f32 {
    let f = v as f32 / 255.0;
    if f <= 0.04045 {
        f / 12.92
    } else {
        ((f + 0.055) / 1.055).powf(2.4)
    }
}

fn to_srgb(l: f32) -> u8 {
    let f = if l <= 0.0031308 { l * 12.92 } else { 1.055 * l.powf(1.0 / 2.4) - 0.055 };
    (f * 255.0 + 0.5).clamp(0.0, 255.0) as u8
}

/// Mean of four sRGB channel values in linear light.
fn mean(a: u8, b: u8, c: u8, d: u8) -> u8 {
    let sum: f32 = [a, b, c, d].iter().map(|&v| to_linear(v)).sum();
    to_srgb(sum / 4.0)
}

fn array(image: u64) -> GpuArray {
    GpuArray { image, memory: image + 1, view: image + 2, sampler: image + 3 }
}

#[test]
fn capacity_is_next_power_of_two_at_least_64_capped_by_device() {
    assert_eq!(layer_capacity(1, 2048), MIN_LAYER_CAPACITY);
    assert_eq!(layer_capacity(63, 2048), 64);
    assert_eq!(layer_capacity(64, 2048), 64);
    assert_eq!(layer_capacity(65, 2048), 128);
    assert_eq!(layer_capacity(100, 2048), 128);
    assert_eq!(layer_capacity(200, 2048), 256);
    assert_eq!(layer_capacity(1, 32), 32);
    assert_eq!(layer_capacity(100, 96), 96);
    assert_eq!(layer_capacity(2048, 2048), 2048);
    assert_eq!(layer_capacity(3000, 2048), 2048);
    assert_eq!(layer_capacity(0, 2048), 64);
}

#[test]
fn layer_diff_detects_appends_and_in_place_changes() {
    let a = vec![vec![1, 2, 3, 4]];
    let b = vec![vec![1, 2, 3, 4], vec![5, 6, 7, 8]];
    assert_eq!(changed_layer_indices(&a, &b), vec![1]);
    let c = vec![vec![9, 9, 9, 9], vec![5, 6, 7, 8]];
    assert_eq!(changed_layer_indices(&a, &c), vec![0, 1]);
    assert!(changed_layer_indices(&b, &b).is_empty());
    let shorter = vec![vec![1, 2, 3, 4]];
    assert!(
        changed_layer_indices(&b, &shorter).is_empty(),
        "equal prefix on shrink is not a changed layer"
    );
    assert_eq!(
        changed_layer_indices(&b, &[vec![0, 0, 0, 0]]),
        vec![0],
        "changed prefix on shrink"
    );
}

#[test]
fn grow_plan_copies_prefix_and_stages_tail_or_size_change() {
    let old = vec![vec![1, 2, 3, 4], vec![5, 6, 7, 8]];
    let append = vec![vec![1, 2, 3, 4], vec![5, 6, 7, 8], vec![9, 9, 9, 9]];
    assert_eq!(grow_plan(16, 2, &old, 16, &append), (2, vec![2]));
    let changed = vec![vec![0, 0, 0, 0], vec![5, 6, 7, 8], vec![9, 9, 9, 9]];
    assert_eq!(grow_plan(16, 2, &old, 16, &changed), (2, vec![0, 2]));
    assert_eq!(
        grow_plan(1, 1, &[vec![255, 255, 255, 255]], 16, &append),
        (0, vec![0, 1, 2]),
        "texel-size change cannot GPU-copy"
    );
}

#[test]
fn consecutive_runs_groups_sparse_indices() {
    assert!(consecutive_runs(vec![]).is_empty());
    assert_eq!(consecutive_runs(vec![3]), vec![(3, 1)]);
    assert_eq!(consecutive_runs(vec![2, 3, 4, 7, 8, 10]), vec![(2, 3), (7, 2), (10, 1)]);
    assert_eq!(consecutive_runs(vec![5, 5, 4]), vec![(4, 2)]);
}

#[test]
fn mip_chain_halves_to_one() {
    let base = vec![255u8; 16 * 16 * 4];
    let chain = build_mip_chain(&base, 16, 5, &mean);
    assert_eq!(chain.len(), 5);
    let sizes: Vec<usize> = chain.iter().map(|m| m.len()).collect();
    assert_eq!(sizes, vec![16 * 16 * 4, 8 * 8 * 4, 4 * 4 * 4, 2 * 2 * 4, 4]);
    // White stays white through the box filter.
    assert!(chain.iter().all(|m| m.iter().all(|&b| b == 255)));
}

#[test]
fn mip_chain_averages_2x2() {
    // RGB averages in LINEAR light; a constant channel round-trips to itself
    // (within rounding). Alpha is linear coverage and averages arithmetically.
    let mut base = vec![0u8; 2 * 2 * 4];
    for t in 0..4 {
        base[t * 4] = 100; // r constant across the 2x2
    }
    base[3] = 0; // alpha: 0, 100, 100, 200 -> arithmetic mean 100
    base[7] = 100;
    base[11] = 100;
    base[15] = 200;
    let chain = build_mip_chain(&base, 2, 2, &mean);
    assert_eq!(chain[1].len(), 4);
    assert!((chain[1][0] as i32 - 100).abs() <= 1, "linear mean of a constant");
    assert_eq!(chain[1][1], 0);
    assert_eq!(chain[1][3], 100, "alpha arithmetic mean");
}

#[test]
fn mip_linear_mean_is_brighter_than_gamma_mean() {
    // 0 and 255 average to mid-gray in linear (~188 sRGB), well above the
    // naive gamma mean of ~128 — the whole point of linear downsampling.
    let mut base = vec![0u8; 2 * 2 * 4];
    for t in 0..4 {
        base[t * 4] = if t < 2 { 0 } else { 255 };
    }
    let chain = build_mip_chain(&base, 2, 2, &mean);
    assert!(chain[1][0] > 150, "got {}", chain[1][0]);
}

#[test]
fn mip_chain_single_texel() {
    let base = vec![7u8, 8, 9, 10];
    let chain = build_mip_chain(&base, 1, 1, &mean);
    assert_eq!(chain.len(), 1);
    assert_eq!(chain[0], base);
}

#[test]
fn odd_sides_clamp_to_the_last_texel() {
    // 3 -> 1: the two-by-two block at the origin, nothing past the edge.
    let mut base = vec![0u8; 3 * 3 * 4];
    for (i, t) in base.chunks_mut(4).enumerate() {
        t[3] = 10 * i as u8;
    }
    let chain = build_mip_chain(&base, 3, 2, &mean);
    assert_eq!(chain[1].len(), 4);
    // Texels 0, 1, 3 and 4: (0 + 10 + 30 + 40 + 2) / 4.
    assert_eq!(chain[1][3], 20);
}

#[test]
fn default_palette_is_one_white_texel() {
    assert_eq!(default_layers(), vec![vec![255u8; 4]]);
    let t = BlockTextures::new_default(array(10), 2048);
    assert_eq!(t.capacity(), 64);
    assert_eq!(t.palette(), [vec![255u8; 4]]);
    assert!(t.can_update_in_place(1, 64));
    assert!(!t.can_update_in_place(1, 65));
    assert!(!t.can_update_in_place(2, 1));
    assert!(!t.has_garbage());
}

#[test]
fn array_upload_stages_every_level_of_every_layer() {
    let layers = vec![vec![1u8; 16], vec![2u8; 16]];
    let up = array_upload(2, &layers, 2048, &mean);
    assert_eq!(up.format, FORMAT_R8G8B8A8_SRGB);
    assert_eq!(up.format, ash::vk::Format::R8G8B8A8_SRGB.as_raw());
    assert_eq!((up.extent.width, up.mip_levels, up.array_layers), (2, 2, 64));
    assert_eq!(up.bytes.len(), 2 * (16 + 4));
    // Level by level, the layers side by side: one region per level.
    assert_eq!(up.regions.len(), 2);
    assert_eq!(up.bytes[16..32], [2u8; 16]);
    assert_eq!(up.regions[1].buffer_offset, 32);
    let cmds = upload_image(&up, 7, 8);
    let barriers: Vec<_> = cmds
        .iter()
        .filter_map(|c| match c {
            Cmd::ImageBarrier(b) => Some((b.old_layout, b.new_layout, b.range.mips)),
            _ => None,
        })
        .collect();
    assert_eq!(
        barriers,
        vec![(0, LAYOUT_TRANSFER_DST, 2), (LAYOUT_TRANSFER_DST, LAYOUT_SHADER_READ_ONLY, 2)]
    );
    let regions = cmds.iter().filter(|c| matches!(c, Cmd::BufferImageRegion(_))).count();
    assert_eq!(regions, 2);
    assert!(cmds
        .iter()
        .any(|c| matches!(c, Cmd::CopyBufferToImage { buffer: 8, image: 7, .. })));
}

#[test]
fn flush_of_an_overwrite_goes_through_the_render_queue_first() {
    let mut t =
        BlockTextures::upload(array(10), 1, vec![vec![1u8; 4], vec![2u8; 4]], 2048);
    let lane = Lane { tier: Tier::DedicatedFamily, family: 3 };
    assert!(matches!(t.flush(None, lane, 0, &mean), TextureFlush::Idle));
    t.queue_set(&[vec![1u8; 4], vec![9u8; 4], vec![5u8; 4]]);
    assert!(t.has_overwrite_pending());
    match t.flush(None, lane, 0, &mean) {
        TextureFlush::Upload(u) => {
            assert!(u.on_lane);
            assert!(matches!(u.wait, ExtraWait::Release));
            assert!(!u.release.is_empty() && !u.acquire.is_empty());
            assert_eq!(u.bytes, [[9u8; 4], [5u8; 4]].concat());
        }
        _ => panic!("two layers changed"),
    }
    assert!(!t.has_overwrite_pending());
    assert_eq!(t.palette().len(), 3);
}

#[test]
fn growing_copies_what_was_written_and_retires_the_old_array() {
    let mut t = BlockTextures::upload(array(10), 1, vec![vec![1u8; 4]], 2048);
    let many: Vec<Vec<u8>> = (0..65u8).map(|i| vec![i.max(1); 4]).collect();
    assert!(!t.can_update_in_place(1, 65));
    t.queue_grow(1, many.clone());
    let shape = t.needed_array().unwrap();
    assert_eq!((shape.size, shape.capacity, shape.mip_levels), (1, 128, 1));
    let lane = Lane { tier: Tier::SameQueueFallback, family: 0 };
    match t.flush(Some(array(50)), lane, 0, &mean) {
        TextureFlush::Grow(g) => {
            assert_eq!(g.retired.image, 10);
            assert!(g
                .record
                .iter()
                .any(|c| matches!(c, Cmd::CopyImage { src: 10, dst: 50, .. })));
            assert_eq!(g.bytes.unwrap().len(), 64 * 4);
        }
        _ => panic!("a grow was queued"),
    }
    assert_eq!(t.capacity(), 128);
    assert_eq!(t.palette(), many);
    assert!(t.needed_array().is_none());
}

#[test]
fn appending_past_the_array_asks_for_a_larger_one() {
    let mut t = BlockTextures::upload(array(10), 1, vec![vec![1u8; 4]; 63], 2048);
    assert!(t.try_append(&[], 2048).is_ok());
    assert!(t.try_append(&[vec![2u8; 4]], 2048).is_ok());
    assert_eq!(t.palette().len(), 64);
    assert!(t.try_append(&[vec![3u8; 4]], 2048).is_err());
    assert_eq!(t.palette().len(), 64);
}

#[test]
fn appending_past_the_device_limit_is_truncated() {
    let mut t = BlockTextures::upload(array(10), 1, vec![vec![1u8; 4]], 2);
    assert!(t.try_append(&[vec![2u8; 4], vec![3u8; 4]], 2).is_ok());
    assert_eq!(t.palette(), [vec![1u8; 4], vec![2u8; 4]]);
}

#[test]
fn retired_staging_comes_back_once_its_value_is_reached() {
    let mut t = BlockTextures::new_default(array(10), 2048);
    t.retire_staging(5, 100, 101);
    t.retire_transfer(3, 200, 201);
    t.retire_release(6, 300, 301);
    assert!(t.has_garbage());
    let (staging, release) = t.collect(5);
    assert_eq!(staging, vec![(100, 101)]);
    assert!(release.is_empty());
    assert!(t.collect_transfer(2).is_empty());
    assert_eq!(t.collect_transfer(3), vec![(200, 201)]);
    let (_, release) = t.collect(6);
    assert_eq!(release, vec![(300, 301)]);
    assert!(!t.has_garbage());
}

#[test]
fn a_grow_copies_an_unchanged_layer_as_the_array_holds_it() {
    let mut t =
        BlockTextures::upload(array(10), 1, vec![vec![1u8; 4], vec![2u8; 4]], 2048);
    t.queue_set(&[vec![1u8; 4], vec![9u8; 4]]);
    let mut many: Vec<Vec<u8>> = vec![vec![5u8; 4]; 65];
    many[0] = vec![1u8; 4];
    many[1] = vec![9u8; 4];
    t.queue_grow(1, many.clone());
    assert!(!t.has_overwrite_pending());
    let lane = Lane { tier: Tier::SameQueueFallback, family: 0 };
    match t.flush(Some(array(50)), lane, 0, &mean) {
        // Both leading layers agree with the palette: only the tail is staged.
        TextureFlush::Grow(g) => assert_eq!(g.bytes.unwrap(), vec![5u8; 63 * 4]),
        _ => panic!("a grow was queued"),
    }
    assert_eq!(t.palette(), many);
}

#[test]
fn a_second_grow_takes_the_place_of_the_first() {
    let mut t = BlockTextures::upload(array(10), 1, vec![vec![1u8; 4]], 2048);
    let first: Vec<Vec<u8>> = vec![vec![7u8; 4]; 65];
    t.queue_grow(1, first.clone());
    let mut second = first;
    second.push(vec![8u8; 4]);
    t.queue_grow(1, second.clone());
    let lane = Lane { tier: Tier::SameQueueFallback, family: 0 };
    match t.flush(Some(array(50)), lane, 0, &mean) {
        TextureFlush::Grow(g) => {
            let bytes = g.bytes.unwrap();
            assert_eq!(bytes.len(), 65 * 4);
            assert_eq!((bytes[0], bytes[64 * 4]), (7, 8));
        }
        _ => panic!("a grow was queued"),
    }
    assert_eq!(t.palette(), second);
    assert!(t.needed_array().is_none());
}
