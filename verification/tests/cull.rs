use voxel_engine::arena::{ArenaBox, ArenaDirectory, CullDraw, MeshAabb};
use voxel_engine::commands::Cmd;
use voxel_engine::cull::{
    command_writes, cpu_cull_max, grown_capacity, runs_per_mesh, CullBuffers, CullParams,
    CullPlan, CullState, CULL_PARAM_WORDS,
};
use voxel_engine::cull_emit::{cpu_cull_into, CpuCullScratch, CullMode, SlotTests};
use voxel_engine::cull_math::{
    build_live_vis, camera_part, merge_face_runs, packed_face_bounds, shadow_part, slot_visible,
    DrawIndexedIndirect, FaceRun, Group, PartitionGpu, BUCKETS, CAMERA_GROUPS, CPU_CULL_MAX,
    FLAG_STATS, STATS_BYTES, STATS_COUNT,
};
use voxel_engine::draw_prep::{prepare_mesh_draws, BlendDraws};
use voxel_engine::handles::MeshStatsShared;
use voxel_engine::mesh::{Generation, Pass};

const FULL: bool = false;
const LOD: bool = true;
const SPLITS: [f32; 3] = [16.0, 64.0, 256.0];

/// A statistics cell that nobody reads.
fn cell() -> MeshStatsShared {
    MeshStatsShared::new(1024)
}

fn g1() -> Generation {
    Generation::new(1).unwrap()
}

fn bits(v: [f32; 3]) -> [u32; 3] {
    v.map(f32::to_bits)
}

/// A mesh record: its box in mesh units, and what is drawn of it.
#[derive(Clone, Copy)]
struct Rec {
    mn: [f32; 3],
    mx: [f32; 3],
    scale: f32,
    pass: Pass,
    index_count: u32,
    vertex_offset: i32,
    face_quads: [u32; 3],
    face_runs: bool,
}

fn opaque_rec(mn: [f32; 3], mx: [f32; 3]) -> Rec {
    Rec {
        mn,
        mx,
        scale: 1.0,
        pass: Pass::Opaque,
        index_count: 36,
        vertex_offset: 7,
        face_quads: [0; 3],
        face_runs: false,
    }
}

fn face_rec(mn: [f32; 3], mx: [f32; 3]) -> Rec {
    Rec {
        face_quads: [1 | (1 << 16), 1 | (1 << 16), 1 | (1 << 16)],
        face_runs: true,
        ..opaque_rec(mn, mx)
    }
}

fn rec_pass(mn: [f32; 3], mx: [f32; 3], pass: Pass, lod: bool) -> Rec {
    Rec { pass, scale: if lod { 2.0 } else { 1.0 }, ..opaque_rec(mn, mx) }
}

impl Rec {
    fn box_min(&self) -> [f32; 3] {
        self.mn.map(|v| v * self.scale)
    }

    fn box_max(&self) -> [f32; 3] {
        self.mx.map(|v| v * self.scale)
    }

    fn lod(&self) -> bool {
        self.scale > 1.0
    }

    fn aabb(&self) -> MeshAabb {
        MeshAabb { block: [0; 3], min: bits(self.box_min()), max: bits(self.box_max()) }
    }

    fn draw(&self) -> CullDraw {
        CullDraw {
            index_count: self.index_count,
            vertex_offset: self.vertex_offset,
            face_quads: self.face_quads,
            face_runs: self.face_runs,
        }
    }
}

fn expand(b: ArenaBox, m: MeshAabb) -> ArenaBox {
    let (mut min, mut max) = (b.min, b.max);
    for i in 0..3 {
        min[i] = f32::from_bits(b.min[i]).min(f32::from_bits(m.min[i])).to_bits();
        max[i] = f32::from_bits(b.max[i]).max(f32::from_bits(m.max[i])).to_bits();
    }
    ArenaBox { origin: b.origin, min, max }
}

fn reaches(b: ArenaBox, bucket: usize) -> bool {
    let (mut near, mut far) = (0.0f32, 0.0f32);
    for i in 0..3 {
        let (lo, hi) = (f32::from_bits(b.min[i]), f32::from_bits(b.max[i]));
        near += 0.0f32.clamp(lo, hi).powi(2);
        far += lo.abs().max(hi.abs()).powi(2);
    }
    let (dmin, dmax) = (near.sqrt(), far.sqrt());
    let lo = if bucket == 0 { 0.0 } else { SPLITS[bucket - 1] };
    match SPLITS.get(bucket) {
        Some(&hi) => dmax >= lo && dmin < hi,
        None => dmax >= lo,
    }
}

type Planes = [[f32; 4]; 5];

/// Sides and near plane of a camera at the origin that looks along -Z, with sixty
/// degrees of height at sixteen to nine.
fn look_neg_z() -> Planes {
    let ty = (30.0f32).to_radians().tan();
    let tx = ty * 16.0 / 9.0;
    [
        [1.0, 0.0, -tx, 0.0],
        [-1.0, 0.0, -tx, 0.0],
        [0.0, 1.0, -ty, 0.0],
        [0.0, -1.0, -ty, 0.0],
        [0.0, 0.0, -1.0, -0.1],
    ]
}

fn outside(plane: [f32; 4], mn: [f32; 3], mx: [f32; 3]) -> bool {
    let mut d = plane[3];
    for i in 0..3 {
        d += f32::max(plane[i] * mn[i], plane[i] * mx[i]);
    }
    d < 0.0
}

fn in_planes(planes: &Planes, mn: [f32; 3], mx: [f32; 3]) -> bool {
    planes.iter().all(|p| !outside(*p, mn, mx))
}

fn inside_slab(mn: [f32; 3], mx: [f32; 3], clip: f32, clip_v: f32) -> bool {
    if !(clip > 0.0 && clip_v > 0.0) {
        return false;
    }
    let far_x = mn[0].abs().max(mx[0].abs());
    let far_z = mn[2].abs().max(mx[2].abs());
    (far_x * far_x + far_z * far_z).sqrt() < clip && mn[1].abs().max(mx[1].abs()) < clip_v
}

fn distance_bucket(dist: f32) -> u32 {
    SPLITS.iter().filter(|&&s| dist * dist >= s * s).count() as u32
}

fn face_vis(mn: [f32; 3], mx: [f32; 3]) -> [bool; 6] {
    [mn[0] < 0.0, mn[1] < 0.0, mn[2] < 0.0, mx[0] > 0.0, mx[1] > 0.0, mx[2] > 0.0]
}

fn tests_of(
    rec: &Rec,
    camera: &Planes,
    shadow: Option<&[Planes; 2]>,
    clip: f32,
    clip_v: f32,
) -> SlotTests {
    let (mn, mx) = (rec.box_min(), rec.box_max());
    let c: Vec<f32> = (0..3).map(|i| 0.5 * (mn[i] + mx[i])).collect();
    let dist = (c[0] * c[0] + c[1] * c[1] + c[2] * c[2]).sqrt();
    SlotTests {
        in_camera: in_planes(camera, mn, mx),
        inside_slab: inside_slab(mn, mx, clip, clip_v),
        bucket: distance_bucket(dist),
        in_near: shadow.is_some_and(|s| in_planes(&s[0], mn, mx)),
        in_far: shadow.is_some_and(|s| in_planes(&s[1], mn, mx)),
        faces: face_vis(mn, mx),
    }
}

fn scratch() -> CpuCullScratch {
    CpuCullScratch { part_cmds: Vec::new(), counts: Vec::new(), live_vis: Vec::new() }
}

fn run_cpu(
    dir: &mut ArenaDirectory,
    records: &[Rec],
    visible: &[u32],
    camera: &Planes,
    face_cull: bool,
    clip: f32,
    clip_v: f32,
) -> (CpuCullScratch, [u32; 6]) {
    for (i, rec) in records.iter().enumerate() {
        dir.note_cull_draw(i as u32, rec.draw());
    }
    let mut parts = Vec::new();
    let table = dir.reachable_buckets(expand, reaches);
    dir.partitions_into(&mut parts, runs_per_mesh(face_cull), Some(&table));
    let tests: Vec<SlotTests> =
        records.iter().map(|r| tests_of(r, camera, None, clip, clip_v)).collect();
    let arrived = vec![true; records.len()];
    let mut s = scratch();
    let stats = cpu_cull_into(
        dir,
        &arrived,
        visible,
        &parts,
        &tests,
        dir.live_end(),
        CullMode { face: face_cull, shadow: false },
        &mut s,
    );
    (s, stats)
}

#[test]
fn stats_histogram_is_two_u32s_per_camera_group() {
    assert_eq!(STATS_COUNT, 6);
    assert_eq!(STATS_BYTES, 24);
    assert_eq!(FLAG_STATS, 1);
}

#[test]
fn cull_params_std140_tail_is_slab_extents() {
    let p = CullParams {
        cam_planes: [0; 20],
        shadow_planes: [0; 40],
        cam_block: [0; 3],
        slot_count: 0,
        cam_frac: [0; 3],
        arena_count: 0,
        shadow: false,
        face_cull: false,
        clip: 0x1111_1111,
        clip_v: 0x2222_2222,
    };
    let bytes = p.bytes();
    assert_eq!(bytes.len(), 288);
    assert_eq!(CULL_PARAM_WORDS * 4, 288);
    assert_eq!(bytes[276..280], [0; 4]);
    assert_eq!(bytes[280..284], [0x11; 4]);
    assert_eq!(bytes[284..288], [0x22; 4]);
}

#[test]
fn params_words_follow_the_shader_layout() {
    let mut cam_planes = [0u32; 20];
    cam_planes[19] = 5;
    let mut shadow_planes = [0u32; 40];
    shadow_planes[0] = 6;
    let p = CullParams {
        cam_planes,
        shadow_planes,
        cam_block: [1, 2, 3],
        slot_count: 9,
        cam_frac: [4, 5, 6],
        arena_count: 2,
        shadow: true,
        face_cull: true,
        clip: 7,
        clip_v: 8,
    };
    let w = p.words();
    assert_eq!(w.len(), 72);
    assert_eq!((w[19], w[20]), (5, 6));
    assert_eq!(w[60..64], [1, 2, 3, 9]);
    assert_eq!(w[64..68], [4, 5, 6, 2]);
    assert_eq!((w[70], w[71]), (7, 8));
}

#[test]
fn group_order_is_the_partition_table_order() {
    for (i, g) in Group::all().iter().enumerate() {
        assert_eq!(*g as usize, i);
    }
    assert_eq!(CAMERA_GROUPS, Group::all().len());
}

#[test]
fn cpu_cull_emits_a_mesh_in_front_and_skips_one_behind() {
    let camera = look_neg_z();
    let front = opaque_rec([-1.0, -1.0, -11.0], [1.0, 1.0, -9.0]);
    let behind = opaque_rec([-1.0, -1.0, 9.0], [1.0, 1.0, 11.0]);
    assert!(in_planes(&camera, front.mn, front.mx));
    assert!(!in_planes(&camera, behind.mn, behind.mx));

    let mut dir = ArenaDirectory::new();
    dir.note_upload(0, g1(), 1, Pass::Opaque, FULL, front.aabb(), expand, &mut cell());
    let (s, stats) = run_cpu(&mut dir, &[front], &[1], &camera, false, 0.0, 0.0);
    let idx = camera_part(0, 0, 0, 1);
    assert_eq!(
        s.part_cmds[idx],
        [DrawIndexedIndirect {
            index_count: 36,
            instance_count: 1,
            first_index: 0,
            vertex_offset: 7,
            first_instance: 0,
        }]
    );
    assert_eq!(stats[0], 1);
    assert_eq!(stats[1], 36);

    let mut dir = ArenaDirectory::new();
    dir.note_upload(0, g1(), 1, Pass::Opaque, FULL, behind.aabb(), expand, &mut cell());
    let (s, stats) = run_cpu(&mut dir, &[behind], &[1], &camera, false, 0.0, 0.0);
    assert!(s.counts.iter().all(|&c| c == 0));
    assert_eq!(stats, [0; STATS_COUNT]);
}

#[test]
fn cpu_cull_keeps_a_box_that_straddles_the_near_plane() {
    let camera = look_neg_z();
    let rec = opaque_rec([-1.0, -1.0, -5.0], [1.0, 1.0, 5.0]);
    assert!(in_planes(&camera, rec.mn, rec.mx));
    let mut dir = ArenaDirectory::new();
    dir.note_upload(0, g1(), 1, Pass::Opaque, FULL, rec.aabb(), expand, &mut cell());
    let (s, _) = run_cpu(&mut dir, &[rec], &[1], &camera, false, 0.0, 0.0);
    assert_eq!(s.part_cmds[camera_part(0, 0, 0, 1)].len(), 1);
}

#[test]
fn cpu_cull_honours_the_visible_bitset() {
    let camera = look_neg_z();
    let rec = opaque_rec([-1.0, -1.0, -11.0], [1.0, 1.0, -9.0]);
    let mut dir = ArenaDirectory::new();
    dir.note_upload(0, g1(), 1, Pass::Opaque, FULL, rec.aabb(), expand, &mut cell());
    let (s, _) = run_cpu(&mut dir, &[rec], &[0], &camera, false, 0.0, 0.0);
    assert!(s.counts.iter().all(|&c| c == 0));
}

#[test]
fn cpu_cull_merges_face_runs_for_a_known_visibility_pattern() {
    let camera = look_neg_z();
    // In front, entirely in −X of the camera. vis = [T,T,T,F,T,F]:
    // +X +Y +Z merge, −Y is a second run, −X and −Z empty.
    let rec = face_rec([-10.0, -1.0, -15.0], [-5.0, 1.0, -10.0]);
    let vis = face_vis(rec.mn, rec.mx);
    assert_eq!(vis, [true, true, true, false, true, false]);
    let mut dir = ArenaDirectory::new();
    dir.note_upload(0, g1(), 1, Pass::Opaque, FULL, rec.aabb(), expand, &mut cell());
    let (s, stats) = run_cpu(&mut dir, &[rec], &[1], &camera, true, 0.0, 0.0);
    let got = &s.part_cmds[camera_part(0, 0, 0, 1)];
    assert_eq!(
        *got,
        [
            DrawIndexedIndirect {
                index_count: 18,
                instance_count: 1,
                first_index: 0,
                vertex_offset: 7,
                first_instance: 0,
            },
            DrawIndexedIndirect {
                index_count: 6,
                instance_count: 1,
                first_index: 24,
                vertex_offset: 7,
                first_instance: 0,
            },
        ]
    );
    assert_eq!(stats[0], 2);
    assert_eq!(stats[1], 24);
}

#[test]
fn cpu_cull_falls_back_to_a_whole_mesh_command_when_the_flag_is_clear() {
    let camera = look_neg_z();
    let rec = opaque_rec([-10.0, -1.0, -15.0], [-5.0, 1.0, -10.0]);
    let mut dir = ArenaDirectory::new();
    dir.note_upload(0, g1(), 1, Pass::Opaque, FULL, rec.aabb(), expand, &mut cell());
    let (s, _) = run_cpu(&mut dir, &[rec], &[1], &camera, true, 0.0, 0.0);
    assert_eq!(
        s.part_cmds[camera_part(0, 0, 0, 1)],
        [DrawIndexedIndirect {
            index_count: 36,
            instance_count: 1,
            first_index: 0,
            vertex_offset: 7,
            first_instance: 0,
        }]
    );
}

#[test]
fn cpu_and_independent_bucket_run_logic_agree() {
    // Independent: count how many splits a distance has crossed.
    let bucket_naive =
        |dist: f32| SPLITS.iter().filter(|&&s| dist >= s).count().min(BUCKETS - 1) as u32;
    for dist in [0.0, 15.99, 16.0, 63.99, 64.0, 255.99, 256.0, 1.0e6] {
        assert_eq!(distance_bucket(dist), bucket_naive(dist), "dist={dist}");
    }
    // Independent: walk occupied faces and group consecutive runs.
    let runs_naive = |vis: [bool; 6], bounds: [u32; 7]| {
        let occ: [bool; 6] = std::array::from_fn(|k| vis[k] && bounds[k + 1] != bounds[k]);
        let mut out = Vec::new();
        let mut k = 0;
        while k < 6 {
            if !occ[k] {
                k += 1;
                continue;
            }
            let start = k;
            while k < 6 && occ[k] {
                k += 1;
            }
            out.push(FaceRun {
                first_index: bounds[start],
                index_count: bounds[k] - bounds[start],
            });
        }
        out
    };
    let bounds = packed_face_bounds([1 | (1 << 16), 1 | (1 << 16), 1 | (1 << 16)]);
    assert_eq!(bounds, [0, 6, 12, 18, 24, 30, 36]);
    // Empty +X (bit 0) so some patterns have a hole.
    let bounds_hole = packed_face_bounds([1 << 16, 1 | (1 << 16), 1 | (1 << 16)]);
    for vis_bits in 0..64u8 {
        let vis: [bool; 6] = std::array::from_fn(|i| vis_bits & (1 << i) != 0);
        for b in [bounds, bounds_hole] {
            let mut got = [FaceRun { first_index: 0, index_count: 0 }; 3];
            let n = merge_face_runs(vis, b, &mut got);
            assert_eq!(got[..n], runs_naive(vis, b)[..], "vis={vis_bits} bounds={b:?}");
        }
    }
}

#[test]
fn cpu_cull_skips_lod_meshes_fully_inside_the_slab() {
    let camera = look_neg_z();
    let rec = rec_pass([-1.0, -1.0, -11.0], [1.0, 1.0, -9.0], Pass::Opaque, LOD);
    assert!(rec.scale > 1.0);
    assert!(inside_slab(rec.box_min(), rec.box_max(), 100.0, 100.0));
    let mut dir = ArenaDirectory::new();
    dir.note_upload(0, g1(), 1, Pass::Opaque, LOD, rec.aabb(), expand, &mut cell());
    let (s, stats) = run_cpu(&mut dir, &[rec], &[1], &camera, false, 100.0, 100.0);
    assert!(s.counts.iter().all(|&c| c == 0));
    assert_eq!(stats, [0; STATS_COUNT]);
}

#[test]
fn cpu_cull_max_defaults_to_1024_and_parses_env() {
    assert_eq!(CPU_CULL_MAX, 1024);
    assert_eq!(cpu_cull_max(None), CPU_CULL_MAX);
    assert_eq!(cpu_cull_max(Some("512")), 512);
    assert_eq!(cpu_cull_max(Some("0")), 0);
    assert_eq!(cpu_cull_max(Some("many")), CPU_CULL_MAX);
    assert_eq!(cpu_cull_max(Some("4294967296")), CPU_CULL_MAX);
}

/// Mixed synthetic slot table: holes, Blend, LOD, face-runs, Cutout,
/// two arenas, some hidden, some not-yet-arrived.
fn synthetic_slots() -> (ArenaDirectory, Vec<Option<Rec>>, Vec<u32>, Vec<bool>) {
    const N: usize = 64;
    let mut dir = ArenaDirectory::new();
    let mut records: Vec<Option<Rec>> = vec![None; N];
    let mut arrived = vec![true; N];
    let mut vis_bits = vec![0u32; N.div_ceil(32)];
    for slot in 0..N as u32 {
        vis_bits[(slot >> 5) as usize] |= 1 << (slot & 31);
    }
    for slot in 0..N as u32 {
        let i = slot as usize;
        let z = -10.0 - (slot % 17) as f32 * 8.0;
        let mn = [-1.0, -1.0, z - 1.0];
        let mx = [1.0, 1.0, z + 1.0];
        let rec = match slot % 7 {
            0 => opaque_rec([mn[0], mn[1], 9.0], [mx[0], mx[1], 11.0]), // behind
            1 => rec_pass(mn, mx, Pass::Cutout, false),
            2 => rec_pass(mn, mx, Pass::Opaque, true),
            3 => face_rec(mn, mx),
            4 => rec_pass(mn, mx, Pass::Blend, false),
            5 if slot % 5 == 0 => continue, // hole
            _ => opaque_rec(mn, mx),
        };
        records[i] = Some(rec);
        let buf_id = 1 + u64::from(slot % 2);
        dir.note_upload(slot, g1(), buf_id, rec.pass, rec.lod(), rec.aabb(), expand, &mut cell());
        if slot % 11 == 0 {
            vis_bits[(slot >> 5) as usize] &= !(1 << (slot & 31));
        }
        if slot % 13 == 0 {
            arrived[i] = false;
        }
    }
    for (i, rec) in records.iter().enumerate() {
        if let Some(rec) = rec {
            dir.note_cull_draw(i as u32, rec.draw());
        }
    }
    (dir, records, vis_bits, arrived)
}

/// Slot by slot from the records, without the directory's tables: the commands of
/// each partition, the counts and the histogram.
#[allow(clippy::too_many_arguments)]
fn by_record(
    records: &[Option<Rec>],
    dir: &ArenaDirectory,
    arrived: &[bool],
    visible: &[u32],
    parts: &[PartitionGpu],
    camera: &Planes,
    shadow: Option<&[Planes; 2]>,
    clip: f32,
    clip_v: f32,
    face_cull: bool,
) -> (Vec<Vec<DrawIndexedIndirect>>, Vec<u32>, [u32; 6]) {
    let mut cmds = vec![Vec::new(); parts.len()];
    let mut counts = vec![0u32; parts.len()];
    let mut stats = [0u32; STATS_COUNT];
    let arenas = dir.arena_count();
    let mut emit = |part: usize, cmd: DrawIndexedIndirect| {
        if counts[part] < parts[part].capacity {
            cmds[part].push(cmd);
        }
        counts[part] += 1;
    };
    for slot in 0..dir.live_end() {
        let i = slot as usize;
        let word = dir.arena_word(i);
        let Some(rec) = records[i] else { continue };
        let seen = slot_visible(visible, slot);
        if !arrived[i] || word == 0 || (!seen && shadow.is_none()) || rec.pass == Pass::Blend {
            continue;
        }
        let arena = (word - 1) as usize;
        let (mn, mx) = (rec.box_min(), rec.box_max());
        let whole = DrawIndexedIndirect {
            index_count: rec.index_count,
            instance_count: 1,
            first_index: 0,
            vertex_offset: rec.vertex_offset,
            first_instance: slot,
        };
        if seen && in_planes(camera, mn, mx) {
            let group = match rec.pass {
                Pass::Opaque if rec.lod() => 2,
                Pass::Opaque => 0,
                _ => 1,
            };
            if group != 2 || !inside_slab(mn, mx, clip, clip_v) {
                let c: Vec<f32> = (0..3).map(|k| 0.5 * (mn[k] + mx[k])).collect();
                let dist = (c[0] * c[0] + c[1] * c[1] + c[2] * c[2]).sqrt();
                let part = camera_part(group, arena, distance_bucket(dist) as usize, arenas);
                if !face_cull || !rec.face_runs {
                    emit(part, whole);
                    stats[group * 2] += 1;
                    stats[group * 2 + 1] += whole.index_count;
                } else {
                    let mut runs = [FaceRun { first_index: 0, index_count: 0 }; 3];
                    let bounds = packed_face_bounds(rec.face_quads);
                    let n = merge_face_runs(face_vis(mn, mx), bounds, &mut runs);
                    for run in runs.iter().take(n) {
                        emit(
                            part,
                            DrawIndexedIndirect {
                                first_index: run.first_index,
                                index_count: run.index_count,
                                ..whole
                            },
                        );
                        stats[group * 2] += 1;
                        stats[group * 2 + 1] += run.index_count;
                    }
                }
            }
        }
        if rec.pass == Pass::Opaque && !rec.lod() {
            if let Some(planes) = shadow {
                for (c, p) in planes.iter().enumerate() {
                    if in_planes(p, mn, mx) {
                        emit(shadow_part(c, arena, arenas), whole);
                    }
                }
            }
        }
    }
    (cmds, counts, stats)
}

#[test]
fn cpu_cull_new_matches_legacy_emission() {
    let camera = look_neg_z();
    let shadow_frusta = [look_neg_z(), look_neg_z()];
    let (mut dir, records, visible, arrived) = synthetic_slots();
    for face_cull in [false, true] {
        for with_shadow in [false, true] {
            for (clip, clip_v) in [(0.0, 0.0), (40.0, 40.0)] {
                let mut parts = Vec::new();
                let table = dir.reachable_buckets(expand, reaches);
                dir.partitions_into(&mut parts, runs_per_mesh(face_cull), Some(&table));
                let shadow = with_shadow.then_some(&shadow_frusta);
                let (old_cmds, old_counts, old_stats) = by_record(
                    &records, &dir, &arrived, &visible, &parts, &camera, shadow, clip, clip_v,
                    face_cull,
                );
                let hidden = opaque_rec([0.0; 3], [0.0; 3]);
                let tests: Vec<SlotTests> = records
                    .iter()
                    .map(|r| tests_of(&r.unwrap_or(hidden), &camera, shadow, clip, clip_v))
                    .collect();
                let mut s = scratch();
                let stats = cpu_cull_into(
                    &dir,
                    &arrived,
                    &visible,
                    &parts,
                    &tests,
                    dir.live_end(),
                    CullMode { face: face_cull, shadow: with_shadow },
                    &mut s,
                );
                assert_eq!(s.counts, old_counts, "per-partition counts");
                assert_eq!(stats, old_stats, "stats histogram");
                assert_eq!(s.counts.len(), parts.len());
                for i in 0..parts.len() {
                    assert_eq!(s.part_cmds[i], old_cmds[i], "partition {i} commands");
                }
                // No partition overflows.
                for (c, p) in s.counts.iter().zip(&parts) {
                    assert!(*c <= p.capacity);
                }
                assert!(stats[0] > 0 && stats[2] > 0 && stats[4] > 0 || clip > 0.0);
            }
        }
    }
}

#[test]
fn live_vis_narrows_to_visible_unless_shadows_are_drawn() {
    let mut out = Vec::new();
    build_live_vis(&[0b1111, 0xFFFF_FFFF], &[0b0101], 34, false, &mut out);
    assert_eq!(out, vec![0b0101, 0]);
    build_live_vis(&[0b1111, 0xFFFF_FFFF], &[0b0101], 34, true, &mut out);
    assert_eq!(out, vec![0b1111, 0b11]);
    build_live_vis(&[0b1111], &[], 0, true, &mut out);
    assert!(out.is_empty());
}

#[test]
fn device_buffers_grow_by_powers_of_two() {
    assert_eq!(grown_capacity(4096, 4096), None);
    let grown = grown_capacity(4096, 5000).unwrap();
    assert!(grown >= 5000 && grown.is_power_of_two());
}

#[test]
fn host_writes_are_one_range_per_partition() {
    let cmd = |n: u32| DrawIndexedIndirect {
        index_count: n,
        instance_count: 1,
        first_index: 2,
        vertex_offset: -3,
        first_instance: 4,
    };
    let parts = vec![
        PartitionGpu { offset: 0, capacity: 2 },
        PartitionGpu { offset: 2, capacity: 1 },
        PartitionGpu { offset: 3, capacity: 4 },
    ];
    let cmds = vec![vec![cmd(1)], Vec::new(), vec![cmd(5), cmd(6)]];
    let writes = command_writes(&parts, &cmds);
    assert_eq!(writes.len(), 2);
    assert_eq!(writes[0].offset, 0);
    assert_eq!(writes[0].bytes.len(), 20);
    assert_eq!(writes[0].bytes[0..4], 1u32.to_ne_bytes());
    assert_eq!(writes[0].bytes[12..16], (-3i32).to_ne_bytes());
    assert_eq!(writes[1].offset, 60);
    assert_eq!(writes[1].bytes.len(), 40);
    assert_eq!(writes[1].bytes[20..24], 6u32.to_ne_bytes());
}

#[test]
fn small_scenes_are_culled_on_the_host() {
    let camera = look_neg_z();
    let rec = opaque_rec([-1.0, -1.0, -11.0], [1.0, 1.0, -9.0]);
    let mut dir = ArenaDirectory::new();
    let mut parts = Vec::new();
    let mut state = CullState::new(1, 2, None);
    state.set_face_cull(false);
    let plan = state.prepare(0, &dir, &[], &[], &[], 0, false, None, &mut parts);
    assert!(matches!(plan, CullPlan::Nothing));

    dir.note_upload(0, g1(), 1, Pass::Opaque, FULL, rec.aabb(), expand, &mut cell());
    dir.note_cull_draw(0, rec.draw());
    let tests = [tests_of(&rec, &camera, None, 0.0, 0.0)];
    match state.prepare(1, &dir, &[true], &[1], &tests, 1, false, None, &mut parts) {
        CullPlan::Host { total, writes, counts } => {
            assert_eq!(total, 6);
            assert_eq!(writes.len(), 1);
            assert_eq!(counts.len(), 4 * parts.len());
        }
        _ => panic!("one mesh fits the host"),
    }
    assert_eq!(state.stats(1), [1, 36, 0, 0, 0, 0]);
    assert_eq!(state.stats(0), [0; STATS_COUNT]);
    state.clear_stats_cpu(1);
    assert_eq!(state.stats(1), [0; STATS_COUNT]);
    let mut on_device = CullState::new(1, 2, Some("0"));
    on_device.set_face_cull(false);
    match on_device.prepare(0, &dir, &[true], &[1], &tests, 1, false, None, &mut parts) {
        CullPlan::Device { total, partitions, visible } => {
            assert_eq!(total, 6);
            assert_eq!(partitions.len(), 8 * parts.len());
            assert_eq!(visible, 1u32.to_ne_bytes());
        }
        _ => panic!("above the limit the device culls"),
    }
}

fn no_blend() -> BlendDraws {
    BlendDraws { order: Vec::new(), commands: Vec::new(), runs: Vec::new() }
}

#[test]
fn a_frame_without_a_camera_culls_nothing() {
    let camera = look_neg_z();
    let rec = opaque_rec([-1.0, -1.0, -11.0], [1.0, 1.0, -9.0]);
    let mut dir = ArenaDirectory::new();
    dir.note_upload(0, g1(), 1, Pass::Opaque, FULL, rec.aabb(), expand, &mut cell());
    dir.note_cull_draw(0, rec.draw());
    let tests = [tests_of(&rec, &camera, None, 0.0, 0.0)];
    let mut state = CullState::new(1, 2, None);
    let mut parts = vec![PartitionGpu { offset: 3, capacity: 4 }];
    let mut mask = Vec::new();
    let mut blend = no_blend();
    blend.commands.push(DrawIndexedIndirect {
        index_count: 6,
        instance_count: 1,
        first_index: 0,
        vertex_offset: 0,
        first_instance: 9,
    });
    let d = prepare_mesh_draws(
        &mut state, 0, &dir, false, Some(1), &mut mask, &[true], &tests, false, None, &mut parts,
        &blend,
    );
    assert!(d.cull.is_none());
    assert!(parts.is_empty());
    assert_eq!(d.blend.len(), 20);
    assert_eq!(d.blend[16..], 9u32.to_ne_bytes());
    let d = prepare_mesh_draws(
        &mut state, 0, &dir, true, Some(40), &mut mask, &[true], &tests, false, None, &mut parts,
        &no_blend(),
    );
    assert!(d.blend.is_empty());
    // The mask was grown to cover the one live slot, hidden.
    assert_eq!(mask, vec![0]);
    assert!(matches!(d.cull, Some(CullPlan::Host { writes, .. }) if writes.is_empty()));
    mask[0] = 1;
    let d = prepare_mesh_draws(
        &mut state, 0, &dir, true, Some(40), &mut mask, &[true], &tests, false, None, &mut parts,
        &no_blend(),
    );
    assert!(matches!(d.cull, Some(CullPlan::Host { writes, .. }) if writes.len() == 1));
}

#[test]
fn the_dispatch_covers_the_slots_in_whole_groups() {
    let state = CullState::new(1, 2, None);
    let b = CullBuffers {
        records: 10,
        arenas: 11,
        parts: 12,
        commands: 13,
        counts: 14,
        params: 15,
        visible: 16,
        stats: 17,
        stats_host: 18,
    };
    assert!(state.record(b, 65, 64, true, true).is_empty());
    let cmds = state.record(b, 65, 64, false, true);
    assert!(cmds.iter().any(|c| matches!(c, Cmd::Dispatch { x: 2, y: 1, z: 1 })));
    assert!(cmds.iter().any(|c| matches!(c, Cmd::CopyBuffer { src: 17, dst: 18 })));
    let plain = state.record(b, 64, 64, false, false);
    assert!(plain.iter().any(|c| matches!(c, Cmd::Dispatch { x: 1, y: 1, z: 1 })));
    assert!(!plain.iter().any(|c| matches!(c, Cmd::CopyBuffer { .. })));
}

#[test]
fn merging_leaves_the_entries_behind_the_last_run() {
    let mark = FaceRun { first_index: 77, index_count: 78 };
    let mut out = [mark; 3];
    let n = merge_face_runs(
        [true, true, false, false, false, false],
        [0, 6, 12, 18, 24, 30, 36],
        &mut out,
    );
    assert_eq!(n, 1);
    assert_eq!(out, [FaceRun { first_index: 0, index_count: 12 }, mark, mark]);
}

#[test]
fn what_the_scratch_held_has_no_effect() {
    let draw = DrawIndexedIndirect {
        index_count: 9,
        instance_count: 9,
        first_index: 9,
        vertex_offset: 9,
        first_instance: 9,
    };
    let rec = opaque_rec([-1.0, -1.0, -11.0], [1.0, 1.0, -9.0]);
    let mut dir = ArenaDirectory::new();
    for slot in 0..3 {
        dir.note_upload(slot, g1(), 1, Pass::Opaque, FULL, rec.aabb(), expand, &mut cell());
        dir.note_cull_draw(slot, rec.draw());
    }
    let mut parts = Vec::new();
    dir.partitions_into(&mut parts, 1, None);
    let tests = [tests_of(&rec, &look_neg_z(), None, 0.0, 0.0); 3];
    let mode = CullMode { face: false, shadow: false };
    let mut fresh = scratch();
    let mut used = CpuCullScratch {
        part_cmds: vec![vec![draw; 5]; 20],
        counts: vec![77; 3],
        live_vis: vec![u32::MAX; 4],
    };
    // The third slot is hidden, the second has not arrived.
    let arrived = [true, false, true];
    let a = cpu_cull_into(&dir, &arrived, &[0b011], &parts, &tests, 3, mode, &mut fresh);
    let b = cpu_cull_into(&dir, &arrived, &[0b011], &parts, &tests, 3, mode, &mut used);
    assert_eq!((a, b), ([1, 36, 0, 0, 0, 0], [1, 36, 0, 0, 0, 0]));
    assert_eq!(fresh.counts, used.counts);
    assert_eq!(fresh.live_vis, used.live_vis);
    assert_eq!(fresh.part_cmds[..parts.len()], used.part_cmds[..parts.len()]);
}
