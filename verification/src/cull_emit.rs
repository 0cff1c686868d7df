//! CPU command emission: which draw commands a cull pass writes into which
//! partition, given the geometric verdicts for every slot.

use vstd::prelude::*;

use crate::arena;
use crate::arena::ArenaDirectory;
use crate::cull_math;
use crate::cull_math::{DrawIndexedIndirect, FaceRun, PartitionGpu};

verus! {

/// The geometric verdicts for one slot's box.
#[derive(Clone, Copy, Debug, PartialEq, Eq)]
pub struct SlotTests {
    /// Inside the camera frustum.
    pub in_camera: bool,
    /// Every fragment would fall to the coarse-LOD slab clip.
    pub inside_slab: bool,
    /// Distance bucket of the box centre.
    pub bucket: u32,
    /// Inside the near and the far shadow frustum.
    pub in_near: bool,
    pub in_far: bool,
    /// Which of the six faces can be seen.
    pub faces: [bool; 6],
}

/// Per-partition command lists and counts, kept across frames.
pub struct CpuCullScratch {
    pub part_cmds: Vec<Vec<DrawIndexedIndirect>>,
    pub counts: Vec<u32>,
    pub live_vis: Vec<u32>,
}

/// A command, the partition it goes to and the camera group it is counted in.
pub type Emission = (int, Option<int>, DrawIndexedIndirect);

/// What a cull pass runs with: merge face runs, and emit shadow casters.
#[derive(Clone, Copy, Debug, PartialEq, Eq, Structural)]
pub struct CullMode {
    pub face: bool,
    pub shadow: bool,
}

pub open spec fn bits_pass(bits: u32) -> u32 {
    (bits >> 20u32) & 3
}

pub open spec fn bits_lod(bits: u32) -> bool {
    bits & 0x40_0000 != 0
}

pub open spec fn bits_face(bits: u32) -> bool {
    bits & 0x80_0000 != 0
}

/// The camera group that a slot's bits select.
pub open spec fn bits_group(bits: u32) -> int {
    if bits_pass(bits) == 0 && bits_lod(bits) {
        2
    } else {
        bits_pass(bits) as int
    }
}

pub open spec fn bits_arena(bits: u32) -> int {
    (bits & 0x000F_FFFF) - 1
}

/// The whole-mesh command of `slot`.
pub open spec fn slot_cmd(dir: &ArenaDirectory, slot: int) -> DrawIndexedIndirect {
    DrawIndexedIndirect {
        index_count: dir.cull_index_count[slot],
        instance_count: 1,
        first_index: 0,
        vertex_offset: dir.cull_vertex_offset[slot],
        first_instance: slot as u32,
    }
}

pub open spec fn run_cmd(cmd: DrawIndexedIndirect, run: FaceRun) -> DrawIndexedIndirect {
    DrawIndexedIndirect { first_index: run.first_index, index_count: run.index_count, ..cmd }
}

pub open spec fn bounds_of(quads: Seq<u32>) -> Seq<u32> {
    Seq::new(7, |k: int| cull_math::face_start(quads, k) as u32)
}

/// The commands that draw `slot` for the camera.
pub open spec fn camera_cmds(dir: &ArenaDirectory, mode: CullMode, t: SlotTests, slot: int) -> Seq<
    DrawIndexedIndirect,
> {
    let cmd = slot_cmd(dir, slot);
    if mode.face && bits_face(dir.cull_bits[slot]) {
        let runs = cull_math::face_runs(t.faces@, bounds_of(dir.cull_face_quads[slot]@), 6);
        Seq::new(runs.len(), |k: int| run_cmd(cmd, runs[k]))
    } else {
        seq![cmd]
    }
}

/// The camera draws `slot`: seen, inside the frustum, and not clipped away as a
/// coarse LOD.
pub open spec fn camera_draws(
    dir: &ArenaDirectory,
    visible: Seq<u32>,
    mode: CullMode,
    t: SlotTests,
    slot: int,
) -> bool {
    &&& !mode.shadow || cull_math::mask_bit(visible, slot)
    &&& t.in_camera
    &&& bits_group(dir.cull_bits[slot]) != 2 || !t.inside_slab
}

/// `slot` can cast into the shadow cascades: full-resolution opaque.
pub open spec fn casts(dir: &ArenaDirectory, mode: CullMode, slot: int) -> bool {
    mode.shadow && bits_pass(dir.cull_bits[slot]) == 0 && !bits_lod(dir.cull_bits[slot])
}

/// Everything that `slot` emits: camera runs, then near and far shadow.
pub open spec fn slot_emissions(
    dir: &ArenaDirectory,
    visible: Seq<u32>,
    mode: CullMode,
    t: SlotTests,
    slot: int,
) -> Seq<Emission> {
    let bits = dir.cull_bits[slot];
    let n = dir.buffers.len() as int;
    let group = bits_group(bits);
    let arena = bits_arena(bits);
    let cmd = slot_cmd(dir, slot);
    let cmds = camera_cmds(dir, mode, t, slot);
    let part = cull_math::camera_part_spec(group, arena, t.bucket as int, n);
    let camera = if camera_draws(dir, visible, mode, t, slot) {
        Seq::new(cmds.len(), |k: int| (part, Some(group), cmds[k]))
    } else {
        Seq::empty()
    };
    let near: Seq<Emission> = if casts(dir, mode, slot) && t.in_near {
        seq![(cull_math::shadow_part_spec(0, arena, n), None::<int>, cmd)]
    } else {
        Seq::empty()
    };
    let far: Seq<Emission> = if casts(dir, mode, slot) && t.in_far {
        seq![(cull_math::shadow_part_spec(1, arena, n), None::<int>, cmd)]
    } else {
        Seq::empty()
    };
    camera + near + far
}

/// The emissions of the slots below `n` that the mask walks and whose bytes
/// have arrived.
pub open spec fn emissions(
    dir: &ArenaDirectory,
    walk: Seq<u32>,
    arrived: Seq<bool>,
    visible: Seq<u32>,
    mode: CullMode,
    tests: Seq<SlotTests>,
    n: int,
) -> Seq<Emission>
    decreases n,
{
    if n <= 0 {
        Seq::empty()
    } else {
        let before = emissions(dir, walk, arrived, visible, mode, tests, n - 1);
        if cull_math::mask_bit(walk, n - 1) && arrived[n - 1] {
            before + slot_emissions(dir, visible, mode, tests[n - 1], n - 1)
        } else {
            before
        }
    }
}

/// What a plain walk emits for `slot`, read off its registration alone: nothing
/// unless it is registered in a camera lane, then the camera's commands if it is
/// visible and passes, then one command per cascade it casts into.
pub open spec fn plain_slot(
    dir: &ArenaDirectory,
    visible: Seq<u32>,
    mode: CullMode,
    t: SlotTests,
    slot: int,
) -> Seq<Emission> {
    match dir.slots[slot] {
        Some(arena::Placement { arena: a, lane: Some(lane), .. }) => {
            let n = dir.buffers.len() as int;
            let cmd = slot_cmd(dir, slot);
            let cmds = camera_cmds(dir, mode, t, slot);
            let part = cull_math::camera_part_spec(lane as int, a as int, t.bucket as int, n);
            let camera = if cull_math::mask_bit(visible, slot) && t.in_camera && (lane != 2
                || !t.inside_slab) {
                Seq::new(cmds.len(), |k: int| (part, Some(lane as int), cmds[k]))
            } else {
                Seq::empty()
            };
            let near: Seq<Emission> = if mode.shadow && lane == 0 && t.in_near {
                seq![(cull_math::shadow_part_spec(0, a as int, n), None::<int>, cmd)]
            } else {
                Seq::empty()
            };
            let far: Seq<Emission> = if mode.shadow && lane == 0 && t.in_far {
                seq![(cull_math::shadow_part_spec(1, a as int, n), None::<int>, cmd)]
            } else {
                Seq::empty()
            };
            camera + near + far
        },
        _ => Seq::empty(),
    }
}

/// The emissions of a plain walk over every slot below `n`, with no mask.
pub open spec fn plain_emissions(
    dir: &ArenaDirectory,
    arrived: Seq<bool>,
    visible: Seq<u32>,
    mode: CullMode,
    tests: Seq<SlotTests>,
    n: int,
) -> Seq<Emission>
    decreases n,
{
    if n <= 0 {
        Seq::empty()
    } else {
        let before = plain_emissions(dir, arrived, visible, mode, tests, n - 1);
        if arrived[n - 1] {
            before + plain_slot(dir, visible, mode, tests[n - 1], n - 1)
        } else {
            before
        }
    }
}

/// The commands of `e` that go to partition `p`, in order.
pub open spec fn in_part(e: Seq<Emission>, p: int) -> Seq<DrawIndexedIndirect>
    decreases e.len(),
{
    if e.len() == 0 {
        Seq::empty()
    } else if e.last().0 == p {
        in_part(e.drop_last(), p).push(e.last().2)
    } else {
        in_part(e.drop_last(), p)
    }
}

/// Draws counted for camera group `g`.
pub open spec fn draws(e: Seq<Emission>, g: int) -> nat
    decreases e.len(),
{
    if e.len() == 0 {
        0
    } else {
        draws(e.drop_last(), g) + if e.last().1 == Some(g) {
            1nat
        } else {
            0
        }
    }
}

/// Indices drawn for camera group `g`.
pub open spec fn indices(e: Seq<Emission>, g: int) -> nat
    decreases e.len(),
{
    if e.len() == 0 {
        0
    } else {
        indices(e.drop_last(), g) + if e.last().1 == Some(g) {
            e.last().2.index_count as nat
        } else {
            0
        }
    }
}

/// The first `n` of `s`, or all of it.
pub open spec fn at_most<T>(s: Seq<T>, n: int) -> Seq<T> {
    if s.len() <= n {
        s
    } else {
        s.take(n)
    }
}

/// Counts and lists hold `e`: every partition counts all its commands and keeps
/// those that fit.
pub open spec fn holds(
    e: Seq<Emission>,
    partitions: Seq<PartitionGpu>,
    part_cmds: Seq<Vec<DrawIndexedIndirect>>,
    counts: Seq<u32>,
) -> bool {
    &&& counts.len() == partitions.len()
    &&& part_cmds.len() >= partitions.len()
    &&& forall|p: int|
        0 <= p < partitions.len() ==> #[trigger] counts[p] == in_part(e, p).len()
    &&& forall|p: int|
        0 <= p < partitions.len() ==> (#[trigger] part_cmds[p])@ == at_most(
            in_part(e, p),
            partitions[p].capacity as int,
        )
}

pub open spec fn stats_hold(e: Seq<Emission>, stats: Seq<u32>) -> bool {
    &&& stats[0] == draws(e, 0) && stats[1] == indices(e, 0)
    &&& stats[2] == draws(e, 1) && stats[3] == indices(e, 1)
    &&& stats[4] == draws(e, 2) && stats[5] == indices(e, 2)
}

/// Appends `cmd` to partition `part`: always counted, kept while it fits.
pub fn emit_part(
    part: usize,
    cmd: DrawIndexedIndirect,
    partitions: &[PartitionGpu],
    part_cmds: &mut Vec<Vec<DrawIndexedIndirect>>,
    counts: &mut Vec<u32>,
)
    requires
        part < partitions.len(),
        part < old(part_cmds).len(),
        part < old(counts).len(),
        old(counts)[part as int] < u32::MAX,
    ensures
        final(counts)@ == old(counts)@.update(part as int, (old(counts)[part as int] + 1) as u32),
        final(part_cmds).len() == old(part_cmds).len(),
        forall|p: int|
            0 <= p < old(part_cmds).len() && p != part ==> #[trigger] final(part_cmds)[p]
                == old(part_cmds)[p],
        final(part_cmds)[part as int]@ == (if old(counts)[part as int]
            < partitions[part as int].capacity {
            old(part_cmds)[part as int]@.push(cmd)
        } else {
            old(part_cmds)[part as int]@
        }),
{
    let i: u32 = counts[part];
    counts.set(part, i + 1);
    if i < partitions[part].capacity {
        part_cmds[part].push(cmd);
    }
}

/// [`emit_part`] and the histogram of a camera group, over the emissions so far.
fn emit(
    part: usize,
    group: Option<usize>,
    cmd: DrawIndexedIndirect,
    partitions: &[PartitionGpu],
    part_cmds: &mut Vec<Vec<DrawIndexedIndirect>>,
    counts: &mut Vec<u32>,
    stats: &mut [u32; 6],
    Ghost(e): Ghost<Seq<Emission>>,
)
    requires
        part < partitions.len(),
        holds(e, partitions@, old(part_cmds)@, old(counts)@),
        stats_hold(e, old(stats)@),
        group matches Some(g) ==> g < 3,
        e.len() < u32::MAX,
        group matches Some(g) ==> indices(e, g as int) + cmd.index_count <= u32::MAX,
    ensures
        ({
            let g: Option<int> = match group {
                Some(x) => Some(x as int),
                None => None,
            };
            let next = e.push((part as int, g, cmd));
            &&& holds(next, partitions@, final(part_cmds)@, final(counts)@)
            &&& stats_hold(next, final(stats)@)
        }),
{
    let ghost g: Option<int> = match group {
        Some(x) => Some(x as int),
        None => None,
    };
    let ghost next = e.push((part as int, g, cmd));
    let ghost c0 = counts@;
    let ghost l0 = part_cmds@;
    proof {
        assert(next.drop_last() =~= e);
        lemma_part_len(e, part as int);
        lemma_draws_len(e, 0);
        lemma_draws_len(e, 1);
        lemma_draws_len(e, 2);
    }
    emit_part(part, cmd, partitions, part_cmds, counts);
    match group {
        Some(x) => {
            stats[2 * x] = stats[2 * x] + 1;
            stats[2 * x + 1] = stats[2 * x + 1] + cmd.index_count;
        },
        None => {},
    }
    proof {
        assert forall|p: int| 0 <= p < partitions.len() implies #[trigger] counts@[p] == in_part(
            next,
            p,
        ).len() by {
            assert(c0[p] == in_part(e, p).len());
        }
        assert forall|p: int| 0 <= p < partitions.len() implies (#[trigger] part_cmds@[p])@
            == at_most(in_part(next, p), partitions[p].capacity as int) by {
            assert(l0[p]@ == at_most(in_part(e, p), partitions[p].capacity as int));
            if p == part {
                let s = in_part(e, p);
                assert(c0[p] == s.len());
                assert(at_most(s.push(cmd), partitions[p].capacity as int) =~= part_cmds@[p]@);
            }
        }
    }
}

proof fn lemma_part_len(e: Seq<Emission>, p: int)
    ensures
        in_part(e, p).len() <= e.len(),
    decreases e.len(),
{
    if e.len() > 0 {
        lemma_part_len(e.drop_last(), p);
    }
}

proof fn lemma_draws_len(e: Seq<Emission>, g: int)
    ensures
        draws(e, g) <= e.len(),
    decreases e.len(),
{
    if e.len() > 0 {
        lemma_draws_len(e.drop_last(), g);
    }
}

/// Sums over a prefix are no larger than over the whole.
proof fn lemma_prefix(e: Seq<Emission>, k: int, g: int)
    requires
        0 <= k <= e.len(),
    ensures
        indices(e.take(k), g) <= indices(e, g),
    decreases e.len() - k,
{
    if k == e.len() {
        assert(e.take(k) =~= e);
    } else {
        lemma_prefix(e, k + 1, g);
        assert(e.take(k + 1).drop_last() =~= e.take(k));
    }
}

/// What a laned slot's bits say.
pub proof fn lemma_bits_decode(p: arena::Placement, bits: u32)
    requires
        arena::bits_match(Some(p), bits),
        p.lane is Some,
        p.arena < arena::CULL_ARENA_MASK,
    ensures
        bits_arena(bits) == p.arena,
        0 <= bits_group(bits) < 3,
        p.lane == Some(bits_group(bits) as usize),
        (bits_pass(bits) == 0 && !bits_lod(bits)) == (p.lane == Some(0usize)),
        bits != 0,
{
    let (pass, lod) = choose|pass: crate::mesh::Pass, lod: bool|
        arena::lane_of(pass, lod) == p.lane && bits & !arena::CULL_FACE_BIT
            == #[trigger] arena::packed_bits((p.arena + 1) as u32, arena::pass_number(pass), lod);
    let plain = bits & !arena::CULL_FACE_BIT;
    let face = bits & arena::CULL_FACE_BIT != 0;
    let f: u32 = if face {
        0x80_0000
    } else {
        0
    };
    assert(bits == (bits & !0x80_0000u32) | f) by (bit_vector)
        requires
            f == (if bits & 0x80_0000 != 0 {
                0x80_0000u32
            } else {
                0u32
            }),
    ;
    arena::law_cull_bits_roundtrip((p.arena + 1) as u32, arena::pass_number(pass), lod, face);
}

proof fn lemma_emissions_prefix(
    dir: &ArenaDirectory,
    walk: Seq<u32>,
    arrived: Seq<bool>,
    visible: Seq<u32>,
    mode: CullMode,
    tests: Seq<SlotTests>,
    n: int,
    m: int,
)
    requires
        0 <= n <= m,
    ensures
        ({
            let e = emissions(dir, walk, arrived, visible, mode, tests, n);
            let t = emissions(dir, walk, arrived, visible, mode, tests, m);
            e.len() <= t.len() && t.take(e.len() as int) == e
        }),
    decreases m,
{
    let e = emissions(dir, walk, arrived, visible, mode, tests, n);
    let t = emissions(dir, walk, arrived, visible, mode, tests, m);
    if n < m {
        lemma_emissions_prefix(dir, walk, arrived, visible, mode, tests, n, m - 1);
        let u = emissions(dir, walk, arrived, visible, mode, tests, m - 1);
        assert(t.take(e.len() as int) =~= u.take(e.len() as int));
    } else {
        assert(t.take(e.len() as int) =~= e);
    }
}

proof fn lemma_bounds_grow(quads: Seq<u32>)
    ensures
        forall|k: int|
            0 <= k < 6 ==> #[trigger] cull_math::face_start(quads, k) <= cull_math::face_start(
                quads,
                k + 1,
            ),
{
    assert forall|k: int| 0 <= k < 6 implies #[trigger] cull_math::face_start(quads, k)
        <= cull_math::face_start(quads, k + 1) by {
        assert(cull_math::face_indices(quads, k) >= 0);
    }
}

/// What a cull pass may take for granted of its inputs.
pub open spec fn cull_inputs(
    dir: &ArenaDirectory,
    walk: Seq<u32>,
    arrived: Seq<bool>,
    visible: Seq<u32>,
    partitions: Seq<PartitionGpu>,
    mode: CullMode,
    tests: Seq<SlotTests>,
    slot_count: u32,
) -> bool {
    &&& dir.wf()
    &&& partitions.len() == cull_math::partition_count_spec(dir.buffers.len() as int)
    &&& slot_count <= dir.slots.len()
    &&& slot_count <= arrived.len()
    &&& slot_count <= tests.len()
    &&& walk.len() >= cull_math::words_for(slot_count as int)
    &&& forall|s: int| 0 <= s < tests.len() ==> (#[trigger] tests[s]).bucket < 4
    &&& forall|s: int|
        0 <= s < slot_count && #[trigger] cull_math::mask_bit(walk, s) ==> cull_math::mask_bit(
            dir.live_bits@,
            s,
        )
    &&& ({
        let all = emissions(dir, walk, arrived, visible, mode, tests, slot_count as int);
        &&& all.len() <= u32::MAX
        &&& indices(all, 0) <= u32::MAX
        &&& indices(all, 1) <= u32::MAX
        &&& indices(all, 2) <= u32::MAX
    })
}

/// Walks every slot of the mask and emits its commands. Returns draws and index
/// counts per camera group.
#[verifier::rlimit(80)]
pub fn cull_slots(
    dir: &ArenaDirectory,
    arrived: &[bool],
    partitions: &[PartitionGpu],
    tests: &[SlotTests],
    visible: &[u32],
    slot_count: u32,
    live_vis: &[u32],
    mode: CullMode,
    part_cmds: &mut Vec<Vec<DrawIndexedIndirect>>,
    counts: &mut Vec<u32>,
) -> (stats: [u32; 6])
    requires
        cull_inputs(
            dir,
            live_vis@,
            arrived@,
            visible@,
            partitions@,
            mode,
            tests@,
            slot_count,
        ),
        holds(Seq::empty(), partitions@, old(part_cmds)@, old(counts)@),
    ensures
        ({
            let all = emissions(
                dir,
                live_vis@,
                arrived@,
                visible@,
                mode,
                tests@,
                slot_count as int,
            );
            &&& holds(all, partitions@, final(part_cmds)@, final(counts)@)
            &&& stats_hold(all, stats@)
        }),
{
    let mut stats: [u32; 6] = [0, 0, 0, 0, 0, 0];
    let arena_count: usize = dir.arena_count();
    let ghost all = emissions(
        dir,
        live_vis@,
        arrived@,
        visible@,
        mode,
        tests@,
        slot_count as int,
    );
    let mut slot: u32 = 0;
    while slot < slot_count
        invariant
            slot <= slot_count,
            arena_count == dir.buffers.len(),
            cull_inputs(
                dir,
                live_vis@,
                arrived@,
                visible@,
                partitions@,
                mode,
                tests@,
                slot_count,
            ),
            all == emissions(
                dir,
                live_vis@,
                arrived@,
                visible@,
                mode,
                tests@,
                slot_count as int,
            ),
            holds(
                emissions(dir, live_vis@, arrived@, visible@, mode, tests@, slot as int),
                partitions@,
                part_cmds@,
                counts@,
            ),
            stats_hold(
                emissions(dir, live_vis@, arrived@, visible@, mode, tests@, slot as int),
                stats@,
            ),
        decreases slot_count - slot,
    {
        let ghost before = emissions(
            dir,
            live_vis@,
            arrived@,
            visible@,
            mode,
            tests@,
            slot as int,
        );
        let i: usize = slot as usize;
        if !cull_math::slot_visible(live_vis, slot) || !arrived[i] {
            slot = slot + 1;
            continue ;
        }
        let t: SlotTests = tests[i];
        let seen: bool = !mode.shadow || cull_math::slot_visible(visible, slot);
        let ghost own = slot_emissions(dir, visible@, mode, t, slot as int);
        proof {
            assert(cull_math::mask_bit(dir.live_bits@, slot as int));
            assert(arena::is_laned(dir.slots@, slot as int));
            assert(arena::bits_match(dir.slots[i as int], dir.cull_bits[i as int]));
            lemma_bits_decode(dir.slots[i as int]->Some_0, dir.cull_bits[i as int]);
            lemma_emissions_prefix(
                dir,
                live_vis@,
                arrived@,
                visible@,
                mode,
                tests@,
                slot + 1,
                slot_count as int,
            );
            lemma_room_for(all, before, own);
        }
        emit_slot(
            dir,
            partitions,
            t,
            seen,
            slot,
            mode,
            part_cmds,
            counts,
            &mut stats,
            Ghost(before),
            Ghost(visible@),
        );
        slot = slot + 1;
    }
    stats
}

/// Every prefix of `before + own` keeps the sums inside the bounds of `all`.
spec fn room_for(before: Seq<Emission>, own: Seq<Emission>) -> bool {
    forall|k: int|
        0 <= k <= own.len() ==> {
            let e = before + #[trigger] own.take(k);
            &&& e.len() <= u32::MAX
            &&& indices(e, 0) <= u32::MAX
            &&& indices(e, 1) <= u32::MAX
            &&& indices(e, 2) <= u32::MAX
        }
}

proof fn lemma_room_for(all: Seq<Emission>, before: Seq<Emission>, own: Seq<Emission>)
    requires
        all.len() >= before.len() + own.len(),
        all.take((before.len() + own.len()) as int) == before + own,
        all.len() <= u32::MAX,
        indices(all, 0) <= u32::MAX,
        indices(all, 1) <= u32::MAX,
        indices(all, 2) <= u32::MAX,
    ensures
        room_for(before, own),
{
    assert forall|k: int| 0 <= k <= own.len() implies {
        let e = before + #[trigger] own.take(k);
        &&& e.len() <= u32::MAX
        &&& indices(e, 0) <= u32::MAX
        &&& indices(e, 1) <= u32::MAX
        &&& indices(e, 2) <= u32::MAX
    } by {
        let n = before.len() + k;
        let e = before + own.take(k);
        assert(e =~= all.take((before.len() + own.len()) as int).take(n));
        assert(e =~= all.take(n));
        lemma_prefix(all, n, 0);
        lemma_prefix(all, n, 1);
        lemma_prefix(all, n, 2);
    }
}

/// One more emission of `own` fits.
proof fn lemma_next_fits(before: Seq<Emission>, own: Seq<Emission>, k: int)
    requires
        room_for(before, own),
        0 <= k < own.len(),
    ensures
        (before + own.take(k)).len() < u32::MAX,
        (before + own.take(k)).push(own[k]) == before + own.take(k + 1),
        own[k].1 matches Some(g) && 0 <= g < 3 ==> indices(before + own.take(k), own[k].1->Some_0)
            + own[k].2.index_count <= u32::MAX,
{
    let e = before + own.take(k);
    let f = before + own.take(k + 1);
    assert(f =~= e.push(own[k]));
    assert(f.drop_last() =~= e);
    assert(f.len() <= u32::MAX);
}

/// Emits everything of one slot that the mask walks.
#[verifier::rlimit(80)]
fn emit_slot(
    dir: &ArenaDirectory,
    partitions: &[PartitionGpu],
    t: SlotTests,
    seen: bool,
    slot: u32,
    mode: CullMode,
    part_cmds: &mut Vec<Vec<DrawIndexedIndirect>>,
    counts: &mut Vec<u32>,
    stats: &mut [u32; 6],
    Ghost(before): Ghost<Seq<Emission>>,
    Ghost(visible): Ghost<Seq<u32>>,
)
    requires
        dir.wf(),
        slot < dir.slots.len(),
        arena::is_laned(dir.slots@, slot as int),
        partitions.len() == cull_math::partition_count_spec(dir.buffers.len() as int),
        t.bucket < 4,
        seen == (!mode.shadow || cull_math::mask_bit(visible, slot as int)),
        room_for(before, slot_emissions(dir, visible, mode, t, slot as int)),
        holds(before, partitions@, old(part_cmds)@, old(counts)@),
        stats_hold(before, old(stats)@),
    ensures
        ({
            let e = before + slot_emissions(dir, visible, mode, t, slot as int);
            &&& holds(e, partitions@, final(part_cmds)@, final(counts)@)
            &&& stats_hold(e, final(stats)@)
        }),
{
    let i: usize = slot as usize;
    let ghost own = slot_emissions(dir, visible, mode, t, slot as int);
    let bits: u32 = dir.cull_bits[i];
    let arena_count: usize = dir.arena_count();
    proof {
        assert(arena::bits_match(dir.slots[i as int], dir.cull_bits[i as int]));
        assert(dir.slots[i as int] is Some);
        lemma_bits_decode(dir.slots[i as int]->Some_0, bits);
        assert(before + own.take(0) =~= before);
    }
    let pass: u32 = arena::cull_bits_pass(bits);
    let lod: bool = arena::cull_bits_lod(bits);
    let arena: usize = (arena::cull_bits_arena(bits) - 1) as usize;
    let group: usize = if pass == 0 && lod {
        2
    } else {
        pass as usize
    };
    assert(group == bits_group(bits));
    let cmd: DrawIndexedIndirect = DrawIndexedIndirect {
        index_count: dir.cull_index_count[i],
        instance_count: 1,
        first_index: 0,
        vertex_offset: dir.cull_vertex_offset[i],
        first_instance: slot,
    };
    let cam_ok: bool = seen && t.in_camera && (group != 2 || !t.inside_slab);
    let ghost cmds = camera_cmds(dir, mode, t, slot as int);
    let ghost done: int = 0;
    if cam_ok {
        let part: usize = cull_math::camera_part(group, arena, t.bucket as usize, arena_count);
        if mode.face && arena::cull_bits_face(bits) {
            let bounds: [u32; 7] = cull_math::packed_face_bounds(dir.cull_face_quads[i]);
            let mut runs: [FaceRun; 3] = [
                FaceRun { first_index: 0, index_count: 0 },
                FaceRun { first_index: 0, index_count: 0 },
                FaceRun { first_index: 0, index_count: 0 },
            ];
            proof {
                lemma_bounds_grow(dir.cull_face_quads[i as int]@);
                assert forall|k: int| 0 <= k < 6 implies #[trigger] bounds[k] <= bounds[k + 1] by {
                    assert(bounds[k] == cull_math::face_start(dir.cull_face_quads[i as int]@, k));
                    assert(bounds[k + 1] == cull_math::face_start(
                        dir.cull_face_quads[i as int]@,
                        k + 1,
                    ));
                }
                assert(bounds@ =~= bounds_of(dir.cull_face_quads[i as int]@));
            }
            let n_runs: usize = cull_math::merge_face_runs(t.faces, bounds, &mut runs);
            let mut k: usize = 0;
            while k < n_runs
                invariant
                    k <= n_runs,
                    n_runs <= 3,
                    n_runs == cmds.len(),
                    own == slot_emissions(dir, visible, mode, t, slot as int),
                    cmds == camera_cmds(dir, mode, t, slot as int),
                    n_runs <= own.len(),
                    forall|j: int|
                        0 <= j < n_runs ==> #[trigger] own[j] == (
                            part as int,
                            Some(group as int),
                            run_cmd(cmd, runs[j]),
                        ),
                    part < partitions.len(),
                    group < 3,
                    room_for(before, own),
                    holds(before + own.take(k as int), partitions@, part_cmds@, counts@),
                    stats_hold(before + own.take(k as int), stats@),
                decreases n_runs - k,
            {
                let run: FaceRun = runs[k];
                let drawn: DrawIndexedIndirect = DrawIndexedIndirect {
                    index_count: run.index_count,
                    instance_count: cmd.instance_count,
                    first_index: run.first_index,
                    vertex_offset: cmd.vertex_offset,
                    first_instance: cmd.first_instance,
                };
                proof {
                    lemma_next_fits(before, own, k as int);
                }
                emit(
                    part,
                    Some(group),
                    drawn,
                    partitions,
                    part_cmds,
                    counts,
                    stats,
                    Ghost(before + own.take(k as int)),
                );
                k = k + 1;
            }
        } else {
            proof {
                lemma_next_fits(before, own, 0);
            }
            emit(
                part,
                Some(group),
                cmd,
                partitions,
                part_cmds,
                counts,
                stats,
                Ghost(before + own.take(0)),
            );
        }
        proof {
            done = cmds.len() as int;
        }
    }
    let cast: bool = mode.shadow && pass == 0 && !lod;
    assert(cast == casts(dir, mode, slot as int));
    if cast && t.in_near {
        let part: usize = cull_math::shadow_part(0, arena, arena_count);
        proof {
            lemma_next_fits(before, own, done);
        }
        emit(
            part,
            None,
            cmd,
            partitions,
            part_cmds,
            counts,
            stats,
            Ghost(before + own.take(done)),
        );
        proof {
            done = done + 1;
        }
    }
    if cast && t.in_far {
        let part: usize = cull_math::shadow_part(1, arena, arena_count);
        proof {
            lemma_next_fits(before, own, done);
        }
        emit(
            part,
            None,
            cmd,
            partitions,
            part_cmds,
            counts,
            stats,
            Ghost(before + own.take(done)),
        );
        proof {
            done = done + 1;
        }
    }
    proof {
        assert(done == own.len());
        assert(own.take(done) =~= own);
    }
}

/// CPU cull of a whole frame: rebuilds the walk mask and refills `scratch` with
/// what a plain walk over every slot would emit. Returns draws and index counts per camera group.
pub fn cpu_cull_into(
    dir: &ArenaDirectory,
    arrived: &[bool],
    visible: &[u32],
    partitions: &[PartitionGpu],
    tests: &[SlotTests],
    slot_count: u32,
    mode: CullMode,
    scratch: &mut CpuCullScratch,
) -> (stats: [u32; 6])
    requires
        cull_inputs(
            dir,
            cull_math::walk_mask(dir.live_bits@, visible@, slot_count, mode.shadow),
            arrived@,
            visible@,
            partitions@,
            mode,
            tests@,
            slot_count,
        ),
    ensures
        ({
            let walk = cull_math::walk_mask(dir.live_bits@, visible@, slot_count, mode.shadow);
            let all = plain_emissions(dir, arrived@, visible@, mode, tests@, slot_count as int);
            &&& final(scratch).live_vis@ == walk
            &&& holds(all, partitions@, final(scratch).part_cmds@, final(scratch).counts@)
            &&& stats_hold(all, stats@)
        }),
{
    let npart: usize = partitions.len();
    while scratch.part_cmds.len() < npart
        decreases npart - scratch.part_cmds.len(),
    {
        scratch.part_cmds.push(Vec::new());
    }
    scratch.counts = Vec::new();
    let mut p: usize = 0;
    while p < npart
        invariant
            npart == partitions.len(),
            p <= npart,
            scratch.part_cmds.len() >= npart,
            scratch.counts.len() == p,
            forall|q: int| 0 <= q < p ==> #[trigger] scratch.counts[q] == 0,
            forall|q: int|
                0 <= q < p ==> (#[trigger] scratch.part_cmds[q])@ == Seq::<
                    DrawIndexedIndirect,
                >::empty(),
        decreases npart - p,
    {
        scratch.part_cmds[p].clear();
        scratch.counts.push(0);
        p = p + 1;
    }
    cull_math::build_live_vis(
        dir.live_bits.as_slice(),
        visible,
        slot_count,
        mode.shadow,
        &mut scratch.live_vis,
    );
    proof {
        let e = Seq::<Emission>::empty();
        assert forall|q: int| 0 <= q < partitions.len() implies (#[trigger] scratch.part_cmds@[q])@
            == at_most(in_part(e, q), partitions[q].capacity as int) by {
            assert(scratch.part_cmds[q]@ == Seq::<DrawIndexedIndirect>::empty());
        }
        assert forall|q: int| 0 <= q < partitions.len() implies #[trigger] scratch.counts@[q]
            == in_part(e, q).len() by {
            assert(scratch.counts[q] == 0);
        }
        assert(holds(e, partitions@, scratch.part_cmds@, scratch.counts@));
    }
    let walk: Vec<u32> = scratch.live_vis.clone();
    proof {
        assert(walk@ =~= scratch.live_vis@);
        law_masked_walk_is_the_plain_walk(dir, arrived@, visible@, mode, tests@, slot_count);
    }
    cull_slots(
        dir,
        arrived,
        partitions,
        tests,
        visible,
        slot_count,
        walk.as_slice(),
        mode,
        &mut scratch.part_cmds,
        &mut scratch.counts,
    )
}

proof fn lemma_part_concat(e: Seq<Emission>, f: Seq<Emission>, p: int)
    ensures
        in_part(e + f, p) == in_part(e, p) + in_part(f, p),
    decreases f.len(),
{
    if f.len() == 0 {
        assert(e + f =~= e);
        assert(in_part(e, p) + in_part(f, p) =~= in_part(e, p));
    } else {
        lemma_part_concat(e, f.drop_last(), p);
        assert((e + f).drop_last() =~= e + f.drop_last());
        assert(in_part(e + f, p) =~= in_part(e, p) + in_part(f, p));
    }
}

/// All commands of `e` go to one partition.
proof fn lemma_one_part(e: Seq<Emission>, part: int, p: int)
    requires
        forall|k: int| 0 <= k < e.len() ==> (#[trigger] e[k]).0 == part,
    ensures
        in_part(e, p).len() == (if p == part {
            e.len()
        } else {
            0
        }),
    decreases e.len(),
{
    if e.len() > 0 {
        assert(e[e.len() - 1].0 == part);
        lemma_one_part(e.drop_last(), part, p);
    }
}

/// The number of commands that one slot puts into a partition: at most `runs`
/// into a camera partition of its own lane and arena, at most one into a shadow
/// partition of its arena.
proof fn lemma_slot_share(
    dir: &ArenaDirectory,
    visible: Seq<u32>,
    mode: CullMode,
    t: SlotTests,
    slot: int,
    p: int,
)
    requires
        dir.wf(),
        0 <= slot < dir.slots.len(),
        arena::is_laned(dir.slots@, slot),
        t.bucket < 4,
        0 <= p < cull_math::partition_count_spec(dir.buffers.len() as int),
    ensures
        ({
            let n = dir.buffers.len() as int;
            let own = in_part(slot_emissions(dir, visible, mode, t, slot), p).len();
            let runs: int = if mode.face {
                3
            } else {
                1
            };
            &&& forall|g: int, a: int, b: int|
                0 <= g < 3 && 0 <= a < n && 0 <= b < 4 && p == #[trigger] cull_math::camera_part_spec(
                    g,
                    a,
                    b,
                    n,
                ) ==> own <= if arena::in_lane(dir.slots@[slot], a, Some(g as usize)) {
                    runs
                } else {
                    0
                }
            &&& forall|c: int, a: int|
                0 <= c < 2 && 0 <= a < n && p == #[trigger] cull_math::shadow_part_spec(c, a, n)
                    ==> own <= if arena::in_lane(dir.slots@[slot], a, Some(0usize)) {
                    1int
                } else {
                    0
                }
            &&& own > 0 && p < 12 * n ==> camera_draws(dir, visible, mode, t, slot) && p
                == cull_math::camera_part_spec(
                bits_group(dir.cull_bits[slot]),
                bits_arena(dir.cull_bits[slot]),
                t.bucket as int,
                n,
            )
        }),
{
    let n = dir.buffers.len() as int;
    let bits = dir.cull_bits[slot];
    assert(arena::bits_match(dir.slots[slot], dir.cull_bits[slot]));
    assert(dir.slots[slot] is Some);
    let pl = dir.slots[slot]->Some_0;
    lemma_bits_decode(pl, bits);
    let group = bits_group(bits);
    let arena = bits_arena(bits);
    let cmd = slot_cmd(dir, slot);
    let cmds = camera_cmds(dir, mode, t, slot);
    let part = cull_math::camera_part_spec(group, arena, t.bucket as int, n);
    let camera: Seq<Emission> = if camera_draws(dir, visible, mode, t, slot) {
        Seq::new(cmds.len(), |k: int| (part, Some(group), cmds[k]))
    } else {
        Seq::empty()
    };
    let s0 = cull_math::shadow_part_spec(0, arena, n);
    let s1 = cull_math::shadow_part_spec(1, arena, n);
    let near: Seq<Emission> = if casts(dir, mode, slot) && t.in_near {
        seq![(s0, None::<int>, cmd)]
    } else {
        Seq::empty()
    };
    let far: Seq<Emission> = if casts(dir, mode, slot) && t.in_far {
        seq![(s1, None::<int>, cmd)]
    } else {
        Seq::empty()
    };
    lemma_part_concat(camera, near, p);
    lemma_part_concat(camera + near, far, p);
    lemma_one_part(camera, part, p);
    lemma_one_part(near, s0, p);
    lemma_one_part(far, s1, p);
    cull_math::lemma_run_count(t.faces@, bounds_of(dir.cull_face_quads[slot]@), 6);
    assert(0 <= group * n + arena < 3 * n) by (nonlinear_arith)
        requires
            0 <= group < 3,
            0 <= arena < n,
    ;
    assert(part < 12 * n);
    assert forall|g: int, a: int, b: int|
        0 <= g < 3 && 0 <= a < n && 0 <= b < 4 && p == #[trigger] cull_math::camera_part_spec(
            g,
            a,
            b,
            n,
        ) implies in_part(camera + near + far, p).len() <= if arena::in_lane(
        dir.slots@[slot],
        a,
        Some(g as usize),
    ) {
        if mode.face {
            3int
        } else {
            1
        }
    } else {
        0
    } by {
        assert(0 <= g * n + a < 3 * n) by (nonlinear_arith)
            requires
                0 <= g < 3,
                0 <= a < n,
        ;
        if p == part {
            cull_math::law_camera_parts_are_distinct(
                g,
                a,
                b,
                group,
                arena,
                t.bucket as int,
                n,
            );
        }
    }
    assert forall|c: int, a: int|
        0 <= c < 2 && 0 <= a < n && p == #[trigger] cull_math::shadow_part_spec(c, a, n) implies in_part(
        camera + near + far,
        p,
    ).len() <= if arena::in_lane(dir.slots@[slot], a, Some(0usize)) {
        1int
    } else {
        0
    } by {
        assert(c == 0 ==> c * n == 0);
        assert(c == 1 ==> c * n == n);
    }
}

/// Counting slots one by one.
proof fn lemma_lane_take(slots: arena::Table, n: int, a: int, lane: Option<usize>)
    requires
        0 <= n < slots.len(),
    ensures
        arena::lane_count(slots.take(n + 1), a, lane) == arena::lane_count(slots.take(n), a, lane)
            + if arena::in_lane(slots[n], a, lane) {
            1nat
        } else {
            0
        },
{
    assert(slots.take(n + 1).drop_last() =~= slots.take(n));
}

proof fn lemma_lane_take_bound(slots: arena::Table, n: int, a: int, lane: Option<usize>)
    requires
        0 <= n <= slots.len(),
    ensures
        arena::lane_count(slots.take(n), a, lane) <= arena::lane_count(slots, a, lane),
    decreases slots.len() - n,
{
    if n == slots.len() {
        assert(slots.take(n) =~= slots);
    } else {
        lemma_lane_take(slots, n, a, lane);
        lemma_lane_take_bound(slots, n + 1, a, lane);
    }
}

proof fn lemma_part_share(
    dir: &ArenaDirectory,
    walk: Seq<u32>,
    arrived: Seq<bool>,
    visible: Seq<u32>,
    mode: CullMode,
    tests: Seq<SlotTests>,
    n: int,
    p: int,
)
    requires
        dir.wf(),
        0 <= n <= dir.slots.len(),
        n <= tests.len(),
        0 <= p < cull_math::partition_count_spec(dir.buffers.len() as int),
        forall|s: int| 0 <= s < tests.len() ==> (#[trigger] tests[s]).bucket < 4,
        forall|s: int|
            0 <= s < n && #[trigger] cull_math::mask_bit(walk, s) ==> cull_math::mask_bit(
                dir.live_bits@,
                s,
            ),
    ensures
        ({
            let m = dir.buffers.len() as int;
            let len = in_part(
                emissions(dir, walk, arrived, visible, mode, tests, n),
                p,
            ).len();
            let runs: int = if mode.face {
                3
            } else {
                1
            };
            &&& forall|g: int, a: int, b: int|
                0 <= g < 3 && 0 <= a < m && 0 <= b < 4 && p == #[trigger] cull_math::camera_part_spec(
                    g,
                    a,
                    b,
                    m,
                ) ==> len <= runs * arena::lane_count(
                    dir.slots@.take(n),
                    a,
                    Some(g as usize),
                )
            &&& forall|c: int, a: int|
                0 <= c < 2 && 0 <= a < m && p == #[trigger] cull_math::shadow_part_spec(c, a, m)
                    ==> len <= arena::lane_count(dir.slots@.take(n), a, Some(0usize))
        }),
    decreases n,
{
    let m = dir.buffers.len() as int;
    let runs: int = if mode.face {
        3
    } else {
        1
    };
    if n > 0 {
        let s = n - 1;
        lemma_part_share(dir, walk, arrived, visible, mode, tests, s, p);
        let before = emissions(dir, walk, arrived, visible, mode, tests, s);
        let own = slot_emissions(dir, visible, mode, tests[s], s);
        let on = cull_math::mask_bit(walk, s) && arrived[s];
        if on {
            assert(cull_math::mask_bit(dir.live_bits@, s));
            lemma_part_concat(before, own, p);
            lemma_slot_share(dir, visible, mode, tests[s], s, p);
        }
        let len = in_part(emissions(dir, walk, arrived, visible, mode, tests, n), p).len();
        assert forall|g: int, a: int, b: int|
            0 <= g < 3 && 0 <= a < m && 0 <= b < 4 && p == #[trigger] cull_math::camera_part_spec(
                g,
                a,
                b,
                m,
            ) implies len <= runs * arena::lane_count(
            dir.slots@.take(n),
            a,
            Some(g as usize),
        ) by {
            lemma_lane_take(dir.slots@, s, a, Some(g as usize));
            let before_count = arena::lane_count(dir.slots@.take(s), a, Some(g as usize));
            assert(in_part(before, p).len() <= runs * before_count);
            assert(runs * (before_count + 1) == runs * before_count + runs) by (nonlinear_arith);
        }
        assert forall|c: int, a: int|
            0 <= c < 2 && 0 <= a < m && p == #[trigger] cull_math::shadow_part_spec(
                c,
                a,
                m,
            ) implies len <= arena::lane_count(dir.slots@.take(n), a, Some(0usize)) by {
            lemma_lane_take(dir.slots@, s, a, Some(0usize));
        }
    } else {
        assert forall|g: int, a: int, b: int|
            0 <= g < 3 && 0 <= a < m && 0 <= b < 4 && p == #[trigger] cull_math::camera_part_spec(
                g,
                a,
                b,
                m,
            ) implies 0 <= runs * arena::lane_count(dir.slots@.take(n), a, Some(g as usize)) by {
            assert(dir.slots@.take(n) =~= Seq::empty());
        }
    }
}

/// The partition table is large enough: whatever the verdicts, no partition that
/// keeps its capacity is handed more commands than it holds, so no draw is
/// dropped.
pub proof fn law_partitions_never_overflow(
    dir: &ArenaDirectory,
    walk: Seq<u32>,
    arrived: Seq<bool>,
    visible: Seq<u32>,
    mode: CullMode,
    tests: Seq<SlotTests>,
    slot_count: int,
    runs: u32,
    reach: Option<Seq<bool>>,
    p: int,
)
    requires
        dir.wf(),
        0 <= slot_count <= dir.slots.len(),
        slot_count <= tests.len(),
        0 <= p < cull_math::partition_count_spec(dir.buffers.len() as int),
        runs == (if mode.face {
            cull_math::MAX_FACE_RUNS
        } else {
            1
        }),
        forall|s: int| 0 <= s < tests.len() ==> (#[trigger] tests[s]).bucket < 4,
        forall|s: int|
            0 <= s < slot_count && #[trigger] cull_math::mask_bit(walk, s) ==> cull_math::mask_bit(
                dir.live_bits@,
                s,
            ),
        forall|a: int, b: int|
            0 <= a < dir.buffers.len() && 0 <= b < 4 && p / 4 % (dir.buffers.len() as int) == a && p
                % 4 == b && p < 12 * dir.buffers.len() ==> #[trigger] arena::keeps(reach, a, b),
    ensures
        in_part(emissions(dir, walk, arrived, visible, mode, tests, slot_count), p).len()
            <= arena::capacity_of(dir.live@, runs, reach, p),
{
    let n = dir.buffers.len() as int;
    lemma_part_share(dir, walk, arrived, visible, mode, tests, slot_count, p);
    cull_math::law_partition_indices_cover_the_table(p, n);
    let len = in_part(
        emissions(dir, walk, arrived, visible, mode, tests, slot_count),
        p,
    ).len();
    if p < 12 * n {
        let (g, a, b) = choose|g: int, a: int, b: int|
            0 <= g < 3 && 0 <= a < n && 0 <= b < 4 && #[trigger] cull_math::camera_part_spec(
                g,
                a,
                b,
                n,
            ) == p;
        lemma_lane_take_bound(dir.slots@, slot_count, a, Some(g as usize));
        arena::law_partition_capacities(dir.live@, runs, reach, g, a, b, 0);
        assert(dir.row_ok(a));
        let row = g * n + a;
        assert(0 <= g * n) by (nonlinear_arith)
            requires
                0 <= g,
                0 <= n,
        ;
        assert(p / 4 == row && p % 4 == b);
        vstd::arithmetic::div_mod::lemma_fundamental_div_mod_converse(row, n, g, a);
        assert(arena::keeps(reach, a, b));
        let count = arena::lane_count(dir.slots@, a, Some(g as usize));
        let part_count = arena::lane_count(dir.slots@.take(slot_count), a, Some(g as usize));
        let l = dir.live@[a][g] as int;
        assert(l >= count);
        let r = runs as int;
        assert(r * part_count <= l * r) by (nonlinear_arith)
            requires
                0 <= part_count <= l,
                r >= 0,
        ;
    } else {
        let (c, a) = choose|c: int, a: int|
            0 <= c < 2 && 0 <= a < n && #[trigger] cull_math::shadow_part_spec(c, a, n) == p;
        lemma_lane_take_bound(dir.slots@, slot_count, a, Some(0usize));
        arena::law_partition_capacities(dir.live@, runs, reach, 0, a, 0, c);
        assert(dir.row_ok(a));
    }
}

proof fn lemma_masked_walk(
    dir: &ArenaDirectory,
    arrived: Seq<bool>,
    visible: Seq<u32>,
    mode: CullMode,
    tests: Seq<SlotTests>,
    slot_count: u32,
    n: int,
)
    requires
        dir.wf(),
        0 <= n <= slot_count <= dir.slots.len(),
    ensures
        emissions(
            dir,
            cull_math::walk_mask(dir.live_bits@, visible, slot_count, mode.shadow),
            arrived,
            visible,
            mode,
            tests,
            n,
        ) == plain_emissions(dir, arrived, visible, mode, tests, n),
    decreases n,
{
    if n > 0 {
        let slot = n - 1;
        let walk = cull_math::walk_mask(dir.live_bits@, visible, slot_count, mode.shadow);
        lemma_masked_walk(dir, arrived, visible, mode, tests, slot_count, n - 1);
        cull_math::law_walk_mask(dir.live_bits@, visible, slot_count, mode.shadow);
        assert(cull_math::mask_bit(walk, slot) == cull_math::walked(
            dir.live_bits@,
            visible,
            slot_count as int,
            mode.shadow,
            slot,
        ));
        assert(cull_math::mask_bit(dir.live_bits@, slot) == arena::is_laned(dir.slots@, slot));
        let plain = plain_slot(dir, visible, mode, tests[slot], slot);
        if arena::is_laned(dir.slots@, slot) {
            assert(arena::bits_match(dir.slots[slot], dir.cull_bits[slot]));
            lemma_bits_decode(dir.slots[slot]->Some_0, dir.cull_bits[slot]);
            if cull_math::mask_bit(walk, slot) {
                assert(plain =~= slot_emissions(dir, visible, mode, tests[slot], slot));
            } else {
                assert(plain =~= Seq::empty());
            }
        }
        let before = plain_emissions(dir, arrived, visible, mode, tests, n - 1);
        assert(before + Seq::empty() =~= before);
    }
}

/// The masked walk emits what a plain walk over every slot emits, command for
/// command and in the same order: the mask skips only slots that draw nothing.
pub proof fn law_masked_walk_is_the_plain_walk(
    dir: &ArenaDirectory,
    arrived: Seq<bool>,
    visible: Seq<u32>,
    mode: CullMode,
    tests: Seq<SlotTests>,
    slot_count: u32,
)
    requires
        dir.wf(),
        slot_count <= dir.slots.len(),
    ensures
        emissions(
            dir,
            cull_math::walk_mask(dir.live_bits@, visible, slot_count, mode.shadow),
            arrived,
            visible,
            mode,
            tests,
            slot_count as int,
        ) == plain_emissions(dir, arrived, visible, mode, tests, slot_count as int),
{
    lemma_masked_walk(dir, arrived, visible, mode, tests, slot_count, slot_count as int);
}

/// What the scratch held before has no effect: two passes over the same
/// emissions leave the same counts, the same commands in every partition and the
/// same statistics.
pub proof fn law_scratch_has_no_effect(
    e: Seq<Emission>,
    partitions: Seq<PartitionGpu>,
    one: CpuCullScratch,
    two: CpuCullScratch,
    stats_one: [u32; 6],
    stats_two: [u32; 6],
)
    requires
        holds(e, partitions, one.part_cmds@, one.counts@),
        holds(e, partitions, two.part_cmds@, two.counts@),
        stats_hold(e, stats_one@),
        stats_hold(e, stats_two@),
    ensures
        one.counts@ == two.counts@,
        forall|p: int|
            0 <= p < partitions.len() ==> (#[trigger] one.part_cmds[p])@ == two.part_cmds[p]@,
        stats_one@ == stats_two@,
{
    assert(one.counts@ =~= two.counts@);
    assert(stats_one@ =~= stats_two@);
    assert forall|p: int| 0 <= p < partitions.len() implies (#[trigger] one.part_cmds[p])@
        == two.part_cmds[p]@ by {
        assert(one.part_cmds@[p]@ == at_most(in_part(e, p), partitions[p].capacity as int));
        assert(two.part_cmds@[p]@ == at_most(in_part(e, p), partitions[p].capacity as int));
    }
}

/// Every command of a partition was emitted into it, and every one emitted into it is
/// there.
proof fn lemma_part_members(e: Seq<Emission>, p: int)
    ensures
        forall|c: DrawIndexedIndirect| #[trigger]
            in_part(e, p).contains(c) <==> exists|k: int|
                0 <= k < e.len() && (#[trigger] e[k]).0 == p && e[k].2 == c,
    decreases e.len(),
{
    let all = in_part(e, p);
    if e.len() > 0 {
        let f = e.drop_last();
        let less = in_part(f, p);
        let n = e.len() - 1;
        lemma_part_members(f, p);
        assert forall|c: DrawIndexedIndirect| #[trigger] all.contains(c) <==> exists|k: int|
            0 <= k < e.len() && (#[trigger] e[k]).0 == p && e[k].2 == c by {
            if all.contains(c) {
                let i = choose|i: int| 0 <= i < all.len() && all[i] == c;
                if i < less.len() {
                    assert(less[i] == c);
                    assert(less.contains(c));
                    let k = choose|k: int|
                        0 <= k < f.len() && (#[trigger] f[k]).0 == p && f[k].2 == c;
                    assert(e[k].0 == p);
                } else {
                    assert(e[n].0 == p);
                }
            }
            if exists|k: int| 0 <= k < e.len() && (#[trigger] e[k]).0 == p && e[k].2 == c {
                let k = choose|k: int| 0 <= k < e.len() && (#[trigger] e[k]).0 == p && e[k].2 == c;
                if k < n {
                    assert(f[k].0 == p);
                    assert(less.contains(c));
                    let i = choose|i: int| 0 <= i < less.len() && less[i] == c;
                    assert(all[i] == c);
                } else {
                    assert(all[less.len() as int] == c);
                }
            }
        }
    } else {
        assert(all =~= Seq::empty());
    }
}

/// The bounds of a mesh's faces never shrink.
proof fn lemma_faces_in_order(quads: Seq<u32>)
    requires
        quads.len() == 3,
    ensures
        bounds_of(quads).len() == 7,
        forall|k: int| 0 <= k <= 6 ==> #[trigger] bounds_of(quads)[k] == cull_math::face_start(
            quads,
            k,
        ),
        forall|k: int| 0 <= k < 6 ==> #[trigger] bounds_of(quads)[k] <= bounds_of(quads)[k + 1],
{
    lemma_bounds_grow(quads);
    reveal_with_fuel(cull_math::face_start, 7);
}

/// Slot `s` is registered in camera lane `lane` of row `row`, and its bytes are there.
pub open spec fn placed_in(
    dir: &ArenaDirectory,
    arrived: Seq<bool>,
    n: int,
    s: int,
    row: int,
    lane: int,
) -> bool {
    &&& 0 <= s < n
    &&& arrived[s]
    &&& dir.slots@[s] matches Some(p) && p.arena == row && p.lane == Some(lane as usize)
    &&& 0 <= lane < 3
}

/// The camera sees slot `s` of lane `lane`.
pub open spec fn camera_sees(visible: Seq<u32>, t: SlotTests, s: int, lane: int) -> bool {
    &&& s / 32 < visible.len()
    &&& (visible[s / 32] >> ((s % 32) as u32)) & 1 == 1
    &&& t.in_camera
    &&& lane == 2 ==> !t.inside_slab
}

/// Index `j` belongs to a face that can be seen.
pub open spec fn face_seen(faces: Seq<bool>, quads: Seq<u32>, j: int) -> bool {
    exists|k: int|
        0 <= k < 6 && #[trigger] faces[k] && cull_math::face_start(quads, k) <= j
            < cull_math::face_start(quads, k + 1)
}

/// `c` draws one instance of slot `s`, numbered by the slot, from its vertices.
pub open spec fn draws_slot(dir: &ArenaDirectory, c: DrawIndexedIndirect, s: int) -> bool {
    &&& c.first_instance == s
    &&& c.instance_count == 1
    &&& c.vertex_offset == dir.cull_vertex_offset@[s]
}

proof fn lemma_plain_members(
    dir: &ArenaDirectory,
    arrived: Seq<bool>,
    visible: Seq<u32>,
    mode: CullMode,
    tests: Seq<SlotTests>,
    n: int,
    e: Emission,
)
    requires
        0 <= n,
    ensures
        plain_emissions(dir, arrived, visible, mode, tests, n).contains(e) <==> exists|s: int|
            0 <= s < n && #[trigger] arrived[s] && plain_slot(
                dir,
                visible,
                mode,
                tests[s],
                s,
            ).contains(e),
    decreases n,
{
    let all = plain_emissions(dir, arrived, visible, mode, tests, n);
    if n > 0 {
        lemma_plain_members(dir, arrived, visible, mode, tests, n - 1, e);
        let before = plain_emissions(dir, arrived, visible, mode, tests, n - 1);
        let own = plain_slot(dir, visible, mode, tests[n - 1], n - 1);
        if all.contains(e) {
            let i = choose|i: int| 0 <= i < all.len() && all[i] == e;
            if i < before.len() {
                assert(before[i] == e);
            } else {
                assert(own[i - before.len()] == e);
                assert(arrived[n - 1]);
            }
        }
        if exists|s: int|
            0 <= s < n && #[trigger] arrived[s] && plain_slot(
                dir,
                visible,
                mode,
                tests[s],
                s,
            ).contains(e) {
            let s = choose|s: int|
                0 <= s < n && #[trigger] arrived[s] && plain_slot(
                    dir,
                    visible,
                    mode,
                    tests[s],
                    s,
                ).contains(e);
            if s < n - 1 {
                assert(before.contains(e));
                let i = choose|i: int| 0 <= i < before.len() && before[i] == e;
                assert(all[i] == e);
            } else {
                let i = choose|i: int| 0 <= i < own.len() && own[i] == e;
                assert(all[before.len() + i] == e);
            }
        }
    }
}

proof fn lemma_bit_of(visible: Seq<u32>, s: int)
    requires
        0 <= s,
    ensures
        cull_math::mask_bit(visible, s) <==> s / 32 < visible.len() && (visible[s / 32] >> ((s
            % 32) as u32)) & 1 == 1,
{
    if s / 32 < visible.len() {
        let word = visible[s / 32];
        let i = (s % 32) as u32;
        assert((word & (1u32 << i) != 0) == ((word >> i) & 1 == 1)) by (bit_vector)
            requires
                i < 32,
        ;
    }
}

/// Every command that culling leaves in a partition draws one mesh of a slot whose bytes
/// have arrived. In a partition of the camera it is a mesh of that partition's lane, row
/// and distance that the camera sees, and the command stays inside the mesh: all of it, or
/// indices of faces that can be seen. In a partition of a shadow it is all of a
/// full-resolution opaque mesh of that row that lies in that shadow.
pub proof fn law_every_culled_command_draws_a_mesh_in_sight(
    dir: &ArenaDirectory,
    arrived: Seq<bool>,
    visible: Seq<u32>,
    mode: CullMode,
    tests: Seq<SlotTests>,
    n: int,
    p: int,
    c: DrawIndexedIndirect,
)
    requires
        dir.wf(),
        0 <= n <= dir.slots.len(),
        forall|s: int| 0 <= s < n ==> (#[trigger] tests[s]).bucket < 4,
        in_part(plain_emissions(dir, arrived, visible, mode, tests, n), p).contains(c),
    ensures
        ({
            let s = c.first_instance as int;
            let rows = dir.buffers.len() as int;
            let t = tests[s];
            exists|row: int, lane: int| #[trigger]
                placed_in(dir, arrived, n, s, row, lane) && draws_slot(dir, c, s) && {
                    ||| {
                        &&& p == 4 * (lane * rows + row) + t.bucket
                        &&& camera_sees(visible, t, s, lane)
                        &&& !(mode.face && bits_face(dir.cull_bits@[s])) ==> c.first_index == 0
                            && c.index_count == dir.cull_index_count@[s]
                        &&& mode.face && bits_face(dir.cull_bits@[s]) ==> forall|j: int|
                            c.first_index <= j < c.first_index + c.index_count
                                ==> #[trigger] face_seen(t.faces@, dir.cull_face_quads@[s]@, j)
                    }
                    ||| {
                        &&& mode.shadow && lane == 0
                        &&& c.first_index == 0 && c.index_count == dir.cull_index_count@[s]
                        &&& p == 12 * rows + row && t.in_near || p == 13 * rows + row && t.in_far
                    }
                }
        }),
{
    let all = plain_emissions(dir, arrived, visible, mode, tests, n);
    let rows = dir.buffers.len() as int;
    lemma_part_members(all, p);
    let k = choose|k: int| 0 <= k < all.len() && (#[trigger] all[k]).0 == p && all[k].2 == c;
    let e = all[k];
    assert(all.contains(e));
    lemma_plain_members(dir, arrived, visible, mode, tests, n, e);
    let s = choose|s: int|
        0 <= s < n && #[trigger] arrived[s] && plain_slot(
            dir,
            visible,
            mode,
            tests[s],
            s,
        ).contains(e);
    let own = plain_slot(dir, visible, mode, tests[s], s);
    let i = choose|i: int| 0 <= i < own.len() && own[i] == e;
    let t = tests[s];
    assert(dir.slots@[s] is Some);
    let pl = dir.slots@[s]->Some_0;
    let lane = pl.lane->Some_0 as int;
    let row = pl.arena as int;
    lemma_bit_of(visible, s);
    lemma_slot_fits(dir, s);
    assert(s == c.first_instance);
    assert(placed_in(dir, arrived, n, s, row, lane));
    assert((lane * rows + row) * 4 == 4 * (lane * rows + row));
    let cmds = camera_cmds(dir, mode, t, s);
    let seen = cull_math::mask_bit(visible, s) && t.in_camera && (lane != 2 || !t.inside_slab);
    if seen && i < cmds.len() {
        assert(own[i] == (
            cull_math::camera_part_spec(lane, row, t.bucket as int, rows),
            Some(lane),
            cmds[i],
        ));
        if mode.face && bits_face(dir.cull_bits@[s]) {
            let quads = dir.cull_face_quads@[s]@;
            let bounds = bounds_of(quads);
            lemma_faces_in_order(quads);
            let runs = cull_math::face_runs(t.faces@, bounds, 6);
            assert(c == run_cmd(slot_cmd(dir, s), runs[i]));
            assert forall|j: int|
                c.first_index <= j < c.first_index + c.index_count implies #[trigger] face_seen(
                t.faces@,
                quads,
                j,
            ) by {
                cull_math::law_an_index_is_drawn_with_its_face(t.faces@, bounds, j);
                assert(runs[i].first_index <= j < runs[i].first_index + runs[i].index_count);
                let f = choose|f: int|
                    0 <= f < 6 && #[trigger] t.faces@[f] && bounds[f] <= j < bounds[f + 1];
                assert(bounds[f] == cull_math::face_start(quads, f));
                assert(bounds[f + 1] == cull_math::face_start(quads, f + 1));
                assert(t.faces@[f]);
            }
        }
    } else {
        assert(mode.shadow && lane == 0);
        assert(c == slot_cmd(dir, s));
    }
}

proof fn lemma_slot_fits(dir: &ArenaDirectory, s: int)
    requires
        dir.wf(),
        0 <= s < dir.slots.len(),
    ensures
        s <= u32::MAX,
        dir.slots@[s] matches Some(p) ==> p.arena < dir.buffers.len() && (p.lane matches Some(l)
            ==> l < 3),
{
}

/// Whatever the camera sees is drawn: every index of a mesh whose faces are not told apart,
/// and every index of a face that can be seen otherwise, in the partition of the mesh's
/// lane, row and distance.
pub proof fn law_every_mesh_in_sight_is_drawn(
    dir: &ArenaDirectory,
    arrived: Seq<bool>,
    visible: Seq<u32>,
    mode: CullMode,
    tests: Seq<SlotTests>,
    n: int,
    s: int,
    row: int,
    lane: int,
    j: int,
)
    requires
        dir.wf(),
        0 <= n <= dir.slots.len(),
        placed_in(dir, arrived, n, s, row, lane),
        camera_sees(visible, tests[s], s, lane),
        0 <= j < dir.cull_index_count@[s],
        mode.face && bits_face(dir.cull_bits@[s]) ==> face_seen(
            tests[s].faces@,
            dir.cull_face_quads@[s]@,
            j,
        ),
    ensures
        ({
            let rows = dir.buffers.len() as int;
            let p = 4 * (lane * rows + row) + tests[s].bucket;
            let e = plain_emissions(dir, arrived, visible, mode, tests, n);
            exists|c: DrawIndexedIndirect| #[trigger]
                in_part(e, p).contains(c) && draws_slot(dir, c, s) && c.first_index <= j
                    < c.first_index + c.index_count
        }),
{
    let all = plain_emissions(dir, arrived, visible, mode, tests, n);
    let rows = dir.buffers.len() as int;
    let t = tests[s];
    let p = 4 * (lane * rows + row) + t.bucket;
    let own = plain_slot(dir, visible, mode, t, s);
    let cmds = camera_cmds(dir, mode, t, s);
    lemma_bit_of(visible, s);
    lemma_slot_fits(dir, s);
    lemma_part_members(all, p);
    assert((lane * rows + row) * 4 == 4 * (lane * rows + row));
    let i = if mode.face && bits_face(dir.cull_bits@[s]) {
        let quads = dir.cull_face_quads@[s]@;
        let bounds = bounds_of(quads);
        lemma_faces_in_order(quads);
        cull_math::law_an_index_is_drawn_with_its_face(t.faces@, bounds, j);
        let f = choose|f: int|
            0 <= f < 6 && #[trigger] t.faces@[f] && cull_math::face_start(quads, f) <= j
                < cull_math::face_start(quads, f + 1);
        assert(bounds[f] == cull_math::face_start(quads, f));
        assert(bounds[f + 1] == cull_math::face_start(quads, f + 1));
        assert(t.faces@[f]);
        let runs = cull_math::face_runs(t.faces@, bounds, 6);
        choose|i: int|
            0 <= i < runs.len() && (#[trigger] runs[i]).first_index <= j < runs[i].first_index
                + runs[i].index_count
    } else {
        0
    };
    let c = cmds[i];
    let e: Emission = (p, Some(lane), c);
    assert(own[i] == e);
    assert(own.contains(e));
    lemma_plain_members(dir, arrived, visible, mode, tests, n, e);
    assert(arrived[s]);
    assert(all.contains(e));
    let k = choose|k: int| 0 <= k < all.len() && all[k] == e;
    assert(all[k].0 == p && all[k].2 == c);
    assert(in_part(all, p).contains(c));
}

/// Whatever lies in a shadow casts it: all of a full-resolution opaque mesh, in the
/// partition of its row under the near or the far shadow.
pub proof fn law_every_caster_is_drawn(
    dir: &ArenaDirectory,
    arrived: Seq<bool>,
    visible: Seq<u32>,
    mode: CullMode,
    tests: Seq<SlotTests>,
    n: int,
    s: int,
    row: int,
    far: bool,
    p: int,
)
    requires
        p == if far {
            13 * dir.buffers.len() + row
        } else {
            12 * dir.buffers.len() + row
        },
        dir.wf(),
        0 <= n <= dir.slots.len(),
        mode.shadow,
        placed_in(dir, arrived, n, s, row, 0),
        if far {
            tests[s].in_far
        } else {
            tests[s].in_near
        },
    ensures
        ({
            let e = plain_emissions(dir, arrived, visible, mode, tests, n);
            exists|c: DrawIndexedIndirect| #[trigger]
                in_part(e, p).contains(c) && draws_slot(dir, c, s) && c.first_index == 0
                    && c.index_count == dir.cull_index_count@[s]
        }),
{
    let all = plain_emissions(dir, arrived, visible, mode, tests, n);
    let rows = dir.buffers.len() as int;
    let t = tests[s];
    let own = plain_slot(dir, visible, mode, t, s);
    let c = slot_cmd(dir, s);
    let e: Emission = (p, None, c);
    lemma_slot_fits(dir, s);
    lemma_part_members(all, p);
    if far {
        assert(own[own.len() - 1] == e);
    } else {
        let tail = if t.in_far {
            1int
        } else {
            0
        };
        assert(own[own.len() - 1 - tail] == e);
    }
    assert(own.contains(e));
    lemma_plain_members(dir, arrived, visible, mode, tests, n, e);
    assert(arrived[s]);
    assert(all.contains(e));
    let k = choose|k: int| 0 <= k < all.len() && all[k] == e;
    assert(all[k].0 == p && all[k].2 == c);
    assert(in_part(all, p).contains(c) && draws_slot(dir, c, s) && c.first_index == 0
        && c.index_count == dir.cull_index_count@[s]);
}

/// `w` summed over commands.
pub open spec fn weight(cmds: Seq<DrawIndexedIndirect>, w: spec_fn(DrawIndexedIndirect) -> int) -> int
    decreases cmds.len(),
{
    if cmds.len() == 0 {
        0
    } else {
        weight(cmds.drop_last(), w) + w(cmds.last())
    }
}

/// `w` summed over the commands of the partitions `lo .. hi`.
pub open spec fn parts_weight(
    e: Seq<Emission>,
    w: spec_fn(DrawIndexedIndirect) -> int,
    lo: int,
    hi: int,
) -> int
    decreases hi - lo,
{
    if hi <= lo {
        0
    } else {
        parts_weight(e, w, lo, hi - 1) + weight(in_part(e, hi - 1), w)
    }
}

proof fn lemma_parts_weight_step(
    e: Seq<Emission>,
    w: spec_fn(DrawIndexedIndirect) -> int,
    lo: int,
    hi: int,
)
    requires
        e.len() > 0,
    ensures
        parts_weight(e, w, lo, hi) == parts_weight(e.drop_last(), w, lo, hi) + if lo <= e.last().0
            < hi {
            w(e.last().2)
        } else {
            0
        },
    decreases hi - lo,
{
    if hi > lo {
        lemma_parts_weight_step(e, w, lo, hi - 1);
        let rest = in_part(e.drop_last(), hi - 1);
        if e.last().0 == hi - 1 {
            assert(in_part(e, hi - 1).drop_last() =~= rest);
        }
    }
}

proof fn lemma_no_parts_weight(w: spec_fn(DrawIndexedIndirect) -> int, lo: int, hi: int)
    ensures
        parts_weight(Seq::empty(), w, lo, hi) == 0,
    decreases hi - lo,
{
    if hi > lo {
        lemma_no_parts_weight(w, lo, hi - 1);
    }
}

/// Each emission counts for the group whose partitions it goes to.
spec fn groups_match(e: Seq<Emission>, rows: int) -> bool {
    forall|k: int|
        0 <= k < e.len() ==> match (#[trigger] e[k]).1 {
            Some(g) => 0 <= g < 3 && 4 * (g * rows) <= e[k].0 < 4 * (g * rows) + 4 * rows,
            None => e[k].0 >= 12 * rows,
        }
}

proof fn lemma_group_weights(e: Seq<Emission>, rows: int, g: int)
    requires
        rows >= 0,
        0 <= g < 3,
        groups_match(e, rows),
    ensures
        draws(e, g) == parts_weight(
            e,
            |c: DrawIndexedIndirect| 1,
            4 * (g * rows),
            4 * (g * rows) + 4 * rows,
        ),
        indices(e, g) == parts_weight(
            e,
            |c: DrawIndexedIndirect| c.index_count as int,
            4 * (g * rows),
            4 * (g * rows) + 4 * rows,
        ),
    decreases e.len(),
{
    let one = |c: DrawIndexedIndirect| 1int;
    let idx = |c: DrawIndexedIndirect| c.index_count as int;
    let lo = 4 * (g * rows);
    let hi = lo + 4 * rows;
    if e.len() == 0 {
        assert(e =~= Seq::empty());
        lemma_no_parts_weight(one, lo, hi);
        lemma_no_parts_weight(idx, lo, hi);
    } else {
        let f = e.drop_last();
        assert(groups_match(f, rows)) by {
            assert forall|k: int| 0 <= k < f.len() implies match (#[trigger] f[k]).1 {
                Some(h) => 0 <= h < 3 && 4 * (h * rows) <= f[k].0 < 4 * (h * rows) + 4 * rows,
                None => f[k].0 >= 12 * rows,
            } by {
                assert(f[k] == e[k]);
            }
        }
        lemma_group_weights(f, rows, g);
        lemma_parts_weight_step(e, one, lo, hi);
        lemma_parts_weight_step(e, idx, lo, hi);
        let last = e[e.len() - 1];
        match last.1 {
            Some(h) => {
                assert(h < g ==> 4 * (h * rows) + 4 * rows <= 4 * (g * rows)) by (nonlinear_arith)
                    requires
                        rows >= 0,
                ;
                assert(g < h ==> 4 * (g * rows) + 4 * rows <= 4 * (h * rows)) by (nonlinear_arith)
                    requires
                        rows >= 0,
                ;
            },
            None => {
                assert(4 * (g * rows) + 4 * rows <= 12 * rows) by (nonlinear_arith)
                    requires
                        rows >= 0,
                        g < 3,
                ;
            },
        }
    }
}

proof fn lemma_plain_groups(
    dir: &ArenaDirectory,
    arrived: Seq<bool>,
    visible: Seq<u32>,
    mode: CullMode,
    tests: Seq<SlotTests>,
    n: int,
)
    requires
        dir.wf(),
        0 <= n <= dir.slots.len(),
        forall|s: int| 0 <= s < n ==> (#[trigger] tests[s]).bucket < 4,
    ensures
        groups_match(
            plain_emissions(dir, arrived, visible, mode, tests, n),
            dir.buffers.len() as int,
        ),
{
    let e = plain_emissions(dir, arrived, visible, mode, tests, n);
    let rows = dir.buffers.len() as int;
    assert forall|k: int| 0 <= k < e.len() implies match (#[trigger] e[k]).1 {
        Some(g) => 0 <= g < 3 && 4 * (g * rows) <= e[k].0 < 4 * (g * rows) + 4 * rows,
        None => e[k].0 >= 12 * rows,
    } by {
        assert(e.contains(e[k]));
        lemma_plain_members(dir, arrived, visible, mode, tests, n, e[k]);
        let s = choose|s: int|
            0 <= s < n && #[trigger] arrived[s] && plain_slot(
                dir,
                visible,
                mode,
                tests[s],
                s,
            ).contains(e[k]);
        let own = plain_slot(dir, visible, mode, tests[s], s);
        let i = choose|i: int| 0 <= i < own.len() && own[i] == e[k];
        lemma_slot_fits(dir, s);
        assert(tests[s].bucket < 4);
    }
}

/// The statistics of a camera group count the commands in that group's partitions, and the
/// indices that they draw.
pub proof fn law_stats_count_the_commands_of_their_group(
    dir: &ArenaDirectory,
    arrived: Seq<bool>,
    visible: Seq<u32>,
    mode: CullMode,
    tests: Seq<SlotTests>,
    n: int,
    stats: Seq<u32>,
    g: int,
)
    requires
        dir.wf(),
        0 <= n <= dir.slots.len(),
        forall|s: int| 0 <= s < n ==> (#[trigger] tests[s]).bucket < 4,
        stats_hold(plain_emissions(dir, arrived, visible, mode, tests, n), stats),
        0 <= g < 3,
    ensures
        ({
            let e = plain_emissions(dir, arrived, visible, mode, tests, n);
            let rows = dir.buffers.len() as int;
            &&& stats[2 * g] == parts_weight(
                e,
                |c: DrawIndexedIndirect| 1,
                4 * (g * rows),
                4 * (g * rows) + 4 * rows,
            )
            &&& stats[2 * g + 1] == parts_weight(
                e,
                |c: DrawIndexedIndirect| c.index_count as int,
                4 * (g * rows),
                4 * (g * rows) + 4 * rows,
            )
        }),
{
    let e = plain_emissions(dir, arrived, visible, mode, tests, n);
    lemma_plain_groups(dir, arrived, visible, mode, tests, n);
    lemma_group_weights(e, dir.buffers.len() as int, g);
}

} // verus!
