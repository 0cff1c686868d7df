//! CPU side of mesh culling: partition table layout, visibility masks, face-run
//! merging and command emission.
//!
//! The geometric tests themselves (frustum planes, distance buckets, slab clip)
//! are decided per slot by the caller and handed in as plain values.

use vstd::prelude::*;

verus! {

/// Camera emission groups, in partition-table order.
#[derive(Clone, Copy, PartialEq, Eq, Debug, Structural)]
pub enum Group {
    /// Full-resolution opaque.
    Opaque,
    Cutout,
    /// Coarse-LOD opaque: the slab-clipped draws.
    OpaqueLod,
}

/// Camera groups. Bucketed.
pub const CAMERA_GROUPS: usize = 3;

/// Shadow near and far. Unbucketed; sized from the full-resolution opaque count.
pub const SHADOW_GROUPS: usize = 2;

/// Camera groups and shadow groups.
pub const GROUPS: usize = 5;

/// Front-to-back buckets on camera groups only.
pub const BUCKETS: usize = 4;

/// Most contiguous face runs that one camera mesh can take.
pub const MAX_FACE_RUNS: u32 = 3;

/// Live-count lanes: full-resolution opaque, cutout, LOD opaque.
pub const LANES: usize = 3;

/// Size of one indexed indirect draw command.
pub const CMD_STRIDE: u64 = 20;

/// Geometry histogram: draws and index count per camera group.
pub const STATS_COUNT: usize = 6;

pub const STATS_BYTES: u64 = 24;

pub const FLAG_STATS: u32 = 1;

/// Live camera-group records at or below this count are culled on the CPU.
pub const CPU_CULL_MAX: u32 = 1024;

impl Group {
    /// Position in the partition table.
    pub open spec fn ordinal(self) -> int {
        match self {
            Group::Opaque => 0,
            Group::Cutout => 1,
            Group::OpaqueLod => 2,
        }
    }

    pub fn index(self) -> (i: usize)
        ensures
            i == self.ordinal(),
            i < CAMERA_GROUPS,
    {
        match self {
            Group::Opaque => 0,
            Group::Cutout => 1,
            Group::OpaqueLod => 2,
        }
    }

    /// Camera groups in partition-table order.
    pub fn all() -> (groups: [Group; 3])
        ensures
            forall|i: int| 0 <= i < 3 ==> (#[trigger] groups[i]).ordinal() == i,
    {
        [Group::Opaque, Group::Cutout, Group::OpaqueLod]
    }
}

/// One command range of the indirect buffer.
#[derive(Clone, Copy, PartialEq, Eq, Debug, Structural)]
pub struct PartitionGpu {
    pub offset: u32,
    pub capacity: u32,
}

/// One indexed indirect draw.
#[derive(Clone, Copy, PartialEq, Eq, Debug, Structural)]
pub struct DrawIndexedIndirect {
    pub index_count: u32,
    pub instance_count: u32,
    pub first_index: u32,
    pub vertex_offset: i32,
    pub first_instance: u32,
}

// ---------------------------------------------------------------------------
// Partition indices
// ---------------------------------------------------------------------------

/// Group-major, then arena, then bucket.
pub open spec fn camera_part_spec(group: int, arena: int, bucket: int, arena_count: int) -> int {
    (group * arena_count + arena) * 4 + bucket
}

/// The cascades follow the camera groups.
pub open spec fn shadow_part_spec(cascade: int, arena: int, arena_count: int) -> int {
    12 * arena_count + cascade * arena_count + arena
}

/// Twelve camera partitions and two shadow partitions per arena.
pub open spec fn partition_count_spec(arena_count: int) -> int {
    14 * arena_count
}

proof fn lemma_part_bounds(group: int, arena: int, arena_count: int)
    requires
        0 <= group < 3,
        0 <= arena < arena_count,
    ensures
        0 <= group * arena_count + arena < 3 * arena_count,
        0 <= group * arena_count <= 2 * arena_count,
{
    assert(0 <= group * arena_count <= 2 * arena_count) by (nonlinear_arith)
        requires
            0 <= group <= 2,
            arena_count >= 0,
    ;
}

/// Partition index for a camera group, arena and bucket.
pub fn camera_part(group: usize, arena: usize, bucket: usize, arena_count: usize) -> (part: usize)
    requires
        group < CAMERA_GROUPS,
        bucket < BUCKETS,
        arena < arena_count,
        partition_count_spec(arena_count as int) <= usize::MAX,
    ensures
        part == camera_part_spec(group as int, arena as int, bucket as int, arena_count as int),
        part < 12 * arena_count,
{
    proof {
        lemma_part_bounds(group as int, arena as int, arena_count as int);
    }
    (group * arena_count + arena) * BUCKETS + bucket
}

/// Partition index for a shadow cascade and arena. Cascades are unbucketed.
pub fn shadow_part(cascade: usize, arena: usize, arena_count: usize) -> (part: usize)
    requires
        cascade < SHADOW_GROUPS,
        arena < arena_count,
        partition_count_spec(arena_count as int) <= usize::MAX,
    ensures
        part == shadow_part_spec(cascade as int, arena as int, arena_count as int),
        12 * arena_count <= part < partition_count_spec(arena_count as int),
{
    proof {
        lemma_part_bounds(cascade as int, arena as int, arena_count as int);
        assert(cascade * arena_count <= arena_count) by (nonlinear_arith)
            requires
                cascade <= 1,
                arena_count >= 0,
        ;
    }
    CAMERA_GROUPS * arena_count * BUCKETS + cascade * arena_count + arena
}

/// Partition table length for `arena_count` live arena rows.
pub fn partition_count(arena_count: usize) -> (count: usize)
    requires
        partition_count_spec(arena_count as int) <= usize::MAX,
    ensures
        count == partition_count_spec(arena_count as int),
{
    let per_arena: usize = CAMERA_GROUPS * BUCKETS + SHADOW_GROUPS;
    proof {
        assert(arena_count * per_arena == 14 * arena_count) by (nonlinear_arith)
            requires
                per_arena == 14,
        ;
    }
    arena_count * per_arena
}

/// No two camera partitions share an index.
pub proof fn law_camera_parts_are_distinct(
    g: int,
    a: int,
    b: int,
    g2: int,
    a2: int,
    b2: int,
    arena_count: int,
)
    requires
        0 <= g < 3,
        0 <= g2 < 3,
        0 <= a < arena_count,
        0 <= a2 < arena_count,
        0 <= b < 4,
        0 <= b2 < 4,
        camera_part_spec(g, a, b, arena_count) == camera_part_spec(g2, a2, b2, arena_count),
    ensures
        g == g2 && a == a2 && b == b2,
{
    assert(g * arena_count + a == g2 * arena_count + a2);
    if g < g2 {
        assert(g2 * arena_count >= g * arena_count + arena_count) by (nonlinear_arith)
            requires
                g2 >= g + 1,
                arena_count >= 0,
        ;
    } else if g2 < g {
        assert(g * arena_count >= g2 * arena_count + arena_count) by (nonlinear_arith)
            requires
                g >= g2 + 1,
                arena_count >= 0,
        ;
    }
}

/// Every index of the table is a camera partition or a shadow partition.
pub proof fn law_partition_indices_cover_the_table(part: int, arena_count: int)
    requires
        0 <= part < partition_count_spec(arena_count),
    ensures
        part < 12 * arena_count ==> exists|g: int, a: int, b: int|
            0 <= g < 3 && 0 <= a < arena_count && 0 <= b < 4 && #[trigger] camera_part_spec(
                g,
                a,
                b,
                arena_count,
            ) == part,
        part >= 12 * arena_count ==> exists|c: int, a: int|
            0 <= c < 2 && 0 <= a < arena_count && #[trigger] shadow_part_spec(c, a, arena_count)
                == part,
{
    if part < 12 * arena_count {
        let row = part / 4;
        let b = part % 4;
        let (g, a) = if row < arena_count {
            (0int, row)
        } else if row < 2 * arena_count {
            (1int, row - arena_count)
        } else {
            (2int, row - 2 * arena_count)
        };
        assert(camera_part_spec(g, a, b, arena_count) == part);
    } else {
        let row = part - 12 * arena_count;
        let (c, a) = if row < arena_count {
            (0int, row)
        } else {
            (1int, row - arena_count)
        };
        assert(shadow_part_spec(c, a, arena_count) == part);
    }
}

/// Partitions of `parts` with room for at least one command.
pub open spec fn nonzero_parts(parts: Seq<PartitionGpu>) -> nat
    decreases parts.len(),
{
    if parts.len() == 0 {
        0
    } else {
        nonzero_parts(parts.drop_last()) + if parts.last().capacity > 0 {
            1nat
        } else {
            0
        }
    }
}

/// Indirect-count draw calls for `group`: its partitions with room. Partitions
/// of no capacity are skipped.
pub fn group_indirect_calls(partitions: &[PartitionGpu], group: Group, arena_count: usize) -> (calls:
    u32)
    requires
        arena_count * BUCKETS * CAMERA_GROUPS <= u32::MAX,
    ensures
        ({
            let span = arena_count * BUCKETS;
            let base = group.ordinal() * span;
            calls == if arena_count == 0 || base + span > partitions.len() {
                0
            } else {
                nonzero_parts(partitions@.subrange(base, base + span)) as int
            }
        }),
{
    if arena_count == 0 {
        return 0;
    }
    let span: usize = arena_count * BUCKETS;
    let g: usize = group.index();
    proof {
        assert(g * span <= 2 * span) by (nonlinear_arith)
            requires
                g <= 2,
                span >= 0,
        ;
    }
    let base: usize = g * span;
    let end: usize = base + span;
    if end > partitions.len() {
        return 0;
    }
    let ghost part = partitions@.subrange(base as int, end as int);
    let mut calls: u32 = 0;
    let mut i: usize = base;
    proof {
        assert(part.take(0) =~= Seq::empty());
    }
    while i < end
        invariant
            base <= i <= end,
            end - base <= u32::MAX,
            end <= partitions.len(),
            part == partitions@.subrange(base as int, end as int),
            calls == nonzero_parts(part.take(i - base)),
            calls <= i - base,
        decreases end - i,
    {
        proof {
            assert(part.take(i + 1 - base).drop_last() =~= part.take(i - base));
            assert(part.take(i + 1 - base).last() == partitions[i as int]);
        }
        if partitions[i].capacity > 0 {
            calls = calls + 1;
        }
        i = i + 1;
    }
    assert(part.take(end - base) =~= part);
    calls
}

// ---------------------------------------------------------------------------
// Visibility masks
// ---------------------------------------------------------------------------

/// Bit `slot` of a mask of 32-bit words; slots past the end read as clear.
pub open spec fn mask_bit(words: Seq<u32>, slot: int) -> bool {
    &&& 0 <= slot / 32 < words.len()
    &&& word_bit(words[slot / 32], (slot % 32) as u32)
}

pub open spec fn word_bit(word: u32, i: u32) -> bool {
    word & (1u32 << i) != 0
}

pub proof fn lemma_slot_word(slot: u32)
    ensures
        slot >> 5 == slot / 32,
        slot & 31 == slot % 32,
{
    assert(slot >> 5 == slot / 32) by (bit_vector);
    assert(slot & 31 == slot % 32) by (bit_vector);
}

/// Whether `slot` is set in the visibility mask.
pub fn slot_visible(visible: &[u32], slot: u32) -> (shown: bool)
    ensures
        shown == mask_bit(visible@, slot as int),
{
    proof {
        lemma_slot_word(slot);
    }
    let w: usize = (slot >> 5) as usize;
    w < visible.len() && (visible[w] & (1u32 << (slot & 31))) != 0
}

/// Words that `slot_count` slots take.
pub open spec fn words_for(slot_count: int) -> int {
    (slot_count + 31) / 32
}

proof fn lemma_and_bits(a: u32, b: u32, i: u32)
    requires
        i < 32,
    ensures
        word_bit(a & b, i) == (word_bit(a, i) && word_bit(b, i)),
{
    assert(((a & b) & (1u32 << i) != 0) == (a & (1u32 << i) != 0 && b & (1u32 << i) != 0))
        by (bit_vector)
        requires
            i < 32,
    ;
}

proof fn lemma_low_mask(rem: u32, i: u32)
    requires
        0 < rem < 32,
        i < 32,
    ensures
        (1u32 << rem) >= 1,
        word_bit(((1u32 << rem) - 1) as u32, i) == (i < rem),
{
    assert((1u32 << rem) >= 1) by (bit_vector)
        requires
            rem < 32,
    ;
    assert((((1u32 << rem) - 1) as u32 & (1u32 << i) != 0) == (i < rem)) by (bit_vector)
        requires
            0 < rem < 32,
            i < 32,
    ;
}

/// The mask that a cull pass walks: live slots, narrowed to the visible ones
/// unless shadows need the hidden casters too.
pub open spec fn walked(live: Seq<u32>, visible: Seq<u32>, slot_count: int, shadow: bool, s: int) -> bool {
    0 <= s < slot_count && mask_bit(live, s) && (shadow || mask_bit(visible, s))
}

/// Word `k` of the walk mask before slots past the end are cut off.
pub open spec fn walk_word(live: Seq<u32>, visible: Seq<u32>, shadow: bool, k: int) -> u32 {
    if k >= live.len() {
        0
    } else if shadow {
        live[k]
    } else if k < visible.len() {
        live[k] & visible[k]
    } else {
        0
    }
}

/// The walk mask over `slot_count` slots.
pub open spec fn walk_mask(live: Seq<u32>, visible: Seq<u32>, slot_count: u32, shadow: bool) -> Seq<
    u32,
> {
    let words = words_for(slot_count as int);
    Seq::new(
        words as nat,
        |k: int|
            if k == words - 1 && slot_count % 32 != 0 {
                walk_word(live, visible, shadow, k) & (((1u32 << (slot_count % 32)) - 1) as u32)
            } else {
                walk_word(live, visible, shadow, k)
            },
    )
}

/// The walk mask holds exactly the slots that a pass walks: below the end, live,
/// and visible unless shadows are drawn.
pub proof fn law_walk_mask(live: Seq<u32>, visible: Seq<u32>, slot_count: u32, shadow: bool)
    ensures
        walk_mask(live, visible, slot_count, shadow).len() == words_for(slot_count as int),
        forall|s: int|
            0 <= s < 32 * words_for(slot_count as int) ==> #[trigger] mask_bit(
                walk_mask(live, visible, slot_count, shadow),
                s,
            ) == walked(live, visible, slot_count as int, shadow, s),
{
    let mask = walk_mask(live, visible, slot_count, shadow);
    let words = words_for(slot_count as int);
    let rem = slot_count % 32;
    assert forall|s: int| 0 <= s < 32 * words implies #[trigger] mask_bit(mask, s) == walked(
        live,
        visible,
        slot_count as int,
        shadow,
        s,
    ) by {
        let k = s / 32;
        let b = (s % 32) as u32;
        assert(0u32 & (1u32 << b) == 0) by (bit_vector);
        if k < live.len() && k < visible.len() {
            lemma_and_bits(live[k], visible[k], b);
        }
        if k == words - 1 && rem != 0 {
            lemma_and_bits(
                walk_word(live, visible, shadow, k),
                ((1u32 << rem) - 1) as u32,
                b,
            );
            lemma_low_mask(rem, b);
        }
    }
}

/// Precomputes the frame's walk mask over `slot_count` slots.
pub fn build_live_vis(
    live_bits: &[u32],
    visible: &[u32],
    slot_count: u32,
    shadow: bool,
    out: &mut Vec<u32>,
)
    ensures
        final(out)@ == walk_mask(live_bits@, visible@, slot_count, shadow),
        final(out).len() == words_for(slot_count as int),
        forall|s: int|
            0 <= s < 32 * words_for(slot_count as int) ==> #[trigger] mask_bit(final(out)@, s) == walked(
                live_bits@,
                visible@,
                slot_count as int,
                shadow,
                s,
            ),
{
    let rem: u32 = slot_count % 32;
    let words: usize = ((slot_count / 32) as usize) + (if rem != 0 {
        1usize
    } else {
        0usize
    });
    out.clear();
    let mut i: usize = 0;
    while i < words
        invariant
            i <= words,
            words == words_for(slot_count as int),
            out.len() == i,
            forall|k: int|
                0 <= k < i ==> #[trigger] out[k] == walk_word(live_bits@, visible@, shadow, k),
        decreases words - i,
    {
        let word: u32 = if i >= live_bits.len() {
            0
        } else if shadow {
            live_bits[i]
        } else if i < visible.len() {
            live_bits[i] & visible[i]
        } else {
            0
        };
        out.push(word);
        i = i + 1;
    }
    if rem != 0 {
        proof {
            lemma_low_mask(rem, 0);
        }
        let last: u32 = out[words - 1];
        out.set(words - 1, last & ((1u32 << rem) - 1));
    }
    proof {
        assert(out@ =~= walk_mask(live_bits@, visible@, slot_count, shadow));
        law_walk_mask(live_bits@, visible@, slot_count, shadow);
    }
}

// ---------------------------------------------------------------------------
// Face runs
// ---------------------------------------------------------------------------

/// Index counts of upload-order face `k`, from packed pairs of quad counts.
pub open spec fn face_indices(face_quads: Seq<u32>, k: int) -> int {
    if k % 2 == 0 {
        6 * (face_quads[k / 2] as int % 0x1_0000)
    } else {
        6 * (face_quads[k / 2] as int / 0x1_0000)
    }
}

/// Indices of the faces before `k`.
pub open spec fn face_start(face_quads: Seq<u32>, k: int) -> int
    decreases k,
{
    if k <= 0 {
        0
    } else {
        face_start(face_quads, k - 1) + face_indices(face_quads, k - 1)
    }
}

/// Cumulative index bounds of the six faces, from packed pairs of quad counts.
pub fn packed_face_bounds(face_quads: [u32; 3]) -> (bounds: [u32; 7])
    ensures
        forall|k: int| 0 <= k < 7 ==> #[trigger] bounds[k] == face_start(face_quads@, k),
{
    proof {
        reveal_with_fuel(face_start, 8);
        assert forall|i: int| 0 <= i < 3 implies {
            &&& #[trigger] face_quads@[i] & 0xFFFF == face_quads@[i] as int % 0x1_0000
            &&& face_quads@[i] >> 16 == face_quads@[i] as int / 0x1_0000
            &&& face_quads@[i] & 0xFFFF <= 0xFFFF
            &&& face_quads@[i] >> 16 <= 0xFFFF
        } by {
            let p = face_quads@[i];
            assert(p & 0xFFFF == p % 0x1_0000) by (bit_vector);
            assert(p >> 16 == p / 0x1_0000) by (bit_vector);
        }
    }
    let b1: u32 = 6 * (face_quads[0] & 0xFFFF);
    let b2: u32 = b1 + 6 * (face_quads[0] >> 16);
    let b3: u32 = b2 + 6 * (face_quads[1] & 0xFFFF);
    let b4: u32 = b3 + 6 * (face_quads[1] >> 16);
    let b5: u32 = b4 + 6 * (face_quads[2] & 0xFFFF);
    let b6: u32 = b5 + 6 * (face_quads[2] >> 16);
    proof {
        assert(b1 == face_start(face_quads@, 1));
        assert(b2 == face_start(face_quads@, 2));
        assert(b3 == face_start(face_quads@, 3));
        assert(b4 == face_start(face_quads@, 4));
        assert(b5 == face_start(face_quads@, 5));
        assert(b6 == face_start(face_quads@, 6));
    }
    [0, b1, b2, b3, b4, b5, b6]
}

#[derive(Clone, Copy, Debug, PartialEq, Eq, Structural)]
pub struct FaceRun {
    pub first_index: u32,
    pub index_count: u32,
}

/// Face `k` is visible and not empty.
pub open spec fn occupied_face(vis: Seq<bool>, bounds: Seq<u32>, k: int) -> bool {
    vis[k] && bounds[k + 1] != bounds[k]
}

/// Face `k` opens a run: occupied, and the face before it is not.
pub open spec fn opens_run(vis: Seq<bool>, bounds: Seq<u32>, k: int) -> bool {
    occupied_face(vis, bounds, k) && (k == 0 || !occupied_face(vis, bounds, k - 1))
}

/// One past the last face of the run that face `k` lies in.
pub open spec fn run_end(vis: Seq<bool>, bounds: Seq<u32>, k: int) -> int
    decreases 6 - k,
{
    if 0 <= k < 6 && occupied_face(vis, bounds, k) {
        run_end(vis, bounds, k + 1)
    } else {
        k
    }
}

/// The maximal runs of occupied faces that open below face `n`, ascending.
pub open spec fn face_runs(vis: Seq<bool>, bounds: Seq<u32>, n: int) -> Seq<FaceRun>
    decreases n,
{
    if n <= 0 {
        Seq::empty()
    } else if opens_run(vis, bounds, n - 1) {
        let end = run_end(vis, bounds, n - 1);
        face_runs(vis, bounds, n - 1).push(
            FaceRun {
                first_index: bounds[n - 1],
                index_count: (bounds[end] - bounds[n - 1]) as u32,
            },
        )
    } else {
        face_runs(vis, bounds, n - 1)
    }
}

proof fn lemma_run_end_bounds(vis: Seq<bool>, bounds: Seq<u32>, k: int)
    requires
        0 <= k <= 6,
    ensures
        k <= run_end(vis, bounds, k) <= 6,
    decreases 6 - k,
{
    if k < 6 && occupied_face(vis, bounds, k) {
        lemma_run_end_bounds(vis, bounds, k + 1);
    }
}

proof fn lemma_run_end(vis: Seq<bool>, bounds: Seq<u32>, k: int, e: int)
    requires
        0 <= k <= e <= 6,
        forall|j: int| k <= j < e ==> #[trigger] occupied_face(vis, bounds, j),
        e == 6 || !occupied_face(vis, bounds, e),
    ensures
        run_end(vis, bounds, k) == e,
    decreases e - k,
{
    if k < e {
        assert(occupied_face(vis, bounds, k));
        lemma_run_end(vis, bounds, k + 1, e);
    }
}

/// Six faces hold at most three runs.
pub proof fn lemma_run_count(vis: Seq<bool>, bounds: Seq<u32>, n: int)
    requires
        0 <= n <= 6,
    ensures
        2 * face_runs(vis, bounds, n).len() <= n + 1,
        n > 0 && !opens_run(vis, bounds, n - 1) ==> 2 * face_runs(vis, bounds, n).len() <= n,
    decreases n,
{
    if n > 0 {
        lemma_run_count(vis, bounds, n - 1);
        if n > 1 && opens_run(vis, bounds, n - 1) {
            assert(!opens_run(vis, bounds, n - 2));
        }
    }
}

/// Merges consecutive visible non-empty faces into at most three runs; returns
/// how many of `out` are in use. The entries behind them stay as they were.
pub fn merge_face_runs(vis: [bool; 6], bounds: [u32; 7], out: &mut [FaceRun; 3]) -> (count: usize)
    requires
        forall|k: int| 0 <= k < 6 ==> #[trigger] bounds[k] <= bounds[k + 1],
    ensures
        count <= MAX_FACE_RUNS,
        final(out)@.take(count as int) == face_runs(vis@, bounds@, 6),
        forall|j: int| count <= j < 3 ==> #[trigger] final(out)@[j] == old(out)@[j],
{
    let mut n: usize = 0;
    let mut open: bool = false;
    let mut start: usize = 0;
    let mut k: usize = 0;
    proof {
        assert(out@.take(0) =~= Seq::empty());
    }
    while k < 6
        invariant
            k <= 6,
            forall|i: int| 0 <= i < 6 ==> #[trigger] bounds[i] <= bounds[i + 1],
            n <= 3,
            forall|j: int| n <= j < 3 ==> #[trigger] out@[j] == old(out)@[j],
            open ==> {
                &&& start < k
                &&& 2 * n <= start
                &&& opens_run(vis@, bounds@, start as int)
                &&& forall|j: int| start <= j < k ==> #[trigger] occupied_face(vis@, bounds@, j)
                &&& out@.take(n as int) == face_runs(vis@, bounds@, start as int)
            },
            !open ==> {
                &&& 2 * n <= k
                &&& (k > 0 ==> !occupied_face(vis@, bounds@, k - 1))
                &&& out@.take(n as int) == face_runs(vis@, bounds@, k as int)
            },
        decreases 6 - k,
    {
        let occ: bool = vis[k] && bounds[k + 1] != bounds[k];
        assert(occ == occupied_face(vis@, bounds@, k as int));
        if occ {
            if !open {
                open = true;
                start = k;
            }
        } else if open {
            proof {
                lemma_run_end(vis@, bounds@, start as int, k as int);
                lemma_bounds_grow(bounds@, start as int, k as int);
                lemma_no_run_inside(vis@, bounds@, start as int, k as int);
            }
            let ghost before = out@;
            out[n] = FaceRun { first_index: bounds[start], index_count: bounds[k] - bounds[start] };
            proof {
                assert(out@.take(n + 1) =~= before.take(n as int).push(out@[n as int]));
            }
            n = n + 1;
            open = false;
        }
        k = k + 1;
    }
    if open {
        proof {
            lemma_run_end(vis@, bounds@, start as int, 6);
            lemma_bounds_grow(bounds@, start as int, 6);
            lemma_no_run_inside(vis@, bounds@, start as int, 5);
        }
        let ghost before = out@;
        out[n] = FaceRun { first_index: bounds[start], index_count: bounds[6] - bounds[start] };
        proof {
            assert(out@.take(n + 1) =~= before.take(n as int).push(out@[n as int]));
        }
        n = n + 1;
    }
    n
}

proof fn lemma_bounds_grow(bounds: Seq<u32>, a: int, b: int)
    requires
        0 <= a <= b <= 6,
        forall|i: int| 0 <= i < 6 ==> #[trigger] bounds[i] <= bounds[i + 1],
    ensures
        bounds[a] <= bounds[b],
    decreases b - a,
{
    if a < b {
        lemma_bounds_grow(bounds, a, b - 1);
        assert(bounds[b - 1] <= bounds[b - 1 + 1]);
    }
}

/// Between the opening face of a run and the first face past it no other run
/// opens.
proof fn lemma_no_run_inside(vis: Seq<bool>, bounds: Seq<u32>, start: int, k: int)
    requires
        0 <= start <= k <= 6,
        opens_run(vis, bounds, start),
        k == start || forall|j: int| start <= j < k ==> #[trigger] occupied_face(vis, bounds, j),
    ensures
        face_runs(vis, bounds, k + 1) == face_runs(vis, bounds, start).push(
            FaceRun {
                first_index: bounds[start],
                index_count: (bounds[run_end(vis, bounds, start)] - bounds[start]) as u32,
            },
        ),
    decreases k - start,
{
    if k > start {
        lemma_no_run_inside(vis, bounds, start, k - 1);
        assert(occupied_face(vis, bounds, k - 1));
        assert(!opens_run(vis, bounds, k));
    }
}

/// Indices of the occupied faces below `n`.
pub open spec fn occupied_indices(vis: Seq<bool>, bounds: Seq<u32>, n: int) -> int
    decreases n,
{
    if n <= 0 {
        0
    } else {
        occupied_indices(vis, bounds, n - 1) + if occupied_face(vis, bounds, n - 1) {
            bounds[n] - bounds[n - 1]
        } else {
            0
        }
    }
}

/// Indices that the runs draw.
pub open spec fn run_indices(runs: Seq<FaceRun>) -> int
    decreases runs.len(),
{
    if runs.len() == 0 {
        0
    } else {
        run_indices(runs.drop_last()) + runs.last().index_count
    }
}

/// The runs draw exactly the indices of the visible, non-empty faces.
pub proof fn law_runs_draw_exactly_the_visible_faces(vis: Seq<bool>, bounds: Seq<u32>)
    requires
        vis.len() == 6,
        bounds.len() == 7,
        forall|k: int| 0 <= k < 6 ==> #[trigger] bounds[k] <= bounds[k + 1],
    ensures
        run_indices(face_runs(vis, bounds, 6)) == occupied_indices(vis, bounds, 6),
{
    lemma_runs_sum(vis, bounds, 6);
    if occupied_face(vis, bounds, 5) {
        lemma_run_end(vis, bounds, 5, 6);
    }
}

spec fn covered_to(vis: Seq<bool>, bounds: Seq<u32>, n: int) -> int {
    if n > 0 && occupied_face(vis, bounds, n - 1) {
        run_end(vis, bounds, n - 1)
    } else {
        n
    }
}

proof fn lemma_occupied_span(vis: Seq<bool>, bounds: Seq<u32>, k: int)
    requires
        0 <= k <= 6,
    ensures
        occupied_indices(vis, bounds, run_end(vis, bounds, k)) == occupied_indices(vis, bounds, k)
            + bounds[run_end(vis, bounds, k)] - bounds[k],
    decreases 6 - k,
{
    if k < 6 && occupied_face(vis, bounds, k) {
        lemma_occupied_span(vis, bounds, k + 1);
    }
}

proof fn lemma_runs_sum(vis: Seq<bool>, bounds: Seq<u32>, n: int)
    requires
        0 <= n <= 6,
        forall|k: int| 0 <= k < 6 ==> #[trigger] bounds[k] <= bounds[k + 1],
    ensures
        run_indices(face_runs(vis, bounds, n)) == occupied_indices(
            vis,
            bounds,
            covered_to(vis, bounds, n),
        ),
    decreases n,
{
    if n > 0 {
        lemma_runs_sum(vis, bounds, n - 1);
        let k = n - 1;
        if opens_run(vis, bounds, k) {
            lemma_run_end_bounds(vis, bounds, k);
            lemma_occupied_span(vis, bounds, k);
            lemma_bounds_grow(bounds, k, run_end(vis, bounds, k));
            let runs = face_runs(vis, bounds, n);
            assert(runs.drop_last() =~= face_runs(vis, bounds, k));
        }
    }
}

/// The run that face `k` opens.
spec fn run_from(vis: Seq<bool>, bounds: Seq<u32>, k: int) -> FaceRun {
    FaceRun {
        first_index: bounds[k],
        index_count: (bounds[run_end(vis, bounds, k)] - bounds[k]) as u32,
    }
}

/// Run `r` is the one that face `k` opens.
spec fn opened_by(vis: Seq<bool>, bounds: Seq<u32>, n: int, k: int, r: FaceRun) -> bool {
    0 <= k < n && opens_run(vis, bounds, k) && r == run_from(vis, bounds, k)
}

spec fn opened(vis: Seq<bool>, bounds: Seq<u32>, n: int, r: FaceRun) -> bool {
    exists|k: int| opened_by(vis, bounds, n, k, r)
}

proof fn lemma_runs_opened(vis: Seq<bool>, bounds: Seq<u32>, n: int)
    requires
        0 <= n <= 6,
    ensures
        forall|r: FaceRun| #[trigger]
            face_runs(vis, bounds, n).contains(r) <==> opened(vis, bounds, n, r),
    decreases n,
{
    let all = face_runs(vis, bounds, n);
    if n > 0 {
        let m = n - 1;
        let less = face_runs(vis, bounds, m);
        lemma_runs_opened(vis, bounds, m);
        assert forall|r: FaceRun| #[trigger] all.contains(r) <==> opened(vis, bounds, n, r) by {
            if all.contains(r) {
                let i = choose|i: int| 0 <= i < all.len() && all[i] == r;
                if i < less.len() {
                    assert(less[i] == r);
                    assert(less.contains(r));
                    let k = choose|k: int| opened_by(vis, bounds, m, k, r);
                    assert(opened_by(vis, bounds, n, k, r));
                } else {
                    assert(opened_by(vis, bounds, n, n - 1, r));
                }
            }
            if opened(vis, bounds, n, r) {
                let k = choose|k: int| opened_by(vis, bounds, n, k, r);
                if k < n - 1 {
                    assert(opened_by(vis, bounds, m, k, r));
                    assert(less.contains(r));
                    let i = choose|i: int| 0 <= i < less.len() && less[i] == r;
                    assert(all[i] == r);
                } else {
                    assert(all[less.len() as int] == r);
                }
            }
        }
    } else {
        assert forall|r: FaceRun| #[trigger] all.contains(r) <==> opened(vis, bounds, n, r) by {
            if opened(vis, bounds, n, r) {
                let k = choose|k: int| opened_by(vis, bounds, n, k, r);
                assert(false);
            }
        }
    }
}

/// An occupied face lies in the run of some face at or before it.
proof fn lemma_opener(vis: Seq<bool>, bounds: Seq<u32>, k: int) -> (o: int)
    requires
        0 <= k < 6,
        occupied_face(vis, bounds, k),
    ensures
        0 <= o <= k,
        opens_run(vis, bounds, o),
        run_end(vis, bounds, o) == run_end(vis, bounds, k),
        k < run_end(vis, bounds, o) <= 6,
    decreases k,
{
    lemma_run_end_bounds(vis, bounds, k + 1);
    if k == 0 || !occupied_face(vis, bounds, k - 1) {
        k
    } else {
        lemma_opener(vis, bounds, k - 1)
    }
}

/// An index between two bounds lies in some face between them.
proof fn lemma_face_of(bounds: Seq<u32>, a: int, e: int, j: int) -> (k: int)
    requires
        0 <= a < e <= 6,
        bounds[a] <= j < bounds[e],
    ensures
        a <= k < e,
        bounds[k] <= j < bounds[k + 1],
    decreases e - a,
{
    if j < bounds[a + 1] {
        a
    } else {
        lemma_face_of(bounds, a + 1, e, j)
    }
}

proof fn lemma_run_is_occupied(vis: Seq<bool>, bounds: Seq<u32>, o: int, k: int)
    requires
        0 <= o <= k < run_end(vis, bounds, o),
    ensures
        0 <= k < 6,
        occupied_face(vis, bounds, k),
    decreases k - o,
{
    lemma_run_end_bounds(vis, bounds, o);
    if o < k {
        lemma_run_is_occupied(vis, bounds, o + 1, k);
    }
}

/// An index is drawn where, and only where, it belongs to a face that can be seen.
pub proof fn law_an_index_is_drawn_with_its_face(vis: Seq<bool>, bounds: Seq<u32>, j: int)
    requires
        vis.len() == 6,
        bounds.len() == 7,
        forall|k: int| 0 <= k < 6 ==> #[trigger] bounds[k] <= bounds[k + 1],
    ensures
        (exists|i: int|
            0 <= i < face_runs(vis, bounds, 6).len() && (#[trigger] face_runs(
                vis,
                bounds,
                6,
            )[i]).first_index <= j < face_runs(vis, bounds, 6)[i].first_index + face_runs(
                vis,
                bounds,
                6,
            )[i].index_count) <==> (exists|k: int|
            0 <= k < 6 && #[trigger] vis[k] && bounds[k] <= j < bounds[k + 1]),
{
    let runs = face_runs(vis, bounds, 6);
    lemma_runs_opened(vis, bounds, 6);
    if exists|i: int|
        0 <= i < runs.len() && (#[trigger] runs[i]).first_index <= j < runs[i].first_index
            + runs[i].index_count {
        let i = choose|i: int|
            0 <= i < runs.len() && (#[trigger] runs[i]).first_index <= j < runs[i].first_index
                + runs[i].index_count;
        assert(runs.contains(runs[i]));
        let o = choose|o: int| opened_by(vis, bounds, 6, o, runs[i]);
        let e = run_end(vis, bounds, o);
        lemma_run_end_bounds(vis, bounds, o);
        lemma_run_end_bounds(vis, bounds, o + 1);
        lemma_bounds_grow(bounds, o, e);
        let k = lemma_face_of(bounds, o, e, j);
        lemma_run_is_occupied(vis, bounds, o, k);
        assert(vis[k]);
    }
    if exists|k: int| 0 <= k < 6 && #[trigger] vis[k] && bounds[k] <= j < bounds[k + 1] {
        let k = choose|k: int| 0 <= k < 6 && #[trigger] vis[k] && bounds[k] <= j < bounds[k + 1];
        let o = lemma_opener(vis, bounds, k);
        let e = run_end(vis, bounds, o);
        lemma_bounds_grow(bounds, o, k);
        lemma_bounds_grow(bounds, k + 1, e);
        let r = run_from(vis, bounds, o);
        assert(opened_by(vis, bounds, 6, o, r));
        assert(runs.contains(r));
        let i = choose|i: int| 0 <= i < runs.len() && runs[i] == r;
        assert(runs[i].first_index <= j < runs[i].first_index + runs[i].index_count);
    }
}

/// Face `k` has six indices for each of its quads; the quads of two faces share a word, the
/// even face in the low half.
pub proof fn law_face_indices_are_six_to_a_quad(face_quads: Seq<u32>, k: int)
    requires
        0 <= k < 6,
    ensures
        face_start(face_quads, 0) == 0,
        k % 2 == 0 ==> face_start(face_quads, k + 1) - face_start(face_quads, k) == 6 * (
        face_quads[k / 2] & 0xFFFF),
        k % 2 == 1 ==> face_start(face_quads, k + 1) - face_start(face_quads, k) == 6 * (
        face_quads[k / 2] >> 16),
{
    let w = face_quads[k / 2];
    assert(w & 0xFFFF == w % 0x1_0000 && w >> 16 == w / 0x1_0000) by (bit_vector);
}

/// A partition that can hold a command is one indirect call more, an empty one is none.
pub proof fn law_each_partition_with_room_is_one_call(parts: Seq<PartitionGpu>, p: PartitionGpu)
    ensures
        nonzero_parts(parts.push(p)) == nonzero_parts(parts) + if p.capacity > 0 {
            1int
        } else {
            0
        },
        nonzero_parts(Seq::empty()) == 0,
        nonzero_parts(parts) <= parts.len(),
    decreases parts.len(),
{
    assert(parts.push(p).drop_last() =~= parts);
    if parts.len() > 0 {
        law_each_partition_with_room_is_one_call(parts.drop_last(), p);
    }
}

} // verus!
