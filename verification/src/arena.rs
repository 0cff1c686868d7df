//! Arena directory: which device buffers hold meshes, how many live meshes each
//! holds per draw lane, and the per-slot state that culling reads.
//!
//! Box coordinates are held by their bit patterns. Where a union of boxes has to
//! grow, the caller passes the operation that widens one box by another.

use vstd::prelude::*;

use crate::bucket_geometry;
use crate::bucket_geometry::{Eye, Scale};
use crate::cull_math;
use crate::cull_math::{PartitionGpu, BUCKETS, SHADOW_GROUPS};
use crate::handles::{MeshStats, MeshStatsShared};
use crate::mesh::{Generation, Pass};
use crate::slot_list;

verus! {

/// Mesh box in block space, relative to `block`.
#[derive(Clone, Copy, Debug, PartialEq, Eq)]
pub struct MeshAabb {
    pub block: [i32; 3],
    pub min: [u32; 3],
    pub max: [u32; 3],
}

/// A box relative to the integer `origin`.
#[derive(Clone, Copy, Debug, PartialEq, Eq)]
pub struct ArenaBox {
    pub origin: [i32; 3],
    pub min: [u32; 3],
    pub max: [u32; 3],
}

/// Conservative union of the live camera-group boxes of one arena. `dirty` means
/// that a contributor has left and the union must be rebuilt from the arena's
/// members before it is asked.
#[derive(Clone, Copy)]
pub struct ArenaUnion {
    pub bounds: ArenaBox,
    pub dirty: bool,
    pub valid: bool,
}

/// Where a registered slot lives.
#[derive(Clone, Copy)]
pub struct Placement {
    pub arena: u32,
    pub lane: Option<usize>,
    pub generation: Generation,
}

/// What culling needs of a mesh record to emit its draw.
#[derive(Clone, Copy)]
pub struct CullDraw {
    pub index_count: u32,
    pub vertex_offset: i32,
    pub face_quads: [u32; 3],
    /// The mesh may be drawn face run by face run.
    pub face_runs: bool,
}

// ---------------------------------------------------------------------------
// Packed cull bits
// ---------------------------------------------------------------------------

/// Arena word in bits [0, 20).
pub const CULL_ARENA_MASK: u32 = 0x000F_FFFF;

/// Pass in bits [20, 22).
pub const CULL_PASS_SHIFT: u32 = 20;

pub const CULL_LOD_BIT: u32 = 0x40_0000;

pub const CULL_FACE_BIT: u32 = 0x80_0000;

pub open spec fn pass_number(pass: Pass) -> u32 {
    match pass {
        Pass::Opaque => 0,
        Pass::Cutout => 1,
        Pass::Blend => 2,
    }
}

pub open spec fn packed_bits(arena_word: u32, pass: u32, lod: bool) -> u32 {
    (arena_word & 0x000F_FFFF) | ((pass & 3) << 20u32) | (if lod {
        0x40_0000u32
    } else {
        0u32
    })
}

/// Packs arena word, pass and level of detail; zero means dead to the cull.
pub fn pack_cull_bits(arena_word: u32, pass: Pass, lod: bool) -> (bits: u32)
    requires
        0 < arena_word <= CULL_ARENA_MASK,
    ensures
        bits == packed_bits(arena_word, pass_number(pass), lod),
{
    let pass_u: u32 = match pass {
        Pass::Opaque => 0,
        Pass::Cutout => 1,
        Pass::Blend => 2,
    };
    let lod_bit: u32 = if lod {
        CULL_LOD_BIT
    } else {
        0
    };
    (arena_word & CULL_ARENA_MASK) | ((pass_u & 3) << CULL_PASS_SHIFT) | lod_bit
}

pub fn cull_bits_arena(bits: u32) -> (word: u32)
    ensures
        word == bits & CULL_ARENA_MASK,
{
    bits & CULL_ARENA_MASK
}

pub fn cull_bits_pass(bits: u32) -> (pass: u32)
    ensures
        pass == (bits >> CULL_PASS_SHIFT) & 3,
{
    (bits >> CULL_PASS_SHIFT) & 3
}

pub fn cull_bits_lod(bits: u32) -> (lod: bool)
    ensures
        lod == (bits & CULL_LOD_BIT != 0),
{
    bits & CULL_LOD_BIT != 0
}

pub fn cull_bits_face(bits: u32) -> (face: bool)
    ensures
        face == (bits & CULL_FACE_BIT != 0),
{
    bits & CULL_FACE_BIT != 0
}

/// Unpacking gives back what was packed, whatever the face flag says, and the
/// face flag is read on its own.
pub proof fn law_cull_bits_roundtrip(arena_word: u32, pass: u32, lod: bool, face: bool)
    requires
        0 < arena_word <= CULL_ARENA_MASK,
        pass <= 3,
    ensures
        ({
            let face_bit = if face {
                CULL_FACE_BIT
            } else {
                0
            };
            let bits = packed_bits(arena_word, pass, lod) | face_bit;
            &&& bits & CULL_ARENA_MASK == arena_word
            &&& (bits >> CULL_PASS_SHIFT) & 3 == pass
            &&& (bits & CULL_LOD_BIT != 0) == lod
            &&& (bits & CULL_FACE_BIT != 0) == face
            &&& bits & !CULL_FACE_BIT == packed_bits(arena_word, pass, lod)
            &&& bits != 0
        }),
{
    let l: u32 = if lod {
        0x40_0000
    } else {
        0
    };
    let f: u32 = if face {
        0x80_0000
    } else {
        0
    };
    assert({
        let bits = ((arena_word & 0x000F_FFFF) | ((pass & 3) << 20u32) | l) | f;
        &&& bits & 0x000F_FFFF == arena_word
        &&& (bits >> 20u32) & 3 == pass
        &&& (bits & 0x40_0000 != 0) == (l == 0x40_0000)
        &&& (bits & 0x80_0000 != 0) == (f == 0x80_0000)
        &&& bits & !0x80_0000u32 == (arena_word & 0x000F_FFFF) | ((pass & 3) << 20u32) | l
        &&& bits != 0
    }) by (bit_vector)
        requires
            0 < arena_word <= 0x000F_FFFF,
            pass <= 3,
            l == 0 || l == 0x40_0000,
            f == 0 || f == 0x80_0000,
    ;
}

/// Live-count lane of a record; blend has none.
pub open spec fn lane_of(pass: Pass, lod: bool) -> Option<usize> {
    match pass {
        Pass::Opaque => if lod {
            Some(2usize)
        } else {
            Some(0usize)
        },
        Pass::Cutout => Some(1usize),
        Pass::Blend => None,
    }
}

pub fn group_lane(pass: Pass, lod: bool) -> (lane: Option<usize>)
    ensures
        lane == lane_of(pass, lod),
{
    match pass {
        Pass::Opaque => if lod {
            Some(2)
        } else {
            Some(0)
        },
        Pass::Cutout => Some(1),
        Pass::Blend => None,
    }
}

// ---------------------------------------------------------------------------
// Directory
// ---------------------------------------------------------------------------

pub type Table = Seq<Option<Placement>>;

pub open spec fn in_lane(p: Option<Placement>, arena: int, lane: Option<usize>) -> bool {
    p matches Some(x) && x.arena == arena && x.lane == lane
}

/// Registered slots of `arena` in `lane`.
pub open spec fn lane_count(slots: Table, arena: int, lane: Option<usize>) -> nat
    decreases slots.len(),
{
    if slots.len() == 0 {
        0
    } else {
        lane_count(slots.drop_last(), arena, lane) + if in_lane(slots.last(), arena, lane) {
            1nat
        } else {
            0
        }
    }
}

/// Rows with at least one reference.
pub open spec fn occupied_rows(refs: Seq<u32>) -> nat
    decreases refs.len(),
{
    if refs.len() == 0 {
        0
    } else {
        occupied_rows(refs.drop_last()) + if refs.last() > 0 {
            1nat
        } else {
            0
        }
    }
}

/// Slot `s` is registered in a camera lane of `arena`.
pub open spec fn is_member(slots: Table, arena: int, s: u32) -> bool {
    &&& s < slots.len()
    &&& slots[s as int] matches Some(p) && p.arena == arena && p.lane is Some
}

pub open spec fn member_set(slots: Table, arena: int) -> Set<u32> {
    Set::new(|s: u32| is_member(slots, arena, s))
}

/// Slot `s` is registered without a camera lane.
pub open spec fn is_blend(slots: Table, s: u32) -> bool {
    s < slots.len() && (slots[s as int] matches Some(p) && p.lane is None)
}

pub open spec fn blend_set(slots: Table) -> Set<u32> {
    Set::new(|s: u32| is_blend(slots, s))
}

/// Slot `s` is registered in some camera lane.
pub open spec fn is_laned(slots: Table, s: int) -> bool {
    0 <= s < slots.len() && (slots[s] matches Some(p) && p.lane is Some)
}

/// The packed bits of a slot agree with its placement.
pub open spec fn bits_match(p: Option<Placement>, bits: u32) -> bool {
    let plain = bits & !CULL_FACE_BIT;
    match p {
        Some(x) if x.lane is Some => {
            &&& bits & CULL_ARENA_MASK == x.arena + 1
            &&& exists|pass: Pass, lod: bool|
                lane_of(pass, lod) == x.lane && plain == #[trigger] packed_bits(
                    (x.arena + 1) as u32,
                    pass_number(pass),
                    lod,
                )
        },
        _ => plain == 0,
    }
}

/// Row `i` is in use and holds `buffer`.
pub open spec fn holds_buffer(buffers: Seq<u64>, refs: Seq<u32>, buffer: u64, i: int) -> bool {
    0 <= i < buffers.len() && refs[i] > 0 && buffers[i] == buffer
}

/// Row `i` is there and nothing refers to it.
pub open spec fn drained(refs: Seq<u32>, i: int) -> bool {
    0 <= i < refs.len() && refs[i] == 0
}

/// The row that an upload into `buffer` takes: the row in use that holds the
/// buffer, else the first drained row, else a new one.
pub open spec fn takes_row(buffers: Seq<u64>, refs: Seq<u32>, buffer: u64, row: int) -> bool {
    ||| holds_buffer(buffers, refs, buffer, row)
    ||| {
        &&& forall|i: int| !#[trigger] holds_buffer(buffers, refs, buffer, i)
        &&& drained(refs, row)
        &&& forall|j: int| 0 <= j < row ==> !#[trigger] drained(refs, j)
    }
    ||| {
        &&& forall|i: int| !#[trigger] holds_buffer(buffers, refs, buffer, i)
        &&& forall|j: int| !#[trigger] drained(refs, j)
        &&& row == buffers.len()
    }
}

/// Each row's member list is exactly its camera-lane slots.
pub open spec fn members_ok(members: Seq<Vec<u32>>, pos: Seq<u32>, slots: Table) -> bool {
    &&& pos.len() == slots.len()
    &&& forall|a: int|
        0 <= a < members.len() ==> slot_list::list_ok(
            (#[trigger] members[a])@,
            pos,
            member_set(slots, a),
        )
    &&& forall|s: int| 0 <= s < pos.len() && !is_laned(slots, s) ==> #[trigger] pos[s] == 0
}

/// The blend list is exactly the registered slots without a lane.
pub open spec fn blend_ok(blend: Seq<u32>, pos: Seq<u32>, slots: Table) -> bool {
    &&& pos.len() == slots.len()
    &&& slot_list::list_ok(blend, pos, blend_set(slots))
    &&& forall|s: int| 0 <= s < pos.len() && !is_blend(slots, s as u32) ==> #[trigger] pos[s] == 0
}

pub struct ArenaDirectory {
    pub buffers: Vec<u64>,
    /// Live opaque, cutout and LOD-opaque counts per arena.
    pub live: Vec<[u32; 3]>,
    /// Reference count per arena; zero means reusable.
    pub refs: Vec<u32>,
    pub slots: Vec<Option<Placement>>,
    /// Per-slot box, meaningful while the slot is registered.
    pub aabbs: Vec<MeshAabb>,
    /// Packed arena, pass and LOD per slot (0: dead to the cull).
    pub cull_bits: Vec<u32>,
    pub cull_index_count: Vec<u32>,
    pub cull_vertex_offset: Vec<i32>,
    pub cull_face_quads: Vec<[u32; 3]>,
    /// Bit per slot: registered in a camera lane.
    pub live_bits: Vec<u32>,
    pub unions: Vec<ArenaUnion>,
    /// Camera-group slots per arena, unordered.
    pub members: Vec<Vec<u32>>,
    pub member_pos: Vec<u32>,
    /// Registered blend slots, unordered.
    pub blend: Vec<u32>,
    pub blend_pos: Vec<u32>,
    /// One past the highest registered slot.
    pub live_end: u32,
    /// Rows with a reference.
    pub occupied: u32,
}

impl ArenaDirectory {
    /// Every table has one entry per slot or per arena.
    pub open spec fn shape_ok(&self) -> bool {
        let n = self.slots.len();
        let a = self.buffers.len();
        &&& n <= u32::MAX
        &&& self.aabbs.len() == n
        &&& self.cull_bits.len() == n
        &&& self.cull_index_count.len() == n
        &&& self.cull_vertex_offset.len() == n
        &&& self.cull_face_quads.len() == n
        &&& self.live_bits.len() == cull_math::words_for(n as int)
        &&& self.member_pos.len() == n
        &&& self.blend_pos.len() == n
        &&& self.live.len() == a
        &&& self.refs.len() == a
        &&& self.unions.len() == a
        &&& self.members.len() == a
        &&& a <= CULL_ARENA_MASK
    }

    /// Registered slots name a row and one of the lanes.
    pub open spec fn slots_ok(&self) -> bool {
        forall|s: int|
            0 <= s < self.slots.len() ==> (#[trigger] self.slots[s] matches Some(p) ==> {
                &&& p.arena < self.buffers.len()
                &&& p.lane matches Some(l) ==> l < 3
            })
    }

    /// A row counts the slots registered in it.
    pub open spec fn row_ok(&self, a: int) -> bool {
        &&& self.live[a][0] == lane_count(self.slots@, a, Some(0usize))
        &&& self.live[a][1] == lane_count(self.slots@, a, Some(1usize))
        &&& self.live[a][2] == lane_count(self.slots@, a, Some(2usize))
        &&& self.refs[a] == self.live[a][0] + self.live[a][1] + self.live[a][2] + lane_count(
            self.slots@,
            a,
            None,
        )
    }

    pub open spec fn rows_ok(&self) -> bool {
        forall|a: int| 0 <= a < self.buffers.len() ==> #[trigger] self.row_ok(a)
    }

    /// Rows in use name different buffers.
    pub open spec fn buffers_apart(&self) -> bool {
        forall|a: int, b: int|
            0 <= a < b < self.buffers.len() && self.refs[a] > 0 && self.refs[b] > 0
                ==> #[trigger] self.buffers[a] != #[trigger] self.buffers[b]
    }

    pub open spec fn lists_ok(&self) -> bool {
        &&& members_ok(self.members@, self.member_pos@, self.slots@)
        &&& blend_ok(self.blend@, self.blend_pos@, self.slots@)
    }

    pub open spec fn cull_ok(&self) -> bool {
        &&& forall|s: int|
            0 <= s < self.slots.len() ==> bits_match(self.slots[s], #[trigger] self.cull_bits[s])
        &&& forall|s: int|
            0 <= s < 32 * self.live_bits.len() ==> #[trigger] cull_math::mask_bit(
                self.live_bits@,
                s,
            ) == is_laned(self.slots@, s)
    }

    pub open spec fn end_ok(&self) -> bool {
        &&& self.live_end <= self.slots.len()
        &&& self.live_end > 0 ==> self.slots[self.live_end - 1] is Some
        &&& forall|s: int|
            self.live_end <= s < self.slots.len() ==> (#[trigger] self.slots[s]) is None
    }

    pub open spec fn wf(&self) -> bool {
        &&& self.shape_ok()
        &&& self.slots_ok()
        &&& self.rows_ok()
        &&& self.buffers_apart()
        &&& self.lists_ok()
        &&& self.cull_ok()
        &&& self.end_ok()
        &&& self.occupied == occupied_rows(self.refs@)
    }

    /// The cell `after` is `before` with the number of rows in use.
    pub open spec fn published(&self, before: MeshStatsShared, after: MeshStatsShared) -> bool {
        after.stats == (MeshStats { arenas: occupied_rows(self.refs@) as u32, ..before.stats })
    }

    pub fn new() -> (dir: Self)
        ensures
            dir.wf(),
            dir.buffers.len() == 0,
            dir.slots.len() == 0,
            forall|inside: spec_fn(MeshAabb, ArenaBox) -> bool| #[trigger] covers(&dir, inside),
    {
        ArenaDirectory {
            buffers: Vec::new(),
            live: Vec::new(),
            refs: Vec::new(),
            slots: Vec::new(),
            aabbs: Vec::new(),
            cull_bits: Vec::new(),
            cull_index_count: Vec::new(),
            cull_vertex_offset: Vec::new(),
            cull_face_quads: Vec::new(),
            live_bits: Vec::new(),
            unions: Vec::new(),
            members: Vec::new(),
            member_pos: Vec::new(),
            blend: Vec::new(),
            blend_pos: Vec::new(),
            live_end: 0,
            occupied: 0,
        }
    }
}

spec fn weight(b: bool) -> int {
    if b {
        1
    } else {
        0
    }
}

proof fn lemma_lane_update(slots: Table, i: int, p: Option<Placement>, a: int, lane: Option<usize>)
    requires
        0 <= i < slots.len(),
    ensures
        lane_count(slots.update(i, p), a, lane) == lane_count(slots, a, lane) - weight(
            in_lane(slots[i], a, lane),
        ) + weight(in_lane(p, a, lane)),
    decreases slots.len(),
{
    let after = slots.update(i, p);
    if i == slots.len() - 1 {
        assert(after.drop_last() =~= slots.drop_last());
    } else {
        lemma_lane_update(slots.drop_last(), i, p, a, lane);
        assert(after.drop_last() =~= slots.drop_last().update(i, p));
    }
}

proof fn lemma_lane_grow(slots: Table, n: int, a: int, lane: Option<usize>)
    ensures
        lane_count(slot_list::resized(slots, n, None), a, lane) == lane_count(slots, a, lane),
    decreases n - slots.len(),
{
    let grown = slot_list::resized(slots, n, None);
    if n > slots.len() {
        lemma_lane_grow(slots, n - 1, a, lane);
        assert(grown.drop_last() =~= slot_list::resized(slots, n - 1, None));
    }
}

/// A row that no registered slot names has no lane count.
proof fn lemma_lane_none(slots: Table, a: int, lane: Option<usize>)
    requires
        forall|s: int| 0 <= s < slots.len() ==> (#[trigger] slots[s] matches Some(p) ==> p.arena != a),
    ensures
        lane_count(slots, a, lane) == 0,
    decreases slots.len(),
{
    if slots.len() > 0 {
        lemma_lane_none(slots.drop_last(), a, lane);
        assert(slots[slots.len() - 1] == slots.last());
    }
}

/// A row counts no more slots than there are.
proof fn lemma_row_bound(slots: Table, a: int)
    ensures
        lane_count(slots, a, Some(0usize)) + lane_count(slots, a, Some(1usize)) + lane_count(
            slots,
            a,
            Some(2usize),
        ) + lane_count(slots, a, None) <= slots.len(),
    decreases slots.len(),
{
    if slots.len() > 0 {
        lemma_row_bound(slots.drop_last(), a);
    }
}

/// A registered slot is counted.
proof fn lemma_lane_counts_slot(slots: Table, i: int)
    requires
        0 <= i < slots.len(),
        slots[i] is Some,
    ensures
        lane_count(slots, (slots[i]->Some_0).arena as int, (slots[i]->Some_0).lane) >= 1,
    decreases slots.len(),
{
    if i < slots.len() - 1 {
        lemma_lane_counts_slot(slots.drop_last(), i);
    }
}

proof fn lemma_occupied_update(refs: Seq<u32>, i: int, v: u32)
    requires
        0 <= i < refs.len(),
    ensures
        occupied_rows(refs.update(i, v)) == occupied_rows(refs) - weight(refs[i] > 0) + weight(
            v > 0,
        ),
    decreases refs.len(),
{
    let after = refs.update(i, v);
    if i == refs.len() - 1 {
        assert(after.drop_last() =~= refs.drop_last());
    } else {
        lemma_occupied_update(refs.drop_last(), i, v);
        assert(after.drop_last() =~= refs.drop_last().update(i, v));
    }
}

proof fn lemma_occupied_bound(refs: Seq<u32>)
    ensures
        occupied_rows(refs) <= refs.len(),
    decreases refs.len(),
{
    if refs.len() > 0 {
        lemma_occupied_bound(refs.drop_last());
    }
}

/// No contributor and nothing pending; the box is all zero.
pub open spec fn is_empty_union(u: ArenaUnion) -> bool {
    &&& !u.valid
    &&& !u.dirty
    &&& u.bounds.origin@ == seq![0i32, 0, 0]
    &&& u.bounds.min@ == seq![0u32, 0, 0]
    &&& u.bounds.max@ == seq![0u32, 0, 0]
}

pub open spec fn box_of(aabb: MeshAabb) -> ArenaBox {
    ArenaBox { origin: aabb.block, min: aabb.min, max: aabb.max }
}

/// `r` is `u` with `aabb` added. Whether a rebuild is pending stays as it was:
/// a fresh box can lie outside the stale union.
pub open spec fn grown<F: Fn(ArenaBox, MeshAabb) -> ArenaBox>(
    expand: F,
    u: ArenaUnion,
    aabb: MeshAabb,
    r: ArenaUnion,
) -> bool {
    &&& r.valid
    &&& r.dirty == u.dirty
    &&& if u.valid {
        call_ensures(expand, (u.bounds, aabb), r.bounds)
    } else {
        r.bounds == box_of(aabb)
    }
}

/// Widening a box keeps what is `inside` it and takes the new box in; a box is
/// inside itself.
pub open spec fn keeps_inside<F: Fn(ArenaBox, MeshAabb) -> ArenaBox>(
    expand: F,
    inside: spec_fn(MeshAabb, ArenaBox) -> bool,
) -> bool {
    &&& forall|m: MeshAabb| inside(m, #[trigger] box_of(m))
    &&& forall|b: ArenaBox, m: MeshAabb, r: ArenaBox| #[trigger]
        call_ensures(expand, (b, m), r) ==> inside(m, r) && forall|k: MeshAabb| #[trigger]
            inside(k, b) ==> inside(k, r)
}

/// Row `a`'s union, unless it is stale, holds the box of each of its members.
pub open spec fn row_covered(
    d: &ArenaDirectory,
    inside: spec_fn(MeshAabb, ArenaBox) -> bool,
    a: int,
) -> bool {
    !d.unions[a].dirty ==> forall|s: u32| #[trigger]
        is_member(d.slots@, a, s) ==> d.unions[a].valid && inside(
            d.aabbs[s as int],
            d.unions[a].bounds,
        )
}

/// Every union that is not stale holds the boxes of its members.
pub open spec fn covers(
    d: &ArenaDirectory,
    inside: spec_fn(MeshAabb, ArenaBox) -> bool,
) -> bool {
    forall|a: int| 0 <= a < d.buffers.len() ==> #[trigger] row_covered(d, inside, a)
}

fn empty_union() -> (u: ArenaUnion)
    ensures
        is_empty_union(u),
{
    let origin: [i32; 3] = [0, 0, 0];
    let corner: [u32; 3] = [0, 0, 0];
    proof {
        assert(origin@ =~= seq![0i32, 0, 0]);
        assert(corner@ =~= seq![0u32, 0, 0]);
    }
    ArenaUnion {
        bounds: ArenaBox { origin, min: corner, max: corner },
        dirty: false,
        valid: false,
    }
}

fn grow_union<F: Fn(ArenaBox, MeshAabb) -> ArenaBox>(u: ArenaUnion, aabb: MeshAabb, expand: &F) -> (r:
    ArenaUnion)
    requires
        forall|b: ArenaBox, m: MeshAabb| call_requires(*expand, (b, m)),
    ensures
        grown(*expand, u, aabb, r),
{
    let bounds: ArenaBox = if u.valid {
        expand(u.bounds, aabb)
    } else {
        ArenaBox { origin: aabb.block, min: aabb.min, max: aabb.max }
    };
    ArenaUnion { bounds, dirty: u.dirty, valid: true }
}

proof fn lemma_set_bit(word: u32, b: u32, c: u32)
    requires
        b < 32,
        c < 32,
    ensures
        cull_math::word_bit(word | (1u32 << b), c) == (b == c || cull_math::word_bit(word, c)),
        cull_math::word_bit(word & !(1u32 << b), c) == (b != c && cull_math::word_bit(word, c)),
{
    assert(((word | (1u32 << b)) & (1u32 << c) != 0) == (b == c || word & (1u32 << c) != 0))
        by (bit_vector)
        requires
            b < 32,
            c < 32,
    ;
    assert(((word & !(1u32 << b)) & (1u32 << c) != 0) == (b != c && word & (1u32 << c) != 0))
        by (bit_vector)
        requires
            b < 32,
            c < 32,
    ;
}

fn set_live_bit(words: &mut Vec<u32>, slot: u32, on: bool)
    requires
        slot as int / 32 < old(words).len(),
    ensures
        final(words).len() == old(words).len(),
        forall|s: int|
            0 <= s < 32 * old(words).len() ==> #[trigger] cull_math::mask_bit(final(words)@, s) == (
            if s == slot {
                on
            } else {
                cull_math::mask_bit(old(words)@, s)
            }),
{
    proof {
        cull_math::lemma_slot_word(slot);
    }
    let i: usize = (slot >> 5) as usize;
    let low: u32 = slot & 31;
    let b: u32 = 1u32 << low;
    let word: u32 = words[i];
    let next: u32 = if on {
        word | b
    } else {
        word & !b
    };
    words.set(i, next);
    proof {
        assert forall|s: int| 0 <= s < 32 * old(words).len() implies #[trigger] cull_math::mask_bit(
            words@,
            s,
        ) == (if s == slot {
            on
        } else {
            cull_math::mask_bit(old(words)@, s)
        }) by {
            if s / 32 == i {
                lemma_set_bit(word, low, (s % 32) as u32);
            }
        }
    }
}

/// Growing a mask by clear words leaves every bit as it reads.
proof fn lemma_mask_grow(words: Seq<u32>, n: int, s: int)
    requires
        0 <= s,
    ensures
        cull_math::mask_bit(slot_list::resized(words, n, 0u32), s) == cull_math::mask_bit(words, s),
{
    let b = (s % 32) as u32;
    assert(0u32 & (1u32 << b) == 0) by (bit_vector);
}

/// `after` is `before` with zero boxes up to `n` entries.
pub open spec fn resized_boxes(before: Seq<MeshAabb>, n: int, after: Seq<MeshAabb>) -> bool {
    &&& after.len() == (if before.len() >= n {
        before.len() as int
    } else {
        n
    })
    &&& forall|s: int| 0 <= s < before.len() ==> #[trigger] after[s] == before[s]
    &&& forall|s: int| before.len() <= s < after.len() ==> is_zero_box(#[trigger] after[s])
}

/// A box at the origin without extent.
pub open spec fn is_zero_box(b: MeshAabb) -> bool {
    &&& b.block@ == seq![0i32, 0, 0]
    &&& b.min@ == seq![0u32, 0, 0]
    &&& b.max@ == seq![0u32, 0, 0]
}

/// `after` is `before` with empty face counts up to `n` entries.
pub open spec fn resized_quads(before: Seq<[u32; 3]>, n: int, after: Seq<[u32; 3]>) -> bool {
    &&& after.len() == (if before.len() >= n {
        before.len() as int
    } else {
        n
    })
    &&& forall|s: int| 0 <= s < before.len() ==> #[trigger] after[s] == before[s]
    &&& forall|s: int|
        before.len() <= s < after.len() ==> (#[trigger] after[s])@ == seq![0u32, 0, 0]
}

/// Everything that has one entry per slot is unchanged.
pub open spec fn same_slot_tables(d: &ArenaDirectory, e: &ArenaDirectory) -> bool {
    &&& d.slots == e.slots
    &&& d.aabbs == e.aabbs
    &&& d.cull_bits == e.cull_bits
    &&& d.cull_index_count == e.cull_index_count
    &&& d.cull_vertex_offset == e.cull_vertex_offset
    &&& d.cull_face_quads == e.cull_face_quads
    &&& d.live_bits == e.live_bits
    &&& d.member_pos == e.member_pos
    &&& d.blend == e.blend
    &&& d.blend_pos == e.blend_pos
    &&& d.live_end == e.live_end
}

impl ArenaDirectory {
    /// Finds or makes the row for `buffer` and takes a reference on it.
    fn claim_row(&mut self, buffer: u64) -> (row: usize)
        requires
            old(self).live.len() == old(self).buffers.len(),
            old(self).refs.len() == old(self).buffers.len(),
            old(self).unions.len() == old(self).buffers.len(),
            old(self).members.len() == old(self).buffers.len(),
            old(self).buffers.len() < u32::MAX,
            old(self).occupied == occupied_rows(old(self).refs@),
            old(self).buffers_apart(),
            forall|i: int|
                #[trigger] holds_buffer(old(self).buffers@, old(self).refs@, buffer, i)
                    ==> old(self).refs[i] < u32::MAX,
        ensures
            same_slot_tables(final(self), old(self)),
            final(self).buffers_apart(),
            takes_row(old(self).buffers@, old(self).refs@, buffer, row as int),
            row <= old(self).buffers.len(),
            final(self).occupied == occupied_rows(final(self).refs@),
            if row < old(self).buffers.len() {
                &&& final(self).buffers@ == old(self).buffers@.update(row as int, buffer)
                &&& final(self).refs@ == old(self).refs@.update(
                    row as int,
                    (old(self).refs[row as int] + 1) as u32,
                )
                &&& final(self).live == old(self).live
                &&& final(self).members == old(self).members
                &&& final(self).unions.len() == old(self).unions.len()
                &&& forall|i: int|
                    0 <= i < old(self).unions.len() && (i != row || old(self).refs[i] > 0)
                        ==> #[trigger] final(self).unions[i] == old(self).unions[i]
                &&& old(self).refs[row as int] == 0 ==> is_empty_union(
                    final(self).unions[row as int],
                )
            } else {
                &&& final(self).buffers@ == old(self).buffers@.push(buffer)
                &&& final(self).refs@ == old(self).refs@.push(1)
                &&& final(self).live.len() == row + 1
                &&& final(self).live@.take(row as int) == old(self).live@
                &&& final(self).live[row as int]@ == seq![0u32, 0, 0]
                &&& final(self).members.len() == row + 1
                &&& final(self).members@.take(row as int) == old(self).members@
                &&& final(self).members[row as int]@ == Seq::<u32>::empty()
                &&& final(self).unions.len() == row + 1
                &&& final(self).unions@.take(row as int) == old(self).unions@
                &&& is_empty_union(final(self).unions[row as int])
            },
    {
        let n: usize = self.buffers.len();
        let mut row: usize = 0;
        while row < n && !(self.refs[row] > 0 && self.buffers[row] == buffer)
            invariant
                *self == *old(self),
                n == self.buffers.len(),
                self.refs.len() == n,
                row <= n,
                forall|j: int|
                    0 <= j < row ==> !#[trigger] holds_buffer(self.buffers@, self.refs@, buffer, j),
            decreases n - row,
        {
            proof {
                assert(!holds_buffer(self.buffers@, self.refs@, buffer, row as int));
            }
            row = row + 1;
        }
        if row < n {
            proof {
                assert(holds_buffer(self.buffers@, self.refs@, buffer, row as int));
                lemma_occupied_update(self.refs@, row as int, (self.refs[row as int] + 1) as u32);
                assert(self.buffers@.update(row as int, buffer) =~= self.buffers@);
            }
            self.refs.set(row, self.refs[row] + 1);
            return row;
        }
        proof {
            assert forall|j: int| !#[trigger] holds_buffer(
                self.buffers@,
                self.refs@,
                buffer,
                j,
            ) by {}
        }
        let mut row: usize = 0;
        while row < n && self.refs[row] != 0
            invariant
                *self == *old(self),
                n == self.buffers.len(),
                self.refs.len() == n,
                row <= n,
                forall|j: int| 0 <= j < row ==> !#[trigger] drained(self.refs@, j),
            decreases n - row,
        {
            proof {
                assert(!drained(self.refs@, row as int));
            }
            row = row + 1;
        }
        proof {
            lemma_occupied_bound(self.refs@);
        }
        let ghost d0 = *self;
        if row < n {
            proof {
                lemma_occupied_update(self.refs@, row as int, 1);
            }
            self.buffers.set(row, buffer);
            self.unions.set(row, empty_union());
            self.refs.set(row, 1);
        } else {
            proof {
                assert(self.refs@.push(1).drop_last() =~= self.refs@);
            }
            self.buffers.push(buffer);
            let fresh: [u32; 3] = [0, 0, 0];
            assert(fresh@ =~= seq![0u32, 0, 0]);
            self.live.push(fresh);
            self.refs.push(1);
            self.unions.push(empty_union());
            self.members.push(Vec::new());
            proof {
                assert(self.live@.take(row as int) =~= old(self).live@);
                assert(self.members@.take(row as int) =~= old(self).members@);
                assert(self.unions@.take(row as int) =~= old(self).unions@);
            }
        }
        self.occupied = self.occupied + 1;
        proof {
            assert forall|a: int, b: int|
                0 <= a < b < self.buffers.len() && self.refs[a] > 0 && self.refs[b]
                    > 0 implies #[trigger] self.buffers[a] != #[trigger] self.buffers[b] by {
                if a == row {
                    assert(!holds_buffer(d0.buffers@, d0.refs@, buffer, b));
                } else if b == row {
                    assert(!holds_buffer(d0.buffers@, d0.refs@, buffer, a));
                } else {
                    assert(d0.buffers[a] != d0.buffers[b]);
                }
            }
        }
        row
    }
}

/// Takes `slot` out of its row's member list.
fn detach_member(
    members: &mut Vec<Vec<u32>>,
    pos: &mut Vec<u32>,
    slot: u32,
    arena: usize,
    Ghost(slots): Ghost<Table>,
    Ghost(next): Ghost<Table>,
)
    requires
        members_ok(old(members)@, old(pos)@, slots),
        slots.len() <= u32::MAX,
        arena < old(members).len(),
        is_member(slots, arena as int, slot),
        next.len() == slots.len(),
        !is_laned(next, slot as int),
        forall|s: int| 0 <= s < slots.len() && s != slot ==> #[trigger] next[s] == slots[s],
    ensures
        final(members).len() == old(members).len(),
        members_ok(final(members)@, final(pos)@, next),
{
    let ghost m0 = members@;
    let ghost p0 = pos@;
    slot_list::list_remove(
        &mut members[arena],
        pos,
        slot,
        Ghost(member_set(slots, arena as int)),
    );
    proof {
        assert forall|a: int| 0 <= a < members.len() implies slot_list::list_ok(
            (#[trigger] members@[a])@,
            pos@,
            member_set(next, a),
        ) by {
            if a == arena {
                assert(member_set(next, a) =~= member_set(slots, a).remove(slot)) by {
                    assert forall|t: u32| member_set(next, a).contains(t) == member_set(
                        slots,
                        a,
                    ).remove(slot).contains(t) by {
                        if t != slot && t < slots.len() {
                            assert(next[t as int] == slots[t as int]);
                        }
                    }
                }
            } else {
                assert(members@[a] == m0[a]);
                assert(member_set(next, a) =~= member_set(slots, a)) by {
                    assert forall|t: u32| member_set(next, a).contains(t) == member_set(
                        slots,
                        a,
                    ).contains(t) by {
                        if t != slot && t < slots.len() {
                            assert(next[t as int] == slots[t as int]);
                        }
                    }
                }
                assert forall|t: u32| #[trigger] member_set(slots, a).contains(t) implies slot_list::pos_at(
                    pos@,
                    t as int,
                ) == slot_list::pos_at(p0, t as int) by {
                    assert(!member_set(slots, arena as int).contains(t));
                    assert(pos@[t as int] == p0[t as int]);
                }
                slot_list::lemma_list_frame(members@[a]@, p0, pos@, member_set(slots, a));
            }
        }
        assert forall|s: int| 0 <= s < pos.len() && !is_laned(next, s) implies #[trigger] pos@[s]
            == 0 by {
            if s == slot {
                assert(slot_list::pos_at(pos@, slot as int) == 0);
            } else {
                assert(next[s] == slots[s]);
                assert(!member_set(slots, arena as int).contains(s as u32));
                assert(pos@[s] == p0[s]);
            }
        }
    }
}

/// Puts `slot` into `arena`'s member list.
fn attach_member(
    members: &mut Vec<Vec<u32>>,
    pos: &mut Vec<u32>,
    slot: u32,
    arena: usize,
    Ghost(slots): Ghost<Table>,
    Ghost(next): Ghost<Table>,
)
    requires
        members_ok(old(members)@, old(pos)@, slots),
        slots.len() <= u32::MAX,
        arena < old(members).len(),
        slot < slots.len(),
        !is_laned(slots, slot as int),
        next.len() == slots.len(),
        is_member(next, arena as int, slot),
        forall|s: int| 0 <= s < slots.len() && s != slot ==> #[trigger] next[s] == slots[s],
    ensures
        final(members).len() == old(members).len(),
        members_ok(final(members)@, final(pos)@, next),
{
    let ghost m0 = members@;
    let ghost p0 = pos@;
    let ghost set = member_set(slots, arena as int);
    proof {
        assert(slot_list::list_ok(members@[arena as int]@, pos@, set));
        slot_list::lemma_list_len_without(
            members@[arena as int]@,
            pos@,
            set,
            slots.len() as int,
            slot,
        );
    }
    slot_list::list_insert(&mut members[arena], pos, slot, Ghost(set));
    proof {
        assert forall|a: int| 0 <= a < members.len() implies slot_list::list_ok(
            (#[trigger] members@[a])@,
            pos@,
            member_set(next, a),
        ) by {
            if a == arena {
                assert(member_set(next, a) =~= set.insert(slot)) by {
                    assert forall|t: u32| member_set(next, a).contains(t) == set.insert(
                        slot,
                    ).contains(t) by {
                        if t != slot && t < slots.len() {
                            assert(next[t as int] == slots[t as int]);
                        }
                    }
                }
            } else {
                assert(members@[a] == m0[a]);
                assert(member_set(next, a) =~= member_set(slots, a)) by {
                    assert forall|t: u32| member_set(next, a).contains(t) == member_set(
                        slots,
                        a,
                    ).contains(t) by {
                        if t != slot && t < slots.len() {
                            assert(next[t as int] == slots[t as int]);
                        }
                    }
                }
                assert forall|t: u32| #[trigger] member_set(slots, a).contains(t) implies slot_list::pos_at(
                    pos@,
                    t as int,
                ) == slot_list::pos_at(p0, t as int) by {
                    assert(t != slot);
                    assert(pos@[t as int] == p0[t as int]);
                }
                slot_list::lemma_list_frame(members@[a]@, p0, pos@, member_set(slots, a));
            }
        }
        assert forall|s: int| 0 <= s < pos.len() && !is_laned(next, s) implies #[trigger] pos@[s]
            == 0 by {
            assert(s != slot);
            assert(next[s] == slots[s]);
            assert(pos@[s] == p0[s]);
        }
    }
}

/// Adds `slot` to, or removes it from, the blend list; idempotent either way.
fn set_blend(
    blend: &mut Vec<u32>,
    pos: &mut Vec<u32>,
    slot: u32,
    on: bool,
    Ghost(slots): Ghost<Table>,
    Ghost(next): Ghost<Table>,
)
    requires
        blend_ok(old(blend)@, old(pos)@, slots),
        slots.len() <= u32::MAX,
        slot < slots.len(),
        next.len() == slots.len(),
        on == is_blend(next, slot),
        forall|s: int| 0 <= s < slots.len() && s != slot ==> #[trigger] next[s] == slots[s],
    ensures
        blend_ok(final(blend)@, final(pos)@, next),
{
    let ghost set = blend_set(slots);
    let ghost p0 = pos@;
    let at: u32 = pos[slot as usize];
    proof {
        assert((at != 0) == set.contains(slot));
        assert forall|t: u32| blend_set(next).contains(t) == (if t == slot {
            on
        } else {
            set.contains(t)
        }) by {
            if t != slot && t < slots.len() {
                assert(next[t as int] == slots[t as int]);
            }
        }
    }
    if on && at == 0 {
        proof {
            slot_list::lemma_list_len_without(blend@, pos@, set, slots.len() as int, slot);
        }
        slot_list::list_insert(blend, pos, slot, Ghost(set));
        proof {
            assert(blend_set(next) =~= set.insert(slot));
        }
    } else if !on && at != 0 {
        slot_list::list_remove(blend, pos, slot, Ghost(set));
        proof {
            assert(blend_set(next) =~= set.remove(slot));
        }
    } else {
        proof {
            assert(blend_set(next) =~= set);
        }
    }
    proof {
        assert forall|s: int| 0 <= s < pos.len() && !is_blend(next, s as u32) implies #[trigger] pos@[s]
            == 0 by {
            if s == slot {
                assert(slot_list::pos_at(pos@, slot as int) == 0);
            } else {
                assert(next[s] == slots[s]);
                assert(!set.contains(s as u32));
                assert(pos@[s] == p0[s]);
            }
        }
    }
}

/// The bits written for a slot: packed placement with the face flag kept, or
/// zero without a lane.
pub open spec fn written_bits(before: u32, arena: int, pass: Pass, lod: bool) -> u32 {
    if lane_of(pass, lod) is Some {
        packed_bits((arena + 1) as u32, pass_number(pass), lod) | (before & CULL_FACE_BIT)
    } else {
        0
    }
}

proof fn lemma_face_bit(bits: u32)
    ensures
        bits & CULL_FACE_BIT == 0 || bits & CULL_FACE_BIT == CULL_FACE_BIT,
        0u32 & !CULL_FACE_BIT == 0,
        (bits | CULL_FACE_BIT) & !CULL_FACE_BIT == bits & !CULL_FACE_BIT,
        (bits & !CULL_FACE_BIT) & !CULL_FACE_BIT == bits & !CULL_FACE_BIT,
        (bits | CULL_FACE_BIT) & CULL_ARENA_MASK == bits & CULL_ARENA_MASK,
        (bits & !CULL_FACE_BIT) & CULL_ARENA_MASK == bits & CULL_ARENA_MASK,
        (bits | CULL_FACE_BIT) & CULL_FACE_BIT != 0,
        (bits & !CULL_FACE_BIT) & CULL_FACE_BIT == 0,
        (bits & CULL_FACE_BIT) & !CULL_FACE_BIT == 0,
{
    assert(bits & 0x80_0000 == 0 || bits & 0x80_0000 == 0x80_0000) by (bit_vector);
    assert(0u32 & !0x80_0000u32 == 0) by (bit_vector);
    assert({
        &&& (bits | 0x80_0000) & !0x80_0000u32 == bits & !0x80_0000u32
        &&& (bits & !0x80_0000u32) & !0x80_0000u32 == bits & !0x80_0000u32
        &&& (bits | 0x80_0000) & 0x000F_FFFF == bits & 0x000F_FFFF
        &&& (bits & !0x80_0000u32) & 0x000F_FFFF == bits & 0x000F_FFFF
        &&& (bits | 0x80_0000) & 0x80_0000 != 0
        &&& (bits & !0x80_0000u32) & 0x80_0000 == 0
        &&& (bits & 0x80_0000) & !0x80_0000u32 == 0
    }) by (bit_vector);
}

proof fn lemma_written_bits_match(before: u32, p: Placement, pass: Pass, lod: bool)
    requires
        p.arena < CULL_ARENA_MASK,
        p.lane == lane_of(pass, lod),
    ensures
        bits_match(Some(p), written_bits(before, p.arena as int, pass, lod)),
{
    lemma_face_bit(before);
    if p.lane is Some {
        let face = before & CULL_FACE_BIT != 0;
        law_cull_bits_roundtrip((p.arena + 1) as u32, pass_number(pass), lod, face);
        let bits = written_bits(before, p.arena as int, pass, lod);
        assert(bits & !CULL_FACE_BIT == packed_bits((p.arena + 1) as u32, pass_number(pass), lod));
    }
}

/// Well-formedness does not rest on what the unions hold.
proof fn lemma_wf_rests_on_tables(d: ArenaDirectory, e: ArenaDirectory)
    requires
        d.wf(),
        e == (ArenaDirectory { unions: e.unions, ..d }),
        e.unions.len() == d.unions.len(),
    ensures
        e.wf(),
{
    assert forall|a: int| 0 <= a < e.buffers.len() implies #[trigger] e.row_ok(a) by {
        assert(d.row_ok(a));
    }
}

impl ArenaDirectory {
    fn publish(&self, stats: &mut MeshStatsShared)
        requires
            self.occupied == occupied_rows(self.refs@),
        ensures
            self.published(*old(stats), *final(stats)),
    {
        stats.store_arenas(self.occupied);
    }

    /// Publishes the number of rows in use to the cell that the directory's
    /// operations are lent from then on.
    pub fn attach_stats(&self, stats: &mut MeshStatsShared)
        requires
            self.wf(),
        ensures
            self.published(*old(stats), *final(stats)),
    {
        self.publish(stats);
    }

    /// Makes every per-slot table reach past `slot`.
    fn grow_tables(&mut self, slot: u32)
        requires
            old(self).wf(),
            slot < u32::MAX,
        ensures
            final(self).wf(),
            final(self).slots@ == slot_list::resized(old(self).slots@, slot + 1, None),
            resized_boxes(old(self).aabbs@, slot + 1, final(self).aabbs@),
            final(self).cull_bits@ == slot_list::resized(old(self).cull_bits@, slot + 1, 0u32),
            final(self).cull_index_count@ == slot_list::resized(
                old(self).cull_index_count@,
                slot + 1,
                0u32,
            ),
            final(self).cull_vertex_offset@ == slot_list::resized(
                old(self).cull_vertex_offset@,
                slot + 1,
                0i32,
            ),
            resized_quads(old(self).cull_face_quads@, slot + 1, final(self).cull_face_quads@),
            final(self).buffers == old(self).buffers,
            final(self).live == old(self).live,
            final(self).refs == old(self).refs,
            final(self).unions == old(self).unions,
            final(self).live_end == old(self).live_end,
            final(self).occupied == old(self).occupied,
    {
        let n: usize = slot as usize + 1;
        let ghost slots0 = self.slots@;
        let zero: MeshAabb = MeshAabb { block: [0, 0, 0], min: [0, 0, 0], max: [0, 0, 0] };
        let quads: [u32; 3] = [0, 0, 0];
        proof {
            assert(zero.block@ =~= seq![0i32, 0, 0]);
            assert(zero.min@ =~= seq![0u32, 0, 0]);
            assert(zero.max@ =~= seq![0u32, 0, 0]);
            assert(quads@ =~= seq![0u32, 0, 0]);
        }
        if self.slots.len() < n {
            slot_list::grow_to(&mut self.slots, n, None);
            slot_list::grow_to(&mut self.aabbs, n, zero);
            slot_list::grow_to(&mut self.cull_bits, n, 0u32);
            slot_list::grow_to(&mut self.cull_index_count, n, 0u32);
            slot_list::grow_to(&mut self.cull_vertex_offset, n, 0i32);
            slot_list::grow_to(&mut self.cull_face_quads, n, quads);
            slot_list::grow_to(&mut self.member_pos, n, 0u32);
            slot_list::grow_to(&mut self.blend_pos, n, 0u32);
            let words: usize = n / 32 + (if n % 32 != 0 {
                1usize
            } else {
                0usize
            });
            let ghost bits0 = self.live_bits@;
            slot_list::grow_to(&mut self.live_bits, words, 0u32);
            proof {
                lemma_face_bit(0);
                assert forall|a: int, l: Option<usize>| #[trigger]
                    lane_count(self.slots@, a, l) == lane_count(slots0, a, l) by {
                    lemma_lane_grow(slots0, n as int, a, l);
                }
                assert forall|a: int| 0 <= a < self.buffers.len() implies #[trigger] self.row_ok(
                    a,
                ) by {
                    assert(old(self).row_ok(a));
                }
                assert forall|a: int| 0 <= a < self.members.len() implies slot_list::list_ok(
                    (#[trigger] self.members@[a])@,
                    self.member_pos@,
                    member_set(self.slots@, a),
                ) by {
                    assert(member_set(self.slots@, a) =~= member_set(slots0, a));
                    slot_list::lemma_list_frame(
                        self.members@[a]@,
                        old(self).member_pos@,
                        self.member_pos@,
                        member_set(slots0, a),
                    );
                }
                assert(blend_set(self.slots@) =~= blend_set(slots0));
                slot_list::lemma_list_frame(
                    self.blend@,
                    old(self).blend_pos@,
                    self.blend_pos@,
                    blend_set(slots0),
                );
                assert forall|s: int| 0 <= s < 32 * self.live_bits.len() implies #[trigger] cull_math::mask_bit(
                    self.live_bits@,
                    s,
                ) == is_laned(self.slots@, s) by {
                    lemma_mask_grow(bits0, words as int, s);
                    if s < 32 * bits0.len() {
                        assert(cull_math::mask_bit(bits0, s) == is_laned(slots0, s));
                    }
                }
            }
        }
    }

    /// Marks that `arena`'s union has lost a contributor.
    fn mark_union_dirty(&mut self, arena: usize)
        requires
            arena < old(self).unions.len(),
        ensures
            *final(self) == (ArenaDirectory { unions: final(self).unions, ..*old(self) }),
            final(self).unions@ == old(self).unions@.update(
                arena as int,
                ArenaUnion { dirty: true, ..old(self).unions[arena as int] },
            ),
    {
        let u: ArenaUnion = self.unions[arena];
        self.unions.set(arena, ArenaUnion { bounds: u.bounds, dirty: true, valid: u.valid });
    }
}

/// Every per-slot table agrees with the placements.
pub open spec fn tables_ok(d: &ArenaDirectory) -> bool {
    &&& d.shape_ok()
    &&& d.slots_ok()
    &&& d.lists_ok()
    &&& d.cull_ok()
}

impl ArenaDirectory {
    /// Gives `slot` a new placement (or none) and rewrites the tables that
    /// follow it.
    fn relocate(&mut self, slot: u32, next: Option<Placement>, bits: u32)
        requires
            tables_ok(old(self)),
            slot < old(self).slots.len(),
            bits_match(next, bits),
            next matches Some(p) ==> {
                &&& p.arena < old(self).buffers.len()
                &&& p.lane matches Some(l) ==> l < 3
            },
        ensures
            tables_ok(final(self)),
            final(self).slots@ == old(self).slots@.update(slot as int, next),
            final(self).cull_bits@ == old(self).cull_bits@.update(slot as int, bits),
            *final(self) == (ArenaDirectory {
                slots: final(self).slots,
                cull_bits: final(self).cull_bits,
                live_bits: final(self).live_bits,
                members: final(self).members,
                member_pos: final(self).member_pos,
                blend: final(self).blend,
                blend_pos: final(self).blend_pos,
                ..*old(self)
            }),
    {
        let i: usize = slot as usize;
        let prev: Option<Placement> = self.slots[i];
        let ghost slots0 = self.slots@;
        let ghost slots1 = slots0.update(slot as int, next);
        let ghost gone = slots0.update(slot as int, None);
        let prev_arena: Option<u32> = match prev {
            Some(p) => if p.lane.is_some() {
                Some(p.arena)
            } else {
                None
            },
            None => None,
        };
        let next_arena: Option<u32> = match next {
            Some(p) => if p.lane.is_some() {
                Some(p.arena)
            } else {
                None
            },
            None => None,
        };
        let keep: bool = match (prev_arena, next_arena) {
            (Some(a), Some(b)) => a == b,
            _ => false,
        };
        if keep {
            proof {
                assert forall|a: int| 0 <= a < self.members.len() implies slot_list::list_ok(
                    (#[trigger] self.members@[a])@,
                    self.member_pos@,
                    member_set(slots1, a),
                ) by {
                    assert(member_set(slots1, a) =~= member_set(slots0, a));
                }
            }
        } else {
            match prev_arena {
                Some(a) => {
                    detach_member(
                        &mut self.members,
                        &mut self.member_pos,
                        slot,
                        a as usize,
                        Ghost(slots0),
                        Ghost(gone),
                    );
                },
                None => {
                    proof {
                        assert forall|a: int| 0 <= a < self.members.len() implies slot_list::list_ok(
                            (#[trigger] self.members@[a])@,
                            self.member_pos@,
                            member_set(gone, a),
                        ) by {
                            assert(member_set(gone, a) =~= member_set(slots0, a));
                        }
                    }
                },
            }
            match next_arena {
                Some(a) => {
                    attach_member(
                        &mut self.members,
                        &mut self.member_pos,
                        slot,
                        a as usize,
                        Ghost(gone),
                        Ghost(slots1),
                    );
                },
                None => {
                    proof {
                        assert forall|a: int| 0 <= a < self.members.len() implies slot_list::list_ok(
                            (#[trigger] self.members@[a])@,
                            self.member_pos@,
                            member_set(slots1, a),
                        ) by {
                            assert(member_set(slots1, a) =~= member_set(gone, a));
                        }
                    }
                },
            }
        }
        let blend: bool = match next {
            Some(p) => p.lane.is_none(),
            None => false,
        };
        set_blend(
            &mut self.blend,
            &mut self.blend_pos,
            slot,
            blend,
            Ghost(slots0),
            Ghost(slots1),
        );
        let laned: bool = next_arena.is_some();
        set_live_bit(&mut self.live_bits, slot, laned);
        self.slots.set(i, next);
        self.cull_bits.set(i, bits);
        proof {
            assert(self.slots@ == slots1);
            assert forall|s: int| 0 <= s < self.slots.len() implies bits_match(
                self.slots[s],
                #[trigger] self.cull_bits[s],
            ) by {
                if s != slot {
                    assert(bits_match(slots0[s], old(self).cull_bits[s]));
                }
            }
            assert forall|s: int| 0 <= s < 32 * self.live_bits.len() implies #[trigger] cull_math::mask_bit(
                self.live_bits@,
                s,
            ) == is_laned(self.slots@, s) by {
                if s != slot {
                    assert(cull_math::mask_bit(old(self).live_bits@, s) == is_laned(slots0, s));
                }
            }
        }
    }

    /// Takes `slot` out of its row: the row gives up its reference and its live
    /// count. `bits` are left as the slot's packed bits; `stale` says whether the
    /// row's union has to be rebuilt.
    #[verifier::rlimit(60)]
    fn take_out(&mut self, slot: u32, bits: u32, stale: bool)
        requires
            old(self).wf(),
            registered(old(self).slots@, slot as int),
            bits_match(None, bits),
            (old(self).slots@[slot as int]->Some_0).lane is Some ==> stale,
        ensures
            final(self).wf(),
            taken_out(old(self), final(self), slot, bits, stale),
    {
        let i: usize = slot as usize;
        if let Some(p) = self.slots[i] {
            let ghost d0 = *self;
            let row: usize = p.arena as usize;
            proof {
                assert(d0.row_ok(row as int));
                lemma_lane_counts_slot(d0.slots@, slot as int);
                lemma_occupied_update(d0.refs@, row as int, (d0.refs[row as int] - 1) as u32);
            }
            self.relocate(slot, None, bits);
            let left: u32 = self.refs[row] - 1;
            self.refs.set(row, left);
            if left == 0 {
                self.occupied = self.occupied.saturating_sub(1);
            }
            match p.lane {
                Some(l) => {
                    self.live[row][l] = self.live[row][l] - 1;
                },
                None => {},
            }
            let ghost d1 = *self;
            proof {
                lemma_no_members(d1, row as int);
            }
            if self.members[row].len() == 0 {
                self.unions.set(row, empty_union());
            } else if stale {
                self.mark_union_dirty(row);
            }
            if slot + 1 == self.live_end {
                // The tail died: retreat to the next registered slot.
                self.live_end = last_registered(&self.slots, i) as u32;
            }
            proof {
                lemma_move_rows(d0, *self, slot, None);
                assert forall|a: int, b: int|
                    0 <= a < b < self.buffers.len() && self.refs[a] > 0 && self.refs[b]
                        > 0 implies #[trigger] self.buffers[a] != #[trigger] self.buffers[b] by {
                    assert(d0.buffers[a] != d0.buffers[b]);
                }
            }
        }
    }

    /// Registers an upload: interns the arena block (reusing a drained row),
    /// bumps its counts, and returns the arena index for the slot's word.
    /// Camera-group slots also widen the arena's union by `aabb`. A slot that is
    /// registered already leaves its old row first.
    #[verifier::rlimit(80)]
    pub fn note_upload<F: Fn(ArenaBox, MeshAabb) -> ArenaBox>(
        &mut self,
        slot: u32,
        generation: Generation,
        buffer: u64,
        pass: Pass,
        lod: bool,
        aabb: MeshAabb,
        expand: F,
        stats: &mut MeshStatsShared,
    ) -> (arena: u32)
        requires
            old(self).wf(),
            slot < u32::MAX,
            takes_row(
                old(self).buffers@,
                refs_without(old(self).refs@, old(self).slots@, slot as int),
                buffer,
                old(self).buffers.len() as int,
            ) ==> old(self).buffers.len() < CULL_ARENA_MASK,
            forall|b: ArenaBox, m: MeshAabb| call_requires(expand, (b, m)),
        ensures
            final(self).wf(),
            takes_row(
                old(self).buffers@,
                refs_without(old(self).refs@, old(self).slots@, slot as int),
                buffer,
                arena as int,
            ),
            final(self).buffers@ == row_put(old(self).buffers@, arena as int, buffer),
            final(self).slots@ == slot_list::resized(old(self).slots@, slot + 1, None).update(
                slot as int,
                Some(Placement { arena, lane: lane_of(pass, lod), generation }),
            ),
            exists|boxes: Seq<MeshAabb>|
                resized_boxes(old(self).aabbs@, slot + 1, boxes) && final(self).aabbs@
                    == #[trigger] boxes.update(slot as int, aabb),
            final(self).cull_bits@ == slot_list::resized(
                old(self).cull_bits@,
                slot + 1,
                0u32,
            ).update(
                slot as int,
                written_bits(
                    slot_list::resized(old(self).cull_bits@, slot + 1, 0u32)[slot as int],
                    arena as int,
                    pass,
                    lod,
                ),
            ),
            final(self).cull_index_count@ == slot_list::resized(
                old(self).cull_index_count@,
                slot + 1,
                0u32,
            ),
            final(self).cull_vertex_offset@ == slot_list::resized(
                old(self).cull_vertex_offset@,
                slot + 1,
                0i32,
            ),
            resized_quads(old(self).cull_face_quads@, slot + 1, final(self).cull_face_quads@),
            forall|a: int|
                0 <= a < old(self).buffers.len() && a != arena ==> union_without(
                    old(self),
                    slot as int,
                    a,
                    #[trigger] final(self).unions[a],
                ),
            joined_union(
                old(self),
                slot as int,
                arena as int,
                lane_of(pass, lod) is Some,
                expand,
                aabb,
                final(self).unions[arena as int],
            ),
            final(self).published(*old(stats), *final(stats)),
            forall|inside: spec_fn(MeshAabb, ArenaBox) -> bool|
                keeps_inside(expand, inside) && covers(old(self), inside) ==> #[trigger] covers(
                    final(self),
                    inside,
                ),
    {
        let ghost d0 = *self;
        self.grow_tables(slot);
        let ghost d1 = *self;
        let i: usize = slot as usize;
        let face: u32 = self.cull_bits[i] & CULL_FACE_BIT;
        let prev: Option<Placement> = self.slots[i];
        proof {
            lemma_face_bit(self.cull_bits[i as int]);
            lemma_face_bit(0);
            assert(bits_match(None, face));
            if registered(d0.slots@, slot as int) {
                assert(prev == d0.slots@[slot as int]);
            } else {
                assert(prev is None);
            }
        }
        if prev.is_some() {
            self.take_out(slot, face, true);
        }
        let ghost d2 = *self;
        let lane: Option<usize> = group_lane(pass, lod);
        proof {
            lemma_table_left(d0, d1, d2, slot, face);
            assert forall|k: int| #[trigger]
                holds_buffer(self.buffers@, self.refs@, buffer, k) implies self.refs[k]
                < u32::MAX by {
                let p = Placement { arena: k as u32, lane, generation };
                assert(d2.row_ok(k));
                lemma_row_with(d2.slots@, slot as int, p, k);
            }
        }
        let row: usize = self.claim_row(buffer);
        let arena: u32 = row as u32;
        let ghost d3 = *self;
        let placement: Placement = Placement { arena, lane, generation };
        proof {
            assert(d3.slots@ == d2.slots@);
            assert(row < CULL_ARENA_MASK) by {
                if row < d2.buffers.len() {
                    assert(d2.row_ok(row as int));
                }
            }
            if row < d2.buffers.len() {
                assert(d2.row_ok(row as int));
                lemma_row_with(d2.slots@, slot as int, placement, row as int);
            } else {
                assert(self.members[row as int]@ =~= Seq::<u32>::empty());
            }
            assert forall|a: int| 0 <= a < self.members.len() implies slot_list::list_ok(
                (#[trigger] self.members@[a])@,
                self.member_pos@,
                member_set(self.slots@, a),
            ) by {
                if a < d2.members.len() {
                    assert(self.members@[a] == d2.members@[a]) by {
                        if row >= d2.buffers.len() {
                            assert(self.members@.take(row as int)[a] == d2.members@[a]);
                        }
                    }
                } else {
                    assert forall|t: u32| !member_set(self.slots@, a).contains(t) by {
                        if t < self.slots.len() {
                            assert(d2.slots[t as int] == self.slots[t as int]);
                        }
                    }
                }
            }
        }
        match lane {
            Some(l) => {
                self.live[row][l] = self.live[row][l] + 1;
            },
            None => {},
        }
        let ghost d4 = *self;
        let bits: u32 = if lane.is_some() {
            pack_cull_bits(arena + 1, pass, lod) | face
        } else {
            0
        };
        proof {
            lemma_written_bits_match(d1.cull_bits@[i as int], placement, pass, lod);
            assert(bits == written_bits(d1.cull_bits@[i as int], arena as int, pass, lod));
        }
        self.relocate(slot, Some(placement), bits);
        self.aabbs.set(i, aabb);
        if lane.is_some() {
            let u: ArenaUnion = self.unions[row];
            self.unions.set(row, grow_union(u, aabb, &expand));
        }
        if self.live_end < slot + 1 {
            self.live_end = slot + 1;
        }
        self.publish(stats);
        proof {
            lemma_upload_rows(d2, *self, slot, placement, row as int);
            assert(self.aabbs@ == d1.aabbs@.update(slot as int, aabb));
            assert(self.cull_bits@ =~= d1.cull_bits@.update(slot as int, bits));
            assert forall|a: int| 0 <= a < d0.buffers.len() && a != row implies union_without(
                &d0,
                slot as int,
                a,
                #[trigger] self.unions[a],
            ) by {
                assert(union_without(&d0, slot as int, a, d2.unions[a]));
                if row >= d2.buffers.len() {
                    assert(d3.unions@.take(row as int)[a] == d2.unions@[a]);
                }
            }
            if row < d0.buffers.len() {
                assert(union_without(&d0, slot as int, row as int, d2.unions[row as int]));
            }
            assert(union_before(&d0, slot as int, row as int, d3.unions[row as int]));
            assert forall|inside: spec_fn(MeshAabb, ArenaBox) -> bool|
                keeps_inside(expand, inside) && covers(&d0, inside) implies #[trigger] covers(
                self,
                inside,
            ) by {
                lemma_upload_covers(d0, d2, *self, slot, placement, expand, aabb, inside);
            }
        }
        arena
    }
}

/// Unions still cover their members once `slot` has moved to its new row.
proof fn lemma_upload_covers<F: Fn(ArenaBox, MeshAabb) -> ArenaBox>(
    d0: ArenaDirectory,
    d2: ArenaDirectory,
    e: ArenaDirectory,
    slot: u32,
    p: Placement,
    expand: F,
    aabb: MeshAabb,
    inside: spec_fn(MeshAabb, ArenaBox) -> bool,
)
    requires
        d0.wf(),
        d2.wf(),
        d2.buffers.len() == d0.buffers.len(),
        slot < d2.slots.len(),
        d2.refs@ == refs_without(d0.refs@, d0.slots@, slot as int),
        d2.slots@ == slot_list::resized(d0.slots@, slot + 1, None).update(slot as int, None),
        e.slots@ == d2.slots@.update(slot as int, Some(p)),
        e.aabbs[slot as int] == aabb,
        forall|s: int|
            0 <= s < d0.slots.len() && s != slot ==> #[trigger] e.aabbs[s] == d0.aabbs[s],
        d0.buffers.len() <= e.buffers.len() <= d0.buffers.len() + 1,
        e.buffers.len() > d0.buffers.len() ==> p.arena == d0.buffers.len(),
        forall|a: int|
            0 <= a < d0.buffers.len() && a != p.arena ==> union_without(
                &d0,
                slot as int,
                a,
                #[trigger] e.unions[a],
            ),
        joined_union(
            &d0,
            slot as int,
            p.arena as int,
            p.lane is Some,
            expand,
            aabb,
            e.unions[p.arena as int],
        ),
        keeps_inside(expand, inside),
        covers(&d0, inside),
    ensures
        covers(&e, inside),
{
    let rest = d2.slots@;
    assert forall|a: int, s: u32|
        s != slot && #[trigger] is_member(e.slots@, a, s) implies is_member(d0.slots@, a, s)
        && is_member(rest, a, s) && (slot < d0.slots.len() ==> is_member(
            d0.slots@.update(slot as int, None),
            a,
            s,
        )) && a < d0.buffers.len() && d2.refs[a] > 0 && e.aabbs[s as int] == d0.aabbs[s as int] by {
        assert(rest[s as int] == e.slots@[s as int]);
        assert(s < d0.slots.len());
        assert(d0.slots@[s as int] == rest[s as int]);
        assert(d0.slots[s as int] is Some);
        assert(d2.slots[s as int] is Some);
        lemma_lane_counts_slot(rest, s as int);
        assert(d2.row_ok(a));
    }
    assert forall|a: int| 0 <= a < e.buffers.len() implies #[trigger] row_covered(
        &e,
        inside,
        a,
    ) by {
        if a < d0.buffers.len() {
            assert(row_covered(&d0, inside, a));
        }
        if a == p.arena && p.lane is Some {
            let u = choose|u: ArenaUnion| #[trigger]
                union_before(&d0, slot as int, a, u) && grown(expand, u, aabb, e.unions[a]);
            assert(inside(aabb, box_of(aabb)));
        }
    }
}

/// The references of the rows once `slot` has given up its own.
pub open spec fn refs_without(refs: Seq<u32>, slots: Table, slot: int) -> Seq<u32> {
    if registered(slots, slot) {
        let row = (slots[slot]->Some_0).arena as int;
        refs.update(row, (refs[row] - 1) as u32)
    } else {
        refs
    }
}

/// No camera-lane slot is registered in row `a`.
pub open spec fn no_members(slots: Table, a: int) -> bool {
    forall|s: u32| !#[trigger] is_member(slots, a, s)
}

/// Row `a`'s union once `slot` is no longer registered as in `d`: empty when its
/// last member left with the slot, stale when others are left, and untouched when
/// the slot was elsewhere.
pub open spec fn union_without(d: &ArenaDirectory, slot: int, a: int, u: ArenaUnion) -> bool {
    if registered(d.slots@, slot) && (d.slots@[slot]->Some_0).arena == a {
        if no_members(d.slots@.update(slot, None), a) {
            is_empty_union(u)
        } else {
            u == (ArenaUnion { dirty: true, ..d.unions[a] })
        }
    } else {
        u == d.unions[a]
    }
}

/// Row `row`'s union when `slot`, no longer registered as in `d`, moves there: a row
/// that nothing else refers to starts anew.
pub open spec fn union_before(d: &ArenaDirectory, slot: int, row: int, u: ArenaUnion) -> bool {
    if row < d.buffers.len() && refs_without(d.refs@, d.slots@, slot)[row] > 0 {
        union_without(d, slot, row, u)
    } else {
        is_empty_union(u)
    }
}

/// Row `row`'s union once `slot` has moved there with `aabb`.
pub open spec fn joined_union<F: Fn(ArenaBox, MeshAabb) -> ArenaBox>(
    d: &ArenaDirectory,
    slot: int,
    row: int,
    laned: bool,
    expand: F,
    aabb: MeshAabb,
    after: ArenaUnion,
) -> bool {
    if laned {
        exists|u: ArenaUnion| #[trigger]
            union_before(d, slot, row, u) && grown(expand, u, aabb, after)
    } else {
        union_before(d, slot, row, after)
    }
}

/// `e` is `d` with `slot` taken out of its row.
pub open spec fn taken_out(
    d: &ArenaDirectory,
    e: &ArenaDirectory,
    slot: u32,
    bits: u32,
    stale: bool,
) -> bool {
    let row = (d.slots@[slot as int]->Some_0).arena as int;
    &&& e.slots@ == d.slots@.update(slot as int, None)
    &&& e.cull_bits@ == d.cull_bits@.update(slot as int, bits)
    &&& e.refs@ == d.refs@.update(row, (d.refs[row] - 1) as u32)
    &&& e.unions.len() == d.unions.len()
    &&& forall|a: int|
        0 <= a < d.unions.len() && a != row ==> #[trigger] e.unions[a] == d.unions[a]
    &&& if no_members(e.slots@, row) {
        is_empty_union(e.unions[row])
    } else if stale {
        e.unions[row] == (ArenaUnion { dirty: true, ..d.unions[row] })
    } else {
        e.unions[row] == d.unions[row]
    }
    &&& e.buffers == d.buffers
    &&& e.aabbs == d.aabbs
    &&& e.cull_index_count == d.cull_index_count
    &&& e.cull_vertex_offset == d.cull_vertex_offset
    &&& e.cull_face_quads == d.cull_face_quads
}

/// A member list is empty where no slot is a member.
proof fn lemma_no_members(d: ArenaDirectory, a: int)
    requires
        members_ok(d.members@, d.member_pos@, d.slots@),
        0 <= a < d.members.len(),
    ensures
        (d.members[a].len() == 0) == no_members(d.slots@, a),
{
    let set = member_set(d.slots@, a);
    assert(slot_list::list_ok(d.members@[a]@, d.member_pos@, set));
    if d.members[a].len() == 0 {
        assert forall|s: u32| !#[trigger] is_member(d.slots@, a, s) by {
            if is_member(d.slots@, a, s) {
                assert(set.contains(s));
            }
        }
    } else {
        assert(set.contains(d.members@[a]@[0]));
        assert(is_member(d.slots@, a, d.members@[a]@[0]));
    }
}

/// With a free slot placed in it, row `a` counts one slot more, and still no more
/// than there are.
proof fn lemma_row_with(slots: Table, i: int, p: Placement, a: int)
    requires
        0 <= i < slots.len(),
        slots[i] is None,
        p.arena == a,
        p.lane matches Some(l) ==> l < 3,
    ensures
        lane_count(slots, a, Some(0usize)) + lane_count(slots, a, Some(1usize)) + lane_count(
            slots,
            a,
            Some(2usize),
        ) + lane_count(slots, a, None) < slots.len(),
{
    lemma_lane_update(slots, i, Some(p), a, Some(0usize));
    lemma_lane_update(slots, i, Some(p), a, Some(1usize));
    lemma_lane_update(slots, i, Some(p), a, Some(2usize));
    lemma_lane_update(slots, i, Some(p), a, None);
    lemma_row_bound(slots.update(i, Some(p)), a);
}

/// What an upload finds once the tables reach its slot and the slot has left its
/// row.
proof fn lemma_table_left(
    d0: ArenaDirectory,
    d1: ArenaDirectory,
    d2: ArenaDirectory,
    slot: u32,
    face: u32,
)
    requires
        d0.wf(),
        d1.slots@ == slot_list::resized(d0.slots@, slot + 1, None),
        d1.buffers == d0.buffers,
        d1.refs == d0.refs,
        d1.unions == d0.unions,
        if registered(d0.slots@, slot as int) {
            taken_out(&d1, &d2, slot, face, true)
        } else {
            d2 == d1
        },
    ensures
        d2.refs@ == refs_without(d0.refs@, d0.slots@, slot as int),
        d2.slots@ == d1.slots@.update(slot as int, None),
        forall|a: int|
            0 <= a < d0.buffers.len() ==> union_without(
                &d0,
                slot as int,
                a,
                #[trigger] d2.unions[a],
            ),
{
    if registered(d0.slots@, slot as int) {
        assert(d1.slots@[slot as int] == d0.slots@[slot as int]);
        assert(d1.slots@ =~= d0.slots@);
        assert(d0.slots[slot as int] is Some);
    } else {
        assert(d1.slots@[slot as int] is None);
        assert(d1.slots@.update(slot as int, None) =~= d1.slots@);
    }
}

/// Row counts after `slot` has been placed in `row`.
proof fn lemma_upload_rows(
    d: ArenaDirectory,
    e: ArenaDirectory,
    slot: u32,
    placement: Placement,
    row: int,
)
    requires
        d.rows_ok(),
        d.slots_ok(),
        slot < d.slots.len(),
        d.slots@[slot as int] is None,
        placement.arena == row,
        placement.lane matches Some(l) ==> l < 3,
        0 <= row <= d.buffers.len(),
        e.slots@ == d.slots@.update(slot as int, Some(placement)),
        e.buffers.len() == (if row < d.buffers.len() {
            d.buffers.len() as int
        } else {
            d.buffers.len() + 1
        }),
        forall|a: int|
            0 <= a < d.buffers.len() && a != row ==> #[trigger] e.live[a] == d.live[a] && e.refs[a]
                == d.refs[a],
        e.refs[row] == (if row < d.buffers.len() {
            d.refs[row] as int
        } else {
            0
        }) + 1,
        forall|l: int|
            0 <= l < 3 ==> #[trigger] e.live[row][l] == (if row < d.buffers.len() {
                d.live[row][l] as int
            } else {
                0
            }) + (if placement.lane == Some(l as usize) {
                1int
            } else {
                0
            }),
    ensures
        e.rows_ok(),
{
    assert forall|a: int| 0 <= a < e.buffers.len() implies #[trigger] e.row_ok(a) by {
        lemma_lane_update(d.slots@, slot as int, Some(placement), a, Some(0usize));
        lemma_lane_update(d.slots@, slot as int, Some(placement), a, Some(1usize));
        lemma_lane_update(d.slots@, slot as int, Some(placement), a, Some(2usize));
        lemma_lane_update(d.slots@, slot as int, Some(placement), a, None);
        if a < d.buffers.len() {
            assert(d.row_ok(a));
            if a != row {
                assert(e.live[a] == d.live[a]);
            }
        } else {
            assert forall|s: int| 0 <= s < d.slots.len() implies (#[trigger] d.slots@[s] matches Some(
                p,
            ) ==> p.arena != a) by {
                assert(d.slots[s] == d.slots@[s]);
            }
            lemma_lane_none(d.slots@, a, Some(0usize));
            lemma_lane_none(d.slots@, a, Some(1usize));
            lemma_lane_none(d.slots@, a, Some(2usize));
            lemma_lane_none(d.slots@, a, None);
        }
        if a == row {
            assert(e.live[row][0] == e.live[a][0]);
            assert(e.live[row][1] == e.live[a][1]);
            assert(e.live[row][2] == e.live[a][2]);
        }
    }
}

pub open spec fn registered(slots: Table, s: int) -> bool {
    0 <= s < slots.len() && slots[s] is Some
}

/// `v` with entry `i` set, or appended.
pub open spec fn row_put<T>(v: Seq<T>, i: int, x: T) -> Seq<T> {
    if i < v.len() {
        v.update(i, x)
    } else {
        v.push(x)
    }
}

/// Row counts after `slot` has left its lane for `next` (or altogether).
proof fn lemma_move_rows(d: ArenaDirectory, e: ArenaDirectory, slot: u32, next: Option<Placement>)
    requires
        d.rows_ok(),
        d.slots_ok(),
        slot < d.slots.len(),
        d.slots@[slot as int] is Some,
        next matches Some(p) ==> p.arena == (d.slots@[slot as int]->Some_0).arena,
        e.slots@ == d.slots@.update(slot as int, next),
        e.buffers.len() == d.buffers.len(),
        forall|a: int|
            0 <= a < d.buffers.len() && a != (d.slots@[slot as int]->Some_0).arena
                ==> #[trigger] e.live[a] == d.live[a] && e.refs[a] == d.refs[a],
        ({
            let p = d.slots@[slot as int]->Some_0;
            let row = p.arena as int;
            let lane: Option<usize> = match next {
                Some(q) => q.lane,
                None => None,
            };
            &&& e.refs[row] == d.refs[row] - (if next is None {
                1int
            } else {
                0
            })
            &&& forall|l: int|
                0 <= l < 3 ==> #[trigger] e.live[row][l] == d.live[row][l] - (if p.lane == Some(
                    l as usize,
                ) {
                    1int
                } else {
                    0
                }) + (if next is Some && lane == Some(l as usize) {
                    1int
                } else {
                    0
                })
            &&& lane matches Some(l) ==> l < 3
        }),
    ensures
        e.rows_ok(),
{
    let p = d.slots@[slot as int]->Some_0;
    assert(d.slots[slot as int] is Some);
    assert forall|a: int| 0 <= a < e.buffers.len() implies #[trigger] e.row_ok(a) by {
        lemma_lane_update(d.slots@, slot as int, next, a, Some(0usize));
        lemma_lane_update(d.slots@, slot as int, next, a, Some(1usize));
        lemma_lane_update(d.slots@, slot as int, next, a, Some(2usize));
        lemma_lane_update(d.slots@, slot as int, next, a, None);
        assert(d.row_ok(a));
        if a == p.arena {
            assert(e.live[p.arena as int][0] == e.live[a][0]);
            assert(e.live[p.arena as int][1] == e.live[a][1]);
            assert(e.live[p.arena as int][2] == e.live[a][2]);
        } else {
            assert(e.live[a] == d.live[a]);
        }
    }
}

/// One past the highest registered slot at or below `slot`.
fn last_registered(slots: &Vec<Option<Placement>>, slot: usize) -> (end: usize)
    requires
        slot <= slots.len(),
    ensures
        end <= slot,
        end > 0 ==> slots[end - 1] is Some,
        forall|s: int| end <= s < slot ==> (#[trigger] slots[s]) is None,
{
    let mut end: usize = slot;
    while end > 0 && slots[end - 1].is_none()
        invariant
            end <= slot,
            slot <= slots.len(),
            forall|s: int| end <= s < slot ==> (#[trigger] slots[s]) is None,
        decreases end,
    {
        end = end - 1;
    }
    end
}

/// `slot` is registered under `generation`.
pub open spec fn holds_generation(slots: Table, slot: int, generation: u32) -> bool {
    registered(slots, slot) && (slots[slot]->Some_0).generation.value() == generation
}

impl ArenaDirectory {
    /// Registers a free, with generation check: a stale free changes nothing.
    pub fn note_free(&mut self, slot: u32, generation: Generation, stats: &mut MeshStatsShared)
        requires
            old(self).wf(),
        ensures
            final(self).wf(),
            !holds_generation(old(self).slots@, slot as int, generation.value()) ==> *final(self)
                == *old(self) && *final(stats) == *old(stats),
            holds_generation(old(self).slots@, slot as int, generation.value()) ==> {
                &&& taken_out(
                    old(self),
                    final(self),
                    slot,
                    0,
                    (old(self).slots@[slot as int]->Some_0).lane is Some,
                )
                &&& final(self).published(*old(stats), *final(stats))
            },
            forall|inside: spec_fn(MeshAabb, ArenaBox) -> bool|
                covers(old(self), inside) ==> #[trigger] covers(final(self), inside),
    {
        let i: usize = slot as usize;
        if i >= self.slots.len() {
            return ;
        }
        let p: Placement = match self.slots[i] {
            Some(p) => p,
            None => {
                return ;
            },
        };
        if p.generation.get() != generation.get() {
            return ;
        }
        proof {
            lemma_face_bit(0);
        }
        let ghost d0 = *self;
        self.take_out(slot, 0, p.lane.is_some());
        self.publish(stats);
        proof {
            assert forall|inside: spec_fn(MeshAabb, ArenaBox) -> bool|
                covers(&d0, inside) implies #[trigger] covers(self, inside) by {
                assert forall|a: int| 0 <= a < self.buffers.len() implies #[trigger] row_covered(
                    self,
                    inside,
                    a,
                ) by {
                    assert(row_covered(&d0, inside, a));
                    assert forall|s: u32| #[trigger]
                        is_member(self.slots@, a, s) implies is_member(d0.slots@, a, s) by {}
                }
            }
        }
    }

    /// Re-lanes a resident slot whose record was recomposed: moves its live
    /// count so the partition capacities keep matching what culling emits, and
    /// widens the arena's union by the new box.
    #[verifier::rlimit(60)]
    pub fn note_record<F: Fn(ArenaBox, MeshAabb) -> ArenaBox>(
        &mut self,
        slot: u32,
        pass: Pass,
        lod: bool,
        aabb: MeshAabb,
        expand: F,
    )
        requires
            old(self).wf(),
            forall|b: ArenaBox, m: MeshAabb| call_requires(expand, (b, m)),
        ensures
            final(self).wf(),
            !registered(old(self).slots@, slot as int) ==> *final(self) == *old(self),
            registered(old(self).slots@, slot as int) ==> {
                let p = old(self).slots@[slot as int]->Some_0;
                let row = p.arena as int;
                let lane = lane_of(pass, lod);
                &&& final(self).slots@ == old(self).slots@.update(
                    slot as int,
                    Some(Placement { lane, ..p }),
                )
                &&& final(self).cull_bits@ == old(self).cull_bits@.update(
                    slot as int,
                    written_bits(old(self).cull_bits@[slot as int], row, pass, lod),
                )
                &&& final(self).aabbs@ == old(self).aabbs@.update(slot as int, aabb)
                &&& final(self).buffers == old(self).buffers
                &&& final(self).refs == old(self).refs
                &&& final(self).unions.len() == old(self).unions.len()
                &&& forall|a: int|
                    0 <= a < old(self).buffers.len() && a != row ==> (
                    #[trigger] final(self).unions[a]) == old(self).unions[a]
                &&& if lane is Some {
                    grown(expand, old(self).unions[row], aabb, final(self).unions[row])
                } else if p.lane is Some {
                    final(self).unions[row] == (ArenaUnion { dirty: true, ..old(self).unions[row] })
                } else {
                    final(self).unions[row] == old(self).unions[row]
                }
                &&& final(self).cull_index_count == old(self).cull_index_count
                &&& final(self).cull_vertex_offset == old(self).cull_vertex_offset
                &&& final(self).cull_face_quads == old(self).cull_face_quads
                &&& final(self).live_end == old(self).live_end
            },
            forall|inside: spec_fn(MeshAabb, ArenaBox) -> bool|
                keeps_inside(expand, inside) && covers(old(self), inside) ==> #[trigger] covers(
                    final(self),
                    inside,
                ),
    {
        let i: usize = slot as usize;
        if i >= self.slots.len() {
            return ;
        }
        let p: Placement = match self.slots[i] {
            Some(p) => p,
            None => {
                return ;
            },
        };
        let ghost d0 = *self;
        let row: usize = p.arena as usize;
        let lane: Option<usize> = group_lane(pass, lod);
        let placement: Placement = Placement { arena: p.arena, lane, generation: p.generation };
        proof {
            assert(d0.row_ok(row as int));
            lemma_lane_counts_slot(d0.slots@, slot as int);
        }
        let face: u32 = self.cull_bits[i] & CULL_FACE_BIT;
        let bits: u32 = if lane.is_some() {
            pack_cull_bits(p.arena + 1, pass, lod) | face
        } else {
            0
        };
        proof {
            lemma_written_bits_match(d0.cull_bits@[i as int], placement, pass, lod);
        }
        self.relocate(slot, Some(placement), bits);
        match p.lane {
            Some(l) => {
                self.live[row][l] = self.live[row][l] - 1;
            },
            None => {},
        }
        match lane {
            Some(l) => {
                self.live[row][l] = self.live[row][l] + 1;
            },
            None => {},
        }
        self.aabbs.set(i, aabb);
        if lane.is_some() {
            let u: ArenaUnion = self.unions[row];
            self.unions.set(row, grow_union(u, aabb, &expand));
        } else if p.lane.is_some() {
            self.mark_union_dirty(row);
        }
        proof {
            lemma_move_rows(d0, *self, slot, Some(placement));
            assert forall|inside: spec_fn(MeshAabb, ArenaBox) -> bool|
                keeps_inside(expand, inside) && covers(&d0, inside) implies #[trigger] covers(
                self,
                inside,
            ) by {
                assert(inside(aabb, box_of(aabb)));
                assert forall|a: int| 0 <= a < self.buffers.len() implies #[trigger] row_covered(
                    self,
                    inside,
                    a,
                ) by {
                    assert(row_covered(&d0, inside, a));
                    assert forall|s: u32|
                        s != slot && #[trigger] is_member(self.slots@, a, s) implies is_member(
                        d0.slots@,
                        a,
                        s,
                    ) && self.aabbs[s as int] == d0.aabbs[s as int] by {}
                }
            }
        }
    }

    /// Takes over what the cull needs to draw `slot`. Call after
    /// [`Self::note_upload`] or [`Self::note_record`]; a slot never registered
    /// is ignored.
    pub fn note_cull_draw(&mut self, slot: u32, draw: CullDraw)
        requires
            old(self).wf(),
        ensures
            final(self).wf(),
            slot >= old(self).slots.len() ==> *final(self) == *old(self),
            slot < old(self).slots.len() ==> {
                let bits = old(self).cull_bits[slot as int];
                &&& final(self).cull_index_count@ == old(self).cull_index_count@.update(
                    slot as int,
                    draw.index_count,
                )
                &&& final(self).cull_vertex_offset@ == old(self).cull_vertex_offset@.update(
                    slot as int,
                    draw.vertex_offset,
                )
                &&& final(self).cull_face_quads@ == old(self).cull_face_quads@.update(
                    slot as int,
                    draw.face_quads,
                )
                &&& final(self).cull_bits@ == old(self).cull_bits@.update(
                    slot as int,
                    if draw.face_runs {
                        bits | CULL_FACE_BIT
                    } else {
                        bits & !CULL_FACE_BIT
                    },
                )
                &&& *final(self) == (ArenaDirectory {
                    cull_index_count: final(self).cull_index_count,
                    cull_vertex_offset: final(self).cull_vertex_offset,
                    cull_face_quads: final(self).cull_face_quads,
                    cull_bits: final(self).cull_bits,
                    ..*old(self)
                })
            },
            forall|inside: spec_fn(MeshAabb, ArenaBox) -> bool|
                covers(old(self), inside) ==> #[trigger] covers(final(self), inside),
    {
        let i: usize = slot as usize;
        if i >= self.cull_index_count.len() {
            return ;
        }
        let ghost d0 = *self;
        self.cull_index_count.set(i, draw.index_count);
        self.cull_vertex_offset.set(i, draw.vertex_offset);
        self.cull_face_quads.set(i, draw.face_quads);
        let bits: u32 = self.cull_bits[i];
        self.cull_bits.set(
            i,
            if draw.face_runs {
                bits | CULL_FACE_BIT
            } else {
                bits & !CULL_FACE_BIT
            },
        );
        proof {
            lemma_face_bit(bits);
            assert(bits_match(d0.slots[i as int], d0.cull_bits[i as int]));
            assert forall|s: int| 0 <= s < self.slots.len() implies bits_match(
                self.slots[s],
                #[trigger] self.cull_bits[s],
            ) by {
                if s != i {
                    assert(bits_match(d0.slots[s], d0.cull_bits[s]));
                }
            }
            assert forall|a: int| 0 <= a < self.buffers.len() implies #[trigger] self.row_ok(a) by {
                assert(d0.row_ok(a));
            }
            assert forall|inside: spec_fn(MeshAabb, ArenaBox) -> bool|
                covers(&d0, inside) implies #[trigger] covers(self, inside) by {
                assert forall|a: int| 0 <= a < self.buffers.len() implies #[trigger] row_covered(
                    self,
                    inside,
                    a,
                ) by {
                    assert(row_covered(&d0, inside, a));
                }
            }
        }
    }

    /// The registered blend slots, in no particular order.
    pub fn blend_slots(&self) -> (list: &Vec<u32>)
        requires
            self.wf(),
        ensures
            list@ == self.blend@,
            list@.no_duplicates(),
            forall|s: u32| #[trigger] list@.contains(s) <==> is_blend(self.slots@, s),
    {
        proof {
            let set = blend_set(self.slots@);
            assert forall|i: int, j: int| 0 <= i < self.blend.len() && 0 <= j < self.blend.len()
                && i != j implies self.blend@[i] != self.blend@[j] by {
                assert(set.contains(self.blend@[i]) && set.contains(self.blend@[j]));
            }
            assert forall|s: u32| #[trigger] self.blend@.contains(s) <==> is_blend(
                self.slots@,
                s,
            ) by {
                if self.blend@.contains(s) {
                    let k = choose|k: int| 0 <= k < self.blend.len() && self.blend@[k] == s;
                    assert(set.contains(self.blend@[k]));
                }
                if is_blend(self.slots@, s) {
                    assert(set.contains(s));
                }
            }
        }
        &self.blend
    }

    /// One past the highest registered slot (0 when nothing is registered).
    pub fn live_end(&self) -> (end: u32)
        requires
            self.wf(),
        ensures
            end <= self.slots.len(),
            end > 0 ==> self.slots[end - 1] is Some,
            forall|s: int| end <= s < self.slots.len() ==> (#[trigger] self.slots[s]) is None,
    {
        self.live_end
    }

    pub fn arena_buffer(&self, arena: usize) -> (buffer: u64)
        requires
            arena < self.buffers.len(),
        ensures
            buffer == self.buffers[arena as int],
    {
        self.buffers[arena]
    }

    /// Arena word of `slot` for the cull (0 when dead, else the arena plus one).
    pub fn arena_word(&self, slot: usize) -> (word: u32)
        requires
            self.wf(),
        ensures
            word == (if registered(self.slots@, slot as int) {
                (self.slots@[slot as int]->Some_0).arena + 1
            } else {
                0
            }),
    {
        if slot >= self.slots.len() {
            return 0;
        }
        match self.slots[slot] {
            Some(p) => p.arena + 1,
            None => 0,
        }
    }

    pub fn arena_count(&self) -> (count: usize)
        ensures
            count == self.buffers.len(),
    {
        self.buffers.len()
    }

    pub fn occupied_arenas(&self) -> (count: u32)
        requires
            self.wf(),
        ensures
            count == occupied_rows(self.refs@),
    {
        self.occupied
    }

    /// Live camera-group records across every arena; blend is excluded.
    pub fn camera_live(&self) -> (count: u32)
        requires
            self.wf(),
        ensures
            count == laned_count(self.slots@),
    {
        let mut count: u32 = 0;
        let mut a: usize = 0;
        while a < self.live.len()
            invariant
                self.wf(),
                a <= self.live.len(),
                count == laned_before(self.slots@, a as int),
            decreases self.live.len() - a,
        {
            proof {
                assert(self.row_ok(a as int));
                lemma_laned_before(self.slots@, a + 1);
            }
            count = count + self.live[a][0] + self.live[a][1] + self.live[a][2];
            a = a + 1;
        }
        proof {
            lemma_laned_all(self.slots@, a as int);
        }
        count
    }
}

/// Registered slots with a camera lane.
pub open spec fn laned_count(slots: Table) -> nat
    decreases slots.len(),
{
    if slots.len() == 0 {
        0
    } else {
        laned_count(slots.drop_last()) + if is_laned(slots, slots.len() - 1) {
            1nat
        } else {
            0
        }
    }
}

/// Registered slots with a camera lane in one of the first `n` rows.
spec fn laned_before(slots: Table, n: int) -> int
    decreases n,
{
    if n <= 0 {
        0
    } else {
        laned_before(slots, n - 1) + lane_count(slots, n - 1, Some(0usize)) + lane_count(
            slots,
            n - 1,
            Some(1usize),
        ) + lane_count(slots, n - 1, Some(2usize))
    }
}

/// What the last slot adds to the count over the first `n` rows.
proof fn lemma_laned_step(slots: Table, n: int)
    requires
        slots.len() > 0,
        slots.last() matches Some(p) ==> (p.lane matches Some(l) ==> l < 3),
    ensures
        laned_before(slots, n) == laned_before(slots.drop_last(), n) + (match slots.last() {
            Some(p) => weight(p.lane is Some && p.arena < n),
            None => 0,
        }),
    decreases n,
{
    if n > 0 {
        lemma_laned_step(slots, n - 1);
    }
}

proof fn lemma_laned_before(slots: Table, n: int)
    requires
        forall|s: int|
            0 <= s < slots.len() ==> (#[trigger] slots[s] matches Some(p) ==> (p.lane matches Some(
                l,
            ) ==> l < 3)),
    ensures
        0 <= laned_before(slots, n) <= slots.len(),
    decreases slots.len(),
{
    if slots.len() > 0 {
        assert(slots[slots.len() - 1] == slots.last());
        assert forall|s: int| 0 <= s < slots.drop_last().len() implies (
        #[trigger] slots.drop_last()[s] matches Some(p) ==> (p.lane matches Some(l) ==> l < 3)) by {
            assert(slots[s] == slots.drop_last()[s]);
        }
        lemma_laned_step(slots, n);
        lemma_laned_before(slots.drop_last(), n);
    } else {
        lemma_laned_empty(slots, n);
    }
}

proof fn lemma_laned_empty(slots: Table, n: int)
    requires
        slots.len() == 0,
    ensures
        laned_before(slots, n) == 0,
    decreases n,
{
    if n > 0 {
        lemma_laned_empty(slots, n - 1);
    }
}

/// Over all rows, every slot with a camera lane is counted once.
proof fn lemma_laned_all(slots: Table, n: int)
    requires
        forall|s: int|
            0 <= s < slots.len() ==> (#[trigger] slots[s] matches Some(p) ==> p.arena < n && (
            p.lane matches Some(l) ==> l < 3)),
    ensures
        laned_before(slots, n) == laned_count(slots),
    decreases slots.len(),
{
    if slots.len() > 0 {
        assert(slots[slots.len() - 1] == slots.last());
        assert forall|s: int| 0 <= s < slots.drop_last().len() implies (
        #[trigger] slots.drop_last()[s] matches Some(p) ==> p.arena < n && (p.lane matches Some(l)
            ==> l < 3)) by {
            assert(slots[s] == slots.drop_last()[s]);
        }
        lemma_laned_step(slots, n);
        lemma_laned_all(slots.drop_last(), n);
    } else {
        lemma_laned_empty(slots, n);
    }
}

// ---------------------------------------------------------------------------
// Unions and partitions
// ---------------------------------------------------------------------------

/// `r` is the union of `boxes`, widened one by one; empty without any.
pub open spec fn union_of<F: Fn(ArenaBox, MeshAabb) -> ArenaBox>(
    expand: F,
    boxes: Seq<MeshAabb>,
    r: ArenaUnion,
) -> bool
    decreases boxes.len(),
{
    if boxes.len() == 0 {
        is_empty_union(r)
    } else {
        exists|u: ArenaUnion|
            union_of(expand, boxes.drop_last(), u) && #[trigger] grown(expand, u, boxes.last(), r)
    }
}

/// The union of boxes holds each of them.
proof fn lemma_union_holds<F: Fn(ArenaBox, MeshAabb) -> ArenaBox>(
    expand: F,
    inside: spec_fn(MeshAabb, ArenaBox) -> bool,
    boxes: Seq<MeshAabb>,
    r: ArenaUnion,
    k: int,
)
    requires
        keeps_inside(expand, inside),
        union_of(expand, boxes, r),
        0 <= k < boxes.len(),
    ensures
        r.valid,
        inside(boxes[k], r.bounds),
    decreases boxes.len(),
{
    let u = choose|u: ArenaUnion|
        union_of(expand, boxes.drop_last(), u) && #[trigger] grown(expand, u, boxes.last(), r);
    assert(inside(boxes.last(), box_of(boxes.last())));
    if k < boxes.len() - 1 {
        lemma_union_holds(expand, inside, boxes.drop_last(), u, k);
        assert(inside(boxes[k], u.bounds));
    }
}

/// A union rebuilt from its row's members covers them.
proof fn lemma_rebuilt_covers<F: Fn(ArenaBox, MeshAabb) -> ArenaBox>(
    d: ArenaDirectory,
    e: ArenaDirectory,
    expand: F,
    inside: spec_fn(MeshAabb, ArenaBox) -> bool,
    a: int,
)
    requires
        d.wf(),
        0 <= a < d.buffers.len(),
        e.slots == d.slots,
        e.aabbs == d.aabbs,
        keeps_inside(expand, inside),
        union_of(expand, boxes_of(d.aabbs@, d.members[a]@), e.unions[a]),
    ensures
        row_covered(&e, inside, a),
{
    let list = d.members@[a]@;
    let boxes = boxes_of(d.aabbs@, list);
    assert(slot_list::list_ok(list, d.member_pos@, member_set(d.slots@, a)));
    assert forall|s: u32| #[trigger] is_member(e.slots@, a, s) implies e.unions[a].valid && inside(
        e.aabbs[s as int],
        e.unions[a].bounds,
    ) by {
        assert(member_set(d.slots@, a).contains(s));
        let k = slot_list::pos_at(d.member_pos@, s as int) - 1;
        assert(boxes[k] == d.aabbs@[s as int]);
        lemma_union_holds(expand, inside, boxes, e.unions[a], k);
    }
}

/// `table` is what `reach` says of each live row's union and bucket. A row without
/// one keeps every bucket.
pub open spec fn answers<R: Fn(ArenaBox, usize) -> bool>(
    reach: R,
    d: &ArenaDirectory,
    table: Seq<bool>,
) -> bool {
    forall|a: int, b: int|
        0 <= a < d.buffers.len() && 0 <= b < 4 ==> if row_is_live(d.live@, a)
            && d.unions[a].valid {
            call_ensures(reach, (d.unions[a].bounds, b as usize), #[trigger] table[4 * a + b])
        } else {
            table[4 * a + b]
        }
}

/// `reach` answers yes for a box and a bucket whenever a mesh inside the box
/// `lands` in the bucket.
pub open spec fn reach_is_safe<R: Fn(ArenaBox, usize) -> bool>(
    reach: R,
    inside: spec_fn(MeshAabb, ArenaBox) -> bool,
    lands: spec_fn(MeshAabb, int) -> bool,
) -> bool {
    forall|b: ArenaBox, k: usize, r: bool, m: MeshAabb|
        #[trigger] call_ensures(reach, (b, k), r) && #[trigger] inside(m, b) && lands(m, k as int)
            ==> r
}

/// A bucket that a live mesh lands in is kept.
pub proof fn lemma_live_mesh_keeps_its_bucket<R: Fn(ArenaBox, usize) -> bool>(
    d: ArenaDirectory,
    reach: R,
    table: Seq<bool>,
    inside: spec_fn(MeshAabb, ArenaBox) -> bool,
    lands: spec_fn(MeshAabb, int) -> bool,
    s: u32,
    bucket: int,
)
    requires
        d.wf(),
        covers(&d, inside),
        forall|a: int|
            0 <= a < d.buffers.len() && row_is_live(d.live@, a) ==> !(
            #[trigger] d.unions[a]).dirty,
        answers(reach, &d, table),
        reach_is_safe(reach, inside, lands),
        is_laned(d.slots@, s as int),
        0 <= bucket < 4,
        lands(d.aabbs[s as int], bucket),
    ensures
        keeps(Some(table), d.slots@[s as int]->Some_0.arena as int, bucket),
{
    let p = d.slots@[s as int]->Some_0;
    let a = p.arena as int;
    assert(d.slots[s as int] is Some);
    assert(d.row_ok(a));
    lemma_lane_counts_slot(d.slots@, s as int);
    assert(row_is_live(d.live@, a));
    assert(is_member(d.slots@, a, s));
    assert(row_covered(&d, inside, a));
    assert(!d.unions[a].dirty);
    assert(call_ensures(reach, (d.unions[a].bounds, bucket as usize), table[4 * a + bucket]));
    assert(inside(d.aabbs[s as int], d.unions[a].bounds));
    assert(table[4 * a + bucket]);
}

/// The room of a bucket that is kept: `runs` commands for every record of the slot's
/// group and arena.
pub proof fn lemma_kept_bucket_has_room(
    d: ArenaDirectory,
    table: Seq<bool>,
    s: u32,
    bucket: int,
    runs: u32,
)
    requires
        d.wf(),
        is_laned(d.slots@, s as int),
        0 <= bucket < 4,
        keeps(Some(table), d.slots@[s as int]->Some_0.arena as int, bucket),
    ensures
        ({
            let p = d.slots@[s as int]->Some_0;
            capacity_of(
                d.live@,
                runs,
                Some(table),
                cull_math::camera_part_spec(
                    p.lane->Some_0 as int,
                    p.arena as int,
                    bucket,
                    d.buffers.len() as int,
                ),
            ) == lane_count(d.slots@, p.arena as int, p.lane) * runs
        }),
{
    let p = d.slots@[s as int]->Some_0;
    assert(d.slots[s as int] is Some);
    assert(d.row_ok(p.arena as int));
    lemma_lane_counts_slot(d.slots@, s as int);
    law_partition_capacities(
        d.live@,
        runs,
        Some(table),
        p.lane->Some_0 as int,
        p.arena as int,
        bucket,
        0,
    );
}

/// No bucket that a live mesh can land in loses its capacity: whatever came before,
/// the partition of the mesh's group, arena and bucket has room for every record of
/// that group and arena.
pub proof fn law_no_live_mesh_is_dropped<R: Fn(ArenaBox, usize) -> bool>(
    d: ArenaDirectory,
    reach: R,
    table: Seq<bool>,
    inside: spec_fn(MeshAabb, ArenaBox) -> bool,
    lands: spec_fn(MeshAabb, int) -> bool,
    s: u32,
    bucket: int,
    runs: u32,
)
    requires
        d.wf(),
        covers(&d, inside),
        forall|a: int|
            0 <= a < d.buffers.len() && row_is_live(d.live@, a) ==> !(
            #[trigger] d.unions[a]).dirty,
        answers(reach, &d, table),
        reach_is_safe(reach, inside, lands),
        is_laned(d.slots@, s as int),
        0 <= bucket < 4,
        lands(d.aabbs[s as int], bucket),
    ensures
        ({
            let p = d.slots@[s as int]->Some_0;
            capacity_of(
                d.live@,
                runs,
                Some(table),
                cull_math::camera_part_spec(
                    p.lane->Some_0 as int,
                    p.arena as int,
                    bucket,
                    d.buffers.len() as int,
                ),
            ) == lane_count(d.slots@, p.arena as int, p.lane) * runs
        }),
{
    lemma_live_mesh_keeps_its_bucket(d, reach, table, inside, lands, s, bucket);
    lemma_kept_bucket_has_room(d, table, s, bucket, runs);
}

/// The boxes of the slots in `list`.
pub open spec fn boxes_of(aabbs: Seq<MeshAabb>, list: Seq<u32>) -> Seq<MeshAabb> {
    Seq::new(list.len(), |k: int| aabbs[list[k] as int])
}

/// Row `a` has a live camera-group record.
pub open spec fn row_is_live(live: Seq<[u32; 3]>, a: int) -> bool {
    live[a][0] > 0 || live[a][1] > 0 || live[a][2] > 0
}

/// Whether bucket `b` of row `a` keeps its capacity. Without a table every
/// bucket does.
pub open spec fn keeps(reach: Option<Seq<bool>>, a: int, b: int) -> bool {
    reach matches Some(table) ==> table[4 * a + b]
}

/// Commands that partition `part` has room for: `runs` per live record in every
/// camera bucket that can be reached, one per full-resolution opaque record in a
/// shadow cascade.
pub open spec fn capacity_of(
    live: Seq<[u32; 3]>,
    runs: u32,
    reach: Option<Seq<bool>>,
    part: int,
) -> int {
    let n = live.len() as int;
    if part < 12 * n {
        let row = part / 4;
        let full = live[row % n][row / n] * runs;
        if keeps(reach, row % n, part % 4) {
            full
        } else {
            0
        }
    } else {
        live[(part - 12 * n) % n][0] as int
    }
}

/// First command of partition `part`: the partitions lie back to back.
pub open spec fn offset_of(
    live: Seq<[u32; 3]>,
    runs: u32,
    reach: Option<Seq<bool>>,
    part: int,
) -> int
    decreases part,
{
    if part <= 0 {
        0
    } else {
        offset_of(live, runs, reach, part - 1) + capacity_of(live, runs, reach, part - 1)
    }
}

proof fn lemma_row_split(row: int, n: int)
    requires
        0 <= row < 3 * n,
    ensures
        n > 0,
        0 <= row % n < n,
        0 <= row / n < 3,
{
    vstd::arithmetic::div_mod::lemma_fundamental_div_mod(row, n);
    assert(0 <= row / n < 3) by (nonlinear_arith)
        requires
            row == n * (row / n) + row % n,
            0 <= row % n < n,
            0 <= row < 3 * n,
            n > 0,
    ;
}

proof fn lemma_capacity_positive(
    live: Seq<[u32; 3]>,
    runs: u32,
    reach: Option<Seq<bool>>,
    part: int,
)
    requires
        0 <= part < 14 * live.len(),
    ensures
        capacity_of(live, runs, reach, part) >= 0,
{
    let n = live.len() as int;
    if part < 12 * n {
        let row = part / 4;
        lemma_row_split(row, n);
        let l = live[row % n][row / n];
        assert(l * runs >= 0) by (nonlinear_arith)
            requires
                l >= 0,
                runs >= 0,
        ;
    }
}

proof fn lemma_offsets_grow(
    live: Seq<[u32; 3]>,
    runs: u32,
    reach: Option<Seq<bool>>,
    p: int,
    q: int,
)
    requires
        0 <= p <= q <= 14 * live.len(),
    ensures
        0 <= offset_of(live, runs, reach, p) <= offset_of(live, runs, reach, q),
    decreases q,
{
    if p < q {
        lemma_offsets_grow(live, runs, reach, p, q - 1);
        lemma_capacity_positive(live, runs, reach, q - 1);
    } else if p > 0 {
        lemma_offsets_grow(live, runs, reach, p - 1, p - 1);
        lemma_capacity_positive(live, runs, reach, p - 1);
    }
}

impl ArenaDirectory {
    /// Rebuilds `arena`'s union from its members.
    fn recompute_union<F: Fn(ArenaBox, MeshAabb) -> ArenaBox>(&mut self, arena: usize, expand: &F)
        requires
            old(self).wf(),
            arena < old(self).buffers.len(),
            forall|b: ArenaBox, m: MeshAabb| call_requires(*expand, (b, m)),
        ensures
            final(self).wf(),
            *final(self) == (ArenaDirectory { unions: final(self).unions, ..*old(self) }),
            final(self).unions.len() == old(self).unions.len(),
            forall|a: int|
                0 <= a < old(self).unions.len() && a != arena ==> #[trigger] final(self).unions[a]
                    == old(self).unions[a],
            !final(self).unions[arena as int].dirty,
            union_of(
                *expand,
                boxes_of(old(self).aabbs@, old(self).members[arena as int]@),
                final(self).unions[arena as int],
            ),
    {
        let ghost d0 = *self;
        let ghost list = self.members[arena as int]@;
        let ghost boxes = boxes_of(self.aabbs@, list);
        let mut acc: ArenaUnion = empty_union();
        let mut k: usize = 0;
        proof {
            assert(boxes.take(0) =~= Seq::empty());
        }
        while k < self.members[arena].len()
            invariant
                *self == d0,
                d0.wf(),
                arena < d0.buffers.len(),
                list == d0.members[arena as int]@,
                boxes == boxes_of(d0.aabbs@, list),
                k <= list.len(),
                !acc.dirty,
                union_of(*expand, boxes.take(k as int), acc),
                forall|b: ArenaBox, m: MeshAabb| call_requires(*expand, (b, m)),
            decreases list.len() - k,
        {
            let slot: usize = self.members[arena][k] as usize;
            proof {
                assert(slot_list::list_ok(
                    d0.members@[arena as int]@,
                    d0.member_pos@,
                    member_set(d0.slots@, arena as int),
                ));
                assert(member_set(d0.slots@, arena as int).contains(list[k as int]));
            }
            let ghost before = acc;
            acc = grow_union(acc, self.aabbs[slot], expand);
            proof {
                let more = boxes.take(k + 1);
                assert(more.drop_last() =~= boxes.take(k as int));
                assert(more.last() == d0.aabbs@[slot as int]);
                assert(union_of(*expand, more.drop_last(), before));
                assert(grown(*expand, before, more.last(), acc));
                assert(union_of(*expand, more, acc));
            }
            k = k + 1;
        }
        proof {
            assert(boxes.take(k as int) =~= boxes);
        }
        self.unions.set(arena, acc);
        proof {
            lemma_wf_rests_on_tables(d0, *self);
        }
    }

    /// Which distance buckets each arena can reach: `reach` decides for a union
    /// box and a bucket. Unions left stale by a free are rebuilt first; an arena
    /// without a union keeps every bucket, so no reachable mesh is dropped.
    pub fn reachable_buckets<
        F: Fn(ArenaBox, MeshAabb) -> ArenaBox,
        R: Fn(ArenaBox, usize) -> bool,
    >(&mut self, expand: F, reach: R) -> (table: Vec<bool>)
        requires
            old(self).wf(),
            forall|b: ArenaBox, m: MeshAabb| call_requires(expand, (b, m)),
            forall|b: ArenaBox, k: usize| k < 4 ==> call_requires(reach, (b, k)),
        ensures
            final(self).wf(),
            *final(self) == (ArenaDirectory { unions: final(self).unions, ..*old(self) }),
            table.len() == 4 * old(self).buffers.len(),
            forall|a: int|
                0 <= a < old(self).buffers.len() ==> {
                    let u = #[trigger] final(self).unions[a];
                    if row_is_live(old(self).live@, a) && old(self).unions[a].dirty {
                        !u.dirty && union_of(
                            expand,
                            boxes_of(old(self).aabbs@, old(self).members[a]@),
                            u,
                        )
                    } else {
                        u == old(self).unions[a]
                    }
                },
            answers(reach, final(self), table@),
            forall|inside: spec_fn(MeshAabb, ArenaBox) -> bool|
                keeps_inside(expand, inside) && covers(old(self), inside) ==> #[trigger] covers(
                    final(self),
                    inside,
                ),
            forall|u: Scale, eye: Eye, splits: Seq<int>|
                bucket_geometry::expands_exactly(expand, u)
                    && #[trigger] bucket_geometry::reaches_exactly(reach, u, eye, splits)
                    && bucket_geometry::ascending(splits) && covers(
                    old(self),
                    bucket_geometry::holds_at(u),
                ) ==> bucket_geometry::keeps_every_mesh(final(self), table@, u, eye, splits),
    {
        let mut table: Vec<bool> = Vec::new();
        let ghost d0 = *self;
        let n: usize = self.buffers.len();
        let mut a: usize = 0;
        while a < n
            invariant
                a <= n,
                n == d0.buffers.len(),
                d0.wf(),
                self.wf(),
                *self == (ArenaDirectory { unions: self.unions, ..d0 }),
                table.len() == 4 * a,
                forall|b: ArenaBox, m: MeshAabb| call_requires(expand, (b, m)),
                forall|b: ArenaBox, k: usize| k < 4 ==> call_requires(reach, (b, k)),
                forall|x: int|
                    0 <= x < n ==> {
                        let u = #[trigger] self.unions[x];
                        if x < a && row_is_live(d0.live@, x) && d0.unions[x].dirty {
                            !u.dirty && union_of(
                                expand,
                                boxes_of(d0.aabbs@, d0.members[x]@),
                                u,
                            )
                        } else {
                            u == d0.unions[x]
                        }
                    },
                forall|x: int, b: int|
                    0 <= x < a && 0 <= b < 4 ==> if row_is_live(d0.live@, x)
                        && self.unions[x].valid {
                        call_ensures(
                            reach,
                            (self.unions[x].bounds, b as usize),
                            #[trigger] table[4 * x + b],
                        )
                    } else {
                        table[4 * x + b]
                    },
            decreases n - a,
        {
            let live: bool = self.live[a][0] > 0 || self.live[a][1] > 0 || self.live[a][2] > 0;
            let ghost d1 = *self;
            if live && self.unions[a].dirty {
                self.recompute_union(a, &expand);
            }
            let u: ArenaUnion = self.unions[a];
            let ask: bool = live && u.valid;
            let b0: bool = if ask {
                reach(u.bounds, 0)
            } else {
                true
            };
            let b1: bool = if ask {
                reach(u.bounds, 1)
            } else {
                true
            };
            let b2: bool = if ask {
                reach(u.bounds, 2)
            } else {
                true
            };
            let b3: bool = if ask {
                reach(u.bounds, 3)
            } else {
                true
            };
            let ghost t0 = table@;
            table.push(b0);
            table.push(b1);
            table.push(b2);
            table.push(b3);
            proof {
                assert forall|x: int, b: int| 0 <= x < a + 1 && 0 <= b < 4 implies if row_is_live(
                    d0.live@,
                    x,
                ) && self.unions[x].valid {
                    call_ensures(
                        reach,
                        (self.unions[x].bounds, b as usize),
                        #[trigger] table[4 * x + b],
                    )
                } else {
                    table[4 * x + b]
                } by {
                    if x < a {
                        assert(table@[4 * x + b] == t0[4 * x + b]);
                        assert(self.unions[x] == d1.unions[x]);
                    }
                }
            }
            a = a + 1;
        }
        proof {
            assert forall|inside: spec_fn(MeshAabb, ArenaBox) -> bool|
                keeps_inside(expand, inside) && covers(&d0, inside) implies #[trigger] covers(
                self,
                inside,
            ) by {
                assert forall|x: int| 0 <= x < self.buffers.len() implies #[trigger] row_covered(
                    self,
                    inside,
                    x,
                ) by {
                    assert(row_covered(&d0, inside, x));
                    if row_is_live(d0.live@, x) && d0.unions[x].dirty {
                        lemma_rebuilt_covers(d0, *self, expand, inside, x);
                    }
                }
            }
            assert forall|u: Scale, eye: Eye, splits: Seq<int>|
                bucket_geometry::expands_exactly(expand, u)
                    && #[trigger] bucket_geometry::reaches_exactly(reach, u, eye, splits)
                    && bucket_geometry::ascending(splits) && covers(
                    &d0,
                    bucket_geometry::holds_at(u),
                ) implies bucket_geometry::keeps_every_mesh(self, table@, u, eye, splits) by {
                bucket_geometry::law_exact_unions_hold_their_boxes(expand, u);
                assert(covers(self, bucket_geometry::holds_at(u)));
                bucket_geometry::lemma_every_mesh_is_kept(*self, reach, table@, u, eye, splits);
            }
        }
        table
    }

    /// Fills `parts` with the group-major partition table, reusing its
    /// allocation, and returns the total command count.
    ///
    /// Camera groups get four distance buckets per arena, each sized for every
    /// live record landing in it with `runs_per_mesh` commands, or 0 where
    /// `reach` says that the arena cannot get into the bucket. The two shadow
    /// cascades hold one command per full-resolution opaque record.
    pub fn partitions_into(
        &self,
        parts: &mut Vec<PartitionGpu>,
        runs_per_mesh: u32,
        reach: Option<&Vec<bool>>,
    ) -> (total: u32)
        requires
            self.wf(),
            reach matches Some(table) ==> table.len() == 4 * self.buffers.len(),
            offset_of(
                self.live@,
                runs_per_mesh,
                table_view(reach),
                cull_math::partition_count_spec(self.buffers.len() as int),
            ) <= u32::MAX,
            cull_math::partition_count_spec(self.buffers.len() as int) <= usize::MAX,
        ensures
            final(parts).len() == cull_math::partition_count_spec(self.buffers.len() as int),
            forall|p: int|
                0 <= p < final(parts).len() ==> {
                    &&& (#[trigger] final(parts)[p]).offset == offset_of(
                        self.live@,
                        runs_per_mesh,
                        table_view(reach),
                        p,
                    )
                    &&& final(parts)[p].capacity == capacity_of(
                        self.live@,
                        runs_per_mesh,
                        table_view(reach),
                        p,
                    )
                },
            total == offset_of(
                self.live@,
                runs_per_mesh,
                table_view(reach),
                cull_math::partition_count_spec(self.buffers.len() as int),
            ),
    {
        let n: usize = self.live.len();
        parts.clear();
        let count: usize = cull_math::partition_count(n);
        let cameras: usize = count - SHADOW_GROUPS * n;
        let ghost live = self.live@;
        let ghost view = table_view(reach);
        let mut offset: u32 = 0;
        let mut part: usize = 0;
        while part < count
            invariant
                self.wf(),
                n == self.live.len(),
                live == self.live@,
                view == table_view(reach),
                reach matches Some(table) ==> table.len() == 4 * n,
                count == 14 * n,
                cameras == 12 * n,
                part <= count,
                parts.len() == part,
                offset == offset_of(live, runs_per_mesh, view, part as int),
                offset_of(live, runs_per_mesh, view, count as int) <= u32::MAX,
                forall|p: int|
                    0 <= p < part ==> {
                        &&& (#[trigger] parts[p]).offset == offset_of(live, runs_per_mesh, view, p)
                        &&& parts[p].capacity == capacity_of(live, runs_per_mesh, view, p)
                    },
            decreases count - part,
        {
            proof {
                lemma_offsets_grow(live, runs_per_mesh, view, part + 1, count as int);
                lemma_offsets_grow(live, runs_per_mesh, view, part as int, part as int);
                lemma_capacity_positive(live, runs_per_mesh, view, part as int);
            }
            let capacity: u32 = if part < cameras {
                let row: usize = part / BUCKETS;
                proof {
                    lemma_row_split(row as int, n as int);
                }
                let arena: usize = row % n;
                let lane: usize = row / n;
                let kept: bool = match reach {
                    Some(table) => table[4 * arena + part % BUCKETS],
                    None => true,
                };
                if kept {
                    self.live[arena][lane] * runs_per_mesh
                } else {
                    0
                }
            } else {
                let at: usize = part - cameras;
                proof {
                    vstd::arithmetic::div_mod::lemma_mod_bound(at as int, n as int);
                }
                self.live[at % n][0]
            };
            parts.push(PartitionGpu { offset, capacity });
            offset = offset + capacity;
            part = part + 1;
        }
        offset
    }

    /// The partition table with one run per mesh and every bucket kept.
    pub fn partitions(&self) -> (table: (Vec<PartitionGpu>, u32))
        requires
            self.wf(),
            offset_of(
                self.live@,
                1,
                None,
                cull_math::partition_count_spec(self.buffers.len() as int),
            ) <= u32::MAX,
            cull_math::partition_count_spec(self.buffers.len() as int) <= usize::MAX,
        ensures
            table.0.len() == cull_math::partition_count_spec(self.buffers.len() as int),
            forall|p: int|
                0 <= p < table.0.len() ==> {
                    &&& (#[trigger] table.0[p]).offset == offset_of(self.live@, 1, None, p)
                    &&& table.0[p].capacity == capacity_of(self.live@, 1, None, p)
                },
            table.1 == offset_of(
                self.live@,
                1,
                None,
                cull_math::partition_count_spec(self.buffers.len() as int),
            ),
    {
        let mut parts: Vec<PartitionGpu> = Vec::new();
        let total: u32 = self.partitions_into(&mut parts, 1, None);
        (parts, total)
    }
}

pub open spec fn table_view(reach: Option<&Vec<bool>>) -> Option<Seq<bool>> {
    match reach {
        Some(table) => Some(table@),
        None => None,
    }
}

/// What each partition of the table is sized for.
pub proof fn law_partition_capacities(
    live: Seq<[u32; 3]>,
    runs: u32,
    reach: Option<Seq<bool>>,
    group: int,
    arena: int,
    bucket: int,
    cascade: int,
)
    requires
        0 <= group < 3,
        0 <= arena < live.len(),
        0 <= bucket < 4,
        0 <= cascade < 2,
    ensures
        capacity_of(
            live,
            runs,
            reach,
            cull_math::camera_part_spec(group, arena, bucket, live.len() as int),
        ) == (if keeps(reach, arena, bucket) {
            live[arena][group] * runs
        } else {
            0
        }),
        capacity_of(
            live,
            runs,
            reach,
            cull_math::shadow_part_spec(cascade, arena, live.len() as int),
        ) == live[arena][0],
{
    let n = live.len() as int;
    let row = group * n + arena;
    let part = cull_math::camera_part_spec(group, arena, bucket, n);
    assert(0 <= group * n <= 2 * n) by (nonlinear_arith)
        requires
            0 <= group <= 2,
            n >= 0,
    ;
    assert(part / 4 == row && part % 4 == bucket);
    vstd::arithmetic::div_mod::lemma_fundamental_div_mod_converse(row, n, group, arena);
    let at = cascade * n + arena;
    assert(cascade * n >= 0) by (nonlinear_arith)
        requires
            cascade >= 0,
            n >= 0,
    ;
    vstd::arithmetic::div_mod::lemma_fundamental_div_mod_converse(at, n, cascade, arena);
}

/// Partitions lie back to back and never overlap, inside the total.
pub proof fn law_partitions_are_disjoint(
    live: Seq<[u32; 3]>,
    runs: u32,
    reach: Option<Seq<bool>>,
    p: int,
    q: int,
)
    requires
        0 <= p < q < 14 * live.len(),
    ensures
        offset_of(live, runs, reach, p) + capacity_of(live, runs, reach, p) <= offset_of(
            live,
            runs,
            reach,
            q,
        ),
        offset_of(live, runs, reach, q) + capacity_of(live, runs, reach, q) <= offset_of(
            live,
            runs,
            reach,
            14 * live.len() as int,
        ),
{
    lemma_offsets_grow(live, runs, reach, p + 1, q);
    lemma_offsets_grow(live, runs, reach, q + 1, 14 * live.len() as int);
}

/// Opaque meshes are drawn in the first lane, cut-out ones in the second, coarse opaque
/// ones in the third, and blended ones in none.
pub proof fn law_lanes_are_the_camera_groups(pass: Pass, lod: bool)
    ensures
        pass is Blend <==> lane_of(pass, lod) is None,
        pass is Opaque && !lod ==> lane_of(pass, lod) == Some(
            cull_math::Group::Opaque.ordinal() as usize,
        ) && lane_of(pass, lod) == Some(0usize),
        pass is Cutout ==> lane_of(pass, lod) == Some(cull_math::Group::Cutout.ordinal() as usize)
            && lane_of(pass, lod) == Some(1usize),
        pass is Opaque && lod ==> lane_of(pass, lod) == Some(
            cull_math::Group::OpaqueLod.ordinal() as usize,
        ) && lane_of(pass, lod) == Some(2usize),
{
}

/// The bits that are written for a slot say its row, its pass and its detail, and keep what
/// was known of its faces; a blended slot has none.
pub proof fn law_written_bits_say_the_placement(before: u32, row: int, pass: Pass, lod: bool)
    requires
        0 <= row < CULL_ARENA_MASK,
    ensures
        ({
            let bits = written_bits(before, row, pass, lod);
            &&& pass is Blend ==> bits == 0
            &&& !(pass is Blend) ==> {
                &&& bits & 0x000F_FFFF == row + 1
                &&& (bits >> 20u32) & 3 == if pass is Opaque {
                    0u32
                } else {
                    1
                }
                &&& (bits & 0x40_0000 != 0) == lod
                &&& (bits & 0x80_0000 != 0) == (before & 0x80_0000 != 0)
            }
        }),
{
    let face = before & CULL_FACE_BIT != 0;
    let kept = before & CULL_FACE_BIT;
    assert(kept == 0 || kept == 0x80_0000) by (bit_vector)
        requires
            kept == before & 0x80_0000u32,
    ;
    if lane_of(pass, lod) is Some {
        law_cull_bits_roundtrip((row + 1) as u32, pass_number(pass), lod, face);
    }
}

/// The row of an upload holds the upload's buffer, no other row changes its buffer, and a
/// row that anything else still refers to held that buffer before.
pub proof fn law_an_upload_takes_no_other_row(
    buffers: Seq<u64>,
    refs: Seq<u32>,
    slots: Table,
    slot: int,
    buffer: u64,
    row: int,
)
    requires
        refs.len() == buffers.len(),
        refs_without(refs, slots, slot).len() == buffers.len(),
        takes_row(buffers, refs_without(refs, slots, slot), buffer, row),
    ensures
        ({
            let after = row_put(buffers, row, buffer);
            &&& 0 <= row <= buffers.len()
            &&& after[row] == buffer
            &&& after.len() == if row < buffers.len() {
                buffers.len()
            } else {
                buffers.len() + 1
            }
            &&& forall|i: int|
                0 <= i < buffers.len() && i != row ==> #[trigger] after[i] == buffers[i]
            &&& row < buffers.len() && refs_without(refs, slots, slot)[row] > 0 ==> buffers[row]
                == buffer
        }),
{
}

/// A slot that gives up its row leaves one reference less there and the same number
/// everywhere else.
pub proof fn law_a_slot_gives_up_one_reference(refs: Seq<u32>, slots: Table, slot: int, a: int)
    requires
        0 <= a < refs.len(),
        registered(slots, slot) ==> (slots[slot]->Some_0).arena < refs.len(),
        registered(slots, slot) ==> refs[(slots[slot]->Some_0).arena as int] > 0,
    ensures
        registered(slots, slot) && (slots[slot]->Some_0).arena == a ==> refs_without(
            refs,
            slots,
            slot,
        )[a] == refs[a] - 1,
        !(registered(slots, slot) && (slots[slot]->Some_0).arena == a) ==> refs_without(
            refs,
            slots,
            slot,
        )[a] == refs[a],
{
}

/// A union that is built from boxes holds each of them; without any it is empty.
pub proof fn law_a_rebuilt_union_holds_its_boxes<F: Fn(ArenaBox, MeshAabb) -> ArenaBox>(
    expand: F,
    inside: spec_fn(MeshAabb, ArenaBox) -> bool,
    boxes: Seq<MeshAabb>,
    r: ArenaUnion,
)
    requires
        keeps_inside(expand, inside),
        union_of(expand, boxes, r),
    ensures
        r.valid <==> boxes.len() > 0,
        !r.dirty,
        forall|k: int| 0 <= k < boxes.len() ==> inside(#[trigger] boxes[k], r.bounds),
    decreases boxes.len(),
{
    if boxes.len() > 0 {
        let less = boxes.drop_last();
        let u = choose|u: ArenaUnion|
            union_of(expand, less, u) && #[trigger] grown(expand, u, boxes.last(), r);
        law_a_rebuilt_union_holds_its_boxes(expand, inside, less, u);
        assert(inside(boxes.last(), box_of(boxes.last())));
        if u.valid {
            assert(call_ensures(expand, (u.bounds, boxes.last()), r.bounds));
        }
        assert forall|k: int| 0 <= k < boxes.len() implies inside(#[trigger] boxes[k], r.bounds) by {
            if k < less.len() {
                assert(inside(less[k], u.bounds));
            }
        }
    }
}

/// A slot counts for the camera where it has a lane, and counts once.
pub proof fn law_camera_slots_are_counted_once(slots: Table, s: int, p: Placement)
    requires
        0 <= s < slots.len(),
        slots[s] is None,
    ensures
        laned_count(slots.update(s, Some(p))) == laned_count(slots) + if p.lane is Some {
            1int
        } else {
            0
        },
        laned_count(slots.push(Some(p))) == laned_count(slots) + if p.lane is Some {
            1int
        } else {
            0
        },
        laned_count(slots.push(None)) == laned_count(slots),
        laned_count(Seq::empty()) == 0,
    decreases slots.len(),
{
    assert(slots.push(Some(p)).drop_last() =~= slots);
    assert(slots.push(None).drop_last() =~= slots);
    let more = slots.update(s, Some(p));
    if s < slots.len() - 1 {
        law_camera_slots_are_counted_once(slots.drop_last(), s, p);
        assert(more.drop_last() =~= slots.drop_last().update(s, Some(p)));
    } else {
        assert(more.drop_last() =~= slots.drop_last());
    }
}

} // verus!
