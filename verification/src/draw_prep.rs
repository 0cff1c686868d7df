//! Draws that the host resolves: blended meshes from far to near, and the packed
//! immediate vertices.

use vstd::prelude::*;

use crate::arena;
use crate::arena::ArenaDirectory;
use crate::bytes;
use crate::cull;
use crate::cull::{CullPlan, CullState};
use crate::cull_emit::{CullMode, SlotTests};
use crate::cull_math;
use crate::cull_math::{slot_visible, DrawIndexedIndirect, PartitionGpu};
use crate::mesh::Pass;
use crate::mesh_residency::MeshResidency;
use crate::rev::FRAMES_IN_FLIGHT;
use crate::slot_list;

verus! {

/// Alignment of each part of the immediate buffer.
pub const IMM_ALIGN: u64 = 16;

/// Where each part of the packed immediates starts; the cubes start at zero.
#[derive(Clone, Copy, Debug, PartialEq, Eq, Structural)]
pub struct ImmOffsets {
    pub line: u64,
    pub shadow: u64,
    pub d2: u64,
    pub d2_tex: u64,
    /// Bytes of all parts.
    pub total: u64,
}

/// Bytes of each part.
#[derive(Clone, Copy, Debug, PartialEq, Eq, Structural)]
pub struct ImmSizes {
    pub cube: u64,
    pub line: u64,
    pub shadow: u64,
    pub d2: u64,
    pub d2_tex: u64,
}

/// `n` rounded up to the alignment.
pub open spec fn aligned(n: int) -> int {
    (n + IMM_ALIGN - 1) / (IMM_ALIGN as int) * IMM_ALIGN
}

fn align_up(n: u64) -> (r: u64)
    requires
        n + IMM_ALIGN <= u64::MAX,
    ensures
        r == aligned(n as int),
        n <= r < n + IMM_ALIGN,
        r % IMM_ALIGN == 0,
{
    (n + (IMM_ALIGN - 1)) / IMM_ALIGN * IMM_ALIGN
}

impl ImmSizes {
    pub open spec fn sum(&self) -> int {
        self.cube + self.line + self.shadow + self.d2 + self.d2_tex
    }
}

/// The packed layout: the parts one behind the other, each aligned.
pub fn imm_offsets(sizes: ImmSizes) -> (r: ImmOffsets)
    requires
        sizes.sum() + 5 * IMM_ALIGN <= u64::MAX,
    ensures
        r.line == aligned(sizes.cube as int),
        r.shadow == aligned(r.line + sizes.line),
        r.d2 == aligned(r.shadow + sizes.shadow),
        r.d2_tex == aligned(r.d2 + sizes.d2),
        r.total == r.d2_tex + sizes.d2_tex,
{
    let line: u64 = align_up(sizes.cube);
    let shadow: u64 = align_up(line + sizes.line);
    let d2: u64 = align_up(shadow + sizes.shadow);
    let d2_tex: u64 = align_up(d2 + sizes.d2);
    ImmOffsets { line, shadow, d2, d2_tex, total: d2_tex + sizes.d2_tex }
}

/// A part of the packed immediates.
#[derive(Clone, Copy, Debug, PartialEq, Eq, Structural)]
pub enum ImmPart {
    Cubes,
    Lines,
    Shadows,
    Flat,
    FlatTextured,
}

/// One part to write, and where.
#[derive(Clone, Copy, Debug, PartialEq, Eq, Structural)]
pub struct ImmWrite {
    pub part: ImmPart,
    pub offset: u64,
}

/// The parts that a frame writes: none when there is nothing at all, and the flat
/// ones, which only the present overlay reads, only when it presents.
pub open spec fn imm_writes_spec(o: ImmOffsets, will_present: bool) -> Seq<ImmWrite> {
    if o.total == 0 {
        Seq::empty()
    } else {
        let scene = seq![
            ImmWrite { part: ImmPart::Cubes, offset: 0 },
            ImmWrite { part: ImmPart::Lines, offset: o.line },
            ImmWrite { part: ImmPart::Shadows, offset: o.shadow },
        ];
        if will_present {
            scene + seq![
                ImmWrite { part: ImmPart::Flat, offset: o.d2 },
                ImmWrite { part: ImmPart::FlatTextured, offset: o.d2_tex },
            ]
        } else {
            scene
        }
    }
}

pub fn write_immediates(o: ImmOffsets, will_present: bool) -> (r: Vec<ImmWrite>)
    ensures
        r@ == imm_writes_spec(o, will_present),
{
    let mut r: Vec<ImmWrite> = Vec::new();
    if o.total > 0 {
        r.push(ImmWrite { part: ImmPart::Cubes, offset: 0 });
        r.push(ImmWrite { part: ImmPart::Lines, offset: o.line });
        r.push(ImmWrite { part: ImmPart::Shadows, offset: o.shadow });
        if will_present {
            r.push(ImmWrite { part: ImmPart::Flat, offset: o.d2 });
            r.push(ImmWrite { part: ImmPart::FlatTextured, offset: o.d2_tex });
        }
    }
    proof {
        assert(r@ =~= imm_writes_spec(o, will_present));
    }
    r
}

/// The parts do not overlap, start aligned, and all lie inside the total. The
/// layout does not depend on whether the frame presents.
pub proof fn law_immediates_are_apart(sizes: ImmSizes, o: ImmOffsets)
    requires
        o.line == aligned(sizes.cube as int),
        o.shadow == aligned(o.line + sizes.line),
        o.d2 == aligned(o.shadow + sizes.shadow),
        o.d2_tex == aligned(o.d2 + sizes.d2),
        o.total == o.d2_tex + sizes.d2_tex,
    ensures
        sizes.cube <= o.line,
        o.line + sizes.line <= o.shadow,
        o.shadow + sizes.shadow <= o.d2,
        o.d2 + sizes.d2 <= o.d2_tex,
        o.d2_tex + sizes.d2_tex <= o.total,
        o.line % IMM_ALIGN == 0,
        o.shadow % IMM_ALIGN == 0,
        o.d2 % IMM_ALIGN == 0,
        o.d2_tex % IMM_ALIGN == 0,
{
}

/// A resolved draw, before sorting.
#[derive(Clone, Copy, Debug, PartialEq, Eq, Structural)]
pub struct DrawEntry {
    pub buffer: u64,
    pub pass: Pass,
    pub first: u32,
    pub count: u32,
    pub vertex_offset: i32,
    /// Mesh slot, the draw's first instance.
    pub slot: u32,
    /// Order of the squared distance to the viewer, see [`float_order`].
    pub dist2: u32,
}

/// Consecutive draws of one buffer and pass.
#[derive(Clone, Copy, Debug, PartialEq, Eq, Structural)]
pub struct DrawRun {
    pub buffer: u64,
    pub pass: Pass,
    pub first: u32,
    pub count: u32,
}

/// A number that orders floats, given by their bits, as the total order on floats
/// does: by sign, then by magnitude.
pub open spec fn float_order_spec(bits: u32) -> u32 {
    if bits < 0x8000_0000 {
        (bits + 0x8000_0000) as u32
    } else {
        (0xFFFF_FFFF - bits) as u32
    }
}

pub fn float_order(bits: u32) -> (r: u32)
    ensures
        r == float_order_spec(bits),
{
    if bits < 0x8000_0000 {
        bits + 0x8000_0000
    } else {
        0xFFFF_FFFF - bits
    }
}

/// `float_order` keeps distinct floats apart, negative ones below all others.
pub proof fn law_float_order_is_faithful(a: u32, b: u32)
    ensures
        float_order_spec(a) == float_order_spec(b) ==> a == b,
        a >= 0x8000_0000 > b ==> float_order_spec(a) < float_order_spec(b),
        a < b < 0x8000_0000 ==> float_order_spec(a) < float_order_spec(b),
        0x8000_0000 <= a < b ==> float_order_spec(a) > float_order_spec(b),
{
}

/// What the viewer makes of a mesh in sight: its draw and its distance.
#[derive(Clone, Copy, Debug, PartialEq, Eq, Structural)]
pub struct Placed {
    pub count: u32,
    pub vertex_offset: i32,
    /// Bits of the squared distance to the viewer.
    pub dist2: u32,
}

/// A blended mesh that may be drawn, with its vertex buffer.
#[derive(Clone, Copy, Debug, PartialEq, Eq, Structural)]
pub struct BlendCandidate {
    pub slot: u32,
    pub buffer: u64,
}

/// Whether slot `s` is registered, its bytes have arrived and it is visible.
pub open spec fn drawable(dir: ArenaDirectory, res: MeshResidency, visible: Seq<u32>, s: u32) -> bool {
    arena::registered(dir.slots@, s as int) && res.arrived(s) && cull_math::mask_bit(
        visible,
        s as int,
    )
}

/// The vertex buffer of a registered slot.
pub open spec fn buffer_of(dir: ArenaDirectory, s: u32) -> u64 {
    dir.buffers[(dir.slots@[s as int]->Some_0).arena as int]
}

/// The drawable ones of `list`, in its order.
pub open spec fn candidates_of(
    dir: ArenaDirectory,
    res: MeshResidency,
    visible: Seq<u32>,
    list: Seq<u32>,
) -> Seq<BlendCandidate>
    decreases list.len(),
{
    if list.len() == 0 {
        Seq::empty()
    } else {
        let rest = candidates_of(dir, res, visible, list.drop_last());
        let s = list.last();
        if drawable(dir, res, visible, s) {
            rest.push(BlendCandidate { slot: s, buffer: buffer_of(dir, s) })
        } else {
            rest
        }
    }
}

/// The blended meshes that may be drawn. A mesh whose copy is still deferred is
/// registered before its bytes land, and is left out until they do.
pub fn blend_candidates(dir: &ArenaDirectory, res: &MeshResidency, visible: &[u32]) -> (r: Vec<
    BlendCandidate,
>)
    requires
        dir.wf(),
    ensures
        r@ == candidates_of(*dir, *res, visible@, dir.blend@),
        r.len() <= dir.blend.len(),
{
    let list: &Vec<u32> = dir.blend_slots();
    let mut r: Vec<BlendCandidate> = Vec::new();
    let mut i: usize = 0;
    while i < list.len()
        invariant
            dir.wf(),
            list@ == dir.blend@,
            i <= list.len(),
            r@ == candidates_of(*dir, *res, visible@, list@.take(i as int)),
            r.len() <= i,
        decreases list.len() - i,
    {
        let s: u32 = list[i];
        let word: u32 = dir.arena_word(s as usize);
        proof {
            assert(list@.take(i + 1).drop_last() =~= list@.take(i as int));
            assert(list@.take(i + 1).last() == s);
        }
        i = i + 1;
        if word == 0 || !res.is_arrived(s) {
            continue ;
        }
        if !slot_visible(visible, s) {
            continue ;
        }
        r.push(BlendCandidate { slot: s, buffer: dir.arena_buffer((word - 1) as usize) });
    }
    proof {
        assert(list@.take(i as int) =~= list@);
    }
    r
}

/// The entry of a placed candidate.
pub open spec fn entry_of(c: BlendCandidate, p: Placed) -> DrawEntry {
    DrawEntry {
        buffer: c.buffer,
        pass: Pass::Blend,
        first: 0,
        count: p.count,
        vertex_offset: p.vertex_offset,
        slot: c.slot,
        dist2: float_order_spec(p.dist2),
    }
}

/// The entries of the candidates in sight.
pub open spec fn entries_of(cands: Seq<BlendCandidate>, placed: Seq<Option<Placed>>) -> Seq<
    DrawEntry,
>
    decreases cands.len(),
{
    if cands.len() == 0 {
        Seq::empty()
    } else {
        let rest = entries_of(cands.drop_last(), placed.drop_last());
        match placed.last() {
            Some(p) => rest.push(entry_of(cands.last(), p)),
            None => rest,
        }
    }
}

/// `placed` holds what `place` said of each candidate.
pub open spec fn placed_by<F: Fn(u32) -> Option<Placed>>(
    place: F,
    cands: Seq<BlendCandidate>,
    placed: Seq<Option<Placed>>,
) -> bool {
    &&& placed.len() == cands.len()
    &&& forall|i: int|
        0 <= i < cands.len() ==> call_ensures(place, (cands[i].slot,), #[trigger] placed[i])
}

/// Whether `a` may be drawn before `b`: farther away, or equally far with a buffer
/// that is not larger.
pub open spec fn draws_before(a: DrawEntry, b: DrawEntry) -> bool {
    a.dist2 > b.dist2 || (a.dist2 == b.dist2 && a.buffer <= b.buffer)
}

fn goes_first(a: &DrawEntry, b: &DrawEntry) -> (r: bool)
    ensures
        r == draws_before(*a, *b),
{
    a.dist2 > b.dist2 || (a.dist2 == b.dist2 && a.buffer <= b.buffer)
}

/// Every entry may be drawn before all that follow it.
pub open spec fn far_to_near(v: Seq<DrawEntry>) -> bool {
    forall|i: int, j: int|
        0 <= i < j < v.len() ==> draws_before(#[trigger] v[i], #[trigger] v[j])
}

/// Everything in `a` may be drawn before `e`.
spec fn all_before(a: Seq<DrawEntry>, e: DrawEntry) -> bool {
    forall|i: int| 0 <= i < a.len() ==> draws_before(#[trigger] a[i], e)
}

proof fn lemma_push_ordered(out: Seq<DrawEntry>, e: DrawEntry)
    requires
        far_to_near(out),
        all_before(out, e),
    ensures
        far_to_near(out.push(e)),
{
}

/// Merges two ordered lists.
fn merge(a: &Vec<DrawEntry>, b: &Vec<DrawEntry>) -> (out: Vec<DrawEntry>)
    requires
        far_to_near(a@),
        far_to_near(b@),
    ensures
        far_to_near(out@),
        out@.to_multiset() == (a@ + b@).to_multiset(),
        out.len() == a.len() + b.len(),
{
    let mut out: Vec<DrawEntry> = Vec::new();
    let mut i: usize = 0;
    let mut j: usize = 0;
    proof {
        assert(a@.take(0) + b@.take(0) =~= out@);
    }
    while i < a.len() || j < b.len()
        invariant
            i <= a.len(),
            j <= b.len(),
            far_to_near(a@),
            far_to_near(b@),
            far_to_near(out@),
            out.len() == i + j,
            out@.to_multiset() == (a@.take(i as int) + b@.take(j as int)).to_multiset(),
            i < a.len() ==> all_before(out@, a@[i as int]),
            j < b.len() ==> all_before(out@, b@[j as int]),
        decreases a.len() - i + b.len() - j,
    {
        let ghost before = out@;
        let ghost left = a@.take(i as int);
        let ghost right = b@.take(j as int);
        let from_a: bool = j >= b.len() || (i < a.len() && goes_first(&a[i], &b[j]));
        if from_a {
            let e: DrawEntry = a[i];
            out.push(e);
            i = i + 1;
            proof {
                lemma_push_ordered(before, e);
                assert(a@.take(i as int) =~= left.push(e));
                lemma_push_left(left, right, e);
                before.to_multiset_ensures();
                (left + right).to_multiset_ensures();
            }
        } else {
            let e: DrawEntry = b[j];
            out.push(e);
            j = j + 1;
            proof {
                lemma_push_ordered(before, e);
                assert(b@.take(j as int) =~= right.push(e));
                assert(left + right.push(e) =~= (left + right).push(e));
                before.to_multiset_ensures();
                (left + right).to_multiset_ensures();
            }
        }
    }
    proof {
        assert(a@.take(i as int) =~= a@);
        assert(b@.take(j as int) =~= b@);
    }
    out
}

proof fn lemma_push_left(left: Seq<DrawEntry>, right: Seq<DrawEntry>, e: DrawEntry)
    ensures
        (left.push(e) + right).to_multiset() == (left + right).to_multiset().insert(e),
{
    vstd::seq_lib::lemma_multiset_commutative(left.push(e), right);
    vstd::seq_lib::lemma_multiset_commutative(left, right);
    left.to_multiset_ensures();
    assert((left.push(e) + right).to_multiset() =~= (left + right).to_multiset().insert(e));
}

/// The entries from `lo` up to `hi`, ordered.
fn sort_range(v: &Vec<DrawEntry>, lo: usize, hi: usize) -> (out: Vec<DrawEntry>)
    requires
        lo <= hi <= v.len(),
    ensures
        far_to_near(out@),
        out@.to_multiset() == v@.subrange(lo as int, hi as int).to_multiset(),
        out.len() == hi - lo,
    decreases hi - lo,
{
    if hi - lo <= 1 {
        let mut out: Vec<DrawEntry> = Vec::new();
        if lo < hi {
            out.push(v[lo]);
        }
        proof {
            assert(out@ =~= v@.subrange(lo as int, hi as int));
        }
        return out;
    }
    let mid: usize = lo + (hi - lo) / 2;
    let a: Vec<DrawEntry> = sort_range(v, lo, mid);
    let b: Vec<DrawEntry> = sort_range(v, mid, hi);
    let out: Vec<DrawEntry> = merge(&a, &b);
    proof {
        let x = v@.subrange(lo as int, mid as int);
        let y = v@.subrange(mid as int, hi as int);
        vstd::seq_lib::lemma_multiset_commutative(a@, b@);
        vstd::seq_lib::lemma_multiset_commutative(x, y);
        assert(x + y =~= v@.subrange(lo as int, hi as int));
    }
    out
}

/// The entries from far to near; equally far ones by buffer, so that their draws
/// batch.
pub fn sort_far_to_near(entries: &Vec<DrawEntry>) -> (out: Vec<DrawEntry>)
    ensures
        far_to_near(out@),
        out@.to_multiset() == entries@.to_multiset(),
        out.len() == entries.len(),
{
    let out: Vec<DrawEntry> = sort_range(entries, 0, entries.len());
    proof {
        assert(entries@.subrange(0, entries.len() as int) =~= entries@);
    }
    out
}

/// The indirect command of an entry.
pub open spec fn command_of(e: DrawEntry) -> DrawIndexedIndirect {
    DrawIndexedIndirect {
        index_count: e.count,
        instance_count: 1,
        first_index: e.first,
        vertex_offset: e.vertex_offset,
        first_instance: e.slot,
    }
}

/// Where run `k` ends.
pub open spec fn run_end(runs: Seq<DrawRun>, k: int) -> int {
    runs[k].first + runs[k].count
}

/// Run `k` covers entries of its own buffer and pass.
pub open spec fn run_ok(runs: Seq<DrawRun>, entries: Seq<DrawEntry>, k: int) -> bool {
    &&& runs[k].count > 0
    &&& runs[k].first == if k == 0 {
        0
    } else {
        run_end(runs, k - 1)
    }
    &&& forall|i: int|
        runs[k].first <= i < run_end(runs, k) ==> (#[trigger] entries[i]).buffer == runs[k].buffer
            && entries[i].pass == runs[k].pass
    &&& k > 0 ==> runs[k].buffer != runs[k - 1].buffer || runs[k].pass != runs[k - 1].pass
}

/// `runs` splits the entries into the longest stretches of one buffer and pass.
pub open spec fn batches(runs: Seq<DrawRun>, entries: Seq<DrawEntry>) -> bool {
    &&& forall|k: int| 0 <= k < runs.len() ==> #[trigger] run_ok(runs, entries, k)
    &&& entries.len() == if runs.len() == 0 {
        0
    } else {
        run_end(runs, runs.len() - 1)
    }
}

/// The draws of a frame's blended meshes.
pub struct BlendDraws {
    pub order: Vec<DrawEntry>,
    pub commands: Vec<DrawIndexedIndirect>,
    pub runs: Vec<DrawRun>,
}

/// The commands of ordered entries, batched.
pub fn batch_draws(order: Vec<DrawEntry>) -> (r: BlendDraws)
    requires
        order.len() <= u32::MAX,
    ensures
        r.order@ == order@,
        r.commands@ == Seq::new(order.len() as nat, |i: int| command_of(order@[i])),
        batches(r.runs@, order@),
{
    let mut commands: Vec<DrawIndexedIndirect> = Vec::new();
    let mut runs: Vec<DrawRun> = Vec::new();
    let mut i: usize = 0;
    proof {
        assert(commands@ =~= Seq::new(0, |k: int| command_of(order@[k])));
    }
    while i < order.len()
        invariant
            i <= order.len(),
            order.len() <= u32::MAX,
            commands@ == Seq::new(i as nat, |k: int| command_of(order@[k])),
            batches(runs@, order@.take(i as int)),
            forall|k: int| 0 <= k < runs.len() ==> #[trigger] run_ok(runs@, order@.take(i as int), k),
        decreases order.len() - i,
    {
        let e: DrawEntry = order[i];
        let ghost seen = order@.take(i as int);
        let ghost next = order@.take(i + 1);
        let ghost before = runs@;
        commands.push(
            DrawIndexedIndirect {
                index_count: e.count,
                instance_count: 1,
                first_index: e.first,
                vertex_offset: e.vertex_offset,
                first_instance: e.slot,
            },
        );
        let n: usize = runs.len();
        let extends: bool = n > 0 && runs[n - 1].buffer == e.buffer && runs[n - 1].pass == e.pass;
        if extends {
            proof {
                assert(run_ok(before, seen, n - 1));
            }
            let last: DrawRun = runs[n - 1];
            runs.set(n - 1, DrawRun { count: last.count + 1, ..last });
            proof {
                assert forall|k: int| 0 <= k < runs.len() implies #[trigger] run_ok(
                    runs@,
                    next,
                    k,
                ) by {
                    assert(run_ok(before, seen, k));
                    if k > 0 {
                        assert(run_ok(before, seen, k - 1));
                    }
                    lemma_runs_in_order(before, seen, k);
                    assert forall|x: int|
                        runs@[k].first <= x < run_end(runs@, k) implies (#[trigger] next[x]).buffer
                            == runs@[k].buffer && next[x].pass == runs@[k].pass by {
                        if x < i {
                            assert(next[x] == seen[x]);
                        }
                    }
                }
            }
        } else {
            runs.push(DrawRun { buffer: e.buffer, pass: e.pass, first: i as u32, count: 1 });
            proof {
                assert forall|k: int| 0 <= k < runs.len() implies #[trigger] run_ok(
                    runs@,
                    next,
                    k,
                ) by {
                    if k < n {
                        assert(run_ok(before, seen, k));
                        lemma_runs_in_order(before, seen, k);
                        assert forall|x: int|
                            runs@[k].first <= x < run_end(runs@, k) implies (
                        #[trigger] next[x]).buffer == runs@[k].buffer && next[x].pass
                            == runs@[k].pass by {
                            assert(next[x] == seen[x]);
                        }
                        if k > 0 {
                            assert(runs@[k - 1] == before[k - 1]);
                        }
                    }
                }
            }
        }
        i = i + 1;
        proof {
            assert(commands@ =~= Seq::new(i as nat, |k: int| command_of(order@[k])));
        }
    }
    proof {
        assert(order@.take(i as int) =~= order@);
    }
    BlendDraws { order, commands, runs }
}

/// Every run ends no later than the entries do.
proof fn lemma_runs_in_order(runs: Seq<DrawRun>, entries: Seq<DrawEntry>, k: int)
    requires
        batches(runs, entries),
        0 <= k < runs.len(),
    ensures
        run_end(runs, k) <= entries.len(),
    decreases runs.len() - k,
{
    if k + 1 < runs.len() {
        assert(run_ok(runs, entries, k + 1));
        lemma_runs_in_order(runs, entries, k + 1);
    }
}

/// A list without repetitions over the slots below `n` has at most `n` entries.
proof fn lemma_slots_below(list: Seq<u32>, n: int)
    requires
        list.no_duplicates(),
        0 <= n,
        forall|i: int| 0 <= i < list.len() ==> #[trigger] list[i] < n,
    ensures
        list.len() <= n,
{
    let ints = list.map_values(|s: u32| s as int);
    assert(ints.no_duplicates());
    ints.unique_seq_to_set();
    vstd::set_lib::lemma_int_range(0, n);
    let all = vstd::set_lib::set_int_range(0, n);
    assert(ints.to_set().subset_of(all)) by {
        assert forall|x: int| ints.to_set().contains(x) implies all.contains(x) by {
            let i = choose|i: int| 0 <= i < ints.len() && ints[i] == x;
            assert(list[i] < n);
        }
    }
    vstd::set_lib::lemma_len_subset(ints.to_set(), all);
}

/// The frame's blended draws, from far to near. `place` says of a slot whether its
/// mesh is in sight, and where; without a scene nothing is drawn.
pub fn prepare_blend_draws<F: Fn(u32) -> Option<Placed>>(
    dir: &ArenaDirectory,
    res: &MeshResidency,
    visible: &[u32],
    scene: bool,
    place: &F,
) -> (r: BlendDraws)
    requires
        dir.wf(),
        forall|s: u32| call_requires(*place, (s,)),
    ensures
        !scene ==> r.order.len() == 0,
        scene ==> exists|placed: Seq<Option<Placed>>|
            placed_by(*place, candidates_of(*dir, *res, visible@, dir.blend@), placed)
                && r.order@.to_multiset() == #[trigger] entries_of(
                candidates_of(*dir, *res, visible@, dir.blend@),
                placed,
            ).to_multiset(),
        far_to_near(r.order@),
        r.commands@ == Seq::new(r.order.len() as nat, |i: int| command_of(r.order@[i])),
        batches(r.runs@, r.order@),
{
    if !scene {
        return batch_draws(Vec::new());
    }
    let cands: Vec<BlendCandidate> = blend_candidates(dir, res, visible);
    let mut entries: Vec<DrawEntry> = Vec::new();
    let ghost mut placed: Seq<Option<Placed>> = Seq::empty();
    let mut i: usize = 0;
    while i < cands.len()
        invariant
            i <= cands.len(),
            entries.len() <= i,
            forall|s: u32| call_requires(*place, (s,)),
            placed_by(*place, cands@.take(i as int), placed),
            entries@ == entries_of(cands@.take(i as int), placed),
        decreases cands.len() - i,
    {
        let c: BlendCandidate = cands[i];
        let spot: Option<Placed> = place(c.slot);
        let ghost before = placed;
        proof {
            placed = placed.push(spot);
            assert(placed.drop_last() =~= before);
            assert(cands@.take(i + 1).drop_last() =~= cands@.take(i as int));
            assert forall|k: int| 0 <= k < i + 1 implies call_ensures(
                *place,
                (cands@.take(i + 1)[k].slot,),
                #[trigger] placed[k],
            ) by {
                if k < i {
                    assert(call_ensures(*place, (cands@.take(i as int)[k].slot,), before[k]));
                }
            }
        }
        if let Some(p) = spot {
            entries.push(
                DrawEntry {
                    buffer: c.buffer,
                    pass: Pass::Blend,
                    first: 0,
                    count: p.count,
                    vertex_offset: p.vertex_offset,
                    slot: c.slot,
                    dist2: float_order(p.dist2),
                },
            );
        }
        i = i + 1;
    }
    proof {
        assert(cands@.take(i as int) =~= cands@);
        let list = dir.blend@;
        assert forall|k: int| 0 <= k < list.len() implies #[trigger] list[k]
            < dir.slots.len() by {
            assert(list.contains(list[k]));
            assert(arena::is_blend(dir.slots@, list[k]));
        }
        lemma_slots_below(list, dir.slots.len() as int);
    }
    let order: Vec<DrawEntry> = sort_far_to_near(&entries);
    batch_draws(order)
}

/// Any two ways of drawing the same meshes from far to near pass the same
/// distances and buffers in the same order: only equal draws may change places.
pub proof fn law_far_to_near_is_settled(a: Seq<DrawEntry>, b: Seq<DrawEntry>)
    requires
        far_to_near(a),
        far_to_near(b),
        a.to_multiset() == b.to_multiset(),
    ensures
        a.len() == b.len(),
        forall|i: int|
            0 <= i < a.len() ==> (#[trigger] a[i]).dist2 == b[i].dist2 && a[i].buffer
                == b[i].buffer,
    decreases a.len(),
{
    a.to_multiset_ensures();
    b.to_multiset_ensures();
    if a.len() > 0 {
        let x = a.last();
        assert(a.contains(x));
        assert(b.to_multiset().count(x) > 0);
        assert(b.contains(x));
        let j = choose|j: int| 0 <= j < b.len() && b[j] == x;
        let y = b.last();
        assert(b.contains(y));
        assert(a.to_multiset().count(y) > 0);
        assert(a.contains(y));
        let k = choose|k: int| 0 <= k < a.len() && a[k] == y;
        if j < b.len() - 1 {
            assert(draws_before(b[j], b[b.len() - 1]));
        }
        if k < a.len() - 1 {
            assert(draws_before(a[k], a[a.len() - 1]));
        }
        assert(x.dist2 == y.dist2 && x.buffer == y.buffer);
        // Swap the equal draw to the end of `b`, then compare what is left.
        let rest = if j == b.len() - 1 {
            b.drop_last()
        } else {
            b.drop_last().update(j, y)
        };
        assert(rest.to_multiset() == a.drop_last().to_multiset()) by {
            lemma_drop_equal(a, b, j);
        }
        assert(far_to_near(rest)) by {
            assert forall|p: int, q: int| 0 <= p < q < rest.len() implies draws_before(
                #[trigger] rest[p],
                #[trigger] rest[q],
            ) by {
                assert(draws_before(b[p], b[q]));
            }
        }
        assert(far_to_near(a.drop_last()));
        law_far_to_near_is_settled(a.drop_last(), rest);
        assert forall|i: int| 0 <= i < a.len() implies (#[trigger] a[i]).dist2 == b[i].dist2
            && a[i].buffer == b[i].buffer by {
            if i < a.len() - 1 {
                assert(a.drop_last()[i] == a[i]);
                assert(rest[i].dist2 == b[i].dist2 && rest[i].buffer == b[i].buffer);
            }
        }
    }
}

/// Taking the last entry off `a`, and its equal at `j` out of `b`, leaves the same
/// entries.
proof fn lemma_drop_equal(a: Seq<DrawEntry>, b: Seq<DrawEntry>, j: int)
    requires
        a.len() > 0,
        a.len() == b.len(),
        a.to_multiset() == b.to_multiset(),
        0 <= j < b.len(),
        b[j] == a.last(),
    ensures
        (if j == b.len() - 1 {
            b.drop_last()
        } else {
            b.drop_last().update(j, b.last())
        }).to_multiset() == a.drop_last().to_multiset(),
{
    let x = a.last();
    a.to_multiset_ensures();
    b.to_multiset_ensures();
    assert(a.remove(a.len() - 1) =~= a.drop_last());
    assert(a.drop_last().to_multiset() =~= a.to_multiset().remove(x));
    if j == b.len() - 1 {
        assert(b.remove(j) =~= b.drop_last());
    } else {
        let y = b.last();
        let init = b.drop_last();
        let swapped = init.update(j, y);
        init.to_multiset_ensures();
        swapped.to_multiset_ensures();
        assert(b.remove(b.len() - 1) =~= init);
        assert(init.to_multiset() =~= b.to_multiset().remove(y));
        assert(swapped.remove(j) =~= init.remove(j));
        assert(swapped.remove(j).to_multiset() =~= swapped.to_multiset().remove(y));
        assert(init.remove(j).to_multiset() =~= init.to_multiset().remove(x));
        assert(swapped.contains(swapped[j]));
        assert(init.contains(init[j]));
        assert(b.contains(y) && b.contains(x));
        assert forall|e: DrawEntry| #[trigger] swapped.to_multiset().count(e)
            == a.drop_last().to_multiset().count(e) by {
            assert(swapped.to_multiset().remove(y).count(e) == init.to_multiset().remove(x).count(
                e,
            ));
        }
        assert(swapped.to_multiset() =~= a.drop_last().to_multiset());
    }
}

/// Slot `s` is a blended mesh on the GPU that the mask shows.
pub open spec fn shown(dir: ArenaDirectory, res: MeshResidency, visible: Seq<u32>, s: u32) -> bool {
    &&& s < dir.slots.len()
    &&& dir.slots@[s as int] matches Some(p) && p.lane is None
    &&& s < res.slots.len()
    &&& res.slots@[s as int] matches Some(r) && r.arrived_at is Some
    &&& s / 32 < visible.len()
    &&& (visible[s as int / 32] >> ((s % 32) as u32)) & 1 == 1
}

proof fn lemma_shown(dir: ArenaDirectory, res: MeshResidency, visible: Seq<u32>, s: u32)
    requires
        dir.wf(),
    ensures
        dir.blend@.contains(s) && drawable(dir, res, visible, s) <==> shown(dir, res, visible, s),
{
    let set = arena::blend_set(dir.slots@);
    assert(set.contains(s) == arena::is_blend(dir.slots@, s));
    if dir.blend@.contains(s) {
        let k = choose|k: int| 0 <= k < dir.blend@.len() && dir.blend@[k] == s;
        assert(set.contains(dir.blend@[k]));
    }
    if set.contains(s) {
        let at = slot_list::pos_at(dir.blend_pos@, s as int) - 1;
        assert(dir.blend@[at] == s);
    }
    if s / 32 < visible.len() {
        let word = visible[s as int / 32];
        let i = (s % 32) as u32;
        assert((word & (1u32 << i) != 0) == ((word >> i) & 1 == 1)) by (bit_vector)
            requires
                i < 32,
        ;
    }
}

proof fn lemma_blend_distinct(dir: ArenaDirectory)
    requires
        dir.wf(),
    ensures
        dir.blend@.no_duplicates(),
{
    let list = dir.blend@;
    assert forall|i: int, j: int| 0 <= i < list.len() && 0 <= j < list.len() && i != j implies list[i]
        != list[j] by {
        assert(slot_list::pos_at(dir.blend_pos@, list[i] as int) == i + 1);
        assert(slot_list::pos_at(dir.blend_pos@, list[j] as int) == j + 1);
    }
}

proof fn lemma_candidates(
    dir: ArenaDirectory,
    res: MeshResidency,
    visible: Seq<u32>,
    list: Seq<u32>,
)
    ensures
        ({
            let cands = candidates_of(dir, res, visible, list);
            &&& forall|i: int|
                0 <= i < cands.len() ==> list.contains((#[trigger] cands[i]).slot) && drawable(
                    dir,
                    res,
                    visible,
                    cands[i].slot,
                ) && cands[i].buffer == buffer_of(dir, cands[i].slot)
            &&& forall|k: int|
                0 <= k < list.len() && drawable(dir, res, visible, #[trigger] list[k]) ==> exists|
                    i: int,
                |
                    0 <= i < cands.len() && (#[trigger] cands[i]).slot == list[k]
            &&& list.no_duplicates() ==> forall|i: int, j: int|
                0 <= i < j < cands.len() ==> (#[trigger] cands[i]).slot != (#[trigger] cands[j]).slot
        }),
    decreases list.len(),
{
    let cands = candidates_of(dir, res, visible, list);
    if list.len() > 0 {
        let less = list.drop_last();
        let rest = candidates_of(dir, res, visible, less);
        lemma_candidates(dir, res, visible, less);
        let n = list.len() - 1;
        assert forall|i: int| 0 <= i < cands.len() implies list.contains(
            (#[trigger] cands[i]).slot,
        ) && drawable(dir, res, visible, cands[i].slot) && cands[i].buffer == buffer_of(
            dir,
            cands[i].slot,
        ) by {
            if i < rest.len() {
                assert(cands[i] == rest[i]);
                let k = choose|k: int| 0 <= k < less.len() && less[k] == rest[i].slot;
                assert(list[k] == cands[i].slot);
            } else {
                assert(list[n] == cands[i].slot);
            }
        }
        assert forall|k: int|
            0 <= k < list.len() && drawable(dir, res, visible, #[trigger] list[k]) implies exists|
            i: int,
        |
            0 <= i < cands.len() && (#[trigger] cands[i]).slot == list[k] by {
            if k < n {
                assert(less[k] == list[k]);
                let i = choose|i: int| 0 <= i < rest.len() && (#[trigger] rest[i]).slot == less[k];
                assert(cands[i] == rest[i]);
            } else {
                assert(cands[rest.len() as int].slot == list[k]);
            }
        }
        if list.no_duplicates() {
            assert(less.no_duplicates());
            assert forall|i: int, j: int| 0 <= i < j < cands.len() implies (
            #[trigger] cands[i]).slot != (#[trigger] cands[j]).slot by {
                assert(cands[i] == rest[i]);
                if j < rest.len() {
                    assert(cands[j] == rest[j]);
                } else {
                    let k = choose|k: int| 0 <= k < less.len() && less[k] == rest[i].slot;
                    assert(list[k] != list[n]);
                }
            }
        }
    }
}

proof fn lemma_entries(cands: Seq<BlendCandidate>, placed: Seq<Option<Placed>>)
    requires
        cands.len() == placed.len(),
    ensures
        ({
            let all = entries_of(cands, placed);
            &&& forall|e: DrawEntry| #[trigger]
                all.contains(e) <==> exists|c: int|
                    0 <= c < cands.len() && (#[trigger] placed[c]) is Some && e == entry_of(
                        cands[c],
                        placed[c]->Some_0,
                    )
            &&& (forall|i: int, j: int|
                0 <= i < j < cands.len() ==> (#[trigger] cands[i]).slot != (
                #[trigger] cands[j]).slot) ==> all.no_duplicates()
        }),
    decreases cands.len(),
{
    let all = entries_of(cands, placed);
    if cands.len() > 0 {
        let n = cands.len() - 1;
        let less = entries_of(cands.drop_last(), placed.drop_last());
        lemma_entries(cands.drop_last(), placed.drop_last());
        assert forall|e: DrawEntry| #[trigger] all.contains(e) <==> exists|c: int|
            0 <= c < cands.len() && (#[trigger] placed[c]) is Some && e == entry_of(
                cands[c],
                placed[c]->Some_0,
            ) by {
            if all.contains(e) {
                let k = choose|k: int| 0 <= k < all.len() && all[k] == e;
                if k < less.len() {
                    assert(less[k] == e);
                    assert(less.contains(e));
                    let c = choose|c: int|
                        0 <= c < n && (#[trigger] placed.drop_last()[c]) is Some && e == entry_of(
                            cands.drop_last()[c],
                            placed.drop_last()[c]->Some_0,
                        );
                    assert(placed[c] is Some);
                } else {
                    assert(placed[n] is Some);
                }
            }
            if exists|c: int|
                0 <= c < cands.len() && (#[trigger] placed[c]) is Some && e == entry_of(
                    cands[c],
                    placed[c]->Some_0,
                ) {
                let c = choose|c: int|
                    0 <= c < cands.len() && (#[trigger] placed[c]) is Some && e == entry_of(
                        cands[c],
                        placed[c]->Some_0,
                    );
                if c < n {
                    assert(placed.drop_last()[c] is Some);
                    assert(less.contains(e));
                    let k = choose|k: int| 0 <= k < less.len() && less[k] == e;
                    assert(all[k] == e);
                } else {
                    assert(all[less.len() as int] == e);
                }
            }
        }
        if forall|i: int, j: int|
            0 <= i < j < cands.len() ==> (#[trigger] cands[i]).slot != (#[trigger] cands[j]).slot {
            assert forall|i: int, j: int| 0 <= i < j < n implies (
            #[trigger] cands.drop_last()[i]).slot != (#[trigger] cands.drop_last()[j]).slot by {
                assert(cands[i].slot != cands[j].slot);
            }
            assert forall|i: int, j: int|
                0 <= i < all.len() && 0 <= j < all.len() && i != j implies all[i] != all[j] by {
                if i < less.len() && j < less.len() {
                    assert(less[i] != less[j]);
                } else {
                    let k = if i < j {
                        i
                    } else {
                        j
                    };
                    assert(less.contains(less[k]));
                    let c = choose|c: int|
                        0 <= c < n && (#[trigger] placed.drop_last()[c]) is Some && less[k]
                            == entry_of(cands.drop_last()[c], placed.drop_last()[c]->Some_0);
                    assert(cands[c].slot != cands[n].slot);
                }
            }
        }
    } else {
        assert(all =~= Seq::empty());
    }
}

/// Command `i` draws the whole mesh of its slot as `p` placed it: one instance, numbered
/// by the slot, from the first index of the mesh.
pub open spec fn draws_placed(c: DrawIndexedIndirect, p: Placed) -> bool {
    &&& c.index_count == p.count
    &&& c.vertex_offset == p.vertex_offset
    &&& c.first_index == 0
    &&& c.instance_count == 1
}

/// Every blended command belongs to a mesh that is shown and that `place` put in sight, and
/// draws what `place` gave for it; no mesh has two commands.
pub proof fn law_every_blend_command_draws_a_mesh_in_sight<F: Fn(u32) -> Option<Placed>>(
    dir: ArenaDirectory,
    res: MeshResidency,
    visible: Seq<u32>,
    place: F,
    placed: Seq<Option<Placed>>,
    r: BlendDraws,
    i: int,
)
    requires
        dir.wf(),
        placed_by(place, candidates_of(dir, res, visible, dir.blend@), placed),
        r.order@.to_multiset() == entries_of(
            candidates_of(dir, res, visible, dir.blend@),
            placed,
        ).to_multiset(),
        r.commands@ == Seq::new(r.order.len() as nat, |k: int| command_of(r.order@[k])),
        0 <= i < r.commands.len(),
    ensures
        shown(dir, res, visible, r.commands[i].first_instance),
        exists|p: Placed| #[trigger]
            call_ensures(place, (r.commands[i].first_instance,), Some(p)) && draws_placed(
                r.commands[i],
                p,
            ),
        forall|j: int|
            0 <= j < r.commands.len() && j != i ==> (#[trigger] r.commands[j]).first_instance
                != r.commands[i].first_instance,
{
    let cands = candidates_of(dir, res, visible, dir.blend@);
    let all = entries_of(cands, placed);
    let e = r.order@[i];
    lemma_blend_distinct(dir);
    lemma_candidates(dir, res, visible, dir.blend@);
    lemma_entries(cands, placed);
    r.order@.to_multiset_ensures();
    all.to_multiset_ensures();
    assert(r.order@.contains(e));
    assert(all.to_multiset().count(e) > 0);
    assert(all.contains(e));
    let c = choose|c: int|
        0 <= c < cands.len() && (#[trigger] placed[c]) is Some && e == entry_of(
            cands[c],
            placed[c]->Some_0,
        );
    lemma_shown(dir, res, visible, cands[c].slot);
    assert(call_ensures(place, (cands[c].slot,), placed[c]));
    let p = placed[c]->Some_0;
    assert(placed[c] == Some(p));
    assert(draws_placed(r.commands[i], p));
    all.lemma_multiset_has_no_duplicates();
    r.order@.lemma_multiset_has_no_duplicates_conv();
    assert forall|j: int| 0 <= j < r.commands.len() && j != i implies (
    #[trigger] r.commands[j]).first_instance != r.commands[i].first_instance by {
        let f = r.order@[j];
        assert(r.order@.contains(f));
        assert(all.to_multiset().count(f) > 0);
        assert(all.contains(f));
        let d = choose|d: int|
            0 <= d < cands.len() && (#[trigger] placed[d]) is Some && f == entry_of(
                cands[d],
                placed[d]->Some_0,
            );
        if d < c {
            assert(cands[d].slot != cands[c].slot);
        } else if c < d {
            assert(cands[c].slot != cands[d].slot);
        }
    }
}

/// Every blended mesh that is shown is put to `place`, and is drawn where, and only where,
/// `place` puts it in sight.
pub proof fn law_every_mesh_in_sight_has_its_blend_command<F: Fn(u32) -> Option<Placed>>(
    dir: ArenaDirectory,
    res: MeshResidency,
    visible: Seq<u32>,
    place: F,
    placed: Seq<Option<Placed>>,
    r: BlendDraws,
    s: u32,
)
    requires
        dir.wf(),
        placed_by(place, candidates_of(dir, res, visible, dir.blend@), placed),
        r.order@.to_multiset() == entries_of(
            candidates_of(dir, res, visible, dir.blend@),
            placed,
        ).to_multiset(),
        r.commands@ == Seq::new(r.order.len() as nat, |k: int| command_of(r.order@[k])),
        shown(dir, res, visible, s),
    ensures
        exists|spot: Option<Placed>| #[trigger]
            call_ensures(place, (s,), spot) && (spot is Some <==> exists|i: int|
                0 <= i < r.commands.len() && (#[trigger] r.commands[i]).first_instance == s
                    && draws_placed(r.commands[i], spot->Some_0)) && (spot is None ==> forall|
                i: int,
            |
                0 <= i < r.commands.len() ==> (#[trigger] r.commands[i]).first_instance != s),
{
    let cands = candidates_of(dir, res, visible, dir.blend@);
    let all = entries_of(cands, placed);
    lemma_shown(dir, res, visible, s);
    lemma_blend_distinct(dir);
    lemma_candidates(dir, res, visible, dir.blend@);
    lemma_entries(cands, placed);
    r.order@.to_multiset_ensures();
    all.to_multiset_ensures();
    let k = choose|k: int| 0 <= k < dir.blend@.len() && dir.blend@[k] == s;
    let c = choose|c: int| 0 <= c < cands.len() && (#[trigger] cands[c]).slot == dir.blend@[k];
    let spot = placed[c];
    assert(call_ensures(place, (cands[c].slot,), placed[c]));
    if spot is Some {
        let e = entry_of(cands[c], spot->Some_0);
        assert(all.contains(e));
        assert(r.order@.to_multiset().count(e) > 0);
        assert(r.order@.contains(e));
        let i = choose|i: int| 0 <= i < r.order@.len() && r.order@[i] == e;
        assert(r.commands[i].first_instance == s);
        assert(draws_placed(r.commands[i], spot->Some_0));
    } else {
        assert forall|i: int| 0 <= i < r.commands.len() implies (
        #[trigger] r.commands[i]).first_instance != s by {
            let f = r.order@[i];
            assert(r.order@.contains(f));
            assert(all.to_multiset().count(f) > 0);
            assert(all.contains(f));
            let d = choose|d: int|
                0 <= d < cands.len() && (#[trigger] placed[d]) is Some && f == entry_of(
                    cands[d],
                    placed[d]->Some_0,
                );
            if d < c {
                assert(cands[d].slot != cands[c].slot);
            } else if c < d {
                assert(cands[c].slot != cands[d].slot);
            }
        }
    }
}

spec fn from_candidate(
    cands: Seq<BlendCandidate>,
    placed: Seq<Option<Placed>>,
    e: DrawEntry,
    c: int,
) -> bool {
    0 <= c < cands.len() && placed[c] is Some && e == entry_of(cands[c], placed[c]->Some_0)
}

spec fn has_candidate(
    cands: Seq<BlendCandidate>,
    placed: Seq<Option<Placed>>,
    e: DrawEntry,
) -> bool {
    exists|c: int| from_candidate(cands, placed, e, c)
}

proof fn lemma_order_has_candidates(
    cands: Seq<BlendCandidate>,
    placed: Seq<Option<Placed>>,
    order: Seq<DrawEntry>,
)
    requires
        cands.len() == placed.len(),
        order.to_multiset() == entries_of(cands, placed).to_multiset(),
    ensures
        forall|i: int| 0 <= i < order.len() ==> has_candidate(cands, placed, #[trigger] order[i]),
{
    let all = entries_of(cands, placed);
    lemma_entries(cands, placed);
    order.to_multiset_ensures();
    all.to_multiset_ensures();
    assert forall|i: int| 0 <= i < order.len() implies has_candidate(
        cands,
        placed,
        #[trigger] order[i],
    ) by {
        assert(order.contains(order[i]));
        assert(all.to_multiset().count(order[i]) > 0);
        assert(all.contains(order[i]));
        let d = choose|d: int|
            0 <= d < cands.len() && (#[trigger] placed[d]) is Some && order[i] == entry_of(
                cands[d],
                placed[d]->Some_0,
            );
        assert(from_candidate(cands, placed, order[i], d));
    }
}

/// Blended commands come from far to near as `place` measured the distances.
pub proof fn law_blend_commands_come_far_to_near<F: Fn(u32) -> Option<Placed>>(
    dir: ArenaDirectory,
    res: MeshResidency,
    visible: Seq<u32>,
    place: F,
    placed: Seq<Option<Placed>>,
    r: BlendDraws,
)
    requires
        placed_by(place, candidates_of(dir, res, visible, dir.blend@), placed),
        r.order@.to_multiset() == entries_of(
            candidates_of(dir, res, visible, dir.blend@),
            placed,
        ).to_multiset(),
        far_to_near(r.order@),
        r.commands@ == Seq::new(r.order.len() as nat, |k: int| command_of(r.order@[k])),
    ensures
        exists|ps: Seq<Placed>| #[trigger] seen_far_to_near(place, r.commands@, ps),
{
    let cands = candidates_of(dir, res, visible, dir.blend@);
    lemma_order_has_candidates(cands, placed, r.order@);
    let ps = Seq::new(
        r.order@.len(),
        |i: int| placed[choose|c: int| from_candidate(cands, placed, r.order@[i], c)]->Some_0,
    );
    assert forall|i: int| 0 <= i < r.order@.len() implies {
        &&& call_ensures(place, (r.commands@[i].first_instance,), Some(#[trigger] ps[i]))
        &&& draws_placed(r.commands@[i], ps[i])
        &&& r.order@[i].dist2 == float_order_spec(ps[i].dist2)
    } by {
        assert(has_candidate(cands, placed, r.order@[i]));
        let c = choose|c: int| from_candidate(cands, placed, r.order@[i], c);
        assert(from_candidate(cands, placed, r.order@[i], c));
        assert(call_ensures(place, (cands[c].slot,), placed[c]));
        assert(placed[c] == Some(ps[i]));
    }
    assert forall|i: int, j: int|
        0 <= i < j < ps.len() && (#[trigger] ps[i]).dist2 < 0x8000_0000 && (
        #[trigger] ps[j]).dist2 < 0x8000_0000 implies ps[i].dist2 >= ps[j].dist2 by {
        assert(draws_before(r.order@[i], r.order@[j]));
        law_float_order_is_faithful(ps[i].dist2, ps[j].dist2);
    }
    assert(seen_far_to_near(place, r.commands@, ps));
}

/// Every run of blended commands draws from the buffer that its meshes lie in. The runs
/// pass over all commands, each once and in order.
pub proof fn law_blend_runs_draw_from_their_buffer<F: Fn(u32) -> Option<Placed>>(
    dir: ArenaDirectory,
    res: MeshResidency,
    visible: Seq<u32>,
    place: F,
    placed: Seq<Option<Placed>>,
    r: BlendDraws,
    k: int,
    i: int,
)
    requires
        placed_by(place, candidates_of(dir, res, visible, dir.blend@), placed),
        r.order@.to_multiset() == entries_of(
            candidates_of(dir, res, visible, dir.blend@),
            placed,
        ).to_multiset(),
        r.commands@ == Seq::new(r.order.len() as nat, |k: int| command_of(r.order@[k])),
        batches(r.runs@, r.order@),
        0 <= k < r.runs.len(),
        r.runs[k].first <= i < r.runs[k].first + r.runs[k].count,
    ensures
        0 <= i < r.commands.len(),
        r.runs[k].buffer == dir.buffers@[(dir.slots@[r.commands[i].first_instance as int]->Some_0).arena as int],
        r.runs[k].pass is Blend,
        k == 0 ==> r.runs[k].first == 0,
        k > 0 ==> r.runs[k].first == r.runs[k - 1].first + r.runs[k - 1].count,
        k == r.runs.len() - 1 ==> r.runs[k].first + r.runs[k].count == r.commands.len(),
{
    let cands = candidates_of(dir, res, visible, dir.blend@);
    lemma_order_has_candidates(cands, placed, r.order@);
    lemma_candidates(dir, res, visible, dir.blend@);
    assert(run_ok(r.runs@, r.order@, k));
    lemma_runs_in_order(r.runs@, r.order@, k);
    assert(has_candidate(cands, placed, r.order@[i]));
    let c = choose|c: int| from_candidate(cands, placed, r.order@[i], c);
    assert(from_candidate(cands, placed, r.order@[i], c));
    assert(cands[c].buffer == buffer_of(dir, cands[c].slot));
    assert(r.order@[i].buffer == r.runs@[k].buffer);
}

/// `ps` is what `place` gave for each command, and no command is nearer than the next;
/// squared distances have no sign.
pub open spec fn seen_far_to_near<F: Fn(u32) -> Option<Placed>>(
    place: F,
    commands: Seq<DrawIndexedIndirect>,
    ps: Seq<Placed>,
) -> bool {
    &&& ps.len() == commands.len()
    &&& forall|i: int|
        0 <= i < ps.len() ==> call_ensures(
            place,
            (commands[i].first_instance,),
            Some(#[trigger] ps[i]),
        ) && draws_placed(commands[i], ps[i])
    &&& forall|i: int, j: int|
        0 <= i < j < ps.len() && (#[trigger] ps[i]).dist2 < 0x8000_0000 && (
        #[trigger] ps[j]).dist2 < 0x8000_0000 ==> ps[i].dist2 >= ps[j].dist2
}

/// Slots that culling covers: no more than are recorded, nor beyond the last live
/// one.
pub fn cull_slot_count(record_slots: u32, live_end: u32) -> (r: u32)
    ensures
        r == if record_slots < live_end {
            record_slots
        } else {
            live_end
        },
{
    if record_slots < live_end {
        record_slots
    } else {
        live_end
    }
}

/// Grows the visibility mask to cover `slot_count` slots, hidden where new, and
/// returns the words that cover them.
pub fn cover_mask(mask: &mut Vec<u32>, slot_count: u32) -> (need: usize)
    ensures
        need == cull_math::words_for(slot_count as int),
        final(mask).len() == if old(mask).len() < need {
            need as int
        } else {
            old(mask).len() as int
        },
        forall|i: int|
            0 <= i < final(mask).len() ==> #[trigger] final(mask)[i] == if i < old(mask).len() {
                old(mask)[i]
            } else {
                0
            },
{
    let ghost before = mask@;
    let need: usize = (slot_count / 32) as usize + if slot_count % 32 == 0 {
        0usize
    } else {
        1usize
    };
    while mask.len() < need
        invariant
            mask.len() >= before.len(),
            mask.len() <= need || mask.len() == before.len(),
            need == cull_math::words_for(slot_count as int),
            forall|i: int|
                0 <= i < mask.len() ==> #[trigger] mask[i] == if i < before.len() {
                    before[i]
                } else {
                    0
                },
        decreases need - mask.len(),
    {
        mask.push(0);
    }
    need
}

/// `mask` grown to cover `slot_count` slots, hidden where new.
pub open spec fn covered(mask: Seq<u32>, slot_count: u32) -> Seq<u32> {
    Seq::new(
        cull_math::words_for(slot_count as int) as nat,
        |i: int|
            if i < mask.len() {
                mask[i]
            } else {
                0u32
            },
    )
}

/// Slots that culling covers this frame; `None` without a camera, or while no
/// record is on the device.
pub open spec fn culled_slots(
    camera: bool,
    record_slots: Option<u32>,
    live_end: u32,
) -> Option<u32> {
    match record_slots {
        Some(n) if camera => Some(
            if n < live_end {
                n
            } else {
                live_end
            },
        ),
        _ => None,
    }
}

/// What a frame draws: the culled meshes, where there is a camera, and the bytes of
/// the blended meshes' commands.
pub struct MeshDraws {
    pub cull: Option<CullPlan>,
    pub blend: Vec<u8>,
}

/// Prepares the culled draws of a frame and the bytes of its blended ones. Without
/// a camera, or while no record is on the device, nothing is culled and the
/// partition table is dropped.
pub fn prepare_mesh_draws(
    state: &mut CullState,
    slot: usize,
    dir: &ArenaDirectory,
    camera: bool,
    record_slots: Option<u32>,
    mask: &mut Vec<u32>,
    arrived: &[bool],
    tests: &[SlotTests],
    shadow: bool,
    reach: Option<&Vec<bool>>,
    partitions: &mut Vec<PartitionGpu>,
    blend: &BlendDraws,
) -> (r: MeshDraws)
    requires
        slot < FRAMES_IN_FLIGHT,
        dir.wf(),
        culled_slots(camera, record_slots, dir.live_end) matches Some(n) ==> cull::frame_inputs(
            dir,
            arrived@,
            covered(old(mask)@, n),
            tests@,
            n,
            (CullMode { face: old(state).face_cull, shadow }),
            arena::table_view(reach),
        ),
    ensures
        bytes::in_memory(cull::commands_words(blend.commands@), r.blend@),
        match culled_slots(camera, record_slots, dir.live_end) {
            None => {
                &&& r.cull is None
                &&& final(partitions).len() == 0
                &&& *final(mask) == *old(mask)
                &&& *final(state) == *old(state)
            },
            Some(n) => {
                let need = cull_math::words_for(n as int);
                &&& final(mask)@ == covered(old(mask)@, n) + (if old(mask).len() > need {
                    old(mask)@.skip(need)
                } else {
                    Seq::empty()
                })
                &&& r.cull matches Some(plan) && cull::prepared(
                    old(state),
                    slot as int,
                    dir,
                    arrived@,
                    covered(old(mask)@, n),
                    tests@,
                    n,
                    shadow,
                    arena::table_view(reach),
                    final(partitions)@,
                    plan,
                    final(state),
                )
            },
        },
{
    let blended = cull::command_bytes(&blend.commands);
    match record_slots {
        Some(n) => if camera {
            let slot_count: u32 = cull_slot_count(n, dir.live_end());
            let ghost before = mask@;
            let need: usize = cover_mask(mask, slot_count);
            let visible = vstd::slice::slice_subrange(mask.as_slice(), 0, need);
            proof {
                assert(visible@ =~= covered(before, slot_count));
                assert(mask@ =~= covered(before, slot_count) + (if before.len() > need {
                    before.skip(need as int)
                } else {
                    Seq::empty()
                }));
            }
            let plan = state.prepare(
                slot,
                dir,
                arrived,
                visible,
                tests,
                slot_count,
                shadow,
                reach,
                partitions,
            );
            return MeshDraws { cull: Some(plan), blend: blended };
        },
        None => {},
    }
    partitions.clear();
    MeshDraws { cull: None, blend: blended }
}

/// What the shadow cascades need this frame.
#[derive(Clone, Copy, Debug, PartialEq, Eq, Structural)]
pub enum ShadowWork {
    /// The map is current, or there is no scene.
    Keep,
    /// Fit the cascades anew, but draw no casters.
    FitOnly,
    /// Fit the cascades anew and draw the casters into them.
    FitAndDraw,
}

/// The cascades are fitted anew only when the shared map must be rewritten, and
/// casters are drawn only while shadows are on.
pub fn shadow_work(scene: bool, rebuild: bool, shadows: bool) -> (r: ShadowWork)
    ensures
        r == if !scene || !rebuild {
            ShadowWork::Keep
        } else if shadows {
            ShadowWork::FitAndDraw
        } else {
            ShadowWork::FitOnly
        },
{
    if !scene || !rebuild {
        return ShadowWork::Keep;
    }
    if shadows {
        ShadowWork::FitAndDraw
    } else {
        ShadowWork::FitOnly
    }
}

/// Each part is written where its draws look for it, and once: cubes at the start, lines,
/// shadows and both kinds of flat shapes at their own offsets. The scene's parts are
/// written whenever there is anything, the flat ones only where the frame presents.
pub proof fn law_each_part_is_written_in_its_place(o: ImmOffsets, will_present: bool)
    ensures
        ({
            let ws = imm_writes_spec(o, will_present);
            &&& o.total == 0 ==> ws.len() == 0
            &&& o.total > 0 && will_present ==> ws.len() == 5
            &&& o.total > 0 && !will_present ==> ws.len() == 3
            &&& forall|i: int, j: int|
                0 <= i < j < ws.len() ==> (#[trigger] ws[i]).part != (#[trigger] ws[j]).part
            &&& forall|i: int|
                0 <= i < ws.len() ==> match (#[trigger] ws[i]).part {
                    ImmPart::Cubes => ws[i].offset == 0,
                    ImmPart::Lines => ws[i].offset == o.line,
                    ImmPart::Shadows => ws[i].offset == o.shadow,
                    ImmPart::Flat => ws[i].offset == o.d2 && will_present,
                    ImmPart::FlatTextured => ws[i].offset == o.d2_tex && will_present,
                }
        }),
{
}

/// Covering more slots shows none of the new ones and hides none of the old.
pub proof fn law_covering_shows_nothing_new(mask: Seq<u32>, slot_count: u32, s: u32)
    requires
        s < slot_count,
    ensures
        s as int / 32 < covered(mask, slot_count).len(),
        covered(mask, slot_count).len() <= (slot_count + 31) / 32,
        s as int / 32 < mask.len() ==> covered(mask, slot_count)[s as int / 32] == mask[s as int
            / 32],
        s as int / 32 >= mask.len() ==> covered(mask, slot_count)[s as int / 32] == 0,
{
}

/// Culling covers every slot that is both recorded and live, and none that is either.
pub proof fn law_culling_covers_what_is_recorded_and_live(
    camera: bool,
    record_slots: Option<u32>,
    live_end: u32,
    s: u32,
)
    ensures
        (culled_slots(camera, record_slots, live_end) matches Some(n) && s < n) <==> camera
            && record_slots is Some && s < record_slots->Some_0 && s < live_end,
        culled_slots(camera, record_slots, live_end) is Some <==> camera && record_slots is Some,
{
}

} // verus!
