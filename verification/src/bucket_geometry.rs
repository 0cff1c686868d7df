//! The geometry behind distance buckets, in exact arithmetic: which boxes a union
//! holds, how near and how far it reaches, and which bucket a mesh lands in.
//!
//! Boxes hold the bits of coordinates, and computing on those is not the library's
//! business. Here the bits stand for exact numbers, and what is computed of them is
//! the exact result.

use vstd::prelude::*;

use crate::arena;
use crate::arena::{ArenaBox, ArenaDirectory, MeshAabb};
use crate::cull_math;

verus! {

/// What coordinate bits stand for: a whole number of units, `block` of which make a
/// block.
pub struct Scale {
    pub value: spec_fn(u32) -> int,
    pub block: int,
}

/// The camera: its block, and its place inside it in units.
pub struct Eye {
    pub block: Seq<int>,
    pub frac: Seq<int>,
}

/// The low corner of a mesh's box on axis `i`, in units from the origin of `block`.
pub open spec fn mesh_low(u: Scale, m: MeshAabb, block: int, i: int) -> int {
    (u.value)(m.min[i]) + (m.block[i] - block) * u.block
}

pub open spec fn mesh_high(u: Scale, m: MeshAabb, block: int, i: int) -> int {
    (u.value)(m.max[i]) + (m.block[i] - block) * u.block
}

/// The box of `m` lies in `b`.
pub open spec fn box_holds(u: Scale, m: MeshAabb, b: ArenaBox) -> bool {
    forall|i: int|
        0 <= i < 3 ==> (u.value)(#[trigger] b.min[i]) <= mesh_low(u, m, b.origin[i] as int, i)
            && mesh_high(u, m, b.origin[i] as int, i) <= (u.value)(b.max[i])
}

/// [`box_holds`] at a scale.
pub open spec fn holds_at(u: Scale) -> spec_fn(MeshAabb, ArenaBox) -> bool {
    |m: MeshAabb, b: ArenaBox| box_holds(u, m, b)
}

/// `r` is the smallest box around `b` and the box of `m`, with the origin of `b`.
pub open spec fn is_union(u: Scale, b: ArenaBox, m: MeshAabb, r: ArenaBox) -> bool {
    &&& r.origin == b.origin
    &&& forall|i: int|
        0 <= i < 3 ==> {
            let low = mesh_low(u, m, b.origin[i] as int, i);
            let high = mesh_high(u, m, b.origin[i] as int, i);
            let (old_low, old_high) = ((u.value)(b.min[i]), (u.value)(b.max[i]));
            &&& (u.value)(#[trigger] r.min[i]) == if low < old_low {
                low
            } else {
                old_low
            }
            &&& (u.value)(r.max[i]) == if high > old_high {
                high
            } else {
                old_high
            }
        }
}

/// `expand` computes unions exactly.
pub open spec fn expands_exactly<F: Fn(ArenaBox, MeshAabb) -> ArenaBox>(
    expand: F,
    u: Scale,
) -> bool {
    forall|b: ArenaBox, m: MeshAabb, r: ArenaBox| #[trigger]
        call_ensures(expand, (b, m), r) ==> is_union(u, b, m, r)
}

/// Unions that are computed exactly hold every box that went into them.
pub proof fn law_exact_unions_hold_their_boxes<F: Fn(ArenaBox, MeshAabb) -> ArenaBox>(
    expand: F,
    u: Scale,
)
    requires
        expands_exactly(expand, u),
    ensures
        arena::keeps_inside(expand, holds_at(u)),
{
    let inside = holds_at(u);
    assert forall|m: MeshAabb| inside(m, #[trigger] arena::box_of(m)) by {
        assert forall|i: int| 0 <= i < 3 implies (u.value)(#[trigger] arena::box_of(m).min[i])
            <= mesh_low(u, m, arena::box_of(m).origin[i] as int, i) && mesh_high(
            u,
            m,
            arena::box_of(m).origin[i] as int,
            i,
        ) <= (u.value)(arena::box_of(m).max[i]) by {
            assert((m.block[i] - m.block[i]) * u.block == 0) by (nonlinear_arith);
        }
    }
    assert forall|b: ArenaBox, m: MeshAabb, r: ArenaBox| #[trigger]
        call_ensures(expand, (b, m), r) implies inside(m, r) && forall|k: MeshAabb| #[trigger]
        inside(k, b) ==> inside(k, r) by {
        assert(is_union(u, b, m, r));
        assert forall|k: MeshAabb| #[trigger] inside(k, b) implies inside(k, r) by {
            assert forall|i: int| 0 <= i < 3 implies (u.value)(#[trigger] r.min[i]) <= mesh_low(
                u,
                k,
                r.origin[i] as int,
                i,
            ) && mesh_high(u, k, r.origin[i] as int, i) <= (u.value)(r.max[i]) by {
                assert((u.value)(b.min[i]) <= mesh_low(u, k, b.origin[i] as int, i));
            }
        }
    }
}

/// The corners of a box on axis `i`, in units from the camera.
pub open spec fn seen_low(u: Scale, eye: Eye, b: ArenaBox, i: int) -> int {
    (u.value)(b.min[i]) + (b.origin[i] - eye.block[i]) * u.block - eye.frac[i]
}

pub open spec fn seen_high(u: Scale, eye: Eye, b: ArenaBox, i: int) -> int {
    (u.value)(b.max[i]) + (b.origin[i] - eye.block[i]) * u.block - eye.frac[i]
}

/// The point between `low` and `high` that is nearest to zero.
pub open spec fn nearest(low: int, high: int) -> int {
    if low > 0 {
        low
    } else if high < 0 {
        high
    } else {
        0
    }
}

/// The one of `low` and `high` that is farther from zero.
pub open spec fn farthest(low: int, high: int) -> int {
    if (if low < 0 {
        -low
    } else {
        low
    }) > (if high < 0 {
        -high
    } else {
        high
    }) {
        low
    } else {
        high
    }
}

pub open spec fn squared(x: int, y: int, z: int) -> int {
    x * x + y * y + z * z
}

/// The squared distance from the camera to the nearest point of the box.
pub open spec fn near_squared(u: Scale, eye: Eye, b: ArenaBox) -> int {
    squared(
        nearest(seen_low(u, eye, b, 0), seen_high(u, eye, b, 0)),
        nearest(seen_low(u, eye, b, 1), seen_high(u, eye, b, 1)),
        nearest(seen_low(u, eye, b, 2), seen_high(u, eye, b, 2)),
    )
}

/// The squared distance from the camera to the farthest point of the box.
pub open spec fn far_squared(u: Scale, eye: Eye, b: ArenaBox) -> int {
    squared(
        farthest(seen_low(u, eye, b, 0), seen_high(u, eye, b, 0)),
        farthest(seen_low(u, eye, b, 1), seen_high(u, eye, b, 1)),
        farthest(seen_low(u, eye, b, 2), seen_high(u, eye, b, 2)),
    )
}

/// Some distance between the nearest and the farthest point of the box belongs to
/// `bucket`: at least the split below the bucket, and below the split above it. The
/// last bucket has no end.
pub open spec fn meets_bucket(
    u: Scale,
    eye: Eye,
    splits: Seq<int>,
    b: ArenaBox,
    bucket: int,
) -> bool {
    &&& bucket > 0 ==> far_squared(u, eye, b) >= splits[bucket - 1] * splits[bucket - 1]
    &&& bucket < 3 ==> near_squared(u, eye, b) < splits[bucket] * splits[bucket]
}

/// Twice the centre of a mesh's box on axis `i`, in units from the camera.
pub open spec fn centre_twice(u: Scale, eye: Eye, m: MeshAabb, i: int) -> int {
    mesh_low(u, m, eye.block[i], i) + mesh_high(u, m, eye.block[i], i) - 2 * eye.frac[i]
}

/// Four times the squared distance from the camera to the centre of the box.
pub open spec fn centre_squared(u: Scale, eye: Eye, m: MeshAabb) -> int {
    squared(
        centre_twice(u, eye, m, 0),
        centre_twice(u, eye, m, 1),
        centre_twice(u, eye, m, 2),
    )
}

/// The centre of the box is at least the distance `split` away.
pub open spec fn past_split(u: Scale, eye: Eye, m: MeshAabb, split: int) -> bool {
    centre_squared(u, eye, m) >= 4 * (split * split)
}

/// The distance bucket of a mesh: how many splits its centre is past.
pub open spec fn distance_bucket(u: Scale, eye: Eye, splits: Seq<int>, m: MeshAabb) -> int {
    (if past_split(u, eye, m, splits[0]) {
        1int
    } else {
        0
    }) + (if past_split(u, eye, m, splits[1]) {
        1int
    } else {
        0
    }) + (if past_split(u, eye, m, splits[2]) {
        1int
    } else {
        0
    })
}

/// No corner of the box is on the wrong side.
pub open spec fn ordered(u: Scale, m: MeshAabb) -> bool {
    forall|i: int| 0 <= i < 3 ==> (u.value)(#[trigger] m.min[i]) <= (u.value)(m.max[i])
}

/// Three distances, none negative and none below the one before.
pub open spec fn ascending(splits: Seq<int>) -> bool {
    splits.len() == 3 && 0 <= splits[0] <= splits[1] <= splits[2]
}

/// [`distance_bucket`] of the meshes whose boxes are in order.
pub open spec fn lands_at(u: Scale, eye: Eye, splits: Seq<int>) -> spec_fn(MeshAabb, int) -> bool {
    |m: MeshAabb, bucket: int| ordered(u, m) && distance_bucket(u, eye, splits, m) == bucket
}

/// `reach` answers exactly.
pub open spec fn reaches_exactly<R: Fn(ArenaBox, usize) -> bool>(
    reach: R,
    u: Scale,
    eye: Eye,
    splits: Seq<int>,
) -> bool {
    forall|b: ArenaBox, k: usize, r: bool| #[trigger]
        call_ensures(reach, (b, k), r) && k < 4 ==> r == meets_bucket(u, eye, splits, b, k as int)
}

/// Twice a point of a range is between twice its nearest and twice its farthest.
proof fn lemma_between(low: int, high: int, twice: int)
    requires
        2 * low <= twice <= 2 * high,
    ensures
        4 * (nearest(low, high) * nearest(low, high)) <= twice * twice,
        twice * twice <= 4 * (farthest(low, high) * farthest(low, high)),
{
    let n = nearest(low, high);
    let f = farthest(low, high);
    assert(4 * (n * n) == (2 * n) * (2 * n)) by (nonlinear_arith);
    assert(4 * (f * f) == (2 * f) * (2 * f)) by (nonlinear_arith);
    lemma_squares(2 * n, twice);
    lemma_squares(twice, 2 * f);
}

/// Squares are ordered as magnitudes are.
proof fn lemma_squares(a: int, b: int)
    requires
        (a <= b || a <= -b) && (-a <= b || -a <= -b),
    ensures
        a * a <= b * b,
{
    let (p, q) = (if a < 0 {
        -a
    } else {
        a
    }, if b < 0 {
        -b
    } else {
        b
    });
    assert(a * a == p * p) by (nonlinear_arith)
        requires
            p == a || p == -a,
    ;
    assert(b * b == q * q) by (nonlinear_arith)
        requires
            q == b || q == -b,
    ;
    assert(p * p <= q * q) by (nonlinear_arith)
        requires
            0 <= p <= q,
    ;
}

/// The centre of a box that a union holds is no nearer and no farther than the
/// union.
proof fn lemma_centre_in_range(u: Scale, eye: Eye, m: MeshAabb, b: ArenaBox)
    requires
        box_holds(u, m, b),
        ordered(u, m),
    ensures
        4 * near_squared(u, eye, b) <= centre_squared(u, eye, m),
        centre_squared(u, eye, m) <= 4 * far_squared(u, eye, b),
{
    assert forall|i: int| 0 <= i < 3 implies 2 * #[trigger] seen_low(u, eye, b, i) <= centre_twice(
        u,
        eye,
        m,
        i,
    ) && centre_twice(u, eye, m, i) <= 2 * seen_high(u, eye, b, i) by {
        assert((u.value)(b.min[i]) <= mesh_low(u, m, b.origin[i] as int, i));
        assert((u.value)(m.min[i]) <= (u.value)(m.max[i]));
        let (x, o, e) = (m.block[i] as int, b.origin[i] as int, eye.block[i]);
        assert((x - e) * u.block == (x - o) * u.block + (o - e) * u.block) by (nonlinear_arith);
    }
    assert(2 * seen_low(u, eye, b, 0) <= centre_twice(u, eye, m, 0));
    assert(2 * seen_low(u, eye, b, 1) <= centre_twice(u, eye, m, 1));
    assert(2 * seen_low(u, eye, b, 2) <= centre_twice(u, eye, m, 2));
    lemma_between(seen_low(u, eye, b, 0), seen_high(u, eye, b, 0), centre_twice(u, eye, m, 0));
    lemma_between(seen_low(u, eye, b, 1), seen_high(u, eye, b, 1), centre_twice(u, eye, m, 1));
    lemma_between(seen_low(u, eye, b, 2), seen_high(u, eye, b, 2), centre_twice(u, eye, m, 2));
}

/// A union that is asked exactly reaches the bucket of every mesh that it holds.
pub proof fn law_exact_reach_finds_every_mesh<R: Fn(ArenaBox, usize) -> bool>(
    reach: R,
    u: Scale,
    eye: Eye,
    splits: Seq<int>,
)
    requires
        ascending(splits),
        reaches_exactly(reach, u, eye, splits),
    ensures
        arena::reach_is_safe(reach, holds_at(u), lands_at(u, eye, splits)),
{
    let inside = holds_at(u);
    let lands = lands_at(u, eye, splits);
    assert forall|b: ArenaBox, k: usize, r: bool, m: MeshAabb| #[trigger]
        call_ensures(reach, (b, k), r) && #[trigger] inside(m, b) && lands(m, k as int) implies r by {
        lemma_centre_in_range(u, eye, m, b);
        lemma_squares(splits[0], splits[1]);
        lemma_squares(splits[1], splits[2]);
        assert(meets_bucket(u, eye, splits, b, k as int));
    }
}

/// The table keeps the bucket of every live mesh: that of the distance between the
/// camera and the centre of its box.
pub open spec fn keeps_every_mesh(
    d: &ArenaDirectory,
    table: Seq<bool>,
    u: Scale,
    eye: Eye,
    splits: Seq<int>,
) -> bool {
    forall|s: u32| #[trigger]
        arena::is_laned(d.slots@, s as int) && ordered(u, d.aabbs[s as int]) ==> arena::keeps(
            Some(table),
            d.slots@[s as int]->Some_0.arena as int,
            distance_bucket(u, eye, splits, d.aabbs[s as int]),
        )
}

pub proof fn lemma_every_mesh_is_kept<R: Fn(ArenaBox, usize) -> bool>(
    d: ArenaDirectory,
    reach: R,
    table: Seq<bool>,
    u: Scale,
    eye: Eye,
    splits: Seq<int>,
)
    requires
        d.wf(),
        arena::covers(&d, holds_at(u)),
        forall|a: int|
            0 <= a < d.buffers.len() && arena::row_is_live(d.live@, a) ==> !(
            #[trigger] d.unions[a]).dirty,
        arena::answers(reach, &d, table),
        reaches_exactly(reach, u, eye, splits),
        ascending(splits),
    ensures
        keeps_every_mesh(&d, table, u, eye, splits),
{
    law_exact_reach_finds_every_mesh(reach, u, eye, splits);
    assert forall|s: u32| #[trigger]
        arena::is_laned(d.slots@, s as int) && ordered(u, d.aabbs[s as int]) implies arena::keeps(
        Some(table),
        d.slots@[s as int]->Some_0.arena as int,
        distance_bucket(u, eye, splits, d.aabbs[s as int]),
    ) by {
        arena::lemma_live_mesh_keeps_its_bucket(
            d,
            reach,
            table,
            holds_at(u),
            lands_at(u, eye, splits),
            s,
            distance_bucket(u, eye, splits, d.aabbs[s as int]),
        );
    }
}

/// A distance bucket loses its capacity only when no live mesh can land in it. With a
/// table that [`ArenaDirectory::reachable_buckets`] made in exact arithmetic, whatever
/// uploads, moves and frees came before, the partition of a live mesh's group and
/// arena, in the bucket of the distance between the camera and the centre of its box,
/// has room for every record of that group and arena.
pub proof fn law_the_bucket_of_a_live_mesh_keeps_its_capacity(
    d: ArenaDirectory,
    table: Seq<bool>,
    u: Scale,
    eye: Eye,
    splits: Seq<int>,
    s: u32,
    runs: u32,
)
    requires
        d.wf(),
        keeps_every_mesh(&d, table, u, eye, splits),
        arena::is_laned(d.slots@, s as int),
        ordered(u, d.aabbs[s as int]),
    ensures
        ({
            let p = d.slots@[s as int]->Some_0;
            arena::capacity_of(
                d.live@,
                runs,
                Some(table),
                cull_math::camera_part_spec(
                    p.lane->Some_0 as int,
                    p.arena as int,
                    distance_bucket(u, eye, splits, d.aabbs[s as int]),
                    d.buffers.len() as int,
                ),
            ) == arena::lane_count(d.slots@, p.arena as int, p.lane) * runs
        }),
{
    arena::lemma_kept_bucket_has_room(
        d,
        table,
        s,
        distance_bucket(u, eye, splits, d.aabbs[s as int]),
        runs,
    );
}

/// A mesh is past a split when its centre is that far away: along one axis, just when it is
/// so far on that axis; and what is past a split is past every nearer one.
pub proof fn law_a_split_is_a_distance(u: Scale, eye: Eye, m: MeshAabb, split: int, nearer: int)
    requires
        0 <= nearer <= split,
    ensures
        past_split(u, eye, m, split) ==> past_split(u, eye, m, nearer),
        centre_twice(u, eye, m, 1) == 0 && centre_twice(u, eye, m, 2) == 0 ==> (past_split(
            u,
            eye,
            m,
            split,
        ) <==> centre_twice(u, eye, m, 0) >= 2 * split || -centre_twice(u, eye, m, 0) >= 2 * split),
{
    let c = centre_twice(u, eye, m, 0);
    assert(nearer * nearer <= split * split) by (nonlinear_arith)
        requires
            0 <= nearer <= split,
    ;
    assert(c * c >= 4 * (split * split) <==> (c >= 2 * split || -c >= 2 * split)) by (
        nonlinear_arith)
        requires
            0 <= split,
    ;
    assert(0 * 0 == 0);
}

} // verus!
