//! What a device does with recorded commands.
//!
//! A plan is only worth what happens when it is played. This is the device as far as
//! plans can tell: the bytes of its buffers and of the levels of its images, what is
//! staged and bound, and the dispatches and stamps so far. Barriers order the work and
//! change none of it.

use vstd::prelude::*;

use crate::bytes;
use crate::commands;
use crate::commands::{
    Access, Binding, BufferImageRegion, BufferRegion, Cmd, ImageBarrier, ImageRegion, WHOLE_SIZE,
};

verus! {

/// The bytes of every buffer, by buffer and offset.
pub type Memory = spec_fn(u64, int) -> u8;

/// The bytes of every image, by image, layer, mip level and place in the level.
pub type Texels = spec_fn(u64, int, int, int) -> u8;

/// One dispatch, with everything that its shader sees.
pub struct Dispatched {
    pub memory: Memory,
    pub pipeline: u64,
    pub bindings: Map<u32, Binding>,
    pub push_words: Seq<u32>,
    pub push_bytes: Seq<u8>,
    pub x: u32,
    pub y: u32,
    pub z: u32,
}

/// One stamp, how many dispatches came before it, and whether its query was reset for it.
pub struct StampAt {
    pub pool: u64,
    pub query: u32,
    pub dispatches: int,
    pub clean: bool,
}

pub struct Gpu {
    pub memory: Memory,
    pub texels: Texels,
    /// What a dispatch makes of the memory.
    pub shader: spec_fn(Dispatched) -> Memory,
    pub regions: Seq<BufferRegion>,
    pub uploads: Seq<BufferImageRegion>,
    pub moves: Seq<ImageRegion>,
    pub staged_bindings: Map<u32, Binding>,
    pub bindings: Map<u32, Binding>,
    pub staged_words: Seq<u32>,
    pub staged_bytes: Seq<u8>,
    pub push_words: Seq<u32>,
    pub push_bytes: Seq<u8>,
    pub pipeline: u64,
    pub dispatches: Seq<Dispatched>,
    pub stamps: Seq<StampAt>,
    /// Queries that have been reset and not written since.
    pub clean: Set<(u64, int)>,
}

impl Gpu {
    /// Nothing is staged.
    pub open spec fn fresh(self) -> bool {
        &&& self.regions.len() == 0
        &&& self.uploads.len() == 0
        &&& self.moves.len() == 0
        &&& self.staged_bindings.dom().is_empty()
        &&& self.staged_words.len() == 0
        &&& self.staged_bytes.len() == 0
    }
}

/// `m` with the regions copied from buffer `src` to buffer `dst`. What is read is what
/// was there before.
pub open spec fn copied(m: Memory, src: u64, dst: u64, regions: Seq<BufferRegion>) -> Memory
    decreases regions.len(),
{
    if regions.len() == 0 {
        m
    } else {
        let rest = copied(m, src, dst, regions.drop_last());
        let r = regions.last();
        |b: u64, p: int|
            if b == dst && r.dst_offset <= p < r.dst_offset + r.size {
                m(src, r.src_offset + (p - r.dst_offset))
            } else {
                rest(b, p)
            }
    }
}

/// `t` with the regions of RGBA8 texels copied into `image`: each layer's level, row by
/// row, out of `from`.
pub open spec fn filled(
    t: Texels,
    from: spec_fn(int) -> u8,
    image: u64,
    regions: Seq<BufferImageRegion>,
) -> Texels
    decreases regions.len(),
{
    if regions.len() == 0 {
        t
    } else {
        let rest = filled(t, from, image, regions.drop_last());
        let r = regions.last();
        let level = 4 * (r.width * r.height);
        |i: u64, layer: int, mip: int, p: int|
            if i == image && mip == r.mip && r.base_layer <= layer < r.base_layer + r.layers && 0
                <= p < level {
                from(r.buffer_offset + (layer - r.base_layer) * level + p)
            } else {
                rest(i, layer, mip, p)
            }
    }
}

/// `t` with leading layers of RGBA8 levels copied from image `src` to image `dst`.
pub open spec fn moved(t: Texels, src: u64, dst: u64, regions: Seq<ImageRegion>) -> Texels
    decreases regions.len(),
{
    if regions.len() == 0 {
        t
    } else {
        let rest = moved(t, src, dst, regions.drop_last());
        let r = regions.last();
        |i: u64, layer: int, mip: int, p: int|
            if i == dst && mip == r.mip && 0 <= layer < r.layers && 0 <= p < 4 * (r.width
                * r.height) {
                t(src, layer, mip, p)
            } else {
                rest(i, layer, mip, p)
            }
    }
}

/// `clean` with `count` queries of `pool` from `first`.
pub open spec fn with_queries(
    clean: Set<(u64, int)>,
    pool: u64,
    first: u32,
    count: u32,
) -> Set<(u64, int)> {
    clean.union(Set::new(|q: (u64, int)| q.0 == pool && first <= q.1 < first + count))
}

/// What `g` is after one command of a plan whose own staging buffer holds `staging`.
pub open spec fn step(g: Gpu, c: Cmd, staging: Seq<u8>) -> Gpu {
    match c {
        Cmd::BufferRegion(r) => Gpu { regions: g.regions.push(r), ..g },
        Cmd::CopyBuffer { src, dst } => Gpu {
            memory: copied(g.memory, src, dst, g.regions),
            regions: Seq::empty(),
            ..g
        },
        Cmd::CopyStaging { dst } => {
            let own = |b: u64, p: int| staging[p];
            let all = copied_from(own, g.memory, dst, g.regions);
            Gpu { memory: all, regions: Seq::empty(), ..g }
        },
        Cmd::FillBuffer { buffer, offset, size, word } => Gpu {
            memory: |b: u64, p: int|
                if b == buffer && offset <= p && (size == WHOLE_SIZE || p < offset + size) {
                    bytes::byte_of(word, (p - offset) % 4)
                } else {
                    (g.memory)(b, p)
                },
            ..g
        },
        Cmd::BufferImageRegion(r) => Gpu { uploads: g.uploads.push(r), ..g },
        Cmd::CopyBufferToImage { buffer, image, .. } => Gpu {
            texels: filled(g.texels, |p: int| (g.memory)(buffer, p), image, g.uploads),
            uploads: Seq::empty(),
            ..g
        },
        Cmd::CopyStagingToImage { image, .. } => Gpu {
            texels: filled(g.texels, |p: int| staging[p], image, g.uploads),
            uploads: Seq::empty(),
            ..g
        },
        Cmd::ImageRegion(r) => Gpu { moves: g.moves.push(r), ..g },
        Cmd::CopyImage { src, dst, .. } => Gpu {
            texels: moved(g.texels, src, dst, g.moves),
            moves: Seq::empty(),
            ..g
        },
        Cmd::BindPipeline { pipeline } => Gpu { pipeline, ..g },
        Cmd::Bind { binding, what } => Gpu {
            staged_bindings: g.staged_bindings.insert(binding, what),
            ..g
        },
        Cmd::PushSet { .. } => Gpu {
            bindings: g.bindings.union_prefer_right(g.staged_bindings),
            staged_bindings: Map::empty(),
            ..g
        },
        Cmd::PushWord(w) => Gpu { staged_words: g.staged_words.push(w), ..g },
        Cmd::PushByte(b) => Gpu { staged_bytes: g.staged_bytes.push(b), ..g },
        Cmd::PushConstants { .. } => Gpu {
            push_words: g.staged_words,
            push_bytes: g.staged_bytes,
            staged_words: Seq::empty(),
            staged_bytes: Seq::empty(),
            ..g
        },
        Cmd::Dispatch { x, y, z } => {
            let d = Dispatched {
                memory: g.memory,
                pipeline: g.pipeline,
                bindings: g.bindings,
                push_words: g.push_words,
                push_bytes: g.push_bytes,
                x,
                y,
                z,
            };
            Gpu { memory: (g.shader)(d), dispatches: g.dispatches.push(d), ..g }
        },
        Cmd::ResetQueries { pool, first, count } => Gpu {
            clean: with_queries(g.clean, pool, first, count),
            ..g
        },
        Cmd::HostResetQueries { pool, first, count } => Gpu {
            clean: with_queries(g.clean, pool, first, count),
            ..g
        },
        Cmd::WriteTimestamp { pool, query, .. } => Gpu {
            stamps: g.stamps.push(
                StampAt {
                    pool,
                    query,
                    dispatches: g.dispatches.len() as int,
                    clean: g.clean.contains((pool, query as int)),
                },
            ),
            clean: g.clean.remove((pool, query as int)),
            ..g
        },
        _ => g,
    }
}

/// `m` with the regions copied out of `from` to buffer `dst`.
pub open spec fn copied_from(from: Memory, m: Memory, dst: u64, regions: Seq<BufferRegion>) -> Memory
    decreases regions.len(),
{
    if regions.len() == 0 {
        m
    } else {
        let rest = copied_from(from, m, dst, regions.drop_last());
        let r = regions.last();
        |b: u64, p: int|
            if b == dst && r.dst_offset <= p < r.dst_offset + r.size {
                from(dst, r.src_offset + (p - r.dst_offset))
            } else {
                rest(b, p)
            }
    }
}

/// What `g` is after the first `n` commands of a plan.
pub open spec fn upto(g: Gpu, cmds: Seq<Cmd>, staging: Seq<u8>, n: int) -> Gpu
    decreases n,
{
    if n <= 0 {
        g
    } else {
        step(upto(g, cmds, staging, n - 1), cmds[n - 1], staging)
    }
}

/// What `g` is after a whole plan.
pub open spec fn play(g: Gpu, cmds: Seq<Cmd>, staging: Seq<u8>) -> Gpu {
    upto(g, cmds, staging, cmds.len() as int)
}

proof fn lemma_upto_prefix(g: Gpu, a: Seq<Cmd>, b: Seq<Cmd>, staging: Seq<u8>, n: int)
    requires
        n <= a.len(),
        n <= b.len(),
        forall|i: int| 0 <= i < n ==> #[trigger] a[i] == b[i],
    ensures
        upto(g, a, staging, n) == upto(g, b, staging, n),
    decreases n,
{
    if n > 0 {
        lemma_upto_prefix(g, a, b, staging, n - 1);
        assert(a[n - 1] == b[n - 1]);
    }
}

proof fn lemma_play_last(g: Gpu, cmds: Seq<Cmd>, staging: Seq<u8>)
    requires
        cmds.len() > 0,
    ensures
        play(g, cmds, staging) == step(
            play(g, cmds.drop_last(), staging),
            cmds.last(),
            staging,
        ),
{
    lemma_upto_prefix(g, cmds, cmds.drop_last(), staging, cmds.len() - 1);
}

/// A plan behind another is played behind it.
pub proof fn lemma_play_concat(g: Gpu, a: Seq<Cmd>, b: Seq<Cmd>, staging: Seq<u8>)
    ensures
        play(g, a + b, staging) == play(play(g, a, staging), b, staging),
    decreases b.len(),
{
    if b.len() == 0 {
        assert(a + b =~= a);
    } else {
        lemma_play_concat(g, a, b.drop_last(), staging);
        assert((a + b).drop_last() =~= a + b.drop_last());
        assert((a + b).last() == b.last());
        lemma_play_last(g, a + b, staging);
        lemma_play_last(play(g, a, staging), b, staging);
    }
}

pub proof fn lemma_play_push(g: Gpu, a: Seq<Cmd>, c: Cmd, staging: Seq<u8>)
    ensures
        play(g, a.push(c), staging) == step(play(g, a, staging), c, staging),
{
    lemma_play_last(g, a.push(c), staging);
    assert(a.push(c).drop_last() =~= a);
}

pub proof fn lemma_play_nothing(g: Gpu, staging: Seq<u8>)
    ensures
        play(g, Seq::empty(), staging) == g,
{
}

/// Commands that a plan may hold without any effect here.
pub open spec fn only_orders(c: Cmd) -> bool {
    c is ImageBarrier || c is BufferBarrier || c is MemoryBarrier || c is Barriers
}

pub proof fn lemma_play_orders(g: Gpu, cmds: Seq<Cmd>, staging: Seq<u8>)
    requires
        forall|i: int| 0 <= i < cmds.len() ==> only_orders(#[trigger] cmds[i]),
    ensures
        play(g, cmds, staging) == g,
    decreases cmds.len(),
{
    if cmds.len() > 0 {
        let init = cmds.drop_last();
        assert forall|i: int| 0 <= i < init.len() implies only_orders(#[trigger] init[i]) by {
            assert(init[i] == cmds[i]);
        }
        lemma_play_orders(g, init, staging);
        lemma_play_last(g, cmds, staging);
        assert(only_orders(cmds[cmds.len() - 1]));
    }
}

/// A memory barrier changes nothing.
pub proof fn lemma_play_memory_barrier(g: Gpu, src: Access, dst: Access, staging: Seq<u8>)
    ensures
        play(g, commands::memory_barrier(src, dst), staging) == g,
{
    lemma_play_orders(g, commands::memory_barrier(src, dst), staging);
}

pub proof fn lemma_play_one(g: Gpu, c: Cmd, staging: Seq<u8>)
    ensures
        play(g, seq![c], staging) == step(g, c, staging),
{
    reveal_with_fuel(upto, 2);
}

pub proof fn lemma_play_two(g: Gpu, c: Cmd, d: Cmd, staging: Seq<u8>)
    ensures
        play(g, seq![c, d], staging) == step(step(g, c, staging), d, staging),
{
    reveal_with_fuel(upto, 3);
}

pub proof fn lemma_play_three(g: Gpu, c: Cmd, d: Cmd, e: Cmd, staging: Seq<u8>)
    ensures
        play(g, seq![c, d, e], staging) == step(
            step(step(g, c, staging), d, staging),
            e,
            staging,
        ),
{
    reveal_with_fuel(upto, 4);
}

/// One region is copied whole, and nothing else is touched.
pub proof fn lemma_copied_one(m: Memory, src: u64, dst: u64, r: BufferRegion, b: u64, p: int)
    ensures
        copied(m, src, dst, seq![r])(b, p) == if b == dst && region_writes(r, p) {
            m(src, r.src_offset + (p - r.dst_offset))
        } else {
            m(b, p)
        },
{
    assert(seq![r].drop_last() =~= Seq::empty());
    reveal_with_fuel(copied, 2);
}

/// Staging regions stages them.
pub proof fn lemma_play_regions(g: Gpu, rs: Seq<BufferRegion>, staging: Seq<u8>)
    ensures
        play(g, Seq::new(rs.len(), |i: int| Cmd::BufferRegion(rs[i])), staging) == (Gpu {
            regions: g.regions + rs,
            ..g
        }),
    decreases rs.len(),
{
    let all = Seq::new(rs.len(), |i: int| Cmd::BufferRegion(rs[i]));
    if rs.len() == 0 {
        assert(g.regions + rs =~= g.regions);
        assert(all =~= Seq::empty());
    } else {
        let less = rs.drop_last();
        lemma_play_regions(g, less, staging);
        lemma_play_last(g, all, staging);
        assert(all.drop_last() =~= Seq::new(less.len(), |i: int| Cmd::BufferRegion(less[i])));
        assert((g.regions + less).push(rs.last()) =~= g.regions + rs);
    }
}

pub proof fn lemma_play_uploads(g: Gpu, rs: Seq<BufferImageRegion>, staging: Seq<u8>)
    ensures
        play(g, Seq::new(rs.len(), |i: int| Cmd::BufferImageRegion(rs[i])), staging) == (Gpu {
            uploads: g.uploads + rs,
            ..g
        }),
    decreases rs.len(),
{
    let all = Seq::new(rs.len(), |i: int| Cmd::BufferImageRegion(rs[i]));
    if rs.len() == 0 {
        assert(g.uploads + rs =~= g.uploads);
        assert(all =~= Seq::empty());
    } else {
        let less = rs.drop_last();
        lemma_play_uploads(g, less, staging);
        lemma_play_last(g, all, staging);
        assert(all.drop_last() =~= Seq::new(less.len(), |i: int| Cmd::BufferImageRegion(less[i])));
        assert((g.uploads + less).push(rs.last()) =~= g.uploads + rs);
    }
}

pub proof fn lemma_play_moves(g: Gpu, rs: Seq<ImageRegion>, staging: Seq<u8>)
    ensures
        play(g, Seq::new(rs.len(), |i: int| Cmd::ImageRegion(rs[i])), staging) == (Gpu {
            moves: g.moves + rs,
            ..g
        }),
    decreases rs.len(),
{
    let all = Seq::new(rs.len(), |i: int| Cmd::ImageRegion(rs[i]));
    if rs.len() == 0 {
        assert(g.moves + rs =~= g.moves);
        assert(all =~= Seq::empty());
    } else {
        let less = rs.drop_last();
        lemma_play_moves(g, less, staging);
        lemma_play_last(g, all, staging);
        assert(all.drop_last() =~= Seq::new(less.len(), |i: int| Cmd::ImageRegion(less[i])));
        assert((g.moves + less).push(rs.last()) =~= g.moves + rs);
    }
}

pub proof fn lemma_play_push_bytes(g: Gpu, bs: Seq<u8>, staging: Seq<u8>)
    ensures
        play(g, Seq::new(bs.len(), |i: int| Cmd::PushByte(bs[i])), staging) == (Gpu {
            staged_bytes: g.staged_bytes + bs,
            ..g
        }),
    decreases bs.len(),
{
    let all = Seq::new(bs.len(), |i: int| Cmd::PushByte(bs[i]));
    if bs.len() == 0 {
        assert(g.staged_bytes + bs =~= g.staged_bytes);
        assert(all =~= Seq::empty());
    } else {
        let less = bs.drop_last();
        lemma_play_push_bytes(g, less, staging);
        lemma_play_last(g, all, staging);
        assert(all.drop_last() =~= Seq::new(less.len(), |i: int| Cmd::PushByte(less[i])));
        assert((g.staged_bytes + less).push(bs.last()) =~= g.staged_bytes + bs);
    }
}

pub proof fn lemma_play_push_words(g: Gpu, ws: Seq<u32>, staging: Seq<u8>)
    ensures
        play(g, Seq::new(ws.len(), |i: int| Cmd::PushWord(ws[i])), staging) == (Gpu {
            staged_words: g.staged_words + ws,
            ..g
        }),
    decreases ws.len(),
{
    let all = Seq::new(ws.len(), |i: int| Cmd::PushWord(ws[i]));
    if ws.len() == 0 {
        assert(g.staged_words + ws =~= g.staged_words);
        assert(all =~= Seq::empty());
    } else {
        let less = ws.drop_last();
        lemma_play_push_words(g, less, staging);
        lemma_play_last(g, all, staging);
        assert(all.drop_last() =~= Seq::new(less.len(), |i: int| Cmd::PushWord(less[i])));
        assert((g.staged_words + less).push(ws.last()) =~= g.staged_words + ws);
    }
}

/// Region `r` writes byte `p`.
pub open spec fn region_writes(r: BufferRegion, p: int) -> bool {
    r.dst_offset <= p < r.dst_offset + r.size
}

/// A byte after a copy is what some region brought there, or what it was.
pub proof fn lemma_copied(m: Memory, src: u64, dst: u64, regions: Seq<BufferRegion>, b: u64, p: int)
    ensures
        b != dst ==> copied(m, src, dst, regions)(b, p) == m(b, p),
        (forall|j: int| 0 <= j < regions.len() ==> !region_writes(#[trigger] regions[j], p))
            ==> copied(m, src, dst, regions)(b, p) == m(b, p),
        b == dst && (exists|j: int|
            0 <= j < regions.len() && region_writes(#[trigger] regions[j], p)) ==> exists|j: int|
            0 <= j < regions.len() && region_writes(#[trigger] regions[j], p) && copied(
                m,
                src,
                dst,
                regions,
            )(b, p) == m(src, regions[j].src_offset + (p - regions[j].dst_offset)),
    decreases regions.len(),
{
    if regions.len() > 0 {
        let less = regions.drop_last();
        let n = regions.len() - 1;
        lemma_copied(m, src, dst, less, b, p);
        if forall|j: int| 0 <= j < regions.len() ==> !region_writes(#[trigger] regions[j], p) {
            assert(!region_writes(regions[n], p));
            assert forall|j: int| 0 <= j < less.len() implies !region_writes(
                #[trigger] less[j],
                p,
            ) by {
                assert(!region_writes(regions[j], p));
            }
        }
        if b == dst && (exists|j: int|
            0 <= j < regions.len() && region_writes(#[trigger] regions[j], p)) {
            if region_writes(regions[n], p) {
                assert(copied(m, src, dst, regions)(b, p) == m(
                    src,
                    regions[n].src_offset + (p - regions[n].dst_offset),
                ));
            } else {
                let j = choose|j: int|
                    0 <= j < regions.len() && region_writes(#[trigger] regions[j], p);
                assert(region_writes(less[j], p));
                let k = choose|k: int|
                    0 <= k < less.len() && region_writes(#[trigger] less[k], p) && copied(
                        m,
                        src,
                        dst,
                        less,
                    )(b, p) == m(src, less[k].src_offset + (p - less[k].dst_offset));
                assert(region_writes(regions[k], p));
            }
        }
    }
}

/// Region `r` writes byte `p` of level `mip` of layer `layer`.
pub open spec fn upload_writes(r: BufferImageRegion, layer: int, mip: int, p: int) -> bool {
    &&& mip == r.mip
    &&& r.base_layer <= layer < r.base_layer + r.layers
    &&& 0 <= p < 4 * (r.width * r.height)
}

/// A byte of an image after an upload is what some region brought there, or what it was.
pub proof fn lemma_filled(
    t: Texels,
    from: spec_fn(int) -> u8,
    image: u64,
    regions: Seq<BufferImageRegion>,
    i: u64,
    layer: int,
    mip: int,
    p: int,
)
    ensures
        ({
            let after = filled(t, from, image, regions)(i, layer, mip, p);
            &&& i != image ==> after == t(i, layer, mip, p)
            &&& (forall|j: int|
                0 <= j < regions.len() ==> !upload_writes(#[trigger] regions[j], layer, mip, p))
                ==> after == t(i, layer, mip, p)
            &&& i == image && (exists|j: int|
                0 <= j < regions.len() && upload_writes(#[trigger] regions[j], layer, mip, p))
                ==> exists|j: int|
                0 <= j < regions.len() && upload_writes(#[trigger] regions[j], layer, mip, p)
                    && after == from(
                    regions[j].buffer_offset + (layer - regions[j].base_layer) * (4 * (
                    regions[j].width * regions[j].height)) + p,
                )
        }),
    decreases regions.len(),
{
    if regions.len() > 0 {
        let less = regions.drop_last();
        let n = regions.len() - 1;
        lemma_filled(t, from, image, less, i, layer, mip, p);
        if forall|j: int|
            0 <= j < regions.len() ==> !upload_writes(#[trigger] regions[j], layer, mip, p) {
            assert(!upload_writes(regions[n], layer, mip, p));
            assert forall|j: int| 0 <= j < less.len() implies !upload_writes(
                #[trigger] less[j],
                layer,
                mip,
                p,
            ) by {
                assert(!upload_writes(regions[j], layer, mip, p));
            }
        }
        if i == image && (exists|j: int|
            0 <= j < regions.len() && upload_writes(#[trigger] regions[j], layer, mip, p)) {
            if upload_writes(regions[n], layer, mip, p) {
                assert(regions.last() == regions[n]);
            } else {
                let j = choose|j: int|
                    0 <= j < regions.len() && upload_writes(#[trigger] regions[j], layer, mip, p);
                assert(upload_writes(less[j], layer, mip, p));
                let k = choose|k: int|
                    0 <= k < less.len() && upload_writes(#[trigger] less[k], layer, mip, p)
                        && filled(t, from, image, less)(i, layer, mip, p) == from(
                        less[k].buffer_offset + (layer - less[k].base_layer) * (4 * (less[k].width
                            * less[k].height)) + p,
                    );
                assert(upload_writes(regions[k], layer, mip, p));
            }
        }
    }
}

/// Region `r` moves byte `p` of level `mip` of layer `layer`.
pub open spec fn move_writes(r: ImageRegion, layer: int, mip: int, p: int) -> bool {
    mip == r.mip && 0 <= layer < r.layers && 0 <= p < 4 * (r.width * r.height)
}

/// A byte of an image after a copy between images is the one in its place in the source
/// where some region moves it, and what it was elsewhere.
pub proof fn lemma_moved(
    t: Texels,
    src: u64,
    dst: u64,
    regions: Seq<ImageRegion>,
    i: u64,
    layer: int,
    mip: int,
    p: int,
)
    ensures
        moved(t, src, dst, regions)(i, layer, mip, p) == if i == dst && exists|j: int|
            0 <= j < regions.len() && move_writes(#[trigger] regions[j], layer, mip, p) {
            t(src, layer, mip, p)
        } else {
            t(i, layer, mip, p)
        },
    decreases regions.len(),
{
    if regions.len() > 0 {
        let less = regions.drop_last();
        let n = regions.len() - 1;
        lemma_moved(t, src, dst, less, i, layer, mip, p);
        assert forall|j: int| 0 <= j < less.len() && move_writes(#[trigger] less[j], layer, mip, p)
            implies move_writes(regions[j], layer, mip, p) by {}
        if move_writes(regions[n], layer, mip, p) {
            assert(regions.last() == regions[n]);
        } else if exists|j: int|
            0 <= j < regions.len() && move_writes(#[trigger] regions[j], layer, mip, p) {
            let j = choose|j: int|
                0 <= j < regions.len() && move_writes(#[trigger] regions[j], layer, mip, p);
            assert(move_writes(less[j], layer, mip, p));
        }
    }
}

/// Barriers on images change nothing.
pub proof fn lemma_play_issued(g: Gpu, bs: Seq<ImageBarrier>, staging: Seq<u8>)
    ensures
        play(g, commands::issued(bs), staging) == g,
{
    lemma_play_orders(g, commands::issued(bs), staging);
}

/// `n` bytes of `buffer` from `at`.
pub open spec fn bytes_at(m: Memory, buffer: u64, at: int, n: nat) -> Seq<u8> {
    Seq::new(n, |i: int| m(buffer, at + i))
}

/// One region is copied whole out of the plan's own staging buffer, and nothing else is
/// touched.
pub proof fn lemma_staged_one(
    from: Memory,
    m: Memory,
    dst: u64,
    r: BufferRegion,
    b: u64,
    p: int,
)
    ensures
        copied_from(from, m, dst, seq![r])(b, p) == if b == dst && region_writes(r, p) {
            from(dst, r.src_offset + (p - r.dst_offset))
        } else {
            m(b, p)
        },
{
    assert(seq![r].drop_last() =~= Seq::empty());
    reveal_with_fuel(copied_from, 2);
}

/// Nothing but bindings is staged.
pub open spec fn only_bindings_staged(g: Gpu) -> bool {
    &&& g.regions.len() == 0
    &&& g.uploads.len() == 0
    &&& g.moves.len() == 0
    &&& g.staged_words.len() == 0
    &&& g.staged_bytes.len() == 0
}

/// `d` has a thread for each pixel of a `width` by `height` image, in square groups of
/// `side`, and no group that lies wholly outside.
pub open spec fn covers_pixels(d: Dispatched, width: u32, height: u32, side: u32) -> bool {
    &&& d.x * side >= width
    &&& width > 0 ==> (d.x - 1) * side < width
    &&& d.y * side >= height
    &&& height > 0 ==> (d.y - 1) * side < height
    &&& d.z == 1
}

} // verus!
