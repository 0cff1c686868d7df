//! Mip pyramids built level by level, each from the level above it.

use vstd::prelude::*;

use crate::commands;
use crate::commands::{
    access_at, compute_write, Access, Binding, Cmd, Extent,
    ACCESS_SHADER_STORAGE_READ, LAYOUT_GENERAL, STAGE_COMPUTE_SHADER,
};
use crate::layouts;
use crate::layouts::Part;
use crate::playback;
use crate::playback::{Dispatched, Gpu};

verus! {

/// Threads along each side of one reduction workgroup.
pub const REDUCE_GROUP: u32 = 8;

/// One mip level: its view and its size.
#[derive(Clone, Copy, Debug, PartialEq, Eq, Structural)]
pub struct MipTarget {
    pub view: u64,
    pub extent: Extent,
}

/// Shaders reading storage.
#[verifier::allow_in_spec]
pub fn compute_read() -> Access
    returns
        access_at(STAGE_COMPUTE_SHADER, ACCESS_SHADER_STORAGE_READ),
{
    access_at(STAGE_COMPUTE_SHADER, ACCESS_SHADER_STORAGE_READ)
}

/// A level bound for storage access.
#[verifier::allow_in_spec]
pub fn storage_bind(binding: u32, view: u64) -> Cmd
    returns
        (Cmd::Bind { binding, what: Binding::StorageImage { view, layout: LAYOUT_GENERAL } }),
{
    Cmd::Bind { binding, what: Binding::StorageImage { view, layout: LAYOUT_GENERAL } }
}

/// An image bound for sampling in `layout`.
#[verifier::allow_in_spec]
pub fn sampled_bind(binding: u32, view: u64, sampler: u64, layout: i32) -> Cmd
    returns
        (Cmd::Bind { binding, what: Binding::Sampled { view, sampler, layout } }),
{
    Cmd::Bind { binding, what: Binding::Sampled { view, sampler, layout } }
}

/// Words pushed one after the other.
pub open spec fn pushed(words: Seq<u32>) -> Seq<Cmd> {
    Seq::new(words.len(), |i: int| Cmd::PushWord(words[i]))
}

pub fn record_pushed(cmds: &mut Vec<Cmd>, words: &Vec<u32>)
    ensures
        final(cmds)@ == old(cmds)@ + pushed(words@),
{
    let ghost orig = cmds@;
    let mut i: usize = 0;
    proof {
        assert(cmds@ =~= orig + pushed(words@.take(0)));
    }
    while i < words.len()
        invariant
            i <= words.len(),
            cmds@ == orig + pushed(words@.take(i as int)),
        decreases words.len() - i,
    {
        cmds.push(Cmd::PushWord(words[i]));
        i = i + 1;
        proof {
            assert(cmds@ =~= orig + pushed(words@.take(i as int)));
        }
    }
    proof {
        assert(words@.take(i as int) =~= words@);
    }
}

/// A dispatch with one thread per pixel of `extent`, in groups of `group` a side.
pub open spec fn dispatch_over(extent: Extent, group: u32) -> Cmd {
    Cmd::Dispatch {
        x: commands::ceil_div(extent.width as int, group as int) as u32,
        y: commands::ceil_div(extent.height as int, group as int) as u32,
        z: 1,
    }
}

pub fn pixel_dispatch(extent: Extent, group: u32) -> (c: Cmd)
    requires
        group > 0,
    ensures
        c == dispatch_over(extent, group),
{
    Cmd::Dispatch {
        x: commands::div_ceil(extent.width, group),
        y: commands::div_ceil(extent.height, group),
        z: 1,
    }
}

/// The push constants and the dispatch that fill `dst` from `src`: both sizes, then
/// the pass's own words.
pub open spec fn fill(layout: u64, dst: Extent, src: Extent, tail: Seq<u32>) -> Seq<Cmd> {
    seq![
        Cmd::PushSet { layout },
        Cmd::PushWord(dst.width),
        Cmd::PushWord(dst.height),
        Cmd::PushWord(src.width),
        Cmd::PushWord(src.height),
    ] + pushed(tail) + seq![Cmd::PushConstants { layout }, dispatch_over(dst, REDUCE_GROUP)]
}

pub fn record_fill(cmds: &mut Vec<Cmd>, layout: u64, dst: Extent, src: Extent, tail: &Vec<u32>)
    ensures
        final(cmds)@ == old(cmds)@ + fill(layout, dst, src, tail@),
{
    let ghost orig = cmds@;
    cmds.push(Cmd::PushSet { layout });
    cmds.push(Cmd::PushWord(dst.width));
    cmds.push(Cmd::PushWord(dst.height));
    cmds.push(Cmd::PushWord(src.width));
    cmds.push(Cmd::PushWord(src.height));
    record_pushed(cmds, tail);
    cmds.push(Cmd::PushConstants { layout });
    cmds.push(pixel_dispatch(dst, REDUCE_GROUP));
    proof {
        assert(cmds@ =~= orig + fill(layout, dst, src, tail@));
    }
}

/// Level `i` reduced from the level above, once that one is written.
pub open spec fn level_cmds(layout: u64, mips: Seq<MipTarget>, tail: Seq<u32>, i: int) -> Seq<Cmd> {
    commands::memory_barrier(compute_write(), compute_read()) + seq![
        storage_bind(1, mips[i - 1].view),
        storage_bind(2, mips[i].view),
    ] + fill(layout, mips[i].extent, mips[i - 1].extent, tail)
}

/// Levels `1` to `n - 1`, top down.
pub open spec fn levels_cmds(layout: u64, mips: Seq<MipTarget>, tail: Seq<u32>, n: int) -> Seq<Cmd>
    decreases n,
{
    if n <= 1 {
        Seq::empty()
    } else {
        levels_cmds(layout, mips, tail, n - 1) + level_cmds(layout, mips, tail, n - 1)
    }
}

/// Records every level below the top one.
pub fn record_levels(cmds: &mut Vec<Cmd>, layout: u64, mips: &Vec<MipTarget>, tail: &Vec<u32>)
    ensures
        final(cmds)@ == old(cmds)@ + levels_cmds(layout, mips@, tail@, mips.len() as int),
{
    let ghost orig = cmds@;
    let mut i: usize = 1;
    proof {
        assert(cmds@ =~= orig + levels_cmds(layout, mips@, tail@, 1));
        assert(levels_cmds(layout, mips@, tail@, 0) == levels_cmds(layout, mips@, tail@, 1));
    }
    while i < mips.len()
        invariant
            1 <= i,
            i <= mips.len() || i == 1,
            cmds@ == orig + levels_cmds(layout, mips@, tail@, i as int),
        decreases mips.len() - i,
    {
        let ghost before = cmds@;
        commands::record_memory_barrier(cmds, compute_write(), compute_read());
        cmds.push(storage_bind(1, mips[i - 1].view));
        cmds.push(storage_bind(2, mips[i].view));
        record_fill(cmds, layout, mips[i].extent, mips[i - 1].extent, tail);
        proof {
            assert(cmds@ =~= before + level_cmds(layout, mips@, tail@, i as int));
            assert(cmds@ =~= orig + levels_cmds(layout, mips@, tail@, i + 1));
        }
        i = i + 1;
    }
}

/// The dispatches of a plan.
pub open spec fn dispatch_count(cmds: Seq<Cmd>) -> nat
    decreases cmds.len(),
{
    if cmds.len() == 0 {
        0
    } else {
        dispatch_count(cmds.drop_last()) + (if cmds.last() is Dispatch {
            1nat
        } else {
            0nat
        })
    }
}

/// The dispatches of two plans, one after the other.
pub proof fn lemma_dispatch_count_adds(a: Seq<Cmd>, b: Seq<Cmd>)
    ensures
        dispatch_count(a + b) == dispatch_count(a) + dispatch_count(b),
    decreases b.len(),
{
    if b.len() == 0 {
        assert(a + b =~= a);
    } else {
        assert((a + b).drop_last() =~= a + b.drop_last());
        assert((a + b).last() == b.last());
        lemma_dispatch_count_adds(a, b.drop_last());
    }
}

/// A plan without dispatches.
pub proof fn lemma_no_dispatch(cmds: Seq<Cmd>)
    requires
        forall|i: int| 0 <= i < cmds.len() ==> !(#[trigger] cmds[i] is Dispatch),
    ensures
        dispatch_count(cmds) == 0,
    decreases cmds.len(),
{
    if cmds.len() > 0 {
        assert(!(cmds[cmds.len() - 1] is Dispatch));
        assert forall|i: int| 0 <= i < cmds.drop_last().len() implies !(
        #[trigger] cmds.drop_last()[i] is Dispatch) by {
            assert(!(cmds[i] is Dispatch));
        }
        lemma_no_dispatch(cmds.drop_last());
    }
}

/// One fill is one dispatch.
pub proof fn lemma_fill_dispatches_once(layout: u64, dst: Extent, src: Extent, tail: Seq<u32>)
    ensures
        dispatch_count(fill(layout, dst, src, tail)) == 1,
{
    let f = fill(layout, dst, src, tail);
    lemma_no_dispatch(f.drop_last());
}

/// Below the top level there is one dispatch per level.
pub proof fn law_one_dispatch_per_level(layout: u64, mips: Seq<MipTarget>, tail: Seq<u32>, n: int)
    requires
        n >= 1,
    ensures
        dispatch_count(levels_cmds(layout, mips, tail, n)) == n - 1,
    decreases n,
{
    if n > 1 {
        law_one_dispatch_per_level(layout, mips, tail, n - 1);
        let i = n - 1;
        let head = commands::memory_barrier(compute_write(), compute_read()) + seq![
            storage_bind(1, mips[i - 1].view),
            storage_bind(2, mips[i].view),
        ];
        let tailing = fill(layout, mips[i].extent, mips[i - 1].extent, tail);
        lemma_no_dispatch(head);
        lemma_fill_dispatches_once(layout, mips[i].extent, mips[i - 1].extent, tail);
        lemma_dispatch_count_adds(head, tailing);
        lemma_dispatch_count_adds(
            levels_cmds(layout, mips, tail, n - 1),
            level_cmds(layout, mips, tail, n - 1),
        );
    }
}

/// Every pixel of a level gets a thread, and no group lies wholly outside.
pub proof fn law_dispatch_covers_the_level(extent: Extent, group: u32)
    requires
        group > 0,
    ensures
        ({
            let c = dispatch_over(extent, group);
            &&& c->Dispatch_x * group >= extent.width
            &&& c->Dispatch_y * group >= extent.height
            &&& extent.width > 0 ==> (c->Dispatch_x - 1) * group < extent.width
            &&& extent.height > 0 ==> (c->Dispatch_y - 1) * group < extent.height
        }),
{
    commands::law_ceil_div_covers(extent.width as int, group as int);
    commands::law_ceil_div_covers(extent.height as int, group as int);
    lemma_ceil_div_fits(extent.width, group);
    lemma_ceil_div_fits(extent.height, group);
}

proof fn lemma_ceil_div_fits(n: u32, d: u32)
    requires
        d > 0,
    ensures
        0 <= commands::ceil_div(n as int, d as int) <= u32::MAX,
{
    let q = commands::ceil_div(n as int, d as int);
    commands::law_ceil_div_covers(n as int, d as int);
    if n == 0 {
        assert(0int % (d as int) == 0 && 0int / (d as int) == 0) by (nonlinear_arith)
            requires
                d > 0,
        ;
    } else {
        assert(q <= n) by (nonlinear_arith)
            requires
                (q - 1) * d < n,
                d >= 1,
                n >= 1,
        ;
        assert(q >= 0) by (nonlinear_arith)
            requires
                q * d >= n,
                d >= 1,
                n >= 1,
        ;
    }
}

/// `d` fills the level `dst` from something of size `src`: the level is what it stores to,
/// it is told both sizes and then `tail`, and it has a thread for each texel of the level.
pub open spec fn fills_level(d: Dispatched, dst: MipTarget, src: Extent, tail: Seq<u32>) -> bool {
    &&& d.bindings[2] == (Binding::StorageImage { view: dst.view, layout: LAYOUT_GENERAL })
    &&& d.push_words.len() == 4 + tail.len()
    &&& d.push_words[0] == dst.extent.width
    &&& d.push_words[1] == dst.extent.height
    &&& d.push_words[2] == src.width
    &&& d.push_words[3] == src.height
    &&& forall|i: int| 0 <= i < tail.len() ==> d.push_words[4 + i] == #[trigger] tail[i]
    &&& playback::covers_pixels(d, dst.extent.width, dst.extent.height, 8)
}

/// Dispatch `from + i` reduces level `i` from level `i - 1`.
pub open spec fn level_reduced(
    ds: Seq<Dispatched>,
    from: int,
    pipeline: u64,
    mips: Seq<MipTarget>,
    tail: Seq<u32>,
    i: int,
) -> bool {
    let d = ds[from + i];
    &&& d.pipeline == pipeline
    &&& d.bindings[1] == (Binding::StorageImage {
        view: mips[i - 1].view,
        layout: LAYOUT_GENERAL,
    })
    &&& fills_level(d, mips[i], mips[i - 1].extent, tail)
}

/// What one fill does.
pub proof fn lemma_fill_played(
    g: Gpu,
    layout: u64,
    dst: Extent,
    src: Extent,
    tail: Seq<u32>,
    staging: Seq<u8>,
)
    requires
        playback::only_bindings_staged(g),
    ensures
        ({
            let after = playback::play(g, fill(layout, dst, src, tail), staging);
            let d = after.dispatches.last();
            &&& after.fresh()
            &&& after.pipeline == g.pipeline
            &&& after.shader == g.shader
            &&& after.texels == g.texels
            &&& after.stamps == g.stamps
            &&& after.clean == g.clean
            &&& after.bindings == d.bindings
            &&& after.dispatches == g.dispatches.push(d)
            &&& d.pipeline == g.pipeline
            &&& d.memory == g.memory
            &&& d.bindings == g.bindings.union_prefer_right(g.staged_bindings)
            &&& d.push_words == seq![dst.width, dst.height, src.width, src.height] + tail
            &&& playback::covers_pixels(d, dst.width, dst.height, 8)
        }),
{
    let head = seq![
        Cmd::PushSet { layout },
        Cmd::PushWord(dst.width),
        Cmd::PushWord(dst.height),
        Cmd::PushWord(src.width),
        Cmd::PushWord(src.height),
    ];
    let push = Cmd::PushConstants { layout };
    let run = dispatch_over(dst, REDUCE_GROUP);
    playback::lemma_play_concat(g, head + pushed(tail), seq![push, run], staging);
    playback::lemma_play_concat(g, head, pushed(tail), staging);
    let g1 = playback::play(g, head, staging);
    lemma_sizes_played(g, layout, dst, src, staging);
    playback::lemma_play_push_words(g1, tail, staging);
    let g2 = playback::play(g1, pushed(tail), staging);
    playback::lemma_play_two(g2, push, run, staging);
    law_dispatch_covers_the_level(dst, REDUCE_GROUP);
}

/// Two sizes pushed.
pub proof fn lemma_sizes_played(g: Gpu, layout: u64, dst: Extent, src: Extent, staging: Seq<u8>)
    requires
        g.staged_words.len() == 0,
    ensures
        ({
            let head = seq![
                Cmd::PushSet { layout },
                Cmd::PushWord(dst.width),
                Cmd::PushWord(dst.height),
                Cmd::PushWord(src.width),
                Cmd::PushWord(src.height),
            ];
            playback::play(g, head, staging) == (Gpu {
                bindings: g.bindings.union_prefer_right(g.staged_bindings),
                staged_bindings: Map::empty(),
                staged_words: seq![dst.width, dst.height, src.width, src.height],
                ..g
            })
        }),
{
    reveal_with_fuel(playback::upto, 6);
    let w = g.staged_words.push(dst.width).push(dst.height).push(src.width).push(src.height);
    assert(w =~= seq![dst.width, dst.height, src.width, src.height]);
}

/// Each level is reduced from the one above it and from no other, top down: dispatch `i`
/// of the pyramid reads level `i - 1`, stores to level `i`, and is told the sizes of both.
pub proof fn law_levels_are_reduced_from_the_one_above(
    layout: u64,
    mips: Seq<MipTarget>,
    tail: Seq<u32>,
    n: int,
    g: Gpu,
    staging: Seq<u8>,
)
    requires
        1 <= n <= mips.len(),
        g.fresh(),
    ensures
        ({
            let after = playback::play(g, levels_cmds(layout, mips, tail, n), staging);
            let ran = g.dispatches.len();
            &&& after.fresh()
            &&& after.pipeline == g.pipeline
            &&& after.texels == g.texels
            &&& after.dispatches.len() == ran + n - 1
            &&& forall|i: int| 0 <= i < ran ==> #[trigger] after.dispatches[i] == g.dispatches[i]
            &&& forall|i: int|
                1 <= i < n ==> #[trigger] level_reduced(
                    after.dispatches,
                    ran - 1,
                    g.pipeline,
                    mips,
                    tail,
                    i,
                )
        }),
    decreases n,
{
    let ran = g.dispatches.len();
    if n > 1 {
        let i = n - 1;
        law_levels_are_reduced_from_the_one_above(layout, mips, tail, i, g, staging);
        let before = levels_cmds(layout, mips, tail, i);
        let wait = commands::memory_barrier(compute_write(), compute_read());
        let above = storage_bind(1, mips[i - 1].view);
        let here = storage_bind(2, mips[i].view);
        let run = fill(layout, mips[i].extent, mips[i - 1].extent, tail);
        let g1 = playback::play(g, before, staging);
        playback::lemma_play_concat(g, before, level_cmds(layout, mips, tail, i), staging);
        playback::lemma_play_concat(g1, wait + seq![above, here], run, staging);
        playback::lemma_play_concat(g1, wait, seq![above, here], staging);
        playback::lemma_play_memory_barrier(g1, compute_write(), compute_read(), staging);
        playback::lemma_play_two(g1, above, here, staging);
        let g2 = playback::play(g1, seq![above, here], staging);
        lemma_fill_played(g2, layout, mips[i].extent, mips[i - 1].extent, tail, staging);
        let after = playback::play(g, levels_cmds(layout, mips, tail, n), staging);
        assert(after == playback::play(g2, run, staging));
        assert(after.dispatches == g1.dispatches.push(after.dispatches.last()));
        assert(fills_level(after.dispatches.last(), mips[i], mips[i - 1].extent, tail));
        assert forall|j: int| 1 <= j < n implies #[trigger] level_reduced(
            after.dispatches,
            ran - 1,
            g.pipeline,
            mips,
            tail,
            j,
        ) by {
            if j < i {
                assert(level_reduced(g1.dispatches, ran - 1, g.pipeline, mips, tail, j));
            }
        }
    } else {
        playback::lemma_play_nothing(g, staging);
    }
}

/// Some level is seen through `view`.
pub open spec fn is_level_view(mips: Seq<MipTarget>, view: u64) -> bool {
    exists|j: int| 0 <= j < mips.len() && (#[trigger] mips[j]).view == view
}

/// The command reaches no image but the levels, and those for storage.
pub open spec fn over_levels(c: Cmd, mips: Seq<MipTarget>) -> bool {
    match c {
        Cmd::ImageBarrier(_) => false,
        Cmd::CopyBufferToImage { .. } => false,
        Cmd::CopyStagingToImage { .. } => false,
        Cmd::CopyImage { .. } => false,
        Cmd::ClearColor { .. } => false,
        Cmd::Bind { what, .. } => match what {
            Binding::Sampled { .. } => false,
            Binding::StorageImage { view, layout } => is_level_view(mips, view) && layout
                == LAYOUT_GENERAL,
            _ => true,
        },
        _ => true,
    }
}

pub proof fn lemma_levels_over(layout: u64, mips: Seq<MipTarget>, tail: Seq<u32>, n: int, i: int)
    requires
        n <= mips.len(),
        0 <= i < levels_cmds(layout, mips, tail, n).len(),
    ensures
        over_levels(levels_cmds(layout, mips, tail, n)[i], mips),
    decreases n,
{
    if n > 1 {
        let less = levels_cmds(layout, mips, tail, n - 1);
        if i < less.len() {
            lemma_levels_over(layout, mips, tail, n - 1, i);
        } else {
            let one = level_cmds(layout, mips, tail, n - 1);
            let k = i - less.len();
            assert(levels_cmds(layout, mips, tail, n)[i] == one[k]);
            assert(is_level_view(mips, mips[n - 2].view));
            assert(is_level_view(mips, mips[n - 1].view));
            let wait = commands::memory_barrier(compute_write(), compute_read());
            if k >= wait.len() + 2 {
                assert(one[k] == fill(
                    layout,
                    mips[n - 1].extent,
                    mips[n - 2].extent,
                    tail,
                )[k - wait.len() - 2]);
            }
        }
    }
}

/// Level `i` is read by the next dispatch only behind a barrier that waits for what the
/// shader wrote and lets storage reads in.
pub proof fn law_a_level_is_read_once_it_is_written(
    layout: u64,
    mips: Seq<MipTarget>,
    tail: Seq<u32>,
    i: int,
)
    requires
        1 <= i < mips.len(),
    ensures
        ({
            let cmds = level_cmds(layout, mips, tail, i);
            &&& cmds[0] == (Cmd::MemoryBarrier {
                src: commands::access_at(STAGE_COMPUTE_SHADER, commands::ACCESS_SHADER_STORAGE_WRITE),
                dst: commands::access_at(STAGE_COMPUTE_SHADER, ACCESS_SHADER_STORAGE_READ),
            })
            &&& forall|k: int|
                0 <= k < cmds.len() && #[trigger] cmds[k] is Dispatch ==> k > 1 && cmds[1]
                    is Barriers
        }),
{
}

/// What goes on over the levels reaches a part of them in the layout of storage, and no
/// other image.
pub proof fn lemma_over_levels(c: Cmd, mips: Seq<MipTarget>, p: Part)
    requires
        over_levels(c, mips),
    ensures
        layouts::reaches(c, p, LAYOUT_GENERAL, compute_write()),
        (forall|j: int| 0 <= j < mips.len() ==> !p.views.contains((#[trigger] mips[j]).view))
            ==> layouts::elsewhere(c, p),
{
}

} // verus!
