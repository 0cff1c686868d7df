//! Depth pyramid for occlusion: a mip chain of farthest depths, built after the
//! scene pass and sampled by the next frame's culling.
//!
//! The top level is half the render size; every further one reduces the one above,
//! down to a single texel.

use vstd::prelude::*;

use crate::commands;
use crate::commands::{
    clear_to_zero, clear_write, color_range, compute_sample, compute_write, layout_barrier,
    no_access, top_of_pipe, Binding, Cmd, Extent, ImageBarrier, Subresources, LAYOUT_GENERAL,
    LAYOUT_SHADER_READ_ONLY, LAYOUT_TRANSFER_DST, LAYOUT_UNDEFINED,
};
use crate::depth::SAMPLEABLE_DEPTH_REST_LAYOUT;
use crate::layouts;
use crate::layouts::{Held, Part};
use crate::playback;
use crate::playback::Gpu;
use crate::pyramid;
use crate::pyramid::{sampled_bind, storage_bind, MipTarget};

verus! {

/// The reduction pipelines and what they sample through.
#[derive(Clone, Copy, Debug, PartialEq, Eq, Structural)]
pub struct HizState {
    pub depth: u64,
    pub mip: u64,
    pub layout: u64,
    pub depth_sampler: u64,
}

/// One slot's pyramid.
pub struct HizChain {
    pub image: u64,
    pub mips: Vec<MipTarget>,
    /// The image was built or cleared, and rests where culling samples it.
    pub ready: bool,
}

/// The pyramid made writable: from where culling sampled it, or from nowhere when
/// it was never filled.
pub open spec fn to_general_spec(image: u64, levels: u32, ready: bool) -> ImageBarrier {
    layout_barrier(
        image,
        color_range(levels, 0, 1),
        if ready {
            LAYOUT_SHADER_READ_ONLY
        } else {
            LAYOUT_UNDEFINED
        },
        if ready {
            compute_sample()
        } else {
            no_access()
        },
        LAYOUT_GENERAL,
        compute_write(),
    )
}

/// The built pyramid handed to the culling of the next frame.
pub open spec fn to_rest(image: u64, levels: u32) -> ImageBarrier {
    layout_barrier(
        image,
        color_range(levels, 0, 1),
        LAYOUT_GENERAL,
        compute_write(),
        LAYOUT_SHADER_READ_ONLY,
        compute_sample(),
    )
}

/// The pyramid cleared to the far plane, so that it hides nothing.
pub open spec fn clear_cmds(image: u64, levels: u32) -> Seq<Cmd> {
    let range = color_range(levels, 0, 1);
    commands::issued(
        seq![
            layout_barrier(
                image,
                range,
                LAYOUT_UNDEFINED,
                top_of_pipe(),
                LAYOUT_TRANSFER_DST,
                clear_write(),
            ),
        ],
    ) + seq![clear_to_zero(image, range)] + commands::issued(
        seq![
            layout_barrier(
                image,
                range,
                LAYOUT_TRANSFER_DST,
                clear_write(),
                LAYOUT_SHADER_READ_ONLY,
                compute_sample(),
            ),
        ],
    )
}

/// The top level reduced from the sampleable depth.
pub open spec fn depth_cmds(
    p: HizState,
    depth_view: u64,
    mips: Seq<MipTarget>,
    render_extent: Extent,
) -> Seq<Cmd> {
    seq![
        Cmd::BindPipeline { pipeline: p.depth },
        sampled_bind(0, depth_view, p.depth_sampler, SAMPLEABLE_DEPTH_REST_LAYOUT),
        storage_bind(1, mips[0].view),
        storage_bind(2, mips[0].view),
    ] + pyramid::fill(p.layout, mips[0].extent, render_extent, Seq::empty())
}

/// The whole pyramid built and laid to rest.
pub open spec fn generate_cmds(
    p: HizState,
    depth_view: u64,
    image: u64,
    mips: Seq<MipTarget>,
    render_extent: Extent,
) -> Seq<Cmd> {
    depth_cmds(p, depth_view, mips, render_extent) + seq![Cmd::BindPipeline { pipeline: p.mip }]
        + pyramid::levels_cmds(p.layout, mips, Seq::empty(), mips.len() as int)
        + commands::issued(seq![to_rest(image, mips.len() as u32)])
}

impl HizChain {
    /// At least one level, and a countable number of them.
    pub open spec fn wf(&self) -> bool {
        1 <= self.mips.len() <= u32::MAX
    }

    pub fn all_mips(&self) -> (r: Subresources)
        requires
            self.wf(),
        ensures
            r == color_range(self.mips.len() as u32, 0, 1),
    {
        color_range(self.mips.len() as u32, 0, 1)
    }

    /// The transition that precedes [`Self::record_hiz_generate`].
    pub fn hiz_to_general_barrier(&self) -> (b: ImageBarrier)
        requires
            self.wf(),
        ensures
            b == to_general_spec(self.image, self.mips.len() as u32, self.ready),
    {
        let range: Subresources = self.all_mips();
        if self.ready {
            layout_barrier(
                self.image,
                range,
                LAYOUT_SHADER_READ_ONLY,
                compute_sample(),
                LAYOUT_GENERAL,
                compute_write(),
            )
        } else {
            layout_barrier(
                self.image,
                range,
                LAYOUT_UNDEFINED,
                no_access(),
                LAYOUT_GENERAL,
                compute_write(),
            )
        }
    }

    /// Records the clear that makes the pyramid safe to sample before it was built.
    pub fn record_hiz_clear(&mut self, cmds: &mut Vec<Cmd>)
        requires
            old(self).wf(),
        ensures
            final(cmds)@ == old(cmds)@ + clear_cmds(old(self).image, old(self).mips.len() as u32),
            *final(self) == (HizChain { ready: true, ..*old(self) }),
    {
        let ghost orig = cmds@;
        let range: Subresources = self.all_mips();
        commands::issue_one(
            cmds,
            layout_barrier(
                self.image,
                range,
                LAYOUT_UNDEFINED,
                top_of_pipe(),
                LAYOUT_TRANSFER_DST,
                clear_write(),
            ),
        );
        commands::push_one(cmds, clear_to_zero(self.image, range));
        commands::issue_one(
            cmds,
            layout_barrier(
                self.image,
                range,
                LAYOUT_TRANSFER_DST,
                clear_write(),
                LAYOUT_SHADER_READ_ONLY,
                compute_sample(),
            ),
        );
        proof {
            assert(cmds@ =~= orig + clear_cmds(self.image, self.mips.len() as u32));
        }
        self.ready = true;
    }

    /// Records the build of the pyramid from the depth behind `depth_view`, which
    /// rests in [`SAMPLEABLE_DEPTH_REST_LAYOUT`]. The pyramid must be writable.
    pub fn record_hiz_generate(
        &mut self,
        cmds: &mut Vec<Cmd>,
        p: HizState,
        depth_view: u64,
        render_extent: Extent,
    )
        requires
            old(self).wf(),
        ensures
            final(cmds)@ == old(cmds)@ + generate_cmds(
                p,
                depth_view,
                old(self).image,
                old(self).mips@,
                render_extent,
            ),
            *final(self) == (HizChain { ready: true, ..*old(self) }),
    {
        let ghost orig = cmds@;
        let none: Vec<u32> = Vec::new();
        let top: MipTarget = self.mips[0];
        cmds.push(Cmd::BindPipeline { pipeline: p.depth });
        cmds.push(sampled_bind(0, depth_view, p.depth_sampler, SAMPLEABLE_DEPTH_REST_LAYOUT));
        cmds.push(storage_bind(1, top.view));
        cmds.push(storage_bind(2, top.view));
        pyramid::record_fill(cmds, p.layout, top.extent, render_extent, &none);
        proof {
            assert(none@ =~= Seq::<u32>::empty());
            assert(cmds@ =~= orig + depth_cmds(p, depth_view, self.mips@, render_extent));
        }
        cmds.push(Cmd::BindPipeline { pipeline: p.mip });
        pyramid::record_levels(cmds, p.layout, &self.mips, &none);
        let levels: u32 = self.mips.len() as u32;
        commands::issue_one(
            cmds,
            layout_barrier(
                self.image,
                color_range(levels, 0, 1),
                LAYOUT_GENERAL,
                compute_write(),
                LAYOUT_SHADER_READ_ONLY,
                compute_sample(),
            ),
        );
        proof {
            assert(cmds@ =~= orig + generate_cmds(
                p,
                depth_view,
                self.image,
                self.mips@,
                render_extent,
            ));
        }
        self.ready = true;
    }
}

/// A pyramid that was ever filled rests where culling samples it, and the next
/// build starts from there: the three transitions meet.
pub proof fn law_pyramid_transitions_meet(image: u64, levels: u32)
    ensures
        to_general_spec(image, levels, true).old_layout == to_rest(image, levels).new_layout,
        to_general_spec(image, levels, true).src == to_rest(image, levels).dst,
        to_general_spec(image, levels, true).new_layout == to_rest(image, levels).old_layout,
        clear_cmds(image, levels)[3] == Cmd::ImageBarrier(
            layout_barrier(
                image,
                color_range(levels, 0, 1),
                LAYOUT_TRANSFER_DST,
                clear_write(),
                to_rest(image, levels).new_layout,
                to_rest(image, levels).dst,
            ),
        ),
{
}

/// Building a pyramid takes one dispatch per level.
pub proof fn law_one_dispatch_per_level(
    p: HizState,
    depth_view: u64,
    image: u64,
    mips: Seq<MipTarget>,
    render_extent: Extent,
)
    requires
        mips.len() >= 1,
    ensures
        pyramid::dispatch_count(generate_cmds(p, depth_view, image, mips, render_extent))
            == mips.len(),
{
    let head = seq![
        Cmd::BindPipeline { pipeline: p.depth },
        sampled_bind(0, depth_view, p.depth_sampler, SAMPLEABLE_DEPTH_REST_LAYOUT),
        storage_bind(1, mips[0].view),
        storage_bind(2, mips[0].view),
    ];
    let top = pyramid::fill(p.layout, mips[0].extent, render_extent, Seq::empty());
    let bind = seq![Cmd::BindPipeline { pipeline: p.mip }];
    let rest = pyramid::levels_cmds(p.layout, mips, Seq::empty(), mips.len() as int);
    let done = commands::issued(seq![to_rest(image, mips.len() as u32)]);
    pyramid::lemma_no_dispatch(head);
    pyramid::lemma_fill_dispatches_once(p.layout, mips[0].extent, render_extent, Seq::empty());
    pyramid::lemma_no_dispatch(bind);
    pyramid::law_one_dispatch_per_level(p.layout, mips, Seq::empty(), mips.len() as int);
    pyramid::lemma_no_dispatch(done);
    pyramid::lemma_dispatch_count_adds(head, top);
    pyramid::lemma_dispatch_count_adds(head + top, bind);
    pyramid::lemma_dispatch_count_adds(head + top + bind, rest);
    pyramid::lemma_dispatch_count_adds(head + top + bind + rest, done);
}

/// The pyramid is built from the depth down: the first dispatch samples the depth and
/// fills the top level, and every further one reduces the level above it.
pub proof fn law_the_pyramid_is_built_from_the_depth(
    p: HizState,
    depth_view: u64,
    image: u64,
    mips: Seq<MipTarget>,
    render_extent: Extent,
    g: Gpu,
    staging: Seq<u8>,
)
    requires
        mips.len() >= 1,
        g.fresh(),
    ensures
        ({
            let cmds = generate_cmds(p, depth_view, image, mips, render_extent);
            let after = playback::play(g, cmds, staging);
            let ran = g.dispatches.len() as int;
            let top = after.dispatches[ran];
            &&& after.fresh()
            &&& after.dispatches.len() == ran + mips.len()
            &&& top.pipeline == p.depth
            &&& top.bindings[0] == (Binding::Sampled {
                view: depth_view,
                sampler: p.depth_sampler,
                layout: SAMPLEABLE_DEPTH_REST_LAYOUT,
            })
            &&& pyramid::fills_level(top, mips[0], render_extent, Seq::empty())
            &&& forall|i: int|
                1 <= i < mips.len() ==> #[trigger] pyramid::level_reduced(
                    after.dispatches,
                    ran,
                    p.mip,
                    mips,
                    Seq::empty(),
                    i,
                )
        }),
{
    let ran = g.dispatches.len() as int;
    let n = mips.len() as int;
    let first = depth_cmds(p, depth_view, mips, render_extent);
    let bind = Cmd::BindPipeline { pipeline: p.mip };
    let rest = pyramid::levels_cmds(p.layout, mips, Seq::empty(), n);
    let done = seq![to_rest(image, mips.len() as u32)];
    let g1 = playback::play(g, first, staging);
    let g2 = playback::play(g1, seq![bind], staging);
    let g3 = playback::play(g2, rest, staging);
    playback::lemma_play_concat(g, first + seq![bind] + rest, commands::issued(done), staging);
    playback::lemma_play_concat(g, first + seq![bind], rest, staging);
    playback::lemma_play_concat(g, first, seq![bind], staging);
    lemma_depth_played(p, depth_view, mips, render_extent, g, staging);
    playback::lemma_play_one(g1, bind, staging);
    pyramid::law_levels_are_reduced_from_the_one_above(
        p.layout,
        mips,
        Seq::empty(),
        n,
        g2,
        staging,
    );
    playback::lemma_play_issued(g3, done, staging);
    assert(g3.dispatches[ran] == g2.dispatches[ran]);
}

proof fn lemma_depth_played(
    p: HizState,
    depth_view: u64,
    mips: Seq<MipTarget>,
    render_extent: Extent,
    g: Gpu,
    staging: Seq<u8>,
)
    requires
        mips.len() >= 1,
        g.fresh(),
    ensures
        ({
            let after = playback::play(g, depth_cmds(p, depth_view, mips, render_extent), staging);
            let d = after.dispatches.last();
            &&& after.fresh()
            &&& after.dispatches == g.dispatches.push(d)
            &&& d.pipeline == p.depth
            &&& d.bindings[0] == (Binding::Sampled {
                view: depth_view,
                sampler: p.depth_sampler,
                layout: SAMPLEABLE_DEPTH_REST_LAYOUT,
            })
            &&& pyramid::fills_level(d, mips[0], render_extent, Seq::empty())
        }),
{
    let head = seq![
        Cmd::BindPipeline { pipeline: p.depth },
        sampled_bind(0, depth_view, p.depth_sampler, SAMPLEABLE_DEPTH_REST_LAYOUT),
        storage_bind(1, mips[0].view),
        storage_bind(2, mips[0].view),
    ];
    let run = pyramid::fill(p.layout, mips[0].extent, render_extent, Seq::empty());
    playback::lemma_play_concat(g, head, run, staging);
    let g1 = playback::play(g, head, staging);
    assert(g1 == (Gpu {
        pipeline: p.depth,
        staged_bindings: g1.staged_bindings,
        ..g
    }) && g1.staged_bindings.dom().contains(0) && g1.staged_bindings.dom().contains(2)
        && g1.staged_bindings[0] == (Binding::Sampled {
        view: depth_view,
        sampler: p.depth_sampler,
        layout: SAMPLEABLE_DEPTH_REST_LAYOUT,
    }) && g1.staged_bindings[2] == (Binding::StorageImage {
        view: mips[0].view,
        layout: LAYOUT_GENERAL,
    })) by {
        reveal_with_fuel(playback::upto, 5);
    }
    pyramid::lemma_fill_played(
        g1,
        p.layout,
        mips[0].extent,
        render_extent,
        Seq::empty(),
        staging,
    );
}

/// Along a build every level of the pyramid is in the layouts that the commands name: what
/// culling sampled of it is waited for, the shaders are let in to write it, and what they
/// wrote is waited for before the next culling samples it.
pub proof fn law_a_build_finds_its_layouts(
    s: HizState,
    depth_view: u64,
    image: u64,
    mips: Seq<MipTarget>,
    render_extent: Extent,
    ready: bool,
    p: Part,
)
    requires
        1 <= mips.len() <= u32::MAX,
        p.image == image,
        0 <= p.mip < mips.len(),
        p.layer == 0,
        !p.views.contains(depth_view),
    ensures
        ({
            let cmds = commands::issued(seq![to_general_spec(image, mips.len() as u32, ready)])
                + generate_cmds(s, depth_view, image, mips, render_extent);
            let before = if ready {
                Held {
                    used: Some(compute_sample()),
                    ..layouts::at_rest(LAYOUT_SHADER_READ_ONLY, compute_sample())
                }
            } else {
                layouts::at_rest(LAYOUT_UNDEFINED, no_access())
            };
            &&& layouts::orderly(before, cmds, p)
            &&& layouts::after(before, cmds, p) == layouts::at_rest(
                LAYOUT_SHADER_READ_ONLY,
                compute_sample(),
            )
        }),
{
    let n = mips.len() as u32;
    let before = if ready {
        Held {
            used: Some(compute_sample()),
            ..layouts::at_rest(LAYOUT_SHADER_READ_ONLY, compute_sample())
        }
    } else {
        layouts::at_rest(LAYOUT_UNDEFINED, no_access())
    };
    let entry = seq![to_general_spec(image, n, ready)];
    let top = depth_cmds(s, depth_view, mips, render_extent);
    let bind = seq![Cmd::BindPipeline { pipeline: s.mip }];
    let rest = pyramid::levels_cmds(s.layout, mips, Seq::empty(), mips.len() as int);
    let exit = seq![to_rest(image, n)];
    let work = top + bind + rest;
    layouts::lemma_issued(before, entry, p, 0);
    let h = layouts::after(before, commands::issued(entry), p);
    assert forall|i: int| 0 <= i < work.len() implies layouts::reaches(
        #[trigger] work[i],
        p,
        LAYOUT_GENERAL,
        compute_write(),
    ) by {
        if i < top.len() {
            assert(work[i] == top[i]);
            if i >= 4 {
                assert(top[i] == pyramid::fill(
                    s.layout,
                    mips[0].extent,
                    render_extent,
                    Seq::empty(),
                )[i - 4]);
            }
        } else if i == top.len() {
            assert(work[i] == bind[0]);
        } else {
            let k = i - top.len() - 1;
            assert(work[i] == rest[k]);
            pyramid::lemma_levels_over(s.layout, mips, Seq::empty(), mips.len() as int, k);
            pyramid::lemma_over_levels(rest[k], mips, p);
        }
    }
    layouts::lemma_uses(h, work, p, compute_write());
    layouts::lemma_issued(layouts::after(h, work, p), exit, p, 0);
    layouts::lemma_concat(h, work, commands::issued(exit), p);
    assert(work + commands::issued(exit) =~= generate_cmds(
        s,
        depth_view,
        image,
        mips,
        render_extent,
    ));
    layouts::lemma_concat(before, commands::issued(entry), work + commands::issued(exit), p);
}

/// A clear takes every level of the pyramid from no layout to where culling samples it.
pub proof fn law_a_clear_finds_its_layouts(image: u64, levels: u32, p: Part)
    requires
        p.image == image,
        0 <= p.mip < levels,
        p.layer == 0,
    ensures
        ({
            let void = layouts::at_rest(LAYOUT_UNDEFINED, no_access());
            &&& layouts::orderly(void, clear_cmds(image, levels), p)
            &&& layouts::after(void, clear_cmds(image, levels), p) == layouts::at_rest(
                LAYOUT_SHADER_READ_ONLY,
                compute_sample(),
            )
        }),
{
    let range = color_range(levels, 0, 1);
    let void = layouts::at_rest(LAYOUT_UNDEFINED, no_access());
    let entry = seq![
        layout_barrier(
            image,
            range,
            LAYOUT_UNDEFINED,
            top_of_pipe(),
            LAYOUT_TRANSFER_DST,
            clear_write(),
        ),
    ];
    let exit = seq![
        layout_barrier(
            image,
            range,
            LAYOUT_TRANSFER_DST,
            clear_write(),
            LAYOUT_SHADER_READ_ONLY,
            compute_sample(),
        ),
    ];
    layouts::lemma_cleared(void, entry, 0, clear_to_zero(image, range), exit, 0, p);
}

} // verus!
