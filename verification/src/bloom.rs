//! Bloom pyramid and the quarter-size spill image that the tonemap adds.
//!
//! A threshold dispatch keeps the bright part of the frame in the top level of the
//! pyramid; the further levels are reduced from it. The spill dispatch then gathers
//! the bloom and marches the god rays into one small image. Everything depends on
//! this frame alone. Floats are carried as their bits.

use vstd::prelude::*;

use crate::commands;
use crate::commands::{
    access_at, clear_to_zero, clear_write, color_range, compute_sample, compute_write,
    fragment_sample, layout_barrier, top_of_pipe, Access, Binding, Cmd, Extent, ImageBarrier, Subresources,
    ACCESS_COLOR_ATTACHMENT_WRITE, ACCESS_SHADER_SAMPLED_READ, ACCESS_SHADER_STORAGE_WRITE,
    ACCESS_TRANSFER_WRITE, ASPECT_COLOR, LAYOUT_GENERAL, LAYOUT_SHADER_READ_ONLY,
    LAYOUT_TRANSFER_DST, LAYOUT_UNDEFINED, STAGE_COLOR_ATTACHMENT_OUTPUT, STAGE_COMPUTE_SHADER,
    STAGE_FRAGMENT_SHADER, STAGE_TRANSFER,
};
use crate::depth::{SAMPLEABLE_DEPTH_REST_LAYOUT, SAMPLES_1};
use crate::exposure::HdrSource;
use crate::image;
use crate::image::{ImageDesc, ImageResource, LayoutUse};
use crate::layouts;
use crate::layouts::{Held, Part};
use crate::playback;
use crate::playback::Gpu;
use crate::pyramid;
use crate::pyramid::{sampled_bind, storage_bind, MipTarget};

verus! {

/// Usage bits of the black stand-in: sampled, and cleared once.
pub const USAGE_SAMPLED_CLEARED: u32 = 6;

/// Bytes of the pyramid's push constants.
pub const BLOOM_PUSH_BYTES: u32 = 32;

/// Bytes of the spill pass's push constants.
pub const SPILL_PUSH_BYTES: u32 = 64;

/// The bits of positive infinity, the largest positive float.
pub const FLOAT_INFINITY: u32 = 0x7F80_0000;

/// Whether a float, given by its bits, is greater than zero.
#[verifier::allow_in_spec]
pub fn is_positive(bits: u32) -> bool
    returns
        0 < bits && bits <= FLOAT_INFINITY,
{
    0 < bits && bits <= FLOAT_INFINITY
}

/// The pipelines of the bloom and spill passes and what they sample through.
#[derive(Clone, Copy, Debug, PartialEq, Eq, Structural)]
pub struct BloomPipelines {
    pub threshold: u64,
    pub downsample: u64,
    pub layout: u64,
    pub sampler: u64,
    pub composite_sampler: u64,
    pub spill: u64,
    pub spill_layout: u64,
    pub depth_sampler: u64,
}

/// The bloom and spill passes, with the black texel that stands in for the spill
/// image while it is not written.
pub struct BloomState {
    pub pipes: BloomPipelines,
    pub black: ImageResource,
    pub black_primed: bool,
}

/// One slot's pyramid.
pub struct BloomChain {
    pub image: u64,
    /// View of all levels.
    pub sample_view: u64,
    pub mips: Vec<MipTarget>,
    /// The pyramid is black, as it stays while bloom is off.
    pub cleared: bool,
}

/// One slot's spill image.
#[derive(Clone, Copy, Debug, PartialEq, Eq, Structural)]
pub struct SpillTarget {
    pub image: u64,
    pub view: u64,
    pub extent: Extent,
}

/// The lens warp of the frame.
#[derive(Clone, Copy, Debug, PartialEq, Eq, Structural)]
pub enum WarpMap {
    Identity,
    Active { s: u32, atan_s: u32 },
}

/// The god rays of the frame.
#[derive(Clone, Copy, Debug, PartialEq, Eq, Structural)]
pub struct Godray {
    pub sun_u: u32,
    pub sun_v: u32,
    pub strength: u32,
    pub jitter_u: u32,
    pub jitter_v: u32,
    pub tint_r: u32,
    pub tint_g: u32,
    pub tint_b: u32,
}

/// Exposure and threshold curve of the bright part.
#[derive(Clone, Copy, Debug, PartialEq, Eq, Structural)]
pub struct BloomTuning {
    pub exposure: u32,
    pub thr_lo: u32,
    pub thr_hi: u32,
    pub thr_scale: u32,
    /// Weight of the bloom in the spill image.
    pub strength: u32,
    /// Threads along each side of one spill workgroup.
    pub spill_group: u32,
}

/// What one frame hands to the passes.
#[derive(Clone, Copy, Debug, PartialEq, Eq, Structural)]
pub struct BloomFrame {
    /// Bloom is on.
    pub bloom: bool,
    pub hdr: HdrSource,
    pub render_extent: Extent,
    pub spill: SpillTarget,
    pub depth_view: u64,
    pub warp: WarpMap,
    pub godray: Godray,
    pub tuning: BloomTuning,
}

/// Whether the spill image is written this frame.
#[verifier::allow_in_spec]
pub fn spill_live(bloom: bool, godray: Godray) -> bool
    returns
        bloom || is_positive(godray.strength),
{
    bloom || is_positive(godray.strength)
}

/// Every writer of the frame's color.
#[verifier::allow_in_spec]
pub fn hdr_written() -> Access
    returns
        access_at(
            STAGE_COLOR_ATTACHMENT_OUTPUT | STAGE_COMPUTE_SHADER | STAGE_TRANSFER,
            ACCESS_COLOR_ATTACHMENT_WRITE | ACCESS_SHADER_STORAGE_WRITE | ACCESS_TRANSFER_WRITE,
        ),
{
    access_at(
        STAGE_COLOR_ATTACHMENT_OUTPUT | STAGE_COMPUTE_SHADER | STAGE_TRANSFER,
        ACCESS_COLOR_ATTACHMENT_WRITE | ACCESS_SHADER_STORAGE_WRITE | ACCESS_TRANSFER_WRITE,
    )
}

/// The spill image made writable; its old contents are void.
#[verifier::allow_in_spec]
pub fn spill_to_general(image: u64) -> ImageBarrier
    returns
        layout_barrier(
            image,
            color_range(1, 0, 1),
            LAYOUT_UNDEFINED,
            top_of_pipe(),
            LAYOUT_GENERAL,
            compute_write(),
        ),
{
    layout_barrier(
        image,
        color_range(1, 0, 1),
        LAYOUT_UNDEFINED,
        top_of_pipe(),
        LAYOUT_GENERAL,
        compute_write(),
    )
}

/// The spill image handed to the tonemap.
#[verifier::allow_in_spec]
pub fn spill_to_sampled(image: u64) -> ImageBarrier
    returns
        layout_barrier(
            image,
            color_range(1, 0, 1),
            LAYOUT_GENERAL,
            compute_write(),
            LAYOUT_SHADER_READ_ONLY,
            fragment_sample(),
        ),
{
    layout_barrier(
        image,
        color_range(1, 0, 1),
        LAYOUT_GENERAL,
        compute_write(),
        LAYOUT_SHADER_READ_ONLY,
        fragment_sample(),
    )
}

/// The frame's color made readable by the threshold dispatch.
#[verifier::allow_in_spec]
pub fn hdr_to_compute(image: u64) -> ImageBarrier
    returns
        layout_barrier(
            image,
            color_range(1, 0, 1),
            LAYOUT_SHADER_READ_ONLY,
            hdr_written(),
            LAYOUT_SHADER_READ_ONLY,
            compute_sample(),
        ),
{
    layout_barrier(
        image,
        color_range(1, 0, 1),
        LAYOUT_SHADER_READ_ONLY,
        hdr_written(),
        LAYOUT_SHADER_READ_ONLY,
        compute_sample(),
    )
}

/// The pyramid made writable; its old contents are void.
#[verifier::allow_in_spec]
pub fn chain_to_general(image: u64, range: Subresources) -> ImageBarrier
    returns
        layout_barrier(
            image,
            range,
            LAYOUT_UNDEFINED,
            top_of_pipe(),
            LAYOUT_GENERAL,
            compute_write(),
        ),
{
    layout_barrier(image, range, LAYOUT_UNDEFINED, top_of_pipe(), LAYOUT_GENERAL, compute_write())
}

/// The built pyramid handed to the spill pass.
#[verifier::allow_in_spec]
pub fn chain_to_sampled(image: u64, range: Subresources) -> ImageBarrier
    returns
        layout_barrier(
            image,
            range,
            LAYOUT_GENERAL,
            compute_write(),
            LAYOUT_SHADER_READ_ONLY,
            compute_sample(),
        ),
{
    layout_barrier(
        image,
        range,
        LAYOUT_GENERAL,
        compute_write(),
        LAYOUT_SHADER_READ_ONLY,
        compute_sample(),
    )
}

/// The pyramid made a clear destination; its old contents are void.
#[verifier::allow_in_spec]
pub fn chain_to_clear(image: u64, range: Subresources) -> ImageBarrier
    returns
        layout_barrier(
            image,
            range,
            LAYOUT_UNDEFINED,
            top_of_pipe(),
            LAYOUT_TRANSFER_DST,
            clear_write(),
        ),
{
    layout_barrier(
        image,
        range,
        LAYOUT_UNDEFINED,
        top_of_pipe(),
        LAYOUT_TRANSFER_DST,
        clear_write(),
    )
}

/// The cleared pyramid handed to whoever samples it.
#[verifier::allow_in_spec]
pub fn chain_cleared(image: u64, range: Subresources) -> ImageBarrier
    returns
        layout_barrier(
            image,
            range,
            LAYOUT_TRANSFER_DST,
            clear_write(),
            LAYOUT_SHADER_READ_ONLY,
            access_at(STAGE_COMPUTE_SHADER | STAGE_FRAGMENT_SHADER, ACCESS_SHADER_SAMPLED_READ),
        ),
{
    layout_barrier(
        image,
        range,
        LAYOUT_TRANSFER_DST,
        clear_write(),
        LAYOUT_SHADER_READ_ONLY,
        access_at(STAGE_COMPUTE_SHADER | STAGE_FRAGMENT_SHADER, ACCESS_SHADER_SAMPLED_READ),
    )
}

/// The words that follow the sizes in the pyramid's push constants.
pub open spec fn tuning_words(t: BloomTuning) -> Seq<u32> {
    seq![t.exposure, t.thr_lo, t.thr_hi, t.thr_scale]
}

/// The top level filled from the frame.
pub open spec fn threshold_cmds(p: BloomPipelines, mips: Seq<MipTarget>, f: BloomFrame) -> Seq<Cmd> {
    seq![
        Cmd::BindPipeline { pipeline: p.threshold },
        sampled_bind(0, f.hdr.view, p.sampler, LAYOUT_SHADER_READ_ONLY),
        storage_bind(2, mips[0].view),
    ] + pyramid::fill(p.layout, mips[0].extent, f.render_extent, tuning_words(f.tuning))
}

/// The whole pyramid.
pub open spec fn pyramid_cmds(
    p: BloomPipelines,
    image: u64,
    mips: Seq<MipTarget>,
    f: BloomFrame,
) -> Seq<Cmd> {
    commands::issued(
        seq![
            hdr_to_compute(f.hdr.image),
            chain_to_general(image, color_range(mips.len() as u32, 0, 1)),
        ],
    ) + threshold_cmds(p, mips, f) + seq![Cmd::BindPipeline { pipeline: p.downsample }]
        + pyramid::levels_cmds(p.layout, mips, tuning_words(f.tuning), mips.len() as int)
}

/// The push constants of the spill pass.
pub open spec fn spill_words(f: BloomFrame) -> Seq<u32> {
    let (s, atan_s) = match f.warp {
        WarpMap::Identity => (0u32, 0u32),
        WarpMap::Active { s, atan_s } => (s, atan_s),
    };
    seq![
        f.spill.extent.width,
        f.spill.extent.height,
        s,
        atan_s,
        f.godray.sun_u,
        f.godray.sun_v,
        f.godray.strength,
        f.godray.jitter_u,
        f.godray.tint_r,
        f.godray.tint_g,
        f.godray.tint_b,
        f.godray.jitter_v,
        if f.bloom {
            f.tuning.strength
        } else {
            0
        },
        0,
        0,
        0,
    ]
}

/// The spill dispatch.
pub open spec fn spill_cmds(p: BloomPipelines, sample_view: u64, f: BloomFrame) -> Seq<Cmd> {
    seq![
        Cmd::BindPipeline { pipeline: p.spill },
        sampled_bind(0, sample_view, p.composite_sampler, LAYOUT_SHADER_READ_ONLY),
        sampled_bind(1, f.depth_view, p.depth_sampler, SAMPLEABLE_DEPTH_REST_LAYOUT),
        storage_bind(2, f.spill.view),
        Cmd::PushSet { layout: p.spill_layout },
    ] + pyramid::pushed(spill_words(f)) + seq![
        Cmd::PushConstants { layout: p.spill_layout },
        pyramid::dispatch_over(f.spill.extent, f.tuning.spill_group),
    ]
}

/// The black texel cleared and handed to the tonemap.
pub open spec fn black_cmds(black: ImageResource) -> Seq<Cmd> {
    commands::issued(seq![image::transition_barrier(black, LayoutUse::TransferClear, false)])
        + seq![clear_to_zero(black.image, black.subresource)] + commands::issued(
        seq![
            image::transition_barrier(
                image::moved(black, LayoutUse::TransferClear),
                LayoutUse::FragmentSampledAfterClear,
                false,
            ),
        ],
    )
}

/// The part of the pass that leaves the pyramid readable, and whether the spill
/// image was made writable along the way.
pub open spec fn pyramid_part(
    p: BloomPipelines,
    image: u64,
    mips: Seq<MipTarget>,
    cleared: bool,
    f: BloomFrame,
) -> Seq<Cmd> {
    let range = color_range(mips.len() as u32, 0, 1);
    if f.bloom {
        pyramid_cmds(p, image, mips, f) + commands::issued(
            seq![chain_to_sampled(image, range), spill_to_general(f.spill.image)],
        )
    } else if cleared {
        Seq::empty()
    } else {
        commands::issued(seq![chain_to_clear(image, range)]) + seq![clear_to_zero(image, range)]
            + commands::issued(
            if spill_live(f.bloom, f.godray) {
                seq![chain_cleared(image, range), spill_to_general(f.spill.image)]
            } else {
                seq![chain_cleared(image, range)]
            },
        )
    }
}

/// The part of the pass that leaves the image which the tonemap adds readable: the
/// spill image, or the black texel.
pub open spec fn spill_part(
    p: BloomPipelines,
    sample_view: u64,
    cleared: bool,
    black: ImageResource,
    black_primed: bool,
    f: BloomFrame,
) -> Seq<Cmd> {
    if spill_live(f.bloom, f.godray) {
        (if !f.bloom && cleared {
            commands::issued(seq![spill_to_general(f.spill.image)])
        } else {
            Seq::empty()
        }) + spill_cmds(p, sample_view, f) + commands::issued(
            seq![spill_to_sampled(f.spill.image)],
        )
    } else if black_primed {
        Seq::empty()
    } else {
        black_cmds(black)
    }
}

impl BloomChain {
    /// At least one level, and a countable number of them.
    pub open spec fn wf(&self) -> bool {
        1 <= self.mips.len() <= u32::MAX
    }
}

/// The image that stands in for the spill image.
pub fn black_desc(format: i32) -> (d: ImageDesc)
    ensures
        d == (ImageDesc {
            extent: Extent { width: 1, height: 1 },
            format,
            usage: USAGE_SAMPLED_CLEARED,
            layers: 1,
            aspect: ASPECT_COLOR,
            samples: SAMPLES_1,
        }),
{
    ImageDesc {
        extent: Extent { width: 1, height: 1 },
        format,
        usage: USAGE_SAMPLED_CLEARED,
        layers: 1,
        aspect: ASPECT_COLOR,
        samples: SAMPLES_1,
    }
}

impl BloomState {
    /// A primed black texel rests where the tonemap samples it.
    pub open spec fn wf(&self) -> bool {
        self.black_primed ==> self.black.layout == LAYOUT_SHADER_READ_ONLY
    }

    pub fn new(pipes: BloomPipelines, black: ImageResource) -> (s: BloomState)
        ensures
            s.wf(),
            s == (BloomState { pipes, black, black_primed: false }),
    {
        BloomState { pipes, black, black_primed: false }
    }

    pub fn black_view(&self) -> (v: u64)
        ensures
            v == self.black.view,
    {
        self.black.view()
    }

    /// Records the clear of the black texel, the first time.
    fn ensure_black(&mut self, cmds: &mut Vec<Cmd>)
        requires
            old(self).wf(),
        ensures
            final(self).wf(),
            final(self).black_primed,
            final(self).pipes == old(self).pipes,
            final(self).black == (ImageResource {
                layout: final(self).black.layout,
                ..old(self).black
            }),
            old(self).black_primed ==> *final(self) == *old(self) && final(cmds)@ == old(cmds)@,
            !old(self).black_primed ==> final(cmds)@ == old(cmds)@ + black_cmds(old(self).black),
    {
        if self.black_primed {
            return ;
        }
        let ghost orig = cmds@;
        let ghost black = self.black;
        self.black.transition(cmds, LayoutUse::TransferClear);
        commands::push_one(cmds, clear_to_zero(self.black.image(), self.black.subresource_range()));
        self.black.transition(cmds, LayoutUse::FragmentSampledAfterClear);
        self.black_primed = true;
        proof {
            assert(cmds@ =~= orig + black_cmds(black));
        }
    }

    /// Records the bloom and spill passes of a presented frame.
    pub fn record_bloom_pass(&mut self, cmds: &mut Vec<Cmd>, chain: &mut BloomChain, f: &BloomFrame)
        requires
            old(self).wf(),
            old(chain).wf(),
            f.tuning.spill_group > 0,
        ensures
            final(self).wf(),
            final(cmds)@ == old(cmds)@ + pyramid_part(
                old(self).pipes,
                old(chain).image,
                old(chain).mips@,
                old(chain).cleared,
                *f,
            ) + spill_part(
                old(self).pipes,
                old(chain).sample_view,
                old(chain).cleared,
                old(self).black,
                old(self).black_primed,
                *f,
            ),
            *final(chain) == (BloomChain { cleared: !f.bloom, ..*old(chain) }),
            final(self).pipes == old(self).pipes,
            final(self).black_primed == (old(self).black_primed || !spill_live(f.bloom, f.godray)),
            final(self).black == (ImageResource {
                layout: final(self).black.layout,
                ..old(self).black
            }),
            spill_live(f.bloom, f.godray) ==> final(self).black == old(self).black,
    {
        let ghost orig = cmds@;
        let ghost before = *chain;
        let ghost state = *self;
        let live: bool = spill_live(f.bloom, f.godray);
        let mut writable: bool = false;
        let levels: u32 = chain.mips.len() as u32;
        let range: Subresources = color_range(levels, 0, 1);
        if f.bloom {
            record_bloom_pyramid(cmds, self.pipes, chain, f);
            commands::issue_two(
                cmds,
                chain_to_sampled(chain.image, range),
                spill_to_general(f.spill.image),
            );
            writable = true;
        } else if !chain.cleared {
            commands::issue_one(cmds, chain_to_clear(chain.image, range));
            commands::push_one(cmds, clear_to_zero(chain.image, range));
            if live {
                commands::issue_two(
                    cmds,
                    chain_cleared(chain.image, range),
                    spill_to_general(f.spill.image),
                );
                writable = true;
            } else {
                commands::issue_one(cmds, chain_cleared(chain.image, range));
            }
            chain.cleared = true;
        }
        let ghost first = pyramid_part(
            state.pipes,
            before.image,
            before.mips@,
            before.cleared,
            *f,
        );
        proof {
            assert(cmds@ =~= orig + first);
            assert(writable == (live && (f.bloom || !before.cleared)));
        }
        if live {
            if !writable {
                commands::issue_one(cmds, spill_to_general(f.spill.image));
            }
            record_spill_dispatch(cmds, self.pipes, chain.sample_view, f);
            commands::issue_one(cmds, spill_to_sampled(f.spill.image));
        } else {
            self.ensure_black(cmds);
        }
        proof {
            assert(cmds@ =~= orig + first + spill_part(
                state.pipes,
                before.sample_view,
                before.cleared,
                state.black,
                state.black_primed,
                *f,
            ));
        }
    }
}

/// Records the pyramid, which is then no longer black.
fn record_bloom_pyramid(
    cmds: &mut Vec<Cmd>,
    p: BloomPipelines,
    chain: &mut BloomChain,
    f: &BloomFrame,
)
    requires
        old(chain).wf(),
    ensures
        final(cmds)@ == old(cmds)@ + pyramid_cmds(p, old(chain).image, old(chain).mips@, *f),
        *final(chain) == (BloomChain { cleared: false, ..*old(chain) }),
{
    let ghost orig = cmds@;
    chain.cleared = false;
    let levels: u32 = chain.mips.len() as u32;
    commands::issue_two(
        cmds,
        hdr_to_compute(f.hdr.image),
        chain_to_general(chain.image, color_range(levels, 0, 1)),
    );
    let mut tuning: Vec<u32> = Vec::new();
    tuning.push(f.tuning.exposure);
    tuning.push(f.tuning.thr_lo);
    tuning.push(f.tuning.thr_hi);
    tuning.push(f.tuning.thr_scale);
    let top: MipTarget = chain.mips[0];
    let ghost opened = cmds@;
    cmds.push(Cmd::BindPipeline { pipeline: p.threshold });
    cmds.push(sampled_bind(0, f.hdr.view, p.sampler, LAYOUT_SHADER_READ_ONLY));
    cmds.push(storage_bind(2, top.view));
    pyramid::record_fill(cmds, p.layout, top.extent, f.render_extent, &tuning);
    proof {
        assert(tuning@ =~= tuning_words(f.tuning));
        assert(cmds@ =~= opened + threshold_cmds(p, chain.mips@, *f));
    }
    cmds.push(Cmd::BindPipeline { pipeline: p.downsample });
    pyramid::record_levels(cmds, p.layout, &chain.mips, &tuning);
    proof {
        assert(cmds@ =~= orig + pyramid_cmds(p, chain.image, chain.mips@, *f));
    }
}

/// Records the spill dispatch.
fn record_spill_dispatch(cmds: &mut Vec<Cmd>, p: BloomPipelines, sample_view: u64, f: &BloomFrame)
    requires
        f.tuning.spill_group > 0,
    ensures
        final(cmds)@ == old(cmds)@ + spill_cmds(p, sample_view, *f),
{
    let ghost orig = cmds@;
    let (s, atan_s): (u32, u32) = match f.warp {
        WarpMap::Identity => (0, 0),
        WarpMap::Active { s, atan_s } => (s, atan_s),
    };
    let strength: u32 = if f.bloom {
        f.tuning.strength
    } else {
        0
    };
    let mut words: Vec<u32> = Vec::new();
    words.push(f.spill.extent.width);
    words.push(f.spill.extent.height);
    words.push(s);
    words.push(atan_s);
    words.push(f.godray.sun_u);
    words.push(f.godray.sun_v);
    words.push(f.godray.strength);
    words.push(f.godray.jitter_u);
    words.push(f.godray.tint_r);
    words.push(f.godray.tint_g);
    words.push(f.godray.tint_b);
    words.push(f.godray.jitter_v);
    words.push(strength);
    words.push(0);
    words.push(0);
    words.push(0);
    proof {
        assert(words@ =~= spill_words(*f));
    }
    cmds.push(Cmd::BindPipeline { pipeline: p.spill });
    cmds.push(sampled_bind(0, sample_view, p.composite_sampler, LAYOUT_SHADER_READ_ONLY));
    cmds.push(sampled_bind(1, f.depth_view, p.depth_sampler, SAMPLEABLE_DEPTH_REST_LAYOUT));
    cmds.push(storage_bind(2, f.spill.view));
    cmds.push(Cmd::PushSet { layout: p.spill_layout });
    pyramid::record_pushed(cmds, &words);
    cmds.push(Cmd::PushConstants { layout: p.spill_layout });
    cmds.push(pyramid::pixel_dispatch(f.spill.extent, f.tuning.spill_group));
    proof {
        assert(cmds@ =~= orig + spill_cmds(p, sample_view, *f));
    }
}

/// While bloom stays off, the pyramid is cleared in the first frame and left alone
/// in every later one.
pub proof fn law_bloom_off_clears_once(
    p: BloomPipelines,
    image: u64,
    mips: Seq<MipTarget>,
    cleared: bool,
    f: BloomFrame,
)
    requires
        !f.bloom,
    ensures
        pyramid_part(p, image, mips, true, f) == Seq::<Cmd>::empty(),
        cleared || pyramid_part(p, image, mips, cleared, f).contains(
            clear_to_zero(image, color_range(mips.len() as u32, 0, 1)),
        ),
{
    if !cleared {
        let part = pyramid_part(p, image, mips, cleared, f);
        assert(part[2] == clear_to_zero(image, color_range(mips.len() as u32, 0, 1)));
    }
}

/// The barriers of a plan that act on `image`.
pub open spec fn barriers_on(cmds: Seq<Cmd>, image: u64) -> Seq<ImageBarrier>
    decreases cmds.len(),
{
    if cmds.len() == 0 {
        Seq::empty()
    } else {
        let rest = barriers_on(cmds.drop_last(), image);
        match cmds.last() {
            Cmd::ImageBarrier(b) if b.image == image => rest.push(b),
            _ => rest,
        }
    }
}

/// Barriers of two plans, one after the other.
proof fn lemma_barriers_add(a: Seq<Cmd>, b: Seq<Cmd>, image: u64)
    ensures
        barriers_on(a + b, image) == barriers_on(a, image) + barriers_on(b, image),
    decreases b.len(),
{
    if b.len() == 0 {
        assert(a + b =~= a);
        assert(barriers_on(a, image) + barriers_on(b, image) =~= barriers_on(a, image));
    } else {
        assert((a + b).drop_last() =~= a + b.drop_last());
        lemma_barriers_add(a, b.drop_last(), image);
        assert(barriers_on(a + b, image) =~= barriers_on(a, image) + barriers_on(b, image));
    }
}

/// No barrier of `cmds` acts on `image`.
spec fn untouched(cmds: Seq<Cmd>, image: u64) -> bool {
    forall|i: int|
        0 <= i < cmds.len() ==> !(#[trigger] cmds[i] matches Cmd::ImageBarrier(b) && b.image
            == image)
}

proof fn lemma_untouched(cmds: Seq<Cmd>, image: u64)
    requires
        untouched(cmds, image),
    ensures
        barriers_on(cmds, image) == Seq::<ImageBarrier>::empty(),
    decreases cmds.len(),
{
    if cmds.len() > 0 {
        let last = cmds[cmds.len() - 1];
        assert(!(last matches Cmd::ImageBarrier(b) && b.image == image));
        assert forall|i: int| 0 <= i < cmds.drop_last().len() implies !(
        #[trigger] cmds.drop_last()[i] matches Cmd::ImageBarrier(b) && b.image == image) by {
            assert(!(cmds[i] matches Cmd::ImageBarrier(b) && b.image == image));
        }
        lemma_untouched(cmds.drop_last(), image);
    }
}

/// Barriers among the levels: there are none.
proof fn lemma_levels_untouched(
    layout: u64,
    mips: Seq<MipTarget>,
    tail: Seq<u32>,
    n: int,
    image: u64,
)
    ensures
        untouched(pyramid::levels_cmds(layout, mips, tail, n), image),
    decreases n,
{
    if n > 1 {
        lemma_levels_untouched(layout, mips, tail, n - 1, image);
        let a = pyramid::levels_cmds(layout, mips, tail, n - 1);
        let b = pyramid::level_cmds(layout, mips, tail, n - 1);
        assert(untouched(b, image));
        assert forall|i: int| 0 <= i < (a + b).len() implies !(
        #[trigger] (a + b)[i] matches Cmd::ImageBarrier(c) && c.image == image) by {
            if i < a.len() {
                assert(!(a[i] matches Cmd::ImageBarrier(c) && c.image == image));
            } else {
                let j = i - a.len();
                assert(!(b[j] matches Cmd::ImageBarrier(c) && c.image == image));
            }
        }
    }
}

/// A written spill image is transitioned exactly twice: to be written before the
/// dispatch, and to be sampled by the tonemap after it. A skipped one is left alone.
#[verifier::rlimit(40)]
pub proof fn law_spill_is_written_then_sampled(
    p: BloomPipelines,
    image: u64,
    sample_view: u64,
    mips: Seq<MipTarget>,
    cleared: bool,
    black: ImageResource,
    black_primed: bool,
    f: BloomFrame,
)
    requires
        f.spill.image != image,
        f.spill.image != f.hdr.image,
        f.spill.image != black.image,
    ensures
        barriers_on(
            pyramid_part(p, image, mips, cleared, f) + spill_part(
                p,
                sample_view,
                cleared,
                black,
                black_primed,
                f,
            ),
            f.spill.image,
        ) == if spill_live(f.bloom, f.godray) {
            seq![spill_to_general(f.spill.image), spill_to_sampled(f.spill.image)]
        } else {
            Seq::empty()
        },
{
    let s = f.spill.image;
    let range = color_range(mips.len() as u32, 0, 1);
    let live = spill_live(f.bloom, f.godray);
    let a = pyramid_part(p, image, mips, cleared, f);
    let b = spill_part(p, sample_view, cleared, black, black_primed, f);
    lemma_barriers_add(a, b, s);
    if f.bloom {
        let built = pyramid_cmds(p, image, mips, f);
        let closing = commands::issued(
            seq![chain_to_sampled(image, range), spill_to_general(s)],
        );
        lemma_pyramid_untouched(p, image, mips, f, s);
        lemma_untouched(built, s);
        lemma_barriers_add(built, closing, s);
        lemma_pair(chain_to_sampled(image, range), spill_to_general(s), s);
    } else if !cleared {
        let x = commands::issued(seq![chain_to_clear(image, range)]);
        let y = seq![clear_to_zero(image, range)];
        lemma_untouched(x, s);
        lemma_untouched(y, s);
        lemma_untouched(x + y, s);
        if live {
            let z = commands::issued(seq![chain_cleared(image, range), spill_to_general(s)]);
            lemma_barriers_add(x + y, z, s);
            lemma_pair(chain_cleared(image, range), spill_to_general(s), s);
        } else {
            let z = commands::issued(seq![chain_cleared(image, range)]);
            lemma_untouched(z, s);
            lemma_barriers_add(x + y, z, s);
        }
    } else {
        lemma_untouched(a, s);
    }
    if live {
        let d = spill_cmds(p, sample_view, f);
        let last = commands::issued(seq![spill_to_sampled(s)]);
        lemma_untouched(d, s);
        lemma_single(spill_to_sampled(s), s);
        if !f.bloom && cleared {
            let w = commands::issued(seq![spill_to_general(s)]);
            lemma_single(spill_to_general(s), s);
            lemma_barriers_add(w, d, s);
            lemma_barriers_add(w + d, last, s);
        } else {
            lemma_barriers_add(d, last, s);
            assert(b =~= d + last);
        }
    } else if black_primed {
        lemma_untouched(b, s);
    } else {
        lemma_untouched(b, s);
    }
    assert(barriers_on(a, s) + barriers_on(b, s) =~= if live {
        seq![spill_to_general(s), spill_to_sampled(s)]
    } else {
        Seq::empty()
    });
}

/// Building the pyramid transitions no other image than the frame and the pyramid.
proof fn lemma_pyramid_untouched(
    p: BloomPipelines,
    image: u64,
    mips: Seq<MipTarget>,
    f: BloomFrame,
    other: u64,
)
    requires
        other != image,
        other != f.hdr.image,
    ensures
        untouched(pyramid_cmds(p, image, mips, f), other),
{
    let n = mips.len() as int;
    let levels = pyramid::levels_cmds(p.layout, mips, tuning_words(f.tuning), n);
    lemma_levels_untouched(p.layout, mips, tuning_words(f.tuning), n, other);
    let whole = pyramid_cmds(p, image, mips, f);
    let start = whole.len() - levels.len();
    assert forall|i: int| 0 <= i < whole.len() implies !(
    #[trigger] whole[i] matches Cmd::ImageBarrier(b) && b.image == other) by {
        if i >= start {
            assert(whole[i] == levels[i - start]);
            assert(!(levels[i - start] matches Cmd::ImageBarrier(b) && b.image == other));
        }
    }
}

/// One issued barrier on `image`.
proof fn lemma_single(b: ImageBarrier, image: u64)
    requires
        b.image == image,
    ensures
        barriers_on(commands::issued(seq![b]), image) == seq![b],
{
    let c = commands::issued(seq![b]);
    assert(c =~= seq![Cmd::ImageBarrier(b), Cmd::Barriers]);
    let first = c.drop_last();
    assert(first =~= seq![Cmd::ImageBarrier(b)]);
    assert(first.drop_last() =~= Seq::<Cmd>::empty());
    assert(barriers_on(first.drop_last(), image) =~= Seq::<ImageBarrier>::empty());
    assert(barriers_on(first, image) =~= seq![b]);
}

/// Two barriers issued together, of which the second acts on `image`.
proof fn lemma_pair(a: ImageBarrier, b: ImageBarrier, image: u64)
    requires
        a.image != image,
        b.image == image,
    ensures
        barriers_on(commands::issued(seq![a, b]), image) == seq![b],
{
    let c = commands::issued(seq![a, b]);
    assert(c =~= seq![Cmd::ImageBarrier(a), Cmd::ImageBarrier(b), Cmd::Barriers]);
    let two = c.drop_last();
    assert(two =~= seq![Cmd::ImageBarrier(a), Cmd::ImageBarrier(b)]);
    let one = two.drop_last();
    assert(one =~= seq![Cmd::ImageBarrier(a)]);
    lemma_untouched(one, image);
    assert(barriers_on(two, image) =~= seq![b]);
}

proof fn lemma_threshold_played(
    p: BloomPipelines,
    mips: Seq<MipTarget>,
    f: BloomFrame,
    g: Gpu,
    staging: Seq<u8>,
)
    requires
        mips.len() >= 1,
        g.fresh(),
    ensures
        ({
            let after = playback::play(g, threshold_cmds(p, mips, f), staging);
            let d = after.dispatches.last();
            &&& after.fresh()
            &&& after.dispatches == g.dispatches.push(d)
            &&& d.pipeline == p.threshold
            &&& d.bindings[0] == (Binding::Sampled {
                view: f.hdr.view,
                sampler: p.sampler,
                layout: LAYOUT_SHADER_READ_ONLY,
            })
            &&& pyramid::fills_level(d, mips[0], f.render_extent, tuning_words(f.tuning))
        }),
{
    let head = seq![
        Cmd::BindPipeline { pipeline: p.threshold },
        sampled_bind(0, f.hdr.view, p.sampler, LAYOUT_SHADER_READ_ONLY),
        storage_bind(2, mips[0].view),
    ];
    let words = tuning_words(f.tuning);
    let run = pyramid::fill(p.layout, mips[0].extent, f.render_extent, words);
    playback::lemma_play_concat(g, head, run, staging);
    playback::lemma_play_three(g, head[0], head[1], head[2], staging);
    let g1 = playback::play(g, head, staging);
    pyramid::lemma_fill_played(
        g1,
        p.layout,
        mips[0].extent,
        f.render_extent,
        words,
        staging,
    );
}

/// The bloom pyramid is built from the frame down: the first dispatch samples the frame and
/// fills the top level, every further one reduces the level above it, and all are told the
/// exposure and the threshold curve. Without bloom nothing is dispatched.
pub proof fn law_bloom_is_built_from_the_frame(
    p: BloomPipelines,
    image: u64,
    mips: Seq<MipTarget>,
    cleared: bool,
    f: BloomFrame,
    g: Gpu,
    staging: Seq<u8>,
)
    requires
        mips.len() >= 1,
        g.fresh(),
    ensures
        ({
            let after = playback::play(g, pyramid_part(p, image, mips, cleared, f), staging);
            let ran = g.dispatches.len() as int;
            let top = after.dispatches[ran];
            let t = f.tuning;
            let curve = seq![t.exposure, t.thr_lo, t.thr_hi, t.thr_scale];
            &&& after.fresh()
            &&& !f.bloom ==> after.dispatches == g.dispatches
            &&& f.bloom ==> {
                &&& after.dispatches.len() == ran + mips.len()
                &&& top.pipeline == p.threshold
                &&& top.bindings[0] == (Binding::Sampled {
                    view: f.hdr.view,
                    sampler: p.sampler,
                    layout: LAYOUT_SHADER_READ_ONLY,
                })
                &&& pyramid::fills_level(top, mips[0], f.render_extent, curve)
                &&& forall|i: int|
                    1 <= i < mips.len() ==> #[trigger] pyramid::level_reduced(
                        after.dispatches,
                        ran,
                        p.downsample,
                        mips,
                        curve,
                        i,
                    )
            }
        }),
{
    let ran = g.dispatches.len() as int;
    let n = mips.len() as int;
    let range = color_range(mips.len() as u32, 0, 1);
    let words = tuning_words(f.tuning);
    if f.bloom {
        let entry = seq![hdr_to_compute(f.hdr.image), chain_to_general(image, range)];
        let first = threshold_cmds(p, mips, f);
        let bind = Cmd::BindPipeline { pipeline: p.downsample };
        let rest = pyramid::levels_cmds(p.layout, mips, words, n);
        let exit = seq![chain_to_sampled(image, range), spill_to_general(f.spill.image)];
        let built = commands::issued(entry) + first + seq![bind] + rest;
        playback::lemma_play_concat(g, built, commands::issued(exit), staging);
        playback::lemma_play_concat(
            g,
            commands::issued(entry) + first + seq![bind],
            rest,
            staging,
        );
        playback::lemma_play_concat(g, commands::issued(entry) + first, seq![bind], staging);
        playback::lemma_play_concat(g, commands::issued(entry), first, staging);
        playback::lemma_play_issued(g, entry, staging);
        let g1 = playback::play(g, first, staging);
        let g2 = playback::play(g1, seq![bind], staging);
        let g3 = playback::play(g2, rest, staging);
        lemma_threshold_played(p, mips, f, g, staging);
        playback::lemma_play_one(g1, bind, staging);
        pyramid::law_levels_are_reduced_from_the_one_above(
            p.layout,
            mips,
            words,
            n,
            g2,
            staging,
        );
        playback::lemma_play_issued(g3, exit, staging);
        assert(g3.dispatches[ran] == g2.dispatches[ran]);
    } else if cleared {
        playback::lemma_play_nothing(g, staging);
    } else {
        let entry = seq![chain_to_clear(image, range)];
        let clear = clear_to_zero(image, range);
        let exit = if spill_live(f.bloom, f.godray) {
            seq![chain_cleared(image, range), spill_to_general(f.spill.image)]
        } else {
            seq![chain_cleared(image, range)]
        };
        playback::lemma_play_concat(
            g,
            commands::issued(entry) + seq![clear],
            commands::issued(exit),
            staging,
        );
        playback::lemma_play_concat(g, commands::issued(entry), seq![clear], staging);
        playback::lemma_play_issued(g, entry, staging);
        playback::lemma_play_one(g, clear, staging);
        playback::lemma_play_issued(g, exit, staging);
    }
}

proof fn lemma_spill_played(
    p: BloomPipelines,
    sample_view: u64,
    f: BloomFrame,
    g: Gpu,
    staging: Seq<u8>,
)
    requires
        g.fresh(),
        f.tuning.spill_group > 0,
    ensures
        ({
            let after = playback::play(g, spill_cmds(p, sample_view, f), staging);
            let d = after.dispatches.last();
            &&& after.fresh()
            &&& after.dispatches == g.dispatches.push(d)
            &&& d.pipeline == p.spill
            &&& d.bindings[0] == (Binding::Sampled {
                view: sample_view,
                sampler: p.composite_sampler,
                layout: LAYOUT_SHADER_READ_ONLY,
            })
            &&& d.bindings[1] == (Binding::Sampled {
                view: f.depth_view,
                sampler: p.depth_sampler,
                layout: SAMPLEABLE_DEPTH_REST_LAYOUT,
            })
            &&& d.bindings[2] == (Binding::StorageImage {
                view: f.spill.view,
                layout: LAYOUT_GENERAL,
            })
            &&& d.push_words == spill_words(f)
            &&& playback::covers_pixels(
                d,
                f.spill.extent.width,
                f.spill.extent.height,
                f.tuning.spill_group,
            )
        }),
{
    let head = seq![
        Cmd::BindPipeline { pipeline: p.spill },
        sampled_bind(0, sample_view, p.composite_sampler, LAYOUT_SHADER_READ_ONLY),
        sampled_bind(1, f.depth_view, p.depth_sampler, SAMPLEABLE_DEPTH_REST_LAYOUT),
        storage_bind(2, f.spill.view),
        Cmd::PushSet { layout: p.spill_layout },
    ];
    let words = spill_words(f);
    let push = Cmd::PushConstants { layout: p.spill_layout };
    let run = pyramid::dispatch_over(f.spill.extent, f.tuning.spill_group);
    let listed = pyramid::pushed(words);
    playback::lemma_play_concat(g, head + listed, seq![push, run], staging);
    playback::lemma_play_concat(g, head, listed, staging);
    let g1 = playback::play(g, head, staging);
    assert(g1.staged_bindings.dom().is_empty() && g1 == (Gpu {
        pipeline: p.spill,
        bindings: g1.bindings,
        staged_bindings: g1.staged_bindings,
        ..g
    }) && g1.bindings[0] == (Binding::Sampled {
        view: sample_view,
        sampler: p.composite_sampler,
        layout: LAYOUT_SHADER_READ_ONLY,
    }) && g1.bindings[1] == (Binding::Sampled {
        view: f.depth_view,
        sampler: p.depth_sampler,
        layout: SAMPLEABLE_DEPTH_REST_LAYOUT,
    }) && g1.bindings[2] == (Binding::StorageImage {
        view: f.spill.view,
        layout: LAYOUT_GENERAL,
    })) by {
        reveal_with_fuel(playback::upto, 6);
    }
    playback::lemma_play_push_words(g1, words, staging);
    assert(g1.staged_words + words =~= words);
    let g2 = playback::play(g1, listed, staging);
    playback::lemma_play_two(g2, push, run, staging);
    pyramid::law_dispatch_covers_the_level(f.spill.extent, f.tuning.spill_group);
}

/// The spill image is filled by one dispatch where anything spills, and by none otherwise.
/// The dispatch samples the pyramid and the depth, stores to the spill image, and finds
/// each of its parameters in its place.
pub proof fn law_the_spill_is_filled_once(
    p: BloomPipelines,
    sample_view: u64,
    cleared: bool,
    black: ImageResource,
    black_primed: bool,
    f: BloomFrame,
    g: Gpu,
    staging: Seq<u8>,
)
    requires
        g.fresh(),
        f.tuning.spill_group > 0,
    ensures
        ({
            let cmds = spill_part(p, sample_view, cleared, black, black_primed, f);
            let after = playback::play(g, cmds, staging);
            let d = after.dispatches.last();
            let w = d.push_words;
            let live = f.bloom || 0 < f.godray.strength <= 0x7F80_0000;
            &&& after.fresh()
            &&& !live ==> after.dispatches == g.dispatches
            &&& live ==> {
                &&& after.dispatches == g.dispatches.push(d)
                &&& d.pipeline == p.spill
                &&& d.bindings[0] == (Binding::Sampled {
                    view: sample_view,
                    sampler: p.composite_sampler,
                    layout: LAYOUT_SHADER_READ_ONLY,
                })
                &&& d.bindings[1] == (Binding::Sampled {
                    view: f.depth_view,
                    sampler: p.depth_sampler,
                    layout: SAMPLEABLE_DEPTH_REST_LAYOUT,
                })
                &&& d.bindings[2] == (Binding::StorageImage {
                    view: f.spill.view,
                    layout: LAYOUT_GENERAL,
                })
                &&& w.len() == 16
                &&& w[0] == f.spill.extent.width && w[1] == f.spill.extent.height
                &&& f.warp matches WarpMap::Active { s, atan_s } ==> w[2] == s && w[3] == atan_s
                &&& f.warp is Identity ==> w[2] == 0 && w[3] == 0
                &&& w[4] == f.godray.sun_u && w[5] == f.godray.sun_v
                &&& w[6] == f.godray.strength
                &&& w[7] == f.godray.jitter_u && w[11] == f.godray.jitter_v
                &&& w[8] == f.godray.tint_r && w[9] == f.godray.tint_g && w[10]
                    == f.godray.tint_b
                &&& f.bloom ==> w[12] == f.tuning.strength
                &&& !f.bloom ==> w[12] == 0
                &&& w[13] == 0 && w[14] == 0 && w[15] == 0
                &&& playback::covers_pixels(
                    d,
                    f.spill.extent.width,
                    f.spill.extent.height,
                    f.tuning.spill_group,
                )
            }
        }),
{
    if spill_live(f.bloom, f.godray) {
        let entry = if !f.bloom && cleared {
            commands::issued(seq![spill_to_general(f.spill.image)])
        } else {
            Seq::empty()
        };
        let exit = seq![spill_to_sampled(f.spill.image)];
        let run = spill_cmds(p, sample_view, f);
        playback::lemma_play_concat(g, entry + run, commands::issued(exit), staging);
        playback::lemma_play_concat(g, entry, run, staging);
        playback::lemma_play_issued(g, seq![spill_to_general(f.spill.image)], staging);
        playback::lemma_play_nothing(g, staging);
        lemma_spill_played(p, sample_view, f, g, staging);
        playback::lemma_play_issued(playback::play(g, run, staging), exit, staging);
    } else if black_primed {
        playback::lemma_play_nothing(g, staging);
    } else {
        let entry = seq![image::transition_barrier(black, LayoutUse::TransferClear, false)];
        let clear = clear_to_zero(black.image, black.subresource);
        let exit = seq![
            image::transition_barrier(
                image::moved(black, LayoutUse::TransferClear),
                LayoutUse::FragmentSampledAfterClear,
                false,
            ),
        ];
        playback::lemma_play_concat(
            g,
            commands::issued(entry) + seq![clear],
            commands::issued(exit),
            staging,
        );
        playback::lemma_play_concat(g, commands::issued(entry), seq![clear], staging);
        playback::lemma_play_issued(g, entry, staging);
        playback::lemma_play_one(g, clear, staging);
        playback::lemma_play_issued(g, exit, staging);
    }
}

/// The dispatches that build the pyramid.
spec fn build_cmds(p: BloomPipelines, mips: Seq<MipTarget>, f: BloomFrame) -> Seq<Cmd> {
    threshold_cmds(p, mips, f) + seq![Cmd::BindPipeline { pipeline: p.downsample }]
        + pyramid::levels_cmds(p.layout, mips, tuning_words(f.tuning), mips.len() as int)
}

/// The dispatches that build the pyramid sample the frame and write the levels.
proof fn lemma_build_reaches(p: BloomPipelines, mips: Seq<MipTarget>, f: BloomFrame, part: Part)
    requires
        mips.len() >= 1,
    ensures
        !part.views.contains(f.hdr.view) ==> layouts::all_reach(
            build_cmds(p, mips, f),
            part,
            LAYOUT_GENERAL,
            compute_write(),
        ),
        (forall|j: int| 0 <= j < mips.len() ==> !part.views.contains((#[trigger] mips[j]).view))
            ==> layouts::all_reach(
            build_cmds(p, mips, f),
            part,
            LAYOUT_SHADER_READ_ONLY,
            compute_sample(),
        ),
{
    let top = threshold_cmds(p, mips, f);
    let tail = tuning_words(f.tuning);
    let filling = pyramid::fill(p.layout, mips[0].extent, f.render_extent, tail);
    let rest = pyramid::levels_cmds(p.layout, mips, tail, mips.len() as int);
    let work = build_cmds(p, mips, f);
    let hdr = sampled_bind(0, f.hdr.view, p.sampler, LAYOUT_SHADER_READ_ONLY);
    assert(pyramid::is_level_view(mips, mips[0].view));
    assert forall|i: int| 0 <= i < work.len() implies (#[trigger] work[i] == hdr
        || pyramid::over_levels(work[i], mips)) by {
        if i < top.len() {
            assert(work[i] == top[i]);
            if i >= 3 {
                assert(top[i] == filling[i - 3]);
            }
        } else if i > top.len() {
            let k = i - top.len() - 1;
            assert(work[i] == rest[k]);
            pyramid::lemma_levels_over(p.layout, mips, tail, mips.len() as int, k);
        }
    }
    if !part.views.contains(f.hdr.view) {
        assert forall|i: int| 0 <= i < work.len() implies layouts::reaches(
            #[trigger] work[i],
            part,
            LAYOUT_GENERAL,
            compute_write(),
        ) by {
            if work[i] != hdr {
                pyramid::lemma_over_levels(work[i], mips, part);
            }
        }
    }
    if forall|j: int| 0 <= j < mips.len() ==> !part.views.contains((#[trigger] mips[j]).view) {
        assert forall|i: int| 0 <= i < work.len() implies layouts::reaches(
            #[trigger] work[i],
            part,
            LAYOUT_SHADER_READ_ONLY,
            compute_sample(),
        ) by {
            if work[i] != hdr {
                pyramid::lemma_over_levels(work[i], mips, part);
            }
        }
    }
}

/// The spill dispatch samples the pyramid and the depth and writes the spill image.
proof fn lemma_spill_reaches(p: BloomPipelines, sample_view: u64, f: BloomFrame, part: Part)
    requires
        !part.views.contains(f.depth_view),
    ensures
        !part.views.contains(f.spill.view) ==> layouts::all_reach(
            spill_cmds(p, sample_view, f),
            part,
            LAYOUT_SHADER_READ_ONLY,
            compute_sample(),
        ),
        !part.views.contains(sample_view) ==> layouts::all_reach(
            spill_cmds(p, sample_view, f),
            part,
            LAYOUT_GENERAL,
            compute_write(),
        ),
{
    let cmds = spill_cmds(p, sample_view, f);
    let words = pyramid::pushed(spill_words(f));
    let from = sampled_bind(0, sample_view, p.composite_sampler, LAYOUT_SHADER_READ_ONLY);
    let to = storage_bind(2, f.spill.view);
    assert forall|i: int| 0 <= i < cmds.len() implies (#[trigger] cmds[i] == from || cmds[i] == to
        || layouts::elsewhere(cmds[i], part)) by {
        if 5 <= i < 5 + words.len() {
            assert(cmds[i] == words[i - 5]);
        }
    }
}

/// The part of the pass behind the pyramid reaches the pyramid to sample it, if at all.
proof fn lemma_spill_part_reaches(
    p: BloomPipelines,
    sample_view: u64,
    cleared: bool,
    black: ImageResource,
    black_primed: bool,
    f: BloomFrame,
    part: Part,
)
    requires
        !part.views.contains(f.depth_view),
        !part.views.contains(f.spill.view),
        part.image != f.spill.image,
        part.image != black.image,
    ensures
        layouts::all_reach(
            spill_part(p, sample_view, cleared, black, black_primed, f),
            part,
            LAYOUT_SHADER_READ_ONLY,
            compute_sample(),
        ),
{
    let l = LAYOUT_SHADER_READ_ONLY;
    let a = compute_sample();
    let begin = commands::issued(seq![spill_to_general(f.spill.image)]);
    let end = commands::issued(seq![spill_to_sampled(f.spill.image)]);
    let first = if !f.bloom && cleared {
        begin
    } else {
        Seq::empty()
    };
    layouts::lemma_issued_elsewhere(seq![spill_to_general(f.spill.image)], part, l, a);
    layouts::lemma_issued_elsewhere(seq![spill_to_sampled(f.spill.image)], part, l, a);
    lemma_spill_reaches(p, sample_view, f, part);
    layouts::lemma_all_reach(first, spill_cmds(p, sample_view, f), part, l, a);
    layouts::lemma_all_reach(first + spill_cmds(p, sample_view, f), end, part, l, a);
    let clear = seq![image::transition_barrier(black, LayoutUse::TransferClear, false)];
    let show = seq![
        image::transition_barrier(
            image::moved(black, LayoutUse::TransferClear),
            LayoutUse::FragmentSampledAfterClear,
            false,
        ),
    ];
    let zero = seq![clear_to_zero(black.image, black.subresource)];
    layouts::lemma_issued_elsewhere(clear, part, l, a);
    layouts::lemma_issued_elsewhere(show, part, l, a);
    assert(layouts::all_reach(zero, part, l, a));
    layouts::lemma_all_reach(commands::issued(clear), zero, part, l, a);
    layouts::lemma_all_reach(
        commands::issued(clear) + zero,
        commands::issued(show),
        part,
        l,
        a,
    );
}

/// How the pyramid stands before the pass: void where it is built or cleared, and where the
/// clear of an earlier frame left it otherwise.
pub open spec fn pyramid_before(bloom: bool, cleared: bool) -> Held {
    if !bloom && cleared {
        layouts::at_rest(LAYOUT_SHADER_READ_ONLY, layouts::sampled_anywhere())
    } else {
        layouts::at_rest(LAYOUT_UNDEFINED, top_of_pipe())
    }
}

/// Along the pass every level of the pyramid is in the layouts that the commands name: the
/// shaders are let in to write it, or the clear is; that is waited for; and the spill
/// dispatch is let in to sample it. It ends up readable.
pub proof fn law_the_pyramid_finds_its_layouts(
    p: BloomPipelines,
    image: u64,
    sample_view: u64,
    mips: Seq<MipTarget>,
    cleared: bool,
    black: ImageResource,
    black_primed: bool,
    f: BloomFrame,
    part: Part,
)
    requires
        1 <= mips.len() <= u32::MAX,
        part.image == image,
        0 <= part.mip < mips.len(),
        part.layer == 0,
        image != f.hdr.image,
        image != f.spill.image,
        image != black.image,
        !part.views.contains(f.hdr.view),
        !part.views.contains(f.depth_view),
        !part.views.contains(f.spill.view),
    ensures
        ({
            let cmds = pyramid_part(p, image, mips, cleared, f) + spill_part(
                p,
                sample_view,
                cleared,
                black,
                black_primed,
                f,
            );
            let before = pyramid_before(f.bloom, cleared);
            &&& layouts::orderly(before, cmds, part)
            &&& layouts::after(before, cmds, part).layout == LAYOUT_SHADER_READ_ONLY
        }),
{
    let range = color_range(mips.len() as u32, 0, 1);
    let before = pyramid_before(f.bloom, cleared);
    let first = pyramid_part(p, image, mips, cleared, f);
    let last = spill_part(p, sample_view, cleared, black, black_primed, f);
    if f.bloom {
        lemma_pyramid_built(p, image, mips, cleared, f, part);
    } else if !cleared {
        let entry = seq![chain_to_clear(image, range)];
        let exit = if spill_live(f.bloom, f.godray) {
            seq![chain_cleared(image, range), spill_to_general(f.spill.image)]
        } else {
            seq![chain_cleared(image, range)]
        };
        layouts::lemma_cleared(before, entry, 0, clear_to_zero(image, range), exit, 0, part);
    }
    let mid = layouts::after(before, first, part);
    lemma_spill_part_reaches(p, sample_view, cleared, black, black_primed, f, part);
    layouts::lemma_uses(mid, last, part, compute_sample());
    layouts::lemma_concat(before, first, last, part);
}

proof fn lemma_pyramid_built(
    p: BloomPipelines,
    image: u64,
    mips: Seq<MipTarget>,
    cleared: bool,
    f: BloomFrame,
    part: Part,
)
    requires
        f.bloom,
        1 <= mips.len() <= u32::MAX,
        part.image == image,
        0 <= part.mip < mips.len(),
        part.layer == 0,
        image != f.hdr.image,
        image != f.spill.image,
        !part.views.contains(f.hdr.view),
    ensures
        ({
            let cmds = pyramid_part(p, image, mips, cleared, f);
            let before = pyramid_before(f.bloom, cleared);
            &&& layouts::orderly(before, cmds, part)
            &&& layouts::after(before, cmds, part) == layouts::at_rest(
                LAYOUT_SHADER_READ_ONLY,
                compute_sample(),
            )
        }),
{
    let range = color_range(mips.len() as u32, 0, 1);
    let before = pyramid_before(f.bloom, cleared);
    let entry = seq![hdr_to_compute(f.hdr.image), chain_to_general(image, range)];
    let exit = seq![chain_to_sampled(image, range), spill_to_general(f.spill.image)];
    let work = build_cmds(p, mips, f);
    layouts::lemma_issued(before, entry, part, 1);
    let h = layouts::after(before, commands::issued(entry), part);
    lemma_build_reaches(p, mips, f, part);
    layouts::lemma_uses(h, work, part, compute_write());
    layouts::lemma_concat(before, commands::issued(entry), work, part);
    layouts::lemma_issued(layouts::after(h, work, part), exit, part, 0);
    layouts::lemma_concat(before, commands::issued(entry) + work, commands::issued(exit), part);
    assert(commands::issued(entry) + work + commands::issued(exit) =~= pyramid_part(
        p,
        image,
        mips,
        cleared,
        f,
    ));
}

/// The color of the frame is sampled by the threshold only once whatever wrote it is waited
/// for, and stays where the tonemap samples it.
pub proof fn law_the_threshold_waits_for_the_color(
    p: BloomPipelines,
    image: u64,
    mips: Seq<MipTarget>,
    cleared: bool,
    f: BloomFrame,
    part: Part,
)
    requires
        f.bloom,
        mips.len() >= 1,
        part.image == f.hdr.image,
        part.mip == 0,
        part.layer == 0,
        image != f.hdr.image,
        f.spill.image != f.hdr.image,
        forall|j: int| 0 <= j < mips.len() ==> !part.views.contains((#[trigger] mips[j]).view),
    ensures
        ({
            let cmds = pyramid_part(p, image, mips, cleared, f);
            let before = Held {
                layout: LAYOUT_SHADER_READ_ONLY,
                ready: commands::no_access(),
                used: Some(hdr_written()),
            };
            &&& layouts::orderly(before, cmds, part)
            &&& layouts::after(before, cmds, part).layout == LAYOUT_SHADER_READ_ONLY
        }),
{
    let range = color_range(mips.len() as u32, 0, 1);
    let before = Held {
        layout: LAYOUT_SHADER_READ_ONLY,
        ready: commands::no_access(),
        used: Some(hdr_written()),
    };
    let entry = seq![hdr_to_compute(f.hdr.image), chain_to_general(image, range)];
    let exit = seq![chain_to_sampled(image, range), spill_to_general(f.spill.image)];
    let work = build_cmds(p, mips, f);
    layouts::lemma_issued(before, entry, part, 0);
    let h = layouts::after(before, commands::issued(entry), part);
    lemma_build_reaches(p, mips, f, part);
    layouts::lemma_issued_elsewhere(exit, part, LAYOUT_SHADER_READ_ONLY, compute_sample());
    let rest = work + commands::issued(exit);
    layouts::lemma_all_reach(
        work,
        commands::issued(exit),
        part,
        LAYOUT_SHADER_READ_ONLY,
        compute_sample(),
    );
    layouts::lemma_uses(h, rest, part, compute_sample());
    layouts::lemma_concat(before, commands::issued(entry), rest, part);
    assert(commands::issued(entry) + rest =~= pyramid_part(p, image, mips, cleared, f));
}

/// The spill image up to where it is writable.
proof fn lemma_spill_made_writable(
    p: BloomPipelines,
    image: u64,
    mips: Seq<MipTarget>,
    cleared: bool,
    f: BloomFrame,
    part: Part,
)
    requires
        spill_live(f.bloom, f.godray),
        f.bloom || !cleared,
        mips.len() >= 1,
        part.image == f.spill.image,
        part.mip == 0,
        part.layer == 0,
        image != f.spill.image,
        f.hdr.image != f.spill.image,
        !part.views.contains(f.hdr.view),
        forall|j: int| 0 <= j < mips.len() ==> !part.views.contains((#[trigger] mips[j]).view),
    ensures
        ({
            let cmds = pyramid_part(p, image, mips, cleared, f);
            let void = layouts::at_rest(LAYOUT_UNDEFINED, top_of_pipe());
            &&& layouts::orderly(void, cmds, part)
            &&& layouts::after(void, cmds, part) == layouts::at_rest(
                LAYOUT_GENERAL,
                compute_write(),
            )
        }),
{
    let range = color_range(mips.len() as u32, 0, 1);
    let void = layouts::at_rest(LAYOUT_UNDEFINED, top_of_pipe());
    let (head, exit) = if f.bloom {
        (
            commands::issued(seq![hdr_to_compute(f.hdr.image), chain_to_general(image, range)])
                + build_cmds(p, mips, f),
            seq![chain_to_sampled(image, range), spill_to_general(f.spill.image)],
        )
    } else {
        (
            commands::issued(seq![chain_to_clear(image, range)]) + seq![
                clear_to_zero(image, range),
            ],
            seq![chain_cleared(image, range), spill_to_general(f.spill.image)],
        )
    };
    let entry = if f.bloom {
        seq![hdr_to_compute(f.hdr.image), chain_to_general(image, range)]
    } else {
        seq![chain_to_clear(image, range)]
    };
    let work = build_cmds(p, mips, f);
    lemma_build_reaches(p, mips, f, part);
    layouts::lemma_issued_elsewhere(entry, part, LAYOUT_GENERAL, compute_write());
    layouts::lemma_issued_elsewhere(entry, part, LAYOUT_SHADER_READ_ONLY, compute_sample());
    assert forall|i: int| 0 <= i < head.len() implies layouts::elsewhere(#[trigger] head[i], part) by {
        if i < commands::issued(entry).len() {
            assert(head[i] == commands::issued(entry)[i]);
        } else if f.bloom {
            let k = i - commands::issued(entry).len();
            assert(head[i] == work[k]);
            assert(layouts::reaches(work[k], part, LAYOUT_GENERAL, compute_write()));
            assert(layouts::reaches(work[k], part, LAYOUT_SHADER_READ_ONLY, compute_sample()));
        }
    }
    layouts::lemma_elsewhere(void, head, part);
    layouts::lemma_issued(void, exit, part, 1);
    layouts::lemma_concat(void, head, commands::issued(exit), part);
    assert(head + commands::issued(exit) =~= pyramid_part(p, image, mips, cleared, f));
}

/// Along the pass the spill image is in the layouts that the commands name: from void it is
/// made writable, written, and handed to the tonemap once that is done.
pub proof fn law_the_spill_finds_its_layouts(
    p: BloomPipelines,
    image: u64,
    sample_view: u64,
    mips: Seq<MipTarget>,
    cleared: bool,
    black: ImageResource,
    black_primed: bool,
    f: BloomFrame,
    part: Part,
)
    requires
        spill_live(f.bloom, f.godray),
        mips.len() >= 1,
        part.image == f.spill.image,
        part.mip == 0,
        part.layer == 0,
        image != f.spill.image,
        f.hdr.image != f.spill.image,
        !part.views.contains(f.hdr.view),
        !part.views.contains(f.depth_view),
        !part.views.contains(sample_view),
        forall|j: int| 0 <= j < mips.len() ==> !part.views.contains((#[trigger] mips[j]).view),
    ensures
        ({
            let cmds = pyramid_part(p, image, mips, cleared, f) + spill_part(
                p,
                sample_view,
                cleared,
                black,
                black_primed,
                f,
            );
            let void = layouts::at_rest(LAYOUT_UNDEFINED, top_of_pipe());
            &&& layouts::orderly(void, cmds, part)
            &&& layouts::after(void, cmds, part) == layouts::at_rest(
                LAYOUT_SHADER_READ_ONLY,
                fragment_sample(),
            )
        }),
{
    let void = layouts::at_rest(LAYOUT_UNDEFINED, top_of_pipe());
    let first = pyramid_part(p, image, mips, cleared, f);
    let last = spill_part(p, sample_view, cleared, black, black_primed, f);
    let begin = if !f.bloom && cleared {
        commands::issued(seq![spill_to_general(f.spill.image)])
    } else {
        Seq::empty()
    };
    if !f.bloom && cleared {
        layouts::lemma_elsewhere(void, first, part);
        layouts::lemma_issued(void, seq![spill_to_general(f.spill.image)], part, 0);
    } else {
        lemma_spill_made_writable(p, image, mips, cleared, f, part);
        layouts::lemma_elsewhere(layouts::after(void, first, part), begin, part);
    }
    layouts::lemma_concat(void, first, begin, part);
    let h = layouts::after(void, first + begin, part);
    let work = spill_cmds(p, sample_view, f);
    let exit = seq![spill_to_sampled(f.spill.image)];
    lemma_spill_reaches(p, sample_view, f, part);
    layouts::lemma_uses(h, work, part, compute_write());
    layouts::lemma_concat(void, first + begin, work, part);
    layouts::lemma_issued(layouts::after(h, work, part), exit, part, 0);
    layouts::lemma_concat(void, first + begin + work, commands::issued(exit), part);
    assert(first + begin + work + commands::issued(exit) =~= first + last);
}

/// The black texel is cleared behind whatever came before, and handed to the tonemap once
/// that is done.
pub proof fn law_the_black_texel_finds_its_layouts(black: ImageResource, part: Part)
    requires
        part.image == black.image,
        layouts::holds(black.subresource, part),
    ensures
        ({
            let before = layouts::at_rest(black.layout, commands::no_access());
            &&& layouts::orderly(before, black_cmds(black), part)
            &&& layouts::after(before, black_cmds(black), part) == layouts::at_rest(
                LAYOUT_SHADER_READ_ONLY,
                fragment_sample(),
            )
        }),
{
    let before = layouts::at_rest(black.layout, commands::no_access());
    let entry = seq![image::transition_barrier(black, LayoutUse::TransferClear, false)];
    let exit = seq![
        image::transition_barrier(
            image::moved(black, LayoutUse::TransferClear),
            LayoutUse::FragmentSampledAfterClear,
            false,
        ),
    ];
    layouts::lemma_cleared(
        before,
        entry,
        0,
        clear_to_zero(black.image, black.subresource),
        exit,
        0,
        part,
    );
}

} // verus!
