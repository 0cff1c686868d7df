//! Scene exposure metering: the tile reduction pass, the readback ring and the
//! published value.
//!
//! Exposures are carried as the bits of a 32-bit float; the metering curve and the
//! temporal smoothing belong to the caller.

use vstd::prelude::*;

use crate::commands;
use crate::commands::Extent;
use crate::commands::{
    access_at, color_range, compute_write, fragment_sample, host_read, Binding, Cmd, ImageBarrier,
    ACCESS_COLOR_ATTACHMENT_WRITE, ACCESS_SHADER_SAMPLED_READ, NO_HANDOVER,
    LAYOUT_COLOR_ATTACHMENT, LAYOUT_SHADER_READ_ONLY, STAGE_COLOR_ATTACHMENT_OUTPUT,
    STAGE_COMPUTE_SHADER, WHOLE_SIZE,
};
use crate::memory::{
    find_memory_type, try_find_memory_type, MemoryProps, HOST_COHERENT,
};
use crate::layouts;
use crate::layouts::{Held, Part};
use crate::playback;
use crate::playback::Gpu;
use crate::pyramid;
use crate::rev;
use crate::rev::{FrameSlot, FRAMES_IN_FLIGHT};

verus! {

/// The bits of the neutral exposure, one.
pub const DEFAULT_EXPOSURE: u32 = 0x3F80_0000;

/// Threads along each side of one metering workgroup.
pub const METER_GROUP: u32 = 8;

/// Host-coherent memory that the host also reads fast.
pub const HOST_COHERENT_CACHED: u32 = 14;

/// The latest metered exposure, published for the frames composed next: one cell,
/// lent to whoever reads it.
#[derive(Debug)]
pub struct ExposureShared {
    bits: u32,
}

impl ExposureShared {
    pub closed spec fn published(&self) -> u32 {
        self.bits
    }

    pub fn new() -> (s: ExposureShared)
        ensures
            s.published() == DEFAULT_EXPOSURE,
    {
        ExposureShared { bits: DEFAULT_EXPOSURE }
    }

    pub fn store(&mut self, bits: u32)
        ensures
            final(self).published() == bits,
    {
        self.bits = bits;
    }

    pub fn load(&self) -> (bits: u32)
        ensures
            bits == self.published(),
    {
        self.bits
    }
}

/// The exposure of the next composed frame: the published one, pinned to one while
/// metering is off.
pub fn exposure_for_compose(metering: bool, shared: &ExposureShared) -> (bits: u32)
    ensures
        bits == if metering {
            shared.published()
        } else {
            DEFAULT_EXPOSURE
        },
{
    if !metering {
        return DEFAULT_EXPOSURE;
    }
    shared.load()
}

/// The tiles that cover `pixels`: at least one.
pub open spec fn tiles_over(pixels: int, tile: int) -> int {
    if pixels == 0 {
        1
    } else {
        commands::ceil_div(pixels, tile)
    }
}

fn tile_side(pixels: u32, tile: u32) -> (r: u32)
    requires
        tile > 0,
    ensures
        r == tiles_over(pixels as int, tile as int),
{
    proof {
        commands::law_ceil_div_covers(pixels as int, tile as int);
        if pixels == 0 {
            assert(0int % (tile as int) == 0 && 0int / (tile as int) == 0) by (nonlinear_arith)
                requires
                    tile > 0,
            ;
        } else {
            let q = commands::ceil_div(pixels as int, tile as int);
            assert(q > 0) by (nonlinear_arith)
                requires
                    q * tile >= pixels,
                    pixels > 0,
                    tile > 0,
            ;
        }
    }
    let n: u32 = commands::div_ceil(pixels, tile);
    if n == 0 {
        1
    } else {
        n
    }
}

/// The tile grid over an image of `extent` pixels.
pub fn tile_grid(extent: Extent, tile: u32) -> (r: Extent)
    requires
        tile > 0,
    ensures
        r.width == tiles_over(extent.width as int, tile as int),
        r.height == tiles_over(extent.height as int, tile as int),
{
    Extent { width: tile_side(extent.width, tile), height: tile_side(extent.height, tile) }
}

/// Bytes of one slot's buffer of `tile_count` tile means.
pub fn tile_means_size(tile_count: usize) -> (size: u64)
    requires
        tile_count * 4 <= usize::MAX,
    ensures
        size == 4 * (if tile_count == 0 {
            1
        } else {
            tile_count as int
        }),
{
    let n: usize = if tile_count == 0 {
        1
    } else {
        tile_count
    };
    (n * 4) as u64
}

/// The memory type of a tile-mean buffer: cached when there is such a type, else
/// plain host-coherent.
pub fn tile_means_memory_type(props: &MemoryProps, type_filter: u32) -> (r: u32)
    requires
        props.wf(),
        exists|j: int|
            0 <= j < props.types.len() && #[trigger] props.suitable(type_filter, HOST_COHERENT, j),
    ensures
        (exists|j: int|
            0 <= j < props.types.len() && #[trigger] props.suitable(
                type_filter,
                HOST_COHERENT_CACHED,
                j,
            )) ==> props.first_suitable(type_filter, HOST_COHERENT_CACHED, r as int),
        (forall|j: int|
            0 <= j < props.types.len() ==> !#[trigger] props.suitable(
                type_filter,
                HOST_COHERENT_CACHED,
                j,
            )) ==> props.first_suitable(type_filter, HOST_COHERENT, r as int),
{
    match try_find_memory_type(props, type_filter, HOST_COHERENT_CACHED) {
        Some(i) => i,
        None => find_memory_type(props, type_filter, HOST_COHERENT),
    }
}

/// The buffer that the host reads back this frame.
#[derive(Clone, Copy, Debug, PartialEq, Eq, Structural)]
pub struct ExposureRead {
    pub buf: u64,
}

/// The buffer that the device writes this frame.
#[derive(Clone, Copy, Debug, PartialEq, Eq, Structural)]
pub struct ExposureWrite {
    pub buf: u64,
}

/// The slots that a frame writes and reads, as `(write, read)`: the waited slot's
/// own buffer is the only one whose last write its fence proves complete.
pub fn slot_parity(waited: FrameSlot) -> (r: (usize, usize))
    ensures
        r.0 == waited.at(),
        r.1 == waited.at(),
{
    (waited.index(), waited.index())
}

/// One tile-mean buffer per slot.
pub struct ExposureRing {
    pub slots: [u64; FRAMES_IN_FLIGHT],
    pub tile_count: usize,
}

impl ExposureRing {
    /// The buffers are distinct.
    pub open spec fn wf(&self) -> bool {
        forall|i: int, j: int|
            0 <= i < j < FRAMES_IN_FLIGHT ==> #[trigger] self.slots[i] != #[trigger] self.slots[j]
    }

    /// The write and read views of the waited slot `s`.
    pub fn views(&self, s: FrameSlot) -> (r: (ExposureWrite, ExposureRead))
        requires
            s.wf(),
        ensures
            r.0.buf == self.slots[s.at()],
            r.1.buf == self.slots[s.at()],
    {
        let (write, read): (usize, usize) = slot_parity(s);
        (ExposureWrite { buf: self.slots[write] }, ExposureRead { buf: self.slots[read] })
    }

    /// The slot that a read view of this ring points at.
    pub fn slot_of(&self, read: ExposureRead) -> (r: Option<usize>)
        ensures
            r matches Some(i) ==> i < FRAMES_IN_FLIGHT && self.slots[i as int] == read.buf && (
            forall|k: int| 0 <= k < i ==> #[trigger] self.slots[k] != read.buf),
            r is None ==> forall|i: int|
                0 <= i < FRAMES_IN_FLIGHT ==> #[trigger] self.slots[i] != read.buf,
    {
        let mut i: usize = 0;
        while i < FRAMES_IN_FLIGHT
            invariant
                i <= FRAMES_IN_FLIGHT,
                forall|k: int| 0 <= k < i ==> #[trigger] self.slots[k] != read.buf,
            decreases FRAMES_IN_FLIGHT - i,
        {
            if self.slots[i] == read.buf {
                return Some(i);
            }
            i = i + 1;
        }
        None
    }
}

/// The metering pipeline and what it samples through.
#[derive(Clone, Copy, Debug, PartialEq, Eq, Structural)]
pub struct ExposureCompute {
    pub pipeline: u64,
    pub layout: u64,
    pub sampler: u64,
}

/// The image that holds the frame's linear color.
#[derive(Clone, Copy, Debug, PartialEq, Eq, Structural)]
pub struct HdrSource {
    pub image: u64,
    pub view: u64,
    /// The scene's own target, still in its attachment layout; otherwise a pass
    /// already left it readable by compute.
    pub offscreen: bool,
}

/// What the metering pass remembers between frames.
pub struct ExposureState {
    /// Tile grid over the metered image.
    pub tiles: Extent,
    pub hdr_dim: Extent,
    /// Last smoothed exposure.
    pub exposure: u32,
    pub shared: ExposureShared,
}

/// The color attachment of the scene made readable by compute.
pub open spec fn meter_pre(image: u64) -> ImageBarrier {
    ImageBarrier {
        image,
        src: access_at(STAGE_COLOR_ATTACHMENT_OUTPUT, ACCESS_COLOR_ATTACHMENT_WRITE),
        dst: access_at(STAGE_COMPUTE_SHADER, ACCESS_SHADER_SAMPLED_READ),
        old_layout: LAYOUT_COLOR_ATTACHMENT,
        new_layout: LAYOUT_SHADER_READ_ONLY,
        src_family: NO_HANDOVER,
        dst_family: NO_HANDOVER,
        range: color_range(1, 0, 1),
    }
}

/// The metered image handed on to the tonemap.
pub open spec fn meter_post(image: u64) -> ImageBarrier {
    ImageBarrier {
        image,
        src: access_at(STAGE_COMPUTE_SHADER, ACCESS_SHADER_SAMPLED_READ),
        dst: fragment_sample(),
        old_layout: LAYOUT_SHADER_READ_ONLY,
        new_layout: LAYOUT_SHADER_READ_ONLY,
        src_family: NO_HANDOVER,
        dst_family: NO_HANDOVER,
        range: color_range(1, 0, 1),
    }
}

/// The metering pass.
pub open spec fn exposure_cmds(
    s: ExposureState,
    p: ExposureCompute,
    hdr: HdrSource,
    write: ExposureWrite,
) -> Seq<Cmd> {
    commands::issued(
        if hdr.offscreen {
            seq![meter_pre(hdr.image)]
        } else {
            Seq::empty()
        },
    ) + seq![
        Cmd::BindPipeline { pipeline: p.pipeline },
        Cmd::Bind {
            binding: 0,
            what: Binding::Sampled {
                view: hdr.view,
                sampler: p.sampler,
                layout: LAYOUT_SHADER_READ_ONLY,
            },
        },
        Cmd::Bind {
            binding: 1,
            what: Binding::StorageBuffer { buffer: write.buf, offset: 0, range: WHOLE_SIZE },
        },
        Cmd::PushSet { layout: p.layout },
        Cmd::PushWord(s.hdr_dim.width),
        Cmd::PushWord(s.hdr_dim.height),
        Cmd::PushWord(s.tiles.width),
        Cmd::PushWord(s.tiles.height),
        Cmd::PushConstants { layout: p.layout },
        Cmd::Dispatch {
            x: commands::ceil_div(s.tiles.width as int, METER_GROUP as int) as u32,
            y: commands::ceil_div(s.tiles.height as int, METER_GROUP as int) as u32,
            z: 1,
        },
        Cmd::MemoryBarrier { src: compute_write(), dst: host_read() },
        Cmd::ImageBarrier(meter_post(hdr.image)),
        Cmd::Barriers,
    ]
}

impl ExposureState {
    /// The grid covers the image, and what is published is the last value.
    pub open spec fn wf(&self, tile: u32) -> bool {
        &&& self.tiles.width == tiles_over(self.hdr_dim.width as int, tile as int)
        &&& self.tiles.height == tiles_over(self.hdr_dim.height as int, tile as int)
        &&& self.shared.published() == self.exposure
    }

    /// Starts neutral, over an image of `render_extent` pixels.
    pub fn new(render_extent: Extent, tile: u32) -> (s: ExposureState)
        requires
            tile > 0,
        ensures
            s.wf(tile),
            s.hdr_dim == render_extent,
            s.exposure == DEFAULT_EXPOSURE,
    {
        ExposureState {
            tiles: tile_grid(render_extent, tile),
            hdr_dim: render_extent,
            exposure: DEFAULT_EXPOSURE,
            shared: ExposureShared::new(),
        }
    }

    /// The tiles of the grid, one mean each.
    pub fn tile_count(&self) -> (n: usize)
        requires
            self.tiles.width * self.tiles.height <= u32::MAX,
        ensures
            n == self.tiles.width * self.tiles.height,
    {
        (self.tiles.width * self.tiles.height) as usize
    }

    /// The published cell.
    pub fn shared(&self) -> (s: &ExposureShared)
        ensures
            *s == self.shared,
    {
        &self.shared
    }

    /// Metering was switched off: the exposure is one again, everywhere it is read.
    pub fn reset(&mut self)
        ensures
            final(self).exposure == DEFAULT_EXPOSURE,
            final(self).shared.published() == DEFAULT_EXPOSURE,
            final(self).tiles == old(self).tiles,
            final(self).hdr_dim == old(self).hdr_dim,
    {
        self.exposure = DEFAULT_EXPOSURE;
        self.shared.store(DEFAULT_EXPOSURE);
    }

    /// The exposure that the tonemap applies.
    pub fn current(&self) -> (bits: u32)
        ensures
            bits == self.exposure,
    {
        self.exposure
    }

    /// Takes over a newly metered exposure and publishes it.
    pub fn publish(&mut self, metered: u32)
        ensures
            final(self).exposure == metered,
            final(self).shared.published() == metered,
            final(self).tiles == old(self).tiles,
            final(self).hdr_dim == old(self).hdr_dim,
    {
        self.exposure = metered;
        self.shared.store(metered);
    }

    /// The image was resized; the metered exposure stays.
    pub fn recreate(&mut self, render_extent: Extent, tile: u32)
        requires
            tile > 0,
        ensures
            final(self).hdr_dim == render_extent,
            final(self).tiles.width == tiles_over(render_extent.width as int, tile as int),
            final(self).tiles.height == tiles_over(render_extent.height as int, tile as int),
            final(self).exposure == old(self).exposure,
            final(self).shared == old(self).shared,
    {
        self.tiles = tile_grid(render_extent, tile);
        self.hdr_dim = render_extent;
    }

    /// Records the metering pass, which leaves `hdr` readable by the tonemap.
    pub fn record_exposure_pass(
        &self,
        cmds: &mut Vec<Cmd>,
        p: ExposureCompute,
        hdr: HdrSource,
        write: ExposureWrite,
    )
        ensures
            final(cmds)@ == old(cmds)@ + exposure_cmds(*self, p, hdr, write),
    {
        let ghost orig = cmds@;
        let mut pre: Vec<ImageBarrier> = Vec::new();
        if hdr.offscreen {
            pre.push(
                ImageBarrier {
                    image: hdr.image,
                    src: access_at(STAGE_COLOR_ATTACHMENT_OUTPUT, ACCESS_COLOR_ATTACHMENT_WRITE),
                    dst: access_at(STAGE_COMPUTE_SHADER, ACCESS_SHADER_SAMPLED_READ),
                    old_layout: LAYOUT_COLOR_ATTACHMENT,
                    new_layout: LAYOUT_SHADER_READ_ONLY,
                    src_family: NO_HANDOVER,
                    dst_family: NO_HANDOVER,
                    range: color_range(1, 0, 1),
                },
            );
        }
        proof {
            assert(pre@ =~= if hdr.offscreen {
                seq![meter_pre(hdr.image)]
            } else {
                Seq::empty()
            });
        }
        commands::issue(cmds, &pre);
        cmds.push(Cmd::BindPipeline { pipeline: p.pipeline });
        cmds.push(
            Cmd::Bind {
                binding: 0,
                what: Binding::Sampled {
                    view: hdr.view,
                    sampler: p.sampler,
                    layout: LAYOUT_SHADER_READ_ONLY,
                },
            },
        );
        cmds.push(
            Cmd::Bind {
                binding: 1,
                what: Binding::StorageBuffer { buffer: write.buf, offset: 0, range: WHOLE_SIZE },
            },
        );
        cmds.push(Cmd::PushSet { layout: p.layout });
        cmds.push(Cmd::PushWord(self.hdr_dim.width));
        cmds.push(Cmd::PushWord(self.hdr_dim.height));
        cmds.push(Cmd::PushWord(self.tiles.width));
        cmds.push(Cmd::PushWord(self.tiles.height));
        cmds.push(Cmd::PushConstants { layout: p.layout });
        cmds.push(
            Cmd::Dispatch {
                x: commands::div_ceil(self.tiles.width, METER_GROUP),
                y: commands::div_ceil(self.tiles.height, METER_GROUP),
                z: 1,
            },
        );
        cmds.push(Cmd::MemoryBarrier { src: compute_write(), dst: host_read() });
        cmds.push(
            Cmd::ImageBarrier(
                ImageBarrier {
                    image: hdr.image,
                    src: access_at(STAGE_COMPUTE_SHADER, ACCESS_SHADER_SAMPLED_READ),
                    dst: fragment_sample(),
                    old_layout: LAYOUT_SHADER_READ_ONLY,
                    new_layout: LAYOUT_SHADER_READ_ONLY,
                    src_family: NO_HANDOVER,
                    dst_family: NO_HANDOVER,
                    range: color_range(1, 0, 1),
                },
            ),
        );
        cmds.push(Cmd::Barriers);
        proof {
            assert(cmds@ =~= orig + exposure_cmds(*self, p, hdr, write));
        }
    }
}

/// The tile grid covers the image in each direction, and no row or column of it
/// lies outside.
pub proof fn law_tiles_cover_the_image(pixels: int, tile: int)
    requires
        pixels >= 1,
        tile > 0,
    ensures
        tiles_over(pixels, tile) >= 1,
        tiles_over(pixels, tile) * tile >= pixels,
        (tiles_over(pixels, tile) - 1) * tile < pixels,
{
    commands::law_ceil_div_covers(pixels, tile);
    let q = commands::ceil_div(pixels, tile);
    assert(q >= 1) by (nonlinear_arith)
        requires
            q * tile >= pixels,
            pixels >= 1,
            tile > 0,
    ;
}

/// Two frames use the same buffer only when they are at least a whole ring apart,
/// so the fence of the slot proves the earlier write complete before it is read.
pub proof fn law_readback_is_fence_proven(ring: ExposureRing, writer: int, reader: int)
    requires
        ring.wf(),
        0 <= writer < reader,
        ring.slots[rev::slot_of_frame(writer)] == ring.slots[rev::slot_of_frame(reader)],
    ensures
        writer + FRAMES_IN_FLIGHT <= reader,
{
    let (a, b) = (rev::slot_of_frame(writer), rev::slot_of_frame(reader));
    if a < b {
        assert(ring.slots[a] != ring.slots[b]);
    } else if b < a {
        assert(ring.slots[b] != ring.slots[a]);
    }
    rev::law_slot_reuse_is_a_ring_apart(writer, reader);
}

/// Metering is one dispatch with a thread for each tile. It samples the frame, stores to
/// the buffer of the slot, and is told the size of the frame and then the grid.
pub proof fn law_metering_has_a_thread_per_tile(
    s: ExposureState,
    p: ExposureCompute,
    hdr: HdrSource,
    write: ExposureWrite,
    g: Gpu,
    staging: Seq<u8>,
)
    requires
        g.fresh(),
    ensures
        ({
            let after = playback::play(g, exposure_cmds(s, p, hdr, write), staging);
            let d = after.dispatches.last();
            &&& after.fresh()
            &&& after.dispatches == g.dispatches.push(d)
            &&& after.memory == (g.shader)(d)
            &&& d.pipeline == p.pipeline
            &&& d.bindings[0] == (Binding::Sampled {
                view: hdr.view,
                sampler: p.sampler,
                layout: LAYOUT_SHADER_READ_ONLY,
            })
            &&& d.bindings[1] == (Binding::StorageBuffer {
                buffer: write.buf,
                offset: 0,
                range: WHOLE_SIZE,
            })
            &&& d.push_words == seq![
                s.hdr_dim.width,
                s.hdr_dim.height,
                s.tiles.width,
                s.tiles.height,
            ]
            &&& playback::covers_pixels(d, s.tiles.width, s.tiles.height, 8)
        }),
{
    let entry = if hdr.offscreen {
        seq![meter_pre(hdr.image)]
    } else {
        Seq::empty()
    };
    let all = exposure_cmds(s, p, hdr, write);
    let bind = seq![
        Cmd::BindPipeline { pipeline: p.pipeline },
        Cmd::Bind {
            binding: 0,
            what: Binding::Sampled {
                view: hdr.view,
                sampler: p.sampler,
                layout: LAYOUT_SHADER_READ_ONLY,
            },
        },
        Cmd::Bind {
            binding: 1,
            what: Binding::StorageBuffer { buffer: write.buf, offset: 0, range: WHOLE_SIZE },
        },
    ];
    let sizes = seq![
        Cmd::PushSet { layout: p.layout },
        Cmd::PushWord(s.hdr_dim.width),
        Cmd::PushWord(s.hdr_dim.height),
        Cmd::PushWord(s.tiles.width),
        Cmd::PushWord(s.tiles.height),
    ];
    let push = Cmd::PushConstants { layout: p.layout };
    let run = pyramid::dispatch_over(s.tiles, METER_GROUP);
    let tail = seq![
        Cmd::MemoryBarrier { src: compute_write(), dst: host_read() },
        Cmd::ImageBarrier(meter_post(hdr.image)),
        Cmd::Barriers,
    ];
    assert(all =~= commands::issued(entry) + bind + sizes + seq![push, run] + tail);
    playback::lemma_play_concat(
        g,
        commands::issued(entry) + bind + sizes + seq![push, run],
        tail,
        staging,
    );
    playback::lemma_play_concat(
        g,
        commands::issued(entry) + bind + sizes,
        seq![push, run],
        staging,
    );
    playback::lemma_play_concat(g, commands::issued(entry) + bind, sizes, staging);
    playback::lemma_play_concat(g, commands::issued(entry), bind, staging);
    playback::lemma_play_issued(g, entry, staging);
    playback::lemma_play_three(g, bind[0], bind[1], bind[2], staging);
    let g1 = playback::play(g, bind, staging);
    pyramid::lemma_sizes_played(g1, p.layout, s.hdr_dim, s.tiles, staging);
    let g2 = playback::play(g1, sizes, staging);
    playback::lemma_play_two(g2, push, run, staging);
    let g3 = playback::play(g2, seq![push, run], staging);
    playback::lemma_play_orders(g3, tail, staging);
    pyramid::law_dispatch_covers_the_level(s.tiles, METER_GROUP);
}

/// Metering takes the color from where the pass wrote it to where the tonemap samples it:
/// what the pass wrote is waited for before it is metered, the metering is waited for
/// before the tonemap, and the image is in the layout that each of them names. What the
/// shader measured is made visible to the host, behind the dispatch.
pub proof fn law_metering_hands_the_color_on(
    s: ExposureState,
    c: ExposureCompute,
    hdr: HdrSource,
    write: ExposureWrite,
    p: Part,
)
    requires
        p.image == hdr.image,
        p.mip == 0,
        p.layer == 0,
        p.views.contains(hdr.view),
    ensures
        ({
            let cmds = exposure_cmds(s, c, hdr, write);
            let before = if hdr.offscreen {
                Held {
                    layout: LAYOUT_COLOR_ATTACHMENT,
                    ready: commands::no_access(),
                    used: Some(
                        access_at(STAGE_COLOR_ATTACHMENT_OUTPUT, ACCESS_COLOR_ATTACHMENT_WRITE),
                    ),
                }
            } else {
                layouts::at_rest(LAYOUT_SHADER_READ_ONLY, commands::compute_sample())
            };
            &&& layouts::orderly(before, cmds, p)
            &&& layouts::after(before, cmds, p) == layouts::at_rest(
                LAYOUT_SHADER_READ_ONLY,
                fragment_sample(),
            )
            &&& cmds[cmds.len() - 4] is Dispatch
            &&& cmds[cmds.len() - 3] == (Cmd::MemoryBarrier {
                src: access_at(STAGE_COMPUTE_SHADER, commands::ACCESS_SHADER_STORAGE_WRITE),
                dst: access_at(commands::STAGE_HOST, commands::ACCESS_HOST_READ),
            })
        }),
{
    let cmds = exposure_cmds(s, c, hdr, write);
    let entry = if hdr.offscreen {
        seq![meter_pre(hdr.image)]
    } else {
        Seq::empty()
    };
    let head = commands::issued(entry);
    let tail = cmds.skip(head.len() as int);
    let work = tail.take(tail.len() - 2);
    let exit = commands::issued(seq![meter_post(hdr.image)]);
    assert(exit =~= seq![Cmd::ImageBarrier(meter_post(hdr.image)), Cmd::Barriers]);
    assert(tail =~= work + exit);
    assert(cmds =~= head + work + exit);
    let before = if hdr.offscreen {
        Held {
            layout: LAYOUT_COLOR_ATTACHMENT,
            ready: commands::no_access(),
            used: Some(access_at(STAGE_COLOR_ATTACHMENT_OUTPUT, ACCESS_COLOR_ATTACHMENT_WRITE)),
        }
    } else {
        layouts::at_rest(LAYOUT_SHADER_READ_ONLY, commands::compute_sample())
    };
    if hdr.offscreen {
        layouts::lemma_issued(before, entry, p, 0);
    } else {
        layouts::lemma_elsewhere(before, head, p);
    }
    let h = layouts::after(before, head, p);
    assert forall|i: int| 0 <= i < work.len() implies layouts::reaches(
        #[trigger] work[i],
        p,
        LAYOUT_SHADER_READ_ONLY,
        commands::compute_sample(),
    ) by {
        assert(work[i] == cmds[head.len() + i]);
    }
    layouts::lemma_uses(h, work, p, commands::compute_sample());
    layouts::lemma_concat(before, head, work, p);
    layouts::lemma_issued(layouts::after(h, work, p), seq![meter_post(hdr.image)], p, 0);
    layouts::lemma_concat(before, head + work, exit, p);
}

} // verus!
