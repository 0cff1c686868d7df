//! Blocking upload of a sampled image: one staging buffer, one submit.

use vstd::prelude::*;

use crate::commands;
use crate::commands::Extent;
use crate::commands::{
    color_range, copy_write, fragment_sample, no_access, Access, BufferImageRegion, Cmd,
    ImageBarrier, NO_HANDOVER, LAYOUT_SHADER_READ_ONLY, LAYOUT_TRANSFER_DST, LAYOUT_UNDEFINED,
};
use crate::layouts;
use crate::layouts::Part;
use crate::playback;
use crate::playback::Gpu;
use crate::memory::{find_memory_type, MemoryProps, HOST_COHERENT, MEMORY_DEVICE_LOCAL};

verus! {

/// One image to upload. `bytes` is the staged data; `regions` addresses ranges of
/// it into mip levels and array layers.
pub struct ImageUpload {
    pub extent: Extent,
    pub format: i32,
    pub mip_levels: u32,
    pub array_layers: u32,
    pub view_type: i32,
    pub bytes: Vec<u8>,
    pub regions: Vec<BufferImageRegion>,
}

/// The memory types of the image and of its staging buffer.
pub fn upload_memory_types(props: &MemoryProps, image_filter: u32, staging_filter: u32) -> (r: (
    u32,
    u32,
))
    requires
        props.wf(),
        exists|j: int|
            0 <= j < props.types.len() && #[trigger] props.suitable(
                image_filter,
                MEMORY_DEVICE_LOCAL,
                j,
            ),
        exists|j: int|
            0 <= j < props.types.len() && #[trigger] props.suitable(
                staging_filter,
                HOST_COHERENT,
                j,
            ),
    ensures
        props.first_suitable(image_filter, MEMORY_DEVICE_LOCAL, r.0 as int),
        props.first_suitable(staging_filter, HOST_COHERENT, r.1 as int),
{
    (
        find_memory_type(props, image_filter, MEMORY_DEVICE_LOCAL),
        find_memory_type(props, staging_filter, HOST_COHERENT),
    )
}

/// The new image made a copy destination, all of it.
pub open spec fn to_transfer(image: u64, mips: u32, layers: u32) -> ImageBarrier {
    ImageBarrier {
        image,
        src: no_access(),
        dst: copy_write(),
        old_layout: LAYOUT_UNDEFINED,
        new_layout: LAYOUT_TRANSFER_DST,
        src_family: NO_HANDOVER,
        dst_family: NO_HANDOVER,
        range: color_range(mips, 0, layers),
    }
}

/// The copied image made readable by fragment shaders, all of it.
pub open spec fn to_sampled(image: u64, mips: u32, layers: u32) -> ImageBarrier {
    ImageBarrier {
        image,
        src: copy_write(),
        dst: fragment_sample(),
        old_layout: LAYOUT_TRANSFER_DST,
        new_layout: LAYOUT_SHADER_READ_ONLY,
        src_family: NO_HANDOVER,
        dst_family: NO_HANDOVER,
        range: color_range(mips, 0, layers),
    }
}

/// The staged copy regions.
pub open spec fn staged(regions: Seq<BufferImageRegion>) -> Seq<Cmd> {
    Seq::new(regions.len(), |i: int| Cmd::BufferImageRegion(regions[i]))
}

/// The whole upload.
pub open spec fn upload_cmds(
    image: u64,
    staging: u64,
    mips: u32,
    layers: u32,
    regions: Seq<BufferImageRegion>,
) -> Seq<Cmd> {
    commands::issued(seq![to_transfer(image, mips, layers)]) + staged(regions) + seq![
        Cmd::CopyBufferToImage { buffer: staging, image, layout: LAYOUT_TRANSFER_DST },
    ] + commands::issued(seq![to_sampled(image, mips, layers)])
}

/// Records the upload of `params` from the buffer `staging` into the new `image`.
pub fn upload_image(params: &ImageUpload, image: u64, staging: u64) -> (cmds: Vec<Cmd>)
    ensures
        cmds@ == upload_cmds(
            image,
            staging,
            params.mip_levels,
            params.array_layers,
            params.regions@,
        ),
{
    let mut cmds: Vec<Cmd> = Vec::new();
    commands::issue_one(
        &mut cmds,
        ImageBarrier {
            image,
            src: no_access(),
            dst: copy_write(),
            old_layout: LAYOUT_UNDEFINED,
            new_layout: LAYOUT_TRANSFER_DST,
            src_family: NO_HANDOVER,
            dst_family: NO_HANDOVER,
            range: color_range(params.mip_levels, 0, params.array_layers),
        },
    );
    let ghost opened = cmds@;
    let mut i: usize = 0;
    proof {
        assert(cmds@ =~= opened + staged(params.regions@.take(0)));
    }
    while i < params.regions.len()
        invariant
            i <= params.regions.len(),
            cmds@ == opened + staged(params.regions@.take(i as int)),
        decreases params.regions.len() - i,
    {
        cmds.push(Cmd::BufferImageRegion(params.regions[i]));
        i = i + 1;
        proof {
            assert(cmds@ =~= opened + staged(params.regions@.take(i as int)));
        }
    }
    proof {
        assert(params.regions@.take(i as int) =~= params.regions@);
    }
    commands::push_one(
        &mut cmds,
        Cmd::CopyBufferToImage { buffer: staging, image, layout: LAYOUT_TRANSFER_DST },
    );
    commands::issue_one(
        &mut cmds,
        ImageBarrier {
            image,
            src: copy_write(),
            dst: fragment_sample(),
            old_layout: LAYOUT_TRANSFER_DST,
            new_layout: LAYOUT_SHADER_READ_ONLY,
            src_family: NO_HANDOVER,
            dst_family: NO_HANDOVER,
            range: color_range(params.mip_levels, 0, params.array_layers),
        },
    );
    proof {
        assert(cmds@ =~= upload_cmds(
            image,
            staging,
            params.mip_levels,
            params.array_layers,
            params.regions@,
        ));
    }
    cmds
}

/// Every level and layer ends up readable: the two barriers cover the same range,
/// and the second starts in the layout the first one ends in.
pub proof fn law_upload_leaves_everything_readable(image: u64, mips: u32, layers: u32)
    ensures
        to_transfer(image, mips, layers).range == to_sampled(image, mips, layers).range,
        to_transfer(image, mips, layers).new_layout == to_sampled(image, mips, layers).old_layout,
        to_transfer(image, mips, layers).dst == to_sampled(image, mips, layers).src,
        to_sampled(image, mips, layers).new_layout == LAYOUT_SHADER_READ_ONLY,
{
}

/// An upload copies the regions out of the staging buffer into the image and does nothing
/// else: every texel that a region addresses is filled from the byte that the region says.
pub proof fn law_an_upload_fills_the_image(
    image: u64,
    staging: u64,
    mips: u32,
    layers: u32,
    regions: Seq<BufferImageRegion>,
    g: Gpu,
    own: Seq<u8>,
)
    requires
        g.uploads.len() == 0,
    ensures
        playback::play(g, upload_cmds(image, staging, mips, layers, regions), own) == (Gpu {
            texels: playback::filled(g.texels, |p: int| (g.memory)(staging, p), image, regions),
            uploads: Seq::empty(),
            ..g
        }),
{
    let entry = seq![to_transfer(image, mips, layers)];
    let copy = Cmd::CopyBufferToImage { buffer: staging, image, layout: LAYOUT_TRANSFER_DST };
    let exit = seq![to_sampled(image, mips, layers)];
    let listed = staged(regions);
    let head = commands::issued(entry) + listed;
    playback::lemma_play_concat(g, head + seq![copy], commands::issued(exit), own);
    playback::lemma_play_concat(g, head, seq![copy], own);
    playback::lemma_play_concat(g, commands::issued(entry), listed, own);
    playback::lemma_play_issued(g, entry, own);
    playback::lemma_play_uploads(g, regions, own);
    assert(g.uploads + regions =~= regions);
    let mid = playback::play(g, listed, own);
    playback::lemma_play_one(mid, copy, own);
    let done = playback::step(mid, copy, own);
    playback::lemma_play_issued(done, exit, own);
}

/// Along an upload every level and layer of a new image is in the layout that the commands
/// name: it is let in for the copy, which is waited for, and ends up readable by fragment
/// shaders.
pub proof fn law_an_upload_finds_its_layouts(
    image: u64,
    staging: u64,
    mips: u32,
    layers: u32,
    regions: Seq<BufferImageRegion>,
    p: Part,
    before: Access,
)
    requires
        p.image == image,
        0 <= p.mip < mips,
        0 <= p.layer < layers,
    ensures
        ({
            let new = layouts::at_rest(LAYOUT_UNDEFINED, before);
            let cmds = upload_cmds(image, staging, mips, layers, regions);
            &&& layouts::orderly(new, cmds, p)
            &&& layouts::after(new, cmds, p) == layouts::at_rest(
                LAYOUT_SHADER_READ_ONLY,
                commands::fragment_sample(),
            )
        }),
{
    let new = layouts::at_rest(LAYOUT_UNDEFINED, before);
    let entry = seq![to_transfer(image, mips, layers)];
    let copy = Cmd::CopyBufferToImage { buffer: staging, image, layout: LAYOUT_TRANSFER_DST };
    let exit = seq![to_sampled(image, mips, layers)];
    let work = staged(regions) + seq![copy];
    let head = commands::issued(entry);
    layouts::lemma_issued(new, entry, p, 0);
    let let_in = layouts::after(new, head, p);
    assert forall|i: int| 0 <= i < work.len() implies layouts::reaches(
        #[trigger] work[i],
        p,
        let_in.layout,
        copy_write(),
    ) by {
        if i < regions.len() {
            assert(work[i] == Cmd::BufferImageRegion(regions[i]));
        } else {
            assert(work[i] == copy);
        }
    }
    layouts::lemma_uses(let_in, work, p, copy_write());
    layouts::lemma_concat(new, head, work, p);
    layouts::lemma_issued(layouts::after(let_in, work, p), exit, p, 0);
    layouts::lemma_concat(new, head + work, commands::issued(exit), p);
    assert(head + work + commands::issued(exit) =~= upload_cmds(
        image,
        staging,
        mips,
        layers,
        regions,
    ));
}

} // verus!
