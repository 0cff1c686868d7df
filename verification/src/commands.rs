//! Recorded GPU work as plain values.
//!
//! A plan is a list of commands. Whatever a driver call takes as an array
//! (barriers, copy regions, descriptor writes, push-constant words) is staged by
//! one command per element and issued by the command that follows: [`Cmd::Barriers`]
//! issues every staged barrier in one pipeline barrier, a copy command issues
//! every staged region, [`Cmd::PushSet`] every staged descriptor write and
//! [`Cmd::PushConstants`] every staged word. Handles are raw; stages, accesses,
//! layouts and aspects are the bits of the Vulkan API.

use vstd::prelude::*;

verus! {

pub const STAGE_NONE: u64 = 0;

pub const STAGE_TOP_OF_PIPE: u64 = 0x1;

pub const STAGE_DRAW_INDIRECT: u64 = 0x2;

pub const STAGE_VERTEX_INPUT: u64 = 0x4;

pub const STAGE_VERTEX_SHADER: u64 = 0x8;

pub const STAGE_FRAGMENT_SHADER: u64 = 0x80;

pub const STAGE_EARLY_FRAGMENT_TESTS: u64 = 0x100;

pub const STAGE_LATE_FRAGMENT_TESTS: u64 = 0x200;

pub const STAGE_COLOR_ATTACHMENT_OUTPUT: u64 = 0x400;

pub const STAGE_COMPUTE_SHADER: u64 = 0x800;

pub const STAGE_TRANSFER: u64 = 0x1000;

pub const STAGE_BOTTOM_OF_PIPE: u64 = 0x2000;

pub const STAGE_HOST: u64 = 0x4000;

pub const STAGE_ALL_COMMANDS: u64 = 0x1_0000;

pub const STAGE_COPY: u64 = 0x1_0000_0000;

pub const STAGE_CLEAR: u64 = 0x8_0000_0000;

pub const STAGE_VERTEX_ATTRIBUTE_INPUT: u64 = 0x20_0000_0000;

pub const ACCESS_NONE: u64 = 0;

pub const ACCESS_INDIRECT_COMMAND_READ: u64 = 0x1;

pub const ACCESS_INDEX_READ: u64 = 0x2;

pub const ACCESS_VERTEX_ATTRIBUTE_READ: u64 = 0x4;

pub const ACCESS_SHADER_READ: u64 = 0x20;

pub const ACCESS_SHADER_WRITE: u64 = 0x40;

pub const ACCESS_COLOR_ATTACHMENT_READ: u64 = 0x80;

pub const ACCESS_COLOR_ATTACHMENT_WRITE: u64 = 0x100;

pub const ACCESS_DEPTH_READ: u64 = 0x200;

pub const ACCESS_DEPTH_WRITE: u64 = 0x400;

pub const ACCESS_TRANSFER_READ: u64 = 0x800;

pub const ACCESS_TRANSFER_WRITE: u64 = 0x1000;

pub const ACCESS_HOST_READ: u64 = 0x2000;

pub const ACCESS_HOST_WRITE: u64 = 0x4000;

pub const ACCESS_MEMORY_WRITE: u64 = 0x1_0000;

pub const ACCESS_SHADER_SAMPLED_READ: u64 = 0x1_0000_0000;

pub const ACCESS_SHADER_STORAGE_READ: u64 = 0x2_0000_0000;

pub const ACCESS_SHADER_STORAGE_WRITE: u64 = 0x4_0000_0000;

pub const LAYOUT_UNDEFINED: i32 = 0;

pub const LAYOUT_GENERAL: i32 = 1;

pub const LAYOUT_COLOR_ATTACHMENT: i32 = 2;

pub const LAYOUT_SHADER_READ_ONLY: i32 = 5;

pub const LAYOUT_TRANSFER_SRC: i32 = 6;

pub const LAYOUT_TRANSFER_DST: i32 = 7;

pub const LAYOUT_DEPTH_ATTACHMENT: i32 = 1000241000;

pub const LAYOUT_DEPTH_READ_ONLY: i32 = 1000241001;

pub const LAYOUT_PRESENT_SRC: i32 = 1000001002;

pub const ASPECT_COLOR: u32 = 1;

pub const ASPECT_DEPTH: u32 = 2;

/// The rest of a buffer, as the size of a range.
pub const WHOLE_SIZE: u64 = 0xFFFF_FFFF_FFFF_FFFF;

/// Both families of a barrier under which the resource stays with its queue: a
/// barrier hands nothing over while the two are equal.
pub const NO_HANDOVER: u32 = 0;

/// Width and height in pixels.
#[derive(Clone, Copy, Debug, PartialEq, Eq, Structural)]
pub struct Extent {
    pub width: u32,
    pub height: u32,
}

/// Mip levels and array layers of one aspect of an image.
#[derive(Clone, Copy, Debug, PartialEq, Eq, Structural)]
pub struct Subresources {
    pub aspect: u32,
    pub base_mip: u32,
    pub mips: u32,
    pub base_layer: u32,
    pub layers: u32,
}

/// One access to a resource: the pipeline stages and the kind of access.
#[derive(Clone, Copy, Debug, PartialEq, Eq, Structural)]
pub struct Access {
    pub stage: u64,
    pub access: u64,
}

/// `access` at `stage`.
#[verifier::allow_in_spec]
pub fn access_at(stage: u64, access: u64) -> Access
    returns
        (Access { stage, access }),
{
    Access { stage, access }
}

/// Nothing to wait for, or nothing that waits.
#[verifier::allow_in_spec]
pub fn no_access() -> Access
    returns
        access_at(STAGE_NONE, ACCESS_NONE),
{
    access_at(STAGE_NONE, ACCESS_NONE)
}

/// A copy writing its destination.
#[verifier::allow_in_spec]
pub fn copy_write() -> Access
    returns
        access_at(STAGE_COPY, ACCESS_TRANSFER_WRITE),
{
    access_at(STAGE_COPY, ACCESS_TRANSFER_WRITE)
}

/// A copy reading its source.
#[verifier::allow_in_spec]
pub fn copy_read() -> Access
    returns
        access_at(STAGE_COPY, ACCESS_TRANSFER_READ),
{
    access_at(STAGE_COPY, ACCESS_TRANSFER_READ)
}

/// Fragment shaders sampling an image.
#[verifier::allow_in_spec]
pub fn fragment_sample() -> Access
    returns
        access_at(STAGE_FRAGMENT_SHADER, ACCESS_SHADER_SAMPLED_READ),
{
    access_at(STAGE_FRAGMENT_SHADER, ACCESS_SHADER_SAMPLED_READ)
}

/// Shaders writing storage.
#[verifier::allow_in_spec]
pub fn compute_write() -> Access
    returns
        access_at(STAGE_COMPUTE_SHADER, ACCESS_SHADER_STORAGE_WRITE),
{
    access_at(STAGE_COMPUTE_SHADER, ACCESS_SHADER_STORAGE_WRITE)
}

/// The host reading.
#[verifier::allow_in_spec]
pub fn host_read() -> Access
    returns
        access_at(STAGE_HOST, ACCESS_HOST_READ),
{
    access_at(STAGE_HOST, ACCESS_HOST_READ)
}

/// A layout transition of part of an image, ordered between two accesses.
#[derive(Clone, Copy, Debug, PartialEq, Eq, Structural)]
pub struct ImageBarrier {
    pub image: u64,
    pub src: Access,
    pub dst: Access,
    pub old_layout: i32,
    pub new_layout: i32,
    /// Queue families; equal when ownership does not move.
    pub src_family: u32,
    pub dst_family: u32,
    pub range: Subresources,
}

/// An ordering between two accesses to a buffer range.
#[derive(Clone, Copy, Debug, PartialEq, Eq, Structural)]
pub struct BufferBarrier {
    pub buffer: u64,
    pub offset: u64,
    pub size: u64,
    pub src: Access,
    pub dst: Access,
    pub src_family: u32,
    pub dst_family: u32,
}

/// A copy region between a buffer and one mip level of an image.
#[derive(Clone, Copy, Debug, PartialEq, Eq, Structural)]
pub struct BufferImageRegion {
    pub buffer_offset: u64,
    pub mip: u32,
    pub base_layer: u32,
    pub layers: u32,
    pub width: u32,
    pub height: u32,
}

/// A copy region between the same mip level of two images.
#[derive(Clone, Copy, Debug, PartialEq, Eq, Structural)]
pub struct ImageRegion {
    pub mip: u32,
    pub layers: u32,
    pub width: u32,
    pub height: u32,
}

/// A copy region between two buffers.
#[derive(Clone, Copy, Debug, PartialEq, Eq, Structural)]
pub struct BufferRegion {
    pub src_offset: u64,
    pub dst_offset: u64,
    pub size: u64,
}

/// What a descriptor write binds.
#[derive(Clone, Copy, Debug, PartialEq, Eq, Structural)]
pub enum Binding {
    Sampled { view: u64, sampler: u64, layout: i32 },
    StorageImage { view: u64, layout: i32 },
    StorageBuffer { buffer: u64, offset: u64, range: u64 },
    UniformBuffer { buffer: u64, offset: u64, range: u64 },
}

/// One recorded command.
#[allow(inconsistent_fields)]
#[derive(Clone, Copy, Debug, PartialEq, Eq, Structural)]
pub enum Cmd {
    ImageBarrier(ImageBarrier),
    BufferBarrier(BufferBarrier),
    MemoryBarrier { src: Access, dst: Access },
    Barriers,
    BufferImageRegion(BufferImageRegion),
    /// Copies the staged regions out of `buffer`.
    CopyBufferToImage { buffer: u64, image: u64, layout: i32 },
    /// Copies the staged regions out of the plan's own staging buffer.
    CopyStagingToImage { image: u64, layout: i32 },
    ImageRegion(ImageRegion),
    CopyImage { src: u64, src_layout: i32, dst: u64, dst_layout: i32 },
    BufferRegion(BufferRegion),
    CopyBuffer { src: u64, dst: u64 },
    /// Copies the staged regions out of the plan's own staging buffer.
    CopyStaging { dst: u64 },
    FillBuffer { buffer: u64, offset: u64, size: u64, word: u32 },
    ClearColor { image: u64, layout: i32, red: u32, green: u32, blue: u32, alpha: u32, range: Subresources },
    BindPipeline { pipeline: u64 },
    Bind { binding: u32, what: Binding },
    PushSet { layout: u64 },
    PushWord(u32),
    PushByte(u8),
    PushConstants { layout: u64 },
    Dispatch { x: u32, y: u32, z: u32 },
    ResetQueries { pool: u64, first: u32, count: u32 },
    /// Resets the queries from the host, before the plan is submitted.
    HostResetQueries { pool: u64, first: u32, count: u32 },
    WriteTimestamp { pool: u64, query: u32, stage: u64 },
    BeginQuery { pool: u64, query: u32 },
    EndQuery { pool: u64, query: u32 },
}

/// All mips of `layers` color layers from `base_layer`.
#[verifier::allow_in_spec]
pub fn color_range(mips: u32, base_layer: u32, layers: u32) -> Subresources
    returns
        (Subresources { aspect: ASPECT_COLOR, base_mip: 0, mips, base_layer, layers }),
{
    Subresources { aspect: ASPECT_COLOR, base_mip: 0, mips, base_layer, layers }
}

/// The staged image barriers `bs` and the command that issues them; nothing when
/// there are none.
pub open spec fn issued(bs: Seq<ImageBarrier>) -> Seq<Cmd> {
    if bs.len() == 0 {
        Seq::empty()
    } else {
        Seq::new(bs.len(), |i: int| Cmd::ImageBarrier(bs[i])).push(Cmd::Barriers)
    }
}

/// Records `bs` as one pipeline barrier.
pub fn issue(cmds: &mut Vec<Cmd>, bs: &Vec<ImageBarrier>)
    ensures
        final(cmds)@ == old(cmds)@ + issued(bs@),
{
    let ghost orig = cmds@;
    if bs.len() == 0 {
        proof {
            assert(cmds@ =~= orig + issued(bs@));
        }
        return ;
    }
    let mut i: usize = 0;
    while i < bs.len()
        invariant
            i <= bs.len(),
            cmds@ == orig + Seq::new(i as nat, |k: int| Cmd::ImageBarrier(bs@[k])),
        decreases bs.len() - i,
    {
        cmds.push(Cmd::ImageBarrier(bs[i]));
        i = i + 1;
        proof {
            assert(cmds@ =~= orig + Seq::new(i as nat, |k: int| Cmd::ImageBarrier(bs@[k])));
        }
    }
    cmds.push(Cmd::Barriers);
    proof {
        assert(cmds@ =~= orig + issued(bs@));
    }
}

/// Records one image barrier of its own.
pub fn issue_one(cmds: &mut Vec<Cmd>, b: ImageBarrier)
    ensures
        final(cmds)@ == old(cmds)@ + issued(seq![b]),
{
    let mut bs: Vec<ImageBarrier> = Vec::new();
    bs.push(b);
    proof {
        assert(bs@ =~= seq![b]);
    }
    issue(cmds, &bs);
}

/// Records two image barriers as one pipeline barrier.
pub fn issue_two(cmds: &mut Vec<Cmd>, a: ImageBarrier, b: ImageBarrier)
    ensures
        final(cmds)@ == old(cmds)@ + issued(seq![a, b]),
{
    let mut bs: Vec<ImageBarrier> = Vec::new();
    bs.push(a);
    bs.push(b);
    proof {
        assert(bs@ =~= seq![a, b]);
    }
    issue(cmds, &bs);
}

/// A transition of part of an image that stays with its queue family.
#[verifier::allow_in_spec]
pub fn layout_barrier(
    image: u64,
    range: Subresources,
    old_layout: i32,
    src: Access,
    new_layout: i32,
    dst: Access,
) -> ImageBarrier
    returns
        (ImageBarrier {
            image,
            src,
            dst,
            old_layout,
            new_layout,
            src_family: NO_HANDOVER,
            dst_family: NO_HANDOVER,
            range,
        }),
{
    ImageBarrier {
        image,
        src,
        dst,
        old_layout,
        new_layout,
        src_family: NO_HANDOVER,
        dst_family: NO_HANDOVER,
        range,
    }
}

/// Compute shaders sampling an image.
#[verifier::allow_in_spec]
pub fn compute_sample() -> Access
    returns
        access_at(STAGE_COMPUTE_SHADER, ACCESS_SHADER_SAMPLED_READ),
{
    access_at(STAGE_COMPUTE_SHADER, ACCESS_SHADER_SAMPLED_READ)
}

/// A clear writing its image.
#[verifier::allow_in_spec]
pub fn clear_write() -> Access
    returns
        access_at(STAGE_CLEAR, ACCESS_TRANSFER_WRITE),
{
    access_at(STAGE_CLEAR, ACCESS_TRANSFER_WRITE)
}

/// The start of the queue, without an access to wait for.
#[verifier::allow_in_spec]
pub fn top_of_pipe() -> Access
    returns
        access_at(STAGE_TOP_OF_PIPE, ACCESS_NONE),
{
    access_at(STAGE_TOP_OF_PIPE, ACCESS_NONE)
}

/// A clear of every component to zero.
#[verifier::allow_in_spec]
pub fn clear_to_zero(image: u64, range: Subresources) -> Cmd
    returns
        (Cmd::ClearColor {
            image,
            layout: LAYOUT_TRANSFER_DST,
            red: 0,
            green: 0,
            blue: 0,
            alpha: 0,
            range,
        }),
{
    Cmd::ClearColor {
        image,
        layout: LAYOUT_TRANSFER_DST,
        red: 0,
        green: 0,
        blue: 0,
        alpha: 0,
        range,
    }
}

/// A memory barrier of its own.
pub open spec fn memory_barrier(src: Access, dst: Access) -> Seq<Cmd> {
    seq![Cmd::MemoryBarrier { src, dst }, Cmd::Barriers]
}

pub fn record_memory_barrier(cmds: &mut Vec<Cmd>, src: Access, dst: Access)
    ensures
        final(cmds)@ == old(cmds)@ + memory_barrier(src, dst),
{
    let ghost orig = cmds@;
    cmds.push(Cmd::MemoryBarrier { src, dst });
    cmds.push(Cmd::Barriers);
    proof {
        assert(cmds@ =~= orig + memory_barrier(src, dst));
    }
}

/// Records one command.
pub fn push_one(cmds: &mut Vec<Cmd>, c: Cmd)
    ensures
        final(cmds)@ == old(cmds)@ + seq![c],
{
    let ghost orig = cmds@;
    cmds.push(c);
    proof {
        assert(cmds@ =~= orig + seq![c]);
    }
}

/// `n` divided by `d`, rounded up.
pub open spec fn ceil_div(n: int, d: int) -> int {
    if n % d == 0 {
        n / d
    } else {
        n / d + 1
    }
}

pub fn div_ceil(n: u32, d: u32) -> (r: u32)
    requires
        d > 0,
    ensures
        r == ceil_div(n as int, d as int),
{
    let q: u32 = n / d;
    if n % d == 0 {
        q
    } else {
        proof {
            assert(n % d > 0);
            assert(d == 1 ==> n % d == 0);
            assert(d >= 2 ==> n / d <= n / 2) by (nonlinear_arith)
                requires
                    d > 0,
            ;
        }
        q + 1
    }
}

/// `n` workgroups of `d` invocations cover them all, and one fewer would not.
pub proof fn law_ceil_div_covers(n: int, d: int)
    requires
        n >= 0,
        d > 0,
    ensures
        ceil_div(n, d) * d >= n,
        n > 0 ==> (ceil_div(n, d) - 1) * d < n,
{
    vstd::arithmetic::div_mod::lemma_fundamental_div_mod(n, d);
    let q = n / d;
    assert((q + 1) * d == q * d + d) by (nonlinear_arith);
    assert((q - 1) * d == q * d - d) by (nonlinear_arith);
    assert(d * q == q * d) by (nonlinear_arith);
}

} // verus!
