//! Single-mip GPU images whose layout is tracked with the resource.

use vstd::prelude::*;

use crate::commands;
use crate::commands::Extent;
use crate::commands::{
    access_at, compute_write, copy_write, fragment_sample, no_access, Access, Cmd, ImageBarrier,
    Subresources, ACCESS_COLOR_ATTACHMENT_WRITE, ACCESS_NONE, ACCESS_SHADER_SAMPLED_READ,
    ACCESS_TRANSFER_WRITE, NO_HANDOVER, LAYOUT_COLOR_ATTACHMENT, LAYOUT_GENERAL,
    LAYOUT_SHADER_READ_ONLY, LAYOUT_TRANSFER_DST, LAYOUT_UNDEFINED, STAGE_CLEAR,
    STAGE_COLOR_ATTACHMENT_OUTPUT, STAGE_COMPUTE_SHADER, STAGE_FRAGMENT_SHADER,
};
use crate::text;

verus! {

/// Sample counts, as bits.
pub const SAMPLES_2: u32 = 2;

pub const SAMPLES_4: u32 = 4;

pub const SAMPLES_8: u32 = 8;

pub const VIEW_2D: i32 = 1;

pub const VIEW_2D_ARRAY: i32 = 5;

/// Bytes of a mebibyte.
pub const MIB: u64 = 0x10_0000;

/// GPU memory could not be allocated for a named render target.
#[derive(Debug)]
pub struct AllocError {
    pub size: u64,
    pub purpose: String,
    /// The driver's result code.
    pub result: i32,
}

/// The name of a driver result code, as the API spells it.
pub uninterp spec fn result_name(code: i32) -> Seq<char>;

/// The `Debug` text of `ash::vk::Result::from_raw(code)`: the API's name of the
/// code, or its number where it has none. It depends on the code alone.
#[verifier::external_body]
fn vk_result_name(code: i32) -> (r: String)
    ensures
        r@ == result_name(code),
{
    format!("{:?}", ash::vk::Result::from_raw(code))
}

/// The text of a failure to allocate `mb` mebibytes for `purpose`.
pub open spec fn failure_text(purpose: Seq<char>, mb: int, name: Seq<char>) -> Seq<char> {
    purpose + " ("@ + text::decimal_of(mb) + " MB): "@ + name
}

pub fn describe_failure(purpose: &str, mb: u64, name: &str) -> (r: String)
    ensures
        r@ == failure_text(purpose@, mb as int, name@),
{
    let mut r: String = String::from_str(purpose);
    r.append(" (");
    text::append_decimal(&mut r, mb);
    r.append(" MB): ");
    r.append(name);
    r
}

/// The advice given when the render targets do not fit.
pub open spec fn oom_text(mb: int, name: Seq<char>) -> Seq<char> {
    "renderer: could not allocate render targets ("@ + text::decimal_of(mb) + " MB): "@ + name
        + " — lower MSAA or render scale"@
}

pub fn describe_oom(mb: u64, name: &str) -> (r: String)
    ensures
        r@ == oom_text(mb as int, name@),
{
    let mut r: String = String::from_str("renderer: could not allocate render targets (");
    text::append_decimal(&mut r, mb);
    r.append(" MB): ");
    r.append(name);
    r.append(" — lower MSAA or render scale");
    r
}

impl AllocError {
    pub fn new(size: u64, purpose: String, result: i32) -> (e: AllocError)
        ensures
            e.size == size,
            e.purpose@ == purpose@,
            e.result == result,
    {
        AllocError { size, purpose, result }
    }

    /// Whole mebibytes, rounded down.
    pub fn size_mb(&self) -> (mb: u64)
        ensures
            mb == self.size / MIB,
    {
        self.size / MIB
    }

    /// The failure in words.
    pub fn message(&self) -> (r: String)
        ensures
            r@ == failure_text(
                self.purpose@,
                (self.size / MIB) as int,
                result_name(self.result),
            ),
    {
        let name: String = vk_result_name(self.result);
        describe_failure(self.purpose.as_str(), self.size_mb(), name.as_str())
    }
}

/// What to tell the user when a render target could not be allocated.
pub fn render_target_oom_message(err: &AllocError) -> (r: String)
    ensures
        r@ == oom_text((err.size / MIB) as int, result_name(err.result)),
{
    let name: String = vk_result_name(err.result);
    describe_oom(err.size_mb(), name.as_str())
}

/// Samples per pixel of a sample-count bit; one for any other value.
#[verifier::allow_in_spec]
pub fn sample_count(samples: u32) -> u32
    returns
        (if samples == SAMPLES_8 {
            8u32
        } else if samples == SAMPLES_4 {
            4
        } else if samples == SAMPLES_2 {
            2
        } else {
            1
        }),
{
    if samples == SAMPLES_8 {
        8
    } else if samples == SAMPLES_4 {
        4
    } else if samples == SAMPLES_2 {
        2
    } else {
        1
    }
}

/// A target's name, its size and, above one sample, its sample count.
pub open spec fn purpose_text(name: Seq<char>, extent: Extent, samples: int) -> Seq<char> {
    let sized = name + " "@ + text::decimal_of(extent.width as int) + "x"@ + text::decimal_of(
        extent.height as int,
    );
    if samples == 1 {
        sized
    } else {
        sized + " "@ + text::decimal_of(samples) + "x MSAA"@
    }
}

pub fn image_purpose(name: &str, extent: Extent, samples: u32) -> (r: String)
    ensures
        r@ == purpose_text(name@, extent, sample_count(samples) as int),
{
    let mut r: String = String::from_str(name);
    r.append(" ");
    text::append_decimal(&mut r, extent.width as u64);
    r.append("x");
    text::append_decimal(&mut r, extent.height as u64);
    let n: u32 = sample_count(samples);
    if n != 1 {
        r.append(" ");
        text::append_decimal(&mut r, n as u64);
        r.append("x MSAA");
    }
    r
}

/// What was made before the first failure, for the caller to destroy.
pub struct Unfinished<T, E> {
    pub made: Vec<T>,
    pub error: E,
}

/// The first `n` results of `make` are the elements of `made`.
pub open spec fn made_by<T, E, F: Fn(usize) -> Result<T, E>>(
    make: F,
    made: Seq<T>,
) -> bool {
    forall|i: int|
        0 <= i < made.len() ==> call_ensures(
            make,
            (i as usize,),
            Ok::<T, E>(#[trigger] made[i]),
        )
}

/// Makes `n` images, stopping at the first failure.
pub fn create_image_array<T, E, F: Fn(usize) -> Result<T, E>>(n: usize, make: &F) -> (r: Result<
    Vec<T>,
    Unfinished<T, E>,
>)
    requires
        forall|i: usize| i < n ==> call_requires(*make, (i,)),
    ensures
        match r {
            Ok(v) => v.len() == n && made_by::<T, E, F>(*make, v@),
            Err(u) => u.made.len() < n && made_by::<T, E, F>(*make, u.made@) && call_ensures(
                *make,
                (u.made.len(),),
                Err::<T, E>(u.error),
            ),
        },
{
    let mut made: Vec<T> = Vec::new();
    while made.len() < n
        invariant
            made.len() <= n,
            forall|i: usize| i < n ==> call_requires(*make, (i,)),
            made_by::<T, E, F>(*make, made@),
        decreases n - made.len(),
    {
        match make(made.len()) {
            Ok(image) => {
                made.push(image);
            },
            Err(error) => {
                return Err(Unfinished { made, error });
            },
        }
    }
    Ok(made)
}

/// A single-mip 2D image with one view of all of it.
#[derive(Clone, Copy, Debug, PartialEq, Eq, Structural)]
pub struct ImageDesc {
    pub extent: Extent,
    pub format: i32,
    pub usage: u32,
    pub layers: u32,
    pub aspect: u32,
    pub samples: u32,
}

impl ImageDesc {
    /// Everything the image holds.
    #[verifier::allow_in_spec]
    pub fn subresource(&self) -> Subresources
        returns
            (Subresources {
                aspect: self.aspect,
                base_mip: 0,
                mips: 1,
                base_layer: 0,
                layers: self.layers,
            }),
    {
        Subresources {
            aspect: self.aspect,
            base_mip: 0,
            mips: 1,
            base_layer: 0,
            layers: self.layers,
        }
    }

    /// An array view above one layer.
    #[verifier::allow_in_spec]
    pub fn view_type(&self) -> i32
        returns
            (if self.layers > 1 {
                VIEW_2D_ARRAY
            } else {
                VIEW_2D
            }),
    {
        if self.layers > 1 {
            VIEW_2D_ARRAY
        } else {
            VIEW_2D
        }
    }
}

/// The next use of an image.
#[derive(Clone, Copy, Debug, PartialEq, Eq, Structural)]
pub enum LayoutUse {
    /// Copy destination.
    TransferDst,
    /// Sampled by fragment shaders after a copy.
    FragmentSampledAfterTransfer,
    /// Written by compute as storage.
    ComputeStorageWrite,
    /// Sampled by compute and fragment shaders after a storage write.
    SampledAfterComputeWrite,
    /// Destination of a color clear.
    TransferClear,
    /// Sampled by fragment shaders after a color clear.
    FragmentSampledAfterClear,
    /// Written as a color attachment.
    ColorAttachmentWrite,
    /// Sampled by fragment shaders after an attachment write, or fresh.
    FragmentSampled,
}

/// A layout and the access that needs it.
#[derive(Clone, Copy, Debug, PartialEq, Eq, Structural)]
pub struct LayoutAccess {
    pub layout: i32,
    pub access: Access,
}

/// The layout and the access of a use.
pub open spec fn dst_spec(to: LayoutUse) -> LayoutAccess {
    match to {
        LayoutUse::TransferDst => LayoutAccess {
            layout: LAYOUT_TRANSFER_DST,
            access: copy_write(),
        },
        LayoutUse::ComputeStorageWrite => LayoutAccess {
            layout: LAYOUT_GENERAL,
            access: compute_write(),
        },
        LayoutUse::SampledAfterComputeWrite => LayoutAccess {
            layout: LAYOUT_SHADER_READ_ONLY,
            access: access_at(
                STAGE_COMPUTE_SHADER | STAGE_FRAGMENT_SHADER,
                ACCESS_SHADER_SAMPLED_READ,
            ),
        },
        LayoutUse::TransferClear => LayoutAccess {
            layout: LAYOUT_TRANSFER_DST,
            access: access_at(STAGE_CLEAR, ACCESS_TRANSFER_WRITE),
        },
        LayoutUse::ColorAttachmentWrite => LayoutAccess {
            layout: LAYOUT_COLOR_ATTACHMENT,
            access: access_at(STAGE_COLOR_ATTACHMENT_OUTPUT, ACCESS_COLOR_ATTACHMENT_WRITE),
        },
        LayoutUse::FragmentSampledAfterTransfer => LayoutAccess {
            layout: LAYOUT_SHADER_READ_ONLY,
            access: fragment_sample(),
        },
        LayoutUse::FragmentSampledAfterClear => LayoutAccess {
            layout: LAYOUT_SHADER_READ_ONLY,
            access: fragment_sample(),
        },
        LayoutUse::FragmentSampled => LayoutAccess {
            layout: LAYOUT_SHADER_READ_ONLY,
            access: fragment_sample(),
        },
    }
}

/// The access that a use follows where the image was in use before: each use is
/// reached from one prior state.
pub open spec fn src_spec(to: LayoutUse) -> Access {
    match to {
        LayoutUse::TransferDst => fragment_sample(),
        LayoutUse::FragmentSampledAfterTransfer => copy_write(),
        LayoutUse::ComputeStorageWrite => access_at(
            STAGE_COMPUTE_SHADER | STAGE_FRAGMENT_SHADER,
            ACCESS_NONE,
        ),
        LayoutUse::SampledAfterComputeWrite => compute_write(),
        LayoutUse::TransferClear => fragment_sample(),
        LayoutUse::FragmentSampledAfterClear => access_at(STAGE_CLEAR, ACCESS_TRANSFER_WRITE),
        LayoutUse::ColorAttachmentWrite => fragment_sample(),
        LayoutUse::FragmentSampled => access_at(
            STAGE_COLOR_ATTACHMENT_OUTPUT,
            ACCESS_COLOR_ATTACHMENT_WRITE,
        ),
    }
}

impl LayoutUse {
    pub fn dst(&self) -> (r: LayoutAccess)
        ensures
            r == dst_spec(*self),
    {
        match self {
            LayoutUse::TransferDst => LayoutAccess {
                layout: LAYOUT_TRANSFER_DST,
                access: copy_write(),
            },
            LayoutUse::FragmentSampledAfterTransfer => LayoutAccess {
                layout: LAYOUT_SHADER_READ_ONLY,
                access: fragment_sample(),
            },
            LayoutUse::ComputeStorageWrite => LayoutAccess {
                layout: LAYOUT_GENERAL,
                access: compute_write(),
            },
            LayoutUse::SampledAfterComputeWrite => LayoutAccess {
                layout: LAYOUT_SHADER_READ_ONLY,
                access: access_at(
                    STAGE_COMPUTE_SHADER | STAGE_FRAGMENT_SHADER,
                    ACCESS_SHADER_SAMPLED_READ,
                ),
            },
            LayoutUse::TransferClear => LayoutAccess {
                layout: LAYOUT_TRANSFER_DST,
                access: access_at(STAGE_CLEAR, ACCESS_TRANSFER_WRITE),
            },
            LayoutUse::FragmentSampledAfterClear => LayoutAccess {
                layout: LAYOUT_SHADER_READ_ONLY,
                access: fragment_sample(),
            },
            LayoutUse::ColorAttachmentWrite => LayoutAccess {
                layout: LAYOUT_COLOR_ATTACHMENT,
                access: access_at(STAGE_COLOR_ATTACHMENT_OUTPUT, ACCESS_COLOR_ATTACHMENT_WRITE),
            },
            LayoutUse::FragmentSampled => LayoutAccess {
                layout: LAYOUT_SHADER_READ_ONLY,
                access: fragment_sample(),
            },
        }
    }

    pub fn src_when_used(&self) -> (r: Access)
        ensures
            r == src_spec(*self),
    {
        match self {
            LayoutUse::TransferDst => fragment_sample(),
            LayoutUse::FragmentSampledAfterTransfer => copy_write(),
            LayoutUse::ComputeStorageWrite => access_at(
                STAGE_COMPUTE_SHADER | STAGE_FRAGMENT_SHADER,
                ACCESS_NONE,
            ),
            LayoutUse::SampledAfterComputeWrite => compute_write(),
            LayoutUse::TransferClear => fragment_sample(),
            LayoutUse::FragmentSampledAfterClear => access_at(STAGE_CLEAR, ACCESS_TRANSFER_WRITE),
            LayoutUse::ColorAttachmentWrite => fragment_sample(),
            LayoutUse::FragmentSampled => access_at(
                STAGE_COLOR_ATTACHMENT_OUTPUT,
                ACCESS_COLOR_ATTACHMENT_WRITE,
            ),
        }
    }
}

/// A single-mip image and the layout it is in.
#[derive(Clone, Copy, Debug, PartialEq, Eq, Structural)]
pub struct ImageResource {
    pub image: u64,
    pub memory: u64,
    pub view: u64,
    pub layout: i32,
    pub subresource: Subresources,
}

/// The barrier that takes `r` to its next use. A discarding transition declares
/// the contents void but still waits for the prior use.
pub open spec fn transition_barrier(r: ImageResource, to: LayoutUse, discard: bool) -> ImageBarrier {
    ImageBarrier {
        image: r.image,
        src: if r.layout == LAYOUT_UNDEFINED {
            no_access()
        } else {
            src_spec(to)
        },
        dst: dst_spec(to).access,
        old_layout: if discard {
            LAYOUT_UNDEFINED
        } else {
            r.layout
        },
        new_layout: dst_spec(to).layout,
        src_family: NO_HANDOVER,
        dst_family: NO_HANDOVER,
        range: r.subresource,
    }
}

impl ImageResource {
    /// A freshly created image: its contents are undefined.
    pub fn create(image: u64, memory: u64, view: u64, desc: &ImageDesc) -> (r: ImageResource)
        ensures
            r == (ImageResource {
                image,
                memory,
                view,
                layout: LAYOUT_UNDEFINED,
                subresource: desc.subresource(),
            }),
    {
        ImageResource {
            image,
            memory,
            view,
            layout: LAYOUT_UNDEFINED,
            subresource: desc.subresource(),
        }
    }

    pub fn image(&self) -> (r: u64)
        ensures
            r == self.image,
    {
        self.image
    }

    pub fn view(&self) -> (r: u64)
        ensures
            r == self.view,
    {
        self.view
    }

    pub fn layout(&self) -> (r: i32)
        ensures
            r == self.layout,
    {
        self.layout
    }

    pub fn subresource_range(&self) -> (r: Subresources)
        ensures
            r == self.subresource,
    {
        self.subresource
    }

    /// The barrier to the next use, for a batch; the image counts as being there.
    pub fn barrier_to(&mut self, to: LayoutUse, discard: bool) -> (b: ImageBarrier)
        ensures
            b == transition_barrier(*old(self), to, discard),
            *final(self) == (ImageResource { layout: dst_spec(to).layout, ..*old(self) }),
    {
        let dst: LayoutAccess = to.dst();
        let src: Access = if self.layout == LAYOUT_UNDEFINED {
            no_access()
        } else {
            to.src_when_used()
        };
        let b: ImageBarrier = ImageBarrier {
            image: self.image,
            src,
            dst: dst.access,
            old_layout: if discard {
                LAYOUT_UNDEFINED
            } else {
                self.layout
            },
            new_layout: dst.layout,
            src_family: NO_HANDOVER,
            dst_family: NO_HANDOVER,
            range: self.subresource,
        };
        self.layout = dst.layout;
        b
    }

    /// Records the transition to the next use, keeping the contents.
    pub fn transition(&mut self, cmds: &mut Vec<Cmd>, to: LayoutUse)
        ensures
            final(cmds)@ == old(cmds)@ + commands::issued(
                seq![transition_barrier(*old(self), to, false)],
            ),
            *final(self) == (ImageResource { layout: dst_spec(to).layout, ..*old(self) }),
    {
        self.barrier(cmds, to, false);
    }

    /// Records the transition of an image that is about to be overwritten.
    pub fn transition_discard(&mut self, cmds: &mut Vec<Cmd>, to: LayoutUse)
        ensures
            final(cmds)@ == old(cmds)@ + commands::issued(
                seq![transition_barrier(*old(self), to, true)],
            ),
            *final(self) == (ImageResource { layout: dst_spec(to).layout, ..*old(self) }),
    {
        self.barrier(cmds, to, true);
    }

    fn barrier(&mut self, cmds: &mut Vec<Cmd>, to: LayoutUse, discard: bool)
        ensures
            final(cmds)@ == old(cmds)@ + commands::issued(
                seq![transition_barrier(*old(self), to, discard)],
            ),
            *final(self) == (ImageResource { layout: dst_spec(to).layout, ..*old(self) }),
    {
        let ghost before = *self;
        let mut bs: Vec<ImageBarrier> = Vec::new();
        bs.push(self.barrier_to(to, discard));
        proof {
            assert(bs@ =~= seq![transition_barrier(before, to, discard)]);
        }
        commands::issue(cmds, &bs);
    }
}

/// The resource after a transition to `to`.
pub open spec fn moved(r: ImageResource, to: LayoutUse) -> ImageResource {
    ImageResource { layout: dst_spec(to).layout, ..r }
}

/// The tracked layout is the one the barriers leave the image in: each barrier
/// starts where the one before it ended, unless the contents are discarded.
pub proof fn law_transitions_chain(r: ImageResource, first: LayoutUse, then_to: LayoutUse)
    ensures
        transition_barrier(moved(r, first), then_to, false).old_layout == transition_barrier(
            r,
            first,
            false,
        ).new_layout,
        transition_barrier(moved(r, first), then_to, true).old_layout == LAYOUT_UNDEFINED,
{
}

/// An image that was in use before is never handed on unordered: the transition
/// waits for the prior use, discarding or not.
pub proof fn law_prior_use_is_waited_for(r: ImageResource, to: LayoutUse, discard: bool)
    requires
        r.layout != LAYOUT_UNDEFINED,
    ensures
        transition_barrier(r, to, discard).src == src_spec(to),
        transition_barrier(r, to, discard).src.stage != 0,
{
    assert(0x800u64 | 0x80u64 != 0) by (bit_vector);
}

} // verus!
