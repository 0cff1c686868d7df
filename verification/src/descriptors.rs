//! Descriptor set layouts as tables, and what is written into them.

use vstd::prelude::*;

use crate::commands::{Binding, LAYOUT_SHADER_READ_ONLY, WHOLE_SIZE};

verus! {

/// Shader stages that read a binding, as bits.
pub const SHADER_VERTEX: u32 = 0x1;

pub const SHADER_FRAGMENT: u32 = 0x10;

pub const SHADER_COMPUTE: u32 = 0x20;

pub const SHADER_VERTEX_FRAGMENT: u32 = 0x11;

/// What a binding holds.
#[derive(Clone, Copy, Debug, PartialEq, Eq, Structural)]
pub enum DescriptorKind {
    Sampled,
    StorageImage,
    StorageBuffer,
    UniformBuffer,
}

/// One binding of a layout.
#[derive(Clone, Copy, Debug, PartialEq, Eq, Structural)]
pub struct LayoutBinding {
    pub binding: u32,
    pub kind: DescriptorKind,
    pub stages: u32,
}

/// One descriptor to write.
#[derive(Clone, Copy, Debug, PartialEq, Eq, Structural)]
pub struct DescriptorWrite {
    pub binding: u32,
    pub what: Binding,
}

#[verifier::allow_in_spec]
pub fn layout_binding(binding: u32, kind: DescriptorKind, stages: u32) -> LayoutBinding
    returns
        (LayoutBinding { binding, kind, stages }),
{
    LayoutBinding { binding, kind, stages }
}

/// A whole buffer for storage access.
#[verifier::allow_in_spec]
pub fn storage_write(binding: u32, buffer: u64) -> DescriptorWrite
    returns
        (DescriptorWrite {
            binding,
            what: Binding::StorageBuffer { buffer, offset: 0, range: WHOLE_SIZE },
        }),
{
    DescriptorWrite {
        binding,
        what: Binding::StorageBuffer { buffer, offset: 0, range: WHOLE_SIZE },
    }
}

/// A whole buffer of constants.
#[verifier::allow_in_spec]
pub fn uniform_write(binding: u32, buffer: u64) -> DescriptorWrite
    returns
        (DescriptorWrite {
            binding,
            what: Binding::UniformBuffer { buffer, offset: 0, range: WHOLE_SIZE },
        }),
{
    DescriptorWrite {
        binding,
        what: Binding::UniformBuffer { buffer, offset: 0, range: WHOLE_SIZE },
    }
}

/// A readable image with its sampler.
#[verifier::allow_in_spec]
pub fn sampled_write(binding: u32, sampler: u64, view: u64) -> DescriptorWrite
    returns
        (DescriptorWrite {
            binding,
            what: Binding::Sampled { view, sampler, layout: LAYOUT_SHADER_READ_ONLY },
        }),
{
    DescriptorWrite {
        binding,
        what: Binding::Sampled { view, sampler, layout: LAYOUT_SHADER_READ_ONLY },
    }
}

/// What a write is for.
pub open spec fn kind_of(what: Binding) -> DescriptorKind {
    match what {
        Binding::Sampled { .. } => DescriptorKind::Sampled,
        Binding::StorageImage { .. } => DescriptorKind::StorageImage,
        Binding::StorageBuffer { .. } => DescriptorKind::StorageBuffer,
        Binding::UniformBuffer { .. } => DescriptorKind::UniformBuffer,
    }
}

/// The layout has a binding for the write.
pub open spec fn accepts(layout: Seq<LayoutBinding>, w: DescriptorWrite) -> bool {
    exists|i: int|
        0 <= i < layout.len() && (#[trigger] layout[i]).binding == w.binding && layout[i].kind
            == kind_of(w.what)
}

/// The one sampled image of the font atlas and the block texture array.
pub open spec fn sampler_layout() -> Seq<LayoutBinding> {
    seq![layout_binding(0, DescriptorKind::Sampled, SHADER_FRAGMENT)]
}

pub fn create_sampler_set_layout() -> (r: Vec<LayoutBinding>)
    ensures
        r@ == sampler_layout(),
{
    let mut r: Vec<LayoutBinding> = Vec::new();
    r.push(layout_binding(0, DescriptorKind::Sampled, SHADER_FRAGMENT));
    proof {
        assert(r@ =~= sampler_layout());
    }
    r
}

/// What a draw pushes for the one sampled image.
#[verifier::allow_in_spec]
pub fn push_combined_image_sampler(sampler: u64, view: u64) -> DescriptorWrite
    returns
        (sampled_write(0, sampler, view)),
{
    sampled_write(0, sampler, view)
}

/// The bindings of a pass that reduces a sampled image into storage images: the
/// image, the level above, the level.
pub open spec fn reduce_layout() -> Seq<LayoutBinding> {
    seq![
        layout_binding(0, DescriptorKind::Sampled, SHADER_COMPUTE),
        layout_binding(1, DescriptorKind::StorageImage, SHADER_COMPUTE),
        layout_binding(2, DescriptorKind::StorageImage, SHADER_COMPUTE),
    ]
}

pub fn reduce_set_layout() -> (r: Vec<LayoutBinding>)
    ensures
        r@ == reduce_layout(),
{
    let mut r: Vec<LayoutBinding> = Vec::new();
    r.push(layout_binding(0, DescriptorKind::Sampled, SHADER_COMPUTE));
    r.push(layout_binding(1, DescriptorKind::StorageImage, SHADER_COMPUTE));
    r.push(layout_binding(2, DescriptorKind::StorageImage, SHADER_COMPUTE));
    proof {
        assert(r@ =~= reduce_layout());
    }
    r
}

/// The bindings of the spill pass: the pyramid, the depth, the spill image.
pub open spec fn spill_layout() -> Seq<LayoutBinding> {
    seq![
        layout_binding(0, DescriptorKind::Sampled, SHADER_COMPUTE),
        layout_binding(1, DescriptorKind::Sampled, SHADER_COMPUTE),
        layout_binding(2, DescriptorKind::StorageImage, SHADER_COMPUTE),
    ]
}

pub fn spill_set_layout() -> (r: Vec<LayoutBinding>)
    ensures
        r@ == spill_layout(),
{
    let mut r: Vec<LayoutBinding> = Vec::new();
    r.push(layout_binding(0, DescriptorKind::Sampled, SHADER_COMPUTE));
    r.push(layout_binding(1, DescriptorKind::Sampled, SHADER_COMPUTE));
    r.push(layout_binding(2, DescriptorKind::StorageImage, SHADER_COMPUTE));
    proof {
        assert(r@ =~= spill_layout());
    }
    r
}

/// The bindings of the metering pass: the frame and the tile means.
pub open spec fn meter_layout() -> Seq<LayoutBinding> {
    seq![
        layout_binding(0, DescriptorKind::Sampled, SHADER_COMPUTE),
        layout_binding(1, DescriptorKind::StorageBuffer, SHADER_COMPUTE),
    ]
}

pub fn meter_set_layout() -> (r: Vec<LayoutBinding>)
    ensures
        r@ == meter_layout(),
{
    let mut r: Vec<LayoutBinding> = Vec::new();
    r.push(layout_binding(0, DescriptorKind::Sampled, SHADER_COMPUTE));
    r.push(layout_binding(1, DescriptorKind::StorageBuffer, SHADER_COMPUTE));
    proof {
        assert(r@ =~= meter_layout());
    }
    r
}

/// Binding of the cull parameters.
pub const CULL_PARAMS_BINDING: u32 = 5;

/// The bindings of the cull pass: the records, the arenas, the partitions, the
/// commands, the counts, the parameters, the visibility mask, the statistics.
pub open spec fn cull_layout() -> Seq<LayoutBinding> {
    Seq::new(
        8,
        |i: int|
            layout_binding(
                i as u32,
                if i == CULL_PARAMS_BINDING {
                    DescriptorKind::UniformBuffer
                } else {
                    DescriptorKind::StorageBuffer
                },
                SHADER_COMPUTE,
            ),
    )
}

pub fn cull_set_layout() -> (r: Vec<LayoutBinding>)
    ensures
        r@ == cull_layout(),
{
    let mut r: Vec<LayoutBinding> = Vec::new();
    let mut i: u32 = 0;
    while i < 8
        invariant
            i <= 8,
            r@ == cull_layout().take(i as int),
        decreases 8 - i,
    {
        let kind = if i == CULL_PARAMS_BINDING {
            DescriptorKind::UniformBuffer
        } else {
            DescriptorKind::StorageBuffer
        };
        r.push(layout_binding(i, kind, SHADER_COMPUTE));
        i = i + 1;
        proof {
            assert(r@ =~= cull_layout().take(i as int));
        }
    }
    proof {
        assert(r@ =~= cull_layout());
    }
    r
}

/// What the metering and the reducing passes bind is laid out as their shaders declare it.
pub proof fn law_pass_layouts_match_their_shaders()
    ensures
        meter_layout().len() == 2,
        meter_layout()[0].kind is Sampled,
        meter_layout()[1].kind is StorageBuffer,
        reduce_layout().len() == 3,
        reduce_layout()[0].kind is Sampled,
        reduce_layout()[1].kind is StorageImage,
        reduce_layout()[2].kind is StorageImage,
        sampler_layout().len() == 1,
        sampler_layout()[0].kind is Sampled,
        sampler_layout()[0].stages == SHADER_FRAGMENT,
        forall|i: int|
            0 <= i < 2 ==> (#[trigger] meter_layout()[i]).binding == i && meter_layout()[i].stages
                == SHADER_COMPUTE,
        forall|i: int|
            0 <= i < 3 ==> (#[trigger] reduce_layout()[i]).binding == i && reduce_layout()[i].stages
                == SHADER_COMPUTE,
        sampler_layout()[0].binding == 0,
{
}

} // verus!
