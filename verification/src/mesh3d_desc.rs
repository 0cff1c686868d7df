//! Descriptors of the mesh pipelines.

use vstd::prelude::*;

use crate::descriptors;
use crate::descriptors::{
    layout_binding, sampled_write, storage_write, uniform_write, DescriptorKind, DescriptorWrite,
    LayoutBinding, SHADER_FRAGMENT, SHADER_VERTEX, SHADER_VERTEX_FRAGMENT,
};

verus! {

/// What the mesh pipelines read.
#[derive(Clone, Copy, Debug, PartialEq, Eq, Structural)]
pub struct Mesh3dResources {
    pub records: u64,
    pub dyns: u64,
    pub tex_sampler: u64,
    pub tex_view: u64,
    pub ubo: u64,
    pub cascade_ubo: u64,
    pub shadow_sampler: u64,
    pub shadow_view: u64,
}

/// Records, block textures, frame constants, cascade constants, shadow map, previous
/// depth and per-mesh dynamics.
pub open spec fn mesh3d_layout() -> Seq<LayoutBinding> {
    seq![
        layout_binding(0, DescriptorKind::StorageBuffer, SHADER_VERTEX),
        layout_binding(1, DescriptorKind::Sampled, SHADER_FRAGMENT),
        layout_binding(2, DescriptorKind::UniformBuffer, SHADER_VERTEX_FRAGMENT),
        layout_binding(3, DescriptorKind::UniformBuffer, SHADER_FRAGMENT),
        layout_binding(4, DescriptorKind::Sampled, SHADER_FRAGMENT),
        layout_binding(5, DescriptorKind::Sampled, SHADER_FRAGMENT),
        layout_binding(6, DescriptorKind::StorageBuffer, SHADER_VERTEX),
    ]
}

pub fn create_mesh3d_set_layout() -> (r: Vec<LayoutBinding>)
    ensures
        r@ == mesh3d_layout(),
{
    let mut r: Vec<LayoutBinding> = Vec::new();
    r.push(layout_binding(0, DescriptorKind::StorageBuffer, SHADER_VERTEX));
    r.push(layout_binding(1, DescriptorKind::Sampled, SHADER_FRAGMENT));
    r.push(layout_binding(2, DescriptorKind::UniformBuffer, SHADER_VERTEX_FRAGMENT));
    r.push(layout_binding(3, DescriptorKind::UniformBuffer, SHADER_FRAGMENT));
    r.push(layout_binding(4, DescriptorKind::Sampled, SHADER_FRAGMENT));
    r.push(layout_binding(5, DescriptorKind::Sampled, SHADER_FRAGMENT));
    r.push(layout_binding(6, DescriptorKind::StorageBuffer, SHADER_VERTEX));
    proof {
        assert(r@ =~= mesh3d_layout());
    }
    r
}

/// Everything but the previous depth, which only water absorption reads.
pub open spec fn mesh3d_writes(m: Mesh3dResources) -> Seq<DescriptorWrite> {
    seq![
        storage_write(0, m.records),
        sampled_write(1, m.tex_sampler, m.tex_view),
        uniform_write(2, m.ubo),
        uniform_write(3, m.cascade_ubo),
        sampled_write(4, m.shadow_sampler, m.shadow_view),
        storage_write(6, m.dyns),
    ]
}

pub fn push_mesh3d_descriptors(m: &Mesh3dResources) -> (r: Vec<DescriptorWrite>)
    ensures
        r@ == mesh3d_writes(*m),
{
    let mut r: Vec<DescriptorWrite> = Vec::new();
    r.push(storage_write(0, m.records));
    r.push(sampled_write(1, m.tex_sampler, m.tex_view));
    r.push(uniform_write(2, m.ubo));
    r.push(uniform_write(3, m.cascade_ubo));
    r.push(sampled_write(4, m.shadow_sampler, m.shadow_view));
    r.push(storage_write(6, m.dyns));
    proof {
        assert(r@ =~= mesh3d_writes(*m));
    }
    r
}

/// The previous slot's depth, for the water absorption variant; the other
/// descriptors stay as they were pushed.
#[verifier::allow_in_spec]
pub fn push_prev_depth(sampler: u64, depth_view: u64) -> DescriptorWrite
    returns
        sampled_write(5, sampler, depth_view),
{
    sampled_write(5, sampler, depth_view)
}

/// Every write has its binding in the layout, each binding once, and the two pushes
/// together fill it.
pub proof fn law_writes_fill_the_layout(m: Mesh3dResources, sampler: u64, depth_view: u64)
    ensures
        forall|i: int|
            0 <= i < mesh3d_writes(m).len() ==> descriptors::accepts(
                mesh3d_layout(),
                #[trigger] mesh3d_writes(m)[i],
            ),
        descriptors::accepts(mesh3d_layout(), push_prev_depth(sampler, depth_view)),
        mesh3d_writes(m).len() + 1 == mesh3d_layout().len(),
        forall|i: int, j: int|
            0 <= i < j < mesh3d_writes(m).len() ==> (#[trigger] mesh3d_writes(m)[i]).binding
                < (#[trigger] mesh3d_writes(m)[j]).binding,
        forall|i: int|
            0 <= i < mesh3d_writes(m).len() ==> (#[trigger] mesh3d_writes(m)[i]).binding
                != push_prev_depth(sampler, depth_view).binding,
{
    let layout = mesh3d_layout();
    assert(layout[0].binding == 0 && layout[1].binding == 1 && layout[2].binding == 2
        && layout[3].binding == 3 && layout[4].binding == 4 && layout[5].binding == 5
        && layout[6].binding == 6);
    assert forall|i: int| 0 <= i < mesh3d_writes(m).len() implies descriptors::accepts(
        layout,
        #[trigger] mesh3d_writes(m)[i],
    ) by {
        let k = if i == 5 {
            6
        } else {
            i
        };
        assert(layout[k].binding == mesh3d_writes(m)[i].binding);
    }
    assert(layout[5].kind == descriptors::kind_of(push_prev_depth(sampler, depth_view).what));
}

} // verus!
