//! Decision layer of a Vulkan voxel renderer.

use vstd::prelude::*;

pub mod allocator;
pub mod arena;
pub mod block_steps;
pub mod block_textures;
pub mod bloom;
pub mod bucket_geometry;
pub mod bytes;
pub mod commands;
pub mod compute;
pub mod compute_input;
pub mod compute_lane;
pub mod compute_runtime;
pub mod copies;
pub mod cull;
pub mod cull_emit;
pub mod cull_math;
pub mod depth;
pub mod descriptors;
pub mod device;
pub mod draw_prep;
pub mod exposure;
pub mod frame_loop;
pub mod free_list;
pub mod gpu_timer;
pub mod handles;
pub mod hiz;
pub mod host_buffer;
pub mod image;
pub mod image_upload;
pub mod instance;
pub mod lane;
pub mod layouts;
pub mod materials;
pub mod memory;
pub mod mesh;
pub mod mesh3d_desc;
pub mod mesh_residency;
pub mod mips;
pub mod numbers;
pub mod ordering;
pub mod playback;
pub mod pyramid;
pub mod retire;
pub mod rev;
pub mod runs;
pub mod shader;
pub mod slot_list;
pub mod staging;
pub mod text;

verus! {

} // verus!
