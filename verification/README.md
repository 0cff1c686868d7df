# voxel_engine

The decision layer of a Vulkan voxel renderer, verified with Verus, and the
Vulkan code around it.

The library never talks to a device. It decides: which memory type to take, where
in a block an upload goes, which meshes a frame draws and in which order, what a
command buffer holds, when a resource may be reused. Every decision is a function
from plain values to plain values with a contract, and every state that lives
across frames has a well-formedness invariant that its operations keep.

## Layout

- `src/` - the library. Handles are raw 64-bit numbers, flags and layouts are the
  numbers that the API gives them, and floats are bit patterns or integer keys.
  What is to be recorded is a list of `commands::Cmd`.
  - memory: `free_list`, `allocator`, `block_steps`, `memory`, `host_buffer`, `staging`,
    `retire`
  - meshes: `mesh`, `handles`, `slot_list`, `arena`, `mesh_residency`, `copies`
  - culling: `cull_math`, `bucket_geometry`, `cull_emit`, `cull`, `draw_prep`
  - images: `image`, `image_upload`, `mips`, `block_textures`, `materials`
  - passes: `commands`, `descriptors`, `mesh3d_desc`, `depth`, `pyramid`, `hiz`,
    `bloom`, `exposure`, `gpu_timer`, `frame_loop`
  - compute jobs: `compute`, `compute_input`, `compute_lane`, `compute_runtime`,
    `shader`
  - set-up: `instance`, `device`, `lane`
  - shared: `numbers`, `runs`, `text`, `bytes`, `rev`
- `app/` - the Vulkan side: creates the objects, plays the command lists, waits on
  timelines, and does the floating-point work (frustum and distance tests, exposure
  curves, color conversion).
- `tests/` - tests of the library on concrete values.

The public proof functions whose names start with `law_` state what holds across
operations: that live allocations never overlap, that a stale handle never
resolves, that a frame samples only depth that was stored for it, and so on.
