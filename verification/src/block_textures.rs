//! Palette of square RGBA8 layers in a texture array with headroom.
//!
//! A palette that grows within the array's capacity uploads only new and changed
//! layers; the sampled view stays. A palette that outgrows it, or changes its
//! texel size, moves to a new array: layers that are already on the GPU are copied
//! there, the rest is uploaded.

use vstd::prelude::*;

use crate::commands;
use crate::commands::{
    BufferImageRegion, Cmd, Extent, ImageBarrier, ImageRegion, LAYOUT_SHADER_READ_ONLY,
    LAYOUT_TRANSFER_DST, LAYOUT_TRANSFER_SRC, LAYOUT_UNDEFINED, NO_HANDOVER,
};
use crate::image::VIEW_2D_ARRAY;
use crate::image_upload;
use crate::image_upload::ImageUpload;
use crate::lane::{ExtraWait, Lane};
use crate::layouts;
use crate::layouts::{Held, Part};
use crate::mips;
use crate::numbers;
use crate::playback;
use crate::playback::{Gpu, Texels};
use crate::retire::{RetireQueue, TimelineValue};
use crate::runs;

verus! {

/// Floor on allocated array layers, so that a palette that grows in use does not
/// recreate the image.
pub const MIN_LAYER_CAPACITY: u32 = 64;

/// Texels are stored gamma-encoded and sampled as linear light.
pub const FORMAT_R8G8B8A8_SRGB: i32 = 43;

/// Allocated array-layer count: the next power of two, at least
/// [`MIN_LAYER_CAPACITY`], never above the device's limit.
pub open spec fn capacity_for(requested: int, device_limit: int) -> int {
    let want = if requested < 1 {
        1
    } else {
        requested
    };
    let limit = if device_limit < 1 {
        1
    } else {
        device_limit
    };
    if want >= limit {
        limit
    } else {
        let pow = numbers::next_pow2(want);
        let room = if pow < MIN_LAYER_CAPACITY {
            MIN_LAYER_CAPACITY as int
        } else {
            pow
        };
        if room < limit {
            room
        } else {
            limit
        }
    }
}

pub fn layer_capacity(requested: u32, device_limit: u32) -> (r: u32)
    ensures
        r == capacity_for(requested as int, device_limit as int),
{
    let want: u32 = if requested < 1 {
        1
    } else {
        requested
    };
    let limit: u32 = if device_limit < 1 {
        1
    } else {
        device_limit
    };
    if want >= limit {
        return limit;
    }
    let pow: u64 = numbers::next_power_of_two(want as u64);
    let room: u64 = if pow < MIN_LAYER_CAPACITY as u64 {
        MIN_LAYER_CAPACITY as u64
    } else {
        pow
    };
    if room < limit as u64 {
        room as u32
    } else {
        limit
    }
}

/// A palette that the device can hold fits its array.
pub proof fn law_capacity_holds_the_palette(requested: int, device_limit: int)
    requires
        1 <= requested <= device_limit,
    ensures
        requested <= capacity_for(requested, device_limit) <= device_limit,
        requested < device_limit && device_limit >= MIN_LAYER_CAPACITY ==> capacity_for(
            requested,
            device_limit,
        ) >= MIN_LAYER_CAPACITY,
{
    numbers::law_next_pow2_is_least(requested);
}

/// Layer `i` of `new` is not what `old` has there.
pub open spec fn differs(old_pixels: Seq<Seq<u8>>, new_pixels: Seq<Seq<u8>>, i: int) -> bool {
    i >= old_pixels.len() || old_pixels[i] != new_pixels[i]
}

/// Ascending indices below `n` that meet `p`.
pub open spec fn indices_where(p: spec_fn(int) -> bool, n: int) -> Seq<u32>
    decreases n,
{
    if n <= 0 {
        Seq::empty()
    } else if p(n - 1) {
        indices_where(p, n - 1).push((n - 1) as u32)
    } else {
        indices_where(p, n - 1)
    }
}

/// The list holds exactly the indices that meet `p`, in ascending order.
pub proof fn lemma_indices_where(p: spec_fn(int) -> bool, n: int)
    requires
        0 <= n <= u32::MAX + 1,
    ensures
        runs::ascending(indices_where(p, n)),
        indices_where(p, n).len() <= n,
        forall|k: int|
            0 <= k < indices_where(p, n).len() ==> (#[trigger] indices_where(p, n)[k]) < n && p(
                indices_where(p, n)[k] as int,
            ),
        forall|i: u32|
            #![trigger indices_where(p, n).contains(i)]
            indices_where(p, n).contains(i) <==> i < n && p(i as int),
    decreases n,
{
    if n > 0 {
        lemma_indices_where(p, n - 1);
        let a = indices_where(p, n - 1);
        let b = indices_where(p, n);
        assert forall|i: u32| #![trigger b.contains(i)] b.contains(i) <==> i < n && p(i as int) by {
            assert(a.contains(i) <==> i < n - 1 && p(i as int));
            if p(n - 1) {
                assert(b[b.len() - 1] == (n - 1) as u32);
                if a.contains(i) {
                    let k = choose|k: int| 0 <= k < a.len() && a[k] == i;
                    assert(b[k] == i);
                }
                if b.contains(i) {
                    let k = choose|k: int| 0 <= k < b.len() && b[k] == i;
                    if k < a.len() {
                        assert(a[k] == i);
                    }
                }
            }
        }
    }
}

/// `a` and `b` hold the same bytes.
fn same_bytes(a: &Vec<u8>, b: &Vec<u8>) -> (r: bool)
    ensures
        r == (a@ == b@),
{
    if a.len() != b.len() {
        return false;
    }
    let mut i: usize = 0;
    while i < a.len()
        invariant
            i <= a.len(),
            a.len() == b.len(),
            forall|k: int| 0 <= k < i ==> a[k] == #[trigger] b[k],
        decreases a.len() - i,
    {
        if a[i] != b[i] {
            proof {
                assert(a@[i as int] != b@[i as int]);
            }
            return false;
        }
        i = i + 1;
    }
    proof {
        assert(a@ =~= b@);
    }
    true
}

/// Layer `i` of `new_layers` is not what `old_layers` has there.
fn layer_differs(old_layers: &[Vec<u8>], new_layers: &[Vec<u8>], i: usize) -> (r: bool)
    requires
        i < new_layers.len(),
    ensures
        r == differs(mips::pixels_of(old_layers@), mips::pixels_of(new_layers@), i as int),
{
    if i >= old_layers.len() {
        true
    } else {
        !same_bytes(&old_layers[i], &new_layers[i])
    }
}

/// Indices in `new_layers` whose bytes differ from `old_layers`; what is new
/// behind its end counts as different. A shorter list names no dropped index.
pub fn changed_layer_indices(old_layers: &[Vec<u8>], new_layers: &[Vec<u8>]) -> (out: Vec<u32>)
    requires
        new_layers.len() <= u32::MAX,
    ensures
        out@ == indices_where(
            |i: int| differs(mips::pixels_of(old_layers@), mips::pixels_of(new_layers@), i),
            new_layers.len() as int,
        ),
{
    let ghost p = |i: int| differs(mips::pixels_of(old_layers@), mips::pixels_of(new_layers@), i);
    let mut out: Vec<u32> = Vec::new();
    let mut i: usize = 0;
    while i < new_layers.len()
        invariant
            new_layers.len() <= u32::MAX,
            i <= new_layers.len(),
            p == (|i: int|
                differs(mips::pixels_of(old_layers@), mips::pixels_of(new_layers@), i)),
            out@ == indices_where(p, i as int),
        decreases new_layers.len() - i,
    {
        if layer_differs(old_layers, new_layers, i) {
            out.push(i as u32);
        }
        i = i + 1;
    }
    out
}

/// Layers that a grow can copy on the GPU: none when the texel size changes.
pub open spec fn copied_layers(old_size: int, old_written: int, new_size: int, used: int) -> int {
    if new_size != old_size {
        0
    } else if old_written < used {
        old_written
    } else {
        used
    }
}

/// How a grow splits the work: the count of leading layers to copy on the GPU,
/// and the indices to upload (everything behind them, and those that changed).
pub fn grow_plan(
    old_size: u32,
    old_written: u32,
    old_pixels: &[Vec<u8>],
    new_size: u32,
    new_layers: &[Vec<u8>],
) -> (r: (u32, Vec<u32>))
    requires
        new_layers.len() <= u32::MAX,
    ensures
        r.0 == copied_layers(
            old_size as int,
            old_written as int,
            new_size as int,
            new_layers.len() as int,
        ),
        r.1@ == indices_where(
            |i: int|
                i >= r.0 || differs(
                    mips::pixels_of(old_pixels@),
                    mips::pixels_of(new_layers@),
                    i,
                ),
            new_layers.len() as int,
        ),
{
    let used: u32 = new_layers.len() as u32;
    let copied: u32 = if new_size != old_size {
        0
    } else if old_written < used {
        old_written
    } else {
        used
    };
    let ghost p = |i: int|
        i >= copied || differs(mips::pixels_of(old_pixels@), mips::pixels_of(new_layers@), i);
    let mut staging: Vec<u32> = Vec::new();
    let mut i: usize = 0;
    while i < new_layers.len()
        invariant
            new_layers.len() <= u32::MAX,
            i <= new_layers.len(),
            p == (|i: int|
                i >= copied || differs(
                    mips::pixels_of(old_pixels@),
                    mips::pixels_of(new_layers@),
                    i,
                )),
            staging@ == indices_where(p, i as int),
        decreases new_layers.len() - i,
    {
        let idx: u32 = i as u32;
        if idx >= copied || layer_differs(old_pixels, new_layers, i) {
            staging.push(idx);
        }
        i = i + 1;
    }
    (copied, staging)
}

/// Copies of every mip level of the first `layers` layers.
pub open spec fn mip_copies(size: int, levels: int, layers: u32) -> Seq<ImageRegion> {
    Seq::new(
        levels as nat,
        |m: int|
            ImageRegion {
                mip: m as u32,
                layers,
                width: numbers::mip_side(size, m) as u32,
                height: numbers::mip_side(size, m) as u32,
            },
    )
}

pub fn image_copy_mips(size: u32, mip_levels: u32, layer_count: u32) -> (r: Vec<ImageRegion>)
    requires
        size >= 1,
        mip_levels <= 32,
    ensures
        r@ == mip_copies(size as int, mip_levels as int, layer_count),
{
    let mut r: Vec<ImageRegion> = Vec::new();
    let mut m: u32 = 0;
    proof {
        assert(r@ =~= mip_copies(size as int, 0, layer_count));
    }
    while m < mip_levels
        invariant
            size >= 1,
            m <= mip_levels <= 32,
            r@ == mip_copies(size as int, m as int, layer_count),
        decreases mip_levels - m,
    {
        let side: u32 = numbers::mip_extent(size, m);
        proof {
            numbers::lemma_mip_side(size as int, m as int);
        }
        r.push(ImageRegion { mip: m, layers: layer_count, width: side, height: side });
        m = m + 1;
        proof {
            assert(r@ =~= mip_copies(size as int, m as int, layer_count));
        }
    }
    r
}

/// A layer to upload.
pub struct PendingLayer {
    pub index: u32,
    pub pixels: Vec<u8>,
}

/// A queued move to another array.
pub struct PendingGrow {
    pub size: u32,
    pub layers: Vec<Vec<u8>>,
    /// Leading layers copied from the bound array.
    pub copied: u32,
    pub staging: Vec<PendingLayer>,
}

/// The GPU objects of one texture array.
#[derive(Clone, Copy, Debug, PartialEq, Eq, Structural)]
pub struct GpuArray {
    pub image: u64,
    pub memory: u64,
    pub view: u64,
    pub sampler: u64,
}

/// The bound palette.
pub struct BlockTextures {
    pub array: GpuArray,
    /// Used layers.
    pub layers: u32,
    pub size: u32,
    pub capacity: u32,
    pub mip_levels: u32,
    /// The palette as last set.
    pub layer_pixels: Vec<Vec<u8>>,
    /// High-water mark of layers written on the GPU.
    pub written: u32,
    /// Layers to upload, by ascending index.
    pub pending: Vec<PendingLayer>,
    pub max_layers: u32,
    pub pending_grow: Option<PendingGrow>,
    pub staging_retire: RetireQueue<(u64, u64)>,
    pub transfer_retire: RetireQueue<(u64, u64)>,
    /// Releases of overwritten layers: the semaphore and the command buffer.
    pub release_cmds: RetireQueue<(u64, u64)>,
    /// What the recorded work leaves in each layer of the bound array.
    pub gpu: Ghost<Map<int, Seq<u8>>>,
}

/// Indices of a queue.
pub open spec fn indices(q: Seq<PendingLayer>) -> Seq<u32> {
    Seq::new(q.len(), |k: int| q[k].index)
}

/// A queue is ascending and holds what the palette holds.
pub open spec fn queue_ok(q: Seq<PendingLayer>, palette: Seq<Seq<u8>>) -> bool {
    &&& runs::ascending(indices(q))
    &&& forall|k: int|
        0 <= k < q.len() ==> (#[trigger] q[k]).index < palette.len() && q[k].pixels@
            == palette[q[k].index as int]
}

/// Layer `i` is in the queue.
pub open spec fn queued(q: Seq<PendingLayer>, i: int) -> bool {
    exists|k: int| 0 <= k < q.len() && (#[trigger] q[k]).index == i
}

/// Every layer of a palette has `bytes` bytes.
pub open spec fn all_sized(palette: Seq<Seq<u8>>, size: int) -> bool {
    forall|i: int|
        0 <= i < palette.len() ==> (#[trigger] palette[i]).len() == mips::level_bytes(size)
}

/// One opaque white texel.
pub open spec fn white_texel() -> Seq<u8> {
    seq![255u8, 255u8, 255u8, 255u8]
}

/// The palette of one white texel.
pub fn default_layers() -> (layers: Vec<Vec<u8>>)
    ensures
        mips::pixels_of(layers@) == seq![white_texel()],
        layers.len() == 1,
        all_sized(mips::pixels_of(layers@), 1),
{
    let mut texel: Vec<u8> = Vec::new();
    texel.push(255);
    texel.push(255);
    texel.push(255);
    texel.push(255);
    let mut layers: Vec<Vec<u8>> = Vec::new();
    layers.push(texel);
    proof {
        assert(layers@[0]@ =~= white_texel());
        assert(mips::pixels_of(layers@) =~= seq![white_texel()]);
        assert(mips::level_bytes(1) == 4);
    }
    layers
}

/// The first upload of a palette of `size`-texel layers: an array with headroom, of
/// which only the palette's layers are written, with a full chain of levels each.
pub fn array_upload<F: Fn(u8, u8, u8, u8) -> u8>(
    size: u32,
    layers: &Vec<Vec<u8>>,
    max_layers: u32,
    mean: &F,
) -> (r: ImageUpload)
    requires
        size >= 1,
        1 <= layers.len() <= u32::MAX,
        all_sized(mips::pixels_of(layers@), size as int),
        forall|a: u8, b: u8, c: u8, d: u8| call_requires(*mean, (a, b, c, d)),
    ensures
        r.extent == (Extent { width: size, height: size }),
        r.format == FORMAT_R8G8B8A8_SRGB,
        r.mip_levels == numbers::bit_length(size as int),
        r.array_layers == capacity_for(layers.len() as int, max_layers as int),
        r.view_type == VIEW_2D_ARRAY,
        r.regions@ == mips::major_regions(
            layers.len() as int,
            size as int,
            r.mip_levels as int,
        ),
        r.bytes.len() == mips::major_offset(
            layers.len() as int,
            size as int,
            r.mip_levels as int,
            0,
        ),
        forall|l: int|
            0 <= l < layers.len() ==> mips::is_chain(
                *mean,
                #[trigger] layers[l]@,
                size as int,
                r.mip_levels as int,
                mips::major_chain(
                    r.bytes@,
                    layers.len() as int,
                    l,
                    size as int,
                    r.mip_levels as int,
                ),
            ),
{
    let used: u32 = layers.len() as u32;
    let mip_levels: u32 = numbers::mip_count(size);
    proof {
        assert forall|l: int| 0 <= l < layers.len() implies (#[trigger] layers[l]).len()
            == mips::level_bytes(size as int) by {
            assert(mips::pixels_of(layers@)[l].len() == mips::level_bytes(size as int));
        }
    }
    let (bytes, regions): (Vec<u8>, Vec<BufferImageRegion>) = mips::pack_all(
        size,
        mip_levels,
        layers,
        mean,
    );
    ImageUpload {
        extent: Extent { width: size, height: size },
        format: FORMAT_R8G8B8A8_SRGB,
        mip_levels,
        array_layers: layer_capacity(used, max_layers),
        view_type: VIEW_2D_ARRAY,
        bytes,
        regions,
    }
}

impl BlockTextures {
    /// The palette as last set.
    pub open spec fn palette_spec(&self) -> Seq<Seq<u8>> {
        mips::pixels_of(self.layer_pixels@)
    }

    /// The texel size once queued work is done.
    pub open spec fn target_size(&self) -> u32 {
        match self.pending_grow {
            Some(g) => g.size,
            None => self.size,
        }
    }

    pub open spec fn wf(&self) -> bool {
        &&& self.size >= 1
        &&& self.mip_levels == numbers::bit_length(self.size as int)
        &&& 1 <= self.mip_levels <= 32
        &&& self.layers == self.layer_pixels.len()
        &&& all_sized(self.palette_spec(), self.target_size() as int)
        &&& queue_ok(self.pending@, self.palette_spec())
        &&& self.pending_grow matches Some(g) ==> {
            &&& g.size >= 1
            &&& mips::pixels_of(g.layers@) == self.palette_spec()
            &&& queue_ok(g.staging@, self.palette_spec())
            &&& self.pending.len() == 0
        }
    }

    /// The used layers lie inside the array.
    pub open spec fn fits(&self) -> bool {
        self.layers <= self.capacity && self.written <= self.capacity
    }

    /// Layer `i` will hold what the palette says once queued work is done.
    pub open spec fn layer_synced(&self, i: int) -> bool {
        match self.pending_grow {
            None => queued(self.pending@, i) || (self.gpu@.dom().contains(i) && self.gpu@[i]
                == self.palette_spec()[i]),
            Some(g) => queued(g.staging@, i) || (i < g.copied && self.gpu@.dom().contains(i)
                && self.gpu@[i] == self.palette_spec()[i]),
        }
    }

    /// Every used layer is on the GPU as the palette says, or will be after the
    /// next flush.
    pub open spec fn synced(&self) -> bool {
        &&& forall|i: int| 0 <= i < self.layers ==> #[trigger] self.layer_synced(i)
        &&& forall|i: int| 0 <= i < self.written ==> #[trigger] self.gpu@.dom().contains(i)
    }

    /// The array of one white texel that stands in before a palette is set.
    pub fn new_default(array: GpuArray, max_layers: u32) -> (r: Self)
        ensures
            r.wf(),
            r.synced(),
            r.array == array,
            r.size == 1,
            r.palette_spec() == seq![white_texel()],
            r.capacity == capacity_for(1, max_layers as int),
            r.mip_levels == 1,
            r.max_layers == max_layers,
    {
        let layers: Vec<Vec<u8>> = default_layers();
        let r: Self = Self::upload(array, 1, layers, max_layers);
        proof {
            reveal_with_fuel(numbers::bit_length, 2);
        }
        r
    }

    /// Wraps a freshly uploaded array.
    pub fn upload(array: GpuArray, size: u32, layers: Vec<Vec<u8>>, max_layers: u32) -> (r: Self)
        requires
            size >= 1,
            1 <= layers.len() <= u32::MAX,
            all_sized(mips::pixels_of(layers@), size as int),
        ensures
            r.wf(),
            r.synced(),
            r.array == array,
            r.size == size,
            r.palette_spec() == mips::pixels_of(layers@),
            r.capacity == capacity_for(layers.len() as int, max_layers as int),
            r.mip_levels == numbers::bit_length(size as int),
            r.written == r.layers,
            r.max_layers == max_layers,
            r.pending.len() == 0,
            r.pending_grow is None,
            r.staging_retire@.len() == 0,
            r.transfer_retire@.len() == 0,
            r.release_cmds@.len() == 0,
            layers.len() <= max_layers ==> r.fits(),
    {
        let used: u32 = layers.len() as u32;
        let capacity: u32 = layer_capacity(used, max_layers);
        let mip_levels: u32 = numbers::mip_count(size);
        let ghost palette = mips::pixels_of(layers@);
        let r = BlockTextures {
            array,
            layers: used,
            size,
            capacity,
            mip_levels,
            layer_pixels: layers,
            written: used,
            pending: Vec::new(),
            max_layers,
            pending_grow: None,
            staging_retire: RetireQueue::new(),
            transfer_retire: RetireQueue::new(),
            release_cmds: RetireQueue::new(),
            gpu: Ghost(Map::new(|i: int| 0 <= i < palette.len(), |i: int| palette[i])),
        };
        proof {
            if layers.len() <= max_layers {
                law_capacity_holds_the_palette(used as int, max_layers as int);
            }
            assert forall|i: int| 0 <= i < r.layers implies #[trigger] r.layer_synced(i) by {
                assert(r.gpu@.dom().contains(i));
            }
        }
        r
    }

    /// Allocated layers.
    pub fn capacity(&self) -> (r: u32)
        ensures
            r == self.capacity,
    {
        self.capacity
    }

    /// The palette as last set.
    pub fn palette(&self) -> (r: &[Vec<u8>])
        ensures
            r@ == self.layer_pixels@,
    {
        self.layer_pixels.as_slice()
    }

    /// Same texel size, and as many layers as the array has. Not while a grow is
    /// queued: a later set joins that grow.
    pub open spec fn in_place(&self, size: int, layer_count: int) -> bool {
        &&& self.pending_grow is None
        &&& size == self.size
        &&& 1 <= layer_count <= self.capacity
    }

    pub fn can_update_in_place(&self, size: u32, layer_count: u32) -> (r: bool)
        ensures
            r == self.in_place(size as int, layer_count as int),
    {
        self.pending_grow.is_none() && size == self.size && layer_count >= 1 && layer_count
            <= self.capacity
    }

    /// Some pending layer is one that the GPU may be sampling.
    pub fn has_overwrite_pending(&self) -> (r: bool)
        ensures
            r == (exists|k: int|
                0 <= k < self.pending.len() && (#[trigger] self.pending[k]).index < self.written),
    {
        let mut k: usize = 0;
        while k < self.pending.len()
            invariant
                k <= self.pending.len(),
                forall|j: int| 0 <= j < k ==> (#[trigger] self.pending[j]).index >= self.written,
            decreases self.pending.len() - k,
        {
            if self.pending[k].index < self.written {
                return true;
            }
            k = k + 1;
        }
        false
    }

    /// Something waits for a timeline.
    pub fn has_garbage(&self) -> (r: bool)
        ensures
            r == (self.staging_retire@.len() > 0 || self.transfer_retire@.len() > 0
                || self.release_cmds@.len() > 0),
    {
        !self.staging_retire.is_empty() || !self.transfer_retire.is_empty()
            || !self.release_cmds.is_empty()
    }
}

/// Replaces the entry for `index`, or puts one in its place.
fn put(q: &mut Vec<PendingLayer>, index: u32, pixels: Vec<u8>)
    requires
        runs::ascending(indices(old(q)@)),
    ensures
        runs::ascending(indices(final(q)@)),
        forall|i: int|
            #[trigger] queued(final(q)@, i) <==> queued(old(q)@, i) || i == index,
        forall|k: int|
            0 <= k < final(q).len() ==> {
                ||| ((#[trigger] final(q)@[k]).index == index && final(q)@[k].pixels@ == pixels@)
                ||| (final(q)@[k].index != index && exists|j: int|
                    0 <= j < old(q).len() && #[trigger] old(q)@[j] == final(q)@[k])
            },
{
    let ghost orig = q@;
    let ghost data = pixels@;
    let mut i: usize = q.len();
    while i > 0 && q[i - 1].index > index
        invariant
            q@ == orig,
            runs::ascending(indices(orig)),
            i <= q.len(),
            forall|k: int| i <= k < q.len() ==> (#[trigger] q[k]).index > index,
        decreases i,
    {
        i = i - 1;
    }
    proof {
        assert forall|k: int| 0 <= k < i - 1 implies (#[trigger] orig[k]).index < orig[i - 1].index by {
            assert(indices(orig)[k] < indices(orig)[i - 1]);
        }
    }
    if i > 0 && q[i - 1].index == index {
        q[i - 1].pixels = pixels;
        proof {
            let now = q@;
            assert(indices(now) =~= indices(orig));
            assert forall|x: int| #[trigger] queued(now, x) <==> queued(orig, x) || x == index by {
                if queued(now, x) {
                    let k = choose|k: int| 0 <= k < now.len() && (#[trigger] now[k]).index == x;
                    assert(indices(now)[k] == indices(orig)[k]);
                    assert(orig[k].index == x);
                }
                if queued(orig, x) {
                    let k = choose|k: int| 0 <= k < orig.len() && (#[trigger] orig[k]).index == x;
                    assert(indices(now)[k] == indices(orig)[k]);
                    assert(now[k].index == x);
                }
                assert(now[i - 1].index == index);
            }
            assert forall|k: int| 0 <= k < now.len() implies {
                ||| ((#[trigger] now[k]).index == index && now[k].pixels@ == data)
                ||| (now[k].index != index && exists|j: int|
                    0 <= j < orig.len() && #[trigger] orig[j] == now[k])
            } by {
                if k != i - 1 {
                    assert(now[k] == orig[k]);
                    assert(k < i - 1 ==> orig[k].index < orig[i - 1].index);
                }
            }
        }
        return ;
    }
    q.insert(i, PendingLayer { index, pixels });
    proof {
        let now = q@;
        assert(now =~= orig.insert(i as int, now[i as int]));
        assert forall|a: int, b: int| 0 <= a < b < now.len() implies #[trigger] indices(now)[a]
            < #[trigger] indices(now)[b] by {
            let pa = if a < i {
                a
            } else {
                a - 1
            };
            let pb = if b < i {
                b
            } else {
                b - 1
            };
            if a != i && b != i {
                assert(indices(orig)[pa] < indices(orig)[pb]);
                assert(now[a] == orig[pa] && now[b] == orig[pb]);
            } else if a == i {
                assert(now[b] == orig[pb]);
                assert(orig[pb].index > index);
            } else {
                assert(now[a] == orig[pa]);
                assert(orig[pa].index < index);
            }
        }
        assert forall|x: int| #[trigger] queued(now, x) <==> queued(orig, x) || x == index by {
            if queued(now, x) {
                let k = choose|k: int| 0 <= k < now.len() && (#[trigger] now[k]).index == x;
                if k < i {
                    assert(orig[k].index == x);
                } else if k > i {
                    assert(orig[k - 1].index == x);
                }
            }
            if queued(orig, x) {
                let k = choose|k: int| 0 <= k < orig.len() && (#[trigger] orig[k]).index == x;
                if k < i {
                    assert(now[k].index == x);
                } else {
                    assert(now[k + 1].index == x);
                }
            }
            assert(now[i as int].index == index);
        }
        assert forall|k: int| 0 <= k < now.len() implies {
            ||| ((#[trigger] now[k]).index == index && now[k].pixels@ == data)
            ||| (now[k].index != index && exists|j: int|
                0 <= j < orig.len() && #[trigger] orig[j] == now[k])
        } by {
            if k < i {
                assert(orig[k] == now[k]);
                assert(orig[k].index < index);
            } else if k > i {
                assert(orig[k - 1] == now[k]);
            }
        }
    }
}

/// A copy of `layers`.
pub fn copy_layers(layers: &[Vec<u8>]) -> (r: Vec<Vec<u8>>)
    ensures
        r.len() == layers@.len(),
        mips::pixels_of(r@) == mips::pixels_of(layers@),
{
    let mut r: Vec<Vec<u8>> = Vec::new();
    let mut i: usize = 0;
    while i < layers.len()
        invariant
            i <= layers@.len(),
            r.len() == i,
            forall|k: int| 0 <= k < i ==> (#[trigger] r[k])@ == layers@[k]@,
        decreases layers.len() - i,
    {
        r.push(mips::copy_bytes(&layers[i]));
        i = i + 1;
    }
    proof {
        assert(mips::pixels_of(r@) =~= mips::pixels_of(layers@));
    }
    r
}

/// Drops the entries from index `n` on.
fn drop_from(q: &mut Vec<PendingLayer>, n: u32)
    requires
        runs::ascending(indices(old(q)@)),
    ensures
        runs::ascending(indices(final(q)@)),
        forall|i: int| #[trigger] queued(final(q)@, i) <==> queued(old(q)@, i) && i < n,
        final(q).len() <= old(q).len(),
        final(q)@ == old(q)@.take(final(q).len() as int),
        forall|k: int| 0 <= k < final(q).len() ==> (#[trigger] final(q)@[k]).index < n,
{
    let ghost orig = q@;
    proof {
        assert(orig.take(orig.len() as int) =~= orig);
    }
    while q.len() > 0 && q[q.len() - 1].index >= n
        invariant
            runs::ascending(indices(orig)),
            q.len() <= orig.len(),
            q@ == orig.take(q.len() as int),
            forall|k: int| q.len() <= k < orig.len() ==> (#[trigger] orig[k]).index >= n,
        decreases q.len(),
    {
        let ghost before = q@;
        let _ = q.pop();
        proof {
            assert(q@ =~= orig.take(q.len() as int));
            assert(orig[q.len() as int] == before[q.len() as int]);
        }
    }
    proof {
        let now = q@;
        assert forall|a: int, b: int| 0 <= a < b < now.len() implies #[trigger] indices(now)[a]
            < #[trigger] indices(now)[b] by {
            assert(indices(orig)[a] < indices(orig)[b]);
        }
        assert forall|k: int| 0 <= k < now.len() implies (#[trigger] now[k]).index < n by {
            if k < now.len() - 1 {
                assert(indices(orig)[k] < indices(orig)[now.len() - 1]);
            }
        }
        assert forall|i: int| #[trigger] queued(now, i) <==> queued(orig, i) && i < n by {
            if queued(now, i) {
                let k = choose|k: int| 0 <= k < now.len() && (#[trigger] now[k]).index == i;
                assert(orig[k].index == i);
            }
            if queued(orig, i) && i < n {
                let k = choose|k: int| 0 <= k < orig.len() && (#[trigger] orig[k]).index == i;
                assert(k < now.len());
                assert(now[k].index == i);
            }
        }
    }
}

impl BlockTextures {
    /// Sets the palette in place: queues only what differs from the palette as it
    /// was, and drops queued layers that are no longer used.
    pub fn queue_set(&mut self, layers: &[Vec<u8>])
        requires
            old(self).wf(),
            old(self).in_place(old(self).size as int, layers@.len() as int),
            all_sized(mips::pixels_of(layers@), old(self).size as int),
        ensures
            final(self).wf(),
            *final(self) == (BlockTextures {
                layers: final(self).layers,
                layer_pixels: final(self).layer_pixels,
                pending: final(self).pending,
                ..*old(self)
            }),
            final(self).palette_spec() == mips::pixels_of(layers@),
            forall|i: int|
                #[trigger] queued(final(self).pending@, i) <==> 0 <= i < layers@.len() && (queued(
                    old(self).pending@,
                    i,
                ) || differs(old(self).palette_spec(), mips::pixels_of(layers@), i)),
            old(self).synced() ==> final(self).synced(),
            old(self).fits() ==> final(self).fits(),
    {
        let ghost s0 = *self;
        let ghost was = self.palette_spec();
        let ghost now = mips::pixels_of(layers@);
        let ghost p = |i: int| differs(was, now, i);
        let changed = changed_layer_indices(self.layer_pixels.as_slice(), layers);
        proof {
            assert(changed@ == indices_where(p, now.len() as int));
            lemma_indices_where(p, now.len() as int);
        }
        let mut k: usize = 0;
        while k < changed.len()
            invariant
                k <= changed.len(),
                now == mips::pixels_of(layers@),
                now.len() <= u32::MAX,
                queue_ok(s0.pending@, was),
                *self == (BlockTextures { pending: self.pending, ..s0 }),
                runs::ascending(indices(self.pending@)),
                forall|j: int|
                    0 <= j < changed.len() ==> (#[trigger] changed[j]) < now.len() && differs(
                        was,
                        now,
                        changed[j] as int,
                    ),
                forall|i: int|
                    #[trigger] queued(self.pending@, i) <==> queued(s0.pending@, i) || exists|j: int|
                        0 <= j < k && #[trigger] changed[j] == i,
                forall|e: int|
                    0 <= e < self.pending.len() ==> {
                        ||| ((#[trigger] self.pending[e]).index < now.len() && self.pending[e].pixels@
                            == now[self.pending[e].index as int])
                        ||| (exists|j: int|
                            0 <= j < s0.pending.len() && #[trigger] s0.pending[j]
                                == self.pending[e]) && forall|j: int|
                            0 <= j < k ==> #[trigger] changed[j] != self.pending[e].index
                    },
            decreases changed.len() - k,
        {
            let index: u32 = changed[k];
            let ghost before = self.pending@;
            put(&mut self.pending, index, mips::copy_bytes(&layers[index as usize]));
            proof {
                let q = self.pending@;
                assert forall|i: int| #[trigger] queued(q, i) <==> queued(s0.pending@, i) || exists|
                    j: int,
                |
                    0 <= j < k + 1 && #[trigger] changed[j] == i by {
                    if queued(q, i) {
                        if i == index {
                            assert(changed[k as int] == i);
                        } else {
                            assert(queued(before, i));
                        }
                    }
                    if exists|j: int| 0 <= j < k + 1 && #[trigger] changed[j] == i {
                        let j = choose|j: int| 0 <= j < k + 1 && #[trigger] changed[j] == i;
                        if j < k {
                            assert(queued(before, i));
                        }
                    }
                    if queued(s0.pending@, i) {
                        assert(queued(before, i));
                    }
                }
                assert forall|e: int| 0 <= e < q.len() implies {
                    ||| ((#[trigger] q[e]).index < now.len() && q[e].pixels@
                        == now[q[e].index as int])
                    ||| (exists|j: int|
                        0 <= j < s0.pending.len() && #[trigger] s0.pending[j] == q[e]) && forall|j: int|
                        0 <= j < k + 1 ==> #[trigger] changed[j] != q[e].index
                } by {
                    if q[e].index != index {
                        let j = choose|j: int| 0 <= j < before.len() && #[trigger] before[j] == q[e];
                        assert(before[j] == q[e]);
                    }
                }
            }
            k = k + 1;
        }
        let ghost mid = self.pending@;
        self.layer_pixels = copy_layers(layers);
        self.layers = layers.len() as u32;
        drop_from(&mut self.pending, layers.len() as u32);
        proof {
            let q = self.pending@;
            assert(self.palette_spec() == now);
            assert forall|e: int| 0 <= e < q.len() implies (#[trigger] q[e]).index < now.len()
                && q[e].pixels@ == now[q[e].index as int] by {
                assert(q[e] == mid[e]);
                let i = q[e].index;
                if exists|j: int| 0 <= j < s0.pending.len() && #[trigger] s0.pending[j] == mid[e] {
                    let j = choose|j: int|
                        0 <= j < s0.pending.len() && #[trigger] s0.pending[j] == mid[e];
                    assert(s0.pending[j].pixels@ == was[i as int]);
                    if differs(was, now, i as int) {
                        assert(indices_where(p, now.len() as int).contains(i));
                        let c = choose|c: int| 0 <= c < changed.len() && changed[c] == i;
                        assert(changed[c] == i);
                    }
                }
            }
            assert forall|i: int| #[trigger] queued(q, i) <==> 0 <= i < now.len() && (queued(
                s0.pending@,
                i,
            ) || differs(was, now, i)) by {
                assert(queued(q, i) <==> queued(mid, i) && i < now.len());
                if queued(q, i) {
                    let e = choose|e: int| 0 <= e < q.len() && (#[trigger] q[e]).index == i;
                    assert(0 <= i);
                    if !queued(s0.pending@, i) {
                        let j = choose|j: int| 0 <= j < changed.len() && #[trigger] changed[j] == i;
                        assert(differs(was, now, i));
                    }
                }
                if 0 <= i < now.len() && differs(was, now, i) {
                    assert(indices_where(p, now.len() as int).contains(i as u32));
                    let c = choose|c: int| 0 <= c < changed.len() && changed[c] == i as u32;
                    assert(changed[c] == i);
                }
            }
            if s0.synced() {
                assert forall|i: int| 0 <= i < self.layers implies #[trigger] self.layer_synced(i) by {
                    if !queued(q, i) {
                        assert(!differs(was, now, i));
                        assert(s0.layer_synced(i));
                    }
                }
            }
        }
    }
}

/// Of `new_pixels`, as many as the device still takes behind `used` layers.
pub open spec fn admitted(new_pixels: Seq<Seq<u8>>, used: int, device_limit: int) -> Seq<Seq<u8>> {
    let room = if device_limit > used {
        device_limit - used
    } else {
        0
    };
    if new_pixels.len() <= room {
        new_pixels
    } else {
        new_pixels.take(room)
    }
}

/// The indices `from`, `from + 1`, .. of `n` appended layers.
pub open spec fn appended_indices(from: int, n: int) -> Seq<u32> {
    Seq::new(n as nat, |k: int| (from + k) as u32)
}

proof fn lemma_push_pixels(layers: Seq<Vec<u8>>, layer: Vec<u8>)
    ensures
        mips::pixels_of(layers.push(layer)) == mips::pixels_of(layers).push(layer@),
{
    assert(mips::pixels_of(layers.push(layer)) =~= mips::pixels_of(layers).push(layer@));
}

/// A queue with one more entry behind its last.
proof fn lemma_queue_push(
    q: Seq<PendingLayer>,
    palette: Seq<Seq<u8>>,
    e: PendingLayer,
    more: Seq<Seq<u8>>,
)
    requires
        queue_ok(q, palette),
        e.index == palette.len(),
        more == palette.push(e.pixels@),
    ensures
        queue_ok(q.push(e), more),
        indices(q.push(e)) == indices(q).push(e.index),
        forall|i: int|
            #[trigger] queued(q.push(e), i) <==> queued(q, i) || i == e.index,
{
    let now = q.push(e);
    assert(indices(now) =~= indices(q).push(e.index));
    assert forall|a: int, b: int| 0 <= a < b < now.len() implies #[trigger] indices(now)[a]
        < #[trigger] indices(now)[b] by {
        if b < q.len() {
            assert(indices(q)[a] < indices(q)[b]);
        } else {
            assert(q[a].index < palette.len());
        }
    }
    assert forall|k: int| 0 <= k < now.len() implies (#[trigger] now[k]).index < more.len()
        && now[k].pixels@ == more[now[k].index as int] by {
        if k < q.len() {
            assert(q[k].index < palette.len());
        }
    }
    assert forall|i: int| #[trigger] queued(now, i) <==> queued(q, i) || i == e.index by {
        if queued(now, i) {
            let k = choose|k: int| 0 <= k < now.len() && (#[trigger] now[k]).index == i;
            if k < q.len() {
                assert(q[k].index == i);
            }
        }
        if queued(q, i) {
            let k = choose|k: int| 0 <= k < q.len() && (#[trigger] q[k]).index == i;
            assert(now[k].index == i);
        }
        assert(now[q.len() as int].index == e.index);
    }
}

/// A layer that a grow to `layers` copies out of the bound array although an upload
/// to it was queued: the copy is what the array holds now.
pub open spec fn copied_early(t: BlockTextures, copied: u32, layers: Seq<Seq<u8>>, i: int) -> bool {
    &&& 0 <= i < copied
    &&& !differs(t.palette_spec(), layers, i)
    &&& queued(t.waiting(), i)
}

impl BlockTextures {
    /// What waits to reach the bound array, or the array that a queued grow moves to.
    pub open spec fn waiting(&self) -> Seq<PendingLayer> {
        match self.pending_grow {
            Some(g) => g.staging@,
            None => self.pending@,
        }
    }

    /// Queues a move to another array, for a change of texel size or a palette
    /// past the capacity. Takes the place of everything queued. Layers that agree with
    /// the palette as last set are copied out of the bound array as they are there,
    /// whether or not that palette has reached it.
    pub fn queue_grow(&mut self, size: u32, layers: Vec<Vec<u8>>)
        requires
            old(self).wf(),
            size >= 1,
            1 <= layers.len() <= u32::MAX,
            all_sized(mips::pixels_of(layers@), size as int),
        ensures
            final(self).wf(),
            *final(self) == (BlockTextures {
                layers: final(self).layers,
                layer_pixels: final(self).layer_pixels,
                pending: final(self).pending,
                pending_grow: final(self).pending_grow,
                ..*old(self)
            }),
            final(self).palette_spec() == mips::pixels_of(layers@),
            final(self).pending.len() == 0,
            final(self).pending_grow matches Some(g) && {
                &&& g.size == size
                &&& g.copied == copied_layers(
                    old(self).size as int,
                    old(self).written as int,
                    size as int,
                    layers.len() as int,
                )
                &&& indices(g.staging@) == indices_where(
                    |i: int|
                        i >= g.copied || differs(
                            old(self).palette_spec(),
                            mips::pixels_of(layers@),
                            i,
                        ),
                    layers.len() as int,
                )
            },
            old(self).synced() ==> (final(self).synced() <==> forall|i: int| #[trigger]
                copied_early(
                    *old(self),
                    final(self).pending_grow->Some_0.copied,
                    mips::pixels_of(layers@),
                    i,
                ) ==> old(self).gpu@.dom().contains(i) && old(self).gpu@[i] == layers[i]@),
    {
        let ghost s0 = *self;
        let ghost was = self.palette_spec();
        let ghost now = mips::pixels_of(layers@);
        let (copied, staging_idx) = grow_plan(
            self.size,
            self.written,
            self.layer_pixels.as_slice(),
            size,
            layers.as_slice(),
        );
        let ghost p = |i: int| i >= copied || differs(was, now, i);
        proof {
            lemma_indices_where(p, now.len() as int);
        }
        let mut staging: Vec<PendingLayer> = Vec::new();
        let mut k: usize = 0;
        while k < staging_idx.len()
            invariant
                k <= staging_idx.len(),
                staging.len() == k,
                now == mips::pixels_of(layers@),
                forall|j: int|
                    0 <= j < staging_idx.len() ==> (#[trigger] staging_idx[j]) < now.len(),
                forall|j: int|
                    0 <= j < k ==> (#[trigger] staging[j]).index == staging_idx[j]
                        && staging[j].pixels@ == now[staging_idx[j] as int],
            decreases staging_idx.len() - k,
        {
            let index: u32 = staging_idx[k];
            staging.push(
                PendingLayer { index, pixels: mips::copy_bytes(&layers[index as usize]) },
            );
            k = k + 1;
        }
        proof {
            assert(indices(staging@) =~= staging_idx@);
            assert(queue_ok(staging@, now));
        }
        self.pending.clear();
        self.layers = layers.len() as u32;
        self.layer_pixels = copy_layers(layers.as_slice());
        self.pending_grow = Some(PendingGrow { size, layers, copied, staging });
        proof {
            assert(indices(self.pending@) =~= Seq::<u32>::empty());
            if s0.synced() {
                if forall|i: int| #[trigger]
                    copied_early(s0, copied, now, i) ==> s0.gpu@.dom().contains(i) && s0.gpu@[i]
                        == now[i] {
                    assert forall|i: int| 0 <= i < self.layers implies #[trigger] self.layer_synced(
                        i,
                    ) by {
                        if p(i) {
                            assert(indices_where(p, now.len() as int).contains(i as u32));
                            let j = choose|j: int|
                                0 <= j < staging_idx.len() && staging_idx[j] == i as u32;
                            assert(staging[j].index == i);
                            assert(queued(staging@, i));
                        } else {
                            assert(s0.layer_synced(i));
                            assert(copied_early(s0, copied, now, i) || !queued(s0.waiting(), i));
                        }
                    }
                }
                if self.synced() {
                    assert forall|i: int| #[trigger] copied_early(s0, copied, now, i) implies
                        s0.gpu@.dom().contains(i) && s0.gpu@[i] == now[i] by {
                        assert(self.layer_synced(i));
                        if queued(staging@, i) {
                            let k = choose|k: int| 0 <= k < staging.len() && (
                            #[trigger] staging@[k]).index == i;
                            assert(staging_idx[k] == i);
                            assert(indices_where(p, now.len() as int).contains(i as u32));
                        }
                    }
                }
            }
        }
    }

    /// Appends at the current texel size as many of `new_layers` as the device
    /// takes. `Err`, with nothing changed, when they need a bigger array.
    #[verifier::rlimit(30)]
    pub fn try_append(&mut self, new_layers: &[Vec<u8>], device_limit: u32) -> (r: Result<(), ()>)
        requires
            old(self).wf(),
            all_sized(mips::pixels_of(new_layers@), old(self).target_size() as int),
        ensures
            final(self).wf(),
            ({
                let add = admitted(
                    mips::pixels_of(new_layers@),
                    old(self).layers as int,
                    device_limit as int,
                );
                match old(self).pending_grow {
                    Some(g0) => {
                        &&& r is Ok
                        &&& final(self).palette_spec() == old(self).palette_spec() + add
                        &&& final(self).pending_grow matches Some(g) && {
                            &&& g.size == g0.size
                            &&& g.copied == g0.copied
                            &&& indices(g.staging@) == indices(g0.staging@) + appended_indices(
                                old(self).layers as int,
                                add.len() as int,
                            )
                        }
                    },
                    None => {
                        &&& r is Err <==> add.len() > 0 && old(self).layers + add.len()
                            > old(self).capacity
                        &&& r is Err ==> *final(self) == *old(self)
                        &&& r is Ok ==> {
                            &&& final(self).pending_grow is None
                            &&& final(self).palette_spec() == old(self).palette_spec() + add
                            &&& forall|i: int|
                                #[trigger] queued(final(self).pending@, i) <==> queued(
                                    old(self).pending@,
                                    i,
                                ) || old(self).layers <= i < old(self).layers + add.len()
                        }
                    },
                }
            }),
            *final(self) == (BlockTextures {
                layers: final(self).layers,
                layer_pixels: final(self).layer_pixels,
                pending: final(self).pending,
                pending_grow: final(self).pending_grow,
                ..*old(self)
            }),
            old(self).synced() ==> final(self).synced(),
            old(self).pending_grow is None && old(self).fits() ==> final(self).fits(),
    {
        let ghost s0 = *self;
        let ghost was = self.palette_spec();
        let ghost fresh = mips::pixels_of(new_layers@);
        let ghost add = admitted(fresh, self.layers as int, device_limit as int);
        let room: usize = if device_limit > self.layers {
            (device_limit - self.layers) as usize
        } else {
            0
        };
        let count: usize = if new_layers.len() < room {
            new_layers.len()
        } else {
            room
        };
        proof {
            assert(add.len() == count);
            assert(add =~= fresh.take(count as int));
        }
        if let Some(mut grow) = self.pending_grow.take() {
            let ghost g0 = grow;
            let mut i: usize = 0;
            proof {
                assert(was + add.take(0) =~= was);
                assert(indices(g0.staging@) + appended_indices(s0.layers as int, 0) =~= indices(
                    g0.staging@,
                ));
            }
            while i < count
                invariant
                    s0.wf(),
                    was == s0.palette_spec(),
                    s0.pending_grow == Some(g0),
                    i <= count <= new_layers@.len(),
                    count <= u32::MAX - s0.layers,
                    fresh == mips::pixels_of(new_layers@),
                    add == fresh.take(count as int),
                    all_sized(fresh, g0.size as int),
                    *self == (BlockTextures {
                        layers: self.layers,
                        layer_pixels: self.layer_pixels,
                        pending_grow: None,
                        ..s0
                    }),
                    self.layers == s0.layers + i,
                    self.layers == self.layer_pixels.len(),
                    self.palette_spec() == was + add.take(i as int),
                    all_sized(self.palette_spec(), g0.size as int),
                    mips::pixels_of(grow.layers@) == self.palette_spec(),
                    grow.size == g0.size,
                    grow.copied == g0.copied,
                    queue_ok(grow.staging@, self.palette_spec()),
                    indices(grow.staging@) == indices(g0.staging@) + appended_indices(
                        s0.layers as int,
                        i as int,
                    ),
                    forall|x: int|
                        #[trigger] queued(grow.staging@, x) <==> queued(g0.staging@, x) || s0.layers
                            <= x < s0.layers + i,
                decreases count - i,
            {
                let ghost palette = self.palette_spec();
                let ghost before = grow.staging@;
                let ghost kept = grow.layers@;
                let ghost rows = self.layer_pixels@;
                let e = PendingLayer { index: self.layers, pixels: mips::copy_bytes(&new_layers[i]) };
                let ghost ge = e;
                grow.staging.push(e);
                grow.layers.push(mips::copy_bytes(&new_layers[i]));
                self.layer_pixels.push(mips::copy_bytes(&new_layers[i]));
                self.layers = self.layers + 1;
                proof {
                    lemma_push_pixels(kept, grow.layers@.last());
                    lemma_push_pixels(rows, self.layer_pixels@.last());
                    assert(grow.layers@ =~= kept.push(grow.layers@.last()));
                    assert(self.layer_pixels@ =~= rows.push(self.layer_pixels@.last()));
                    assert(add.take(i + 1) =~= add.take(i as int).push(fresh[i as int]));
                    assert(self.palette_spec() =~= was + add.take(i + 1));
                    assert(fresh[i as int].len() == mips::level_bytes(g0.size as int));
                    lemma_queue_push(before, palette, ge, self.palette_spec());
                    assert(indices(grow.staging@) =~= indices(g0.staging@) + appended_indices(
                        s0.layers as int,
                        i + 1,
                    ));
                }
                i = i + 1;
            }
            self.pending_grow = Some(grow);
            proof {
                assert(add.take(count as int) =~= add);
                assert(queue_ok(self.pending@, self.palette_spec()));
                if s0.synced() {
                    assert forall|x: int| 0 <= x < self.layers implies #[trigger] self.layer_synced(
                        x,
                    ) by {
                        if x < s0.layers {
                            assert(s0.layer_synced(x));
                        }
                    }
                }
            }
            return Ok(());
        }
        if count == 0 {
            proof {
                assert(add =~= Seq::empty());
                assert(was + add =~= was);
            }
            return Ok(());
        }
        proof {
            assert(s0.layers + count <= device_limit);
        }
        let new_used: u32 = self.layers + count as u32;
        if new_used > self.capacity {
            return Err(());
        }
        let mut i: usize = 0;
        proof {
            assert(was + add.take(0) =~= was);
        }
        while i < count
            invariant
                s0.wf(),
                was == s0.palette_spec(),
                s0.pending_grow is None,
                i <= count <= new_layers@.len(),
                count <= u32::MAX - s0.layers,
                fresh == mips::pixels_of(new_layers@),
                add == fresh.take(count as int),
                all_sized(fresh, s0.size as int),
                *self == (BlockTextures {
                    layers: self.layers,
                    layer_pixels: self.layer_pixels,
                    pending: self.pending,
                    ..s0
                }),
                self.layers == s0.layers + i,
                self.layers == self.layer_pixels.len(),
                self.palette_spec() == was + add.take(i as int),
                all_sized(self.palette_spec(), s0.size as int),
                queue_ok(self.pending@, self.palette_spec()),
                forall|x: int|
                    #[trigger] queued(self.pending@, x) <==> queued(s0.pending@, x) || s0.layers <= x
                        < s0.layers + i,
            decreases count - i,
        {
            let ghost palette = self.palette_spec();
            let ghost before = self.pending@;
            let ghost rows = self.layer_pixels@;
            let e = PendingLayer { index: self.layers, pixels: mips::copy_bytes(&new_layers[i]) };
            let ghost ge = e;
            self.pending.push(e);
            self.layer_pixels.push(mips::copy_bytes(&new_layers[i]));
            self.layers = self.layers + 1;
            proof {
                lemma_push_pixels(rows, self.layer_pixels@.last());
                assert(self.layer_pixels@ =~= rows.push(self.layer_pixels@.last()));
                assert(add.take(i + 1) =~= add.take(i as int).push(fresh[i as int]));
                assert(self.palette_spec() =~= was + add.take(i + 1));
                assert(fresh[i as int].len() == mips::level_bytes(s0.size as int));
                lemma_queue_push(before, palette, ge, self.palette_spec());
            }
            i = i + 1;
        }
        proof {
            assert(add.take(count as int) =~= add);
            if s0.synced() {
                assert forall|x: int| 0 <= x < self.layers implies #[trigger] self.layer_synced(
                    x,
                ) by {
                    if x < s0.layers {
                        assert(s0.layer_synced(x));
                    }
                }
            }
        }
        Ok(())
    }
}

/// The layers to upload, packed one chain behind the other.
pub struct PackedUpload {
    pub bytes: Vec<u8>,
    /// The copies of each layer, in the order of the queue.
    pub per_layer: Vec<Vec<BufferImageRegion>>,
}

/// Start of the `k`-th chain.
pub open spec fn chain_start(k: int, size: int, levels: int) -> int {
    k * mips::level_offset(size, levels)
}

/// `bytes` are the chains of the queued layers, in order.
pub open spec fn packs<F: Fn(u8, u8, u8, u8) -> u8>(
    mean: F,
    bytes: Seq<u8>,
    q: Seq<PendingLayer>,
    size: int,
    levels: int,
) -> bool {
    &&& bytes.len() == chain_start(q.len() as int, size, levels)
    &&& forall|k: int|
        0 <= k < q.len() ==> mips::holds_chain(
            mean,
            bytes,
            chain_start(k, size, levels),
            size,
            levels,
            (#[trigger] q[k]).pixels@,
        )
}

/// Packs the chains of all queued layers.
fn pack_pending<F: Fn(u8, u8, u8, u8) -> u8>(
    size: u32,
    mip_levels: u32,
    pending: &Vec<PendingLayer>,
    mean: &F,
) -> (r: PackedUpload)
    requires
        size >= 1,
        1 <= mip_levels <= 32,
        forall|k: int|
            0 <= k < pending.len() ==> (#[trigger] pending[k]).pixels.len() == mips::level_bytes(
                size as int,
            ),
        forall|a: u8, b: u8, c: u8, d: u8| call_requires(*mean, (a, b, c, d)),
    ensures
        packs(*mean, r.bytes@, pending@, size as int, mip_levels as int),
        r.per_layer.len() == pending.len(),
        forall|k: int|
            0 <= k < pending.len() ==> (#[trigger] r.per_layer[k])@ == mips::layer_regions(
                size as int,
                mip_levels as int,
                chain_start(k, size as int, mip_levels as int),
                pending[k].index,
            ),
{
    let ghost sz = size as int;
    let ghost lv = mip_levels as int;
    let ghost one = mips::level_offset(sz, lv);
    let mut bytes: Vec<u8> = Vec::new();
    let mut per_layer: Vec<Vec<BufferImageRegion>> = Vec::new();
    let mut k: usize = 0;
    proof {
        mips::lemma_level_offset_grows(sz, 0, lv);
        assert(0 * one == 0);
    }
    while k < pending.len()
        invariant
            size >= 1,
            1 <= mip_levels <= 32,
            sz == size,
            lv == mip_levels,
            one == mips::level_offset(sz, lv),
            one >= 0,
            k <= pending.len(),
            forall|j: int|
                0 <= j < pending.len() ==> (#[trigger] pending[j]).pixels.len()
                    == mips::level_bytes(sz),
            forall|a: u8, b: u8, c: u8, d: u8| call_requires(*mean, (a, b, c, d)),
            bytes.len() == chain_start(k as int, sz, lv),
            per_layer.len() == k,
            forall|j: int|
                0 <= j < k ==> mips::holds_chain(
                    *mean,
                    bytes@,
                    chain_start(j, sz, lv),
                    sz,
                    lv,
                    (#[trigger] pending[j]).pixels@,
                ),
            forall|j: int|
                0 <= j < k ==> (#[trigger] per_layer[j])@ == mips::layer_regions(
                    sz,
                    lv,
                    chain_start(j, sz, lv),
                    pending[j].index,
                ),
        decreases pending.len() - k,
    {
        let ghost before = bytes@;
        let regions = mips::pack_layer(
            &mut bytes,
            size,
            mip_levels,
            pending[k].index,
            &pending[k].pixels,
            mean,
        );
        per_layer.push(regions);
        proof {
            assert((k + 1) * one == k * one + one) by (nonlinear_arith);
            assert forall|j: int| 0 <= j < k + 1 implies mips::holds_chain(
                *mean,
                bytes@,
                chain_start(j, sz, lv),
                sz,
                lv,
                (#[trigger] pending[j]).pixels@,
            ) by {
                if j < k {
                    assert(0 <= j * one && j * one + one <= k * one) by (nonlinear_arith)
                        requires
                            0 <= j,
                            j + 1 <= k,
                            0 <= one,
                    ;
                    mips::lemma_chain_stays(
                        *mean,
                        before,
                        bytes@,
                        chain_start(j, sz, lv),
                        sz,
                        lv,
                        pending[j].pixels@,
                    );
                }
            }
        }
        k = k + 1;
    }
    PackedUpload { bytes, per_layer }
}

/// The staged regions of one layer and the copy that issues them.
pub open spec fn layer_copy(regions: Seq<BufferImageRegion>, image: u64) -> Seq<Cmd> {
    Seq::new(regions.len(), |m: int| Cmd::BufferImageRegion(regions[m])).push(
        Cmd::CopyStagingToImage { image, layout: LAYOUT_TRANSFER_DST },
    )
}

/// The copies of the first `n` queued layers.
pub open spec fn layer_copies(q: Seq<u32>, n: int, size: int, levels: int, image: u64) -> Seq<Cmd>
    decreases n,
{
    if n <= 0 {
        Seq::empty()
    } else {
        layer_copies(q, n - 1, size, levels, image) + layer_copy(
            mips::layer_regions(size, levels, chain_start(n - 1, size, levels), q[n - 1]),
            image,
        )
    }
}

/// Records one layer's copies.
fn record_copy(cmds: &mut Vec<Cmd>, regions: &Vec<BufferImageRegion>, image: u64)
    ensures
        final(cmds)@ == old(cmds)@ + layer_copy(regions@, image),
{
    let ghost orig = cmds@;
    let mut i: usize = 0;
    while i < regions.len()
        invariant
            i <= regions.len(),
            cmds@ == orig + Seq::new(i as nat, |m: int| Cmd::BufferImageRegion(regions@[m])),
        decreases regions.len() - i,
    {
        cmds.push(Cmd::BufferImageRegion(regions[i]));
        i = i + 1;
        proof {
            assert(cmds@ =~= orig + Seq::new(
                i as nat,
                |m: int| Cmd::BufferImageRegion(regions@[m]),
            ));
        }
    }
    cmds.push(Cmd::CopyStagingToImage { image, layout: LAYOUT_TRANSFER_DST });
    proof {
        assert(cmds@ =~= orig + layer_copy(regions@, image));
    }
}

/// Records the copies of every packed layer.
fn record_copies(
    cmds: &mut Vec<Cmd>,
    packed: &PackedUpload,
    pending: &Vec<PendingLayer>,
    size: u32,
    mip_levels: u32,
    image: u64,
)
    requires
        packed.per_layer.len() == pending.len(),
        forall|k: int|
            0 <= k < pending.len() ==> (#[trigger] packed.per_layer[k])@ == mips::layer_regions(
                size as int,
                mip_levels as int,
                chain_start(k, size as int, mip_levels as int),
                pending[k].index,
            ),
    ensures
        final(cmds)@ == old(cmds)@ + layer_copies(
            indices(pending@),
            pending.len() as int,
            size as int,
            mip_levels as int,
            image,
        ),
{
    let ghost orig = cmds@;
    let mut k: usize = 0;
    proof {
        assert(cmds@ =~= orig + layer_copies(
            indices(pending@),
            0,
            size as int,
            mip_levels as int,
            image,
        ));
    }
    while k < packed.per_layer.len()
        invariant
            k <= packed.per_layer.len(),
            packed.per_layer.len() == pending.len(),
            forall|j: int|
                0 <= j < pending.len() ==> (#[trigger] packed.per_layer[j])@ == mips::layer_regions(
                    size as int,
                    mip_levels as int,
                    chain_start(j, size as int, mip_levels as int),
                    pending[j].index,
                ),
            cmds@ == orig + layer_copies(
                indices(pending@),
                k as int,
                size as int,
                mip_levels as int,
                image,
            ),
        decreases packed.per_layer.len() - k,
    {
        record_copy(cmds, &packed.per_layer[k], image);
        k = k + 1;
        proof {
            assert(indices(pending@)[k - 1] == pending[k - 1].index);
            assert(cmds@ =~= orig + layer_copies(
                indices(pending@),
                k as int,
                size as int,
                mip_levels as int,
                image,
            ));
        }
    }
}

/// `proto` once per run, over the run's layers.
pub open spec fn run_barriers(proto: ImageBarrier, runs: Seq<(u32, u32)>) -> Seq<ImageBarrier> {
    Seq::new(
        runs.len(),
        |k: int|
            ImageBarrier {
                range: commands::color_range(proto.range.mips, runs[k].0, runs[k].1),
                ..proto
            },
    )
}

/// Appends `proto` for each run of `layers`.
fn push_barriers(out: &mut Vec<ImageBarrier>, proto: ImageBarrier, layers: Vec<u32>)
    requires
        layers.len() <= u32::MAX,
    ensures
        final(out)@ == old(out)@ + run_barriers(proto, runs::runs_of(layers@.to_set())),
{
    let ghost orig = out@;
    let list = runs::consecutive_runs(layers);
    let mut k: usize = 0;
    while k < list.len()
        invariant
            k <= list.len(),
            out@ == orig + run_barriers(proto, list@).take(k as int),
        decreases list.len() - k,
    {
        let (base, count) = list[k];
        out.push(
            ImageBarrier {
                range: commands::color_range(proto.range.mips, base, count),
                ..proto
            },
        );
        k = k + 1;
        proof {
            assert(out@ =~= orig + run_barriers(proto, list@).take(k as int));
        }
    }
    proof {
        assert(run_barriers(proto, list@).take(k as int) =~= run_barriers(proto, list@));
    }
}

/// A barrier over all mips of `image`; its layers are still to be set.
#[verifier::allow_in_spec]
pub fn layer_barrier(
    image: u64,
    mips: u32,
    src: commands::Access,
    dst: commands::Access,
    layouts: (i32, i32),
    families: (u32, u32),
) -> ImageBarrier
    returns
        (ImageBarrier {
            image,
            src,
            dst,
            old_layout: layouts.0,
            new_layout: layouts.1,
            src_family: families.0,
            dst_family: families.1,
            range: commands::color_range(mips, 0, 0),
        }),
{
    ImageBarrier {
        image,
        src,
        dst,
        old_layout: layouts.0,
        new_layout: layouts.1,
        src_family: families.0,
        dst_family: families.1,
        range: commands::color_range(mips, 0, 0),
    }
}

/// The recorded upload of pending layers.
pub struct LayerUpload {
    /// For a graphics command buffer submitted first, where it is not empty.
    pub release: Vec<Cmd>,
    pub wait: ExtraWait,
    /// `record` goes to the lane, not to the frame's command buffer.
    pub on_lane: bool,
    pub record: Vec<Cmd>,
    /// For the frame's command buffer.
    pub acquire: Vec<Cmd>,
    /// Contents of the staging buffer.
    pub bytes: Vec<u8>,
}

/// The recorded move to another array.
pub struct ArrayGrow {
    /// For the frame's command buffer.
    pub record: Vec<Cmd>,
    /// Contents of the staging buffer, where there is one.
    pub bytes: Option<Vec<u8>>,
    /// The array that was bound so far.
    pub retired: GpuArray,
}

pub enum TextureFlush {
    Idle,
    Upload(LayerUpload),
    Grow(ArrayGrow),
}

/// The array that a queued grow needs.
#[derive(Clone, Copy, Debug, PartialEq, Eq, Structural)]
pub struct ArrayShape {
    pub size: u32,
    pub capacity: u32,
    pub mip_levels: u32,
}

/// Pending layers that the GPU may be sampling.
pub open spec fn overwritten(q: Seq<PendingLayer>, written: u32) -> Set<u32> {
    indices(q).to_set().filter(|i: u32| i < written)
}

/// Pending layers that were never written.
pub open spec fn unwritten(q: Seq<PendingLayer>, written: u32) -> Set<u32> {
    indices(q).to_set().filter(|i: u32| i >= written)
}

/// The barrier over all runs of `layers`.
pub open spec fn over_layers(proto: ImageBarrier, layers: Set<u32>) -> Seq<ImageBarrier> {
    run_barriers(proto, runs::runs_of(layers))
}

/// Overwritten layers leave the graphics family.
pub open spec fn release_plan(
    image: u64,
    mips: u32,
    lane: Lane,
    graphics_family: u32,
    over: Set<u32>,
) -> Seq<Cmd> {
    commands::issued(
        over_layers(
            layer_barrier(
                image,
                mips,
                commands::fragment_sample(),
                commands::no_access(),
                (LAYOUT_SHADER_READ_ONLY, LAYOUT_TRANSFER_DST),
                (graphics_family, lane.family),
            ),
            over,
        ),
    )
}

/// How overwritten layers become copy destinations.
#[verifier::allow_in_spec]
pub fn overwrite_barrier(image: u64, mips: u32, lane: Lane, graphics_family: u32) -> ImageBarrier
    returns
        (if lane.needs_ownership_transfer() {
            layer_barrier(
                image,
                mips,
                commands::no_access(),
                commands::copy_write(),
                (LAYOUT_TRANSFER_DST, LAYOUT_TRANSFER_DST),
                (graphics_family, lane.family),
            )
        } else {
            layer_barrier(
                image,
                mips,
                if lane.is_separate_queue() {
                    commands::no_access()
                } else {
                    commands::fragment_sample()
                },
                commands::copy_write(),
                (LAYOUT_SHADER_READ_ONLY, LAYOUT_TRANSFER_DST),
                (NO_HANDOVER, NO_HANDOVER),
            )
        }),
{
    if lane.needs_ownership_transfer() {
        layer_barrier(
            image,
            mips,
            commands::no_access(),
            commands::copy_write(),
            (LAYOUT_TRANSFER_DST, LAYOUT_TRANSFER_DST),
            (graphics_family, lane.family),
        )
    } else {
        let src = if lane.is_separate_queue() {
            commands::no_access()
        } else {
            commands::fragment_sample()
        };
        layer_barrier(
            image,
            mips,
            src,
            commands::copy_write(),
            (LAYOUT_SHADER_READ_ONLY, LAYOUT_TRANSFER_DST),
            (NO_HANDOVER, NO_HANDOVER),
        )
    }
}

/// How unwritten layers become copy destinations.
#[verifier::allow_in_spec]
pub fn fresh_barrier(image: u64, mips: u32) -> ImageBarrier
    returns
        layer_barrier(
            image,
            mips,
            commands::no_access(),
            commands::copy_write(),
            (LAYOUT_UNDEFINED, LAYOUT_TRANSFER_DST),
            (NO_HANDOVER, NO_HANDOVER),
        ),
{
    layer_barrier(
        image,
        mips,
        commands::no_access(),
        commands::copy_write(),
        (LAYOUT_UNDEFINED, LAYOUT_TRANSFER_DST),
        (NO_HANDOVER, NO_HANDOVER),
    )
}

/// How copied layers become sampled ones: on the copying queue, with a release to
/// the graphics family where the lane has a family of its own.
#[verifier::allow_in_spec]
pub fn sampled_barrier(image: u64, mips: u32, lane: Lane, graphics_family: u32) -> ImageBarrier
    returns
        layer_barrier(
            image,
            mips,
            commands::copy_write(),
            if lane.is_separate_queue() {
                commands::no_access()
            } else {
                commands::fragment_sample()
            },
            (LAYOUT_TRANSFER_DST, LAYOUT_SHADER_READ_ONLY),
            if lane.needs_ownership_transfer() {
                (lane.family, graphics_family)
            } else {
                (NO_HANDOVER, NO_HANDOVER)
            },
        ),
{
    let dst = if lane.is_separate_queue() {
        commands::no_access()
    } else {
        commands::fragment_sample()
    };
    let families: (u32, u32) = if lane.needs_ownership_transfer() {
        (lane.family, graphics_family)
    } else {
        (NO_HANDOVER, NO_HANDOVER)
    };
    layer_barrier(
        image,
        mips,
        commands::copy_write(),
        dst,
        (LAYOUT_TRANSFER_DST, LAYOUT_SHADER_READ_ONLY),
        families,
    )
}

/// How the graphics family takes copied layers over.
#[verifier::allow_in_spec]
pub fn acquire_barrier(image: u64, mips: u32, lane: Lane, graphics_family: u32) -> ImageBarrier
    returns
        layer_barrier(
            image,
            mips,
            commands::no_access(),
            commands::fragment_sample(),
            (LAYOUT_TRANSFER_DST, LAYOUT_SHADER_READ_ONLY),
            (lane.family, graphics_family),
        ),
{
    layer_barrier(
        image,
        mips,
        commands::no_access(),
        commands::fragment_sample(),
        (LAYOUT_TRANSFER_DST, LAYOUT_SHADER_READ_ONLY),
        (lane.family, graphics_family),
    )
}

/// The upload of the pending layers `q`.
pub open spec fn upload_plan<F: Fn(u8, u8, u8, u8) -> u8>(
    t: &BlockTextures,
    lane: Lane,
    graphics_family: u32,
    mean: F,
    u: LayerUpload,
) -> bool {
    let q = t.pending@;
    let image = t.array.image;
    let mips = t.mip_levels;
    let over = overwritten(q, t.written);
    let fresh = unwritten(q, t.written);
    let all = indices(q).to_set();
    &&& u.on_lane == lane.is_separate_queue()
    &&& u.release@ == if over != Set::<u32>::empty() && lane.needs_ownership_transfer() {
        release_plan(image, mips, lane, graphics_family, over)
    } else {
        Seq::empty()
    }
    &&& u.wait == if over == Set::<u32>::empty() || !lane.is_separate_queue() {
        ExtraWait::Nothing
    } else if lane.needs_ownership_transfer() {
        ExtraWait::Release
    } else {
        ExtraWait::LastRender
    }
    &&& u.record@ == commands::issued(
        over_layers(overwrite_barrier(image, mips, lane, graphics_family), over) + over_layers(
            fresh_barrier(image, mips),
            fresh,
        ),
    ) + layer_copies(indices(q), q.len() as int, t.size as int, mips as int, image)
        + commands::issued(
        over_layers(sampled_barrier(image, mips, lane, graphics_family), all),
    )
    &&& u.acquire@ == if lane.needs_ownership_transfer() {
        commands::issued(over_layers(acquire_barrier(image, mips, lane, graphics_family), all))
    } else {
        Seq::empty()
    }
    &&& packs(mean, u.bytes@, q, t.size as int, mips as int)
}

/// An ascending list below `n` has at most `n` entries.
proof fn lemma_ascending_len(v: Seq<u32>, n: int)
    requires
        runs::ascending(v),
        forall|k: int| 0 <= k < v.len() ==> #[trigger] v[k] < n,
        0 <= n,
    ensures
        v.len() <= n,
{
    if v.len() > 0 {
        lemma_ascending_at(v, v.len() - 1);
        assert(v[v.len() - 1] < n);
    }
}

proof fn lemma_ascending_at(v: Seq<u32>, k: int)
    requires
        runs::ascending(v),
        0 <= k < v.len(),
    ensures
        v[k] >= k,
    decreases k,
{
    if k > 0 {
        lemma_ascending_at(v, k - 1);
        assert(v[k - 1] < v[k]);
    }
}

/// The indices of a queue on either side of `written`, and all of them.
fn split_indices(q: &Vec<PendingLayer>, written: u32) -> (r: (Vec<u32>, Vec<u32>, Vec<u32>))
    ensures
        r.0@.to_set() == overwritten(q@, written),
        r.1@.to_set() == unwritten(q@, written),
        r.2@ == indices(q@),
        r.0.len() <= q.len(),
        r.1.len() <= q.len(),
        (r.0.len() == 0) == (overwritten(q@, written) == Set::<u32>::empty()),
{
    let mut over: Vec<u32> = Vec::new();
    let mut fresh: Vec<u32> = Vec::new();
    let mut all: Vec<u32> = Vec::new();
    let mut k: usize = 0;
    while k < q.len()
        invariant
            k <= q.len(),
            all@ == indices(q@).take(k as int),
            over.len() <= k,
            fresh.len() <= k,
            forall|i: u32|
                #[trigger] over@.contains(i) <==> i < written && all@.contains(i),
            forall|i: u32|
                #[trigger] fresh@.contains(i) <==> i >= written && all@.contains(i),
        decreases q.len() - k,
    {
        let index: u32 = q[k].index;
        let ghost o = over@;
        let ghost f = fresh@;
        let ghost a = all@;
        all.push(index);
        if index < written {
            over.push(index);
        } else {
            fresh.push(index);
        }
        proof {
            lemma_push_contains(a, index);
            lemma_push_contains(o, index);
            lemma_push_contains(f, index);
            assert(all@ =~= indices(q@).take(k + 1));
        }
        k = k + 1;
    }
    proof {
        assert(indices(q@).take(k as int) =~= indices(q@));
        assert(over@.to_set() =~= overwritten(q@, written));
        assert(fresh@.to_set() =~= unwritten(q@, written));
        if over.len() > 0 {
            assert(over@.contains(over@[0]));
            assert(over@.to_set().contains(over@[0]));
        } else {
            assert(over@.to_set() =~= Set::<u32>::empty());
        }
    }
    (over, fresh, all)
}

proof fn lemma_push_contains(v: Seq<u32>, x: u32)
    ensures
        forall|i: u32| #[trigger] v.push(x).contains(i) <==> v.contains(i) || i == x,
{
    assert forall|i: u32| #[trigger] v.push(x).contains(i) <==> v.contains(i) || i == x by {
        if v.push(x).contains(i) {
            let k = choose|k: int| 0 <= k < v.push(x).len() && v.push(x)[k] == i;
            if k < v.len() {
                assert(v[k] == i);
            }
        }
        if v.contains(i) {
            let k = choose|k: int| 0 <= k < v.len() && v[k] == i;
            assert(v.push(x)[k] == i);
        }
        assert(v.push(x)[v.len() as int] == x);
    }
}

/// The layers once the queue has been uploaded.
pub open spec fn uploaded(gpu: Map<int, Seq<u8>>, q: Seq<PendingLayer>, palette: Seq<Seq<u8>>) -> Map<
    int,
    Seq<u8>,
> {
    Map::new(
        |i: int| gpu.dom().contains(i) || queued(q, i),
        |i: int|
            if queued(q, i) {
                palette[i]
            } else {
                gpu[i]
            },
    )
}

/// The layers of another array once the leading `copied` of `gpu` were copied into
/// it and the queue uploaded.
pub open spec fn moved(
    gpu: Map<int, Seq<u8>>,
    copied: int,
    q: Seq<PendingLayer>,
    palette: Seq<Seq<u8>>,
) -> Map<int, Seq<u8>> {
    uploaded(gpu.restrict(Set::new(|i: int| 0 <= i < copied)), q, palette)
}

/// The barriers of a grow before its copies: every used layer of the new array is
/// written, and the copied ones of the old array are read.
pub open spec fn grow_entry(t: &BlockTextures, image: u64, mips: u32, used: u32, copied: u32) -> Seq<
    ImageBarrier,
> {
    let whole = ImageBarrier {
        range: commands::color_range(mips, 0, used),
        ..fresh_barrier(image, mips)
    };
    if copied > 0 {
        seq![
            whole,
            ImageBarrier {
                range: commands::color_range(t.mip_levels, 0, copied),
                ..layer_barrier(
                    t.array.image,
                    t.mip_levels,
                    commands::fragment_sample(),
                    commands::copy_read(),
                    (LAYOUT_SHADER_READ_ONLY, LAYOUT_TRANSFER_SRC),
                    (NO_HANDOVER, NO_HANDOVER),
                )
            },
        ]
    } else {
        seq![whole]
    }
}

/// The copy of the leading layers out of the old array.
pub open spec fn grow_copy(t: &BlockTextures, image: u64, copied: u32) -> Seq<Cmd> {
    let regions = mip_copies(t.size as int, t.mip_levels as int, copied);
    if copied > 0 {
        Seq::new(regions.len(), |m: int| Cmd::ImageRegion(regions[m])).push(
            Cmd::CopyImage {
                src: t.array.image,
                src_layout: LAYOUT_TRANSFER_SRC,
                dst: image,
                dst_layout: LAYOUT_TRANSFER_DST,
            },
        )
    } else {
        Seq::empty()
    }
}

/// The layers that a queued grow copies: no more than the palette has.
pub open spec fn copied_by(g: PendingGrow) -> u32 {
    if g.copied < g.layers.len() as u32 {
        g.copied
    } else {
        g.layers.len() as u32
    }
}

/// The move of `t`'s palette to `fresh`, as the queued grow `g` says.
pub open spec fn grow_cmds(t: &BlockTextures, g: PendingGrow, image: u64) -> Seq<Cmd> {
    let used = g.layers.len() as u32;
    let mips = numbers::bit_length(g.size as int) as u32;
    let copied = copied_by(g);
    commands::issued(grow_entry(t, image, mips, used, copied)) + grow_copy(t, image, copied)
        + layer_copies(
        indices(g.staging@),
        g.staging.len() as int,
        g.size as int,
        mips as int,
        image,
    ) + commands::issued(
        seq![
            ImageBarrier {
                range: commands::color_range(mips, 0, used),
                ..layer_barrier(
                    image,
                    mips,
                    commands::copy_write(),
                    commands::fragment_sample(),
                    (LAYOUT_TRANSFER_DST, LAYOUT_SHADER_READ_ONLY),
                    (NO_HANDOVER, NO_HANDOVER),
                )
            },
        ],
    )
}

/// What a flush does to the state `t` and what it records.
pub open spec fn flushes<F: Fn(u8, u8, u8, u8) -> u8>(
    t: &BlockTextures,
    fresh: Option<GpuArray>,
    lane: Lane,
    graphics_family: u32,
    mean: F,
    r: TextureFlush,
    after: &BlockTextures,
) -> bool {
    match t.pending_grow {
        Some(g) => {
            let used = g.layers.len() as u32;
            let mips = numbers::bit_length(g.size as int) as u32;
            &&& r matches TextureFlush::Grow(p) && {
                &&& p.record@ == grow_cmds(t, g, fresh->Some_0.image)
                &&& p.retired == t.array
                &&& match p.bytes {
                    Some(b) => g.staging.len() > 0 && packs(
                        mean,
                        b@,
                        g.staging@,
                        g.size as int,
                        mips as int,
                    ),
                    None => g.staging.len() == 0,
                }
            }
            &&& *after == (BlockTextures {
                array: fresh->Some_0,
                size: g.size,
                capacity: capacity_for(used as int, t.max_layers as int) as u32,
                mip_levels: mips,
                layers: used,
                layer_pixels: g.layers,
                written: used,
                pending_grow: None,
                gpu: after.gpu,
                ..*t
            })
            &&& after.gpu@ == moved(t.gpu@, copied_by(g) as int, g.staging@, t.palette_spec())
        },
        None => if t.pending.len() == 0 {
            &&& r is Idle
            &&& *after == *t
        } else {
            &&& r matches TextureFlush::Upload(u) && upload_plan(t, lane, graphics_family, mean, u)
            &&& after.pending.len() == 0
            &&& after.written == if t.pending@.last().index < t.written {
                t.written
            } else {
                (t.pending@.last().index + 1) as u32
            }
            &&& *after == (BlockTextures {
                pending: after.pending,
                written: after.written,
                gpu: after.gpu,
                ..*t
            })
            &&& after.gpu@ == uploaded(t.gpu@, t.pending@, t.palette_spec())
        },
    }
}

impl BlockTextures {
    /// The array that the queued grow moves to, to be created before the flush.
    pub fn needed_array(&self) -> (r: Option<ArrayShape>)
        requires
            self.wf(),
        ensures
            match self.pending_grow {
                None => r is None,
                Some(g) => r == Some(
                    ArrayShape {
                        size: g.size,
                        capacity: capacity_for(
                            g.layers.len() as int,
                            self.max_layers as int,
                        ) as u32,
                        mip_levels: numbers::bit_length(g.size as int) as u32,
                    },
                ),
            },
    {
        match &self.pending_grow {
            None => None,
            Some(g) => {
                proof {
                    assert(mips::pixels_of(g.layers@).len() == g.layers.len());
                }
                let capacity: u32 = layer_capacity(g.layers.len() as u32, self.max_layers);
                let mip_levels: u32 = numbers::mip_count(g.size);
                Some(ArrayShape { size: g.size, capacity, mip_levels })
            },
        }
    }

    /// Records the upload of pending layers, or the queued move to `fresh`.
    pub fn flush<F: Fn(u8, u8, u8, u8) -> u8>(
        &mut self,
        fresh: Option<GpuArray>,
        lane: Lane,
        graphics_family: u32,
        mean: &F,
    ) -> (r: TextureFlush)
        requires
            old(self).wf(),
            old(self).pending_grow is Some ==> fresh is Some,
            forall|a: u8, b: u8, c: u8, d: u8| call_requires(*mean, (a, b, c, d)),
        ensures
            final(self).wf(),
            flushes(old(self), fresh, lane, graphics_family, *mean, r, final(self)),
            old(self).synced() ==> final(self).synced(),
            final(self).palette_spec() == old(self).palette_spec(),
    {
        let ghost s0 = *self;
        if let Some(grow) = self.pending_grow.take() {
            if let Some(array) = fresh {
                let ghost g0 = grow;
                proof {
                    assert(s0.pending_grow == Some(g0));
                }
                return TextureFlush::Grow(self.flush_grow(array, grow, mean));
            }
            proof {
                assert(false);
            }
        }
        if self.pending.len() == 0 {
            return TextureFlush::Idle;
        }
        TextureFlush::Upload(self.flush_layers(lane, graphics_family, mean))
    }

    /// Records the upload of the pending layers.
    #[verifier::rlimit(60)]
    fn flush_layers<F: Fn(u8, u8, u8, u8) -> u8>(
        &mut self,
        lane: Lane,
        graphics_family: u32,
        mean: &F,
    ) -> (u: LayerUpload)
        requires
            old(self).wf(),
            old(self).pending_grow is None,
            old(self).pending.len() > 0,
            forall|a: u8, b: u8, c: u8, d: u8| call_requires(*mean, (a, b, c, d)),
        ensures
            final(self).wf(),
            upload_plan(old(self), lane, graphics_family, *mean, u),
            final(self).pending.len() == 0,
            final(self).written == if old(self).pending@.last().index < old(self).written {
                old(self).written
            } else {
                (old(self).pending@.last().index + 1) as u32
            },
            *final(self) == (BlockTextures {
                pending: final(self).pending,
                written: final(self).written,
                gpu: final(self).gpu,
                ..*old(self)
            }),
            final(self).gpu@ == uploaded(
                old(self).gpu@,
                old(self).pending@,
                old(self).palette_spec(),
            ),
            old(self).synced() ==> final(self).synced(),
    {
        let ghost s0 = *self;
        let ghost q = self.pending@;
        let ghost palette = self.palette_spec();
        proof {
            assert forall|k: int| 0 <= k < q.len() implies (#[trigger] q[k]).pixels.len()
                == mips::level_bytes(s0.size as int) by {
                assert(q[k].pixels@ == palette[q[k].index as int]);
            }
            assert forall|k: int| 0 <= k < indices(q).len() implies #[trigger] indices(q)[k]
                < palette.len() by {
                assert(q[k].index < palette.len());
            }
            lemma_ascending_len(indices(q), palette.len() as int);
        }
        let image: u64 = self.array.image;
        let mip_levels: u32 = self.mip_levels;
        let size: u32 = self.size;
        let separate: bool = lane.is_separate_queue();
        let transfer: bool = lane.needs_ownership_transfer();
        let (over, new, all) = split_indices(&self.pending, self.written);
        let packed = pack_pending(size, mip_levels, &self.pending, mean);
        let wait = if over.len() == 0 || !separate {
            ExtraWait::Nothing
        } else if transfer {
            ExtraWait::Release
        } else {
            ExtraWait::LastRender
        };
        let mut release: Vec<Cmd> = Vec::new();
        if over.len() > 0 && transfer {
            let mut barriers: Vec<ImageBarrier> = Vec::new();
            push_barriers(
                &mut barriers,
                layer_barrier(
                    image,
                    mip_levels,
                    commands::fragment_sample(),
                    commands::no_access(),
                    (LAYOUT_SHADER_READ_ONLY, LAYOUT_TRANSFER_DST),
                    (graphics_family, lane.family),
                ),
                copy_indices(&over),
            );
            commands::issue(&mut release, &barriers);
            proof {
                assert(barriers@ =~= over_layers(
                    layer_barrier(
                        image,
                        mip_levels,
                        commands::fragment_sample(),
                        commands::no_access(),
                        (LAYOUT_SHADER_READ_ONLY, LAYOUT_TRANSFER_DST),
                        (graphics_family, lane.family),
                    ),
                    overwritten(q, s0.written),
                ));
                assert(release@ =~= release_plan(
                    image,
                    mip_levels,
                    lane,
                    graphics_family,
                    overwritten(q, s0.written),
                ));
            }
        }
        let mut record: Vec<Cmd> = Vec::new();
        let mut to_dst: Vec<ImageBarrier> = Vec::new();
        push_barriers(
            &mut to_dst,
            overwrite_barrier(image, mip_levels, lane, graphics_family),
            over,
        );
        push_barriers(&mut to_dst, fresh_barrier(image, mip_levels), new);
        commands::issue(&mut record, &to_dst);
        let ghost part1 = commands::issued(
            over_layers(
                overwrite_barrier(image, mip_levels, lane, graphics_family),
                overwritten(q, s0.written),
            ) + over_layers(fresh_barrier(image, mip_levels), unwritten(q, s0.written)),
        );
        proof {
            assert(to_dst@ =~= over_layers(
                overwrite_barrier(image, mip_levels, lane, graphics_family),
                overwritten(q, s0.written),
            ) + over_layers(fresh_barrier(image, mip_levels), unwritten(q, s0.written)));
            assert(record@ =~= part1);
        }
        record_copies(&mut record, &packed, &self.pending, size, mip_levels, image);
        let mut to_sampled: Vec<ImageBarrier> = Vec::new();
        let mut acquire: Vec<Cmd> = Vec::new();
        if transfer {
            let mut barriers: Vec<ImageBarrier> = Vec::new();
            push_barriers(
                &mut barriers,
                acquire_barrier(image, mip_levels, lane, graphics_family),
                copy_indices(&all),
            );
            commands::issue(&mut acquire, &barriers);
            proof {
                assert(barriers@ =~= over_layers(
                    acquire_barrier(image, mip_levels, lane, graphics_family),
                    indices(q).to_set(),
                ));
                assert(acquire@ =~= commands::issued(
                    over_layers(
                        acquire_barrier(image, mip_levels, lane, graphics_family),
                        indices(q).to_set(),
                    ),
                ));
            }
        }
        push_barriers(
            &mut to_sampled,
            sampled_barrier(image, mip_levels, lane, graphics_family),
            all,
        );
        commands::issue(&mut record, &to_sampled);
        proof {
            assert(to_sampled@ =~= over_layers(
                sampled_barrier(image, mip_levels, lane, graphics_family),
                indices(q).to_set(),
            ));
        }
        let last: u32 = self.pending[self.pending.len() - 1].index;
        proof {
            assert(q[q.len() - 1].index < palette.len());
        }
        if last >= self.written {
            self.written = last + 1;
        }
        self.pending = Vec::new();
        self.gpu = Ghost(uploaded(s0.gpu@, q, palette));
        proof {
            assert(indices(self.pending@) =~= Seq::<u32>::empty());
            if s0.synced() {
                assert forall|i: int| 0 <= i < self.layers implies #[trigger] self.layer_synced(i) by {
                    assert(s0.layer_synced(i));
                }
                assert forall|i: int| 0 <= i < self.written implies #[trigger] self.gpu@.dom().contains(
                    i,
                ) by {
                    if i < s0.written {
                        assert(s0.gpu@.dom().contains(i));
                    } else {
                        assert(s0.layer_synced(i));
                    }
                }
            }
        }
        LayerUpload { release, wait, on_lane: separate, record, acquire, bytes: packed.bytes }
    }

    /// Records the move to `array`.
    #[verifier::rlimit(60)]
    fn flush_grow<F: Fn(u8, u8, u8, u8) -> u8>(
        &mut self,
        array: GpuArray,
        grow: PendingGrow,
        mean: &F,
    ) -> (p: ArrayGrow)
        requires
            (BlockTextures { pending_grow: Some(grow), ..*old(self) }).wf(),
            old(self).pending_grow is None,
            forall|a: u8, b: u8, c: u8, d: u8| call_requires(*mean, (a, b, c, d)),
        ensures
            final(self).wf(),
            p.record@ == grow_cmds(old(self), grow, array.image),
            p.retired == old(self).array,
            match p.bytes {
                Some(b) => grow.staging.len() > 0 && packs(
                    *mean,
                    b@,
                    grow.staging@,
                    grow.size as int,
                    numbers::bit_length(grow.size as int),
                ),
                None => grow.staging.len() == 0,
            },
            *final(self) == (BlockTextures {
                array,
                size: grow.size,
                capacity: capacity_for(
                    grow.layers.len() as int,
                    old(self).max_layers as int,
                ) as u32,
                mip_levels: numbers::bit_length(grow.size as int) as u32,
                layers: grow.layers.len() as u32,
                layer_pixels: grow.layers,
                written: grow.layers.len() as u32,
                gpu: final(self).gpu,
                ..*old(self)
            }),
            final(self).gpu@ == moved(
                old(self).gpu@,
                copied_by(grow) as int,
                grow.staging@,
                old(self).palette_spec(),
            ),
            (BlockTextures { pending_grow: Some(grow), ..*old(self) }).synced()
                ==> final(self).synced(),
    {
        let ghost s0 = *self;
        let ghost s1 = BlockTextures { pending_grow: Some(grow), ..*self };
        let ghost g0 = grow;
        let ghost palette = self.palette_spec();
        let ghost q = grow.staging@;
        proof {
            assert(mips::pixels_of(grow.layers@).len() == grow.layers.len());
            assert(s1.palette_spec() == palette);
            assert forall|k: int| 0 <= k < q.len() implies (#[trigger] q[k]).pixels.len()
                == mips::level_bytes(grow.size as int) by {
                assert(q[k].pixels@ == palette[q[k].index as int]);
            }
        }
        let used: u32 = grow.layers.len() as u32;
        let capacity: u32 = layer_capacity(used, self.max_layers);
        let mip_levels: u32 = numbers::mip_count(grow.size);
        let copied: u32 = if grow.copied < used {
            grow.copied
        } else {
            used
        };
        let image: u64 = array.image;
        let mut record: Vec<Cmd> = Vec::new();
        let mut barriers: Vec<ImageBarrier> = Vec::new();
        barriers.push(
            ImageBarrier {
                range: commands::color_range(mip_levels, 0, used),
                ..fresh_barrier(image, mip_levels)
            },
        );
        if copied > 0 {
            barriers.push(
                ImageBarrier {
                    range: commands::color_range(self.mip_levels, 0, copied),
                    ..layer_barrier(
                        self.array.image,
                        self.mip_levels,
                        commands::fragment_sample(),
                        commands::copy_read(),
                        (LAYOUT_SHADER_READ_ONLY, LAYOUT_TRANSFER_SRC),
                        (NO_HANDOVER, NO_HANDOVER),
                    )
                },
            );
        }
        commands::issue(&mut record, &barriers);
        proof {
            assert(barriers@ =~= grow_entry(&s0, image, mip_levels, used, copied));
        }
        let ghost part1 = record@;
        if copied > 0 {
            let regions = image_copy_mips(self.size, self.mip_levels, copied);
            let mut m: usize = 0;
            while m < regions.len()
                invariant
                    m <= regions.len(),
                    record@ == part1 + Seq::new(m as nat, |k: int| Cmd::ImageRegion(regions@[k])),
                decreases regions.len() - m,
            {
                record.push(Cmd::ImageRegion(regions[m]));
                m = m + 1;
                proof {
                    assert(record@ =~= part1 + Seq::new(
                        m as nat,
                        |k: int| Cmd::ImageRegion(regions@[k]),
                    ));
                }
            }
            record.push(
                Cmd::CopyImage {
                    src: self.array.image,
                    src_layout: LAYOUT_TRANSFER_SRC,
                    dst: image,
                    dst_layout: LAYOUT_TRANSFER_DST,
                },
            );
        }
        proof {
            assert(record@ =~= part1 + grow_copy(&s0, image, copied));
        }
        let ghost part2 = record@;
        let mut bytes: Option<Vec<u8>> = None;
        if grow.staging.len() > 0 {
            let packed = pack_pending(grow.size, mip_levels, &grow.staging, mean);
            record_copies(&mut record, &packed, &grow.staging, grow.size, mip_levels, image);
            bytes = Some(packed.bytes);
        }
        proof {
            assert(record@ =~= part2 + layer_copies(
                indices(q),
                q.len() as int,
                grow.size as int,
                mip_levels as int,
                image,
            ));
        }
        let mut to_sampled: Vec<ImageBarrier> = Vec::new();
        to_sampled.push(
            ImageBarrier {
                range: commands::color_range(mip_levels, 0, used),
                ..layer_barrier(
                    image,
                    mip_levels,
                    commands::copy_write(),
                    commands::fragment_sample(),
                    (LAYOUT_TRANSFER_DST, LAYOUT_SHADER_READ_ONLY),
                    (NO_HANDOVER, NO_HANDOVER),
                )
            },
        );
        commands::issue(&mut record, &to_sampled);
        proof {
            assert(record@ =~= grow_cmds(&s0, grow, image));
        }
        let retired = self.array;
        self.array = array;
        self.size = grow.size;
        self.capacity = capacity;
        self.mip_levels = mip_levels;
        self.layers = used;
        self.layer_pixels = grow.layers;
        self.written = used;
        self.gpu = Ghost(moved(s0.gpu@, copied as int, q, palette));
        proof {
            if s1.synced() {
                assert forall|i: int| 0 <= i < self.layers implies #[trigger] self.layer_synced(i) by {
                    assert(s1.layer_synced(i));
                }
                assert forall|i: int| 0 <= i < self.written implies #[trigger] self.gpu@.dom().contains(
                    i,
                ) by {
                    assert(s1.layer_synced(i));
                }
            }
        }
        ArrayGrow { record, bytes, retired }
    }

    /// Holds a staging buffer and its memory until the frame is done.
    pub fn retire_staging(&mut self, done_at: TimelineValue, buffer: u64, memory: u64)
        requires
            old(self).wf(),
        ensures
            final(self).wf(),
            final(self).staging_retire@ == old(self).staging_retire@.push(
                (crate::retire::Retired { value: done_at, item: (buffer, memory) }),
            ),
            *final(self) == (BlockTextures {
                staging_retire: final(self).staging_retire,
                ..*old(self)
            }),
    {
        self.staging_retire.push(done_at, (buffer, memory));
    }

    /// Holds a staging buffer and its memory until the lane is done.
    pub fn retire_transfer(&mut self, done_at: TimelineValue, buffer: u64, memory: u64)
        requires
            old(self).wf(),
        ensures
            final(self).wf(),
            final(self).transfer_retire@ == old(self).transfer_retire@.push(
                (crate::retire::Retired { value: done_at, item: (buffer, memory) }),
            ),
            *final(self) == (BlockTextures {
                transfer_retire: final(self).transfer_retire,
                ..*old(self)
            }),
    {
        self.transfer_retire.push(done_at, (buffer, memory));
    }

    /// Holds a release's semaphore and command buffer until the frame is done.
    pub fn retire_release(&mut self, done_at: TimelineValue, semaphore: u64, cmd: u64)
        requires
            old(self).wf(),
        ensures
            final(self).wf(),
            final(self).release_cmds@ == old(self).release_cmds@.push(
                (crate::retire::Retired { value: done_at, item: (semaphore, cmd) }),
            ),
            *final(self) == (BlockTextures {
                release_cmds: final(self).release_cmds,
                ..*old(self)
            }),
    {
        self.release_cmds.push(done_at, (semaphore, cmd));
    }

    /// Staging buffers and releases that the frames up to `current` used.
    pub fn collect(&mut self, current: TimelineValue) -> (r: (Vec<(u64, u64)>, Vec<(u64, u64)>))
        requires
            old(self).wf(),
        ensures
            final(self).wf(),
            r.0@ == crate::retire::due(old(self).staging_retire@, current),
            r.1@ == crate::retire::due(old(self).release_cmds@, current),
            final(self).staging_retire@ == crate::retire::waiting(
                old(self).staging_retire@,
                current,
            ),
            final(self).release_cmds@ == crate::retire::waiting(old(self).release_cmds@, current),
            *final(self) == (BlockTextures {
                staging_retire: final(self).staging_retire,
                release_cmds: final(self).release_cmds,
                ..*old(self)
            }),
    {
        let staging = self.staging_retire.collect(current);
        let releases = self.release_cmds.collect(current);
        (staging, releases)
    }

    /// Staging buffers that the lane is done with.
    pub fn collect_transfer(&mut self, current: TimelineValue) -> (r: Vec<(u64, u64)>)
        requires
            old(self).wf(),
        ensures
            final(self).wf(),
            r@ == crate::retire::due(old(self).transfer_retire@, current),
            final(self).transfer_retire@ == crate::retire::waiting(
                old(self).transfer_retire@,
                current,
            ),
            *final(self) == (BlockTextures {
                transfer_retire: final(self).transfer_retire,
                ..*old(self)
            }),
    {
        self.transfer_retire.collect(current)
    }
}

/// A copy of `v`.
fn copy_indices(v: &Vec<u32>) -> (r: Vec<u32>)
    ensures
        r@ == v@,
{
    let mut r: Vec<u32> = Vec::new();
    let mut i: usize = 0;
    while i < v.len()
        invariant
            i <= v.len(),
            r@ == v@.take(i as int),
        decreases v.len() - i,
    {
        r.push(v[i]);
        i = i + 1;
        proof {
            assert(r@ =~= v@.take(i as int));
        }
    }
    proof {
        assert(v@.take(i as int) =~= v@);
    }
    r
}

/// Layer `layer` of `image`, read back level by level; level `m` is a square of side
/// `size`, halved `m` times.
pub open spec fn read_back(t: Texels, image: u64, layer: int, size: int, levels: int) -> Seq<
    Seq<u8>,
> {
    Seq::new(
        levels as nat,
        |m: int|
            Seq::new(
                (4 * (numbers::mip_side(size, m) * numbers::mip_side(size, m))) as nat,
                |p: int| t(image, layer, m, p),
            ),
    )
}

/// What one layer's copies do.
proof fn lemma_layer_copy(
    g: Gpu,
    size: int,
    levels: int,
    at: int,
    index: u32,
    image: u64,
    staging: Seq<u8>,
    i: u64,
    layer: int,
    mip: int,
    p: int,
)
    requires
        g.uploads.len() == 0,
        1 <= size <= u32::MAX,
        0 <= levels <= 32,
        0 <= at,
        at + mips::level_offset(size, levels) <= u64::MAX,
    ensures
        ({
            let cmds = layer_copy(mips::layer_regions(size, levels, at, index), image);
            let after = playback::play(g, cmds, staging);
            let side = numbers::mip_side(size, mip);
            &&& after == (Gpu { texels: after.texels, uploads: Seq::empty(), ..g })
            &&& (after.texels)(i, layer, mip, p) == if i == image && layer == index && 0 <= mip
                < levels && 0 <= p < 4 * (side * side) {
                staging[at + mips::level_offset(size, mip) + p]
            } else {
                (g.texels)(i, layer, mip, p)
            }
        }),
{
    let rs = mips::layer_regions(size, levels, at, index);
    let cmds = layer_copy(rs, image);
    let after = playback::play(g, cmds, staging);
    let listed = Seq::new(rs.len(), |m: int| Cmd::BufferImageRegion(rs[m]));
    playback::lemma_play_push(
        g,
        listed,
        Cmd::CopyStagingToImage { image, layout: LAYOUT_TRANSFER_DST },
        staging,
    );
    playback::lemma_play_uploads(g, rs, staging);
    assert(g.uploads + rs =~= rs);
    let from = |q: int| staging[q];
    assert(after.texels == playback::filled(g.texels, from, image, rs));
    playback::lemma_filled(g.texels, from, image, rs, i, layer, mip, p);
    assert forall|m: int| 0 <= m < levels implies {
        let r = #[trigger] rs[m];
        &&& r.buffer_offset == at + mips::level_offset(size, m)
        &&& r.mip == m
        &&& r.width == numbers::mip_side(size, m)
        &&& r.height == numbers::mip_side(size, m)
    } by {
        numbers::lemma_mip_side(size, m);
        mips::lemma_level_offset_grows(size, 0, m);
        mips::lemma_level_offset_grows(size, m, levels);
    }
    if i == image && layer == index && 0 <= mip < levels {
        let side = numbers::mip_side(size, mip);
        if 0 <= p < 4 * (side * side) {
            assert(playback::upload_writes(rs[mip], layer, mip, p));
            let j = choose|j: int|
                0 <= j < rs.len() && playback::upload_writes(#[trigger] rs[j], layer, mip, p)
                    && (after.texels)(i, layer, mip, p) == from(
                    rs[j].buffer_offset + (layer - rs[j].base_layer) * (4 * (rs[j].width
                        * rs[j].height)) + p,
                );
            assert(j == mip);
            assert(0 * (4 * (rs[j].width * rs[j].height)) == 0);
        }
    }
}

/// What the copies of a queue do.
proof fn lemma_layer_copies(
    g: Gpu,
    q: Seq<u32>,
    n: int,
    size: int,
    levels: int,
    image: u64,
    staging: Seq<u8>,
    i: u64,
    layer: int,
    mip: int,
    p: int,
)
    requires
        g.uploads.len() == 0,
        runs::ascending(q),
        1 <= size <= u32::MAX,
        0 <= levels <= 32,
        0 <= n <= q.len(),
        chain_start(n, size, levels) <= u64::MAX,
    ensures
        ({
            let after = playback::play(g, layer_copies(q, n, size, levels, image), staging);
            let side = numbers::mip_side(size, mip);
            &&& after == (Gpu { texels: after.texels, uploads: Seq::empty(), ..g })
            &&& forall|k: int|
                0 <= k < n && #[trigger] q[k] == layer && i == image && 0 <= mip < levels && 0 <= p
                    < 4 * (side * side) ==> (after.texels)(i, layer, mip, p)
                    == staging[chain_start(k, size, levels) + mips::level_offset(size, mip) + p]
            &&& (i != image || forall|k: int| 0 <= k < n ==> #[trigger] q[k] != layer) ==> (
            after.texels)(i, layer, mip, p) == (g.texels)(i, layer, mip, p)
        }),
    decreases n,
{
    if n > 0 {
        let one = mips::level_offset(size, levels);
        mips::lemma_level_offset_grows(size, 0, levels);
        assert(n * one == (n - 1) * one + one) by (nonlinear_arith);
        assert(0 <= (n - 1) * one) by (nonlinear_arith)
            requires
                0 <= n - 1,
                0 <= one,
        ;
        lemma_layer_copies(g, q, n - 1, size, levels, image, staging, i, layer, mip, p);
        let mid = playback::play(g, layer_copies(q, n - 1, size, levels, image), staging);
        let at = chain_start(n - 1, size, levels);
        let last = layer_copy(mips::layer_regions(size, levels, at, q[n - 1]), image);
        playback::lemma_play_concat(g, layer_copies(q, n - 1, size, levels, image), last, staging);
        lemma_layer_copy(mid, size, levels, at, q[n - 1], image, staging, i, layer, mip, p);
        assert forall|k: int| 0 <= k < n - 1 implies #[trigger] q[k] != q[n - 1] by {}
    } else {
        assert(g.uploads =~= Seq::empty());
        playback::lemma_play_nothing(g, staging);
    }
}

/// One level of a queued layer, read back.
proof fn lemma_level_reads_back(
    bytes: Seq<u8>,
    idx: Seq<u32>,
    size: int,
    levels: int,
    g: Gpu,
    image: u64,
    k: int,
    m: int,
)
    requires
        g.uploads.len() == 0,
        runs::ascending(idx),
        1 <= size <= u32::MAX,
        0 <= levels <= 32,
        bytes.len() == chain_start(idx.len() as int, size, levels),
        bytes.len() <= u64::MAX,
        0 <= k < idx.len(),
        0 <= m < levels,
    ensures
        ({
            let n = idx.len() as int;
            let after = playback::play(g, layer_copies(idx, n, size, levels, image), bytes);
            read_back(after.texels, image, idx[k] as int, size, levels)[m] == mips::chain_at(
                bytes,
                chain_start(k, size, levels),
                size,
                levels,
            )[m]
        }),
{
    let n = idx.len() as int;
    let after = playback::play(g, layer_copies(idx, n, size, levels, image), bytes);
    let at = chain_start(k, size, levels);
    let layer = idx[k] as int;
    let held = mips::chain_at(bytes, at, size, levels)[m];
    let seen = read_back(after.texels, image, layer, size, levels)[m];
    let one = mips::level_offset(size, levels);
    mips::lemma_level_offset_grows(size, 0, levels);
    assert(0 <= k * one && k * one + one <= n * one) by (nonlinear_arith)
        requires
            0 <= k < n,
            0 <= one,
    ;
    let side = numbers::mip_side(size, m);
    assert(0 <= side * side) by (nonlinear_arith);
    mips::lemma_level_offset_grows(size, 0, m);
    mips::lemma_level_offset_grows(size, m + 1, levels);
    let lo = mips::level_offset(size, m);
    assert(mips::level_offset(size, m + 1) == lo + 4 * (side * side));
    assert(held.len() == 4 * (side * side));
    assert forall|p: int| 0 <= p < 4 * (side * side) implies #[trigger] seen[p] == held[p] by {
        lemma_layer_copies(g, idx, n, size, levels, image, bytes, image, layer, m, p);
        assert(idx[k] == layer);
        assert(held[p] == bytes[at + lo + p]);
    }
    assert(seen =~= held);
}

/// What a queue's copies leave in the image is, layer by layer, the mip chain of the
/// queued pixels.
proof fn lemma_queue_reads_back<F: Fn(u8, u8, u8, u8) -> u8>(
    mean: F,
    bytes: Seq<u8>,
    q: Seq<PendingLayer>,
    size: int,
    levels: int,
    g: Gpu,
    image: u64,
    k: int,
)
    requires
        g.uploads.len() == 0,
        runs::ascending(indices(q)),
        1 <= size <= u32::MAX,
        0 <= levels <= 32,
        packs(mean, bytes, q, size, levels),
        bytes.len() <= u64::MAX,
        0 <= k < q.len(),
    ensures
        ({
            let after = playback::play(
                g,
                layer_copies(indices(q), q.len() as int, size, levels, image),
                bytes,
            );
            mips::is_chain(
                mean,
                q[k].pixels@,
                size,
                levels,
                read_back(after.texels, image, q[k].index as int, size, levels),
            )
        }),
{
    let idx = indices(q);
    let after = playback::play(g, layer_copies(idx, q.len() as int, size, levels, image), bytes);
    let at = chain_start(k, size, levels);
    let held = mips::chain_at(bytes, at, size, levels);
    let seen = read_back(after.texels, image, q[k].index as int, size, levels);
    assert(seen == held) by {
        assert forall|m: int| 0 <= m < levels implies #[trigger] seen[m] == held[m] by {
            lemma_level_reads_back(bytes, idx, size, levels, g, image, k, m);
        }
        assert(seen =~= held);
    }
}

/// An upload brings the pending layers into the array: each of them, read back level by
/// level, is the mip chain of its pixels, and no other layer and no other image changes.
pub proof fn law_an_upload_fills_the_pending_layers<F: Fn(u8, u8, u8, u8) -> u8>(
    t: &BlockTextures,
    lane: Lane,
    graphics_family: u32,
    mean: F,
    u: LayerUpload,
    g: Gpu,
)
    requires
        t.wf(),
        t.pending_grow is None,
        upload_plan(t, lane, graphics_family, mean, u),
        g.uploads.len() == 0,
    ensures
        ({
            let after = playback::play(g, u.record@, u.bytes@);
            let image = t.array.image;
            &&& after == (Gpu { texels: after.texels, uploads: Seq::empty(), ..g })
            &&& forall|k: int|
                0 <= k < t.pending.len() ==> mips::is_chain(
                    mean,
                    t.layer_pixels[(#[trigger] t.pending[k]).index as int]@,
                    t.size as int,
                    t.mip_levels as int,
                    read_back(
                        after.texels,
                        image,
                        t.pending[k].index as int,
                        t.size as int,
                        t.mip_levels as int,
                    ),
                )
            &&& forall|i: u64, layer: int, mip: int, p: int|
                (i != image || forall|k: int|
                    0 <= k < t.pending.len() ==> (#[trigger] t.pending[k]).index != layer)
                    ==> #[trigger] (after.texels)(i, layer, mip, p) == (g.texels)(i, layer, mip, p)
        }),
{
    let q = t.pending@;
    let image = t.array.image;
    let size = t.size as int;
    let levels = t.mip_levels as int;
    let over = overwritten(q, t.written);
    let fresh = unwritten(q, t.written);
    let all = indices(q).to_set();
    let entry = over_layers(overwrite_barrier(image, t.mip_levels, lane, graphics_family), over)
        + over_layers(fresh_barrier(image, t.mip_levels), fresh);
    let copies = layer_copies(indices(q), q.len() as int, size, levels, image);
    let exit = over_layers(
        sampled_barrier(image, t.mip_levels, lane, graphics_family),
        all,
    );
    let bytes = u.bytes@;
    assert(bytes.len() == u.bytes.len());
    let after = playback::play(g, u.record@, bytes);
    playback::lemma_play_concat(g, commands::issued(entry) + copies, commands::issued(exit), bytes);
    playback::lemma_play_concat(g, commands::issued(entry), copies, bytes);
    playback::lemma_play_issued(g, entry, bytes);
    let mid = playback::play(g, copies, bytes);
    playback::lemma_play_issued(mid, exit, bytes);
    assert(after == mid);
    lemma_layer_copies(g, indices(q), q.len() as int, size, levels, image, bytes, 0, 0, 0, 0);
    assert forall|k: int| 0 <= k < t.pending.len() implies mips::is_chain(
        mean,
        t.layer_pixels[(#[trigger] t.pending[k]).index as int]@,
        size,
        levels,
        read_back(after.texels, image, t.pending[k].index as int, size, levels),
    ) by {
        lemma_queue_reads_back(mean, bytes, q, size, levels, g, image, k);
        assert(q[k].pixels@ == t.palette_spec()[q[k].index as int]);
    }
    assert forall|i: u64, layer: int, mip: int, p: int|
        (i != image || forall|k: int|
            0 <= k < t.pending.len() ==> (#[trigger] t.pending[k]).index != layer) implies
        #[trigger] (after.texels)(i, layer, mip, p) == (g.texels)(i, layer, mip, p) by {
        lemma_layer_copies(
            g,
            indices(q),
            q.len() as int,
            size,
            levels,
            image,
            bytes,
            i,
            layer,
            mip,
            p,
        );
        if i == image {
            assert forall|k: int| 0 <= k < q.len() implies #[trigger] indices(q)[k] != layer by {
                assert(t.pending[k].index != layer);
            }
        }
    }
}

/// What a grow's image copy does.
proof fn lemma_grow_copy(
    t: &BlockTextures,
    image: u64,
    copied: u32,
    g: Gpu,
    staging: Seq<u8>,
    i: u64,
    layer: int,
    mip: int,
    p: int,
)
    requires
        t.size >= 1,
        t.mip_levels <= 32,
        g.moves.len() == 0,
    ensures
        ({
            let after = playback::play(g, grow_copy(t, image, copied), staging);
            let side = numbers::mip_side(t.size as int, mip);
            &&& after == (Gpu { texels: after.texels, moves: Seq::empty(), ..g })
            &&& (after.texels)(i, layer, mip, p) == if i == image && 0 <= layer < copied && 0 <= mip
                < t.mip_levels && 0 <= p < 4 * (side * side) {
                (g.texels)(t.array.image, layer, mip, p)
            } else {
                (g.texels)(i, layer, mip, p)
            }
        }),
{
    let rs = mip_copies(t.size as int, t.mip_levels as int, copied);
    let after = playback::play(g, grow_copy(t, image, copied), staging);
    assert(g.moves =~= Seq::empty());
    if copied > 0 {
        let listed = Seq::new(rs.len(), |m: int| Cmd::ImageRegion(rs[m]));
        playback::lemma_play_push(
            g,
            listed,
            Cmd::CopyImage {
                src: t.array.image,
                src_layout: LAYOUT_TRANSFER_SRC,
                dst: image,
                dst_layout: LAYOUT_TRANSFER_DST,
            },
            staging,
        );
        playback::lemma_play_moves(g, rs, staging);
        assert(g.moves + rs =~= rs);
        assert(after.texels == playback::moved(g.texels, t.array.image, image, rs));
        playback::lemma_moved(g.texels, t.array.image, image, rs, i, layer, mip, p);
        assert forall|m: int| 0 <= m < t.mip_levels implies {
            let r = #[trigger] rs[m];
            &&& r.mip == m
            &&& r.layers == copied
            &&& r.width == numbers::mip_side(t.size as int, m)
            &&& r.height == numbers::mip_side(t.size as int, m)
        } by {
            numbers::lemma_mip_side(t.size as int, m);
        }
        if 0 <= mip < t.mip_levels {
            let r = rs[mip];
            assert(playback::move_writes(r, layer, mip, p) <==> 0 <= layer < copied && 0 <= p < 4
                * (r.width * r.height));
        }
    } else {
        playback::lemma_play_nothing(g, staging);
    }
}

/// A grow brings the palette into the new array: each layer that is uploaded reads back
/// as the mip chain of its pixels, each other layer that is copied reads back as it did
/// in the old array, and the old array keeps what it has.
pub proof fn law_a_grow_moves_the_palette<F: Fn(u8, u8, u8, u8) -> u8>(
    t: &BlockTextures,
    q: PendingGrow,
    fresh: GpuArray,
    mean: F,
    bytes: Seq<u8>,
    g: Gpu,
)
    requires
        t.wf(),
        t.pending_grow == Some(q),
        fresh.image != t.array.image,
        packs(
            mean,
            bytes,
            q.staging@,
            q.size as int,
            numbers::bit_length(q.size as int),
        ),
        bytes.len() <= u64::MAX,
        g.uploads.len() == 0,
        g.moves.len() == 0,
    ensures
        ({
            let after = playback::play(g, grow_cmds(t, q, fresh.image), bytes);
            let levels = numbers::bit_length(q.size as int);
            &&& after == (Gpu {
                texels: after.texels,
                uploads: Seq::empty(),
                moves: Seq::empty(),
                ..g
            })
            &&& forall|k: int|
                0 <= k < q.staging.len() ==> mips::is_chain(
                    mean,
                    q.layers[(#[trigger] q.staging[k]).index as int]@,
                    q.size as int,
                    levels,
                    read_back(
                        after.texels,
                        fresh.image,
                        q.staging[k].index as int,
                        q.size as int,
                        levels,
                    ),
                )
            &&& forall|layer: int|
                0 <= layer < q.copied && layer < q.layers.len() && (forall|k: int|
                    0 <= k < q.staging.len() ==> (#[trigger] q.staging[k]).index != layer)
                    ==> #[trigger] read_back(
                    after.texels,
                    fresh.image,
                    layer,
                    t.size as int,
                    t.mip_levels as int,
                ) == read_back(
                    g.texels,
                    t.array.image,
                    layer,
                    t.size as int,
                    t.mip_levels as int,
                )
            &&& forall|i: u64, layer: int, mip: int, p: int|
                i != fresh.image ==> #[trigger] (after.texels)(i, layer, mip, p) == (g.texels)(
                    i,
                    layer,
                    mip,
                    p,
                )
        }),
{
    let image = fresh.image;
    let used = q.layers.len() as u32;
    let levels = numbers::bit_length(q.size as int);
    numbers::lemma_word_bits(q.size);
    let copied = copied_by(q);
    let entry = grow_entry(t, image, levels as u32, used, copied);
    let first = grow_copy(t, image, copied);
    let idx = indices(q.staging@);
    let n = q.staging.len() as int;
    let size = q.size as int;
    let copies = layer_copies(idx, n, size, levels, image);
    let exit = seq![
        ImageBarrier {
            range: commands::color_range(levels as u32, 0, used),
            ..layer_barrier(
                image,
                levels as u32,
                commands::copy_write(),
                commands::fragment_sample(),
                (LAYOUT_TRANSFER_DST, LAYOUT_SHADER_READ_ONLY),
                (NO_HANDOVER, NO_HANDOVER),
            )
        },
    ];
    assert(mips::pixels_of(q.layers@).len() == q.layers.len());
    assert(t.palette_spec().len() == t.layers);
    assert(q.layers.len() == t.layers);
    let cmds = grow_cmds(t, q, image);
    let after = playback::play(g, cmds, bytes);
    playback::lemma_play_concat(
        g,
        commands::issued(entry) + first + copies,
        commands::issued(exit),
        bytes,
    );
    playback::lemma_play_concat(g, commands::issued(entry) + first, copies, bytes);
    playback::lemma_play_concat(g, commands::issued(entry), first, bytes);
    playback::lemma_play_issued(g, entry, bytes);
    let g1 = playback::play(g, first, bytes);
    let g2 = playback::play(g1, copies, bytes);
    playback::lemma_play_issued(g2, exit, bytes);
    assert(after == g2);
    lemma_grow_copy(t, image, copied, g, bytes, 0, 0, 0, 0);
    lemma_layer_copies(g1, idx, n, size, levels, image, bytes, 0, 0, 0, 0);
    assert forall|k: int| 0 <= k < q.staging.len() implies mips::is_chain(
        mean,
        q.layers[(#[trigger] q.staging[k]).index as int]@,
        size,
        levels,
        read_back(after.texels, image, q.staging[k].index as int, size, levels),
    ) by {
        lemma_queue_reads_back(mean, bytes, q.staging@, size, levels, g1, image, k);
        assert(q.staging@[k].pixels@ == t.palette_spec()[q.staging@[k].index as int]);
        assert(mips::pixels_of(q.layers@)[q.staging@[k].index as int] == t.palette_spec()[
        q.staging@[k].index as int]);
    }
    assert forall|layer: int|
        0 <= layer < q.copied && layer < q.layers.len() && (forall|k: int|
            0 <= k < q.staging.len() ==> (#[trigger] q.staging[k]).index != layer) implies
        #[trigger] read_back(after.texels, image, layer, t.size as int, t.mip_levels as int)
        == read_back(g.texels, t.array.image, layer, t.size as int, t.mip_levels as int) by {
        let a = read_back(after.texels, image, layer, t.size as int, t.mip_levels as int);
        let b = read_back(g.texels, t.array.image, layer, t.size as int, t.mip_levels as int);
        assert(layer < copied);
        assert forall|k: int| 0 <= k < n implies #[trigger] idx[k] != layer by {
            assert(q.staging[k].index != layer);
        }
        assert forall|m: int| 0 <= m < t.mip_levels implies #[trigger] a[m] == b[m] by {
            let side = numbers::mip_side(t.size as int, m);
            assert forall|p: int| 0 <= p < 4 * (side * side) implies #[trigger] a[m][p]
                == b[m][p] by {
                lemma_grow_copy(t, image, copied, g, bytes, image, layer, m, p);
                lemma_layer_copies(g1, idx, n, size, levels, image, bytes, image, layer, m, p);
            }
            assert(a[m] =~= b[m]);
        }
        assert(a =~= b);
    }
    assert forall|i: u64, layer: int, mip: int, p: int| i != image implies #[trigger] (
    after.texels)(i, layer, mip, p) == (g.texels)(i, layer, mip, p) by {
        lemma_grow_copy(t, image, copied, g, bytes, i, layer, mip, p);
        lemma_layer_copies(g1, idx, n, size, levels, image, bytes, i, layer, mip, p);
    }
}

/// One level of a layer of the first upload, read back.
proof fn lemma_major_level_reads_back(
    t: Texels,
    from: spec_fn(int) -> u8,
    image: u64,
    bytes: Seq<u8>,
    n: int,
    size: int,
    levels: int,
    l: int,
    m: int,
)
    requires
        1 <= size <= u32::MAX,
        0 <= l < n <= u32::MAX,
        0 <= m < levels <= 32,
        bytes.len() == mips::major_offset(n, size, levels, 0),
        bytes.len() <= u64::MAX,
        forall|p: int| 0 <= p < bytes.len() ==> #[trigger] from(p) == bytes[p],
    ensures
        ({
            let after = playback::filled(t, from, image, mips::major_regions(n, size, levels));
            read_back(after, image, l, size, levels)[m] == mips::major_chain(
                bytes,
                n,
                l,
                size,
                levels,
            )[m]
        }),
{
    let rs = mips::major_regions(n, size, levels);
    let after = playback::filled(t, from, image, rs);
    let seen = read_back(after, image, l, size, levels)[m];
    let held = mips::major_chain(bytes, n, l, size, levels)[m];
    let side = numbers::mip_side(size, m);
    numbers::lemma_mip_side(size, m);
    assert(0 <= side * side) by (nonlinear_arith);
    mips::law_regions_stay_in_the_staged_bytes(n, size, levels, m);
    let lb = 4 * (side * side);
    assert((l + 1) * lb == l * lb + lb) by (nonlinear_arith);
    assert(0 <= l * lb && l * lb + lb <= n * lb) by (nonlinear_arith)
        requires
            0 <= l < n,
            0 <= lb,
    ;
    let off = n * mips::level_offset(size, m);
    assert(rs[m].buffer_offset == off);
    assert(rs[m].width == side && rs[m].height == side);
    assert(held.len() == lb);
    assert forall|p: int| 0 <= p < lb implies #[trigger] seen[p] == held[p] by {
        playback::lemma_filled(t, from, image, rs, image, l, m, p);
        assert(playback::upload_writes(rs[m], l, m, p));
        let j = choose|j: int|
            0 <= j < rs.len() && playback::upload_writes(#[trigger] rs[j], l, m, p) && after(
                image,
                l,
                m,
                p,
            ) == from(
                rs[j].buffer_offset + (l - rs[j].base_layer) * (4 * (rs[j].width * rs[j].height))
                    + p,
            );
        assert(j == m);
        assert(from(off + l * lb + p) == bytes[off + l * lb + p]);
    }
    assert(seen =~= held);
}

/// The first upload brings the whole palette into the new image: each layer, read back
/// level by level, is the mip chain of its pixels.
pub proof fn law_the_first_upload_fills_the_palette<F: Fn(u8, u8, u8, u8) -> u8>(
    size: u32,
    layers: Seq<Vec<u8>>,
    mean: F,
    r: ImageUpload,
    image: u64,
    buffer: u64,
    g: Gpu,
    own: Seq<u8>,
    l: int,
)
    requires
        size >= 1,
        1 <= layers.len() <= u32::MAX,
        r.mip_levels == numbers::bit_length(size as int),
        r.regions@ == mips::major_regions(layers.len() as int, size as int, r.mip_levels as int),
        r.bytes.len() == mips::major_offset(
            layers.len() as int,
            size as int,
            r.mip_levels as int,
            0,
        ),
        0 <= l < layers.len(),
        mips::is_chain(
            mean,
            layers[l]@,
            size as int,
            r.mip_levels as int,
            mips::major_chain(
                r.bytes@,
                layers.len() as int,
                l,
                size as int,
                r.mip_levels as int,
            ),
        ),
        g.uploads.len() == 0,
        forall|p: int| 0 <= p < r.bytes.len() ==> #[trigger] (g.memory)(buffer, p) == r.bytes[p],
    ensures
        ({
            let cmds = image_upload::upload_cmds(
                image,
                buffer,
                r.mip_levels,
                r.array_layers,
                r.regions@,
            );
            let after = playback::play(g, cmds, own);
            mips::is_chain(
                mean,
                layers[l]@,
                size as int,
                r.mip_levels as int,
                read_back(after.texels, image, l, size as int, r.mip_levels as int),
            )
        }),
{
    let n = layers.len() as int;
    let sz = size as int;
    let levels = r.mip_levels as int;
    numbers::lemma_word_bits(size);
    let rs = r.regions@;
    let cmds = image_upload::upload_cmds(image, buffer, r.mip_levels, r.array_layers, rs);
    let after = playback::play(g, cmds, own);
    image_upload::law_an_upload_fills_the_image(
        image,
        buffer,
        r.mip_levels,
        r.array_layers,
        rs,
        g,
        own,
    );
    let from = |p: int| (g.memory)(buffer, p);
    let held = mips::major_chain(r.bytes@, n, l, sz, levels);
    let seen = read_back(after.texels, image, l, sz, levels);
    assert(seen == held) by {
        assert forall|m: int| 0 <= m < levels implies #[trigger] seen[m] == held[m] by {
            assert(r.bytes@.len() == r.bytes.len());
            lemma_major_level_reads_back(g.texels, from, image, r.bytes@, n, sz, levels, l, m);
        }
        assert(seen =~= held);
    }
}

/// A layer is uploaded by a grow where, and only where, the copy on the GPU does not bring
/// it as the new palette has it: behind the copied layers, or different from before. No
/// layer is copied across a change of texel size, past what was written, or past the end.
pub proof fn law_a_grow_uploads_what_it_cannot_copy(
    old_size: int,
    old_written: int,
    old_pixels: Seq<Seq<u8>>,
    new_size: int,
    new_pixels: Seq<Seq<u8>>,
    copied: int,
    i: u32,
)
    requires
        new_pixels.len() <= u32::MAX,
        0 <= old_written,
        copied == copied_layers(old_size, old_written, new_size, new_pixels.len() as int),
    ensures
        0 <= copied <= old_written,
        copied <= new_pixels.len(),
        new_size != old_size ==> copied == 0,
        new_size == old_size ==> copied == old_written || copied == new_pixels.len(),
        indices_where(
            |k: int| k >= copied || differs(old_pixels, new_pixels, k),
            new_pixels.len() as int,
        ).contains(i) <==> i < new_pixels.len() && !(i < copied && i < old_pixels.len()
            && old_pixels[i as int] == new_pixels[i as int]),
{
    let p = |k: int| k >= copied || differs(old_pixels, new_pixels, k);
    lemma_indices_where(p, new_pixels.len() as int);
}

/// The changed layers are those whose pixels are new or not what they were.
pub proof fn law_changed_layers_are_found(
    old_pixels: Seq<Seq<u8>>,
    new_pixels: Seq<Seq<u8>>,
    i: u32,
)
    requires
        new_pixels.len() <= u32::MAX,
    ensures
        indices_where(
            |k: int| differs(old_pixels, new_pixels, k),
            new_pixels.len() as int,
        ).contains(i) <==> i < new_pixels.len() && (i >= old_pixels.len() || old_pixels[i as int]
            != new_pixels[i as int]),
        runs::ascending(
            indices_where(|k: int| differs(old_pixels, new_pixels, k), new_pixels.len() as int),
        ),
{
    let p = |k: int| differs(old_pixels, new_pixels, k);
    lemma_indices_where(p, new_pixels.len() as int);
}

/// An append takes the new layers in order, as many as the device has room for, and numbers
/// them on from those in use.
pub proof fn law_an_append_takes_what_fits(
    new_pixels: Seq<Seq<u8>>,
    used: int,
    device_limit: int,
    k: int,
)
    requires
        0 <= used,
        0 <= k < admitted(new_pixels, used, device_limit).len(),
        used + new_pixels.len() <= u32::MAX,
    ensures
        ({
            let add = admitted(new_pixels, used, device_limit);
            &&& add.len() <= new_pixels.len()
            &&& used + add.len() <= device_limit
            &&& add.len() < new_pixels.len() ==> used + add.len() == device_limit
            &&& add[k] == new_pixels[k]
            &&& appended_indices(used, add.len() as int).len() == add.len()
            &&& appended_indices(used, add.len() as int)[k] == used + k
        }),
{
}

/// A synchronized palette is what the GPU will hold: a used layer is there as the palette
/// has it, or is queued with the palette's own pixels.
pub proof fn law_a_synced_layer_is_there_or_queued(t: &BlockTextures, i: int)
    requires
        t.wf(),
        t.synced(),
        t.pending_grow is None,
        0 <= i < t.layers,
    ensures
        (exists|k: int|
            0 <= k < t.pending.len() && (#[trigger] t.pending[k]).index == i && t.pending[k].pixels@
                == t.layer_pixels[i]@) || (t.gpu@.dom().contains(i) && t.gpu@[i]
            == t.layer_pixels[i]@),
{
    assert(t.layer_synced(i));
    if queued(t.pending@, i) {
        let k = choose|k: int| 0 <= k < t.pending@.len() && (#[trigger] t.pending@[k]).index == i;
        assert(t.pending[k].index == i);
        assert(t.pending@[k].pixels@ == t.palette_spec()[i]);
    }
}

/// A palette is updated in place where its texels stay as large and its layers fit, and no
/// move is queued.
pub proof fn law_in_place_needs_no_other_array(t: &BlockTextures, size: int, layer_count: int)
    ensures
        t.in_place(size, layer_count) ==> size == t.size && layer_count <= t.capacity
            && t.pending_grow is None,
        layer_count > t.capacity || layer_count < 1 || size != t.size || t.pending_grow is Some
            ==> !t.in_place(size, layer_count),
        t.pending_grow is None && size == t.size && 1 <= layer_count <= t.capacity ==> t.in_place(
            size,
            layer_count,
        ),
        white_texel().len() == 4,
        forall|c: int| 0 <= c < 4 ==> #[trigger] white_texel()[c] == 255,
{
}

proof fn lemma_layer_copies_touch(
    q: Seq<u32>,
    n: int,
    size: int,
    levels: int,
    image: u64,
    i: int,
)
    requires
        0 <= i < layer_copies(q, n, size, levels, image).len(),
    ensures
        ({
            let c = layer_copies(q, n, size, levels, image)[i];
            c is BufferImageRegion || c == (Cmd::CopyStagingToImage {
                image,
                layout: LAYOUT_TRANSFER_DST,
            })
        }),
    decreases n,
{
    if n > 0 {
        let less = layer_copies(q, n - 1, size, levels, image);
        if i < less.len() {
            lemma_layer_copies_touch(q, n - 1, size, levels, image, i);
        }
    }
}

/// Copies into an array that is let in for them, with any number of copies before.
proof fn lemma_copies_let_in(h: Held, first: Seq<Cmd>, copies: Seq<Cmd>, p: Part)
    requires
        h == layouts::at_rest(LAYOUT_TRANSFER_DST, commands::copy_write()),
        forall|i: int|
            0 <= i < first.len() ==> layouts::reaches(
                #[trigger] first[i],
                p,
                h.layout,
                commands::copy_write(),
            ),
        forall|i: int|
            0 <= i < copies.len() ==> (#[trigger] copies[i] is BufferImageRegion || copies[i] == (
            Cmd::CopyStagingToImage { image: p.image, layout: LAYOUT_TRANSFER_DST })),
    ensures
        ({
            let end = layouts::after(h, first + copies, p);
            &&& layouts::orderly(h, first + copies, p)
            &&& end.layout == LAYOUT_TRANSFER_DST
            &&& end.used is Some ==> end.used->Some_0 == commands::copy_write()
        }),
{
    let all = first + copies;
    assert forall|i: int| 0 <= i < all.len() implies layouts::reaches(
        #[trigger] all[i],
        p,
        h.layout,
        commands::copy_write(),
    ) by {
        if i < first.len() {
            assert(all[i] == first[i]);
        } else {
            assert(all[i] == copies[i - first.len()]);
        }
    }
    layouts::lemma_uses(h, all, p, commands::copy_write());
}

/// Exactly one of the barriers over the runs of `layers` is over a layer of them.
proof fn lemma_over_layers(proto: ImageBarrier, layers: Set<u32>, layer: u32, p: Part) -> (k: int)
    requires
        layers.contains(layer),
        !layers.contains(u32::MAX),
        p.image == proto.image,
        p.layer == layer,
        0 <= p.mip < proto.range.mips,
    ensures
        ({
            let bs = over_layers(proto, layers);
            &&& 0 <= k < bs.len()
            &&& layouts::governs(bs[k], p)
            &&& bs[k] == (ImageBarrier { range: bs[k].range, ..proto })
            &&& forall|l: int|
                0 <= l < bs.len() && l != k ==> !layouts::governs(#[trigger] bs[l], p)
        }),
{
    let k = runs::lemma_run_holding(layers, layer);
    let list = runs::runs_of(layers);
    let bs = over_layers(proto, layers);
    assert(runs::in_run(list[k], layer as int));
    assert forall|l: int| 0 <= l < bs.len() && l != k implies !layouts::governs(
        #[trigger] bs[l],
        p,
    ) by {
        assert(!runs::in_run(list[l], layer as int));
    }
    k
}

proof fn lemma_no_layers(proto: ImageBarrier, layers: Set<u32>, layer: u32, p: Part)
    requires
        !layers.contains(layer),
        !layers.contains(u32::MAX),
        p.layer == layer,
    ensures
        forall|l: int|
            0 <= l < over_layers(proto, layers).len() ==> !layouts::governs(
                #[trigger] over_layers(proto, layers)[l],
                p,
            ),
{
    runs::lemma_no_run_holding(layers, layer);
    let list = runs::runs_of(layers);
    let bs = over_layers(proto, layers);
    assert forall|l: int| 0 <= l < bs.len() implies !layouts::governs(#[trigger] bs[l], p) by {
        assert(!runs::in_run(list[l], layer as int));
    }
}

/// How a layer of the bound array stands before an upload: a written one was sampled, which
/// another queue waits for before it starts, and an unwritten one has no layout yet.
pub open spec fn layer_before(written: bool, own_queue: bool) -> Held {
    if written {
        Held {
            layout: LAYOUT_SHADER_READ_ONLY,
            ready: commands::fragment_sample(),
            used: if own_queue {
                None
            } else {
                Some(commands::fragment_sample())
            },
        }
    } else {
        layouts::at_rest(LAYOUT_UNDEFINED, commands::no_access())
    }
}

proof fn lemma_upload_entry(
    t: &BlockTextures,
    lane: Lane,
    graphics_family: u32,
    h: Held,
    p: Part,
    layer: u32,
)
    requires
        t.wf(),
        p.image == t.array.image,
        p.layer == layer,
        0 <= p.mip < t.mip_levels,
        indices(t.pending@).contains(layer),
        ({
            let b = if layer < t.written {
                overwrite_barrier(t.array.image, t.mip_levels, lane, graphics_family)
            } else {
                fresh_barrier(t.array.image, t.mip_levels)
            };
            &&& b.old_layout == h.layout
            &&& h.used is Some ==> b.src == h.used->Some_0
        }),
    ensures
        ({
            let image = t.array.image;
            let entry = over_layers(
                overwrite_barrier(image, t.mip_levels, lane, graphics_family),
                overwritten(t.pending@, t.written),
            ) + over_layers(fresh_barrier(image, t.mip_levels), unwritten(t.pending@, t.written));
            &&& layouts::orderly(h, commands::issued(entry), p)
            &&& layouts::after(h, commands::issued(entry), p) == layouts::at_rest(
                LAYOUT_TRANSFER_DST,
                commands::copy_write(),
            )
        }),
{
    let image = t.array.image;
    let q = t.pending@;
    let over = overwritten(q, t.written);
    let fresh = unwritten(q, t.written);
    let x = overwrite_barrier(image, t.mip_levels, lane, graphics_family);
    let y = fresh_barrier(image, t.mip_levels);
    let xs = over_layers(x, over);
    let ys = over_layers(y, fresh);
    let entry = xs + ys;
    lemma_no_last_layer(t);
    assert(indices(q).to_set().contains(layer));
    if layer < t.written {
        let k = lemma_over_layers(x, over, layer, p);
        lemma_no_layers(y, fresh, layer, p);
        assert(entry[k] == xs[k]);
        assert forall|l: int| 0 <= l < entry.len() && l != k implies !layouts::governs(
            #[trigger] entry[l],
            p,
        ) by {
            if l < xs.len() {
                assert(entry[l] == xs[l]);
            } else {
                assert(entry[l] == ys[l - xs.len()]);
            }
        }
        layouts::lemma_issued(h, entry, p, k);
    } else {
        let k = lemma_over_layers(y, fresh, layer, p);
        lemma_no_layers(x, over, layer, p);
        assert(entry[xs.len() + k] == ys[k]);
        assert forall|l: int| 0 <= l < entry.len() && l != xs.len() + k implies !layouts::governs(
            #[trigger] entry[l],
            p,
        ) by {
            if l < xs.len() {
                assert(entry[l] == xs[l]);
            } else {
                assert(entry[l] == ys[l - xs.len()]);
            }
        }
        layouts::lemma_issued(h, entry, p, xs.len() + k);
    }
}

/// No queue names the last index that there is.
proof fn lemma_no_last_layer(t: &BlockTextures)
    requires
        t.wf(),
    ensures
        !indices(t.pending@).to_set().contains(u32::MAX),
{
    if indices(t.pending@).contains(u32::MAX) {
        let k = choose|k: int|
            0 <= k < indices(t.pending@).len() && indices(t.pending@)[k] == u32::MAX;
        assert(t.pending@[k].index == u32::MAX);
        assert(t.palette_spec().len() == t.layers);
    }
}

/// Along an upload a pending layer is in the layouts that the commands name. What was
/// sampled of it is waited for, on the queue that samples where the lane has another
/// family; it is let in for the copies, which are waited for; and it ends up readable.
pub proof fn law_an_upload_finds_its_layouts<F: Fn(u8, u8, u8, u8) -> u8>(
    t: &BlockTextures,
    lane: Lane,
    graphics_family: u32,
    mean: F,
    u: LayerUpload,
    p: Part,
    layer: u32,
)
    requires
        t.wf(),
        upload_plan(t, lane, graphics_family, mean, u),
        p.image == t.array.image,
        p.layer == layer,
        0 <= p.mip < t.mip_levels,
        indices(t.pending@).contains(layer),
    ensures
        ({
            let h = layer_before(layer < t.written, u.on_lane && u.release.len() == 0);
            let cmds = u.release@ + u.record@;
            &&& layouts::orderly(h, cmds, p)
            &&& layouts::after(h, cmds, p).layout == LAYOUT_SHADER_READ_ONLY
            &&& !u.on_lane ==> layouts::after(h, cmds, p).ready == commands::fragment_sample()
        }),
        u.on_lane && layer < t.written ==> !(u.wait is Nothing),
{
    let image = t.array.image;
    let mips = t.mip_levels;
    let q = t.pending@;
    let over = overwritten(q, t.written);
    let fresh = unwritten(q, t.written);
    let all = indices(q).to_set();
    lemma_no_last_layer(t);
    assert(all.contains(layer));
    if layer < t.written {
        assert(over.contains(layer));
    } else {
        assert(!over.contains(layer));
    }
    let entry = over_layers(overwrite_barrier(image, mips, lane, graphics_family), over)
        + over_layers(fresh_barrier(image, mips), fresh);
    let copies = layer_copies(indices(q), q.len() as int, t.size as int, mips as int, image);
    let away = sampled_barrier(image, mips, lane, graphics_family);
    let exit = over_layers(away, all);
    let h = layer_before(layer < t.written, u.on_lane && u.release.len() == 0);
    let h1 = layouts::after(h, u.release@, p);
    lemma_release(t, lane, graphics_family, mean, u, p, layer);
    lemma_upload_entry(t, lane, graphics_family, h1, p, layer);
    let head = commands::issued(entry);
    let h2 = layouts::after(h1, head, p);
    assert forall|i: int| 0 <= i < copies.len() implies (#[trigger] copies[i] is BufferImageRegion
        || copies[i] == (Cmd::CopyStagingToImage {
        image: p.image,
        layout: LAYOUT_TRANSFER_DST,
    })) by {
        lemma_layer_copies_touch(
            indices(q),
            q.len() as int,
            t.size as int,
            mips as int,
            image,
            i,
        );
    }
    lemma_copies_let_in(h2, Seq::empty(), copies, p);
    assert(Seq::<Cmd>::empty() + copies =~= copies);
    layouts::lemma_concat(h1, head, copies, p);
    let h3 = layouts::after(h1, head + copies, p);
    let k = lemma_over_layers(away, all, layer, p);
    layouts::lemma_issued(h3, exit, p, k);
    layouts::lemma_concat(h1, head + copies, commands::issued(exit), p);
    layouts::lemma_concat(h, u.release@, u.record@, p);
}

proof fn lemma_release<F: Fn(u8, u8, u8, u8) -> u8>(
    t: &BlockTextures,
    lane: Lane,
    graphics_family: u32,
    mean: F,
    u: LayerUpload,
    p: Part,
    layer: u32,
)
    requires
        t.wf(),
        upload_plan(t, lane, graphics_family, mean, u),
        p.image == t.array.image,
        p.layer == layer,
        0 <= p.mip < t.mip_levels,
        indices(t.pending@).contains(layer),
    ensures
        ({
            let h = layer_before(layer < t.written, u.on_lane && u.release.len() == 0);
            let h1 = layouts::after(h, u.release@, p);
            let b = if layer < t.written {
                overwrite_barrier(t.array.image, t.mip_levels, lane, graphics_family)
            } else {
                fresh_barrier(t.array.image, t.mip_levels)
            };
            &&& layouts::orderly(h, u.release@, p)
            &&& b.old_layout == h1.layout
            &&& h1.used is Some ==> b.src == h1.used->Some_0
        }),
{
    let image = t.array.image;
    let mips = t.mip_levels;
    let q = t.pending@;
    let over = overwritten(q, t.written);
    let h = layer_before(layer < t.written, u.on_lane && u.release.len() == 0);
    lemma_no_last_layer(t);
    assert(indices(q).to_set().contains(layer));
    if over != Set::<u32>::empty() && lane.needs_ownership_transfer() {
        let proto = layer_barrier(
            image,
            mips,
            commands::fragment_sample(),
            commands::no_access(),
            (LAYOUT_SHADER_READ_ONLY, LAYOUT_TRANSFER_DST),
            (graphics_family, lane.family),
        );
        let bs = over_layers(proto, over);
        if layer < t.written {
            assert(over.contains(layer));
            let k = lemma_over_layers(proto, over, layer, p);
            assert(u.release@.len() > 0);
            layouts::lemma_issued(h, bs, p, k);
        } else {
            lemma_no_layers(proto, over, layer, p);
            assert forall|i: int| 0 <= i < u.release@.len() implies layouts::elsewhere(
                #[trigger] u.release@[i],
                p,
            ) by {
                if i < bs.len() {
                    assert(u.release@[i] == Cmd::ImageBarrier(bs[i]));
                }
            }
            layouts::lemma_elsewhere(h, u.release@, p);
        }
    } else {
        assert(u.release@ =~= Seq::empty());
        if layer < t.written {
            assert(over.contains(layer));
        }
    }
}

/// What the lane gives away, the frame takes over: barrier by barrier the same layers of the
/// same image between the same layouts and families, the one side ending what the copies
/// wrote and the other beginning what is sampled. Otherwise nothing is taken over.
pub proof fn law_the_frame_takes_over_what_the_lane_gives<F: Fn(u8, u8, u8, u8) -> u8>(
    t: &BlockTextures,
    lane: Lane,
    graphics_family: u32,
    mean: F,
    u: LayerUpload,
    i: int,
)
    requires
        upload_plan(t, lane, graphics_family, mean, u),
        0 <= i < u.acquire.len(),
        u.acquire@[i] is ImageBarrier,
    ensures
        ({
            let given = u.record@[u.record.len() - u.acquire.len() + i];
            let a = given->ImageBarrier_0;
            let b = u.acquire@[i]->ImageBarrier_0;
            &&& lane.tier is DedicatedFamily
            &&& u.acquire.len() <= u.record.len()
            &&& given is ImageBarrier
            &&& a.image == b.image && a.range == b.range
            &&& a.old_layout == b.old_layout && a.new_layout == b.new_layout
            &&& a.src_family == b.src_family == lane.family
            &&& a.dst_family == b.dst_family == graphics_family
            &&& a.src == commands::copy_write() && a.dst == commands::no_access()
            &&& b.src == commands::no_access() && b.dst == commands::fragment_sample()
        }),
{
    let image = t.array.image;
    let mips = t.mip_levels;
    let all = indices(t.pending@).to_set();
    let give = over_layers(sampled_barrier(image, mips, lane, graphics_family), all);
    let take = over_layers(acquire_barrier(image, mips, lane, graphics_family), all);
    let tail = commands::issued(give);
    assert(tail.len() == u.acquire@.len());
    assert(u.record@[u.record.len() - u.acquire.len() + i] == tail[i]);
    if i < give.len() {
        assert(tail[i] == Cmd::ImageBarrier(give[i]));
        assert(u.acquire@[i] == Cmd::ImageBarrier(take[i]));
    } else {
        assert(u.acquire@[i] == Cmd::Barriers);
    }
}

/// Along a grow the new array goes from no layout over the copies to where it is sampled,
/// and the old one, last sampled by the frames before, is let in for the copy out of it.
pub proof fn law_a_grow_finds_its_layouts(t: &BlockTextures, g: PendingGrow, image: u64, p: Part)
    requires
        t.wf(),
        image != t.array.image,
        g.layers.len() <= u32::MAX,
        p.mip >= 0,
        p.layer >= 0,
    ensures
        ({
            let cmds = grow_cmds(t, g, image);
            let new = layouts::at_rest(LAYOUT_UNDEFINED, commands::no_access());
            let old = layer_before(true, false);
            &&& p.image == image && p.mip < numbers::bit_length(g.size as int) as u32 && p.layer
                < g.layers.len() ==> layouts::orderly(new, cmds, p) && layouts::after(new, cmds, p)
                == layouts::at_rest(LAYOUT_SHADER_READ_ONLY, commands::fragment_sample())
            &&& p.image == t.array.image && p.mip < t.mip_levels && p.layer < g.copied && p.layer
                < g.layers.len() ==> layouts::orderly(old, cmds, p)
        }),
{
    let used = g.layers.len() as u32;
    let mips = numbers::bit_length(g.size as int) as u32;
    let copied = copied_by(g);
    let entry = grow_entry(t, image, mips, used, copied);
    let first = grow_copy(t, image, copied);
    let copies = layer_copies(
        indices(g.staging@),
        g.staging.len() as int,
        g.size as int,
        mips as int,
        image,
    );
    let exit = seq![
        ImageBarrier {
            range: commands::color_range(mips, 0, used),
            ..layer_barrier(
                image,
                mips,
                commands::copy_write(),
                commands::fragment_sample(),
                (LAYOUT_TRANSFER_DST, LAYOUT_SHADER_READ_ONLY),
                (NO_HANDOVER, NO_HANDOVER),
            )
        },
    ];
    let cmds = grow_cmds(t, g, image);
    let head = commands::issued(entry);
    let tail = commands::issued(exit);
    assert(cmds =~= head + (first + copies) + tail);
    assert forall|i: int| 0 <= i < copies.len() implies (#[trigger] copies[i] is BufferImageRegion
        || copies[i] == (Cmd::CopyStagingToImage { image, layout: LAYOUT_TRANSFER_DST })) by {
        lemma_layer_copies_touch(
            indices(g.staging@),
            g.staging.len() as int,
            g.size as int,
            mips as int,
            image,
            i,
        );
    }
    assert forall|i: int| 0 <= i < first.len() implies (#[trigger] first[i] is ImageRegion
        || first[i] == (Cmd::CopyImage {
        src: t.array.image,
        src_layout: LAYOUT_TRANSFER_SRC,
        dst: image,
        dst_layout: LAYOUT_TRANSFER_DST,
    })) by {}
    if p.image == image && p.mip < mips && p.layer < g.layers.len() {
        let new = layouts::at_rest(LAYOUT_UNDEFINED, commands::no_access());
        layouts::lemma_issued(new, entry, p, 0);
        let h = layouts::after(new, head, p);
        lemma_copies_let_in(h, first, copies, p);
        layouts::lemma_concat(new, head, first + copies, p);
        layouts::lemma_issued(layouts::after(h, first + copies, p), exit, p, 0);
        layouts::lemma_concat(new, head + (first + copies), tail, p);
    }
    if p.image == t.array.image && p.mip < t.mip_levels && p.layer < g.copied && p.layer
        < g.layers.len() {
        let old = layer_before(true, false);
        layouts::lemma_issued(old, entry, p, 1);
        let h = layouts::after(old, head, p);
        let work = first + copies;
        assert forall|i: int| 0 <= i < work.len() implies layouts::reaches(
            #[trigger] work[i],
            p,
            h.layout,
            commands::copy_read(),
        ) by {
            if i < first.len() {
                assert(work[i] == first[i]);
            } else {
                assert(work[i] == copies[i - first.len()]);
            }
        }
        layouts::lemma_uses(h, work, p, commands::copy_read());
        layouts::lemma_concat(old, head, work, p);
        assert forall|i: int| 0 <= i < tail.len() implies layouts::elsewhere(
            #[trigger] tail[i],
            p,
        ) by {
            if i < exit.len() {
                assert(tail[i] == Cmd::ImageBarrier(exit[i]));
            }
        }
        layouts::lemma_elsewhere(layouts::after(h, work, p), tail, p);
        layouts::lemma_concat(old, head + work, tail, p);
    }
}

} // verus!
