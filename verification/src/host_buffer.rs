//! Growable host-visible buffers, written every frame.
//!
//! [`HostBuffer::maintain`] decides when the buffer is destroyed and what is
//! created in its place; the caller creates it and hands it to
//! [`HostBuffer::attach`].

use vstd::prelude::*;

use crate::memory::{
    heap_size, try_find_memory_type, MemoryProps, HOST_COHERENT, SMALL_BAR_HEAP, UNIFIED,
};
use crate::numbers;
use crate::numbers::next_power_of_two;

verus! {

/// Smallest capacity, which is also where shrinking stops.
pub const IMM_MIN_CAPACITY: u64 = 0x1_0000;

/// Frames after which an oversized buffer shrinks.
pub const IMM_SHRINK_WINDOW: u32 = 600;

/// Most bytes of host buffers in a small device-local, host-visible window.
pub const HOST_BAR_CAP: u64 = 0x400_0000;

/// Largest capacity.
pub const MAX_CAPACITY: u64 = 0x8000_0000_0000_0000;

/// The smaller of `a + b` and the largest number of bytes.
pub open spec fn sat_sum(a: int, b: int) -> int {
    if a + b > u64::MAX {
        u64::MAX as int
    } else {
        a + b
    }
}

/// Whether a buffer of `size` bytes goes into the window type `i`: always on a
/// large heap, and under the cap on a small one.
pub open spec fn takes_bar(props: MemoryProps, i: int, size: u64, bar_used: u64) -> bool {
    props.heap_size_spec(i) >= SMALL_BAR_HEAP || sat_sum(bar_used as int, size as int)
        <= HOST_BAR_CAP
}

/// `i` is the window type that `size` bytes go into.
pub open spec fn bar_pick(
    props: MemoryProps,
    type_filter: u32,
    size: u64,
    bar_used: u64,
    i: int,
) -> bool {
    props.first_suitable(type_filter, UNIFIED, i) && takes_bar(props, i, size, bar_used)
}

/// The memory type of a host buffer, and whether it is the device-local window:
/// the first such type where the buffer may go there, else the first plain
/// host-coherent type, if there is one.
pub fn host_buffer_memory_type(
    props: &MemoryProps,
    type_filter: u32,
    size: u64,
    bar_used: u64,
) -> (r: Option<(u32, bool)>)
    requires
        props.wf(),
    ensures
        forall|i: int| #[trigger]
            bar_pick(*props, type_filter, size, bar_used, i) ==> r == Some((i as u32, true)),
        (r matches Some((i, bar)) ==> (if bar {
            bar_pick(*props, type_filter, size, bar_used, i as int)
        } else {
            props.first_suitable(type_filter, HOST_COHERENT, i as int)
        })),
        r is None ==> forall|j: int|
            0 <= j < props.types.len() ==> !#[trigger] props.suitable(
                type_filter,
                HOST_COHERENT,
                j,
            ),
{
    if let Some(i) = try_find_memory_type(props, type_filter, UNIFIED) {
        let small: bool = heap_size(props, i) < SMALL_BAR_HEAP;
        proof {
            assert forall|k: int| #[trigger]
                bar_pick(*props, type_filter, size, bar_used, k) implies k == i by {
                if k < i {
                    assert(!props.suitable(type_filter, UNIFIED, k));
                } else if i < k {
                    assert(!props.suitable(type_filter, UNIFIED, i as int));
                }
            }
        }
        if !small || bar_used.saturating_add(size) <= HOST_BAR_CAP {
            proof {
                assert(bar_pick(*props, type_filter, size, bar_used, i as int));
            }
            return Some((i, true));
        }
    }
    match try_find_memory_type(props, type_filter, HOST_COHERENT) {
        Some(i) => Some((i, false)),
        None => None,
    }
}

/// The bytes that a buffer of `size` bytes in memory type `type_index` holds
/// against the cap.
pub fn bar_charge(props: &MemoryProps, type_index: u32, size: u64) -> (r: u64)
    requires
        props.wf(),
        type_index < props.types.len(),
    ensures
        r == if props.heap_size_spec(type_index as int) < SMALL_BAR_HEAP {
            size
        } else {
            0
        },
{
    if heap_size(props, type_index) < SMALL_BAR_HEAP {
        size
    } else {
        0
    }
}

/// What follows an attempt to allocate a host buffer's memory.
#[derive(Clone, Copy, Debug, PartialEq, Eq, Structural)]
pub enum Placement {
    /// It succeeded; hold these bytes against the cap.
    Keep { bar_bytes: u64 },
    /// The window was full after all: allocate from this type, against no cap.
    Retry { type_index: u32 },
    /// Nothing is left to try.
    Fail,
}

/// What to do after allocating from `type_index`, which is the window type when
/// `is_bar`, succeeded or did not.
pub fn after_allocate(
    props: &MemoryProps,
    type_filter: u32,
    type_index: u32,
    is_bar: bool,
    size: u64,
    allocated: bool,
) -> (r: Placement)
    requires
        props.wf(),
        type_index < props.types.len(),
    ensures
        allocated ==> r == (Placement::Keep {
            bar_bytes: if is_bar && props.heap_size_spec(type_index as int) < SMALL_BAR_HEAP {
                size
            } else {
                0
            },
        }),
        !allocated && !is_bar ==> r == Placement::Fail,
        !allocated && is_bar ==> match r {
            Placement::Keep { .. } => false,
            Placement::Retry { type_index: i } => props.first_suitable(
                type_filter,
                HOST_COHERENT,
                i as int,
            ),
            Placement::Fail => forall|j: int|
                0 <= j < props.types.len() ==> !#[trigger] props.suitable(
                    type_filter,
                    HOST_COHERENT,
                    j,
                ),
        },
{
    if allocated {
        let bar_bytes: u64 = if is_bar {
            bar_charge(props, type_index, size)
        } else {
            0
        };
        return Placement::Keep { bar_bytes };
    }
    if !is_bar {
        return Placement::Fail;
    }
    match try_find_memory_type(props, type_filter, HOST_COHERENT) {
        Some(type_index) => Placement::Retry { type_index },
        None => Placement::Fail,
    }
}

/// The capacity that a whole window of frames with peak need `peak` shrinks a
/// buffer of `capacity` bytes to: nothing when it went unused, twice the peak when
/// it is over four times too large.
pub open spec fn shrunk(capacity: int, peak: int) -> Option<int> {
    if capacity <= IMM_MIN_CAPACITY {
        None
    } else if peak == 0 {
        Some(0)
    } else if capacity > 4 * peak {
        Some(2 * peak)
    } else {
        None
    }
}

pub fn shrink_capacity(capacity: u64, peak: u64) -> (r: Option<u64>)
    ensures
        match r {
            Some(n) => shrunk(capacity as int, peak as int) == Some(n as int),
            None => shrunk(capacity as int, peak as int) is None,
        },
{
    if capacity <= IMM_MIN_CAPACITY {
        return None;
    }
    if peak == 0 {
        return Some(0);
    }
    match peak.checked_mul(4) {
        Some(quadruple) if capacity > quadruple => Some(2 * peak),
        _ => None,
    }
}

/// The capacity of a buffer that has to hold `needed` bytes.
pub open spec fn capacity_for(needed: int) -> int {
    if numbers::next_pow2(needed) < IMM_MIN_CAPACITY {
        IMM_MIN_CAPACITY as int
    } else {
        numbers::next_pow2(needed)
    }
}

fn capacity_of(needed: u64) -> (r: u64)
    requires
        needed <= MAX_CAPACITY,
    ensures
        r == capacity_for(needed as int),
{
    let p: u64 = next_power_of_two(needed);
    if p < IMM_MIN_CAPACITY {
        IMM_MIN_CAPACITY
    } else {
        p
    }
}

/// Bytes held against the cap, over all host buffers.
#[derive(Clone, Copy, Debug, PartialEq, Eq, Structural)]
pub struct BarBudget {
    pub used: u64,
}

impl BarBudget {
    pub fn new() -> (b: BarBudget)
        ensures
            b.used == 0,
    {
        BarBudget { used: 0 }
    }

    pub fn charge(&mut self, bytes: u64)
        requires
            old(self).used + bytes <= u64::MAX,
        ensures
            final(self).used == old(self).used + bytes,
    {
        self.used = self.used + bytes;
    }

    pub fn credit(&mut self, bytes: u64)
        requires
            bytes <= old(self).used,
        ensures
            final(self).used == old(self).used - bytes,
    {
        self.used = self.used - bytes;
    }
}

/// A buffer that goes out of use, with the bytes it held against the cap.
#[derive(Clone, Copy, Debug, PartialEq, Eq, Structural)]
pub struct Released {
    pub buffer: u64,
    pub bar_bytes: u64,
}

/// What one frame's upkeep asks for, in this order: destroy the buffer, then
/// create one of the given capacity. Nothing at all leaves the buffer as it is.
#[derive(Clone, Copy, Debug, PartialEq, Eq, Structural)]
pub struct Upkeep {
    pub release: Option<Released>,
    pub create: Option<u64>,
    /// Whether the buffer that was bound before no longer is.
    pub changed: bool,
}

/// A host buffer: its handle, its size and how much of it was needed lately.
pub struct HostBuffer {
    pub buffer: u64,
    pub capacity: u64,
    pub bar_bytes: u64,
    pub window_peak: u64,
    pub window_frames: u32,
}

/// The larger of `a` and `b`.
pub open spec fn max_of(a: int, b: int) -> int {
    if a > b {
        a
    } else {
        b
    }
}

/// The size that upkeep with `needed` bytes leaves a buffer of `capacity` bytes
/// with, where the window's peak is `peak`; `shrink` at the window's end.
pub open spec fn kept_capacity(capacity: int, peak: int, needed: int, shrink: bool) -> int {
    let after_shrink = match shrunk(capacity, peak) {
        Some(n) if shrink => if n > 0 {
            capacity_for(n)
        } else {
            0
        },
        _ => capacity,
    };
    if needed > after_shrink {
        capacity_for(needed)
    } else {
        after_shrink
    }
}

impl HostBuffer {
    /// An unallocated buffer has neither bytes nor a charge.
    pub open spec fn wf(&self) -> bool {
        &&& self.buffer == 0 ==> self.capacity == 0 && self.bar_bytes == 0
        &&& self.capacity <= MAX_CAPACITY
        &&& self.window_peak <= MAX_CAPACITY
        &&& self.window_frames < IMM_SHRINK_WINDOW
    }

    /// Whether this frame completes the window.
    pub open spec fn window_ends(&self) -> bool {
        self.window_frames + 1 >= IMM_SHRINK_WINDOW
    }

    pub fn new() -> (b: HostBuffer)
        ensures
            b.wf(),
            b.buffer == 0,
            b.window_peak == 0,
            b.window_frames == 0,
    {
        HostBuffer { buffer: 0, capacity: 0, bar_bytes: 0, window_peak: 0, window_frames: 0 }
    }

    /// The buffer, unless it is unallocated.
    pub fn bound(&self) -> (r: Option<u64>)
        ensures
            r == if self.buffer != 0 {
                Some(self.buffer)
            } else {
                None
            },
    {
        if self.buffer != 0 {
            Some(self.buffer)
        } else {
            None
        }
    }

    /// One frame's upkeep, where the frame writes `needed` bytes. Call after the
    /// slot's fence was waited for.
    ///
    /// At the end of a window the buffer shrinks to what the window needed; it
    /// grows whenever `needed` does not fit. Where something is to be created, the
    /// buffer is unallocated until [`Self::attach`].
    pub fn maintain(&mut self, needed: u64) -> (r: Upkeep)
        requires
            old(self).wf(),
            needed <= MAX_CAPACITY,
        ensures
            final(self).wf(),
            ({
                let peak = max_of(old(self).window_peak as int, needed as int);
                let ends = old(self).window_ends();
                let kept = kept_capacity(old(self).capacity as int, peak, needed as int, ends);
                let drops = ends && shrunk(old(self).capacity as int, peak) is Some;
                &&& final(self).window_peak == if ends {
                    0
                } else {
                    peak
                }
                &&& final(self).window_frames == if ends {
                    0
                } else {
                    old(self).window_frames + 1
                }
                &&& r.changed == (drops || needed > old(self).capacity)
                &&& !r.changed ==> r.release is None && r.create is None && kept
                    == old(self).capacity && final(self).same_buffer(*old(self))
                &&& r.changed ==> r.release == old(self).holding() && final(self).buffer == 0
                    && match r.create {
                    Some(n) => n == kept && n > 0,
                    None => kept == 0,
                }
                &&& kept >= needed
            }),
    {
        let ghost before = *self;
        if needed > self.window_peak {
            self.window_peak = needed;
        }
        self.window_frames = self.window_frames + 1;
        let mut drop: bool = false;
        let mut target: u64 = 0;
        if self.window_frames >= IMM_SHRINK_WINDOW {
            let peak: u64 = self.window_peak;
            self.window_frames = 0;
            self.window_peak = 0;
            if let Some(n) = shrink_capacity(self.capacity, peak) {
                drop = true;
                target = n;
            }
        }
        proof {
            numbers::law_next_pow2_is_least(needed as int);
            numbers::law_next_pow2_is_least(target as int);
        }
        if drop {
            let release: Option<Released> = self.release();
            if target == 0 {
                return Upkeep { release, create: None, changed: true };
            }
            return Upkeep { release, create: Some(capacity_of(target)), changed: true };
        }
        if needed <= self.capacity {
            return Upkeep { release: None, create: None, changed: false };
        }
        let release: Option<Released> = self.release();
        Upkeep { release, create: Some(capacity_of(needed)), changed: true }
    }

    /// The same allocation.
    pub open spec fn same_buffer(&self, other: HostBuffer) -> bool {
        self.buffer == other.buffer && self.capacity == other.capacity && self.bar_bytes
            == other.bar_bytes
    }

    /// What destroying the buffer gives up.
    pub open spec fn holding(&self) -> Option<Released> {
        if self.buffer != 0 {
            Some(Released { buffer: self.buffer, bar_bytes: self.bar_bytes })
        } else {
            None
        }
    }

    /// Gives up the buffer, if there is one.
    pub fn release(&mut self) -> (r: Option<Released>)
        requires
            old(self).wf(),
        ensures
            final(self).wf(),
            r == old(self).holding(),
            final(self).buffer == 0,
            final(self).window_peak == old(self).window_peak,
            final(self).window_frames == old(self).window_frames,
    {
        if self.buffer == 0 {
            return None;
        }
        let r: Released = Released { buffer: self.buffer, bar_bytes: self.bar_bytes };
        self.buffer = 0;
        self.capacity = 0;
        self.bar_bytes = 0;
        Some(r)
    }

    /// Takes the buffer that was created on [`Self::maintain`]'s behalf.
    pub fn attach(&mut self, buffer: u64, capacity: u64, bar_bytes: u64)
        requires
            old(self).wf(),
            old(self).buffer == 0,
            buffer != 0,
            capacity <= MAX_CAPACITY,
        ensures
            final(self).wf(),
            *final(self) == (HostBuffer { buffer, capacity, bar_bytes, ..*old(self) }),
    {
        self.buffer = buffer;
        self.capacity = capacity;
        self.bar_bytes = bar_bytes;
    }

    /// Whether `len` bytes at `offset` lie inside the buffer.
    pub fn fits(&self, offset: u64, len: u64) -> (r: bool)
        ensures
            r == (offset + len <= self.capacity),
    {
        match offset.checked_add(len) {
            Some(end) => end <= self.capacity,
            None => false,
        }
    }
}

/// A shrink always makes the buffer smaller, and leaves room for the peak that
/// decided it.
pub proof fn law_shrinking_makes_it_smaller(capacity: int, peak: int)
    requires
        0 <= peak,
        shrunk(capacity, peak) is Some,
    ensures
        shrunk(capacity, peak)->0 >= peak,
        shrunk(capacity, peak)->0 > 0 ==> capacity_for(shrunk(capacity, peak)->0) < capacity,
{
    let n = shrunk(capacity, peak)->0;
    if n > 0 {
        numbers::law_next_pow2_is_least(n);
        assert(numbers::next_pow2(n) / 2 < n);
        assert(numbers::next_pow2(n) % 2 == 0);
    }
}

/// Upkeep leaves room for the frame. It never drops below the window's peak, grows only
/// for a frame that does not fit, and shrinks only at the end of a window.
pub proof fn law_upkeep_leaves_room_for_the_frame(
    capacity: int,
    peak: int,
    needed: int,
    shrink: bool,
)
    requires
        0 <= needed <= peak,
        0 <= capacity,
    ensures
        kept_capacity(capacity, peak, needed, shrink) >= needed,
        !shrink ==> kept_capacity(capacity, peak, needed, shrink) >= capacity,
        needed <= capacity && !shrink ==> kept_capacity(capacity, peak, needed, shrink) == capacity,
        needed > capacity && !shrink ==> kept_capacity(capacity, peak, needed, shrink)
            == capacity_for(needed),
{
    numbers::law_next_pow2_is_least(needed);
}

/// What is given up is the buffer that was held, with what it took of the window; without a
/// buffer there is nothing to give up.
pub proof fn law_what_is_held_is_given_up(b: HostBuffer)
    ensures
        b.holding() is Some <==> b.buffer != 0,
        b.holding() matches Some(r) ==> r.buffer == b.buffer && r.bar_bytes == b.bar_bytes,
        b.window_ends() <==> b.window_frames + 1 >= IMM_SHRINK_WINDOW,
{
}

/// The peak of a window is the larger of what it was and what the frame needs.
pub proof fn law_the_peak_is_the_larger(a: int, b: int)
    ensures
        max_of(a, b) >= a,
        max_of(a, b) >= b,
        max_of(a, b) == a || max_of(a, b) == b,
{
}

/// A buffer goes into the window only where the type is allowed, on the device and
/// writable by the host, and is the lowest such type.
pub proof fn law_the_window_is_device_memory(
    props: MemoryProps,
    filter: u32,
    size: u64,
    bar_used: u64,
    i: int,
)
    requires
        props.wf(),
        bar_pick(props, filter, size, bar_used, i),
    ensures
        0 <= i < props.types.len(),
        (filter >> (i as u32)) & 1 == 1,
        props.types[i].flags & 7 == 7,
{
    let a = i as u32;
    assert((filter & (1u32 << a) != 0) == ((filter >> a) & 1 == 1)) by (bit_vector)
        requires
            a < 32,
    ;
}

} // verus!
