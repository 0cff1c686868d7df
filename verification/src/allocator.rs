//! Block-suballocating GPU buffer allocator.
//!
//! One device allocation per mesh would exhaust the driver's allocation limit,
//! so the allocator owns a small number of large blocks (one buffer and one
//! memory object each) and hands out sub-ranges by first fit.
//!
//! Two pools:
//! - device: vertex, index and transfer-destination buffers in device-local
//!   memory, host-visible where the memory is unified;
//! - staging: transfer-source buffers in host-visible, coherent memory.
//!
//! The caller creates and destroys the driver's objects; this module decides
//! when, how large, and where each allocation lies. Buffers and memory objects
//! are held by their raw handles.

use vstd::prelude::*;

use crate::free_list;
use crate::free_list::FreeList;
use crate::memory;
use crate::memory::{BudgetSnapshot, MemoryProps, HOST_COHERENT, MEMORY_HOST_VISIBLE};

verus! {

/// Growth block size; larger allocations get a dedicated, larger block.
pub const BLOCK_SIZE: u64 = 0x400_0000;

/// A pool's first block is smaller: a small world holds a few megabytes of live
/// meshes. Growth past it comes in [`BLOCK_SIZE`] strides.
pub const FIRST_BLOCK_SIZE: u64 = 0x100_0000;

/// Consecutive [`GpuAllocator::shrink_device`] calls through which a device
/// block must stay completely free before it is released.
pub const DEVICE_SHRINK_SETTLE_TICKS: u32 = 300;

/// Identifies which pool an allocation came from.
#[derive(Clone, Copy, PartialEq, Eq, Debug, Structural)]
pub enum Pool {
    Device,
    Staging,
}

/// A sub-range of a pooled buffer. Bind `buffer` with `offset`; `mapped` is the
/// address of this allocation's first byte when the block is host-visible.
///
/// Neither `Copy` nor `Clone`: [`GpuAllocator::free`] consumes it.
#[derive(Debug)]
pub struct Allocation {
    pub buffer: u64,
    pub offset: u64,
    pub size: u64,
    pub mapped: Option<u64>,
    pub block: usize,
    pub pool: Pool,
}

/// One buffer and its memory, suballocated by a free list.
pub struct Block {
    pub buffer: u64,
    pub memory: u64,
    /// Size of the memory object, not below the buffer's.
    pub memory_size: u64,
    /// Address of the persistent mapping, when host-visible.
    pub mapped: Option<u64>,
    pub free_list: FreeList,
    /// Consecutive shrink ticks this block has been completely free.
    pub empty_ticks: u32,
}

impl Block {
    pub open spec fn wf(&self) -> bool {
        &&& self.free_list.wf()
        &&& self.free_list.capacity <= self.memory_size
        &&& self.mapped matches Some(base) ==> base + self.free_list.capacity <= u64::MAX
    }

    /// The address of byte `offset` of the block, when it is mapped.
    pub open spec fn address(&self, offset: int) -> Option<u64> {
        match self.mapped {
            Some(base) => Some((base + offset) as u64),
            None => None,
        }
    }

    /// Some hole takes `size` bytes at a multiple of `align`.
    pub open spec fn has_room(&self, size: int, align: int) -> bool {
        exists|i: int|
            0 <= i < self.free_list.free.len() && free_list::fits(
                #[trigger] self.free_list.free[i],
                size,
                align,
            )
    }
}

/// A block that the caller has just created.
pub struct FreshBlock {
    pub buffer: u64,
    pub memory: u64,
    pub memory_size: u64,
    pub mapped: Option<u64>,
    pub buffer_size: u64,
}

impl FreshBlock {
    pub open spec fn wf(&self) -> bool {
        &&& self.buffer_size <= self.memory_size
        &&& self.mapped matches Some(base) ==> base + self.buffer_size <= u64::MAX
    }
}

/// The driver objects of a block that has left its pool.
#[derive(Clone, Copy, Debug, PartialEq, Eq, Structural)]
pub struct Released {
    pub buffer: u64,
    pub memory: u64,
    pub memory_size: u64,
}

/// What an allocation request comes to.
pub enum PoolStep {
    /// An existing block had a hole.
    Ready(Allocation),
    /// The pool needs a block of this many bytes first.
    NeedBlock { buffer_size: u64 },
}

#[derive(Debug, Clone, Copy, PartialEq, Eq, Structural)]
pub struct AllocatorStats {
    pub device_blocks: usize,
    pub device_reserved: u64,
    pub device_used: u64,
    pub staging_blocks: usize,
    pub staging_reserved: u64,
    pub staging_used: u64,
}

pub type Slots = Seq<Option<Block>>;

/// Every block in the pool is well-formed.
pub open spec fn pool_wf(blocks: Slots) -> bool {
    forall|i: int| 0 <= i < blocks.len() ==> (#[trigger] blocks[i] matches Some(b) ==> b.wf())
}

/// Slot `i` holds a block with no byte in use.
pub open spec fn is_empty_block(blocks: Slots, i: int) -> bool {
    blocks[i] matches Some(b) && b.free_list.used == 0
}

/// Slot `i` is empty and some slot before it is empty too: the first empty
/// block stays warm.
pub open spec fn beyond_first_empty(blocks: Slots, i: int) -> bool {
    is_empty_block(blocks, i) && exists|j: int| 0 <= j < i && #[trigger] is_empty_block(blocks, j)
}

/// `list` is exactly the slots for which `pick` holds, ascending.
pub open spec fn lists_exactly(list: Seq<usize>, n: int, pick: spec_fn(int) -> bool) -> bool {
    &&& forall|a: int, b: int| 0 <= a < b < list.len() ==> (#[trigger] list[a]) < (#[trigger] list[b])
    &&& forall|k: int| 0 <= k < list.len() ==> (#[trigger] list[k]) < n && pick(list[k] as int)
    &&& forall|i: int| #![trigger pick(i)] 0 <= i < n && pick(i) ==> list.contains(i as usize)
}

/// The block after one more settling tick.
pub open spec fn ticked(block: Option<Block>) -> Option<Block> {
    match block {
        None => None,
        Some(b) => Some(
            Block {
                empty_ticks: if b.free_list.used != 0 {
                    0
                } else if b.empty_ticks == u32::MAX {
                    u32::MAX
                } else {
                    (b.empty_ticks + 1) as u32
                },
                ..b
            },
        ),
    }
}

/// Slot `i` has stayed empty for `settle` ticks and is not the warm one.
pub open spec fn settled(blocks: Slots, settle: u32, i: int) -> bool {
    beyond_first_empty(blocks, i) && (blocks[i]->Some_0).empty_ticks >= settle
}

pub open spec fn no_live_block(blocks: Slots) -> bool {
    forall|i: int| 0 <= i < blocks.len() ==> (#[trigger] blocks[i]) is None
}

/// The size of the next block of a pool for a request of `size` bytes.
pub open spec fn next_block_size(blocks: Slots, size: int) -> int {
    let floor = if no_live_block(blocks) {
        FIRST_BLOCK_SIZE
    } else {
        BLOCK_SIZE
    };
    if size < floor {
        floor as int
    } else {
        size
    }
}

pub open spec fn room_at(blocks: Slots, i: int, size: int, align: int) -> bool {
    blocks[i] matches Some(b) && b.has_room(size, align)
}

/// `a` names `size` bytes of slot `i`, and `new` is `old` with them in use.
pub open spec fn allocated_in(
    old: Slots,
    new: Slots,
    a: Allocation,
    pool: Pool,
    i: int,
    size: int,
    align: int,
) -> bool {
    &&& 0 <= i < old.len()
    &&& old[i] is Some
    &&& new.len() == old.len()
    &&& new[i] is Some
    &&& forall|j: int| 0 <= j < old.len() && j != i ==> #[trigger] new[j] == old[j]
    &&& ({
        let before = old[i]->Some_0;
        let after = new[i]->Some_0;
        &&& after == Block { free_list: after.free_list, ..before }
        &&& free_list::taken(before.free_list, after.free_list, a.offset as int, size)
        &&& free_list::first_fit(before.free_list.free@, size, align, a.offset as int)
        &&& after.free_list.holds(a.offset as int, size)
        &&& a.buffer == before.buffer
        &&& a.size == size
        &&& a.mapped == before.address(a.offset as int)
        &&& a.block == i
        &&& a.pool == pool
        &&& align > 0 ==> a.offset as int % align == 0
    })
}

/// `a` still names bytes in use of its block.
pub open spec fn is_live(blocks: Slots, a: Allocation) -> bool {
    &&& a.block < blocks.len()
    &&& blocks[a.block as int] matches Some(b) && {
        &&& b.buffer == a.buffer
        &&& b.free_list.holds(a.offset as int, free_list::at_least_one(a.size))
    }
}

pub open spec fn released(b: Block) -> Released {
    Released { buffer: b.buffer, memory: b.memory, memory_size: b.memory_size }
}

/// The driver objects of every block of `blocks`, in slot order.
pub open spec fn all_released(blocks: Slots) -> Seq<Released>
    decreases blocks.len(),
{
    if blocks.len() == 0 {
        Seq::empty()
    } else {
        let front = all_released(blocks.drop_last());
        match blocks.last() {
            Some(b) => front.push(released(b)),
            None => front,
        }
    }
}

pub open spec fn live_blocks(blocks: Slots) -> int
    decreases blocks.len(),
{
    if blocks.len() == 0 {
        0
    } else {
        live_blocks(blocks.drop_last()) + if blocks.last() is Some {
            1int
        } else {
            0
        }
    }
}

pub open spec fn reserved_bytes(blocks: Slots) -> int
    decreases blocks.len(),
{
    if blocks.len() == 0 {
        0
    } else {
        reserved_bytes(blocks.drop_last()) + match blocks.last() {
            Some(b) => b.memory_size as int,
            None => 0,
        }
    }
}

pub open spec fn used_bytes(blocks: Slots) -> int
    decreases blocks.len(),
{
    if blocks.len() == 0 {
        0
    } else {
        used_bytes(blocks.drop_last()) + match blocks.last() {
            Some(b) => b.free_list.used as int,
            None => 0,
        }
    }
}

/// Indices of completely free blocks, without the first one, which is kept warm.
pub fn empty_blocks_beyond_first(blocks: &[Option<Block>]) -> (extra: Vec<usize>)
    ensures
        lists_exactly(extra@, blocks.len() as int, |i: int| beyond_first_empty(blocks@, i)),
{
    let mut extra: Vec<usize> = Vec::new();
    let mut kept_one: bool = false;
    let mut index: usize = 0;
    while index < blocks.len()
        invariant
            index <= blocks.len(),
            kept_one == exists|j: int| 0 <= j < index && #[trigger] is_empty_block(blocks@, j),
            lists_exactly(extra@, index as int, |i: int| beyond_first_empty(blocks@, i)),
        decreases blocks.len() - index,
    {
        let ghost pick = |i: int| beyond_first_empty(blocks@, i);
        let ghost before = extra@;
        let empty: bool = match &blocks[index] {
            Some(block) => block.free_list.is_empty(),
            None => false,
        };
        proof {
            assert(empty == is_empty_block(blocks@, index as int));
            assert(pick(index as int) == (empty && kept_one));
        }
        if empty {
            if kept_one {
                extra.push(index);
            } else {
                kept_one = true;
            }
        }
        proof {
            lemma_lists_step(before, index as int, pick, extra@);
        }
        index = index + 1;
    }
    extra
}

/// One more slot is listed or not.
proof fn lemma_lists_step(
    before: Seq<usize>,
    n: int,
    pick: spec_fn(int) -> bool,
    after: Seq<usize>,
)
    requires
        0 <= n < usize::MAX,
        lists_exactly(before, n, pick),
        after == if pick(n) {
            before.push(n as usize)
        } else {
            before
        },
    ensures
        lists_exactly(after, n + 1, pick),
{
    assert forall|i: int| #![trigger pick(i)] 0 <= i < n + 1 && pick(i) implies after.contains(
        i as usize,
    ) by {
        if i < n {
            assert(before.contains(i as usize));
            let k = choose|k: int| 0 <= k < before.len() && before[k] == i as usize;
            assert(after[k] == i as usize);
        } else {
            assert(after[before.len() as int] == i as usize);
        }
    }
}

/// Advances each block's empty-settling counter and returns the indices of the
/// blocks that have stayed completely free for at least `settle_ticks`
/// consecutive calls, always keeping the first still-empty block warm.
///
/// A block holding any live suballocation resets its counter to 0.
pub fn settled_empty_blocks(blocks: &mut Vec<Option<Block>>, settle_ticks: u32) -> (extra: Vec<
    usize,
>)
    ensures
        final(blocks).len() == old(blocks).len(),
        forall|i: int|
            0 <= i < old(blocks).len() ==> #[trigger] final(blocks)[i] == ticked(old(blocks)[i]),
        lists_exactly(
            extra@,
            old(blocks).len() as int,
            |i: int| settled(final(blocks)@, settle_ticks, i),
        ),
{
    let mut extra: Vec<usize> = Vec::new();
    let mut kept_warm: bool = false;
    let mut index: usize = 0;
    let ghost orig = blocks@;
    let ghost done = Seq::new(orig.len(), |i: int| ticked(orig[i]));
    let ghost pick = |i: int| settled(done, settle_ticks, i);
    while index < blocks.len()
        invariant
            blocks.len() == orig.len(),
            index <= blocks.len(),
            done == Seq::new(orig.len(), |i: int| ticked(orig[i])),
            pick == (|i: int| settled(done, settle_ticks, i)),
            forall|i: int| 0 <= i < index ==> #[trigger] blocks[i] == done[i],
            forall|i: int| index <= i < blocks.len() ==> #[trigger] blocks[i] == orig[i],
            kept_warm == exists|j: int| 0 <= j < index && #[trigger] is_empty_block(done, j),
            lists_exactly(extra@, index as int, pick),
        decreases blocks.len() - index,
    {
        let ghost before = extra@;
        let (live, empty, ticks): (bool, bool, u32) = match &blocks[index] {
            Some(block) => {
                let empty: bool = block.free_list.is_empty();
                (
                    true,
                    empty,
                    if empty {
                        block.empty_ticks.saturating_add(1)
                    } else {
                        0
                    },
                )
            },
            None => (false, false, 0),
        };
        if live {
            match &mut blocks[index] {
                Some(block) => {
                    block.empty_ticks = ticks;
                },
                None => {},
            }
        }
        proof {
            assert(blocks[index as int] == done[index as int]);
            assert(empty == is_empty_block(done, index as int));
            assert(pick(index as int) == (empty && kept_warm && ticks >= settle_ticks));
        }
        if empty {
            if !kept_warm {
                kept_warm = true;
            } else if ticks >= settle_ticks {
                extra.push(index);
            }
        }
        proof {
            lemma_lists_step(before, index as int, pick, extra@);
        }
        index = index + 1;
    }
    proof {
        assert(blocks@ =~= done);
    }
    extra
}

fn make_allocation(block: &Block, index: usize, offset: u64, size: u64, pool: Pool) -> (a:
    Allocation)
    requires
        block.wf(),
        offset + size <= block.free_list.capacity,
    ensures
        a == (Allocation {
            buffer: block.buffer,
            offset,
            size,
            mapped: block.address(offset as int),
            block: index,
            pool,
        }),
{
    let mapped: Option<u64> = match block.mapped {
        Some(base) => Some(base + offset),
        None => None,
    };
    Allocation { buffer: block.buffer, offset, size, mapped, block: index, pool }
}

/// A request is served from the first block with room, or, where none has any,
/// changes nothing and asks for a new one.
pub open spec fn served(
    old: Slots,
    new: Slots,
    step: PoolStep,
    pool: Pool,
    size: int,
    align: int,
) -> bool {
    match step {
        PoolStep::Ready(a) => {
            &&& allocated_in(old, new, a, pool, a.block as int, size, align)
            &&& forall|j: int| 0 <= j < a.block ==> !#[trigger] room_at(old, j, size, align)
        },
        PoolStep::NeedBlock { buffer_size } => {
            &&& new == old
            &&& forall|j: int| 0 <= j < old.len() ==> !#[trigger] room_at(old, j, size, align)
            &&& buffer_size == next_block_size(old, size)
        },
    }
}

/// Suballocates from the first block of `blocks` that has room; when none has,
/// says how large the next block must be.
pub fn alloc_from_pool(blocks: &mut Vec<Option<Block>>, pool: Pool, size: u64, align: u64) -> (step:
    PoolStep)
    requires
        pool_wf(old(blocks)@),
    ensures
        pool_wf(final(blocks)@),
        served(
            old(blocks)@,
            final(blocks)@,
            step,
            pool,
            free_list::at_least_one(size),
            align as int,
        ),
{
    let need: u64 = if size == 0 {
        1
    } else {
        size
    };
    let ghost orig = blocks@;
    let mut live: bool = false;
    let mut index: usize = 0;
    while index < blocks.len()
        invariant
            blocks@ == orig,
            orig == old(blocks)@,
            pool_wf(orig),
            index <= blocks.len(),
            need == free_list::at_least_one(size),
            live == exists|j: int| 0 <= j < index && (#[trigger] orig[j]) is Some,
            forall|j: int|
                0 <= j < index ==> !#[trigger] room_at(orig, j, need as int, align as int),
        decreases blocks.len() - index,
    {
        let ghost before = orig[index as int];
        match &mut blocks[index] {
            Some(block) => {
                live = true;
                let found: Option<u64> = block.free_list.allocate(need, align);
                if let Some(offset) = found {
                    let a: Allocation = make_allocation(&*block, index, offset, need, pool);
                    proof {
                        let old_list = before->Some_0.free_list;
                        assert(allocated_in(
                            orig,
                            blocks@,
                            a,
                            pool,
                            index as int,
                            need as int,
                            align as int,
                        ));
                        assert forall|j: int| 0 <= j < blocks.len() implies (
                        #[trigger] blocks@[j] matches Some(b) ==> b.wf()) by {
                            if j != index {
                                assert(blocks@[j] == orig[j]);
                            }
                        }
                    }
                    return PoolStep::Ready(a);
                }
            },
            None => {},
        }
        proof {
            assert(blocks@ =~= orig);
            assert(orig[index as int] is Some ==> live);
        }
        index = index + 1;
    }
    let floor: u64 = if live {
        BLOCK_SIZE
    } else {
        FIRST_BLOCK_SIZE
    };
    let buffer_size: u64 = if need < floor {
        floor
    } else {
        need
    };
    PoolStep::NeedBlock { buffer_size }
}

/// The slot a new block takes: the first free one, else one past the end.
pub open spec fn install_slot(blocks: Slots, i: int) -> bool {
    &&& 0 <= i <= blocks.len()
    &&& i < blocks.len() ==> blocks[i] is None
    &&& forall|j: int| 0 <= j < i ==> (#[trigger] blocks[j]) is Some
}

/// Puts a freshly created block into the pool and serves the request that asked
/// for it. A destroyed block's slot is reused, so every other slot keeps its
/// index.
pub fn install_block(
    blocks: &mut Vec<Option<Block>>,
    fresh: FreshBlock,
    pool: Pool,
    size: u64,
    align: u64,
) -> (a: Allocation)
    requires
        pool_wf(old(blocks)@),
        fresh.wf(),
        free_list::at_least_one(size) <= fresh.buffer_size,
    ensures
        pool_wf(final(blocks)@),
        install_slot(old(blocks)@, a.block as int),
        final(blocks).len() == (if a.block < old(blocks).len() {
            old(blocks).len() as int
        } else {
            old(blocks).len() + 1
        }),
        forall|j: int|
            0 <= j < old(blocks).len() && j != a.block ==> #[trigger] final(blocks)[j] == old(
                blocks,
            )[j],
        a.buffer == fresh.buffer,
        a.offset == 0,
        a.size == free_list::at_least_one(size),
        a.mapped == fresh.mapped,
        a.pool == pool,
        final(blocks)[a.block as int] matches Some(b) && {
            &&& b.buffer == fresh.buffer
            &&& b.memory == fresh.memory
            &&& b.memory_size == fresh.memory_size
            &&& b.mapped == fresh.mapped
            &&& b.empty_ticks == 0
            &&& b.free_list.capacity == fresh.buffer_size
            &&& b.free_list.used == a.size
            &&& forall|x: int| #[trigger]
                free_list::covers(b.free_list.free@, x) <==> a.size <= x < fresh.buffer_size
        },
        is_live(final(blocks)@, a),
{
    let need: u64 = if size == 0 {
        1
    } else {
        size
    };
    let mut list: FreeList = FreeList::new(fresh.buffer_size);
    let ghost before = list;
    let found: Option<u64> = list.allocate(need, align);
    proof {
        assert(before.free@[0] == free_list::FreeRange { offset: 0, size: fresh.buffer_size });
        assert(free_list::align_up(0, align as int) == 0) by {
            if align > 0 {
                vstd::arithmetic::div_mod::lemma_small_mod(0, align as nat);
            }
        }
        assert(free_list::fits(before.free@[0], need as int, align as int));
        assert forall|x: int| #[trigger] free_list::covers(before.free@, x) <==> 0 <= x
            < fresh.buffer_size by {
            if 0 <= x < fresh.buffer_size {
                assert(before.free@[0].has(x));
            }
        }
    }
    let offset: u64 = found.unwrap();
    let block: Block = Block {
        buffer: fresh.buffer,
        memory: fresh.memory,
        memory_size: fresh.memory_size,
        mapped: fresh.mapped,
        free_list: list,
        empty_ticks: 0,
    };
    let ghost orig = blocks@;
    let mut index: usize = 0;
    while index < blocks.len() && blocks[index].is_some()
        invariant
            blocks@ == orig,
            index <= blocks.len(),
            forall|j: int| 0 <= j < index ==> (#[trigger] orig[j]) is Some,
        decreases blocks.len() - index,
    {
        index = index + 1;
    }
    let a: Allocation = make_allocation(&block, index, offset, need, pool);
    if index < blocks.len() {
        blocks.set(index, Some(block));
    } else {
        blocks.push(Some(block));
    }
    proof {
        assert forall|j: int| 0 <= j < blocks.len() implies (#[trigger] blocks@[j] matches Some(
            b,
        ) ==> b.wf()) by {
            if j != index {
                assert(blocks@[j] == orig[j]);
            }
        }
    }
    a
}

pub struct GpuAllocator {
    pub memory_props: MemoryProps,
    /// Preferred memory type indices for the device pool, in order.
    pub device_type_prefs: Vec<u32>,
    /// Preferred memory type indices for the staging pool, in order.
    pub staging_type_prefs: Vec<u32>,
    /// Whether the device pool is host-visible.
    pub unified: bool,
    /// Slot vectors allowing reuse of destroyed block indices.
    pub device_blocks: Vec<Option<Block>>,
    pub staging_blocks: Vec<Option<Block>>,
}

impl GpuAllocator {
    pub open spec fn wf(&self) -> bool {
        &&& self.memory_props.wf()
        &&& memory::all_types(&self.memory_props, self.device_type_prefs@)
        &&& memory::all_types(&self.memory_props, self.staging_type_prefs@)
        &&& pool_wf(self.device_blocks@)
        &&& pool_wf(self.staging_blocks@)
    }

    pub open spec fn blocks_of(&self, pool: Pool) -> Slots {
        match pool {
            Pool::Device => self.device_blocks@,
            Pool::Staging => self.staging_blocks@,
        }
    }

    pub open spec fn prefs_of(&self, pool: Pool) -> Seq<u32> {
        match pool {
            Pool::Device => self.device_type_prefs@,
            Pool::Staging => self.staging_type_prefs@,
        }
    }

    /// Nothing but the blocks of `pool` differs from `other`.
    pub open spec fn same_but(&self, other: &GpuAllocator, pool: Pool) -> bool {
        &&& self.memory_props == other.memory_props
        &&& self.device_type_prefs == other.device_type_prefs
        &&& self.staging_type_prefs == other.staging_type_prefs
        &&& self.unified == other.unified
        &&& pool == Pool::Device ==> self.staging_blocks == other.staging_blocks
        &&& pool == Pool::Staging ==> self.device_blocks == other.device_blocks
    }

    /// Captures memory properties; holds no block yet.
    pub fn new(memory_props: MemoryProps) -> (a: Self)
        requires
            memory_props.wf(),
        ensures
            a.wf(),
            a.memory_props == memory_props,
            a.device_type_prefs@ == memory::append_missing(
                memory_props.on_large_heaps(
                    memory_props.types_with_spec(memory::UNIFIED, memory_props.types.len() as int),
                ),
                memory_props.types_with_spec(
                    memory::MEMORY_DEVICE_LOCAL,
                    memory_props.types.len() as int,
                ),
            ),
            a.staging_type_prefs@ == memory_props.types_with_spec(
                HOST_COHERENT,
                memory_props.types.len() as int,
            ),
            a.unified == (a.device_type_prefs.len() > 0 && memory::has_flags(
                memory_props.flags_of(a.device_type_prefs[0] as int),
                MEMORY_HOST_VISIBLE,
            )),
            a.device_blocks.len() == 0,
            a.staging_blocks.len() == 0,
    {
        let device_type_prefs: Vec<u32> = memory::device_type_prefs(&memory_props);
        let staging_type_prefs: Vec<u32> = memory::types_with(&memory_props, HOST_COHERENT);
        let unified: bool = device_type_prefs.len() > 0 && (
        memory_props.types[device_type_prefs[0] as usize].flags & MEMORY_HOST_VISIBLE)
            == MEMORY_HOST_VISIBLE;
        GpuAllocator {
            memory_props,
            device_type_prefs,
            staging_type_prefs,
            unified,
            device_blocks: Vec::new(),
            staging_blocks: Vec::new(),
        }
    }

    /// True when the device pool's memory type is host-visible: mesh data can be
    /// written through `Allocation::mapped`, no staging copy needed.
    pub fn unified_memory(&self) -> (unified: bool)
        ensures
            unified == self.unified,
    {
        self.unified
    }

    /// Suballocates from the device pool.
    pub fn alloc_device(&mut self, size: u64, align: u64) -> (step: PoolStep)
        requires
            old(self).wf(),
        ensures
            final(self).wf(),
            final(self).same_but(old(self), Pool::Device),
            served(
                old(self).device_blocks@,
                final(self).device_blocks@,
                step,
                Pool::Device,
                free_list::at_least_one(size),
                align as int,
            ),
    {
        alloc_from_pool(&mut self.device_blocks, Pool::Device, size, align)
    }

    /// Suballocates from the staging pool.
    pub fn alloc_staging(&mut self, size: u64, align: u64) -> (step: PoolStep)
        requires
            old(self).wf(),
        ensures
            final(self).wf(),
            final(self).same_but(old(self), Pool::Staging),
            served(
                old(self).staging_blocks@,
                final(self).staging_blocks@,
                step,
                Pool::Staging,
                free_list::at_least_one(size),
                align as int,
            ),
    {
        alloc_from_pool(&mut self.staging_blocks, Pool::Staging, size, align)
    }

    /// The memory type for a new block of `pool`, and whether to map it. The
    /// budget counts only as advice: `None` when no type is compatible at all.
    pub fn block_memory(
        &self,
        pool: Pool,
        memory_type_bits: u32,
        budget: Option<BudgetSnapshot>,
        alloc_size: u64,
    ) -> (picked: Option<(u32, bool)>)
        requires
            self.wf(),
        ensures
            ({
                let candidates = self.memory_props.candidates(
                    self.prefs_of(pool),
                    memory_type_bits,
                );
                match picked {
                    None => candidates.len() == 0,
                    Some((i, host_visible)) => {
                        &&& i < self.memory_props.types.len()
                        &&& memory::bit(memory_type_bits, i)
                        &&& host_visible == memory::has_flags(
                            self.memory_props.flags_of(i as int),
                            MEMORY_HOST_VISIBLE,
                        )
                        &&& candidates.contains(i)
                        &&& if self.memory_props.within_budget(budget, alloc_size, i) {
                            exists|k: int|
                                {
                                    &&& 0 <= k < candidates.len()
                                    &&& #[trigger] candidates[k] == i
                                    &&& forall|j: int|
                                        0 <= j < k ==> !self.memory_props.within_budget(
                                            budget,
                                            alloc_size,
                                            #[trigger] candidates[j],
                                        )
                                }
                        } else {
                            &&& i == candidates[0]
                            &&& forall|j: int|
                                0 <= j < candidates.len() ==> !self.memory_props.within_budget(
                                    budget,
                                    alloc_size,
                                    #[trigger] candidates[j],
                                )
                        }
                    },
                }
            }),
    {
        let prefs: &Vec<u32> = match pool {
            Pool::Device => &self.device_type_prefs,
            Pool::Staging => &self.staging_type_prefs,
        };
        let picked: Option<u32> = memory::pick_memory_type(
            &self.memory_props,
            prefs.as_slice(),
            memory_type_bits,
            budget,
            alloc_size,
        );
        match picked {
            None => None,
            Some(i) => {
                let host_visible: bool = (self.memory_props.types[i as usize].flags
                    & MEMORY_HOST_VISIBLE) == MEMORY_HOST_VISIBLE;
                Some((i, host_visible))
            },
        }
    }

    /// Puts a new block into `pool` and serves the request that asked for it.
    pub fn install(&mut self, pool: Pool, fresh: FreshBlock, size: u64, align: u64) -> (a:
        Allocation)
        requires
            old(self).wf(),
            fresh.wf(),
            free_list::at_least_one(size) <= fresh.buffer_size,
        ensures
            final(self).wf(),
            final(self).same_but(old(self), pool),
            install_slot(old(self).blocks_of(pool), a.block as int),
            forall|j: int|
                0 <= j < old(self).blocks_of(pool).len() && j != a.block
                    ==> #[trigger] final(self).blocks_of(pool)[j] == old(self).blocks_of(pool)[j],
            final(self).blocks_of(pool).len() == (if a.block < old(self).blocks_of(pool).len() {
                old(self).blocks_of(pool).len()
            } else {
                old(self).blocks_of(pool).len() + 1
            }),
            a.buffer == fresh.buffer,
            a.offset == 0,
            a.size == free_list::at_least_one(size),
            a.mapped == fresh.mapped,
            a.pool == pool,
            is_live(final(self).blocks_of(pool), a),
            final(self).blocks_of(pool)[a.block as int] matches Some(b) && {
                &&& b.memory == fresh.memory
                &&& b.memory_size == fresh.memory_size
                &&& b.mapped == fresh.mapped
                &&& b.empty_ticks == 0
                &&& b.free_list.capacity == fresh.buffer_size
                &&& b.free_list.used == a.size
                &&& forall|x: int| #[trigger]
                    free_list::covers(b.free_list.free@, x) <==> a.size <= x < fresh.buffer_size
            },
    {
        match pool {
            Pool::Device => install_block(&mut self.device_blocks, fresh, pool, size, align),
            Pool::Staging => install_block(&mut self.staging_blocks, fresh, pool, size, align),
        }
    }

    /// Returns the range to its block's free list.
    pub fn free(&mut self, allocation: Allocation)
        requires
            old(self).wf(),
            is_live(old(self).blocks_of(allocation.pool), allocation),
        ensures
            final(self).wf(),
            final(self).same_but(old(self), allocation.pool),
            freed_in(
                old(self).blocks_of(allocation.pool),
                final(self).blocks_of(allocation.pool),
                allocation,
            ),
    {
        match allocation.pool {
            Pool::Device => free_in_pool(&mut self.device_blocks, allocation),
            Pool::Staging => free_in_pool(&mut self.staging_blocks, allocation),
        }
    }

    /// Takes completely free staging blocks beyond the first out of the pool;
    /// the caller destroys them.
    pub fn shrink_staging(&mut self) -> (gone: Vec<Released>)
        requires
            old(self).wf(),
        ensures
            final(self).wf(),
            final(self).same_but(old(self), Pool::Staging),
            taken_out(
                old(self).staging_blocks@,
                final(self).staging_blocks@,
                gone@,
                |i: int| beyond_first_empty(old(self).staging_blocks@, i),
            ),
    {
        let ghost pick = |i: int| beyond_first_empty(old(self).staging_blocks@, i);
        let list: Vec<usize> = empty_blocks_beyond_first(self.staging_blocks.as_slice());
        take_blocks(&mut self.staging_blocks, &list, Ghost(pick))
    }

    /// Takes settled-empty device blocks out of the pool, bounding its
    /// high-water mark over a long session; the caller destroys them. Call once
    /// per frame.
    pub fn shrink_device(&mut self) -> (gone: Vec<Released>)
        requires
            old(self).wf(),
        ensures
            final(self).wf(),
            final(self).same_but(old(self), Pool::Device),
            ({
                let ticked_blocks = Seq::new(
                    old(self).device_blocks@.len(),
                    |i: int| ticked(old(self).device_blocks@[i]),
                );
                taken_out(
                    ticked_blocks,
                    final(self).device_blocks@,
                    gone@,
                    |i: int| settled(ticked_blocks, DEVICE_SHRINK_SETTLE_TICKS, i),
                )
            }),
    {
        let ghost ticked_blocks = Seq::new(
            self.device_blocks@.len(),
            |i: int| ticked(self.device_blocks@[i]),
        );
        let ghost pick = |i: int| settled(ticked_blocks, DEVICE_SHRINK_SETTLE_TICKS, i);
        let list: Vec<usize> = settled_empty_blocks(
            &mut self.device_blocks,
            DEVICE_SHRINK_SETTLE_TICKS,
        );
        proof {
            assert(self.device_blocks@ =~= ticked_blocks);
        }
        take_blocks(&mut self.device_blocks, &list, Ghost(pick))
    }

    /// Empties both pools; the caller destroys the blocks (the GPU must be idle).
    pub fn destroy(&mut self) -> (gone: Vec<Released>)
        requires
            old(self).wf(),
        ensures
            final(self).wf(),
            final(self).device_blocks.len() == 0,
            final(self).staging_blocks.len() == 0,
            final(self).memory_props == old(self).memory_props,
            final(self).device_type_prefs == old(self).device_type_prefs,
            final(self).staging_type_prefs == old(self).staging_type_prefs,
            final(self).unified == old(self).unified,
            gone@ == all_released(old(self).device_blocks@) + all_released(
                old(self).staging_blocks@,
            ),
    {
        let mut gone: Vec<Released> = Vec::new();
        collect_released(&self.device_blocks, &mut gone);
        collect_released(&self.staging_blocks, &mut gone);
        self.device_blocks = Vec::new();
        self.staging_blocks = Vec::new();
        gone
    }

    pub fn stats(&self) -> (stats: AllocatorStats)
        requires
            self.wf(),
            reserved_bytes(self.device_blocks@) <= u64::MAX,
            reserved_bytes(self.staging_blocks@) <= u64::MAX,
        ensures
            stats.device_blocks == live_blocks(self.device_blocks@),
            stats.device_reserved == reserved_bytes(self.device_blocks@),
            stats.device_used == used_bytes(self.device_blocks@),
            stats.staging_blocks == live_blocks(self.staging_blocks@),
            stats.staging_reserved == reserved_bytes(self.staging_blocks@),
            stats.staging_used == used_bytes(self.staging_blocks@),
    {
        let (device_blocks, device_reserved, device_used): (usize, u64, u64) = pool_stats(
            &self.device_blocks,
        );
        let (staging_blocks, staging_reserved, staging_used): (usize, u64, u64) = pool_stats(
            &self.staging_blocks,
        );
        AllocatorStats {
            device_blocks,
            device_reserved,
            device_used,
            staging_blocks,
            staging_reserved,
            staging_used,
        }
    }
}

/// `new` is `old` with the bytes of `a` free again.
pub open spec fn freed_in(old: Slots, new: Slots, a: Allocation) -> bool {
    let i = a.block as int;
    &&& new.len() == old.len()
    &&& forall|j: int| 0 <= j < old.len() && j != i ==> #[trigger] new[j] == old[j]
    &&& new[i] matches Some(after) && {
        &&& after == Block { free_list: after.free_list, ..old[i]->Some_0 }
        &&& free_list::given_back(
            (old[i]->Some_0).free_list,
            after.free_list,
            a.offset as int,
            free_list::at_least_one(a.size),
        )
    }
}

/// `new` is `old` without the blocks that `pick` selects, and `gone` is what
/// they were, in slot order.
pub open spec fn taken_out(
    old: Slots,
    new: Slots,
    gone: Seq<Released>,
    pick: spec_fn(int) -> bool,
) -> bool {
    &&& new.len() == old.len()
    &&& forall|i: int|
        0 <= i < old.len() ==> #[trigger] new[i] == (if pick(i) {
            None
        } else {
            old[i]
        })
    &&& exists|list: Seq<usize>|
        {
            &&& #[trigger] lists_exactly(list, old.len() as int, pick)
            &&& gone.len() == list.len()
            &&& forall|k: int|
                0 <= k < list.len() ==> #[trigger] gone[k] == released(
                    old[list[k] as int]->Some_0,
                )
        }
}

fn free_in_pool(blocks: &mut Vec<Option<Block>>, allocation: Allocation)
    requires
        pool_wf(old(blocks)@),
        is_live(old(blocks)@, allocation),
    ensures
        pool_wf(final(blocks)@),
        freed_in(old(blocks)@, final(blocks)@, allocation),
{
    let ghost orig = blocks@;
    match &mut blocks[allocation.block] {
        Some(block) => {
            block.free_list.free(allocation.offset, allocation.size);
        },
        None => {},
    }
    proof {
        assert forall|j: int| 0 <= j < blocks.len() implies (#[trigger] blocks@[j] matches Some(
            b,
        ) ==> b.wf()) by {
            if j != allocation.block {
                assert(blocks@[j] == orig[j]);
            }
        }
    }
}

fn take_blocks(blocks: &mut Vec<Option<Block>>, list: &Vec<usize>, Ghost(pick): Ghost<
    spec_fn(int) -> bool,
>) -> (gone: Vec<Released>)
    requires
        pool_wf(old(blocks)@),
        lists_exactly(list@, old(blocks).len() as int, pick),
        forall|i: int| #![trigger pick(i)] 0 <= i < old(blocks).len() && pick(i) ==> old(blocks)[i] is Some,
    ensures
        pool_wf(final(blocks)@),
        taken_out(old(blocks)@, final(blocks)@, gone@, pick),
{
    let mut gone: Vec<Released> = Vec::new();
    let ghost orig = blocks@;
    let mut k: usize = 0;
    while k < list.len()
        invariant
            orig == old(blocks)@,
            k <= list.len(),
            blocks.len() == orig.len(),
            lists_exactly(list@, orig.len() as int, pick),
            forall|i: int| #![trigger pick(i)] 0 <= i < orig.len() && pick(i) ==> orig[i] is Some,
            forall|i: int|
                0 <= i < orig.len() ==> #[trigger] blocks[i] == (if list@.take(k as int).contains(
                    i as usize,
                ) {
                    None
                } else {
                    orig[i]
                }),
            gone.len() == k,
            forall|j: int|
                0 <= j < k ==> #[trigger] gone[j] == released(orig[list[j] as int]->Some_0),
        decreases list.len() - k,
    {
        let index: usize = list[k];
        proof {
            assert(pick(index as int));
            if list@.take(k as int).contains(index) {
                let j = choose|j: int|
                    0 <= j < list@.take(k as int).len() && list@.take(k as int)[j] == index;
                assert(list@[j] < list@[k as int]);
            }
        }
        let slot: Option<Block> = blocks[index].take();
        let block: Block = slot.unwrap();
        gone.push(
            Released { buffer: block.buffer, memory: block.memory, memory_size: block.memory_size },
        );
        proof {
            assert forall|i: int| 0 <= i < orig.len() implies #[trigger] blocks[i] == (
            if list@.take(k + 1).contains(i as usize) {
                None
            } else {
                orig[i]
            }) by {
                let t = list@.take(k as int);
                let u = list@.take(k + 1);
                assert(u =~= t.push(index));
                if i == index {
                    assert(u[k as int] == index);
                } else {
                    if t.contains(i as usize) {
                        let j = choose|j: int| 0 <= j < t.len() && t[j] == i as usize;
                        assert(u[j] == i as usize);
                    }
                    if u.contains(i as usize) {
                        let j = choose|j: int| 0 <= j < u.len() && u[j] == i as usize;
                        assert(t[j] == i as usize);
                    }
                }
            }
        }
        k = k + 1;
    }
    proof {
        assert(list@.take(k as int) =~= list@);
        assert forall|i: int| 0 <= i < orig.len() implies #[trigger] blocks[i] == (if pick(i) {
            None
        } else {
            orig[i]
        }) by {
            if list@.contains(i as usize) {
                let j = choose|j: int| 0 <= j < list.len() && list[j] == i as usize;
                assert(pick(list[j] as int));
            }
        }
        assert(lists_exactly(list@, orig.len() as int, pick));
    }
    gone
}

fn collect_released(blocks: &Vec<Option<Block>>, gone: &mut Vec<Released>)
    ensures
        final(gone)@ == old(gone)@ + all_released(blocks@),
{
    let ghost orig = gone@;
    let mut k: usize = 0;
    proof {
        assert(blocks@.take(0) =~= Seq::empty());
        assert(orig + all_released(blocks@.take(0)) =~= orig);
    }
    while k < blocks.len()
        invariant
            k <= blocks.len(),
            gone@ == orig + all_released(blocks@.take(k as int)),
        decreases blocks.len() - k,
    {
        proof {
            assert(blocks@.take(k + 1).drop_last() =~= blocks@.take(k as int));
        }
        match &blocks[k] {
            Some(block) => {
                gone.push(
                    Released {
                        buffer: block.buffer,
                        memory: block.memory,
                        memory_size: block.memory_size,
                    },
                );
            },
            None => {},
        }
        proof {
            assert(gone@ =~= orig + all_released(blocks@.take(k + 1)));
        }
        k = k + 1;
    }
    assert(blocks@.take(k as int) =~= blocks@);
}

proof fn lemma_pool_sums(blocks: Slots, k: int)
    requires
        pool_wf(blocks),
        0 <= k <= blocks.len(),
    ensures
        0 <= live_blocks(blocks.take(k)) <= k,
        0 <= used_bytes(blocks.take(k)) <= reserved_bytes(blocks.take(k)),
        reserved_bytes(blocks.take(k)) <= reserved_bytes(blocks),
    decreases blocks.len() - k, k,
{
    lemma_pool_prefix(blocks, k);
    lemma_pool_grows(blocks, k);
}

proof fn lemma_pool_prefix(blocks: Slots, k: int)
    requires
        pool_wf(blocks),
        0 <= k <= blocks.len(),
    ensures
        0 <= live_blocks(blocks.take(k)) <= k,
        0 <= used_bytes(blocks.take(k)) <= reserved_bytes(blocks.take(k)),
    decreases k,
{
    if k > 0 {
        lemma_pool_prefix(blocks, k - 1);
        assert(blocks.take(k).drop_last() =~= blocks.take(k - 1));
        if let Some(b) = blocks[k - 1] {
            assert(b.wf());
            free_list::law_bytes_are_conserved(b.free_list);
            free_list::lemma_total_is_not_negative(b.free_list.free@);
        }
    }
}

proof fn lemma_pool_grows(blocks: Slots, k: int)
    requires
        0 <= k <= blocks.len(),
    ensures
        reserved_bytes(blocks.take(k)) <= reserved_bytes(blocks),
    decreases blocks.len() - k,
{
    if k == blocks.len() {
        assert(blocks.take(k) =~= blocks);
    } else {
        lemma_pool_grows(blocks, k + 1);
        assert(blocks.take(k + 1).drop_last() =~= blocks.take(k));
    }
}

fn pool_stats(blocks: &Vec<Option<Block>>) -> (stats: (usize, u64, u64))
    requires
        pool_wf(blocks@),
        reserved_bytes(blocks@) <= u64::MAX,
    ensures
        stats.0 == live_blocks(blocks@),
        stats.1 == reserved_bytes(blocks@),
        stats.2 == used_bytes(blocks@),
{
    let mut count: usize = 0;
    let mut reserved: u64 = 0;
    let mut used: u64 = 0;
    let mut k: usize = 0;
    proof {
        assert(blocks@.take(0) =~= Seq::empty());
    }
    while k < blocks.len()
        invariant
            pool_wf(blocks@),
            reserved_bytes(blocks@) <= u64::MAX,
            k <= blocks.len(),
            count == live_blocks(blocks@.take(k as int)),
            reserved == reserved_bytes(blocks@.take(k as int)),
            used == used_bytes(blocks@.take(k as int)),
        decreases blocks.len() - k,
    {
        proof {
            lemma_pool_sums(blocks@, k + 1);
            lemma_pool_sums(blocks@, k as int);
            assert(blocks@.take(k + 1).drop_last() =~= blocks@.take(k as int));
        }
        match &blocks[k] {
            Some(block) => {
                count = count + 1;
                reserved = reserved + block.memory_size;
                used = used + block.free_list.used();
            },
            None => {},
        }
        k = k + 1;
    }
    assert(blocks@.take(k as int) =~= blocks@);
    (count, reserved, used)
}

/// A block that an outstanding allocation names is never empty, so neither pool
/// releases it.
pub proof fn law_live_block_is_never_released(blocks: Slots, a: Allocation)
    requires
        pool_wf(blocks),
        is_live(blocks, a),
    ensures
        !is_empty_block(blocks, a.block as int),
        !beyond_first_empty(blocks, a.block as int),
        forall|settle: u32| !#[trigger] settled(blocks, settle, a.block as int),
{
    let list = (blocks[a.block as int]->Some_0).free_list;
    if list.used == 0 {
        free_list::law_empty_is_one_whole_range(list);
        assert(list.free@[0].has(a.offset as int));
        assert(free_list::covers(list.free@, a.offset as int));
    }
}

/// An allocation stays live through every other request of its pool.
pub proof fn law_allocation_survives_requests(
    old: Slots,
    new: Slots,
    a: Allocation,
    step: PoolStep,
    pool: Pool,
    size: int,
    align: int,
)
    requires
        pool_wf(old),
        is_live(old, a),
        size > 0,
        served(old, new, step, pool, size, align),
    ensures
        is_live(new, a),
        step matches PoolStep::Ready(b) ==> a.block != b.block || a.offset + free_list::at_least_one(
            a.size,
        ) <= b.offset || b.offset + size <= a.offset,
{
    if let PoolStep::Ready(b) = step {
        if a.block == b.block {
            let before = (old[b.block as int]->Some_0).free_list;
            let after = (new[b.block as int]->Some_0).free_list;
            let n = free_list::at_least_one(a.size);
            let i = choose|i: int|
                {
                    &&& 0 <= i < before.free@.len()
                    &&& free_list::fits(#[trigger] before.free@[i], size, align)
                    &&& b.offset == free_list::align_up(before.free@[i].offset as int, align)
                    &&& forall|j: int|
                        0 <= j < i ==> !free_list::fits(#[trigger] before.free@[j], size, align)
                };
            free_list::lemma_align_up(
                before.free@[i].offset as int,
                if align <= 0 {
                    1
                } else {
                    align
                },
            );
            assert forall|x: int| b.offset <= x < b.offset + size implies #[trigger]
            free_list::covers(before.free@, x) by {
                assert(before.free@[i].has(x));
            }
            free_list::law_live_ranges_never_overlap(
                before,
                after,
                a.offset as int,
                n,
                b.offset as int,
                size,
            );
        } else {
            assert(new[a.block as int] == old[a.block as int]);
        }
    }
}

/// One settling tick at a time: a block with `settle` ticks on its counter has
/// been empty for as many calls in a row, because any byte in use resets it.
pub proof fn law_use_resets_settling(block: Block)
    ensures
        block.free_list.used != 0 ==> (ticked(Some(block))->Some_0).empty_ticks == 0,
        block.free_list.used == 0 && block.empty_ticks < u32::MAX ==> (ticked(
            Some(block),
        )->Some_0).empty_ticks == block.empty_ticks + 1,
{
}

/// A block that is put into a pool counts as one block more, with the bytes of its memory
/// reserved and those that it lends in use; one that is taken out no longer counts.
pub proof fn law_stats_count_every_block(blocks: Slots, i: int, b: Block)
    requires
        0 <= i < blocks.len(),
        blocks[i] is None,
    ensures
        ({
            let more = blocks.update(i, Some(b));
            &&& live_blocks(more) == live_blocks(blocks) + 1
            &&& reserved_bytes(more) == reserved_bytes(blocks) + b.memory_size
            &&& used_bytes(more) == used_bytes(blocks) + b.free_list.used
        }),
        live_blocks(blocks.push(Some(b))) == live_blocks(blocks) + 1,
        reserved_bytes(blocks.push(Some(b))) == reserved_bytes(blocks) + b.memory_size,
        used_bytes(blocks.push(Some(b))) == used_bytes(blocks) + b.free_list.used,
        live_blocks(Seq::empty()) == 0,
        reserved_bytes(Seq::empty()) == 0,
        used_bytes(Seq::empty()) == 0,
    decreases blocks.len(),
{
    assert(blocks.push(Some(b)).drop_last() =~= blocks);
    let more = blocks.update(i, Some(b));
    if i < blocks.len() - 1 {
        law_stats_count_every_block(blocks.drop_last(), i, b);
        assert(more.drop_last() =~= blocks.drop_last().update(i, Some(b)));
    } else {
        assert(more.drop_last() =~= blocks.drop_last());
    }
}

/// When everything goes, every block's buffer and memory are handed back, each once.
pub proof fn law_every_block_is_released(blocks: Slots)
    ensures
        all_released(blocks).len() == live_blocks(blocks),
        forall|i: int|
            0 <= i < blocks.len() && (#[trigger] blocks[i]) is Some ==> exists|k: int|
                0 <= k < all_released(blocks).len() && (#[trigger] all_released(blocks)[k]).buffer
                    == (blocks[i]->Some_0).buffer && all_released(blocks)[k].memory == (
                blocks[i]->Some_0).memory && all_released(blocks)[k].memory_size == (
                blocks[i]->Some_0).memory_size,
    decreases blocks.len(),
{
    let all = all_released(blocks);
    if blocks.len() > 0 {
        let less = blocks.drop_last();
        let front = all_released(less);
        law_every_block_is_released(less);
        assert forall|i: int| 0 <= i < blocks.len() && (#[trigger] blocks[i]) is Some implies exists|
            k: int,
        |
            0 <= k < all.len() && (#[trigger] all[k]).buffer == (blocks[i]->Some_0).buffer
                && all[k].memory == (blocks[i]->Some_0).memory && all[k].memory_size == (
            blocks[i]->Some_0).memory_size by {
            if i < less.len() {
                assert(less[i] is Some);
                let k = choose|k: int|
                    0 <= k < front.len() && (#[trigger] front[k]).buffer == (
                    less[i]->Some_0).buffer && front[k].memory == (less[i]->Some_0).memory
                        && front[k].memory_size == (less[i]->Some_0).memory_size;
                assert(all[k] == front[k]);
            } else {
                assert(all[front.len() as int].buffer == (blocks[i]->Some_0).buffer);
            }
        }
    }
}

/// Blocks that are taken out of a pool leave empty slots and hand back their own buffers
/// and memory; all others stay.
pub proof fn law_taken_blocks_hand_back_their_own(
    old: Slots,
    new: Slots,
    gone: Seq<Released>,
    pick: spec_fn(int) -> bool,
    i: int,
)
    requires
        taken_out(old, new, gone, pick),
        old.len() <= usize::MAX,
        0 <= i < old.len(),
    ensures
        new.len() == old.len(),
        !pick(i) ==> new[i] == old[i],
        pick(i) ==> new[i] is None && exists|k: int|
            0 <= k < gone.len() && (#[trigger] gone[k]).buffer == (old[i]->Some_0).buffer
                && gone[k].memory == (old[i]->Some_0).memory && gone[k].memory_size == (
            old[i]->Some_0).memory_size,
{
    assert(new[i] == if pick(i) {
        None
    } else {
        old[i]
    });
    let list = choose|list: Seq<usize>|
        {
            &&& #[trigger] lists_exactly(list, old.len() as int, pick)
            &&& gone.len() == list.len()
            &&& forall|k: int|
                0 <= k < list.len() ==> #[trigger] gone[k] == released(
                    old[list[k] as int]->Some_0,
                )
        };
    if pick(i) {
        assert(list.contains(i as usize));
        let k = choose|k: int| 0 <= k < list.len() && list[k] == i as usize;
        assert(gone[k].buffer == (old[i]->Some_0).buffer);
    }
}

/// A freed allocation's bytes are free again in its own block, the block keeps its memory,
/// and every other block stays as it is.
pub proof fn law_freed_bytes_are_free_again(old: Slots, new: Slots, a: Allocation, x: int)
    requires
        a.block < old.len(),
        old[a.block as int] is Some,
        freed_in(old, new, a),
    ensures
        new.len() == old.len(),
        forall|j: int| 0 <= j < old.len() && j != a.block ==> #[trigger] new[j] == old[j],
        ({
            let b = old[a.block as int]->Some_0;
            let c = new[a.block as int]->Some_0;
            &&& new[a.block as int] is Some
            &&& c.buffer == b.buffer && c.memory == b.memory && c.memory_size == b.memory_size
                && c.mapped == b.mapped
            &&& a.offset <= x < a.offset + a.size ==> free_list::covers(c.free_list.free@, x)
            &&& free_list::covers(b.free_list.free@, x) ==> free_list::covers(c.free_list.free@, x)
            &&& a.size > 0 ==> c.free_list.used == b.free_list.used - a.size
            &&& a.size > 0 && !(a.offset <= x < a.offset + a.size) && !free_list::covers(
                b.free_list.free@,
                x,
            ) ==> !free_list::covers(c.free_list.free@, x)
        }),
{
}

/// A new block takes the first empty slot, or the end where there is none: there is one
/// such slot.
pub proof fn law_a_new_block_takes_the_first_empty_slot(blocks: Slots, i: int, j: int)
    requires
        install_slot(blocks, i),
        install_slot(blocks, j),
    ensures
        i == j,
        i == blocks.len() || blocks[i] is None,
        forall|k: int| 0 <= k < i ==> (#[trigger] blocks[k]) is Some,
{
    if i < j {
        assert(blocks[i] is Some);
    }
    if j < i {
        assert(blocks[j] is Some);
    }
}

/// Each pool has blocks and preferences of its own.
pub proof fn law_pools_are_kept_apart(alloc: &GpuAllocator, other: &GpuAllocator, pool: Pool)
    requires
        alloc.same_but(other, pool),
    ensures
        alloc.blocks_of(Pool::Device) == alloc.device_blocks@,
        alloc.blocks_of(Pool::Staging) == alloc.staging_blocks@,
        alloc.prefs_of(Pool::Device) == alloc.device_type_prefs@,
        alloc.prefs_of(Pool::Staging) == alloc.staging_type_prefs@,
        pool is Device ==> alloc.staging_blocks@ == other.staging_blocks@,
        pool is Staging ==> alloc.device_blocks@ == other.device_blocks@,
        alloc.device_type_prefs@ == other.device_type_prefs@,
        alloc.staging_type_prefs@ == other.staging_type_prefs@,
        alloc.memory_props == other.memory_props,
{
}

} // verus!
