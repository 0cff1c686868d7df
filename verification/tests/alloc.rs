use voxel_engine::allocator::{
    empty_blocks_beyond_first, settled_empty_blocks, Block, FreshBlock, GpuAllocator, Pool,
    PoolStep,
};
use voxel_engine::block_steps::{
    after_block_step, BlockStep, StepOutcome, ERROR_OUT_OF_DEVICE_MEMORY,
};
use voxel_engine::free_list::{FreeList, FreeRange};
use voxel_engine::memory::{
    device_type_prefs, pick_memory_type, try_find_memory_type, BudgetSnapshot, MemoryProps,
    MemoryType, HOST_COHERENT, MEMORY_DEVICE_LOCAL, UNIFIED,
};

/// Two memory types on two heaps: type 0 (preferred, heap 0) and a
/// host-visible type 1 (fallback, heap 1). Both compatible with any buffer.
fn two_heap_props() -> MemoryProps {
    MemoryProps {
        types: vec![
            MemoryType { flags: MEMORY_DEVICE_LOCAL, heap: 0 },
            MemoryType { flags: HOST_COHERENT, heap: 1 },
        ],
        heaps: vec![0, 0],
    }
}

#[test]
fn budget_skips_full_heap() {
    let props = two_heap_props();
    let prefs = [0u32]; // prefer type 0 (heap 0)
    let bits = 0b11; // both types compatible

    // No budget info: always the preferred type.
    assert_eq!(pick_memory_type(&props, &prefs, bits, None, 64), Some(0));

    // Heap 0 has headroom: preferred type wins.
    let ok = BudgetSnapshot { heap_budget: [1000; 16], heap_usage: [0; 16] };
    assert_eq!(pick_memory_type(&props, &prefs, bits, Some(ok), 64), Some(0));

    // Heap 0 over budget, heap 1 has room: degrade to the host-visible type.
    let mut tight = BudgetSnapshot { heap_budget: [1000; 16], heap_usage: [0; 16] };
    tight.heap_usage[0] = 990; // 990 + 64 > 1000
    assert_eq!(pick_memory_type(&props, &prefs, bits, Some(tight), 64), Some(1));

    // Every heap over budget: fall back to the most-preferred type anyway
    // (budget is advisory; the OOM path is the real backstop).
    let full = BudgetSnapshot { heap_budget: [10; 16], heap_usage: [10; 16] };
    assert_eq!(pick_memory_type(&props, &prefs, bits, Some(full), 64), Some(0));
}

#[test]
fn no_compatible_type_is_none() {
    let props = two_heap_props();
    assert_eq!(pick_memory_type(&props, &[0], 0, None, 64), None);
    assert_eq!(try_find_memory_type(&props, 0b11, UNIFIED), None);
    assert_eq!(try_find_memory_type(&props, 0b11, HOST_COHERENT), Some(1));
    assert_eq!(try_find_memory_type(&props, 0b01, HOST_COHERENT), None);
}

#[test]
fn unified_types_come_first_on_large_heaps_only() {
    let types = || {
        vec![
            MemoryType { flags: MEMORY_DEVICE_LOCAL, heap: 0 },
            MemoryType { flags: UNIFIED, heap: 1 },
        ]
    };
    let large = MemoryProps { types: types(), heaps: vec![8 << 30, 8 << 30] };
    assert_eq!(device_type_prefs(&large), vec![1, 0]);
    let small = MemoryProps { types: types(), heaps: vec![8 << 30, 256 << 20] };
    assert_eq!(device_type_prefs(&small), vec![0, 1]);
}

/// A GPU-less block (null handles) for pure bookkeeping tests.
fn dummy_block(capacity: u64, used: u64) -> Option<Block> {
    let mut free_list = FreeList::new(capacity);
    if used > 0 {
        free_list.allocate(used, 1).expect("fits");
    }
    Some(Block {
        buffer: 0,
        memory: 0,
        memory_size: capacity,
        mapped: None,
        free_list,
        empty_ticks: 0,
    })
}

#[test]
fn free_list_empty_detection() {
    let mut fl = FreeList::new(1024);
    assert!(fl.is_empty());
    let a = fl.allocate(64, 1).expect("fits");
    assert!(!fl.is_empty());
    fl.free(a, 64);
    assert!(fl.is_empty());
    // Fully free again means the whole capacity is one range.
    assert_eq!(fl.free, vec![FreeRange { offset: 0, size: 1024 }]);
}

#[test]
fn staging_shrink_keeps_one_warm() {
    // No blocks / a single empty block: nothing to destroy.
    assert!(empty_blocks_beyond_first(&[]).is_empty());
    assert!(empty_blocks_beyond_first(&[dummy_block(1024, 0)]).is_empty());

    // In-use blocks are never selected, however many are empty.
    let blocks = vec![dummy_block(1024, 100), dummy_block(1024, 1)];
    assert!(empty_blocks_beyond_first(&blocks).is_empty());

    // More than one empty: the FIRST empty stays warm, the rest go.
    let blocks = vec![
        dummy_block(1024, 100), // in use — kept
        dummy_block(1024, 0),   // first empty — kept warm
        dummy_block(1024, 0),   // destroyed
        None,                   // already-destroyed slot — skipped
        dummy_block(1024, 0),   // destroyed
    ];
    assert_eq!(empty_blocks_beyond_first(&blocks), vec![2, 4]);
}

#[test]
fn device_shrink_settles_before_release() {
    // Two empty blocks beyond a warm one; a third in use.
    let mut blocks = vec![
        dummy_block(1024, 100), // in use — never selected
        dummy_block(1024, 0),   // first empty — kept warm
        dummy_block(1024, 0),   // eligible after settling
    ];

    // Below threshold: settling, nothing released yet.
    for _ in 0..2 {
        assert!(settled_empty_blocks(&mut blocks, 3).is_empty());
    }
    // Third consecutive empty tick crosses the window.
    assert_eq!(settled_empty_blocks(&mut blocks, 3), vec![2]);
}

#[test]
fn device_shrink_refill_resets_counter() {
    let mut blocks = vec![
        dummy_block(1024, 0), // kept warm
        dummy_block(1024, 0), // candidate
    ];
    // Accumulate settling ticks just shy of release.
    for _ in 0..2 {
        assert!(settled_empty_blocks(&mut blocks, 3).is_empty());
    }
    // The candidate briefly refills: its counter must reset.
    blocks[1].as_mut().unwrap().free_list.allocate(64, 1).unwrap();
    assert!(settled_empty_blocks(&mut blocks, 3).is_empty());
    blocks[1].as_mut().unwrap().free_list.free(0, 64);
    // Starts settling from zero again — no premature release.
    for _ in 0..2 {
        assert!(settled_empty_blocks(&mut blocks, 3).is_empty());
    }
    assert_eq!(settled_empty_blocks(&mut blocks, 3), vec![1]);
}

#[test]
fn alloc_free_roundtrip() {
    let mut fl = FreeList::new(1024);
    let a = fl.allocate(100, 1).expect("fits");
    assert_eq!(a, 0);
    assert_eq!(fl.used(), 100);
    fl.free(a, 100);
    assert_eq!(fl.used(), 0);
    assert_eq!(fl.free, vec![FreeRange { offset: 0, size: 1024 }]);
    // The full capacity is allocatable again.
    assert_eq!(fl.allocate(1024, 1), Some(0));
}

#[test]
fn alignment_rounds_up() {
    let mut fl = FreeList::new(1024);
    assert_eq!(fl.allocate(10, 256), Some(0)); // offset 0 satisfies any align
    assert_eq!(fl.allocate(10, 256), Some(256));
    assert_eq!(fl.allocate(10, 256), Some(512));
    // Padding is kept free, not counted as used.
    assert_eq!(fl.used(), 30);
}

#[test]
fn first_fit_picks_earliest_hole() {
    let mut fl = FreeList::new(1024);
    let a = fl.allocate(100, 1).unwrap(); // [0, 100)
    let _b = fl.allocate(100, 1).unwrap(); // [100, 200)
    let c = fl.allocate(100, 1).unwrap(); // [200, 300)
    fl.free(a, 100);
    fl.free(c, 100); // holes: [0, 100) and [200, 1024)
    assert_eq!(fl.allocate(50, 1), Some(0)); // earliest sufficient hole wins
}

#[test]
fn coalesce_left() {
    let mut fl = FreeList::new(300);
    let a = fl.allocate(100, 1).unwrap();
    let b = fl.allocate(100, 1).unwrap();
    let _c = fl.allocate(100, 1).unwrap();
    fl.free(a, 100); // [0, 100)
    fl.free(b, 100); // merges into the left neighbour
    assert_eq!(fl.free, vec![FreeRange { offset: 0, size: 200 }]);
}

#[test]
fn coalesce_right() {
    let mut fl = FreeList::new(300);
    let a = fl.allocate(100, 1).unwrap();
    let b = fl.allocate(100, 1).unwrap();
    let _c = fl.allocate(100, 1).unwrap();
    fl.free(b, 100); // [100, 200)
    fl.free(a, 100); // merges into the right neighbour
    assert_eq!(fl.free, vec![FreeRange { offset: 0, size: 200 }]);
}

#[test]
fn coalesce_both_sides() {
    let mut fl = FreeList::new(300);
    let a = fl.allocate(100, 1).unwrap();
    let b = fl.allocate(100, 1).unwrap();
    let c = fl.allocate(100, 1).unwrap();
    fl.free(a, 100);
    fl.free(c, 100); // [0, 100) and [200, 300)
    assert_eq!(fl.free.len(), 2);
    fl.free(b, 100); // bridges both neighbours
    assert_eq!(fl.free, vec![FreeRange { offset: 0, size: 300 }]);
    assert_eq!(fl.used(), 0);
}

#[test]
fn exhaustion_returns_none() {
    let mut fl = FreeList::new(256);
    assert_eq!(fl.allocate(300, 1), None);
    assert_eq!(fl.allocate(256, 1), Some(0));
    assert_eq!(fl.allocate(1, 1), None);

    // Fits by raw size but not once alignment padding is applied.
    let mut fl = FreeList::new(300);
    let _a = fl.allocate(100, 1).unwrap();
    assert_eq!(fl.allocate(200, 256), None); // would need [256, 456)
}

#[test]
fn interleaved_accounting_stays_consistent() {
    let mut fl = FreeList::new(4096);
    let mut live: Vec<(u64, u64)> = Vec::new();
    let mut expected_used = 0u64;
    // Deterministic interleaving of allocs and frees.
    for step in 0..200u64 {
        if step % 3 == 2 && !live.is_empty() {
            let idx = (step as usize * 7) % live.len();
            let (offset, size) = live.remove(idx);
            fl.free(offset, size);
            expected_used -= size;
        } else {
            let size = 16 + (step * 37) % 240;
            let align = [1u64, 16, 64, 256][(step % 4) as usize];
            if let Some(offset) = fl.allocate(size, align) {
                assert_eq!(offset % align, 0, "misaligned offset at step {step}");
                live.push((offset, size));
                expected_used += size;
            }
        }
        assert_eq!(fl.used(), expected_used, "used-bytes drift at step {step}");
    }
    for (offset, size) in live.drain(..) {
        fl.free(offset, size);
        expected_used -= size;
        assert_eq!(fl.used(), expected_used);
    }
    assert_eq!(fl.used(), 0);
    assert_eq!(fl.free, vec![FreeRange { offset: 0, size: 4096 }]);
}

#[test]
fn zero_bytes_take_one() {
    let mut fl = FreeList::new(4);
    assert_eq!(fl.allocate(0, 1), Some(0));
    assert_eq!(fl.used(), 1);
    assert_eq!(fl.allocate(1, 1), Some(1));
    fl.free(0, 0);
    assert_eq!(fl.used(), 1);
}

#[test]
fn pool_asks_for_a_block_then_serves_from_it() {
    let mut a = GpuAllocator::new(two_heap_props());
    let size = match a.alloc_device(1000, 16) {
        PoolStep::NeedBlock { buffer_size } => buffer_size,
        PoolStep::Ready(_) => panic!("no block yet"),
    };
    assert!(size >= 1000);
    let first = a.install(
        Pool::Device,
        FreshBlock {
            buffer: 7,
            memory: 8,
            memory_size: size,
            mapped: None,
            buffer_size: size,
        },
        1000,
        16,
    );
    assert_eq!((first.buffer, first.offset, first.size), (7, 0, 1000));
    let second = match a.alloc_device(10, 16) {
        PoolStep::Ready(x) => x,
        PoolStep::NeedBlock { .. } => panic!("the block has room"),
    };
    assert_eq!((second.buffer, second.offset, second.block), (7, 1008, first.block));
    a.free(first);
    a.free(second);
    // The only block stays warm, however long it is empty.
    for _ in 0..1000 {
        assert!(a.shrink_device().is_empty());
    }
    assert_eq!(a.destroy().len(), 1);
}

/// The steps of a block whose calls go as `outcomes` says.
fn block_run(outcomes: &[StepOutcome]) -> Vec<BlockStep> {
    let mut steps = vec![BlockStep::CreateBuffer];
    for &o in outcomes {
        steps.push(after_block_step(steps[steps.len() - 1], o));
    }
    steps
}

const OK: StepOutcome = StepOutcome::Success;

fn picked(host_visible: bool) -> StepOutcome {
    StepOutcome::Picked { host_visible }
}

#[test]
fn a_host_visible_block_is_mapped_once() {
    assert_eq!(
        block_run(&[OK, picked(true), OK, OK, OK, OK]),
        vec![
            BlockStep::CreateBuffer,
            BlockStep::PickMemory,
            BlockStep::AllocateMemory { host_visible: true },
            BlockStep::BindMemory { host_visible: true },
            BlockStep::MapMemory,
            BlockStep::Done,
            BlockStep::Done,
        ]
    );
    assert_eq!(
        block_run(&[OK, picked(false), OK, OK])[3..],
        [BlockStep::BindMemory { host_visible: false }, BlockStep::Done]
    );
}

#[test]
fn a_block_that_fails_leaves_nothing() {
    let err = |code| StepOutcome::Error { code };
    assert_eq!(block_run(&[err(-1)])[1], BlockStep::Fail { code: -1 });
    // No memory type: the device is out of memory for this buffer.
    assert_eq!(
        block_run(&[OK, StepOutcome::NoMemoryType, OK])[2..],
        [BlockStep::DestroyBuffer { memory: false, code: -2 }, BlockStep::Fail { code: -2 }]
    );
    assert_eq!(
        block_run(&[OK, picked(true), err(-2), OK])[3..],
        [BlockStep::DestroyBuffer { memory: false, code: -2 }, BlockStep::Fail { code: -2 }]
    );
    // Bound or mapped memory goes too, and the clean-up cannot change the code.
    for outcomes in [
        vec![OK, picked(true), OK, err(-3), OK, err(-9)],
        vec![OK, picked(true), OK, OK, err(-3), OK, err(-9)],
    ] {
        let steps = block_run(&outcomes);
        assert_eq!(
            steps[steps.len() - 3..],
            [
                BlockStep::DestroyBuffer { memory: true, code: -3 },
                BlockStep::FreeMemory { code: -3 },
                BlockStep::Fail { code: -3 },
            ]
        );
    }
    assert_eq!(ERROR_OUT_OF_DEVICE_MEMORY, ash::vk::Result::ERROR_OUT_OF_DEVICE_MEMORY.as_raw());
}
