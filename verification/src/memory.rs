//! Memory types of a physical device and the rules that choose among them.

use vstd::prelude::*;

verus! {

pub const MEMORY_DEVICE_LOCAL: u32 = 1;

pub const MEMORY_HOST_VISIBLE: u32 = 2;

pub const MEMORY_HOST_COHERENT: u32 = 4;

pub const MEMORY_HOST_CACHED: u32 = 8;

/// Host-visible, host-coherent: persistent mapping, no explicit flush.
pub const HOST_COHERENT: u32 = 6;

/// Device-local memory that the host can write without a flush.
pub const UNIFIED: u32 = 7;

/// A heap this large is a real unified or resizable-BAR heap; below it a
/// device-local, host-visible type is a discrete GPU's small BAR window.
pub const SMALL_BAR_HEAP: u64 = 0x4000_0000;

/// Heaps that a budget query reports.
pub const MAX_MEMORY_HEAPS: usize = 16;

/// One memory type: its property bits and the heap it allocates from.
#[derive(Clone, Copy, Debug, PartialEq, Eq, Structural)]
pub struct MemoryType {
    pub flags: u32,
    pub heap: u32,
}

/// The memory types and the heap sizes of a physical device.
pub struct MemoryProps {
    pub types: Vec<MemoryType>,
    pub heaps: Vec<u64>,
}

/// Per-heap budget and usage as the driver reports them.
#[derive(Clone, Copy)]
pub struct BudgetSnapshot {
    pub heap_budget: [u64; 16],
    pub heap_usage: [u64; 16],
}

/// Whether `flags` holds every bit of `wanted`.
pub open spec fn has_flags(flags: u32, wanted: u32) -> bool {
    flags & wanted == wanted
}

/// Whether bit `i` of `mask` is set.
pub open spec fn bit(mask: u32, i: u32) -> bool {
    mask & (1u32 << i) != 0
}

impl MemoryProps {
    /// At most 32 types, each on one of the heaps that a budget covers.
    pub open spec fn wf(&self) -> bool {
        &&& self.types.len() <= 32
        &&& self.heaps.len() <= MAX_MEMORY_HEAPS
        &&& forall|i: int|
            0 <= i < self.types.len() ==> (#[trigger] self.types[i]).heap < self.heaps.len()
    }

    pub open spec fn flags_of(&self, i: int) -> u32 {
        self.types[i].flags
    }

    pub open spec fn heap_of(&self, i: int) -> int {
        self.types[i].heap as int
    }

    /// Type `i` is allowed by `filter` and has all of `wanted`.
    pub open spec fn suitable(&self, filter: u32, wanted: u32, i: int) -> bool {
        bit(filter, i as u32) && has_flags(self.flags_of(i), wanted)
    }

    /// `i` is the lowest suitable type.
    pub open spec fn first_suitable(&self, filter: u32, wanted: u32, i: int) -> bool {
        &&& 0 <= i < self.types.len()
        &&& self.suitable(filter, wanted, i)
        &&& forall|j: int| 0 <= j < i ==> !#[trigger] self.suitable(filter, wanted, j)
    }

    /// The types below `n` that have all of `wanted`, ascending.
    pub open spec fn types_with_spec(&self, wanted: u32, n: int) -> Seq<u32>
        decreases n,
    {
        if n <= 0 {
            Seq::empty()
        } else if has_flags(self.flags_of(n - 1), wanted) {
            self.types_with_spec(wanted, n - 1).push((n - 1) as u32)
        } else {
            self.types_with_spec(wanted, n - 1)
        }
    }

    /// The types of `list` whose heap is large enough for the main pool.
    pub open spec fn on_large_heaps(&self, list: Seq<u32>) -> Seq<u32>
        decreases list.len(),
    {
        if list.len() == 0 {
            Seq::empty()
        } else if self.heaps[self.heap_of(list.last() as int)] >= SMALL_BAR_HEAP {
            self.on_large_heaps(list.drop_last()).push(list.last())
        } else {
            self.on_large_heaps(list.drop_last())
        }
    }

    /// Compatible host-visible types below `n` that are not in `listed`.
    pub open spec fn host_visible_fallbacks(&self, bits: u32, listed: Seq<u32>, n: int) -> Seq<u32>
        decreases n,
    {
        if n <= 0 {
            Seq::empty()
        } else if self.suitable(bits, MEMORY_HOST_VISIBLE, n - 1) && !listed.contains((n - 1) as u32) {
            self.host_visible_fallbacks(bits, listed, n - 1).push((n - 1) as u32)
        } else {
            self.host_visible_fallbacks(bits, listed, n - 1)
        }
    }

    /// Compatible types in preference order, then any host-visible fallback.
    pub open spec fn candidates(&self, prefs: Seq<u32>, bits: u32) -> Seq<u32> {
        let listed = compatible(prefs, bits);
        listed + self.host_visible_fallbacks(bits, listed, self.types.len() as int)
    }

    /// Whether `size` more bytes keep type `i`'s heap inside its budget.
    pub open spec fn within_budget(&self, budget: Option<BudgetSnapshot>, size: u64, i: u32) -> bool {
        match budget {
            None => true,
            Some(snapshot) => {
                let heap = self.heap_of(i as int);
                let sum = snapshot.heap_usage[heap] + size;
                (if sum > u64::MAX {
                    u64::MAX as int
                } else {
                    sum
                }) <= snapshot.heap_budget[heap]
            },
        }
    }

    /// The size of the heap that type `i` allocates from.
    pub open spec fn heap_size_spec(&self, i: int) -> u64 {
        self.heaps[self.heap_of(i)]
    }
}

/// The entries of `prefs` that `bits` allows, in order.
pub open spec fn compatible(prefs: Seq<u32>, bits: u32) -> Seq<u32>
    decreases prefs.len(),
{
    if prefs.len() == 0 {
        Seq::empty()
    } else if bit(bits, prefs.last()) {
        compatible(prefs.drop_last(), bits).push(prefs.last())
    } else {
        compatible(prefs.drop_last(), bits)
    }
}

/// `base`, then the entries of `more` that are not in what is there already.
pub open spec fn append_missing(base: Seq<u32>, more: Seq<u32>) -> Seq<u32>
    decreases more.len(),
{
    if more.len() == 0 {
        base
    } else {
        let sofar = append_missing(base, more.drop_last());
        if sofar.contains(more.last()) {
            sofar
        } else {
            sofar.push(more.last())
        }
    }
}

/// Every entry of `list` names a type of `props`.
pub open spec fn all_types(props: &MemoryProps, list: Seq<u32>) -> bool {
    forall|k: int| 0 <= k < list.len() ==> (#[trigger] list[k]) < props.types.len()
}

fn list_has(list: &Vec<u32>, x: u32) -> (found: bool)
    ensures
        found == list@.contains(x),
{
    let mut k: usize = 0;
    while k < list.len()
        invariant
            k <= list.len(),
            forall|j: int| 0 <= j < k ==> list[j] != x,
        decreases list.len() - k,
    {
        if list[k] == x {
            return true;
        }
        k = k + 1;
    }
    false
}

/// The lowest memory type that `type_filter` allows and that has all of
/// `properties`; `None` when no type matches, so a caller can express a
/// preference ladder.
pub fn try_find_memory_type(props: &MemoryProps, type_filter: u32, properties: u32) -> (found:
    Option<u32>)
    requires
        props.wf(),
    ensures
        match found {
            Some(i) => props.first_suitable(type_filter, properties, i as int),
            None => forall|j: int|
                0 <= j < props.types.len() ==> !#[trigger] props.suitable(
                    type_filter,
                    properties,
                    j,
                ),
        },
{
    let mut i: u32 = 0;
    while (i as usize) < props.types.len()
        invariant
            props.wf(),
            i <= props.types.len(),
            forall|j: int| 0 <= j < i ==> !#[trigger] props.suitable(type_filter, properties, j),
        decreases props.types.len() - i,
    {
        let suitable: bool = (type_filter & (1u32 << i)) != 0;
        let has_props: bool = (props.types[i as usize].flags & properties) == properties;
        if suitable && has_props {
            assert(props.suitable(type_filter, properties, i as int));
            return Some(i);
        }
        i = i + 1;
    }
    None
}

/// [`try_find_memory_type`] where some type is known to match.
pub fn find_memory_type(props: &MemoryProps, type_filter: u32, properties: u32) -> (found: u32)
    requires
        props.wf(),
        exists|j: int|
            0 <= j < props.types.len() && #[trigger] props.suitable(type_filter, properties, j),
    ensures
        props.first_suitable(type_filter, properties, found as int),
{
    try_find_memory_type(props, type_filter, properties).unwrap()
}

/// The size of the heap behind memory type `type_index`.
pub fn heap_size(props: &MemoryProps, type_index: u32) -> (size: u64)
    requires
        props.wf(),
        type_index < props.types.len(),
    ensures
        size == props.heap_size_spec(type_index as int),
{
    props.heaps[props.types[type_index as usize].heap as usize]
}

/// All memory types that have every bit of `flags`, ascending.
pub fn types_with(props: &MemoryProps, flags: u32) -> (list: Vec<u32>)
    requires
        props.wf(),
    ensures
        list@ == props.types_with_spec(flags, props.types.len() as int),
        all_types(props, list@),
{
    let mut list: Vec<u32> = Vec::new();
    let mut i: u32 = 0;
    while (i as usize) < props.types.len()
        invariant
            props.wf(),
            i <= props.types.len(),
            list@ == props.types_with_spec(flags, i as int),
            all_types(props, list@),
        decreases props.types.len() - i,
    {
        if (props.types[i as usize].flags & flags) == flags {
            list.push(i);
        }
        i = i + 1;
    }
    list
}

/// Memory types for the device pool: unified types on a large heap first, then
/// plain device-local ones.
///
/// A small device-local, host-visible window must not become the main mesh
/// pool, which would exhaust it long before the device memory.
pub fn device_type_prefs(props: &MemoryProps) -> (prefs: Vec<u32>)
    requires
        props.wf(),
    ensures
        prefs@ == append_missing(
            props.on_large_heaps(props.types_with_spec(UNIFIED, props.types.len() as int)),
            props.types_with_spec(MEMORY_DEVICE_LOCAL, props.types.len() as int),
        ),
        all_types(props, prefs@),
{
    let unified: Vec<u32> = types_with(props, UNIFIED);
    let mut prefs: Vec<u32> = Vec::new();
    let mut k: usize = 0;
    while k < unified.len()
        invariant
            props.wf(),
            k <= unified.len(),
            all_types(props, unified@),
            all_types(props, prefs@),
            prefs@ == props.on_large_heaps(unified@.take(k as int)),
        decreases unified.len() - k,
    {
        proof {
            assert(unified@.take(k + 1).drop_last() =~= unified@.take(k as int));
        }
        if heap_size(props, unified[k]) >= SMALL_BAR_HEAP {
            prefs.push(unified[k]);
        }
        k = k + 1;
    }
    assert(unified@.take(k as int) =~= unified@);
    let local: Vec<u32> = types_with(props, MEMORY_DEVICE_LOCAL);
    let ghost base = prefs@;
    let mut k: usize = 0;
    assert(local@.take(0) =~= Seq::empty());
    while k < local.len()
        invariant
            k <= local.len(),
            all_types(props, local@),
            all_types(props, prefs@),
            prefs@ == append_missing(base, local@.take(k as int)),
        decreases local.len() - k,
    {
        proof {
            assert(local@.take(k + 1).drop_last() =~= local@.take(k as int));
        }
        if !list_has(&prefs, local[k]) {
            prefs.push(local[k]);
        }
        k = k + 1;
    }
    assert(local@.take(k as int) =~= local@);
    prefs
}

/// Picks a memory type from the preference list, respecting budget constraints.
/// Falls back to less-preferred types if needed; budget limits are advisory.
pub fn pick_memory_type(
    props: &MemoryProps,
    type_prefs: &[u32],
    memory_type_bits: u32,
    budget: Option<BudgetSnapshot>,
    alloc_size: u64,
) -> (picked: Option<u32>)
    requires
        props.wf(),
        all_types(props, type_prefs@),
    ensures
        ({
            let candidates = props.candidates(type_prefs@, memory_type_bits);
            match picked {
                None => candidates.len() == 0,
                Some(i) => {
                    ||| exists|k: int|
                        {
                            &&& 0 <= k < candidates.len()
                            &&& #[trigger] candidates[k] == i
                            &&& props.within_budget(budget, alloc_size, i)
                            &&& forall|j: int|
                                0 <= j < k ==> !props.within_budget(
                                    budget,
                                    alloc_size,
                                    #[trigger] candidates[j],
                                )
                        }
                    ||| {
                        &&& candidates.len() > 0
                        &&& i == candidates[0]
                        &&& forall|j: int|
                            0 <= j < candidates.len() ==> !props.within_budget(
                                budget,
                                alloc_size,
                                #[trigger] candidates[j],
                            )
                    }
                },
            }
        }),
        picked matches Some(i) ==> i < props.types.len() && bit(memory_type_bits, i),
{
    let mut candidates: Vec<u32> = Vec::new();
    let mut k: usize = 0;
    assert(type_prefs@.take(0) =~= Seq::empty());
    while k < type_prefs.len()
        invariant
            props.wf(),
            k <= type_prefs.len(),
            all_types(props, type_prefs@),
            all_types(props, candidates@),
            candidates@ == compatible(type_prefs@.take(k as int), memory_type_bits),
            forall|j: int|
                0 <= j < candidates.len() ==> bit(memory_type_bits, #[trigger] candidates[j]),
        decreases type_prefs.len() - k,
    {
        proof {
            assert(type_prefs@.take(k + 1).drop_last() =~= type_prefs@.take(k as int));
        }
        let i: u32 = type_prefs[k];
        if (memory_type_bits & (1u32 << i)) != 0 {
            candidates.push(i);
        }
        k = k + 1;
    }
    let ghost listed = candidates@;
    proof {
        assert(type_prefs@.take(k as int) =~= type_prefs@);
        assert(listed + props.host_visible_fallbacks(memory_type_bits, listed, 0) =~= listed);
    }
    let mut i: u32 = 0;
    while (i as usize) < props.types.len()
        invariant
            props.wf(),
            i <= props.types.len(),
            all_types(props, candidates@),
            candidates@ == listed + props.host_visible_fallbacks(
                memory_type_bits,
                listed,
                i as int,
            ),
            forall|j: int| listed.len() <= j < candidates.len() ==> (#[trigger] candidates[j]) < i,
            forall|j: int|
                0 <= j < candidates.len() ==> bit(memory_type_bits, #[trigger] candidates[j]),
        decreases props.types.len() - i,
    {
        let compatible: bool = (memory_type_bits & (1u32 << i)) != 0;
        let host_visible: bool = (props.types[i as usize].flags & MEMORY_HOST_VISIBLE)
            == MEMORY_HOST_VISIBLE;
        let present: bool = list_has(&candidates, i);
        proof {
            assert(present == listed.contains(i)) by {
                if present {
                    let j = choose|j: int| 0 <= j < candidates.len() && candidates[j] == i;
                    assert(listed[j] == i);
                }
                if listed.contains(i) {
                    let j = choose|j: int| 0 <= j < listed.len() && listed[j] == i;
                    assert(candidates[j] == i);
                }
            }
        }
        if compatible && host_visible && !present {
            candidates.push(i);
            proof {
                assert(candidates@ =~= listed + props.host_visible_fallbacks(
                    memory_type_bits,
                    listed,
                    i + 1,
                ));
            }
        }
        i = i + 1;
    }
    // Prefer a type with budget headroom; fall back to the most-preferred anyway.
    let mut k: usize = 0;
    while k < candidates.len()
        invariant
            props.wf(),
            k <= candidates.len(),
            all_types(props, candidates@),
            candidates@ == props.candidates(type_prefs@, memory_type_bits),
            forall|j: int|
                0 <= j < k ==> !props.within_budget(budget, alloc_size, #[trigger] candidates[j]),
            forall|j: int|
                0 <= j < candidates.len() ==> bit(memory_type_bits, #[trigger] candidates[j]),
        decreases candidates.len() - k,
    {
        let i: u32 = candidates[k];
        let fits: bool = match budget {
            None => true,
            Some(snapshot) => {
                let heap: usize = props.types[i as usize].heap as usize;
                snapshot.heap_usage[heap].saturating_add(alloc_size) <= snapshot.heap_budget[heap]
            },
        };
        if fits {
            return Some(i);
        }
        k = k + 1;
    }
    if candidates.len() > 0 {
        Some(candidates[0])
    } else {
        None
    }
}

/// The type that is found is allowed and has every wanted property, and no lower type is
/// and has.
pub proof fn law_the_lowest_fitting_type_is_found(
    props: &MemoryProps,
    filter: u32,
    wanted: u32,
    i: int,
    j: int,
)
    requires
        props.wf(),
        props.first_suitable(filter, wanted, i),
        0 <= j < i,
    ensures
        i < props.types.len(),
        (filter >> (i as u32)) & 1 == 1,
        props.types[i].flags & wanted == wanted,
        (filter >> (j as u32)) & 1 == 0 || props.types[j].flags & wanted != wanted,
{
    assert(!props.suitable(filter, wanted, j));
    let a = i as u32;
    let b = j as u32;
    assert((filter & (1u32 << a) != 0) == ((filter >> a) & 1 == 1)) by (bit_vector)
        requires
            a < 32,
    ;
    assert((filter & (1u32 << b) != 0) == ((filter >> b) & 1 != 0)) by (bit_vector)
        requires
            b < 32,
    ;
}

/// Types are listed in ascending order, each that has every wanted property and no other.
pub proof fn law_types_are_listed_by_their_properties(props: &MemoryProps, wanted: u32, n: int)
    requires
        0 <= n <= props.types.len(),
        props.types.len() <= 32,
    ensures
        ({
            let list = props.types_with_spec(wanted, n);
            &&& forall|i: u32| #[trigger]
                list.contains(i) <==> i < n && props.types[i as int].flags & wanted == wanted
            &&& forall|a: int, b: int|
                0 <= a < b < list.len() ==> #[trigger] list[a] < #[trigger] list[b]
            &&& forall|a: int| 0 <= a < list.len() ==> #[trigger] list[a] < n
        }),
    decreases n,
{
    let list = props.types_with_spec(wanted, n);
    if n > 0 {
        let less = props.types_with_spec(wanted, n - 1);
        law_types_are_listed_by_their_properties(props, wanted, n - 1);
        assert forall|i: u32| #[trigger] list.contains(i) <==> i < n && props.types[i as int].flags
            & wanted == wanted by {
            if list.contains(i) {
                let k = choose|k: int| 0 <= k < list.len() && list[k] == i;
                if k < less.len() {
                    assert(less[k] == i);
                    assert(less.contains(i));
                }
            }
            if i < n && props.types[i as int].flags & wanted == wanted {
                if i < n - 1 {
                    assert(less.contains(i));
                    let k = choose|k: int| 0 <= k < less.len() && less[k] == i;
                    assert(list[k] == i);
                } else {
                    assert(list[less.len() as int] == i);
                }
            }
        }
    }
}

proof fn lemma_on_large_heaps(props: &MemoryProps, list: Seq<u32>)
    requires
        forall|a: int, b: int| 0 <= a < b < list.len() ==> #[trigger] list[a] < #[trigger] list[b],
    ensures
        ({
            let large = props.on_large_heaps(list);
            &&& forall|i: u32| #[trigger]
                large.contains(i) <==> list.contains(i) && props.heaps[props.types[i as int].heap as int]
                    >= 0x4000_0000
            &&& large.no_duplicates()
        }),
    decreases list.len(),
{
    let large = props.on_large_heaps(list);
    if list.len() > 0 {
        let less = list.drop_last();
        let rest = props.on_large_heaps(less);
        let n = list.len() - 1;
        lemma_on_large_heaps(props, less);
        assert forall|i: u32| #[trigger] large.contains(i) <==> list.contains(i) && props.heaps[
        props.types[i as int].heap as int] >= 0x4000_0000 by {
            if large.contains(i) {
                let k = choose|k: int| 0 <= k < large.len() && large[k] == i;
                if k < rest.len() {
                    assert(rest[k] == i);
                    assert(rest.contains(i));
                    let j = choose|j: int| 0 <= j < less.len() && less[j] == i;
                    assert(list[j] == i);
                } else {
                    assert(list[n] == i);
                }
            }
            if list.contains(i) && props.heaps[props.types[i as int].heap as int] >= 0x4000_0000 {
                let j = choose|j: int| 0 <= j < list.len() && list[j] == i;
                if j < n {
                    assert(less[j] == i);
                    assert(rest.contains(i));
                    let k = choose|k: int| 0 <= k < rest.len() && rest[k] == i;
                    assert(large[k] == i);
                } else {
                    assert(large[rest.len() as int] == i);
                }
            }
        }
        assert forall|a: int, b: int|
            0 <= a < large.len() && 0 <= b < large.len() && a != b implies large[a] != large[b] by {
            if a >= rest.len() || b >= rest.len() {
                let k = if a < b {
                    a
                } else {
                    b
                };
                assert(rest.contains(rest[k]));
                let j = choose|j: int| 0 <= j < less.len() && less[j] == rest[k];
                assert(list[j] < list[n]);
            }
        }
    }
}

proof fn lemma_append_missing(base: Seq<u32>, more: Seq<u32>)
    requires
        base.no_duplicates(),
    ensures
        ({
            let all = append_missing(base, more);
            &&& all.no_duplicates()
            &&& all.len() >= base.len()
            &&& forall|a: int| 0 <= a < base.len() ==> #[trigger] all[a] == base[a]
            &&& forall|i: u32| #[trigger]
                all.contains(i) <==> base.contains(i) || more.contains(i)
        }),
    decreases more.len(),
{
    let all = append_missing(base, more);
    if more.len() > 0 {
        let less = more.drop_last();
        let rest = append_missing(base, less);
        let n = more.len() - 1;
        lemma_append_missing(base, less);
        assert forall|i: u32| #[trigger] all.contains(i) <==> base.contains(i) || more.contains(
            i,
        ) by {
            if all.contains(i) {
                let k = choose|k: int| 0 <= k < all.len() && all[k] == i;
                if k < rest.len() {
                    assert(rest[k] == i);
                    assert(rest.contains(i));
                    if less.contains(i) {
                        let j = choose|j: int| 0 <= j < less.len() && less[j] == i;
                        assert(more[j] == i);
                    }
                } else {
                    assert(more[n] == i);
                }
            }
            if base.contains(i) || less.contains(i) {
                assert(rest.contains(i));
                let k = choose|k: int| 0 <= k < rest.len() && rest[k] == i;
                assert(all[k] == i);
            } else if more.contains(i) {
                let j = choose|j: int| 0 <= j < more.len() && more[j] == i;
                assert(j < n ==> less[j] == i);
                assert(!rest.contains(i));
                assert(all[rest.len() as int] == i);
            }
        }
    } else {
        assert(!more.contains(0) || more.len() > 0);
    }
}

/// The device pool may use every device-local type and no other, each listed once. Those
/// that the host can write too come first, but only where their heap is large.
pub proof fn law_device_prefs_lead_with_large_unified_heaps(
    props: &MemoryProps,
    prefs: Seq<u32>,
    a: int,
    b: int,
)
    requires
        props.wf(),
        prefs == append_missing(
            props.on_large_heaps(props.types_with_spec(UNIFIED, props.types.len() as int)),
            props.types_with_spec(MEMORY_DEVICE_LOCAL, props.types.len() as int),
        ),
        0 <= a < b < prefs.len(),
    ensures
        prefs.no_duplicates(),
        forall|i: u32| #[trigger]
            prefs.contains(i) <==> i < props.types.len() && props.types[i as int].flags & 1 == 1,
        props.types[prefs[b] as int].flags & 7 == 7 && props.heaps[props.types[prefs[b] as int].heap as int]
            >= 0x4000_0000 ==> props.types[prefs[a] as int].flags & 7 == 7 && props.heaps[
        props.types[prefs[a] as int].heap as int] >= 0x4000_0000,
{
    let n = props.types.len() as int;
    let unified = props.types_with_spec(UNIFIED, n);
    let large = props.on_large_heaps(unified);
    let local = props.types_with_spec(MEMORY_DEVICE_LOCAL, n);
    law_types_are_listed_by_their_properties(props, UNIFIED, n);
    law_types_are_listed_by_their_properties(props, MEMORY_DEVICE_LOCAL, n);
    lemma_on_large_heaps(props, unified);
    lemma_append_missing(large, local);
    assert forall|i: u32| #[trigger] prefs.contains(i) <==> i < n && props.types[i as int].flags & 1
        == 1 by {
        if large.contains(i) {
            let flags = props.types[i as int].flags;
            assert(unified.contains(i));
            assert(flags & 1 == 1) by (bit_vector)
                requires
                    flags & 7 == 7,
            ;
        }
        assert(local.contains(i) <==> i < n && props.types[i as int].flags & 1 == 1);
    }
    assert(prefs.contains(prefs[b]));
    if large.contains(prefs[b]) {
        let k = choose|k: int| 0 <= k < large.len() && large[k] == prefs[b];
        assert(prefs[k] == large[k]);
        assert(k == b);
        assert(large.contains(large[a]));
        assert(prefs[a] == large[a]);
        assert(unified.contains(prefs[a]));
    } else {
        assert(!(unified.contains(prefs[b]) && props.heaps[props.types[prefs[b] as int].heap as int]
            >= 0x4000_0000));
        assert(local.contains(prefs[b]));
    }
}

/// Without a budget anything fits; with one, what fits is what the heap's use and the
/// request together leave inside the heap's budget.
pub proof fn law_a_request_fits_the_budget_of_its_heap(
    props: &MemoryProps,
    budget: Option<BudgetSnapshot>,
    size: u64,
    i: u32,
)
    ensures
        budget is None ==> props.within_budget(budget, size, i),
        budget matches Some(b) ==> ({
            let heap = props.types[i as int].heap as int;
            &&& b.heap_usage[heap] + size <= b.heap_budget[heap] ==> props.within_budget(
                budget,
                size,
                i,
            )
            &&& props.within_budget(budget, size, i) ==> b.heap_usage[heap] + size
                <= b.heap_budget[heap] || b.heap_budget[heap] == u64::MAX
        }),
        props.heap_size_spec(i as int) == props.heaps[props.types[i as int].heap as int],
{
}

} // verus!
