//! Compute kinds: their description, the checks at registration, the memory and
//! queue they use and the time they are given.
//!
//! A device with a compute family of its own, or with another queue in the
//! graphics family, runs jobs as they arrive. Otherwise jobs go into the frame's
//! command buffer, a bounded estimate of GPU time per frame.

use vstd::prelude::*;

use crate::free_list;
use crate::lane::Tier;
use crate::memory;
use crate::memory::{MemoryProps, MEMORY_DEVICE_LOCAL, MEMORY_HOST_VISIBLE};
use crate::text;

verus! {

/// Jobs in flight on a queue of their own.
pub const MAX_IN_FLIGHT: usize = 32;

/// Estimated microseconds of jobs per frame on the frame's own queue.
pub const FALLBACK_FRAME_BUDGET_US: u32 = 200;

/// First estimate of a kind, in microseconds.
pub const BUDGET_START_US: u32 = 200;

pub const BUDGET_MIN_US: u32 = 50;

pub const BUDGET_MAX_US: u32 = 2000;

pub const MAX_PUSH_BYTES: u32 = 128;

pub const MAX_INPUTS: u32 = 2;

/// Pairs of timestamp queries.
pub const QUERY_PAIRS: usize = 64;

/// Default size of the input ring.
pub const COMPUTE_INPUT_BYTES: u64 = 0x100_0000;

/// Default size of the readback ring.
pub const COMPUTE_READBACK_BYTES: u64 = 0x200_0000;

/// Memory that the host reads from its cache and the device writes directly.
pub const DIRECT_READBACK: u32 = 15;

/// A compute kind as the game describes it.
#[derive(Clone, Copy, Debug)]
pub struct ComputeDesc<'a> {
    /// SPIR-V module, in either byte order.
    pub spirv: &'a [u8],
    /// Entry point.
    pub entry: &'a str,
    /// Bytes of push constants, a multiple of four.
    pub push_bytes: u32,
    /// Read-only storage buffers; the output buffer is bound behind them.
    pub inputs: u32,
    /// Largest output that a job may ask for.
    pub output_bytes_max: u32,
    /// Workgroup size.
    pub workgroup: [u32; 3],
}

impl<'a> ComputeDesc<'a> {
    /// The kind of the integer-hash example, given its module.
    pub fn example(spirv: &'a [u8]) -> (d: ComputeDesc<'a>)
        ensures
            d.spirv == spirv,
            d.entry@ == "main"@,
            d.push_bytes == 8,
            d.inputs == 1,
            d.output_bytes_max == 16384,
            d.workgroup@ == seq![64u32, 1, 1],
    {
        let workgroup: [u32; 3] = [64, 1, 1];
        proof {
            assert(workgroup@ =~= seq![64u32, 1, 1]);
        }
        ComputeDesc {
            spirv,
            entry: "main",
            push_bytes: 8,
            inputs: 1,
            output_bytes_max: 16384,
            workgroup,
        }
    }

    /// A copy that owns its module and its entry point.
    pub fn owned(self) -> (d: ComputeDescOwned)
        ensures
            d.spirv@ == self.spirv@,
            d.entry@ == self.entry@,
            d.push_bytes == self.push_bytes,
            d.inputs == self.inputs,
            d.output_bytes_max == self.output_bytes_max,
            d.workgroup == self.workgroup,
    {
        ComputeDescOwned {
            spirv: copy_slice(self.spirv),
            entry: String::from_str(self.entry),
            push_bytes: self.push_bytes,
            inputs: self.inputs,
            output_bytes_max: self.output_bytes_max,
            workgroup: self.workgroup,
        }
    }
}

/// A copy of `s`.
pub fn copy_slice(s: &[u8]) -> (r: Vec<u8>)
    ensures
        r@ == s@,
{
    let mut r: Vec<u8> = Vec::new();
    let mut i: usize = 0;
    while i < s.len()
        invariant
            i <= s@.len(),
            r@ == s@.take(i as int),
        decreases s.len() - i,
    {
        r.push(s[i]);
        i = i + 1;
        proof {
            assert(r@ =~= s@.take(i as int));
        }
    }
    proof {
        assert(s@.take(i as int) =~= s@);
    }
    r
}

pub struct ComputeDescOwned {
    pub spirv: Vec<u8>,
    pub entry: String,
    pub push_bytes: u32,
    pub inputs: u32,
    pub output_bytes_max: u32,
    pub workgroup: [u32; 3],
}

/// A registered kind.
#[derive(Clone, Copy, Debug, PartialEq, Eq, Hash, Structural)]
pub struct ComputeKind(pub u32);

impl ComputeKind {
    pub fn raw(self) -> (r: u32)
        ensures
            r == self.0,
    {
        self.0
    }
}

/// A submitted job; later jobs have greater identifiers.
#[derive(Clone, Copy, Debug, PartialEq, Eq, PartialOrd, Ord, Hash, Structural)]
pub struct JobId(pub u64);

impl JobId {
    pub fn raw(self) -> (r: u64)
        ensures
            r == self.0,
    {
        self.0
    }
}

/// Why a kind or a job was refused.
#[derive(Clone, Debug, PartialEq, Eq)]
pub enum EngineError {
    /// The device runs no compute jobs.
    NoCompute,
    /// The named part of a description or a job is invalid.
    Invalid(&'static str),
    /// The pipeline could not be made.
    Pipeline,
    /// The output is empty or larger than the kind allows.
    OutputTooLarge,
    /// An input is missing.
    InputGone,
    /// A ring is full; try later.
    Busy,
}

impl EngineError {
    pub open spec fn text(&self) -> Seq<char> {
        match self {
            EngineError::NoCompute => "device does not support compute jobs"@,
            EngineError::Invalid(part) => "invalid compute desc: "@ + part@,
            EngineError::Pipeline => "compute pipeline creation failed"@,
            EngineError::OutputTooLarge => "compute job output exceeds kind maximum"@,
            EngineError::InputGone => "compute job input region is missing"@,
            EngineError::Busy => "compute staging or readback ring is full"@,
        }
    }

    /// The error in words.
    pub fn message(&self) -> (s: String)
        ensures
            s@ == self.text(),
    {
        match self {
            EngineError::NoCompute => String::from_str("device does not support compute jobs"),
            EngineError::Invalid(part) => {
                let mut s = String::from_str("invalid compute desc: ");
                s.append(part);
                s
            },
            EngineError::Pipeline => String::from_str("compute pipeline creation failed"),
            EngineError::OutputTooLarge => String::from_str(
                "compute job output exceeds kind maximum",
            ),
            EngineError::InputGone => String::from_str("compute job input region is missing"),
            EngineError::Busy => String::from_str("compute staging or readback ring is full"),
        }
    }
}

/// `a * b`, no more than 64 bits hold.
pub open spec fn capped_product(a: int, b: int) -> int {
    if a * b > u64::MAX {
        u64::MAX as int
    } else {
        a * b
    }
}

/// Bytes of a count of mebibytes written in decimal; `None` when it is no number.
pub fn parse_mb(s: &str) -> (r: Option<u64>)
    ensures
        exists|t: Seq<char>| #[trigger]
            text::trims_to(s@, t) && r == match text::number_in(t) {
                Some(mb) => Some(capped_product(mb as int, 0x10_0000) as u64),
                None => None,
            },
{
    let n = text::parse_trimmed(s);
    let ghost t = choose|t: Seq<char>| #[trigger]
        text::trims_to(s@, t) && n == text::number_in(t);
    match n {
        None => {
            proof {
                assert(text::trims_to(s@, t));
            }
            None
        },
        Some(mb) => {
            proof {
                assert(text::trims_to(s@, t));
            }
            if mb > 0xFFF_FFFF_FFFF {
                Some(u64::MAX)
            } else {
                Some(mb * 0x10_0000)
            }
        },
    }
}

/// Size of a ring: what `setting` says, where it says something, or `default_bytes`.
pub fn ring_bytes(setting: Option<&str>, default_bytes: u64) -> (r: u64)
    ensures
        match setting {
            None => r == default_bytes,
            Some(s) => exists|t: Seq<char>| #[trigger]
                text::trims_to(s@, t) && r == match text::number_in(t) {
                    Some(mb) => capped_product(mb as int, 0x10_0000) as u64,
                    None => default_bytes,
                },
        },
{
    match setting {
        None => default_bytes,
        Some(s) => {
            let parsed = parse_mb(s);
            let ghost t = choose|t: Seq<char>| #[trigger]
                text::trims_to(s@, t) && parsed == match text::number_in(t) {
                    Some(mb) => Some(capped_product(mb as int, 0x10_0000) as u64),
                    None => None,
                };
            proof {
                assert(text::trims_to(s@, t));
            }
            match parsed {
                Some(b) => b,
                None => default_bytes,
            }
        },
    }
}

/// Alignment and size of a ring of `size` bytes: at least 16, and a whole number
/// of alignments. `None` for a ring that is switched off.
pub fn ring_geometry(size: u64, align: u64) -> (r: Option<(u64, u64)>)
    requires
        size as int + align as int + 16 <= u64::MAX,
    ensures
        ({
            let step = if align < 16 {
                16
            } else {
                align as int
            };
            match r {
                None => size == 0,
                Some((bytes, a)) => size > 0 && a == step && bytes == free_list::align_up(
                    size as int,
                    step,
                ),
            }
        }),
{
    if size == 0 {
        return None;
    }
    let step: u64 = if align < 16 {
        16
    } else {
        align
    };
    proof {
        free_list::lemma_align_up(size as int, step as int);
        vstd::arithmetic::div_mod::lemma_mod_decreases(size as nat, step as nat);
    }
    let over: u64 = size % step;
    let bytes: u64 = if over == 0 {
        size
    } else {
        size - over + step
    };
    Some((bytes, step))
}

/// The costs of the first `n` jobs.
pub open spec fn total_cost(costs: Seq<u32>, n: int) -> int
    decreases n,
{
    if n <= 0 {
        0
    } else {
        total_cost(costs, n - 1) + costs[n - 1]
    }
}

pub proof fn lemma_total_cost_grows(costs: Seq<u32>, m: int, n: int)
    requires
        0 <= m <= n,
    ensures
        total_cost(costs, m) <= total_cost(costs, n),
    decreases n,
{
    if m < n {
        lemma_total_cost_grows(costs, m, n - 1);
    }
}

/// How many jobs, in queue order, fit the budget. The first always runs, so that
/// an expensive one cannot stall the queue; more are taken while all of them
/// together stay within it.
pub fn jobs_fitting_budget(budget_us: u32, costs_us: &[u32]) -> (n: usize)
    ensures
        n <= costs_us@.len(),
        (n == 0) == (costs_us@.len() == 0),
        n > 1 ==> total_cost(costs_us@, n as int) <= budget_us,
        0 < n < costs_us@.len() ==> total_cost(costs_us@, n + 1) > budget_us,
{
    if costs_us.len() == 0 {
        return 0;
    }
    let mut used: u64 = costs_us[0] as u64;
    let mut n: usize = 1;
    proof {
        assert(total_cost(costs_us@, 0) == 0);
        assert(total_cost(costs_us@, 1) == total_cost(costs_us@, 0) + costs_us@[0]);
    }
    while n < costs_us.len()
        invariant
            1 <= n <= costs_us@.len(),
            used == total_cost(costs_us@, n as int),
            n == 1 ==> used <= u32::MAX,
            n > 1 ==> used <= budget_us,
        decreases costs_us.len() - n,
    {
        let cost: u64 = costs_us[n] as u64;
        if used + cost > budget_us as u64 {
            return n;
        }
        used = used + cost;
        n = n + 1;
    }
    n
}

/// Mean of the last estimate and the last measurement, kept in bounds.
pub open spec fn adapted(prev: u32, measured: u32) -> int {
    let mixed = (prev + measured) / 2;
    if mixed < BUDGET_MIN_US {
        BUDGET_MIN_US as int
    } else if mixed > BUDGET_MAX_US {
        BUDGET_MAX_US as int
    } else {
        mixed
    }
}

/// The ticks between a job's two stamps. Stamps that run backwards measure nothing.
pub fn measured_ticks(start: u64, end: u64) -> (r: Option<u64>)
    ensures
        r == if end >= start {
            Some((end - start) as u64)
        } else {
            None
        },
{
    if end >= start {
        Some(end - start)
    } else {
        None
    }
}

pub fn adapt_estimate_us(prev: u32, measured: u32) -> (r: u32)
    ensures
        r == adapted(prev, measured),
        BUDGET_MIN_US <= r <= BUDGET_MAX_US,
{
    let mixed: u64 = (prev as u64 + measured as u64) / 2;
    if mixed < BUDGET_MIN_US as u64 {
        BUDGET_MIN_US
    } else if mixed > BUDGET_MAX_US as u64 {
        BUDGET_MAX_US
    } else {
        mixed as u32
    }
}

/// An estimate moves towards a measurement that is in bounds, never past it.
pub proof fn law_estimates_approach_the_measurement(prev: u32, measured: u32)
    requires
        BUDGET_MIN_US <= prev <= BUDGET_MAX_US,
        BUDGET_MIN_US <= measured <= BUDGET_MAX_US,
    ensures
        prev <= measured ==> prev <= adapted(prev, measured) <= measured,
        measured <= prev ==> measured <= adapted(prev, measured) <= prev,
        prev == measured ==> adapted(prev, measured) == prev,
{
}

/// The queue on which jobs run.
#[derive(Clone, Copy, Debug, PartialEq, Eq, Structural)]
pub struct ComputeQueuePick {
    pub tier: Tier,
    pub family: u32,
    pub queue_index: u32,
    /// Queues that the device must make in the graphics family.
    pub graphics_queues: u32,
}

/// Queues that graphics and transfers use in the graphics family.
pub open spec fn graphics_share(transfer_tier: Tier) -> u32 {
    if transfer_tier == Tier::SecondQueueSameFamily {
        2
    } else {
        1
    }
}

/// The queue of a compute family: its first, or its second where transfers have
/// the first.
pub open spec fn dedicated_index(
    graphics_family: u32,
    transfer_tier: Tier,
    transfer_family: u32,
    transfer_queue_count: u32,
    dedicated_compute: Option<(u32, u32)>,
) -> Option<u32> {
    match dedicated_compute {
        Some((family, queues)) => if family == graphics_family {
            None
        } else if family == transfer_family && transfer_tier == Tier::DedicatedFamily {
            if queues >= 2 && transfer_queue_count >= 2 {
                Some(1u32)
            } else {
                None
            }
        } else {
            Some(0u32)
        },
        None => None,
    }
}

/// The queue for jobs: of a compute family of its own where there is one to spare,
/// else another one of the graphics family, else none.
pub open spec fn picked_queue(
    graphics_family: u32,
    graphics_queue_count: u32,
    transfer_tier: Tier,
    transfer_family: u32,
    transfer_queue_count: u32,
    dedicated_compute: Option<(u32, u32)>,
) -> ComputeQueuePick {
    let share = graphics_share(transfer_tier);
    match dedicated_index(
        graphics_family,
        transfer_tier,
        transfer_family,
        transfer_queue_count,
        dedicated_compute,
    ) {
        Some(i) => ComputeQueuePick {
            tier: Tier::DedicatedFamily,
            family: dedicated_compute->Some_0.0,
            queue_index: i,
            graphics_queues: share,
        },
        None => if graphics_queue_count > share {
            ComputeQueuePick {
                tier: Tier::SecondQueueSameFamily,
                family: graphics_family,
                queue_index: share,
                graphics_queues: (share + 1) as u32,
            }
        } else {
            ComputeQueuePick {
                tier: Tier::SameQueueFallback,
                family: graphics_family,
                queue_index: 0,
                graphics_queues: share,
            }
        },
    }
}

pub fn pick_compute_queue(
    graphics_family: u32,
    graphics_queue_count: u32,
    transfer_tier: Tier,
    transfer_family: u32,
    transfer_queue_count: u32,
    dedicated_compute: Option<(u32, u32)>,
) -> (p: ComputeQueuePick)
    ensures
        p == picked_queue(
            graphics_family,
            graphics_queue_count,
            transfer_tier,
            transfer_family,
            transfer_queue_count,
            dedicated_compute,
        ),
{
    let share: u32 = if transfer_tier == Tier::SecondQueueSameFamily {
        2
    } else {
        1
    };
    if let Some((family, queues)) = dedicated_compute {
        if family != graphics_family {
            if family == transfer_family && transfer_tier == Tier::DedicatedFamily {
                if queues >= 2 && transfer_queue_count >= 2 {
                    return ComputeQueuePick {
                        tier: Tier::DedicatedFamily,
                        family,
                        queue_index: 1,
                        graphics_queues: share,
                    };
                }
            } else {
                return ComputeQueuePick {
                    tier: Tier::DedicatedFamily,
                    family,
                    queue_index: 0,
                    graphics_queues: share,
                };
            }
        }
    }
    if graphics_queue_count > share {
        ComputeQueuePick {
            tier: Tier::SecondQueueSameFamily,
            family: graphics_family,
            queue_index: share,
            graphics_queues: share + 1,
        }
    } else {
        ComputeQueuePick {
            tier: Tier::SameQueueFallback,
            family: graphics_family,
            queue_index: 0,
            graphics_queues: share,
        }
    }
}

/// Jobs never get a queue that graphics or transfers have: on the graphics family
/// its index is past theirs, on the transfer family past the first, and the device
/// is asked for as many graphics queues as are used.
pub proof fn law_compute_queue_is_its_own(
    graphics_family: u32,
    graphics_queue_count: u32,
    transfer_tier: Tier,
    transfer_family: u32,
    transfer_queue_count: u32,
    dedicated_compute: Option<(u32, u32)>,
    p: ComputeQueuePick,
)
    requires
        transfer_tier == Tier::DedicatedFamily ==> transfer_family != graphics_family,
        transfer_tier != Tier::DedicatedFamily ==> transfer_family == graphics_family,
        p == picked_queue(
            graphics_family,
            graphics_queue_count,
            transfer_tier,
            transfer_family,
            transfer_queue_count,
            dedicated_compute,
        ),
    ensures
        p.tier != Tier::SameQueueFallback && p.family == graphics_family ==> p.queue_index
            >= graphics_share(transfer_tier) && p.queue_index < p.graphics_queues,
        p.tier == Tier::DedicatedFamily ==> p.family != graphics_family,
        p.tier == Tier::DedicatedFamily && p.family == transfer_family ==> p.queue_index == 1,
        1 <= p.graphics_queues <= 3,
{
}

/// The first memory type, of those in `type_filter`, that the shader writes and
/// the host reads from its cache.
pub fn cheap_direct_type(props: &MemoryProps, type_filter: u32) -> (found: Option<u32>)
    requires
        props.wf(),
    ensures
        match found {
            Some(i) => props.first_suitable(type_filter, DIRECT_READBACK, i as int),
            None => forall|j: int|
                0 <= j < props.types.len() ==> !#[trigger] props.suitable(
                    type_filter,
                    DIRECT_READBACK,
                    j,
                ),
        },
{
    memory::try_find_memory_type(props, type_filter, DIRECT_READBACK)
}

/// The shader can write a ring in memory of these flags directly.
pub fn is_direct(flags: u32) -> (r: bool)
    ensures
        r == memory::has_flags(flags, DIRECT_READBACK),
{
    (flags & DIRECT_READBACK) == DIRECT_READBACK
}

/// The memory type of a ring: the direct one where it is wanted and there is one,
/// else `sysmem`.
pub fn ring_memory_type(
    props: &MemoryProps,
    type_filter: u32,
    prefer_direct: bool,
    sysmem: Option<u32>,
) -> (found: Option<u32>)
    requires
        props.wf(),
    ensures
        prefer_direct && (exists|j: int|
            0 <= j < props.types.len() && #[trigger] props.suitable(
                type_filter,
                DIRECT_READBACK,
                j,
            )) ==> (found matches Some(i) && props.first_suitable(
            type_filter,
            DIRECT_READBACK,
            i as int,
        )),
        !(prefer_direct && (exists|j: int|
            0 <= j < props.types.len() && #[trigger] props.suitable(
                type_filter,
                DIRECT_READBACK,
                j,
            ))) ==> found == sysmem,
{
    if prefer_direct {
        if let Some(i) = cheap_direct_type(props, type_filter) {
            return Some(i);
        }
    }
    sysmem
}

/// Type `i` is in the filter, on the device and out of the host's sight.
pub open spec fn hidden_device_type(props: &MemoryProps, type_filter: u32, i: int) -> bool {
    props.suitable(type_filter, MEMORY_DEVICE_LOCAL, i) && !memory::has_flags(
        props.flags_of(i),
        MEMORY_HOST_VISIBLE,
    )
}

/// The memory type of scratch buffers: on the device and not mapped where there is
/// such a type, else anything on the device.
pub fn device_local_type(props: &MemoryProps, type_filter: u32) -> (found: Option<u32>)
    requires
        props.wf(),
    ensures
        match found {
            Some(i) => {
                ||| 0 <= i < props.types.len() && hidden_device_type(props, type_filter, i as int)
                    && forall|j: int|
                    0 <= j < i ==> !#[trigger] hidden_device_type(props, type_filter, j)
                ||| props.first_suitable(type_filter, MEMORY_DEVICE_LOCAL, i as int) && forall|
                    j: int,
                |
                    0 <= j < props.types.len() ==> !#[trigger] hidden_device_type(
                        props,
                        type_filter,
                        j,
                    )
            },
            None => forall|j: int|
                0 <= j < props.types.len() ==> !#[trigger] props.suitable(
                    type_filter,
                    MEMORY_DEVICE_LOCAL,
                    j,
                ),
        },
{
    let mut i: u32 = 0;
    while (i as usize) < props.types.len()
        invariant
            props.wf(),
            i <= props.types.len(),
            forall|j: int| 0 <= j < i ==> !#[trigger] hidden_device_type(props, type_filter, j),
        decreases props.types.len() - i,
    {
        let flags: u32 = props.types[i as usize].flags;
        let wanted: bool = (type_filter & (1u32 << i)) != 0 && (flags & MEMORY_DEVICE_LOCAL)
            == MEMORY_DEVICE_LOCAL && (flags & MEMORY_HOST_VISIBLE) != MEMORY_HOST_VISIBLE;
        if wanted {
            proof {
                assert(hidden_device_type(props, type_filter, i as int));
            }
            return Some(i);
        }
        i = i + 1;
    }
    memory::try_find_memory_type(props, type_filter, MEMORY_DEVICE_LOCAL)
}

/// What the device allows of a kind and of a job.
#[derive(Clone, Copy, Debug)]
pub struct ComputeLimits {
    pub max_work_group_invocations: u32,
    pub max_work_group_size: [u32; 3],
    pub max_work_group_count: [u32; 3],
    pub max_push: u32,
}

/// The push constants are too many or not whole words.
pub open spec fn bad_push(push_bytes: u32, max_push: u32) -> bool {
    push_bytes > MAX_PUSH_BYTES || push_bytes > max_push || push_bytes % 4 != 0
}

/// The workgroup is empty or larger than the device allows.
pub open spec fn bad_workgroup(wg: Seq<u32>, limits: &ComputeLimits) -> bool {
    ||| wg[0] == 0 || wg[1] == 0 || wg[2] == 0
    ||| wg[0] > limits.max_work_group_size[0] || wg[1] > limits.max_work_group_size[1] || wg[2]
        > limits.max_work_group_size[2]
    ||| volume(wg) > limits.max_work_group_invocations
}

/// Invocations of a workgroup, no more than 32 bits hold.
pub open spec fn volume(wg: Seq<u32>) -> int {
    if wg[0] * wg[1] * wg[2] > u32::MAX {
        u32::MAX as int
    } else {
        wg[0] * wg[1] * wg[2]
    }
}

/// The first part of a description that is invalid.
pub open spec fn invalid_part(desc: &ComputeDescOwned, limits: &ComputeLimits, readback_cap: u64) -> Option<
    Seq<char>,
> {
    if desc.spirv.len() == 0 {
        Some("spirv"@)
    } else if desc.entry@.len() == 0 {
        Some("entry"@)
    } else if bad_push(desc.push_bytes, limits.max_push) {
        Some("push_bytes"@)
    } else if desc.inputs > MAX_INPUTS {
        Some("inputs"@)
    } else if desc.output_bytes_max == 0 || desc.output_bytes_max > readback_cap {
        Some("output_bytes_max"@)
    } else if bad_workgroup(desc.workgroup@, limits) {
        Some("workgroup"@)
    } else {
        None
    }
}

/// `r` is what a check comes to that finds `part` invalid.
pub open spec fn refused_part<T>(r: Result<T, EngineError>, part: Seq<char>) -> bool {
    r matches Err(EngineError::Invalid(p)) && p@ == part
}

/// The product of three counts, no more than 32 bits hold.
fn capped_volume(a: u32, b: u32, c: u32) -> (r: u32)
    requires
        a > 0,
        b > 0,
        c > 0,
    ensures
        r == if a * b * c > u32::MAX {
            u32::MAX as int
        } else {
            a * b * c
        },
{
    proof {
        assert(a * b <= u32::MAX * u32::MAX) by (nonlinear_arith)
            requires
                0 <= a <= u32::MAX,
                0 <= b <= u32::MAX,
        ;
        assert(a * b >= 1) by (nonlinear_arith)
            requires
                a > 0,
                b > 0,
        ;
    }
    let ab: u64 = a as u64 * b as u64;
    if ab > u32::MAX as u64 {
        proof {
            assert(a * b * c >= a * b) by (nonlinear_arith)
                requires
                    a * b >= 1,
                    c > 0,
            ;
        }
        return u32::MAX;
    }
    proof {
        assert(ab * c <= u32::MAX * u32::MAX) by (nonlinear_arith)
            requires
                0 <= ab <= u32::MAX,
                0 <= c <= u32::MAX,
        ;
    }
    let abc: u64 = ab * c as u64;
    if abc > u32::MAX as u64 {
        u32::MAX
    } else {
        abc as u32
    }
}

/// Checks a description against what the device allows.
pub fn validate_desc(desc: &ComputeDescOwned, limits: &ComputeLimits, readback_cap: u64) -> (r: Result<
    (),
    EngineError,
>)
    ensures
        match invalid_part(desc, limits, readback_cap) {
            Some(part) => refused_part(r, part),
            None => r is Ok,
        },
{
    if desc.spirv.len() == 0 {
        return Err(EngineError::Invalid("spirv"));
    }
    if desc.entry.as_str().unicode_len() == 0 {
        return Err(EngineError::Invalid("entry"));
    }
    if desc.push_bytes > MAX_PUSH_BYTES || desc.push_bytes > limits.max_push || desc.push_bytes % 4
        != 0 {
        return Err(EngineError::Invalid("push_bytes"));
    }
    if desc.inputs > MAX_INPUTS {
        return Err(EngineError::Invalid("inputs"));
    }
    if desc.output_bytes_max == 0 || desc.output_bytes_max as u64 > readback_cap {
        return Err(EngineError::Invalid("output_bytes_max"));
    }
    let x: u32 = desc.workgroup[0];
    let y: u32 = desc.workgroup[1];
    let z: u32 = desc.workgroup[2];
    if x == 0 || y == 0 || z == 0 {
        return Err(EngineError::Invalid("workgroup"));
    }
    if x > limits.max_work_group_size[0] || y > limits.max_work_group_size[1] || z
        > limits.max_work_group_size[2] {
        return Err(EngineError::Invalid("workgroup"));
    }
    if capped_volume(x, y, z) > limits.max_work_group_invocations {
        return Err(EngineError::Invalid("workgroup"));
    }
    Ok(())
}

/// A capped product is the product while 64 bits hold it, and never more than they hold.
pub proof fn law_a_capped_product_never_wraps(a: int, b: int)
    requires
        0 <= a,
        0 <= b,
    ensures
        0 <= capped_product(a, b) <= u64::MAX,
        a * b <= u64::MAX ==> capped_product(a, b) == a * b,
        a * b > u64::MAX ==> capped_product(a, b) == u64::MAX,
{
    assert(0 <= a * b) by (nonlinear_arith)
        requires
            0 <= a,
            0 <= b,
    ;
}

/// A description that no part is held against can run: it has a shader and an entry, whole
/// words of push constants within both limits, at most two inputs, an output that the
/// readback takes, and a workgroup that the device runs.
pub proof fn law_a_valid_kind_can_run(
    desc: &ComputeDescOwned,
    limits: &ComputeLimits,
    readback_cap: u64,
)
    ensures
        invalid_part(desc, limits, readback_cap) is None <==> {
            &&& desc.spirv.len() > 0
            &&& desc.entry@.len() > 0
            &&& desc.push_bytes <= MAX_PUSH_BYTES && desc.push_bytes <= limits.max_push
                && desc.push_bytes % 4 == 0
            &&& desc.inputs <= 2
            &&& 0 < desc.output_bytes_max <= readback_cap
            &&& forall|a: int| 0 <= a < 3 ==> 0 < #[trigger] desc.workgroup@[a]
                <= limits.max_work_group_size@[a]
            &&& volume(desc.workgroup@) <= limits.max_work_group_invocations
        },
{
    if invalid_part(desc, limits, readback_cap) is None {
        assert(desc.workgroup@[0] > 0 && desc.workgroup@[1] > 0 && desc.workgroup@[2] > 0);
    }
    if forall|a: int| 0 <= a < 3 ==> 0 < #[trigger] desc.workgroup@[a]
        <= limits.max_work_group_size@[a] {
        assert(0 < desc.workgroup@[0] <= limits.max_work_group_size@[0]);
        assert(0 < desc.workgroup@[1] <= limits.max_work_group_size@[1]);
        assert(0 < desc.workgroup@[2] <= limits.max_work_group_size@[2]);
    }
}

/// A hidden type is allowed, on the device, and cannot be mapped.
pub proof fn law_a_hidden_type_is_not_mapped(props: &MemoryProps, filter: u32, i: int)
    requires
        0 <= i < 32,
    ensures
        hidden_device_type(props, filter, i) <==> (filter >> (i as u32)) & 1 == 1
            && props.types[i].flags & 1 == 1 && props.types[i].flags & 2 == 0,
{
    let a = i as u32;
    let f = props.types[i].flags;
    assert((filter & (1u32 << a) != 0) == ((filter >> a) & 1 == 1)) by (bit_vector)
        requires
            a < 32,
    ;
    assert((f & 2 == 2) == !(f & 2 == 0)) by (bit_vector);
}

} // verus!
