//! GPU pass timing and pipeline statistics by queries.
//!
//! A slot's queries are read one ring later, when its fence was waited for, so a
//! read never stalls. Times are device ticks; the caller knows how long a tick is.

use vstd::prelude::*;

use crate::commands::{Cmd, STAGE_BOTTOM_OF_PIPE, STAGE_TOP_OF_PIPE};
use crate::playback;
use crate::playback::Gpu;
use crate::rev::FRAMES_IN_FLIGHT;

verus! {

/// A boundary between passes, in record order. Every span of the render commands
/// ends at one of these.
#[derive(Clone, Copy, Debug, PartialEq, Eq, Structural)]
pub enum GpuPass {
    Copies,
    Cull,
    ShadowMap,
    Clear,
    OpaqueFull,
    OpaqueLod,
    Cutout,
    Sky,
    Cubes,
    Lines,
    Shadows,
    Transparent,
    Overlay,
    Resolve,
    Vrs,
    Taa,
    Exposure,
    Bloom,
}

/// The profile meter of a pass.
#[derive(Clone, Copy, Debug, PartialEq, Eq, Structural)]
pub enum Meter {
    GpuCopies,
    GpuCull,
    GpuShadowMap,
    GpuClear,
    GpuOpaqueFull,
    GpuOpaqueLod,
    GpuCutout,
    GpuSky,
    GpuCubes,
    GpuLines,
    GpuShadows,
    GpuTransparent,
    GpuOverlay,
    GpuResolve,
    GpuVrs,
    GpuTaa,
    GpuExposure,
    GpuBloom,
}

/// Passes that are told apart.
pub const GPU_PASSES: usize = 18;

/// One start stamp and one boundary per pass.
pub const GPU_STAMPS: usize = 19;

/// The present copy's pair of stamps, behind the render ranges of the slots.
pub const COPY_STAMP_BASE: u32 = 57;

/// Two frame-boundary stamps per slot, behind the copy pair.
pub const LOAD_STAMP_BASE: u32 = 59;

pub const LOAD_STAMPS: u32 = 2;

pub const QUERY_COUNT: u32 = 65;

/// All passes in record order.
pub open spec fn all_passes() -> Seq<GpuPass> {
    seq![
        GpuPass::Copies,
        GpuPass::Cull,
        GpuPass::ShadowMap,
        GpuPass::Clear,
        GpuPass::OpaqueFull,
        GpuPass::OpaqueLod,
        GpuPass::Cutout,
        GpuPass::Sky,
        GpuPass::Cubes,
        GpuPass::Lines,
        GpuPass::Shadows,
        GpuPass::Transparent,
        GpuPass::Overlay,
        GpuPass::Resolve,
        GpuPass::Vrs,
        GpuPass::Taa,
        GpuPass::Exposure,
        GpuPass::Bloom,
    ]
}

impl GpuPass {
    pub fn all() -> (r: [GpuPass; GPU_PASSES])
        ensures
            r@ == all_passes(),
    {
        let r: [GpuPass; GPU_PASSES] = [
            GpuPass::Copies,
            GpuPass::Cull,
            GpuPass::ShadowMap,
            GpuPass::Clear,
            GpuPass::OpaqueFull,
            GpuPass::OpaqueLod,
            GpuPass::Cutout,
            GpuPass::Sky,
            GpuPass::Cubes,
            GpuPass::Lines,
            GpuPass::Shadows,
            GpuPass::Transparent,
            GpuPass::Overlay,
            GpuPass::Resolve,
            GpuPass::Vrs,
            GpuPass::Taa,
            GpuPass::Exposure,
            GpuPass::Bloom,
        ];
        proof {
            assert(r@ =~= all_passes());
        }
        r
    }

    #[verifier::allow_in_spec]
    pub fn meter(self) -> Meter
        returns
            (match self {
                GpuPass::Copies => Meter::GpuCopies,
                GpuPass::Cull => Meter::GpuCull,
                GpuPass::ShadowMap => Meter::GpuShadowMap,
                GpuPass::Clear => Meter::GpuClear,
                GpuPass::OpaqueFull => Meter::GpuOpaqueFull,
                GpuPass::OpaqueLod => Meter::GpuOpaqueLod,
                GpuPass::Cutout => Meter::GpuCutout,
                GpuPass::Sky => Meter::GpuSky,
                GpuPass::Cubes => Meter::GpuCubes,
                GpuPass::Lines => Meter::GpuLines,
                GpuPass::Shadows => Meter::GpuShadows,
                GpuPass::Transparent => Meter::GpuTransparent,
                GpuPass::Overlay => Meter::GpuOverlay,
                GpuPass::Resolve => Meter::GpuResolve,
                GpuPass::Vrs => Meter::GpuVrs,
                GpuPass::Taa => Meter::GpuTaa,
                GpuPass::Exposure => Meter::GpuExposure,
                GpuPass::Bloom => Meter::GpuBloom,
            }),
    {
        match self {
            GpuPass::Copies => Meter::GpuCopies,
            GpuPass::Cull => Meter::GpuCull,
            GpuPass::ShadowMap => Meter::GpuShadowMap,
            GpuPass::Clear => Meter::GpuClear,
            GpuPass::OpaqueFull => Meter::GpuOpaqueFull,
            GpuPass::OpaqueLod => Meter::GpuOpaqueLod,
            GpuPass::Cutout => Meter::GpuCutout,
            GpuPass::Sky => Meter::GpuSky,
            GpuPass::Cubes => Meter::GpuCubes,
            GpuPass::Lines => Meter::GpuLines,
            GpuPass::Shadows => Meter::GpuShadows,
            GpuPass::Transparent => Meter::GpuTransparent,
            GpuPass::Overlay => Meter::GpuOverlay,
            GpuPass::Resolve => Meter::GpuResolve,
            GpuPass::Vrs => Meter::GpuVrs,
            GpuPass::Taa => Meter::GpuTaa,
            GpuPass::Exposure => Meter::GpuExposure,
            GpuPass::Bloom => Meter::GpuBloom,
        }
    }
}

/// Every pass has a meter of its own.
pub proof fn law_meters_are_distinct(a: GpuPass, b: GpuPass)
    ensures
        a.meter() == b.meter() ==> a == b,
{
}

/// First query of a slot's render range.
pub open spec fn stamp_base(slot: int) -> int {
    slot * GPU_STAMPS
}

/// Query `i` of a slot's frame-boundary pair.
pub open spec fn load_query_spec(slot: int, i: int) -> int {
    LOAD_STAMP_BASE + slot * LOAD_STAMPS + i
}

pub fn load_query(slot: usize, i: u32) -> (q: u32)
    requires
        slot < FRAMES_IN_FLIGHT,
        i < LOAD_STAMPS,
    ensures
        q == load_query_spec(slot as int, i as int),
{
    LOAD_STAMP_BASE + slot as u32 * LOAD_STAMPS + i
}

fn stamp_query(slot: usize, i: u32) -> (q: u32)
    requires
        slot < FRAMES_IN_FLIGHT,
        i < GPU_STAMPS,
    ensures
        q == stamp_base(slot as int) + i,
{
    (slot * GPU_STAMPS) as u32 + i
}

/// No two uses share a query: the slots' render ranges, the copy pair and the
/// slots' boundary pairs follow one another, and the last one ends the pool.
pub proof fn law_query_ranges_are_apart(a: int, b: int, i: int, j: int)
    requires
        0 <= a < FRAMES_IN_FLIGHT,
        0 <= b < FRAMES_IN_FLIGHT,
        0 <= i < GPU_STAMPS,
        0 <= j < LOAD_STAMPS,
    ensures
        0 <= stamp_base(a) + i < COPY_STAMP_BASE,
        a < b ==> stamp_base(a) + i < stamp_base(b),
        COPY_STAMP_BASE + 1 < load_query_spec(a, j),
        a < b ==> load_query_spec(a, j) < load_query_spec(b, 0),
        load_query_spec(a, j) < QUERY_COUNT,
{
}

/// Bits of the last frame's busy time and of the idle gap before it.
#[derive(Clone, Copy, Debug, PartialEq, Eq, Structural)]
pub struct GpuLoad {
    pub frame_ms: u32,
    pub gap_ms: u32,
}

/// The published GPU load, in one cell. Off until it is enabled.
#[derive(Debug)]
pub struct GpuLoadShared {
    frame: u32,
    gap: u32,
    ready: bool,
    enabled: bool,
}

impl GpuLoadShared {
    /// Whether samples are published.
    pub closed spec fn on(&self) -> bool {
        self.enabled
    }

    /// The sample of the current stretch of being enabled, if there was one.
    pub closed spec fn sample(&self) -> Option<GpuLoad> {
        if self.ready {
            Some(GpuLoad { frame_ms: self.frame, gap_ms: self.gap })
        } else {
            None
        }
    }

    /// Nothing is held while off.
    pub closed spec fn wf(&self) -> bool {
        self.ready ==> self.enabled
    }

    pub fn new() -> (s: GpuLoadShared)
        ensures
            s.wf(),
            !s.on(),
            s.sample() is None,
    {
        GpuLoadShared { frame: 0, gap: 0, ready: false, enabled: false }
    }

    pub fn is_enabled(&self) -> (r: bool)
        ensures
            r == self.on(),
    {
        self.enabled
    }

    /// Switching off forgets the sample; switching on does not invent one.
    pub fn set_enabled(&mut self, on: bool)
        requires
            old(self).wf(),
        ensures
            final(self).wf(),
            final(self).on() == on,
            final(self).sample() == if on {
                old(self).sample()
            } else {
                None
            },
    {
        self.enabled = on;
        if !on {
            self.ready = false;
        }
    }

    /// Publishes a sample, unless off.
    pub fn store(&mut self, frame_ms: u32, gap_ms: u32)
        requires
            old(self).wf(),
        ensures
            final(self).wf(),
            final(self).on() == old(self).on(),
            final(self).sample() == if old(self).on() {
                Some(GpuLoad { frame_ms, gap_ms })
            } else {
                old(self).sample()
            },
    {
        if !self.enabled {
            return ;
        }
        self.frame = frame_ms;
        self.gap = gap_ms;
        self.ready = true;
    }

    pub fn load(&self) -> (r: Option<GpuLoad>)
        ensures
            r == if self.on() {
                self.sample()
            } else {
                None
            },
    {
        if !self.enabled {
            return None;
        }
        if !self.ready {
            return None;
        }
        Some(GpuLoad { frame_ms: self.frame, gap_ms: self.gap })
    }
}

/// Nothing is readable while publishing is off, nor after it was switched off and
/// on again until the next sample.
pub proof fn law_off_forgets_the_load(s: GpuLoadShared, off: GpuLoadShared, on: GpuLoadShared)
    requires
        s.wf(),
        off.wf() && !off.on() && off.sample() is None,
        on.wf() && on.on() && on.sample() == off.sample(),
    ensures
        !s.on() ==> s.sample() is None,
        on.sample() is None,
{
}

/// Ticks from `a` to `b` on a clock that may wrap.
pub open spec fn ticks_between(a: u64, b: u64) -> u64 {
    if b >= a {
        (b - a) as u64
    } else {
        (b - a + 0x1_0000_0000_0000_0000) as u64
    }
}

/// Ticks the device idled between the end of one submit and the start of the next;
/// none where they overlap.
pub open spec fn idle_ticks_spec(prev_end: u64, this_start: u64) -> u64 {
    if this_start <= prev_end {
        0
    } else {
        (this_start - prev_end) as u64
    }
}

pub fn idle_gap_ticks(prev_end: u64, this_start: u64) -> (r: u64)
    ensures
        r == idle_ticks_spec(prev_end, this_start),
{
    if this_start <= prev_end {
        0
    } else {
        this_start - prev_end
    }
}

/// Consecutive queries to read.
#[derive(Clone, Copy, Debug, PartialEq, Eq, Structural)]
pub struct QueryRange {
    pub first: u32,
    pub count: u32,
}

/// One pass's ticks.
#[derive(Clone, Copy, Debug, PartialEq, Eq, Structural)]
pub struct Span {
    pub pass: GpuPass,
    pub ticks: u64,
}

/// A read frame: its passes and the idle gap before it, unless it is the first.
pub struct FrameTicks {
    pub spans: Vec<Span>,
    pub gap: Option<u64>,
}

/// A read boundary pair: the frame's ticks and the idle gap before it, zero for the
/// first.
#[derive(Clone, Copy, Debug, PartialEq, Eq, Structural)]
pub struct LoadTicks {
    pub frame: u64,
    pub gap: u64,
}

/// One slot's stamps.
pub struct SlotStamps {
    /// The slot holds completed stamps.
    pub primed: bool,
    /// One entry per written stamp: the pass that ended there.
    pub labels: Vec<GpuPass>,
    /// The open span recorded work.
    pub pending: bool,
    /// The slot holds a completed boundary pair.
    pub load_primed: bool,
    /// The pair's first stamp was written.
    pub load_open: bool,
}

/// Stamps per pass and per frame. Without a pool, every method does nothing.
pub struct GpuTimer {
    pub pool: u64,
    /// Queries are reset by the host, not by a command.
    pub host_reset: bool,
    pub slots: Vec<SlotStamps>,
    pub copy_primed: bool,
    /// Last stamp of the frame read before, unless a frame in between could not be
    /// read.
    pub prev_end: Option<u64>,
    pub load_prev_end: Option<u64>,
}

/// The spans between the stamps `ts`, each of the pass that ended it.
pub open spec fn spans_of(labels: Seq<GpuPass>, ts: Seq<u64>) -> Seq<Span> {
    Seq::new(
        if ts.len() == 0 {
            0
        } else {
            (ts.len() - 1) as nat
        },
        |i: int| Span { pass: labels[i + 1], ticks: ticks_between(ts[i], ts[i + 1]) },
    )
}

/// The idle gap before a frame that starts at `start`.
pub open spec fn gap_before(prev_end: Option<u64>, start: u64) -> Option<u64> {
    match prev_end {
        Some(end) => Some(idle_ticks_spec(end, start)),
        None => None,
    }
}

/// The reset of `count` queries.
pub open spec fn reset_cmd(pool: u64, host_reset: bool, first: u32, count: u32) -> Cmd {
    if host_reset {
        Cmd::HostResetQueries { pool, first, count }
    } else {
        Cmd::ResetQueries { pool, first, count }
    }
}

fn reset_queries(pool: u64, host_reset: bool, first: u32, count: u32) -> (c: Cmd)
    ensures
        c == reset_cmd(pool, host_reset, first, count),
{
    if host_reset {
        Cmd::HostResetQueries { pool, first, count }
    } else {
        Cmd::ResetQueries { pool, first, count }
    }
}

impl GpuTimer {
    pub open spec fn wf(&self) -> bool {
        &&& self.slots.len() == FRAMES_IN_FLIGHT
        &&& forall|s: int|
            0 <= s < self.slots.len() ==> (#[trigger] self.slots[s]).labels.len() <= GPU_STAMPS
    }

    pub open spec fn on(&self) -> bool {
        self.pool != 0
    }

    /// Everything but slot `s` is as in `other`.
    pub open spec fn same_but(&self, other: GpuTimer, s: int) -> bool {
        &&& self.pool == other.pool
        &&& self.host_reset == other.host_reset
        &&& self.copy_primed == other.copy_primed
        &&& self.prev_end == other.prev_end
        &&& self.load_prev_end == other.load_prev_end
        &&& self.slots.len() == other.slots.len()
        &&& forall|t: int| 0 <= t < self.slots.len() && t != s ==> self.slots[t] == other.slots[t]
    }

    /// A timer over `pool`, which is zero where there are no timestamps.
    pub fn new(pool: u64, host_reset: bool) -> (t: GpuTimer)
        ensures
            t.wf(),
            t.pool == pool,
            t.host_reset == host_reset,
            forall|s: int|
                0 <= s < FRAMES_IN_FLIGHT ==> {
                    let x = #[trigger] t.slots[s];
                    !x.primed && !x.pending && !x.load_primed && !x.load_open && x.labels.len() == 0
                },
            !t.copy_primed,
            t.prev_end is None,
            t.load_prev_end is None,
    {
        let mut slots: Vec<SlotStamps> = Vec::new();
        while slots.len() < FRAMES_IN_FLIGHT
            invariant
                slots.len() <= FRAMES_IN_FLIGHT,
                forall|s: int|
                    0 <= s < slots.len() ==> {
                        let x = #[trigger] slots[s];
                        !x.primed && !x.pending && !x.load_primed && !x.load_open && x.labels.len()
                            == 0
                    },
            decreases FRAMES_IN_FLIGHT - slots.len(),
        {
            slots.push(
                SlotStamps {
                    primed: false,
                    labels: Vec::new(),
                    pending: false,
                    load_primed: false,
                    load_open: false,
                },
            );
        }
        GpuTimer {
            pool,
            host_reset,
            slots,
            copy_primed: false,
            prev_end: None,
            load_prev_end: None,
        }
    }

    pub fn enabled(&self) -> (r: bool)
        ensures
            r == self.on(),
    {
        self.pool != 0
    }

    /// The stamps of `slot` to read, if its last frame has any. A frame with no
    /// span leaves a hole: the next gap is not measured across it.
    pub fn plan_read(&mut self, slot: usize) -> (r: Option<QueryRange>)
        requires
            old(self).wf(),
            slot < FRAMES_IN_FLIGHT,
        ensures
            final(self).wf(),
            ({
                let s = old(self).slots[slot as int];
                let due = old(self).on() && s.primed;
                &&& r == if due && s.labels.len() >= 2 {
                    Some(
                        QueryRange {
                            first: stamp_base(slot as int) as u32,
                            count: s.labels.len() as u32,
                        },
                    )
                } else {
                    None
                }
                &&& final(self).prev_end == if due && s.labels.len() < 2 {
                    None
                } else {
                    old(self).prev_end
                }
                &&& *final(self) == (GpuTimer { prev_end: final(self).prev_end, ..*old(self) })
            }),
    {
        if !self.enabled() || !self.slots[slot].primed {
            return None;
        }
        let n: usize = self.slots[slot].labels.len();
        if n < 2 {
            self.prev_end = None;
            return None;
        }
        Some(QueryRange { first: stamp_query(slot, 0), count: n as u32 })
    }

    /// Takes the stamps that [`Self::plan_read`] asked for, or notes that they could
    /// not be read.
    pub fn take_read(&mut self, slot: usize, stamps: Option<Vec<u64>>) -> (r: Option<FrameTicks>)
        requires
            old(self).wf(),
            slot < FRAMES_IN_FLIGHT,
            stamps matches Some(ts) ==> ts.len() == old(self).slots[slot as int].labels.len()
                && ts.len() >= 2,
        ensures
            final(self).wf(),
            *final(self) == (GpuTimer { prev_end: final(self).prev_end, ..*old(self) }),
            match stamps {
                None => r is None && final(self).prev_end is None,
                Some(ts) => (r matches Some(f) && f.spans@ == spans_of(
                    old(self).slots[slot as int].labels@,
                    ts@,
                ) && f.gap == gap_before(old(self).prev_end, ts[0])) && final(self).prev_end
                    == Some(ts@.last()),
            },
    {
        let ts: Vec<u64> = match stamps {
            None => {
                self.prev_end = None;
                return None;
            },
            Some(ts) => ts,
        };
        let n: usize = ts.len();
        let mut spans: Vec<Span> = Vec::new();
        let ghost labels = self.slots[slot as int].labels@;
        let mut i: usize = 1;
        proof {
            assert(spans@ =~= spans_of(labels, ts@.take(1)));
        }
        while i < n
            invariant
                1 <= i <= n,
                n == ts.len(),
                self.wf(),
                slot < FRAMES_IN_FLIGHT,
                labels == self.slots[slot as int].labels@,
                n == labels.len(),
                spans@ == spans_of(labels, ts@.take(i as int)),
            decreases n - i,
        {
            let ticks: u64 = ts[i].wrapping_sub(ts[i - 1]);
            spans.push(Span { pass: self.slots[slot].labels[i], ticks });
            i = i + 1;
            proof {
                assert(ticks == ticks_between(ts@[i - 2], ts@[i - 1]));
                assert(spans@ =~= spans_of(labels, ts@.take(i as int)));
            }
        }
        proof {
            assert(ts@.take(n as int) =~= ts@);
        }
        let gap: Option<u64> = match self.prev_end {
            Some(end) => Some(idle_gap_ticks(end, ts[0])),
            None => None,
        };
        self.prev_end = Some(ts[n - 1]);
        Some(FrameTicks { spans, gap })
    }

    /// Begins the frame in `slot`: resets its stamps and writes the start.
    pub fn begin(&mut self, cmds: &mut Vec<Cmd>, slot: usize)
        requires
            old(self).wf(),
            slot < FRAMES_IN_FLIGHT,
        ensures
            final(self).wf(),
            !old(self).on() ==> *final(self) == *old(self) && final(cmds)@ == old(cmds)@,
            old(self).on() ==> {
                let base = stamp_base(slot as int) as u32;
                &&& final(cmds)@ == old(cmds)@ + seq![
                    reset_cmd(old(self).pool, old(self).host_reset, base, GPU_STAMPS as u32),
                    Cmd::WriteTimestamp {
                        pool: old(self).pool,
                        query: base,
                        stage: STAGE_TOP_OF_PIPE,
                    },
                ]
                &&& final(self).same_but(*old(self), slot as int)
                &&& final(self).slots[slot as int].labels.len() == 1
                &&& !final(self).slots[slot as int].pending
                &&& final(self).slots[slot as int].primed == old(self).slots[slot as int].primed
                &&& final(self).slots[slot as int].load_primed
                    == old(self).slots[slot as int].load_primed
                &&& final(self).slots[slot as int].load_open
                    == old(self).slots[slot as int].load_open
            },
    {
        if !self.enabled() {
            return ;
        }
        let ghost orig = cmds@;
        let base: u32 = stamp_query(slot, 0);
        cmds.push(reset_queries(self.pool, self.host_reset, base, GPU_STAMPS as u32));
        cmds.push(
            Cmd::WriteTimestamp { pool: self.pool, query: base, stage: STAGE_TOP_OF_PIPE },
        );
        let mut labels: Vec<GpuPass> = Vec::new();
        labels.push(GpuPass::Copies);
        self.slots[slot].labels = labels;
        self.slots[slot].pending = false;
        proof {
            assert(cmds@ =~= orig + seq![
                reset_cmd(self.pool, self.host_reset, base, GPU_STAMPS as u32),
                Cmd::WriteTimestamp { pool: self.pool, query: base, stage: STAGE_TOP_OF_PIPE },
            ]);
        }
    }

    /// Notes that the open span recorded work.
    pub fn recorded(&mut self, slot: usize)
        requires
            old(self).wf(),
            slot < FRAMES_IN_FLIGHT,
        ensures
            final(self).wf(),
            !old(self).on() ==> *final(self) == *old(self),
            old(self).on() ==> final(self).same_but(*old(self), slot as int)
                && final(self).slots[slot as int] == (SlotStamps {
                pending: true,
                ..old(self).slots[slot as int]
            }),
    {
        if self.enabled() {
            self.slots[slot].pending = true;
        }
    }

    /// Closes `pass`, where its span recorded work.
    pub fn mark(&mut self, cmds: &mut Vec<Cmd>, slot: usize, pass: GpuPass)
        requires
            old(self).wf(),
            slot < FRAMES_IN_FLIGHT,
        ensures
            final(self).wf(),
            ({
                let s = old(self).slots[slot as int];
                let n = s.labels.len();
                &&& !old(self).on() || !s.pending ==> *final(self) == *old(self) && final(cmds)@
                    == old(cmds)@
                &&& old(self).on() && s.pending ==> {
                    &&& final(self).same_but(*old(self), slot as int)
                    &&& !final(self).slots[slot as int].pending
                    &&& final(self).slots[slot as int].primed == s.primed
                    &&& final(self).slots[slot as int].load_primed == s.load_primed
                    &&& final(self).slots[slot as int].load_open == s.load_open
                    &&& if n < GPU_STAMPS {
                        &&& final(self).slots[slot as int].labels@ == s.labels@.push(pass)
                        &&& final(cmds)@ == old(cmds)@.push(
                            Cmd::WriteTimestamp {
                                pool: old(self).pool,
                                query: (stamp_base(slot as int) + n) as u32,
                                stage: STAGE_BOTTOM_OF_PIPE,
                            },
                        )
                    } else {
                        &&& final(self).slots[slot as int].labels@ == s.labels@
                        &&& final(cmds)@ == old(cmds)@
                    }
                }
            }),
    {
        if !self.enabled() || !self.slots[slot].pending {
            return ;
        }
        self.slots[slot].pending = false;
        let n: usize = self.slots[slot].labels.len();
        if n >= GPU_STAMPS {
            return ;
        }
        cmds.push(
            Cmd::WriteTimestamp {
                pool: self.pool,
                query: stamp_query(slot, n as u32),
                stage: STAGE_BOTTOM_OF_PIPE,
            },
        );
        self.slots[slot].labels.push(pass);
    }

    /// The boundary pair of `slot` to read, if its last frame wrote one. While
    /// publishing is off, an unread pair is dropped.
    pub fn plan_load(&mut self, slot: usize, load_enabled: bool) -> (r: Option<QueryRange>)
        requires
            old(self).wf(),
            slot < FRAMES_IN_FLIGHT,
        ensures
            final(self).wf(),
            ({
                let due = old(self).on() && old(self).slots[slot as int].load_primed;
                &&& r == if due && load_enabled {
                    Some(
                        QueryRange {
                            first: load_query_spec(slot as int, 0) as u32,
                            count: LOAD_STAMPS,
                        },
                    )
                } else {
                    None
                }
                &&& !due || load_enabled ==> *final(self) == *old(self)
                &&& due && !load_enabled ==> {
                    &&& final(self).load_prev_end is None
                    &&& final(self).same_but(
                        GpuTimer { load_prev_end: None, ..*old(self) },
                        slot as int,
                    )
                    &&& final(self).slots[slot as int] == (SlotStamps {
                        load_primed: false,
                        ..old(self).slots[slot as int]
                    })
                }
            }),
    {
        if !self.enabled() || !self.slots[slot].load_primed {
            return None;
        }
        if !load_enabled {
            self.slots[slot].load_primed = false;
            self.load_prev_end = None;
            return None;
        }
        Some(QueryRange { first: load_query(slot, 0), count: LOAD_STAMPS })
    }

    /// Takes the pair that [`Self::plan_load`] asked for, or notes that it could not
    /// be read.
    pub fn take_load(&mut self, stamps: Option<(u64, u64)>) -> (r: Option<LoadTicks>)
        requires
            old(self).wf(),
        ensures
            final(self).wf(),
            *final(self) == (GpuTimer { load_prev_end: final(self).load_prev_end, ..*old(self) }),
            match stamps {
                None => r is None && final(self).load_prev_end is None,
                Some((top, bottom)) => r == Some(
                    LoadTicks {
                        frame: ticks_between(top, bottom),
                        gap: match gap_before(old(self).load_prev_end, top) {
                            Some(gap) => gap,
                            None => 0,
                        },
                    },
                ) && final(self).load_prev_end == Some(bottom),
            },
    {
        let (top, bottom): (u64, u64) = match stamps {
            None => {
                self.load_prev_end = None;
                return None;
            },
            Some(pair) => pair,
        };
        let frame: u64 = bottom.wrapping_sub(top);
        let gap: u64 = match self.load_prev_end {
            Some(end) => idle_gap_ticks(end, top),
            None => 0,
        };
        self.load_prev_end = Some(bottom);
        proof {
            assert(frame == ticks_between(top, bottom));
        }
        Some(LoadTicks { frame, gap })
    }

    /// Opens the boundary pair of `slot`, while publishing is on.
    pub fn begin_load(&mut self, cmds: &mut Vec<Cmd>, slot: usize, load_enabled: bool)
        requires
            old(self).wf(),
            slot < FRAMES_IN_FLIGHT,
        ensures
            final(self).wf(),
            !old(self).on() || !load_enabled ==> *final(self) == *old(self) && final(cmds)@
                == old(cmds)@,
            old(self).on() && load_enabled ==> {
                let first = load_query_spec(slot as int, 0) as u32;
                &&& final(cmds)@ == old(cmds)@ + seq![
                    reset_cmd(old(self).pool, old(self).host_reset, first, LOAD_STAMPS),
                    Cmd::WriteTimestamp {
                        pool: old(self).pool,
                        query: first,
                        stage: STAGE_TOP_OF_PIPE,
                    },
                ]
                &&& final(self).same_but(*old(self), slot as int)
                &&& final(self).slots[slot as int] == (SlotStamps {
                    load_open: true,
                    ..old(self).slots[slot as int]
                })
            },
    {
        if !self.enabled() || !load_enabled {
            return ;
        }
        let ghost orig = cmds@;
        let first: u32 = load_query(slot, 0);
        cmds.push(reset_queries(self.pool, self.host_reset, first, LOAD_STAMPS));
        cmds.push(
            Cmd::WriteTimestamp { pool: self.pool, query: first, stage: STAGE_TOP_OF_PIPE },
        );
        self.slots[slot].load_open = true;
        proof {
            assert(cmds@ =~= orig + seq![
                reset_cmd(self.pool, self.host_reset, first, LOAD_STAMPS),
                Cmd::WriteTimestamp { pool: self.pool, query: first, stage: STAGE_TOP_OF_PIPE },
            ]);
        }
    }

    /// Closes the pair that was opened, also where publishing was switched off since.
    pub fn end_load(&mut self, cmds: &mut Vec<Cmd>, slot: usize)
        requires
            old(self).wf(),
            slot < FRAMES_IN_FLIGHT,
        ensures
            final(self).wf(),
            ({
                let open = old(self).on() && old(self).slots[slot as int].load_open;
                &&& !open ==> *final(self) == *old(self) && final(cmds)@ == old(cmds)@
                &&& open ==> {
                    &&& final(cmds)@ == old(cmds)@.push(
                        Cmd::WriteTimestamp {
                            pool: old(self).pool,
                            query: load_query_spec(slot as int, 1) as u32,
                            stage: STAGE_BOTTOM_OF_PIPE,
                        },
                    )
                    &&& final(self).same_but(*old(self), slot as int)
                    &&& final(self).slots[slot as int] == (SlotStamps {
                        load_open: false,
                        load_primed: true,
                        ..old(self).slots[slot as int]
                    })
                }
            }),
    {
        if !self.enabled() || !self.slots[slot].load_open {
            return ;
        }
        cmds.push(
            Cmd::WriteTimestamp {
                pool: self.pool,
                query: load_query(slot, 1),
                stage: STAGE_BOTTOM_OF_PIPE,
            },
        );
        self.slots[slot].load_open = false;
        self.slots[slot].load_primed = true;
    }

    /// The frame in `slot` was recorded; it is readable when the slot comes round.
    pub fn finish(&mut self, slot: usize)
        requires
            old(self).wf(),
            slot < FRAMES_IN_FLIGHT,
        ensures
            final(self).wf(),
            !old(self).on() ==> *final(self) == *old(self),
            old(self).on() ==> final(self).same_but(*old(self), slot as int)
                && final(self).slots[slot as int] == (SlotStamps {
                primed: true,
                ..old(self).slots[slot as int]
            }),
    {
        if self.enabled() {
            self.slots[slot].primed = true;
        }
    }

    /// The present copy's pair to read, if there was a copy.
    pub fn plan_copy(&self) -> (r: Option<QueryRange>)
        ensures
            r == if self.on() && self.copy_primed {
                Some(QueryRange { first: COPY_STAMP_BASE, count: 2 })
            } else {
                None
            },
    {
        if !self.enabled() || !self.copy_primed {
            return None;
        }
        Some(QueryRange { first: COPY_STAMP_BASE, count: 2 })
    }

    /// Opens the present copy's pair.
    pub fn begin_copy(&self, cmds: &mut Vec<Cmd>)
        ensures
            final(cmds)@ == old(cmds)@ + if self.on() {
                seq![
                    reset_cmd(self.pool, self.host_reset, COPY_STAMP_BASE, 2),
                    Cmd::WriteTimestamp {
                        pool: self.pool,
                        query: COPY_STAMP_BASE,
                        stage: STAGE_TOP_OF_PIPE,
                    },
                ]
            } else {
                Seq::empty()
            },
    {
        if !self.enabled() {
            proof {
                assert(cmds@ =~= cmds@ + Seq::<Cmd>::empty());
            }
            return ;
        }
        let ghost orig = cmds@;
        cmds.push(reset_queries(self.pool, self.host_reset, COPY_STAMP_BASE, 2));
        cmds.push(
            Cmd::WriteTimestamp {
                pool: self.pool,
                query: COPY_STAMP_BASE,
                stage: STAGE_TOP_OF_PIPE,
            },
        );
        proof {
            assert(cmds@ =~= orig + seq![
                reset_cmd(self.pool, self.host_reset, COPY_STAMP_BASE, 2),
                Cmd::WriteTimestamp {
                    pool: self.pool,
                    query: COPY_STAMP_BASE,
                    stage: STAGE_TOP_OF_PIPE,
                },
            ]);
        }
    }

    /// Closes the present copy's pair.
    pub fn end_copy(&mut self, cmds: &mut Vec<Cmd>)
        requires
            old(self).wf(),
        ensures
            final(self).wf(),
            *final(self) == (GpuTimer {
                copy_primed: old(self).on() || old(self).copy_primed,
                ..*old(self)
            }),
            final(cmds)@ == if old(self).on() {
                old(cmds)@.push(
                    Cmd::WriteTimestamp {
                        pool: old(self).pool,
                        query: (COPY_STAMP_BASE + 1) as u32,
                        stage: STAGE_BOTTOM_OF_PIPE,
                    },
                )
            } else {
                old(cmds)@
            },
    {
        if !self.enabled() {
            return ;
        }
        cmds.push(
            Cmd::WriteTimestamp {
                pool: self.pool,
                query: COPY_STAMP_BASE + 1,
                stage: STAGE_BOTTOM_OF_PIPE,
            },
        );
        self.copy_primed = true;
    }
}

/// The ticks of all spans.
pub open spec fn total_ticks(spans: Seq<Span>) -> int
    decreases spans.len(),
{
    if spans.len() == 0 {
        0
    } else {
        total_ticks(spans.drop_last()) + spans.last().ticks
    }
}

/// The spans of a frame add up to the whole frame: nothing between the first and
/// the last stamp goes missing.
pub proof fn law_spans_add_up_to_the_frame(labels: Seq<GpuPass>, ts: Seq<u64>)
    requires
        ts.len() >= 1,
        forall|i: int, j: int| 0 <= i <= j < ts.len() ==> ts[i] <= ts[j],
    ensures
        total_ticks(spans_of(labels, ts)) == ts.last() - ts[0],
    decreases ts.len(),
{
    if ts.len() > 1 {
        let init = ts.drop_last();
        law_spans_add_up_to_the_frame(labels, init);
        assert(spans_of(labels, ts).drop_last() =~= spans_of(labels, init));
        assert(ts[ts.len() - 2] <= ts[ts.len() - 1]);
    }
}

/// A pass with pipeline statistics, in record order.
#[derive(Clone, Copy, Debug, PartialEq, Eq, Structural)]
pub enum PipeStatPass {
    OpaqueFull,
    OpaqueLod,
    Cutout,
    Sky,
    Transparent,
}

/// Passes with pipeline statistics.
pub const PIPE_STAT_PASSES: usize = 5;

pub const PIPE_QUERY_COUNT: u32 = 15;

/// Input-assembly primitives, clipping primitives and fragment invocations.
pub const PIPE_STAT_FLAGS: u32 = 0xC2;

/// The counters of one query, in the order of their bits.
#[derive(Clone, Copy, Debug, PartialEq, Eq, Structural)]
pub struct PipeStatRow {
    pub ia_prims: u64,
    pub clip_prims: u64,
    pub frag_invocs: u64,
}

impl PipeStatPass {
    /// Position in record order.
    #[verifier::allow_in_spec]
    pub fn ordinal(self) -> u32
        returns
            (match self {
                PipeStatPass::OpaqueFull => 0u32,
                PipeStatPass::OpaqueLod => 1,
                PipeStatPass::Cutout => 2,
                PipeStatPass::Sky => 3,
                PipeStatPass::Transparent => 4,
            }),
    {
        match self {
            PipeStatPass::OpaqueFull => 0,
            PipeStatPass::OpaqueLod => 1,
            PipeStatPass::Cutout => 2,
            PipeStatPass::Sky => 3,
            PipeStatPass::Transparent => 4,
        }
    }
}

/// The query of `pass` in `slot`'s range.
pub open spec fn pipe_query(slot: int, pass: PipeStatPass) -> int {
    slot * PIPE_STAT_PASSES + pass.ordinal()
}

pub fn pipe_stat_query(slot: usize, pass: PipeStatPass) -> (q: u32)
    requires
        slot < FRAMES_IN_FLIGHT,
    ensures
        q == pipe_query(slot as int, pass),
        q < PIPE_QUERY_COUNT,
{
    slot as u32 * PIPE_STAT_PASSES as u32 + pass.ordinal()
}

/// No two passes of any two slots share a query.
pub proof fn law_pipe_queries_are_apart(a: int, p: PipeStatPass, b: int, q: PipeStatPass)
    requires
        0 <= a,
        0 <= b,
        pipe_query(a, p) == pipe_query(b, q),
    ensures
        a == b,
        p == q,
{
    assert(p.ordinal() < PIPE_STAT_PASSES && q.ordinal() < PIPE_STAT_PASSES);
}

/// Fragment invocations per pass, and the clipped primitives of the first.
pub struct PipeStats {
    pub frag: [u64; PIPE_STAT_PASSES],
    pub prims_full: u64,
}

/// The counts in a slot's rows.
pub fn pipe_stats_of(rows: &[PipeStatRow; PIPE_STAT_PASSES]) -> (r: PipeStats)
    ensures
        forall|i: int| 0 <= i < PIPE_STAT_PASSES ==> #[trigger] r.frag[i] == rows[i].frag_invocs,
        r.prims_full == rows[PipeStatPass::OpaqueFull.ordinal() as int].clip_prims,
{
    let mut frag: [u64; PIPE_STAT_PASSES] = [0, 0, 0, 0, 0];
    let mut i: usize = 0;
    while i < PIPE_STAT_PASSES
        invariant
            i <= PIPE_STAT_PASSES,
            forall|k: int| 0 <= k < i ==> #[trigger] frag[k] == rows[k].frag_invocs,
        decreases PIPE_STAT_PASSES - i,
    {
        frag[i] = rows[i].frag_invocs;
        i = i + 1;
    }
    PipeStats { frag, prims_full: rows[PipeStatPass::OpaqueFull.ordinal() as usize].clip_prims }
}

/// Pipeline statistics per pass. Without a pool, every method does nothing.
pub struct GpuPipeStats {
    pub pool: u64,
    pub host_reset: bool,
    pub primed: [bool; FRAMES_IN_FLIGHT],
}

impl GpuPipeStats {
    pub open spec fn on(&self) -> bool {
        self.pool != 0
    }

    pub fn new(pool: u64, host_reset: bool) -> (s: GpuPipeStats)
        ensures
            s.pool == pool,
            s.host_reset == host_reset,
            forall|i: int| 0 <= i < FRAMES_IN_FLIGHT ==> !#[trigger] s.primed[i],
    {
        GpuPipeStats { pool, host_reset, primed: [false, false, false] }
    }

    pub fn enabled(&self) -> (r: bool)
        ensures
            r == self.on(),
    {
        self.pool != 0
    }

    /// The queries of `slot` to read, if it was ever recorded.
    pub fn plan_read(&self, slot: usize) -> (r: Option<QueryRange>)
        requires
            slot < FRAMES_IN_FLIGHT,
        ensures
            r == if self.on() && self.primed[slot as int] {
                Some(
                    QueryRange {
                        first: pipe_query(slot as int, PipeStatPass::OpaqueFull) as u32,
                        count: PIPE_STAT_PASSES as u32,
                    },
                )
            } else {
                None
            },
    {
        if !self.enabled() || !self.primed[slot] {
            return None;
        }
        Some(
            QueryRange {
                first: pipe_stat_query(slot, PipeStatPass::OpaqueFull),
                count: PIPE_STAT_PASSES as u32,
            },
        )
    }

    /// Resets the queries of `slot`.
    pub fn prepare(&self, cmds: &mut Vec<Cmd>, slot: usize)
        requires
            slot < FRAMES_IN_FLIGHT,
        ensures
            final(cmds)@ == if self.on() {
                old(cmds)@.push(
                    reset_cmd(
                        self.pool,
                        self.host_reset,
                        pipe_query(slot as int, PipeStatPass::OpaqueFull) as u32,
                        PIPE_STAT_PASSES as u32,
                    ),
                )
            } else {
                old(cmds)@
            },
    {
        if !self.enabled() {
            return ;
        }
        let first: u32 = pipe_stat_query(slot, PipeStatPass::OpaqueFull);
        cmds.push(reset_queries(self.pool, self.host_reset, first, PIPE_STAT_PASSES as u32));
    }

    pub fn begin_pass(&self, cmds: &mut Vec<Cmd>, slot: usize, pass: PipeStatPass)
        requires
            slot < FRAMES_IN_FLIGHT,
        ensures
            final(cmds)@ == if self.on() {
                old(cmds)@.push(
                    Cmd::BeginQuery {
                        pool: self.pool,
                        query: pipe_query(slot as int, pass) as u32,
                    },
                )
            } else {
                old(cmds)@
            },
    {
        if !self.enabled() {
            return ;
        }
        cmds.push(Cmd::BeginQuery { pool: self.pool, query: pipe_stat_query(slot, pass) });
    }

    pub fn end_pass(&self, cmds: &mut Vec<Cmd>, slot: usize, pass: PipeStatPass)
        requires
            slot < FRAMES_IN_FLIGHT,
        ensures
            final(cmds)@ == if self.on() {
                old(cmds)@.push(
                    Cmd::EndQuery { pool: self.pool, query: pipe_query(slot as int, pass) as u32 },
                )
            } else {
                old(cmds)@
            },
    {
        if !self.enabled() {
            return ;
        }
        cmds.push(Cmd::EndQuery { pool: self.pool, query: pipe_stat_query(slot, pass) });
    }

    /// The frame in `slot` was recorded; it is readable when the slot comes round.
    pub fn finish(&mut self, slot: usize)
        requires
            slot < FRAMES_IN_FLIGHT,
        ensures
            final(self).pool == old(self).pool,
            final(self).host_reset == old(self).host_reset,
            final(self).primed@ == if old(self).on() {
                old(self).primed@.update(slot as int, true)
            } else {
                old(self).primed@
            },
    {
        if self.enabled() {
            self.primed[slot] = true;
        }
    }
}

/// The idle gap before a submit is the time from the end of the one before, and nothing
/// where the two overlap; gap and overlap are never both there.
pub proof fn law_the_gap_ends_where_the_frame_starts(prev_end: u64, start: u64)
    ensures
        start >= prev_end ==> prev_end + idle_ticks_spec(prev_end, start) == start,
        start <= prev_end ==> idle_ticks_spec(prev_end, start) == 0,
        gap_before(None, start) is None,
        gap_before(Some(prev_end), start) == Some(idle_ticks_spec(prev_end, start)),
{
}

/// Resetting queries makes each of them ready to be written, and no other.
pub proof fn law_a_reset_readies_its_queries(
    g: Gpu,
    pool: u64,
    host_reset: bool,
    first: u32,
    count: u32,
    q: (u64, int),
    staging: Seq<u8>,
)
    ensures
        ({
            let after = playback::play(g, seq![reset_cmd(pool, host_reset, first, count)], staging);
            &&& after.stamps == g.stamps
            &&& after.clean.contains(q) <==> g.clean.contains(q) || (q.0 == pool && first <= q.1
                < first + count)
        }),
{
    playback::lemma_play_one(g, reset_cmd(pool, host_reset, first, count), staging);
}

/// Every pass is listed, and listed once.
pub proof fn law_every_pass_is_listed_once(p: GpuPass)
    ensures
        all_passes().contains(p),
        all_passes().no_duplicates(),
{
    let all = all_passes();
    let i: int = match p {
        GpuPass::Copies => 0,
        GpuPass::Cull => 1,
        GpuPass::ShadowMap => 2,
        GpuPass::Clear => 3,
        GpuPass::OpaqueFull => 4,
        GpuPass::OpaqueLod => 5,
        GpuPass::Cutout => 6,
        GpuPass::Sky => 7,
        GpuPass::Cubes => 8,
        GpuPass::Lines => 9,
        GpuPass::Shadows => 10,
        GpuPass::Transparent => 11,
        GpuPass::Overlay => 12,
        GpuPass::Resolve => 13,
        GpuPass::Vrs => 14,
        GpuPass::Taa => 15,
        GpuPass::Exposure => 16,
        GpuPass::Bloom => 17,
    };
    assert(all[i] == p);
}

/// Each span lasts from one stamp to the next and belongs to the pass that the later stamp
/// closed.
pub proof fn law_a_span_lasts_from_stamp_to_stamp(labels: Seq<GpuPass>, ts: Seq<u64>, i: int)
    requires
        0 <= i < ts.len() - 1,
    ensures
        spans_of(labels, ts).len() == ts.len() - 1,
        spans_of(labels, ts)[i].pass == labels[i + 1],
        ts[i] <= ts[i + 1] ==> ts[i] + spans_of(labels, ts)[i].ticks == ts[i + 1],
{
}

} // verus!
