//! Buffer copies on a lane: their barriers, the ranges they write and how copies
//! between the same two buffers share one command.

use vstd::prelude::*;

use crate::commands;
use crate::commands::{
    BufferBarrier, ACCESS_INDEX_READ, ACCESS_VERTEX_ATTRIBUTE_READ, NO_HANDOVER,
    STAGE_VERTEX_INPUT,
};

verus! {

/// The role of one copy barrier.
#[derive(Clone, Copy, Debug, PartialEq, Eq, Structural)]
pub enum CopyBarrier {
    /// Same queue: the copy before the draw's fetch.
    Draw,
    /// Ownership leaves the copying family.
    Release { src_family: u32, dst_family: u32 },
    /// Ownership arrives at the drawing family.
    Acquire { src_family: u32, dst_family: u32 },
}

/// The barrier for `role` over a written range; `reads` is the access that the
/// data feeds. A release names none: that is the acquire's part.
#[verifier::allow_in_spec]
pub fn copy_barrier(buffer: u64, offset: u64, size: u64, reads: u64, role: CopyBarrier) -> BufferBarrier
    returns
        (match role {
            CopyBarrier::Draw => BufferBarrier {
                buffer,
                offset,
                size,
                src: commands::copy_write(),
                dst: commands::access_at(STAGE_VERTEX_INPUT, reads),
                src_family: NO_HANDOVER,
                dst_family: NO_HANDOVER,
            },
            CopyBarrier::Release { src_family, dst_family } => BufferBarrier {
                buffer,
                offset,
                size,
                src: commands::copy_write(),
                dst: commands::no_access(),
                src_family,
                dst_family,
            },
            CopyBarrier::Acquire { src_family, dst_family } => BufferBarrier {
                buffer,
                offset,
                size,
                src: commands::no_access(),
                dst: commands::access_at(STAGE_VERTEX_INPUT, reads),
                src_family,
                dst_family,
            },
        }),
{
    match role {
        CopyBarrier::Draw => BufferBarrier {
            buffer,
            offset,
            size,
            src: commands::copy_write(),
            dst: commands::access_at(STAGE_VERTEX_INPUT, reads),
            src_family: NO_HANDOVER,
            dst_family: NO_HANDOVER,
        },
        CopyBarrier::Release { src_family, dst_family } => BufferBarrier {
            buffer,
            offset,
            size,
            src: commands::copy_write(),
            dst: commands::no_access(),
            src_family,
            dst_family,
        },
        CopyBarrier::Acquire { src_family, dst_family } => BufferBarrier {
            buffer,
            offset,
            size,
            src: commands::no_access(),
            dst: commands::access_at(STAGE_VERTEX_INPUT, reads),
            src_family,
            dst_family,
        },
    }
}

/// A release and its acquire name the same range and the same two families, and
/// between them wait for the copy and make the reads wait.
pub proof fn law_release_and_acquire_pair_up(
    buffer: u64,
    offset: u64,
    size: u64,
    reads: u64,
    from: u32,
    to: u32,
)
    ensures
        ({
            let rel = copy_barrier(
                buffer,
                offset,
                size,
                reads,
                CopyBarrier::Release { src_family: from, dst_family: to },
            );
            let acq = copy_barrier(
                buffer,
                offset,
                size,
                reads,
                CopyBarrier::Acquire { src_family: from, dst_family: to },
            );
            let draw = copy_barrier(buffer, offset, size, reads, CopyBarrier::Draw);
            &&& rel.buffer == acq.buffer && rel.offset == acq.offset && rel.size == acq.size
            &&& rel.src_family == acq.src_family && rel.dst_family == acq.dst_family
            &&& rel.src == draw.src && acq.dst == draw.dst
            &&& rel.dst == commands::no_access() && acq.src == commands::no_access()
        }),
{
}

/// What meshes feed: interleaved vertices and indices.
#[verifier::allow_in_spec]
pub fn mesh_reads() -> u64
    returns
        ACCESS_VERTEX_ATTRIBUTE_READ | ACCESS_INDEX_READ,
{
    ACCESS_VERTEX_ATTRIBUTE_READ | ACCESS_INDEX_READ
}

/// A byte range of a buffer.
#[derive(Clone, Copy, Debug, PartialEq, Eq, Structural)]
pub struct BufferRange {
    pub buffer: u64,
    pub offset: u64,
    pub size: u64,
}

impl BufferRange {
    pub open spec fn end(self) -> int {
        self.offset + self.size
    }

    /// Byte `b` of `buffer` lies in the range.
    pub open spec fn has(self, buffer: u64, b: int) -> bool {
        self.buffer == buffer && self.offset <= b < self.end()
    }

    /// Every byte of `r` lies in this range.
    pub open spec fn encloses(self, r: BufferRange) -> bool {
        self.buffer == r.buffer && self.offset <= r.offset && r.end() <= self.end()
    }
}

/// Byte `b` of `buffer` lies in one of the ranges.
pub open spec fn written(ranges: Seq<BufferRange>, buffer: u64, b: int) -> bool {
    exists|k: int| 0 <= k < ranges.len() && (#[trigger] ranges[k]).has(buffer, b)
}

/// Some range of `out` encloses `r`.
pub open spec fn enclosed(out: Seq<BufferRange>, r: BufferRange) -> bool {
    exists|k: int| 0 <= k < out.len() && (#[trigger] out[k]).encloses(r)
}

/// Some range starts where `r` does.
pub open spec fn starts(ranges: Seq<BufferRange>, r: BufferRange) -> bool {
    exists|k: int|
        0 <= k < ranges.len() && (#[trigger] ranges[k]).buffer == r.buffer && ranges[k].offset
            == r.offset
}

/// Every byte of `r` lies in one of the ranges.
pub open spec fn filled(ranges: Seq<BufferRange>, r: BufferRange) -> bool {
    forall|b: int| r.offset <= b < r.end() ==> #[trigger] written(ranges, r.buffer, b)
}

/// Ascending by buffer and offset, and no two of the same buffer touch.
pub open spec fn separate(out: Seq<BufferRange>) -> bool {
    forall|i: int, j: int|
        0 <= i < j < out.len() ==> (#[trigger] out[i]).buffer < (#[trigger] out[j]).buffer || (
        out[i].buffer == out[j].buffer && out[i].end() < out[j].offset)
}

/// `out` are the contiguous runs of `ranges`, in order: no two of the same buffer
/// touch, each range lies in one of them, and none reaches past what the ranges
/// hold.
pub open spec fn coalesced(ranges: Seq<BufferRange>, out: Seq<BufferRange>) -> bool {
    &&& separate(out)
    &&& forall|k: int| 0 <= k < ranges.len() ==> enclosed(out, #[trigger] ranges[k])
    &&& forall|k: int|
        0 <= k < out.len() ==> starts(ranges, #[trigger] out[k]) && filled(ranges, out[k])
}

/// Coalescing neither loses a byte nor adds one.
pub proof fn law_coalescing_keeps_the_bytes(
    ranges: Seq<BufferRange>,
    out: Seq<BufferRange>,
    buffer: u64,
    b: int,
)
    requires
        coalesced(ranges, out),
    ensures
        written(out, buffer, b) <==> written(ranges, buffer, b),
{
    if written(out, buffer, b) {
        let k = choose|k: int| 0 <= k < out.len() && (#[trigger] out[k]).has(buffer, b);
        assert(filled(ranges, out[k]));
        assert(written(ranges, out[k].buffer, b));
    }
    if written(ranges, buffer, b) {
        let k = choose|k: int| 0 <= k < ranges.len() && (#[trigger] ranges[k]).has(buffer, b);
        assert(enclosed(out, ranges[k]));
        let j = choose|j: int| 0 <= j < out.len() && (#[trigger] out[j]).encloses(ranges[k]);
        assert(out[j].has(buffer, b));
    }
}

/// `a` comes no later than `b`.
pub open spec fn ordered(a: BufferRange, b: BufferRange) -> bool {
    a.buffer < b.buffer || (a.buffer == b.buffer && a.offset <= b.offset)
}

pub open spec fn sorted(v: Seq<BufferRange>) -> bool {
    forall|i: int, j: int| 0 <= i < j < v.len() ==> ordered(#[trigger] v[i], #[trigger] v[j])
}

/// Puts `r` in its place.
fn insert_sorted(v: &mut Vec<BufferRange>, r: BufferRange)
    requires
        sorted(old(v)@),
    ensures
        sorted(final(v)@),
        forall|x: BufferRange| #[trigger]
            final(v)@.contains(x) <==> old(v)@.contains(x) || x == r,
{
    let ghost orig = v@;
    let mut i: usize = v.len();
    while i > 0 && (v[i - 1].buffer > r.buffer || (v[i - 1].buffer == r.buffer && v[i - 1].offset
        > r.offset))
        invariant
            v@ == orig,
            sorted(orig),
            i <= v.len(),
            forall|k: int| i <= k < v.len() ==> ordered(r, #[trigger] v[k]),
        decreases i,
    {
        i = i - 1;
    }
    v.insert(i, r);
    proof {
        let now = v@;
        assert(now =~= orig.insert(i as int, r));
        assert forall|a: int, b: int| 0 <= a < b < now.len() implies ordered(
            #[trigger] now[a],
            #[trigger] now[b],
        ) by {
            let pa = if a < i {
                a
            } else {
                a - 1
            };
            let pb = if b < i {
                b
            } else {
                b - 1
            };
            if a != i && b != i {
                assert(ordered(orig[pa], orig[pb]));
            } else if a == i {
                assert(ordered(r, orig[pb]));
            } else {
                if a < i - 1 {
                    assert(ordered(orig[a], orig[i - 1]));
                }
                assert(ordered(orig[i - 1], r));
            }
        }
        assert forall|x: BufferRange| #[trigger]
            now.contains(x) <==> orig.contains(x) || x == r by {
            if now.contains(x) {
                let k = choose|k: int| 0 <= k < now.len() && now[k] == x;
                if k < i {
                    assert(orig[k] == x);
                } else if k > i {
                    assert(orig[k - 1] == x);
                }
            }
            if orig.contains(x) {
                let k = choose|k: int| 0 <= k < orig.len() && orig[k] == x;
                if k < i {
                    assert(now[k] == x);
                } else {
                    assert(now[k + 1] == x);
                }
            }
            assert(now[i as int] == r);
        }
    }
}

/// Everything of `out` comes no later than the sorted ranges from `n` on.
spec fn behind(v: Seq<BufferRange>, n: int, out: Seq<BufferRange>) -> bool {
    &&& (n > 0) == (out.len() > 0)
    &&& out.len() > 0 ==> forall|k: int| n <= k < v.len() ==> ordered(out.last(), #[trigger] v[k])
}

/// `r` joins the last run of `out`.
spec fn joins(out: Seq<BufferRange>, r: BufferRange) -> bool {
    out.len() > 0 && out.last().buffer == r.buffer && out.last().end() >= r.offset
}

/// The last run of `out`, lengthened to hold `r`.
spec fn joined(out: Seq<BufferRange>, r: BufferRange) -> BufferRange {
    BufferRange {
        size: if r.end() > out.last().end() {
            (r.end() - out.last().offset) as u64
        } else {
            out.last().size
        },
        ..out.last()
    }
}

/// `out` with `r` merged in.
spec fn merged(out: Seq<BufferRange>, r: BufferRange) -> Seq<BufferRange> {
    if joins(out, r) {
        out.update(out.len() - 1, joined(out, r))
    } else {
        out.push(r)
    }
}

proof fn lemma_written_more(ranges: Seq<BufferRange>, r: BufferRange, buffer: u64, b: int)
    ensures
        written(ranges.push(r), buffer, b) <==> written(ranges, buffer, b) || r.has(buffer, b),
{
    let more = ranges.push(r);
    if written(ranges, buffer, b) {
        let k = choose|k: int| 0 <= k < ranges.len() && (#[trigger] ranges[k]).has(buffer, b);
        assert(more[k].has(buffer, b));
    }
    if r.has(buffer, b) {
        assert(more[ranges.len() as int].has(buffer, b));
    }
    if written(more, buffer, b) {
        let k = choose|k: int| 0 <= k < more.len() && (#[trigger] more[k]).has(buffer, b);
        if k < ranges.len() {
            assert(ranges[k].has(buffer, b));
        }
    }
}

proof fn lemma_merge_separate(out: Seq<BufferRange>, r: BufferRange)
    requires
        separate(out),
        out.len() > 0 ==> ordered(out.last(), r),
        r.end() <= u64::MAX,
    ensures
        separate(merged(out, r)),
{
    let next = merged(out, r);
    let e = out.len() - 1;
    assert forall|i: int, j: int| 0 <= i < j < next.len() implies (#[trigger] next[i]).buffer < (
    #[trigger] next[j]).buffer || (next[i].buffer == next[j].buffer && next[i].end()
        < next[j].offset) by {
        if j < out.len() {
            assert(out[i].buffer < out[j].buffer || (out[i].buffer == out[j].buffer && out[i].end()
                < out[j].offset));
        } else if i < e {
            assert(out[i].buffer < out[e].buffer || (out[i].buffer == out[e].buffer && out[i].end()
                < out[e].offset));
        }
    }
}

proof fn lemma_merge_encloses(out: Seq<BufferRange>, r: BufferRange, x: BufferRange)
    requires
        out.len() > 0 ==> ordered(out.last(), r),
        r.end() <= u64::MAX,
        enclosed(out, x) || x == r,
    ensures
        enclosed(merged(out, r), x),
{
    let next = merged(out, r);
    if x == r {
        assert(next[next.len() - 1].encloses(r));
    } else {
        let m = choose|m: int| 0 <= m < out.len() && (#[trigger] out[m]).encloses(x);
        assert(next[m].encloses(x));
    }
}

proof fn lemma_merge_fills(ranges: Seq<BufferRange>, out: Seq<BufferRange>, r: BufferRange, k: int)
    requires
        forall|k: int|
            0 <= k < out.len() ==> starts(ranges, #[trigger] out[k]) && filled(ranges, out[k]),
        out.len() > 0 ==> ordered(out.last(), r),
        r.end() <= u64::MAX,
        0 <= k < merged(out, r).len(),
    ensures
        starts(ranges.push(r), merged(out, r)[k]),
        filled(ranges.push(r), merged(out, r)[k]),
{
    let next = merged(out, r);
    let more = ranges.push(r);
    if k < out.len() {
        assert(starts(ranges, out[k]));
        let m = choose|m: int|
            0 <= m < ranges.len() && (#[trigger] ranges[m]).buffer == out[k].buffer
                && ranges[m].offset == out[k].offset;
        assert(more[m].buffer == next[k].buffer && more[m].offset == next[k].offset);
    } else {
        assert(more[ranges.len() as int] == r);
    }
    assert forall|b: int| next[k].offset <= b < next[k].end() implies #[trigger] written(
        more,
        next[k].buffer,
        b,
    ) by {
        lemma_written_more(ranges, r, next[k].buffer, b);
        if k < out.len() && b < out[k].end() {
            assert(filled(ranges, out[k]));
            assert(written(ranges, out[k].buffer, b));
        }
    }
}

proof fn lemma_merge_step(v: Seq<BufferRange>, n: int, out: Seq<BufferRange>)
    requires
        sorted(v),
        0 <= n < v.len(),
        coalesced(v.take(n), out),
        behind(v, n, out),
        v[n].end() <= u64::MAX,
    ensures
        coalesced(v.take(n + 1), merged(out, v[n])),
        behind(v, n + 1, merged(out, v[n])),
{
    let r = v[n];
    let a = v.take(n);
    let b = v.take(n + 1);
    let next = merged(out, r);
    assert(b =~= a.push(r));
    if out.len() > 0 {
        assert(ordered(out.last(), v[n]));
    }
    lemma_merge_separate(out, r);
    assert forall|k: int| 0 <= k < b.len() implies enclosed(next, #[trigger] b[k]) by {
        if k < n {
            assert(enclosed(out, a[k]));
        }
        lemma_merge_encloses(out, r, b[k]);
    }
    assert forall|k: int| 0 <= k < next.len() implies starts(b, #[trigger] next[k]) && filled(
        b,
        next[k],
    ) by {
        lemma_merge_fills(a, out, r, k);
    }
    assert forall|k: int| n + 1 <= k < v.len() implies ordered(next.last(), #[trigger] v[k]) by {
        assert(ordered(v[n], v[k]));
    }
}

/// Merges `r` into the last run, or starts a new one.
fn merge_in(out: &mut Vec<BufferRange>, r: BufferRange)
    requires
        old(out).len() > 0 ==> ordered(old(out)@.last(), r),
        r.end() <= u64::MAX,
        forall|k: int| 0 <= k < old(out).len() ==> (#[trigger] old(out)@[k]).end() <= u64::MAX,
    ensures
        final(out)@ == merged(old(out)@, r),
        forall|k: int| 0 <= k < final(out).len() ==> (#[trigger] final(out)@[k]).end() <= u64::MAX,
{
    let ghost before = out@;
    let len: usize = out.len();
    if len > 0 {
        let last: BufferRange = out[len - 1];
        proof {
            assert(before[len - 1].end() <= u64::MAX);
        }
        if last.buffer == r.buffer && last.offset + last.size >= r.offset {
            let end: u64 = r.offset + r.size;
            let size: u64 = if end > last.offset + last.size {
                end - last.offset
            } else {
                last.size
            };
            out.set(len - 1, BufferRange { size, ..last });
            proof {
                assert(out@ =~= merged(before, r));
            }
            return ;
        }
    }
    out.push(r);
    proof {
        assert(out@ =~= merged(before, r));
    }
}

/// Merges ranges that touch or overlap, so that a burst of copies into one buffer
/// takes one barrier per contiguous run.
pub fn coalesce_ranges(ranges: Vec<BufferRange>) -> (out: Vec<BufferRange>)
    requires
        forall|k: int| 0 <= k < ranges.len() ==> (#[trigger] ranges[k]).end() <= u64::MAX,
    ensures
        coalesced(ranges@, out@),
{
    let mut v: Vec<BufferRange> = Vec::new();
    let mut i: usize = 0;
    while i < ranges.len()
        invariant
            i <= ranges.len(),
            sorted(v@),
            forall|x: BufferRange| #[trigger]
                v@.contains(x) <==> ranges@.take(i as int).contains(x),
        decreases ranges.len() - i,
    {
        insert_sorted(&mut v, ranges[i]);
        proof {
            let a = ranges@.take(i as int);
            let b = ranges@.take(i + 1);
            assert(b =~= a.push(ranges[i as int]));
            assert forall|x: BufferRange| #[trigger] v@.contains(x) <==> b.contains(x) by {
                if b.contains(x) {
                    let k = choose|k: int| 0 <= k < b.len() && b[k] == x;
                    if k < a.len() {
                        assert(a[k] == x);
                    }
                }
                if a.contains(x) {
                    let k = choose|k: int| 0 <= k < a.len() && a[k] == x;
                    assert(b[k] == x);
                }
                assert(b[i as int] == ranges[i as int]);
            }
        }
        i = i + 1;
    }
    proof {
        assert(ranges@.take(i as int) =~= ranges@);
        assert forall|k: int| 0 <= k < v.len() implies (#[trigger] v[k]).end() <= u64::MAX by {
            assert(v@.contains(v@[k]));
            let j = choose|j: int| 0 <= j < ranges.len() && ranges@[j] == v@[k];
            assert(ranges[j].end() <= u64::MAX);
        }
    }
    let mut out: Vec<BufferRange> = Vec::new();
    let mut n: usize = 0;
    while n < v.len()
        invariant
            sorted(v@),
            n <= v.len(),
            coalesced(v@.take(n as int), out@),
            behind(v@, n as int, out@),
            forall|k: int| 0 <= k < v.len() ==> (#[trigger] v[k]).end() <= u64::MAX,
            forall|k: int| 0 <= k < out.len() ==> (#[trigger] out[k]).end() <= u64::MAX,
        decreases v.len() - n,
    {
        let r: BufferRange = v[n];
        let ghost before = out@;
        proof {
            if before.len() > 0 {
                assert(ordered(before.last(), v@[n as int]));
            }
        }
        merge_in(&mut out, r);
        proof {
            lemma_merge_step(v@, n as int, before);
        }
        n = n + 1;
    }
    proof {
        assert(v@.take(n as int) =~= v@);
        lemma_same_members(v@, ranges@, out@);
    }
    out
}

/// Coalescing depends only on which ranges there are.
proof fn lemma_same_members(v: Seq<BufferRange>, ranges: Seq<BufferRange>, out: Seq<BufferRange>)
    requires
        coalesced(v, out),
        forall|x: BufferRange| #[trigger] v.contains(x) <==> ranges.contains(x),
    ensures
        coalesced(ranges, out),
{
    assert forall|k: int| 0 <= k < ranges.len() implies enclosed(out, #[trigger] ranges[k]) by {
        lemma_member(ranges, v, k);
        let j = choose|j: int| 0 <= j < v.len() && v[j] == ranges[k];
        assert(enclosed(out, v[j]));
    }
    assert forall|k: int| 0 <= k < out.len() implies starts(ranges, #[trigger] out[k]) && filled(
        ranges,
        out[k],
    ) by {
        assert(starts(v, out[k]) && filled(v, out[k]));
        let j = choose|j: int|
            0 <= j < v.len() && (#[trigger] v[j]).buffer == out[k].buffer && v[j].offset
                == out[k].offset;
        lemma_member(v, ranges, j);
        let m = choose|m: int| 0 <= m < ranges.len() && ranges[m] == v[j];
        assert(ranges[m].buffer == out[k].buffer);
        assert forall|b: int| out[k].offset <= b < out[k].end() implies #[trigger] written(
            ranges,
            out[k].buffer,
            b,
        ) by {
            assert(written(v, out[k].buffer, b));
            let i = choose|i: int| 0 <= i < v.len() && (#[trigger] v[i]).has(out[k].buffer, b);
            lemma_member(v, ranges, i);
            let m = choose|m: int| 0 <= m < ranges.len() && ranges[m] == v[i];
            assert(ranges[m].has(out[k].buffer, b));
        }
    }
}

proof fn lemma_member(v: Seq<BufferRange>, w: Seq<BufferRange>, k: int)
    requires
        0 <= k < v.len(),
        forall|x: BufferRange|
            #![trigger v.contains(x)]
            #![trigger w.contains(x)]
            v.contains(x) <==> w.contains(x),
    ensures
        w.contains(v[k]),
{
    assert(v.contains(v[k]));
}

/// A copy's barrier is over the range that was copied, whatever its part; it waits for the
/// copy, or is waited for by the reads, or both.
pub proof fn law_a_copy_barrier_is_over_its_range(
    buffer: u64,
    offset: u64,
    size: u64,
    reads: u64,
    role: CopyBarrier,
)
    ensures
        ({
            let b = copy_barrier(buffer, offset, size, reads, role);
            &&& b.buffer == buffer
            &&& b.offset == offset
            &&& b.size == size
            &&& role is Draw ==> b.src_family == b.dst_family && b.src == commands::copy_write()
                && b.dst.access == reads && b.dst.stage == STAGE_VERTEX_INPUT
            &&& role matches CopyBarrier::Release { src_family, dst_family } ==> b.src_family
                == src_family && b.dst_family == dst_family && b.src == commands::copy_write()
            &&& role matches CopyBarrier::Acquire { src_family, dst_family } ==> b.src_family
                == src_family && b.dst_family == dst_family && b.dst.access == reads && b.dst.stage
                == STAGE_VERTEX_INPUT
        }),
{
}

} // verus!
