//! Pure offset/size suballocator over one block of bytes.

use vstd::prelude::*;

verus! {

/// A contiguous free byte range inside a block.
#[derive(Clone, Copy, Debug, PartialEq, Eq, Structural)]
pub struct FreeRange {
    pub offset: u64,
    pub size: u64,
}

impl FreeRange {
    /// One past the last byte of the range.
    pub open spec fn end(self) -> int {
        self.offset + self.size
    }

    /// Whether byte `b` lies in the range.
    pub open spec fn has(self, b: int) -> bool {
        self.offset <= b < self.end()
    }
}

/// The size a request of `size` bytes takes: never zero.
pub open spec fn at_least_one(size: u64) -> int {
    if size == 0 {
        1
    } else {
        size as int
    }
}

/// The least multiple of `align` (0 counts as 1) that is not below `offset`.
pub open spec fn align_up(offset: int, align: int) -> int {
    let a = if align <= 0 {
        1
    } else {
        align
    };
    if offset % a == 0 {
        offset
    } else {
        offset - offset % a + a
    }
}

/// Whether `size` bytes at a multiple of `align` fit into `range`.
pub open spec fn fits(range: FreeRange, size: int, align: int) -> bool {
    align_up(range.offset as int, align) + size <= range.end()
}

/// Bytes held by all the ranges together.
pub open spec fn total(ranges: Seq<FreeRange>) -> int
    decreases ranges.len(),
{
    if ranges.len() == 0 {
        0
    } else {
        total(ranges.drop_last()) + ranges.last().size
    }
}

/// Whether byte `b` lies in one of the ranges.
pub open spec fn covers(ranges: Seq<FreeRange>, b: int) -> bool {
    exists|i: int| 0 <= i < ranges.len() && (#[trigger] ranges[i]).has(b)
}

/// Non-empty, ascending, with at least one byte between neighbours.
pub open spec fn canonical(ranges: Seq<FreeRange>) -> bool {
    &&& forall|i: int| 0 <= i < ranges.len() ==> (#[trigger] ranges[i]).size > 0
    &&& forall|i: int, j: int|
        0 <= i < j < ranges.len() ==> (#[trigger] ranges[i]).end() < (#[trigger] ranges[j]).offset
}

/// Every range ends by `end`.
pub open spec fn within(ranges: Seq<FreeRange>, end: int) -> bool {
    forall|i: int| 0 <= i < ranges.len() ==> (#[trigger] ranges[i]).end() <= end
}

/// Sorted free ranges, first-fit with alignment, split on alloc, coalesce
/// adjacent ranges on free.
pub struct FreeList {
    pub capacity: u64,
    pub used: u64,
    /// Sorted by offset; adjacent ranges are always coalesced.
    pub free: Vec<FreeRange>,
}

/// `new` is `old` with the bytes `[offset, offset + size)` taken out.
pub open spec fn taken(old: FreeList, new: FreeList, offset: int, size: int) -> bool {
    &&& new.wf()
    &&& new.capacity == old.capacity
    &&& new.used == old.used + size
    &&& forall|b: int| #[trigger]
        covers(new.free@, b) <==> covers(old.free@, b) && !(offset <= b < offset + size)
}

/// `new` is `old` with the bytes `[offset, offset + size)` given back.
pub open spec fn given_back(old: FreeList, new: FreeList, offset: int, size: int) -> bool {
    &&& new.wf()
    &&& new.capacity == old.capacity
    &&& new.used == old.used - size
    &&& forall|b: int| #[trigger]
        covers(new.free@, b) <==> covers(old.free@, b) || (offset <= b < offset + size)
}

/// `offset` is what first-fit answers: the lowest aligned offset of the first
/// range that has room.
pub open spec fn first_fit(ranges: Seq<FreeRange>, size: int, align: int, offset: int) -> bool {
    exists|i: int|
        {
            &&& 0 <= i < ranges.len()
            &&& fits(#[trigger] ranges[i], size, align)
            &&& offset == align_up(ranges[i].offset as int, align)
            &&& forall|j: int| 0 <= j < i ==> !fits(#[trigger] ranges[j], size, align)
        }
}

impl FreeList {
    /// Canonical ranges inside the capacity, and every byte is either free or
    /// used. A list of no capacity holds its one empty range.
    pub open spec fn wf(&self) -> bool {
        if self.capacity == 0 {
            self.used == 0 && self.free@ =~= seq![FreeRange { offset: 0, size: 0 }]
        } else {
            &&& canonical(self.free@)
            &&& within(self.free@, self.capacity as int)
            &&& self.used + total(self.free@) == self.capacity
        }
    }

    /// The bytes `[offset, offset + size)` are inside the list and none is free.
    pub open spec fn holds(&self, offset: int, size: int) -> bool {
        &&& 0 <= offset
        &&& offset + size <= self.capacity
        &&& forall|b: int| offset <= b < offset + size ==> !#[trigger] covers(self.free@, b)
    }

    pub fn new(capacity: u64) -> (list: Self)
        ensures
            list.wf(),
            list.capacity == capacity,
            list.used == 0,
            list.free@ == seq![FreeRange { offset: 0, size: capacity }],
    {
        let mut free: Vec<FreeRange> = Vec::new();
        free.push(FreeRange { offset: 0, size: capacity });
        proof {
            assert(free@ =~= seq![FreeRange { offset: 0, size: capacity }]);
            assert(free@.drop_last() =~= Seq::<FreeRange>::empty());
            reveal_with_fuel(total, 2);
        }
        FreeList { capacity, used: 0, free }
    }

    pub fn used(&self) -> (used: u64)
        ensures
            used == self.used,
    {
        self.used
    }

    /// True when no bytes are allocated.
    pub fn is_empty(&self) -> (empty: bool)
        ensures
            empty == (self.used == 0),
    {
        self.used == 0
    }

    /// First-fit allocation of `size` bytes at a multiple of `align`.
    /// Returns the offset, or `None` if no hole is large enough.
    pub fn allocate(&mut self, size: u64, align: u64) -> (result: Option<u64>)
        requires
            old(self).wf(),
        ensures
            match result {
                Some(offset) => {
                    &&& first_fit(old(self).free@, at_least_one(size), align as int, offset as int)
                    &&& (align > 0 ==> offset % align == 0)
                    &&& taken(*old(self), *final(self), offset as int, at_least_one(size))
                    &&& forall|b: int|
                        offset <= b < offset + at_least_one(size) ==> #[trigger] covers(old(self).free@, b)
                    &&& offset + at_least_one(size) <= old(self).capacity
                },
                None => {
                    &&& *final(self) == *old(self)
                    &&& forall|i: int|
                        0 <= i < old(self).free.len() ==> !fits(
                            #[trigger] old(self).free[i],
                            at_least_one(size),
                            align as int,
                        )
                },
            },
    {
        let need: u64 = if size == 0 {
            1
        } else {
            size
        };
        let step: u64 = if align == 0 {
            1
        } else {
            align
        };
        let mut i: usize = 0;
        while i < self.free.len()
            invariant
                *self == *old(self),
                self.wf(),
                need == at_least_one(size),
                step > 0,
                align > 0 ==> step == align,
                align == 0 ==> step == 1,
                i <= self.free.len(),
                forall|j: int|
                    0 <= j < i ==> !fits(#[trigger] self.free[j], need as int, step as int),
            decreases self.free.len() - i,
        {
            let range: FreeRange = self.free[i];
            let rem: u64 = range.offset % step;
            let pad: u64 = if rem == 0 {
                0
            } else {
                step - rem
            };
            if range.size < pad || range.size - pad < need {
                i = i + 1;
                continue ;
            }
            let ghost before = self.free@;
            proof {
                assert(fits(before[i as int], need as int, step as int));
                lemma_align_up(range.offset as int, step as int);
                assert(range.end() <= self.capacity);
            }
            let aligned: u64 = range.offset + pad;
            let tail: u64 = range.size - pad - need;
            // Alignment padding stays on the free list so no bytes are lost.
            if pad > 0 {
                self.free.set(i, FreeRange { offset: range.offset, size: pad });
                if tail > 0 {
                    self.free.insert(i + 1, FreeRange { offset: aligned + need, size: tail });
                }
            } else if tail > 0 {
                self.free.set(i, FreeRange { offset: aligned + need, size: tail });
            } else {
                self.free.remove(i);
            }
            proof {
                assert(self.free@ =~= before.take(i as int) + remains(
                    range,
                    aligned as int,
                    need as int,
                ) + before.skip(i + 1));
                lemma_carve(before, i as int, aligned as int, need as int, self.capacity as int);
                lemma_total_bound(self.free@, self.capacity as int);
                assert(old(self).free@[i as int] == range);
                assert(first_fit(old(self).free@, need as int, align as int, aligned as int));
            }
            self.used = self.used + need;
            return Some(aligned);
        }
        None
    }

    /// Returns a previously allocated range, coalescing with any adjacent
    /// free neighbours.
    #[verifier::rlimit(40)]
    pub fn free(&mut self, offset: u64, size: u64)
        requires
            old(self).wf(),
            old(self).holds(offset as int, at_least_one(size)),
        ensures
            given_back(*old(self), *final(self), offset as int, at_least_one(size)),
    {
        let size: u64 = if size == 0 {
            1
        } else {
            size
        };
        let ghost before = self.free@;
        let ghost hole = FreeRange { offset, size };
        let mut idx: usize = 0;
        while idx < self.free.len() && self.free[idx].offset < offset
            invariant
                idx <= self.free.len(),
                self.free@ == before,
                forall|j: int| 0 <= j < idx ==> (#[trigger] before[j]).offset < offset,
            decreases self.free.len() - idx,
        {
            idx = idx + 1;
        }
        proof {
            assert forall|b: int| hole.has(b) implies !#[trigger] covers(before, b) by {}
            lemma_hole_is_apart(before, hole, idx as int);
            assert(before.len() > idx ==> before[idx as int].end() <= self.capacity);
            assert(idx > 0 ==> before[idx - 1].end() <= hole.offset);
        }
        let merges_prev: bool = idx > 0 && self.free[idx - 1].offset + self.free[idx - 1].size
            == offset;
        let merges_next: bool = idx < self.free.len() && offset + size == self.free[idx].offset;
        let ghost lo: int = if merges_prev {
            idx - 1
        } else {
            idx as int
        };
        let ghost hi: int = if merges_next {
            idx + 1
        } else {
            idx as int
        };
        let ghost from: int = if merges_prev {
            before[idx - 1].offset as int
        } else {
            offset as int
        };
        let ghost to: int = if merges_next {
            before[idx as int].end()
        } else {
            offset + size
        };
        let ghost merged = FreeRange { offset: from as u64, size: (to - from) as u64 };
        proof {
            assert forall|j: int| 0 <= j < lo implies (#[trigger] before[j]).end() < hole.offset by {
                if j < idx - 1 {
                    assert(before[j].end() < before[idx - 1].offset);
                }
            }
            assert forall|j: int| hi <= j < before.len() implies hole.end() < (
            #[trigger] before[j]).offset by {
                if j > idx {
                    assert(before[idx as int].end() < before[j].offset);
                }
            }
            lemma_merge(before, lo, hi, hole, merged, self.capacity as int);
        }
        if merges_prev {
            let prev: FreeRange = self.free[idx - 1];
            if merges_next {
                let next: FreeRange = self.free.remove(idx);
                self.free.set(
                    idx - 1,
                    FreeRange { offset: prev.offset, size: prev.size + size + next.size },
                );
            } else {
                self.free.set(idx - 1, FreeRange { offset: prev.offset, size: prev.size + size });
            }
        } else if merges_next {
            let next: FreeRange = self.free[idx];
            self.free.set(idx, FreeRange { offset, size: next.size + size });
        } else {
            self.free.insert(idx, FreeRange { offset, size });
        }
        proof {
            assert(self.free@ =~= before.take(lo) + seq![merged] + before.skip(hi));
            lemma_total_bound(self.free@, self.capacity as int);
        }
        self.used = self.used.saturating_sub(size);
    }
}

/// Rounding up lands on a multiple, less than one step above.
pub proof fn lemma_align_up(offset: int, align: int)
    requires
        offset >= 0,
        align > 0,
    ensures
        align_up(offset, align) % align == 0,
        offset <= align_up(offset, align) < offset + align,
{
    vstd::arithmetic::div_mod::lemma_fundamental_div_mod(offset, align);
    let q = offset / align;
    if offset % align != 0 {
        assert(align_up(offset, align) == (q + 1) * align) by (nonlinear_arith)
            requires
                offset == align * q + offset % align,
                offset % align != 0,
                align > 0,
                align_up(offset, align) == offset - offset % align + align,
        ;
        vstd::arithmetic::div_mod::lemma_mod_multiples_basic(q + 1, align);
    }
}

proof fn lemma_concat(a: Seq<FreeRange>, b: Seq<FreeRange>)
    ensures
        total(a + b) == total(a) + total(b),
        forall|x: int| #[trigger] covers(a + b, x) <==> covers(a, x) || covers(b, x),
    decreases b.len(),
{
    if b.len() == 0 {
        assert(a + b =~= a);
    } else {
        lemma_concat(a, b.drop_last());
        assert((a + b).drop_last() =~= a + b.drop_last());
    }
    assert forall|x: int| #[trigger] covers(a + b, x) <==> covers(a, x) || covers(b, x) by {
        if covers(a, x) {
            let i = choose|i: int| 0 <= i < a.len() && (#[trigger] a[i]).has(x);
            assert((a + b)[i].has(x));
        }
        if covers(b, x) {
            let i = choose|i: int| 0 <= i < b.len() && (#[trigger] b[i]).has(x);
            assert((a + b)[a.len() + i].has(x));
        }
        if covers(a + b, x) {
            let i = choose|i: int| 0 <= i < (a + b).len() && (#[trigger] (a + b)[i]).has(x);
            if i < a.len() {
                assert(a[i].has(x));
            } else {
                assert(b[i - a.len()].has(x));
            }
        }
    }
}

/// Ranges that end by `end` hold at most `end` bytes, and fewer where there is
/// a gap.
proof fn lemma_total_bound(s: Seq<FreeRange>, end: int)
    requires
        canonical(s),
        end >= 0,
        within(s, end),
    ensures
        0 <= total(s) <= end,
        s.len() > 0 ==> total(s) <= s.last().end(),
        s.len() >= 2 ==> total(s) < s.last().end(),
    decreases s.len(),
{
    if s.len() > 0 {
        let front = s.drop_last();
        assert forall|i: int| 0 <= i < front.len() implies (#[trigger] front[i]).end()
            <= s.last().offset by {
            assert(front[i] == s[i]);
        }
        lemma_total_bound(front, s.last().offset as int);
        if s.len() >= 2 {
            assert(front.last() == s[s.len() - 2]);
        }
    }
}

pub proof fn lemma_total_is_not_negative(s: Seq<FreeRange>)
    ensures
        total(s) >= 0,
    decreases s.len(),
{
    if s.len() > 0 {
        lemma_total_is_not_negative(s.drop_last());
    }
}

proof fn lemma_total_one(a: FreeRange)
    ensures
        total(seq![a]) == a.size,
{
    assert(seq![a].drop_last() =~= Seq::empty());
    reveal_with_fuel(total, 2);
}

/// What is left of `range` on both sides of `[at, at + size)`.
spec fn remains(range: FreeRange, at: int, size: int) -> Seq<FreeRange> {
    let left = FreeRange { offset: range.offset, size: (at - range.offset) as u64 };
    let right = FreeRange { offset: (at + size) as u64, size: (range.end() - at - size) as u64 };
    (if left.size > 0 {
        seq![left]
    } else {
        Seq::empty()
    }) + (if right.size > 0 {
        seq![right]
    } else {
        Seq::empty()
    })
}

proof fn lemma_remains(range: FreeRange, at: int, size: int)
    requires
        range.offset <= at,
        size > 0,
        at + size <= range.end() <= u64::MAX,
    ensures
        canonical(remains(range, at, size)),
        total(remains(range, at, size)) == range.size - size,
        forall|b: int| #[trigger]
            covers(remains(range, at, size), b) <==> range.has(b) && !(at <= b < at + size),
        forall|j: int|
            0 <= j < remains(range, at, size).len() ==> {
                &&& range.offset <= (#[trigger] remains(range, at, size)[j]).offset
                &&& remains(range, at, size)[j].end() <= range.end()
            },
{
    let left = FreeRange { offset: range.offset, size: (at - range.offset) as u64 };
    let right = FreeRange { offset: (at + size) as u64, size: (range.end() - at - size) as u64 };
    let l = if left.size > 0 {
        seq![left]
    } else {
        Seq::empty()
    };
    let r = if right.size > 0 {
        seq![right]
    } else {
        Seq::empty()
    };
    lemma_total_one(left);
    lemma_total_one(right);
    lemma_concat(l, r);
    assert forall|b: int| #[trigger]
        covers(l + r, b) <==> range.has(b) && !(at <= b < at + size) by {
        if left.has(b) {
            assert(l[0].has(b));
        }
        if right.has(b) {
            assert(r[0].has(b));
        }
    }
}

/// Replacing range `i` by what is left of it around `[at, at + size)`.
proof fn lemma_carve(before: Seq<FreeRange>, i: int, at: int, size: int, end: int)
    requires
        canonical(before),
        within(before, end),
        0 <= i < before.len(),
        before[i].offset <= at,
        size > 0,
        end <= u64::MAX,
        at + size <= before[i].end(),
    ensures
        ({
            let after = before.take(i) + remains(before[i], at, size) + before.skip(i + 1);
            &&& canonical(after)
            &&& total(after) == total(before) - size
            &&& forall|b: int| #[trigger]
                covers(after, b) <==> covers(before, b) && !(at <= b < at + size)
            &&& forall|b: int| at <= b < at + size ==> #[trigger] covers(before, b)
            &&& within(after, end)
        }),
{
    let mid = remains(before[i], at, size);
    lemma_remains(before[i], at, size);
    lemma_splice(before, i, i + 1, mid, end);
    let one = seq![before[i]];
    assert(before.subrange(i, i + 1) =~= one);
    lemma_total_one(before[i]);
    let pre = before.take(i);
    let post = before.skip(i + 1);
    assert forall|b: int| at <= b < at + size implies #[trigger] covers(before, b) by {
        assert(before[i].has(b));
    }
    let after = pre + mid + post;
    assert forall|b: int| #[trigger]
        covers(after, b) <==> covers(before, b) && !(at <= b < at + size) by {
        if before[i].has(b) {
            assert(one[0].has(b));
        }
        if covers(pre, b) {
            let j = choose|j: int| 0 <= j < pre.len() && (#[trigger] pre[j]).has(b);
            assert(before[j].end() < before[i].offset);
        }
        if covers(post, b) {
            let j = choose|j: int| 0 <= j < post.len() && (#[trigger] post[j]).has(b);
            assert(post[j] == before[i + 1 + j]);
            assert(before[i].end() < before[i + 1 + j].offset);
        }
    }
}

/// Putting `mid` in place of the ranges `[lo, hi)`: sums and coverage add up,
/// and order is kept when `mid` stays clear of its new neighbours.
proof fn lemma_splice(before: Seq<FreeRange>, lo: int, hi: int, mid: Seq<FreeRange>, end: int)
    requires
        canonical(before),
        canonical(mid),
        within(before, end),
        within(mid, end),
        0 <= lo <= hi <= before.len(),
        forall|j: int, k: int|
            0 <= j < lo && 0 <= k < mid.len() ==> (#[trigger] before[j]).end() < (
            #[trigger] mid[k]).offset,
        forall|j: int, k: int|
            hi <= j < before.len() && 0 <= k < mid.len() ==> (#[trigger] mid[k]).end() < (
            #[trigger] before[j]).offset,
    ensures
        ({
            let after = before.take(lo) + mid + before.skip(hi);
            &&& canonical(after)
            &&& within(after, end)
            &&& total(after) == total(before) - total(before.subrange(lo, hi)) + total(mid)
            &&& forall|b: int| #[trigger]
                covers(after, b) <==> covers(before.take(lo), b) || covers(mid, b) || covers(
                    before.skip(hi),
                    b,
                )
            &&& forall|b: int| #[trigger]
                covers(before, b) <==> covers(before.take(lo), b) || covers(
                    before.subrange(lo, hi),
                    b,
                ) || covers(before.skip(hi), b)
        }),
{
    let pre = before.take(lo);
    let gone = before.subrange(lo, hi);
    let post = before.skip(hi);
    let after = pre + mid + post;
    assert(before =~= pre + gone + post);
    lemma_concat(pre, gone);
    lemma_concat(pre + gone, post);
    lemma_concat(pre, mid);
    lemma_concat(pre + mid, post);
    lemma_splice_order(before, lo, hi, mid, end);
}

proof fn lemma_splice_order(before: Seq<FreeRange>, lo: int, hi: int, mid: Seq<FreeRange>, end: int)
    requires
        canonical(before),
        canonical(mid),
        within(before, end),
        within(mid, end),
        0 <= lo <= hi <= before.len(),
        forall|j: int, k: int|
            0 <= j < lo && 0 <= k < mid.len() ==> (#[trigger] before[j]).end() < (
            #[trigger] mid[k]).offset,
        forall|j: int, k: int|
            hi <= j < before.len() && 0 <= k < mid.len() ==> (#[trigger] mid[k]).end() < (
            #[trigger] before[j]).offset,
    ensures
        canonical(before.take(lo) + mid + before.skip(hi)),
        within(before.take(lo) + mid + before.skip(hi), end),
{
    let after = before.take(lo) + mid + before.skip(hi);
    let n = mid.len() as int;
    assert forall|j: int| 0 <= j < after.len() implies (#[trigger] after[j]).size > 0
        && after[j].end() <= end by {
        if j < lo {
            assert(after[j] == before[j]);
        } else if j >= lo + n {
            assert(after[j] == before[j - lo - n + hi]);
        } else {
            assert(after[j] == mid[j - lo]);
        }
    }
    assert forall|j: int, k: int| 0 <= j < k < after.len() implies (#[trigger] after[j]).end() < (
    #[trigger] after[k]).offset by {
        if k < lo {
            assert(after[k] == before[k]);
            assert(after[j] == before[j]);
        } else if k < lo + n {
            assert(after[k] == mid[k - lo]);
            if j < lo {
                assert(after[j] == before[j]);
            } else {
                assert(after[j] == mid[j - lo]);
            }
        } else {
            assert(after[k] == before[k - lo - n + hi]);
            if j < lo {
                assert(after[j] == before[j]);
            } else if j < lo + n {
                assert(after[j] == mid[j - lo]);
            } else {
                assert(after[j] == before[j - lo - n + hi]);
            }
        }
    }
}

/// A range that meets no free byte lies between its neighbours.
proof fn lemma_hole_is_apart(before: Seq<FreeRange>, hole: FreeRange, idx: int)
    requires
        canonical(before),
        hole.size > 0,
        forall|b: int| hole.has(b) ==> !#[trigger] covers(before, b),
        0 <= idx <= before.len(),
        forall|j: int| 0 <= j < idx ==> (#[trigger] before[j]).offset < hole.offset,
        idx < before.len() ==> before[idx].offset >= hole.offset,
    ensures
        forall|j: int| 0 <= j < idx ==> (#[trigger] before[j]).end() <= hole.offset,
        forall|j: int| idx <= j < before.len() ==> hole.end() <= (#[trigger] before[j]).offset,
{
    assert forall|j: int| 0 <= j < idx implies (#[trigger] before[j]).end() <= hole.offset by {
        if before[j].end() > hole.offset {
            assert(before[j].has(hole.offset as int));
            assert(hole.has(hole.offset as int));
            assert(covers(before, hole.offset as int));
        }
    }
    assert forall|j: int| idx <= j < before.len() implies hole.end() <= (
    #[trigger] before[j]).offset by {
        if j > idx {
            assert(before[idx].end() < before[j].offset);
        }
        if hole.end() > before[j].offset {
            assert(before[j].has(before[j].offset as int));
            assert(hole.has(before[j].offset as int));
            assert(covers(before, before[j].offset as int));
        }
    }
}

/// Replacing the ranges `[lo, hi)` that touch `hole` by their union with it.
proof fn lemma_merge(
    before: Seq<FreeRange>,
    lo: int,
    hi: int,
    hole: FreeRange,
    merged: FreeRange,
    end: int,
)
    requires
        canonical(before),
        within(before, end),
        hole.end() <= end,
        hole.size > 0,
        0 <= lo <= hi <= before.len(),
        hi - lo <= 2,
        forall|j: int| 0 <= j < lo ==> (#[trigger] before[j]).end() < hole.offset,
        forall|j: int| hi <= j < before.len() ==> hole.end() < (#[trigger] before[j]).offset,
        // The ranges in between are the ones that touch.
        hi - lo == 2 ==> before[lo].end() == hole.offset && hole.end() == before[lo + 1].offset
            && merged.offset == before[lo].offset && merged.end() == before[lo + 1].end(),
        hi - lo == 1 ==> {
            ||| before[lo].end() == hole.offset && merged.offset == before[lo].offset && merged.end()
                == hole.end()
            ||| hole.end() == before[lo].offset && merged.offset == hole.offset && merged.end()
                == before[lo].end()
        },
        hi == lo ==> merged == hole,
    ensures
        ({
            let after = before.take(lo) + seq![merged] + before.skip(hi);
            &&& canonical(after)
            &&& total(after) == total(before) + hole.size
            &&& forall|b: int| #[trigger] covers(after, b) <==> covers(before, b) || hole.has(b)
            &&& within(after, end)
        }),
{
    let mid = seq![merged];
    let gone = before.subrange(lo, hi);
    assert(hi > lo ==> before[lo].end() <= end && before[hi - 1].end() <= end);
    assert forall|j: int, k: int| 0 <= j < lo && 0 <= k < mid.len() implies (
    #[trigger] before[j]).end() < (#[trigger] mid[k]).offset by {
        if hi > lo {
            assert(before[j].end() < before[lo].offset);
        }
    }
    assert forall|j: int, k: int| hi <= j < before.len() && 0 <= k < mid.len() implies (
    #[trigger] mid[k]).end() < (#[trigger] before[j]).offset by {
        if hi > lo {
            assert(before[hi - 1].end() < before[j].offset);
        }
    }
    lemma_splice(before, lo, hi, mid, end);
    lemma_total_one(merged);
    if gone.len() == 0 {
        assert(gone =~= Seq::empty());
    } else if gone.len() == 1 {
        assert(gone =~= seq![before[lo]]);
        lemma_total_one(before[lo]);
    } else {
        assert(gone =~= seq![before[lo]] + seq![before[lo + 1]]);
        lemma_total_one(before[lo]);
        lemma_total_one(before[lo + 1]);
        lemma_concat(seq![before[lo]], seq![before[lo + 1]]);
    }
    let after = before.take(lo) + mid + before.skip(hi);
    assert forall|b: int| #[trigger] covers(after, b) <==> covers(before, b) || hole.has(b) by {
        if covers(mid, b) {
            assert(merged.has(b));
            if hi - lo >= 1 && before[lo].has(b) {
                assert(gone[0].has(b));
            } else if hi - lo == 2 && before[lo + 1].has(b) {
                assert(gone[1].has(b));
            } else {
                assert(hole.has(b));
            }
        }
        if covers(gone, b) {
            let j = choose|j: int| 0 <= j < gone.len() && (#[trigger] gone[j]).has(b);
            assert(gone[j] == before[lo + j]);
            assert(mid[0].has(b));
        }
        if hole.has(b) {
            assert(mid[0].has(b));
        }
    }
}

/// Two canonical lists of the same bytes are the same list.
pub proof fn law_canonical_is_unique(a: Seq<FreeRange>, b: Seq<FreeRange>)
    requires
        canonical(a),
        canonical(b),
        forall|x: int| #[trigger] covers(a, x) <==> covers(b, x),
    ensures
        a == b,
    decreases a.len(),
{
    if a.len() == 0 {
        if b.len() > 0 {
            assert(b[0].has(b[0].offset as int));
            assert(covers(b, b[0].offset as int));
            assert(covers(a, b[0].offset as int));
        }
        assert(a =~= b);
    } else {
        assert(a.last().has(a.last().end() - 1));
        assert(covers(a, a.last().end() - 1));
        assert(covers(b, a.last().end() - 1));
        assert(b.len() > 0);
        lemma_last_is_bounded(a, b);
        lemma_last_is_bounded(b, a);
        lemma_last_start(a, b);
        lemma_last_start(b, a);
        assert(a.last() == b.last());
        let fa = a.drop_last();
        let fb = b.drop_last();
        assert forall|x: int| #[trigger] covers(fa, x) <==> covers(fb, x) by {
            lemma_front_covers(a, x);
            lemma_front_covers(b, x);
            assert(covers(a, x) <==> covers(b, x));
        }
        law_canonical_is_unique(fa, fb);
        assert(a =~= fa.push(a.last()));
        assert(b =~= fb.push(b.last()));
    }
}

proof fn lemma_last_is_bounded(a: Seq<FreeRange>, b: Seq<FreeRange>)
    requires
        canonical(a),
        canonical(b),
        a.len() > 0,
        b.len() > 0,
        forall|x: int| #[trigger] covers(a, x) <==> covers(b, x),
    ensures
        a.last().end() <= b.last().end(),
{
    let x = a.last().end() - 1;
    assert(a[a.len() - 1].has(x));
    assert(covers(a, x));
    assert(covers(b, x));
    let i = choose|i: int| 0 <= i < b.len() && (#[trigger] b[i]).has(x);
    if i < b.len() - 1 {
        assert(b[i].end() < b[b.len() - 1].offset);
    }
}

proof fn lemma_last_start(a: Seq<FreeRange>, b: Seq<FreeRange>)
    requires
        canonical(a),
        canonical(b),
        a.len() > 0,
        b.len() > 0,
        a.last().end() == b.last().end(),
        forall|x: int| #[trigger] covers(a, x) <==> covers(b, x),
    ensures
        a.last().offset <= b.last().offset,
{
    if b.last().offset < a.last().offset {
        let x = a.last().offset - 1;
        assert(b[b.len() - 1].has(x));
        assert(covers(b, x));
        assert(covers(a, x));
        let i = choose|i: int| 0 <= i < a.len() && (#[trigger] a[i]).has(x);
        if i < a.len() - 1 {
            assert(a[i].end() < a[a.len() - 1].offset);
        }
    }
}

proof fn lemma_front_covers(a: Seq<FreeRange>, x: int)
    requires
        canonical(a),
        a.len() > 0,
    ensures
        covers(a.drop_last(), x) <==> covers(a, x) && !a.last().has(x),
{
    if covers(a.drop_last(), x) {
        let i = choose|i: int| 0 <= i < a.drop_last().len() && (#[trigger] a.drop_last()[i]).has(x);
        assert(a[i].has(x));
        assert(a[i].end() < a[a.len() - 1].offset);
    }
    if covers(a, x) && !a.last().has(x) {
        let i = choose|i: int| 0 <= i < a.len() && (#[trigger] a[i]).has(x);
        assert(a.drop_last()[i].has(x));
    }
}

/// Giving back what was just taken restores the list exactly.
pub proof fn law_alloc_free_roundtrip(
    before: FreeList,
    between: FreeList,
    after: FreeList,
    offset: int,
    size: int,
)
    requires
        before.wf(),
        size > 0,
        forall|b: int| offset <= b < offset + size ==> #[trigger] covers(before.free@, b),
        taken(before, between, offset, size),
        given_back(between, after, offset, size),
    ensures
        after.free@ == before.free@,
        after.used == before.used,
        after.capacity == before.capacity,
{
    if before.capacity == 0 {
        assert(covers(before.free@, offset));
    } else {
        assert forall|x: int| #[trigger] covers(after.free@, x) <==> covers(before.free@, x) by {
            assert(covers(after.free@, x) <==> covers(between.free@, x) || (offset <= x < offset
                + size));
            assert(covers(between.free@, x) <==> covers(before.free@, x) && !(offset <= x < offset
                + size));
        }
        law_canonical_is_unique(after.free@, before.free@);
    }
}

/// A list with no byte used is one range over the whole capacity, and the other
/// way round.
pub proof fn law_empty_is_one_whole_range(list: FreeList)
    requires
        list.wf(),
    ensures
        list.used == 0 <==> list.free@ == seq![FreeRange { offset: 0, size: list.capacity }],
{
    if list.capacity > 0 {
        lemma_total_bound(list.free@, list.capacity as int);
        let whole = FreeRange { offset: 0, size: list.capacity };
        lemma_total_one(whole);
        if list.used == 0 {
            assert(list.free@.len() > 0);
            if list.free@.len() == 1 {
                assert(list.free@ =~= seq![list.free@[0]]);
                lemma_total_one(list.free@[0]);
            }
            assert(list.free@ =~= seq![whole]);
        }
    }
}

/// A range that is in use keeps apart from every later allocation and stays in
/// use through it.
pub proof fn law_live_ranges_never_overlap(
    list: FreeList,
    next: FreeList,
    held: int,
    held_size: int,
    offset: int,
    size: int,
)
    requires
        list.wf(),
        held_size > 0,
        size > 0,
        list.holds(held, held_size),
        forall|b: int| offset <= b < offset + size ==> #[trigger] covers(list.free@, b),
        taken(list, next, offset, size),
    ensures
        held + held_size <= offset || offset + size <= held,
        next.holds(held, held_size),
{
    if held < offset + size && offset < held + held_size {
        let b = if held < offset {
            offset
        } else {
            held
        };
        assert(covers(list.free@, b));
    }
    assert forall|b: int| held <= b < held + held_size implies !#[trigger] covers(next.free@, b) by {
        assert(!covers(list.free@, b));
    }
}

/// What an allocation hands out is in use from then on.
pub proof fn law_allocated_range_is_held(
    list: FreeList,
    next: FreeList,
    offset: int,
    size: int,
)
    requires
        list.wf(),
        size > 0,
        offset >= 0,
        offset + size <= list.capacity,
        taken(list, next, offset, size),
    ensures
        next.holds(offset, size),
{
}

/// Padding never loses bytes: free and used bytes always sum to the capacity.
pub proof fn law_bytes_are_conserved(list: FreeList)
    requires
        list.wf(),
    ensures
        list.used + total(list.free@) == list.capacity,
{
    if list.capacity == 0 {
        lemma_total_one(FreeRange { offset: 0, size: 0 });
    }
}

} // verus!
