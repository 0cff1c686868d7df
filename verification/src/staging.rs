//! A host-visible ring of regions that are lent out and come back once the GPU
//! is past a timeline value.

use vstd::prelude::*;

use crate::free_list;
use crate::free_list::FreeList;

verus! {

/// The timeline value after which a region is free again.
#[derive(Clone, Copy, Debug, PartialEq, Eq, Structural)]
pub enum Stamp {
    Render(u64),
    Transfer(u64),
}

impl Stamp {
    /// The counters have reached the stamp. A transfer stamp waits while there is
    /// no transfer counter.
    pub open spec fn reached(self, render: u64, transfer: Option<u64>) -> bool {
        match self {
            Stamp::Render(v) => v <= render,
            Stamp::Transfer(v) => transfer matches Some(t) && v <= t,
        }
    }
}

/// A lent part of the ring; `len` is the whole reservation.
#[derive(Clone, Copy, Debug, PartialEq, Eq, Structural)]
pub struct StagingRegion {
    pub offset: u64,
    pub len: u64,
}

impl StagingRegion {
    pub open spec fn has(self, b: int) -> bool {
        self.offset <= b < self.offset + free_list::at_least_one(self.len)
    }
}

/// A region in use; without a stamp while its holder still needs it.
#[derive(Clone, Copy, Debug, PartialEq, Eq, Structural)]
pub struct Loan {
    pub region: StagingRegion,
    pub stamp: Option<Stamp>,
}

impl Loan {
    /// The loan ends at these counters.
    pub open spec fn over(self, render: u64, transfer: Option<u64>) -> bool {
        self.stamp matches Some(s) && s.reached(render, transfer)
    }
}

pub struct StagingRing {
    pub align: u64,
    pub list: FreeList,
    pub loans: Vec<Loan>,
}

/// No byte is in both regions.
pub open spec fn apart(a: StagingRegion, b: StagingRegion) -> bool {
    a.offset + free_list::at_least_one(a.len) <= b.offset || b.offset + free_list::at_least_one(
        b.len,
    ) <= a.offset
}

/// Some loan is for `region` and has no stamp yet.
pub open spec fn lent(loans: Seq<Loan>, region: StagingRegion) -> bool {
    loans.contains(Loan { region, stamp: None })
}

/// The loan of `region`, if it has no stamp yet, gets `stamp`.
pub open spec fn stamped(loans: Seq<Loan>, region: StagingRegion, stamp: Stamp) -> Seq<Loan> {
    Seq::new(
        loans.len(),
        |i: int|
            if loans[i] == (Loan { region, stamp: None }) {
                Loan { region, stamp: Some(stamp) }
            } else {
                loans[i]
            },
    )
}

/// The loans that end at these counters are gone.
pub open spec fn remaining(loans: Seq<Loan>, render: u64, transfer: Option<u64>) -> Seq<Loan>
    decreases loans.len(),
{
    if loans.len() == 0 {
        Seq::empty()
    } else {
        let rest = remaining(loans.drop_last(), render, transfer);
        if loans.last().over(render, transfer) {
            rest
        } else {
            rest.push(loans.last())
        }
    }
}

/// Lending `bytes` of `before` comes to `r` and leaves `after`: the first free
/// region that holds them, in whole steps of the alignment, or nothing while no
/// free range does.
pub open spec fn lends(
    before: StagingRing,
    bytes: usize,
    r: Option<StagingRegion>,
    after: StagingRing,
) -> bool {
    &&& after.align == before.align
    &&& after.list.capacity == before.list.capacity
    &&& match r {
        Some(region) => {
            &&& region.len == free_list::align_up(bytes as int, before.align as int)
            &&& region.offset % before.align == 0
            &&& free_list::first_fit(
                before.list.free@,
                free_list::at_least_one(region.len),
                before.align as int,
                region.offset as int,
            )
            &&& after.loans@ == before.loans@.push((Loan { region, stamp: None }))
            &&& forall|b: int| #[trigger]
                free_list::covers(after.list.free@, b) <==> free_list::covers(before.list.free@, b)
                    && !region.has(b)
        },
        None => {
            &&& after == before
            &&& forall|i: int|
                0 <= i < before.list.free.len() ==> !free_list::fits(
                    #[trigger] before.list.free[i],
                    if bytes == 0 {
                        1
                    } else {
                        free_list::align_up(bytes as int, before.align as int)
                    },
                    before.align as int,
                )
        },
    }
}

/// Giving `region` back turns `before` into `after`: an unstamped loan of it ends
/// and its bytes are free. A region that is not lent so changes nothing.
pub open spec fn gives_back(
    before: StagingRing,
    region: StagingRegion,
    after: StagingRing,
) -> bool {
    &&& after.align == before.align
    &&& after.list.capacity == before.list.capacity
    &&& !lent(before.loans@, region) ==> after == before
    &&& lent(before.loans@, region) ==> {
        &&& exists|k: int|
            0 <= k < before.loans.len() && before.loans@[k] == (Loan { region, stamp: None })
                && #[trigger] before.loans@.remove(k) == after.loans@
        &&& forall|b: int| #[trigger]
            free_list::covers(after.list.free@, b) <==> free_list::covers(before.list.free@, b)
                || region.has(b)
    }
}

impl StagingRing {
    pub open spec fn wf(&self) -> bool {
        &&& self.align > 0
        &&& self.list.wf()
        &&& forall|k: int|
            0 <= k < self.loans.len() ==> self.list.holds(
                (#[trigger] self.loans[k]).region.offset as int,
                free_list::at_least_one(self.loans[k].region.len),
            )
        &&& forall|j: int, k: int|
            0 <= j < k < self.loans.len() ==> apart(
                (#[trigger] self.loans[j]).region,
                (#[trigger] self.loans[k]).region,
            )
    }

    pub fn new(size: u64, align: u64) -> (r: Self)
        requires
            align > 0,
        ensures
            r.wf(),
            r.align == align,
            r.list.capacity == size,
            r.list.free@ == seq![free_list::FreeRange { offset: 0, size }],
            r.loans@ == Seq::<Loan>::empty(),
    {
        StagingRing { align, list: FreeList::new(size), loans: Vec::new() }
    }

    /// Bytes of the whole ring.
    pub fn capacity(&self) -> (r: u64)
        ensures
            r == self.list.capacity,
    {
        self.list.capacity
    }

    /// Lends the first free region that holds `bytes`, in whole steps of the
    /// ring's alignment. `None` while there is none.
    pub fn acquire(&mut self, bytes: usize) -> (r: Option<StagingRegion>)
        requires
            old(self).wf(),
        ensures
            final(self).wf(),
            lends(*old(self), bytes, r, *final(self)),
    {
        let ghost s0 = *self;
        let want: u64 = bytes as u64;
        proof {
            free_list::lemma_align_up(bytes as int, self.align as int);
            vstd::arithmetic::div_mod::lemma_mod_decreases(want as nat, self.align as nat);
        }
        let over: u64 = want % self.align;
        if over != 0 && want - over > u64::MAX - self.align {
            proof {
                assert forall|i: int| 0 <= i < s0.list.free.len() implies !free_list::fits(
                    #[trigger] s0.list.free[i],
                    if bytes == 0 {
                        1
                    } else {
                        free_list::align_up(bytes as int, s0.align as int)
                    },
                    s0.align as int,
                ) by {
                    free_list::lemma_align_up(s0.list.free[i].offset as int, s0.align as int);
                    if s0.list.capacity == 0 {
                        assert(s0.list.free[i].size == 0);
                    } else {
                        assert(s0.list.free[i].end() <= s0.list.capacity);
                    }
                }
            }
            return None;
        }
        let len: u64 = if over == 0 {
            want
        } else {
            want - over + self.align
        };
        match self.list.allocate(len, self.align) {
            None => {
                proof {
                    assert(len == 0 <==> bytes == 0);
                }
                None
            },
            Some(offset) => {
                let region = StagingRegion { offset, len };
                self.loans.push(Loan { region, stamp: None });
                proof {
                    let n = free_list::at_least_one(len);
                    assert(region.has(offset as int));
                    assert forall|k: int| 0 <= k < self.loans.len() implies self.list.holds(
                        (#[trigger] self.loans[k]).region.offset as int,
                        free_list::at_least_one(self.loans[k].region.len),
                    ) by {
                        if k < s0.loans.len() {
                            assert(self.loans[k] == s0.loans[k]);
                            assert(s0.list.holds(
                                s0.loans[k].region.offset as int,
                                free_list::at_least_one(s0.loans[k].region.len),
                            ));
                        }
                    }
                    assert forall|j: int, k: int|
                        0 <= j < k < self.loans.len() implies apart(
                        (#[trigger] self.loans[j]).region,
                        (#[trigger] self.loans[k]).region,
                    ) by {
                        assert(self.loans[j] == s0.loans[j]);
                        if k < s0.loans.len() {
                            assert(self.loans[k] == s0.loans[k]);
                        } else {
                            let a = s0.loans[j].region;
                            assert(s0.list.holds(
                                a.offset as int,
                                free_list::at_least_one(a.len),
                            ));
                            if !apart(a, region) {
                                let b = if a.offset < region.offset {
                                    region.offset as int
                                } else {
                                    a.offset as int
                                };
                                assert(offset <= b < offset + n);
                                assert(free_list::covers(s0.list.free@, b));
                            }
                        }
                    }
                }
                Some(region)
            },
        }
    }

    /// Position of the unstamped loan of `region`.
    fn find(&self, region: StagingRegion) -> (r: Option<usize>)
        ensures
            match r {
                Some(k) => k < self.loans.len() && self.loans[k as int] == (Loan {
                    region,
                    stamp: None,
                }),
                None => !lent(self.loans@, region),
            },
    {
        let want = Loan { region, stamp: None };
        let mut k: usize = 0;
        while k < self.loans.len()
            invariant
                k <= self.loans.len(),
                want == (Loan { region, stamp: None }),
                forall|j: int| 0 <= j < k ==> #[trigger] self.loans[j] != want,
            decreases self.loans.len() - k,
        {
            let loan: Loan = self.loans[k];
            if loan.stamp.is_none() && loan.region == region {
                return Some(k);
            }
            k = k + 1;
        }
        None
    }

    /// The region comes back once `stamp` is reached. Nothing happens when it is
    /// not lent.
    pub fn stamp(&mut self, region: StagingRegion, stamp: Stamp)
        requires
            old(self).wf(),
        ensures
            final(self).wf(),
            final(self).align == old(self).align,
            final(self).list == old(self).list,
            final(self).loans@ == stamped(old(self).loans@, region, stamp),
    {
        let ghost s0 = *self;
        if let Some(k) = self.find(region) {
            self.loans.set(k, Loan { region, stamp: Some(stamp) });
            proof {
                assert(self.loans@ == s0.loans@.update(
                    k as int,
                    Loan { region, stamp: Some(stamp) },
                ));
                assert forall|i: int| 0 <= i < self.loans.len() implies self.list.holds(
                    (#[trigger] self.loans[i]).region.offset as int,
                    free_list::at_least_one(self.loans[i].region.len),
                ) by {
                    assert(self.loans[i].region == s0.loans[i].region);
                }
                assert forall|i: int, j: int| 0 <= i < j < self.loans.len() implies apart(
                    (#[trigger] self.loans[i]).region,
                    (#[trigger] self.loans[j]).region,
                ) by {
                    assert(self.loans[i].region == s0.loans[i].region);
                    assert(self.loans[j].region == s0.loans[j].region);
                }
                assert forall|i: int| 0 <= i < self.loans.len() implies self.loans@[i] == stamped(
                    s0.loans@,
                    region,
                    stamp,
                )[i] by {
                    if i < k {
                        assert(apart(s0.loans[i].region, s0.loans[k as int].region));
                    } else if i > k {
                        assert(apart(s0.loans[k as int].region, s0.loans[i].region));
                    }
                }
                assert(self.loans@ =~= stamped(s0.loans@, region, stamp));
            }
        } else {
            proof {
                assert forall|i: int| 0 <= i < self.loans.len() implies self.loans@[i] == stamped(
                    s0.loans@,
                    region,
                    stamp,
                )[i] by {
                    assert(s0.loans@.contains(s0.loans@[i]));
                }
                assert(self.loans@ =~= stamped(s0.loans@, region, stamp));
            }
        }
    }

    /// Ends loan `k` at once.
    fn end_loan(&mut self, k: usize)
        requires
            old(self).wf(),
            k < old(self).loans.len(),
        ensures
            final(self).wf(),
            final(self).align == old(self).align,
            final(self).list.capacity == old(self).list.capacity,
            final(self).loans@ == old(self).loans@.remove(k as int),
            forall|b: int| #[trigger]
                free_list::covers(final(self).list.free@, b) <==> free_list::covers(
                    old(self).list.free@,
                    b,
                ) || old(self).loans@[k as int].region.has(b),
    {
        let ghost s0 = *self;
        let loan: Loan = self.loans.remove(k);
        self.list.free(loan.region.offset, loan.region.len);
        proof {
            assert forall|i: int| 0 <= i < self.loans.len() implies self.list.holds(
                (#[trigger] self.loans[i]).region.offset as int,
                free_list::at_least_one(self.loans[i].region.len),
            ) by {
                let from = if i < k {
                    i
                } else {
                    i + 1
                };
                assert(self.loans[i] == s0.loans[from]);
                let r = s0.loans[from].region;
                if from < k {
                    assert(apart(s0.loans[from].region, s0.loans[k as int].region));
                } else {
                    assert(apart(s0.loans[k as int].region, s0.loans[from].region));
                }
                assert(s0.list.holds(r.offset as int, free_list::at_least_one(r.len)));
            }
            assert forall|i: int, j: int| 0 <= i < j < self.loans.len() implies apart(
                (#[trigger] self.loans[i]).region,
                (#[trigger] self.loans[j]).region,
            ) by {
                let a = if i < k {
                    i
                } else {
                    i + 1
                };
                let b = if j < k {
                    j
                } else {
                    j + 1
                };
                assert(self.loans[i] == s0.loans[a]);
                assert(self.loans[j] == s0.loans[b]);
            }
        }
    }

    /// The region comes back at once. Nothing happens when it is not lent.
    pub fn release(&mut self, region: StagingRegion)
        requires
            old(self).wf(),
        ensures
            final(self).wf(),
            gives_back(*old(self), region, *final(self)),
    {
        if let Some(k) = self.find(region) {
            proof {
                assert(lent(self.loans@, region)) by {
                    assert(self.loans@[k as int] == (Loan { region, stamp: None }));
                }
            }
            self.end_loan(k);
        }
    }

    /// Takes back every region whose stamp the counters have reached.
    pub fn reclaim(&mut self, render: u64, transfer: Option<u64>)
        requires
            old(self).wf(),
        ensures
            final(self).wf(),
            final(self).align == old(self).align,
            final(self).list.capacity == old(self).list.capacity,
            final(self).loans@ == remaining(old(self).loans@, render, transfer),
            forall|b: int| #[trigger]
                free_list::covers(final(self).list.free@, b) <==> free_list::covers(
                    old(self).list.free@,
                    b,
                ) || exists|k: int|
                    0 <= k < old(self).loans.len() && old(self).loans@[k].over(render, transfer)
                        && (#[trigger] old(self).loans@[k]).region.has(b),
    {
        let ghost s0 = *self;
        let mut k: usize = 0;
        // Loans looked at so far.
        let ghost mut done: int = 0;
        proof {
            assert(s0.loans@.take(0) =~= Seq::empty());
            assert(s0.loans@.skip(0) =~= s0.loans@);
            assert(remaining(s0.loans@.take(0), render, transfer) =~= Seq::empty());
            assert(self.loans@ =~= remaining(s0.loans@.take(0), render, transfer)
                + s0.loans@.skip(0));
        }
        while k < self.loans.len()
            invariant
                self.wf(),
                self.align == s0.align,
                self.list.capacity == s0.list.capacity,
                0 <= done <= s0.loans.len(),
                k == remaining(s0.loans@.take(done), render, transfer).len(),
                self.loans@ == remaining(s0.loans@.take(done), render, transfer)
                    + s0.loans@.skip(done),
                forall|b: int| #[trigger]
                    free_list::covers(self.list.free@, b) <==> free_list::covers(s0.list.free@, b)
                        || exists|j: int|
                        0 <= j < done && s0.loans@[j].over(render, transfer) && (
                        #[trigger] s0.loans@[j]).region.has(b),
            decreases s0.loans.len() - done,
        {
            let loan: Loan = self.loans[k];
            let over: bool = match loan.stamp {
                None => false,
                Some(Stamp::Render(v)) => v <= render,
                Some(Stamp::Transfer(v)) => match transfer {
                    None => false,
                    Some(t) => v <= t,
                },
            };
            let ghost before = *self;
            proof {
                assert(done < s0.loans.len());
                assert(loan == s0.loans@[done]);
                assert(over == loan.over(render, transfer));
                assert(s0.loans@.take(done + 1).drop_last() =~= s0.loans@.take(done));
                assert(s0.loans@.take(done + 1).last() == s0.loans@[done]);
            }
            if over {
                self.end_loan(k);
                proof {
                    assert(self.loans@ =~= remaining(s0.loans@.take(done + 1), render, transfer)
                        + s0.loans@.skip(done + 1));
                    assert forall|b: int| #[trigger]
                        free_list::covers(self.list.free@, b) <==> free_list::covers(
                            s0.list.free@,
                            b,
                        ) || exists|j: int|
                            0 <= j < done + 1 && s0.loans@[j].over(render, transfer) && (
                            #[trigger] s0.loans@[j]).region.has(b) by {
                        assert(free_list::covers(before.list.free@, b) <==> free_list::covers(
                            s0.list.free@,
                            b,
                        ) || exists|j: int|
                            0 <= j < done && s0.loans@[j].over(render, transfer) && (
                            #[trigger] s0.loans@[j]).region.has(b));
                        if s0.loans@[done].region.has(b) {
                            assert(s0.loans@[done].over(render, transfer));
                        }
                    }
                }
            } else {
                k = k + 1;
                proof {
                    assert(self.loans@ =~= remaining(s0.loans@.take(done + 1), render, transfer)
                        + s0.loans@.skip(done + 1));
                }
            }
            proof {
                done = done + 1;
            }
        }
        proof {
            assert(s0.loans@.skip(done).len() == 0);
            assert(s0.loans@.take(done) =~= s0.loans@);
            assert(self.loans@ =~= remaining(s0.loans@, render, transfer));
        }
    }
}

/// A loan stays out exactly until its stamp is reached: whatever is unstamped or
/// not yet reached survives a reclaim, whatever is reached does not.
pub proof fn law_loans_end_exactly_when_reached(
    loans: Seq<Loan>,
    render: u64,
    transfer: Option<u64>,
    loan: Loan,
)
    ensures
        remaining(loans, render, transfer).contains(loan) <==> loans.contains(loan) && !loan.over(
            render,
            transfer,
        ),
    decreases loans.len(),
{
    let after = remaining(loans, render, transfer);
    if loans.len() > 0 {
        let init = loans.drop_last();
        let rest = remaining(init, render, transfer);
        law_loans_end_exactly_when_reached(init, render, transfer, loan);
        assert(loans =~= init.push(loans.last()));
        assert(loans.contains(loan) <==> init.contains(loan) || loan == loans.last()) by {
            if loans.contains(loan) {
                let k = choose|k: int| 0 <= k < loans.len() && loans[k] == loan;
                if k < init.len() {
                    assert(init[k] == loan);
                }
            }
            if init.contains(loan) {
                let k = choose|k: int| 0 <= k < init.len() && init[k] == loan;
                assert(loans[k] == loan);
            }
            assert(loans[loans.len() - 1] == loans.last());
        }
        if !loans.last().over(render, transfer) {
            assert(after.contains(loan) <==> rest.contains(loan) || loan == loans.last()) by {
                if after.contains(loan) {
                    let k = choose|k: int| 0 <= k < after.len() && after[k] == loan;
                    if k < rest.len() {
                        assert(rest[k] == loan);
                    }
                }
                if rest.contains(loan) {
                    let k = choose|k: int| 0 <= k < rest.len() && rest[k] == loan;
                    assert(after[k] == loan);
                }
                assert(after[after.len() - 1] == loans.last());
            }
        }
    }
}

/// A stamp marks the loan of its region and no other, and leaves a loan that has a stamp as
/// it is.
pub proof fn law_a_stamp_marks_its_own_loan(
    loans: Seq<Loan>,
    region: StagingRegion,
    stamp: Stamp,
    i: int,
)
    requires
        0 <= i < loans.len(),
    ensures
        stamped(loans, region, stamp).len() == loans.len(),
        stamped(loans, region, stamp)[i].region == loans[i].region,
        loans[i].region == region && loans[i].stamp is None ==> stamped(
            loans,
            region,
            stamp,
        )[i].stamp == Some(stamp),
        loans[i].region != region || loans[i].stamp is Some ==> stamped(loans, region, stamp)[i]
            == loans[i],
{
}

/// A region that is given back is free again, and nothing else is; one that was not lent
/// changes nothing.
pub proof fn law_a_region_given_back_is_free(
    before: StagingRing,
    region: StagingRegion,
    after: StagingRing,
    b: int,
)
    requires
        gives_back(before, region, after),
    ensures
        after.list.capacity == before.list.capacity,
        after.align == before.align,
        lent(before.loans@, region) ==> after.loans.len() == before.loans.len() - 1,
        lent(before.loans@, region) && region.offset <= b < region.offset + region.len
            ==> free_list::covers(after.list.free@, b),
        free_list::covers(before.list.free@, b) ==> free_list::covers(after.list.free@, b),
        !lent(before.loans@, region) ==> after == before,
{
}

/// A region that is lent was free, is no longer, and starts and ends on whole steps of the
/// alignment.
pub proof fn law_a_lent_region_was_free(
    before: StagingRing,
    bytes: usize,
    region: StagingRegion,
    after: StagingRing,
    b: int,
)
    requires
        before.align > 0,
        lends(before, bytes, Some(region), after),
    ensures
        region.offset % before.align == 0,
        region.len >= bytes,
        region.has(b) ==> !free_list::covers(after.list.free@, b),
        !region.has(b) ==> free_list::covers(after.list.free@, b) == free_list::covers(
            before.list.free@,
            b,
        ),
        after.loans.len() == before.loans.len() + 1,
{
    free_list::lemma_align_up(bytes as int, before.align as int);
}

} // verus!
