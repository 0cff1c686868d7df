//! Input bytes of compute jobs: lent by a stager, and written before the job is
//! submitted.

use vstd::prelude::*;

use crate::staging;
use crate::staging::{StagingRegion, StagingRing};

verus! {

/// A lent region of the input ring and the bytes that go there.
pub struct ComputeInput {
    region: StagingRegion,
    data: Vec<u8>,
}

impl ComputeInput {
    pub closed spec fn lent(&self) -> StagingRegion {
        self.region
    }

    /// The bytes asked for, not the aligned reservation.
    pub closed spec fn contents(&self) -> Seq<u8> {
        self.data@
    }

    /// Wraps a region that was lent for `requested` bytes.
    pub fn new(region: StagingRegion, requested: usize) -> (r: ComputeInput)
        ensures
            r.lent() == region,
            r.contents() == Seq::new(requested as nat, |i: int| 0u8),
    {
        let mut data: Vec<u8> = Vec::new();
        while data.len() < requested
            invariant
                data.len() <= requested,
                data@ == Seq::new(data.len() as nat, |i: int| 0u8),
            decreases requested - data.len(),
        {
            data.push(0);
            proof {
                assert(data@ =~= Seq::new(data.len() as nat, |i: int| 0u8));
            }
        }
        ComputeInput { region, data }
    }

    pub fn bytes(&self) -> (r: &Vec<u8>)
        ensures
            r@ == self.contents(),
    {
        &self.data
    }

    pub fn region(&self) -> (r: StagingRegion)
        ensures
            r == self.lent(),
    {
        self.region
    }

    /// Copies `data` to the start of the region, unless it does not fit.
    pub fn write(&mut self, data: &[u8]) -> (fits: bool)
        ensures
            fits == (data.len() <= old(self).contents().len()),
            final(self).lent() == old(self).lent(),
            final(self).contents() == if fits {
                data@ + old(self).contents().skip(data.len() as int)
            } else {
                old(self).contents()
            },
    {
        if data.len() > self.data.len() {
            return false;
        }
        let ghost before = self.data@;
        let mut i: usize = 0;
        proof {
            assert(self.data@ =~= data@.take(0) + before.skip(0));
        }
        while i < data.len()
            invariant
                i <= data.len() <= before.len(),
                self.data@ == data@.take(i as int) + before.skip(i as int),
                self.region == old(self).region,
            decreases data.len() - i,
        {
            self.data.set(i, data[i]);
            i = i + 1;
            proof {
                assert(self.data@ =~= data@.take(i as int) + before.skip(i as int));
            }
        }
        proof {
            assert(data@.take(i as int) =~= data@);
        }
        true
    }

    /// Gives the region back to the stager that lent it, without waiting for the
    /// GPU.
    pub fn release(self, stager: &mut ComputeStager)
        requires
            old(stager).ring.wf(),
        ensures
            final(stager).ring.wf(),
            staging::gives_back(old(stager).ring, self.lent(), final(stager).ring),
    {
        stager.ring.release(self.region);
    }
}

/// Lends regions of the input ring.
pub struct ComputeStager {
    pub ring: StagingRing,
}

impl ComputeStager {
    pub fn new(size: u64, align: u64) -> (s: ComputeStager)
        requires
            align > 0,
        ensures
            s.ring.wf(),
            s.ring.align == align,
            s.ring.list.capacity == size,
            s.ring.loans.len() == 0,
    {
        ComputeStager { ring: StagingRing::new(size, align) }
    }

    /// Lends a region for `bytes`; `None` while the ring is exhausted.
    pub fn acquire(&mut self, bytes: usize) -> (r: Option<ComputeInput>)
        requires
            old(self).ring.wf(),
        ensures
            final(self).ring.wf(),
            match r {
                Some(input) => {
                    &&& staging::lends(
                        old(self).ring,
                        bytes,
                        Some(input.lent()),
                        final(self).ring,
                    )
                    &&& input.contents() == Seq::new(bytes as nat, |i: int| 0u8)
                },
                None => staging::lends(old(self).ring, bytes, None, final(self).ring),
            },
    {
        match self.ring.acquire(bytes) {
            Some(region) => Some(ComputeInput::new(region, bytes)),
            None => None,
        }
    }

    pub fn capacity_bytes(&self) -> (r: u64)
        ensures
            r == self.ring.list.capacity,
    {
        self.ring.capacity()
    }
}

} // verus!
