//! The space of the cold tier: which ranges of the backing file are taken.

use crate::error::VugvaError;
use crate::range_alloc::RangeAllocator;
use crate::ranges::{self, Ranges, ALIGN};
use vstd::prelude::*;

verus! {

/// The space of a backing file of fixed size. The file itself belongs to the
/// caller.
#[derive(Debug)]
pub struct SpillFile {
    /// What of the file is taken, by offset.
    pub ranges: RangeAllocator,
}

impl View for SpillFile {
    type V = Ranges;

    open spec fn view(&self) -> Ranges {
        self.ranges@
    }
}

/// The answer to a request for space, as an offset in the file.
pub open spec fn reservation(v: Ranges, bytes: int) -> Result<u64, VugvaError> {
    match v.answer(bytes) {
        Ok(off) => Ok(off as u64),
        Err(e) => Err(e),
    }
}

impl SpillFile {
    /// An empty file of `capacity` bytes.
    pub fn create(capacity: usize) -> (r: Self)
        ensures
            r@.wf(),
            r@ == (Ranges { capacity, offset: 0, blocks: Seq::empty() }),
    {
        SpillFile { ranges: RangeAllocator::new(capacity) }
    }

    /// Size of the file in bytes.
    pub fn capacity(&self) -> (r: usize)
        ensures
            r == self@.capacity,
    {
        self.ranges.capacity()
    }

    /// Bytes taken.
    pub fn used(&self) -> (r: usize)
        requires
            self@.wf(),
        ensures
            r == self@.used(),
    {
        self.ranges.used()
    }

    /// Take `bytes` of the file. The result is the offset of the first.
    pub fn reserve(&mut self, bytes: usize) -> (r: Result<u64, VugvaError>)
        requires
            old(self)@.wf(),
            bytes <= usize::MAX - (ALIGN - 1),
        ensures
            final(self)@.wf(),
            r == reservation(old(self)@, bytes as int),
            final(self)@ == old(self)@.grant(bytes as int),
    {
        let ghost pre = self.ranges@;
        let r = self.ranges.allocate(bytes);
        proof {
            ranges::law_allocation_is_determined(pre, bytes as int, r, self.ranges@);
        }
        match r {
            Ok(off) => Ok(off as u64),
            Err(e) => Err(e),
        }
    }

    /// Conclude a write to a range that was reserved for it: a range whose write
    /// failed is given back, so that the reservation is not stranded.
    pub fn settle(
        &mut self,
        offset: u64,
        bytes: usize,
        outcome: Result<(), std::io::Error>,
    ) -> (r: Result<u64, VugvaError>)
        requires
            old(self)@.wf(),
            bytes <= usize::MAX - (ALIGN - 1),
            offset <= usize::MAX,
        ensures
            final(self)@.wf(),
            match outcome {
                Ok(_) => r == Ok::<u64, VugvaError>(offset) && final(self)@ == old(self)@,
                Err(e) => r == Err::<u64, VugvaError>(VugvaError::Io(e)) && final(self)@ == old(
                    self,
                )@.give_back(offset as int, bytes as int),
            },
    {
        match outcome {
            Ok(_) => Ok(offset),
            Err(e) => {
                self.free(offset, bytes);
                Err(VugvaError::Io(e))
            },
        }
    }

    /// Give back `bytes` at `offset`.
    pub fn free(&mut self, offset: u64, bytes: usize)
        requires
            old(self)@.wf(),
            bytes <= usize::MAX - (ALIGN - 1),
            offset <= usize::MAX,
        ensures
            final(self)@.wf(),
            final(self)@ == old(self)@.give_back(offset as int, bytes as int),
    {
        let ghost pre = self.ranges@;
        self.ranges.free(offset as usize, bytes);
        proof {
            ranges::law_release_is_determined(pre, offset as int, bytes as int, self.ranges@);
        }
    }
}

/// A write that fails leaves the file as it was before space was reserved for
/// it.
pub proof fn law_failed_write_strands_nothing(v: Ranges, bytes: int, offset: u64)
    requires
        v.wf(),
        bytes >= 0,
        reservation(v, bytes) == Ok::<u64, VugvaError>(offset),
    ensures
        v.grant(bytes).give_back(offset as int, bytes) == v,
{
    let off = v.answer(bytes)->Ok_0;
    assert(off as u64 == off);
    ranges::lemma_answer_is_allocated(v, bytes);
    ranges::lemma_allocated(v, bytes, off, v.grant(bytes));
    ranges::lemma_free_after_allocate(v, bytes, off, v.grant(bytes));
    ranges::law_release_is_determined(v.grant(bytes), off as int, bytes, v);
}

} // verus!
