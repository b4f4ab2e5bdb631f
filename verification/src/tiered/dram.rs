//! Host memory for one GPU: an address range handed out piece by piece.

use crate::error::VugvaError;
use crate::range_alloc::RangeAllocator;
use crate::ranges::{self, Ranges, ALIGN};
use vstd::prelude::*;

verus! {

/// The host memory pool of one GPU.
#[derive(Debug)]
pub struct DramPool {
    /// NUMA node that the pool was placed on.
    pub numa_node: usize,
    /// Ordinal of the GPU that the pool serves.
    pub gpu_ordinal: i32,
    /// Address of the first byte.
    pub base_ptr: usize,
    /// What of the pool is handed out, by offset from the first byte.
    pub ranges: RangeAllocator,
    /// The pool really is bound to its node. Where it is not it works, but its
    /// memory may be remote.
    pub numa_bound: bool,
    /// The pool is page-locked, so that a device can copy out of it without
    /// the host's help.
    pub pinned: bool,
}

/// What a [`DramPool`] stands for.
#[verifier::ext_equal]
pub struct Dram {
    /// NUMA node that the pool was placed on.
    pub numa_node: usize,
    /// Ordinal of the GPU that the pool serves.
    pub gpu_ordinal: i32,
    /// Address of the first byte.
    pub base_ptr: usize,
    /// What of the pool is handed out.
    pub ranges: Ranges,
    /// The pool is bound to its node.
    pub numa_bound: bool,
    /// The pool is page-locked.
    pub pinned: bool,
}

impl Dram {
    /// The free blocks are in order, and every byte of the pool has an address.
    pub open spec fn wf(self) -> bool {
        self.ranges.wf() && self.base_ptr + self.ranges.capacity <= usize::MAX
    }

    /// The answer to a request for `bytes`: an address.
    pub open spec fn answer(self, bytes: int) -> Result<usize, VugvaError> {
        match self.ranges.answer(bytes) {
            Ok(off) => Ok((self.base_ptr + off) as usize),
            Err(e) => Err(e),
        }
    }

    /// The pool after a request for `bytes`.
    pub open spec fn grant(self, bytes: int) -> Dram {
        Dram { ranges: self.ranges.grant(bytes), ..self }
    }

    /// The address `ptr` lies in the pool.
    pub open spec fn owns(self, ptr: usize) -> bool {
        self.base_ptr <= ptr < self.base_ptr + self.ranges.capacity
    }

    /// The pool after `bytes` at `ptr` are given back: an address outside the
    /// pool changes nothing.
    pub open spec fn give_back(self, ptr: usize, bytes: int) -> Dram {
        if self.owns(ptr) {
            Dram { ranges: self.ranges.give_back(ptr - self.base_ptr, bytes), ..self }
        } else {
            self
        }
    }

    /// The byte at address `x` is handed out.
    pub open spec fn live(self, x: int) -> bool {
        self.ranges.live(x - self.base_ptr)
    }
}

/// A pool hands out memory that is its own and that is not handed out already.
pub proof fn law_answers_are_free_memory(d: Dram, bytes: int, ptr: usize)
    requires
        d.wf(),
        bytes >= 0,
        d.answer(bytes) == Ok::<usize, VugvaError>(ptr),
    ensures
        d.base_ptr <= ptr,
        ptr + bytes <= d.base_ptr + d.ranges.capacity,
        d.grant(bytes).wf(),
        forall|x: int| ptr <= x < ptr + bytes ==> !#[trigger] d.live(x) && d.grant(bytes).live(x),
        forall|x: int| #[trigger] d.live(x) ==> d.grant(bytes).live(x),
{
    let need = ranges::aligned(bytes);
    let off = d.ranges.answer(bytes)->Ok_0;
    ranges::lemma_answer_is_allocated(d.ranges, bytes);
    ranges::lemma_allocated(d.ranges, bytes, off, d.ranges.grant(bytes));
    assert(need >= bytes);
    assert forall|x: int| ptr <= x < ptr + bytes implies !#[trigger] d.live(x) && d.grant(
        bytes,
    ).live(x) by {
        assert(!d.ranges.live(x - d.base_ptr));
        assert(d.ranges.grant(bytes).live(x - d.base_ptr));
    }
    assert forall|x: int| #[trigger] d.live(x) implies d.grant(bytes).live(x) by {
        assert(d.ranges.grant(bytes).live(x - d.base_ptr));
    }
}

/// Giving back what was just handed out restores the pool.
pub proof fn law_give_back_undoes_grant(d: Dram, bytes: int, ptr: usize)
    requires
        d.wf(),
        bytes >= 0,
        d.answer(bytes) == Ok::<usize, VugvaError>(ptr),
    ensures
        d.grant(bytes).give_back(ptr, bytes) == d,
{
    law_answers_are_free_memory(d, bytes, ptr);
    let off = d.ranges.answer(bytes)->Ok_0;
    let mid = d.ranges.grant(bytes);
    ranges::lemma_answer_is_allocated(d.ranges, bytes);
    ranges::lemma_allocated(d.ranges, bytes, off, mid);
    ranges::lemma_free_after_allocate(d.ranges, bytes, off, mid);
    ranges::law_release_is_determined(mid, off as int, bytes, d.ranges);
}

/// What a pool gives back to is at most one of several pools whose address
/// ranges do not overlap.
pub proof fn law_only_the_owner_changes(a: Dram, b: Dram, ptr: usize, bytes: int)
    requires
        a.base_ptr + a.ranges.capacity <= b.base_ptr || b.base_ptr + b.ranges.capacity
            <= a.base_ptr,
    ensures
        a.give_back(ptr, bytes) == a || b.give_back(ptr, bytes) == b,
{
}

impl View for DramPool {
    type V = Dram;

    open spec fn view(&self) -> Dram {
        Dram {
            numa_node: self.numa_node,
            gpu_ordinal: self.gpu_ordinal,
            base_ptr: self.base_ptr,
            ranges: self.ranges@,
            numa_bound: self.numa_bound,
            pinned: self.pinned,
        }
    }
}

/// What a host pool stands for is all that it holds.
pub proof fn law_a_host_pool_is_what_it_holds(pool: DramPool)
    ensures
        pool@.numa_node == pool.numa_node,
        pool@.gpu_ordinal == pool.gpu_ordinal,
        pool@.base_ptr == pool.base_ptr,
        pool@.ranges == pool.ranges@,
        pool@.numa_bound == pool.numa_bound,
        pool@.pinned == pool.pinned,
{
}

impl DramPool {
    /// A pool of `capacity` bytes from address `base_ptr` on, nothing handed
    /// out.
    pub fn new(
        numa_node: usize,
        gpu_ordinal: i32,
        base_ptr: usize,
        capacity: usize,
        numa_bound: bool,
        pinned: bool,
    ) -> (r: Self)
        requires
            base_ptr + capacity <= usize::MAX,
        ensures
            r@.wf(),
            r@ == (Dram {
                numa_node,
                gpu_ordinal,
                base_ptr,
                ranges: Ranges { capacity, offset: 0, blocks: Seq::empty() },
                numa_bound,
                pinned,
            }),
    {
        DramPool {
            numa_node,
            gpu_ordinal,
            base_ptr,
            ranges: RangeAllocator::new(capacity),
            numa_bound,
            pinned,
        }
    }

    /// Hand out `bytes`, from the tightest free block that holds them where
    /// there is one. The result is an address.
    pub fn allocate(&mut self, bytes: usize) -> (r: Result<usize, VugvaError>)
        requires
            old(self)@.wf(),
            bytes <= usize::MAX - (ALIGN - 1),
        ensures
            final(self)@.wf(),
            r == old(self)@.answer(bytes as int),
            final(self)@ == old(self)@.grant(bytes as int),
    {
        let ghost pre = self.ranges@;
        let r = self.ranges.allocate(bytes);
        proof {
            ranges::law_allocation_is_determined(pre, bytes as int, r, self.ranges@);
            if let Ok(off) = r {
                ranges::lemma_allocated(pre, bytes as int, off, self.ranges@);
            }
        }
        match r {
            Ok(off) => Ok(self.base_ptr + off),
            Err(e) => Err(e),
        }
    }

    /// Give back `bytes` at address `ptr`. An address outside the pool is
    /// ignored, and so is a range of which any byte is not handed out.
    pub fn free(&mut self, ptr: usize, bytes: usize)
        requires
            old(self)@.wf(),
            old(self)@.owns(ptr) ==> bytes <= usize::MAX - (ALIGN - 1),
        ensures
            final(self)@.wf(),
            final(self)@ == old(self)@.give_back(ptr, bytes as int),
    {
        if ptr < self.base_ptr || ptr - self.base_ptr >= self.ranges.capacity() {
            return;
        }
        let ghost pre = self.ranges@;
        let off: usize = ptr - self.base_ptr;
        self.ranges.free(off, bytes);
        proof {
            assert(self.ranges@.capacity == pre.capacity);
            ranges::law_release_is_determined(pre, off as int, bytes as int, self.ranges@);
        }
    }

    /// Bytes handed out.
    pub fn used(&self) -> (r: usize)
        requires
            self@.wf(),
        ensures
            r == self@.ranges.used(),
            r <= self@.ranges.capacity,
    {
        self.ranges.used()
    }

    /// Size of the pool in bytes.
    pub fn capacity(&self) -> (r: usize)
        ensures
            r == self@.ranges.capacity,
    {
        self.ranges.capacity()
    }

    /// High-water mark: nothing at or above this offset is handed out.
    pub fn offset(&self) -> (r: usize)
        ensures
            r == self@.ranges.offset,
    {
        self.ranges.high_water()
    }

    /// The free blocks `(offset, length)` by ascending offset.
    pub fn free_blocks(&self) -> (r: &Vec<(usize, usize)>)
        ensures
            r@ == self@.ranges.blocks,
    {
        self.ranges.free_blocks()
    }
}

} // verus!
