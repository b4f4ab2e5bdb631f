//! A coalescing best-fit allocator over a flat range of offsets.
//!
//! Two tiers hand out sub-ranges of a fixed region and take them back: one has
//! its region in host memory, the other in a file. The allocator deals in
//! offsets, so it serves both.

use crate::error::VugvaError;
pub use crate::ranges::ALIGN;
use crate::ranges::{self, Ranges};
use vstd::prelude::*;

verus! {

/// Best-fit allocator over `[0, capacity)`.
#[derive(Debug)]
pub struct RangeAllocator {
    capacity: usize,
    offset: usize,
    free_blocks: Vec<(usize, usize)>,
}

impl View for RangeAllocator {
    type V = Ranges;

    closed spec fn view(&self) -> Ranges {
        Ranges { capacity: self.capacity, offset: self.offset, blocks: self.free_blocks@ }
    }
}

impl RangeAllocator {
    /// An allocator over a region of `capacity` bytes, nothing handed out.
    pub fn new(capacity: usize) -> (r: Self)
        ensures
            r@.wf(),
            r@ == (Ranges { capacity, offset: 0, blocks: Seq::empty() }),
    {
        RangeAllocator { capacity, offset: 0, free_blocks: Vec::new() }
    }

    /// Round up to [`ALIGN`].
    pub fn align(bytes: usize) -> (r: usize)
        requires
            bytes <= usize::MAX - (ALIGN - 1),
        ensures
            r == ranges::aligned(bytes as int),
            r >= bytes,
            r - bytes < ALIGN,
            r % ALIGN == 0,
    {
        let sum: usize = bytes + (ALIGN - 1);
        sum / ALIGN * ALIGN
    }

    /// Total size of the region.
    pub fn capacity(&self) -> (r: usize)
        ensures
            r == self@.capacity,
    {
        self.capacity
    }

    /// Bytes handed out.
    pub fn used(&self) -> (r: usize)
        requires
            self@.wf(),
        ensures
            r == self@.used(),
            r <= self@.capacity,
    {
        let mut total: usize = 0;
        let mut i: usize = 0;
        while i < self.free_blocks.len()
            invariant
                self@.wf(),
                0 <= i <= self.free_blocks@.len(),
                total == ranges::total_len(self.free_blocks@.take(i as int)),
            decreases self.free_blocks@.len() - i,
        {
            proof {
                ranges::lemma_total_bound(self@, i + 1);
                assert(self.free_blocks@.take(i + 1).drop_last() =~= self.free_blocks@.take(
                    i as int,
                ));
            }
            total = total + self.free_blocks[i].1;
            i = i + 1;
        }
        proof {
            ranges::lemma_total_bound(self@, self.free_blocks@.len() as int);
            assert(self.free_blocks@.take(i as int) =~= self.free_blocks@);
        }
        self.offset - total
    }

    /// Number of distinct free blocks.
    pub fn free_block_count(&self) -> (r: usize)
        ensures
            r == self@.blocks.len(),
    {
        self.free_blocks.len()
    }

    /// High-water mark: nothing at or above it is handed out.
    pub fn high_water(&self) -> (r: usize)
        ensures
            r == self@.offset,
    {
        self.offset
    }

    /// The free blocks `(offset, length)` by ascending offset.
    pub fn free_blocks(&self) -> (r: &Vec<(usize, usize)>)
        ensures
            r@ == self@.blocks,
    {
        &self.free_blocks
    }

    /// The tightest free block that holds `need` bytes.
    fn tightest(&self, need: usize) -> (r: Option<usize>)
        ensures
            r is None <==> !self@.fits(need as int),
            r matches Some(i) ==> self@.is_tightest(i as int, need as int),
    {
        let mut best: Option<usize> = None;
        let mut i: usize = 0;
        while i < self.free_blocks.len()
            invariant
                0 <= i <= self.free_blocks@.len(),
                best is None ==> forall|j: int|
                    0 <= j < i ==> (#[trigger] self.free_blocks@[j]).1 < need,
                best matches Some(b) ==> {
                    &&& b < i
                    &&& self.free_blocks@[b as int].1 >= need
                    &&& forall|j: int|
                        #![trigger self.free_blocks@[j]]
                        0 <= j < i && self.free_blocks@[j].1 >= need ==> {
                            &&& self.free_blocks@[b as int].1 <= self.free_blocks@[j].1
                            &&& j < b ==> self.free_blocks@[b as int].1 < self.free_blocks@[j].1
                        }
                },
            decreases self.free_blocks@.len() - i,
        {
            let len: usize = self.free_blocks[i].1;
            if len >= need {
                let better = match best {
                    None => true,
                    Some(b) => len < self.free_blocks[b].1,
                };
                if better {
                    best = Some(i);
                }
            }
            i = i + 1;
        }
        proof {
            if let Some(b) = best {
                assert(self@.blocks[b as int].1 >= need);
            }
        }
        best
    }

    /// Carve out `bytes`, reusing the tightest free block that holds them, and
    /// raising the high-water mark only when none does.
    pub fn allocate(&mut self, bytes: usize) -> (r: Result<usize, VugvaError>)
        requires
            old(self)@.wf(),
            bytes <= usize::MAX - (ALIGN - 1),
        ensures
            final(self)@.wf(),
            final(self)@.capacity == old(self)@.capacity,
            ranges::allocated(old(self)@, bytes as int, r, final(self)@),
            r matches Ok(off) ==> {
                &&& off + ranges::aligned(bytes as int) <= old(self)@.capacity
                &&& forall|x: int|
                    off <= x < off + ranges::aligned(bytes as int) ==> !#[trigger] old(self)@.live(x)
                &&& forall|x: int| #[trigger]
                    final(self)@.live(x) <==> old(self)@.live(x) || off <= x < off + ranges::aligned(
                        bytes as int,
                    )
                &&& final(self)@.used() == old(self)@.used() + ranges::aligned(bytes as int)
            },
    {
        let need: usize = Self::align(bytes);
        if let Some(i) = self.tightest(need) {
            let (off, len) = self.free_blocks[i];
            proof {
                ranges::lemma_cut(old(self)@, i as int, need as int);
            }
            if len == need {
                self.free_blocks.remove(i);
            } else {
                self.free_blocks.set(i, (off + need, len - need));
            }
            assert(self@ =~= old(self)@.cut(i as int, need as int));
            return Ok(off);
        }
        if need > self.capacity - self.offset {
            let used: usize = self.used();
            return Err(
                VugvaError::DramOom {
                    requested: need,
                    available: self.capacity - used,
                    capacity: self.capacity,
                },
            );
        }
        let off: usize = self.offset;
        self.offset = off + need;
        proof {
            assert(self@ =~= old(self)@.extend(need as int));
            ranges::lemma_extend(old(self)@, need as int);
        }
        Ok(off)
    }

    /// Position of the first free block that starts at `off` or above.
    fn position(&self, off: usize) -> (r: usize)
        requires
            self@.wf(),
        ensures
            r <= self@.blocks.len(),
            forall|j: int| 0 <= j < r ==> (#[trigger] self@.blocks[j]).0 < off,
            forall|j: int| r <= j < self@.blocks.len() ==> (#[trigger] self@.blocks[j]).0 >= off,
    {
        let mut lo: usize = 0;
        let mut hi: usize = self.free_blocks.len();
        while lo < hi
            invariant
                self@.wf(),
                0 <= lo <= hi <= self.free_blocks@.len(),
                forall|j: int| 0 <= j < lo ==> (#[trigger] self@.blocks[j]).0 < off,
                forall|j: int|
                    hi <= j < self@.blocks.len() ==> (#[trigger] self@.blocks[j]).0 >= off,
            decreases hi - lo,
        {
            let mid: usize = lo + (hi - lo) / 2;
            assert(self@.blocks[mid as int] == self.free_blocks@[mid as int]);
            if self.free_blocks[mid].0 < off {
                lo = mid + 1;
            } else {
                hi = mid;
            }
        }
        lo
    }

    /// Return a range handed out before.
    ///
    /// The range merges with free neighbours on both sides, and if the result
    /// reaches the high-water mark, the mark comes down instead of a block
    /// being parked below it. A range of which any byte is not handed out is
    /// dropped: leaking it is better than handing the same bytes to two
    /// callers.
    #[verifier::spinoff_prover]
    #[verifier::rlimit(40)]
    pub fn free(&mut self, off: usize, bytes: usize)
        requires
            old(self)@.wf(),
            bytes <= usize::MAX - (ALIGN - 1),
        ensures
            final(self)@.wf(),
            ranges::freed(old(self)@, off as int, bytes as int, final(self)@),
    {
        let len: usize = Self::align(bytes);
        if len == 0 {
            return;
        }
        let ghost pre = self@;
        if len > self.offset || off > self.offset - len {
            assert(!pre.live(off + len - 1));
            return;
        }
        let pos: usize = self.position(off);
        let count: usize = self.free_blocks.len();
        if pos < count && off + len > self.free_blocks[pos].0 {
            proof {
                assert(pre.in_block(pos as int, pre.blocks[pos as int].0 as int));
                assert(!pre.live(pre.blocks[pos as int].0 as int));
            }
            return;
        }
        if pos > 0 && self.free_blocks[pos - 1].0 + self.free_blocks[pos - 1].1 > off {
            proof {
                assert(pre.in_block(pos - 1, off as int));
                assert(!pre.live(off as int));
            }
            return;
        }
        let left = pos > 0 && self.free_blocks[pos - 1].0 + self.free_blocks[pos - 1].1 == off;
        let right = pos < count && off + len == self.free_blocks[pos].0;
        let start: usize = if left {
            self.free_blocks[pos - 1].0
        } else {
            off
        };
        let end: usize = if right {
            off + len + self.free_blocks[pos].1
        } else {
            off + len
        };
        let ghost lo: int = if left {
            pos - 1
        } else {
            pos as int
        };
        let ghost hi: int = if right {
            pos + 1
        } else {
            pos as int
        };
        if right {
            self.free_blocks.remove(pos);
        }
        if left {
            self.free_blocks.remove(pos - 1);
        }
        let at: usize = if left {
            pos - 1
        } else {
            pos
        };
        assert(self.free_blocks@ =~= pre.blocks.take(lo) + pre.blocks.skip(hi));
        proof {
            assert forall|x: int|
                start <= x < end && !(off <= x < off + len) implies #[trigger] pre.covered(x) by {
                if x < off {
                    assert(pre.in_block(pos - 1, x));
                } else {
                    assert(pre.in_block(pos as int, x));
                }
            }
            ranges::lemma_release(pre, off as int, len as int, lo, hi, start, end);
        }
        if end == self.offset {
            self.offset = start;
            assert(self@ =~= pre.retracted(lo, start));
        } else {
            self.free_blocks.insert(at, (start, end - start));
            assert(self@ =~= pre.spliced(lo, hi, start, end));
        }
    }
}

} // verus!
