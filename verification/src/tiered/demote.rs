//! Demotion of a page: writing it back to host memory and giving up its device
//! blocks.
//!
//! [`TieredPool::demote`] either finishes at once or names the first piece to be
//! written back. [`TieredPool::resume_demote`] takes what came of it.

use crate::dma;
use crate::error::{self, Failure, VugvaError};
use crate::gpu;
use crate::tiered::model::Pool;
use crate::tiered::TieredPool;
use crate::vmt::{Chunk, DramChunk, PageState, PageView, Tier};
use vstd::prelude::*;
use vstd::string::*;

verus! {

/// Priority of a descriptor for a page that is not needed soon.
pub const COLD: u32 = 0;

/// A piece of a page that is to be copied from the device to host memory. The
/// copy has to land before its device block is used again.
#[derive(Debug, Clone, Copy, PartialEq, Eq, Structural)]
pub struct WriteBack {
    /// Position of the piece in the page.
    pub index: usize,
    /// Index of the GPU.
    pub gpu_idx: usize,
    /// Device block.
    pub device_ptr: u64,
    /// Host memory that it is copied to.
    pub host_ptr: usize,
    /// Size of the block.
    pub bytes: usize,
}

/// What comes next in a demotion.
#[derive(Debug)]
pub enum DemoteStep {
    /// A piece has to be written back first.
    Pending(WriteBack),
    /// The demotion is over.
    Finished(Result<(), VugvaError>),
}

/// What a [`DemoteStep`] stands for.
pub enum Retreat {
    /// A piece has to be written back first.
    Pending(WriteBack),
    /// The demotion is over.
    Finished(Result<(), Failure>),
}

impl View for DemoteStep {
    type V = Retreat;

    open spec fn view(&self) -> Retreat {
        match *self {
            DemoteStep::Pending(w) => Retreat::Pending(w),
            DemoteStep::Finished(r) => Retreat::Finished(error::outcome(r)),
        }
    }
}

impl Pool {
    /// What comes of the demotion of a page: nothing for a page that is not on
    /// a device or that is pinned.
    pub open spec fn demote(self, name: Seq<char>) -> (Pool, Retreat) {
        if !self.has(name) {
            (self, Retreat::Finished(Err(Failure::UnknownAllocation(name))))
        } else if self.page(name).tier != Tier::Vram || self.page(name).pinned {
            (self, Retreat::Finished(Ok(())))
        } else {
            self.write_back(name, 0)
        }
    }

    /// What comes of the demotion once the first `i` pieces are written back.
    pub open spec fn write_back(self, name: Seq<char>, i: int) -> (Pool, Retreat) {
        let page = self.page(name);
        if i >= page.vram_chunks.len() {
            (
                self.with_page(
                    name,
                    PageView {
                        vram_chunks: Seq::empty(),
                        tier: Tier::Dram,
                        state: PageState::Warm,
                        access_count: 0,
                        ..page
                    },
                ),
                Retreat::Finished(Ok(())),
            )
        } else {
            let chunk = page.vram_chunks[i];
            match self.index_of(chunk.gpu_ordinal) {
                None => (
                    self,
                    Retreat::Finished(Err(Failure::InvalidGpu(chunk.gpu_ordinal as usize))),
                ),
                Some(g) => if g >= page.dram_chunks.len() {
                    (self, Retreat::Finished(Err(Failure::UnknownAllocation(name))))
                } else {
                    self.write_piece(name, i, g, chunk, page.dram_chunks[g as int])
                },
            }
        }
    }

    /// What comes of writing the piece `chunk` back to `backing`: a piece that
    /// is larger than its backing is refused, for it would run into memory that
    /// is not the page's.
    pub open spec fn write_piece(
        self,
        name: Seq<char>,
        i: int,
        gpu: usize,
        chunk: Chunk,
        backing: DramChunk,
    ) -> (Pool, Retreat) {
        if chunk.size_bytes > backing.size_bytes {
            (
                self,
                Retreat::Finished(
                    Err(
                        Failure::DramOom {
                            requested: chunk.size_bytes,
                            available: backing.size_bytes,
                            capacity: self.dram[gpu as int].ranges.capacity,
                        },
                    ),
                ),
            )
        } else if self.rings[gpu as int].full() {
            (self, Retreat::Finished(Err(Failure::DmaRingFull)))
        } else {
            let d = dma::writeback(
                gpu,
                chunk.device_ptr,
                backing.host_ptr as u64,
                chunk.size_bytes,
                COLD,
            );
            (
                Pool {
                    rings: self.rings.update(gpu as int, self.rings[gpu as int].push(d)),
                    ..self
                },
                Retreat::Pending(
                    WriteBack {
                        index: i as usize,
                        gpu_idx: gpu,
                        device_ptr: chunk.device_ptr,
                        host_ptr: backing.host_ptr,
                        bytes: chunk.size_bytes,
                    },
                ),
            )
        }
    }

    /// What comes of a demotion once a piece was written back or could not be.
    pub open spec fn resume_demote(
        self,
        name: Seq<char>,
        w: WriteBack,
        event: Result<(), Failure>,
    ) -> (Pool, Retreat) {
        match event {
            Err(e) => (self, Retreat::Finished(Err(e))),
            Ok(_) => self.with_block(w.gpu_idx as int, w.device_ptr, w.bytes).write_back(
                name,
                w.index + 1,
            ),
        }
    }
}

/// A demotion that has written back its last piece leaves the page in host
/// memory, without any device block and with its accesses counted from zero
/// again, so that it is not hot by what it was used before.
pub proof fn law_demoted_page_is_warm(pool: Pool, name: Seq<char>, i: int)
    requires
        pool.has(name),
        pool.write_back(name, i).1 == Retreat::Finished(Ok(())),
    ensures
        pool.write_back(name, i).0.page(name).tier == Tier::Dram,
        pool.write_back(name, i).0.page(name).state == PageState::Warm,
        pool.write_back(name, i).0.page(name).vram_chunks.len() == 0,
        pool.write_back(name, i).0.page(name).access_count == 0,
        pool.hot_threshold > 0 ==> !pool.write_back(name, i).0.is_wanted(name),
        pool.write_back(name, i).0.page(name).dram_chunks == pool.page(name).dram_chunks,
{
}

/// What is written back never exceeds the host memory of the page that it is
/// written to.
pub proof fn law_write_back_stays_in_bounds(pool: Pool, name: Seq<char>, i: int, w: WriteBack)
    requires
        pool.has(name),
        pool.wf(),
        0 <= i <= usize::MAX,
        pool.write_back(name, i).1 == Retreat::Pending(w),
    ensures
        w.index == i,
        w.gpu_idx < pool.page(name).dram_chunks.len(),
        w.host_ptr == pool.page(name).dram_chunks[w.gpu_idx as int].host_ptr,
        w.bytes <= pool.page(name).dram_chunks[w.gpu_idx as int].size_bytes,
        w.device_ptr == pool.page(name).vram_chunks[i].device_ptr,
        w.bytes == pool.page(name).vram_chunks[i].size_bytes,
{
}

/// A piece is written back to the host memory of the GPU that holds it, and the
/// command ring of that GPU is told so: as a writeback that is not needed soon,
/// with the addresses and the size of the copy. No other ring is told anything,
/// and nothing else of the pool changes.
pub proof fn law_write_back_is_told_to_the_ring(
    pool: Pool,
    name: Seq<char>,
    i: int,
    w: WriteBack,
)
    requires
        pool.wf(),
        0 <= i <= usize::MAX,
        forall|g: int| 0 <= g < pool.rings.len() ==> (#[trigger] pool.rings[g]).wf(),
        pool.write_back(name, i).1 == Retreat::Pending(w),
    ensures
        ({
            let after = pool.write_back(name, i).0;
            let g = w.gpu_idx as int;
            let was = pool.rings[g];
            let is = after.rings[g];
            let slot = was.submitted as int % 1024;
            &&& g < pool.cluster.ordinals@.len()
            &&& pool.cluster.ordinals@[g] == pool.page(name).vram_chunks[i].gpu_ordinal
            &&& was.submitted - was.consumer < 1024
            &&& was.submitted < u32::MAX ==> is.submitted == was.submitted + 1
            &&& is.consumer == was.consumer
            &&& is.completed == was.completed
            &&& is.slots[slot].src_addr == w.device_ptr
            &&& is.slots[slot].dst_addr == w.host_ptr as u64
            &&& is.slots[slot].size == w.bytes as u32
            &&& is.slots[slot].src_ordinal == w.gpu_idx as u32
            &&& is.slots[slot].dst_ordinal == w.gpu_idx as u32
            &&& is.slots[slot].priority == 0
            &&& is.slots[slot].flags == 1
            &&& forall|k: int|
                0 <= k < 1024 && k != slot ==> #[trigger] is.slots[k] == was.slots[k]
            &&& forall|h: int|
                0 <= h < pool.rings.len() && h != g ==> #[trigger] after.rings[h] == pool.rings[h]
            &&& after == (Pool { rings: after.rings, ..pool })
        }),
{
    assert(pool.cluster.ordinals@.len() == pool.cluster.ordinals.len());
    gpu::law_position_is_the_last(
        pool.cluster.ordinals@,
        pool.page(name).vram_chunks[i].gpu_ordinal,
    );
    assert(0 <= pool.rings[w.gpu_idx as int].submitted as int % 1024 < 1024);
}

/// A demotion writes back the pieces of the page one after the other, leaves
/// none out and ends behind the last. The block of a piece that was written back
/// can be used again on the GPU that it is on.
pub proof fn law_demotion_goes_on_to_the_end(
    pool: Pool,
    name: Seq<char>,
    w: WriteBack,
    e: Failure,
)
    requires
        pool.wf(),
        w.index < usize::MAX,
        w.gpu_idx < pool.vram_free.len(),
        w.device_ptr != 0,
    ensures
        pool.resume_demote(name, w, Err(e)) == (pool, Retreat::Finished(Err(e))),
        ({
            let (after, step) = pool.resume_demote(name, w, Ok(()));
            let g = w.gpu_idx as int;
            &&& after.vram_free[g] == pool.vram_free[g] + seq![(w.bytes, w.device_ptr)]
            &&& forall|h: int|
                0 <= h < pool.vram_free.len() && h != g ==> #[trigger] after.vram_free[h]
                    == pool.vram_free[h]
            &&& match step {
                Retreat::Pending(next) => next.index == w.index + 1
                    < pool.page(name).vram_chunks.len(),
                Retreat::Finished(r) => r is Ok ==> w.index + 1
                    >= pool.page(name).vram_chunks.len(),
            }
        }),
        ({
            let (after, step) = pool.demote(name);
            step matches Retreat::Pending(first) ==> {
                &&& first.index == 0
                &&& pool.has(name)
                &&& pool.page(name).tier == Tier::Vram
                &&& !pool.page(name).pinned
                &&& after.vram_free == pool.vram_free
            }
        }),
{
    assert(pool.vram_free[w.gpu_idx as int].push((w.bytes, w.device_ptr))
        =~= pool.vram_free[w.gpu_idx as int] + seq![(w.bytes, w.device_ptr)]);
}

/// A demotion is for pages on a device that are not pinned: for any other there
/// is nothing to do, and one of a page that is not known fails. Such a page
/// without any block is demoted at once.
pub proof fn law_demotion_is_for_pages_on_a_device(pool: Pool, name: Seq<char>)
    ensures
        !pool.has(name) ==> pool.demote(name) == (
            pool,
            Retreat::Finished(Err(Failure::UnknownAllocation(name))),
        ),
        pool.has(name) && (pool.page(name).tier != Tier::Vram || pool.page(name).pinned)
            ==> pool.demote(name) == (pool, Retreat::Finished(Ok(()))),
        pool.has(name) && pool.page(name).tier == Tier::Vram && !pool.page(name).pinned ==> {
            let (after, step) = pool.demote(name);
            &&& after.page(name).tier == Tier::Dram <==> step == Retreat::Finished(Ok(()))
            &&& pool.page(name).vram_chunks.len() == 0 ==> step == Retreat::Finished(Ok(()))
            &&& pool.page(name).vram_chunks.len() > 0 ==> step != Retreat::Finished(Ok(()))
        },
{
}

/// A demotion changes of a page where it is and how often it was accessed, and
/// nothing else.
pub proof fn law_demoted_page_keeps_the_rest(pool: Pool, name: Seq<char>, i: int)
    requires
        pool.write_back(name, i).1 == Retreat::Finished(Ok(())),
    ensures
        ({
            let page = pool.write_back(name, i).0.page(name);
            page == (PageView {
                tier: page.tier,
                state: page.state,
                vram_chunks: page.vram_chunks,
                access_count: page.access_count,
                ..pool.page(name)
            })
        }),
{
}

/// A demotion fails for one of a few reasons, and says which it was: the page is
/// not known, or of a piece its GPU is not in the cluster, the page has no host
/// memory there or too little, or the command ring is full.
pub proof fn law_demotion_fails_for_a_reason(
    pool: Pool,
    name: Seq<char>,
    i: int,
    e: Failure,
)
    requires
        pool.wf(),
        0 <= i < pool.page(name).vram_chunks.len(),
    ensures
        pool.demote(name).1 == Retreat::Finished(Err(e)) && !pool.has(name) ==> e
            == Failure::UnknownAllocation(name),
        pool.write_back(name, i).1 == Retreat::Finished(Err(e)) ==> {
            let page = pool.page(name);
            let piece = page.vram_chunks[i];
            ||| !pool.cluster.ordinals@.contains(piece.gpu_ordinal) && e == Failure::InvalidGpu(
                piece.gpu_ordinal as usize,
            )
            ||| exists|g: int|
                0 <= g < pool.cluster.ordinals@.len() && #[trigger] pool.cluster.ordinals@[g]
                    == piece.gpu_ordinal && ({
                    ||| g >= page.dram_chunks.len() && e == Failure::UnknownAllocation(name)
                    ||| g < page.dram_chunks.len() && piece.size_bytes
                        > page.dram_chunks[g].size_bytes && e == (Failure::DramOom {
                        requested: piece.size_bytes,
                        available: page.dram_chunks[g].size_bytes,
                        capacity: pool.dram[g].ranges.capacity,
                    })
                    ||| g < page.dram_chunks.len() && pool.rings[g].submitted
                        - pool.rings[g].consumer >= 1024 && e == Failure::DmaRingFull
                })
        },
{
    let piece = pool.page(name).vram_chunks[i];
    assert(pool.cluster.ordinals@.len() == pool.cluster.ordinals.len());
    gpu::law_position_is_the_last(pool.cluster.ordinals@, piece.gpu_ordinal);
    if let Some(g) = pool.index_of(piece.gpu_ordinal) {
        assert(pool.cluster.ordinals@[g as int] == piece.gpu_ordinal);
    }
}

impl TieredPool {
    fn write_back(&mut self, name: &str, i: usize) -> (r: DemoteStep)
        requires
            old(self).wf(),
            old(self)@.has(name@),
        ensures
            final(self).wf(),
            (final(self)@, r@) == old(self)@.write_back(name@, i as int),
            r matches DemoteStep::Pending(w) ==> final(self)@.has(name@) && w.index < usize::MAX,
    {
        let page = match self.vmt.lookup(name) {
            Some(p) => p,
            None => {
                return DemoteStep::Finished(Ok(()));
            },
        };
        if i >= page.vram_chunks.len() {
            if let Some(p) = self.vmt.lookup_mut(name) {
                p.vram_chunks = Vec::new();
                p.tier = Tier::Dram;
                p.state = PageState::Warm;
                p.access_count = 0;
            }
            return DemoteStep::Finished(Ok(()));
        }
        let chunk: Chunk = page.vram_chunks[i];
        proof {
            assert(self.cluster.ordinals@.len() == self.cluster.ordinals.len());
            crate::gpu::law_position_is_the_last(self.cluster.ordinals@, chunk.gpu_ordinal);
        }
        let gpu_idx: usize = match self.cluster.index_of(chunk.gpu_ordinal) {
            Some(g) => g,
            None => {
                return DemoteStep::Finished(
                    Err(
                        VugvaError::InvalidGpu(
                            #[verifier::truncate]
                            (chunk.gpu_ordinal as usize),
                        ),
                    ),
                );
            },
        };
        if gpu_idx >= page.dram_chunks.len() {
            return DemoteStep::Finished(Err(VugvaError::UnknownAllocation(name.to_owned())));
        }
        let backing: DramChunk = page.dram_chunks[gpu_idx];
        if chunk.size_bytes > backing.size_bytes {
            assert(self@.dram[gpu_idx as int] == self.dram_pools@[gpu_idx as int]@);
            return DemoteStep::Finished(
                Err(
                    VugvaError::DramOom {
                        requested: chunk.size_bytes,
                        available: backing.size_bytes,
                        capacity: self.dram_pools[gpu_idx].capacity(),
                    },
                ),
            );
        }
        let submitted = self.dma.submit_vram_to_dram(
            gpu_idx,
            chunk.device_ptr,
            backing.host_ptr as u64,
            chunk.size_bytes,
            COLD,
        );
        match submitted {
            Ok(_) => DemoteStep::Pending(
                WriteBack {
                    index: i,
                    gpu_idx,
                    device_ptr: chunk.device_ptr,
                    host_ptr: backing.host_ptr,
                    bytes: chunk.size_bytes,
                },
            ),
            Err(e) => DemoteStep::Finished(Err(e)),
        }
    }

    /// Demote a page from its devices to host memory: every piece is written
    /// back and its device block can be used again. A page that is on no device
    /// or that is pinned stays as it is.
    pub fn demote(&mut self, name: &str) -> (r: DemoteStep)
        requires
            old(self).wf(),
        ensures
            final(self).wf(),
            (final(self)@, r@) == old(self)@.demote(name@),
            r matches DemoteStep::Pending(w) ==> final(self)@.has(name@) && w.index < usize::MAX,
    {
        match self.vmt.lookup(name) {
            None => {
                return DemoteStep::Finished(Err(VugvaError::UnknownAllocation(name.to_owned())));
            },
            Some(page) => {
                if page.tier != Tier::Vram || page.pinned {
                    return DemoteStep::Finished(Ok(()));
                }
            },
        }
        self.write_back(name, 0)
    }

    /// Go on with a demotion, from what came of writing a piece back.
    pub fn resume_demote(
        &mut self,
        name: &str,
        w: WriteBack,
        event: Result<(), VugvaError>,
    ) -> (r: DemoteStep)
        requires
            old(self).wf(),
            old(self)@.has(name@),
            w.index < usize::MAX,
        ensures
            final(self).wf(),
            (final(self)@, r@) == old(self)@.resume_demote(name@, w, error::outcome(event)),
            r matches DemoteStep::Pending(w) ==> final(self)@.has(name@) && w.index < usize::MAX,
    {
        match event {
            Err(e) => DemoteStep::Finished(Err(e)),
            Ok(_) => {
                let _ = self.free_vram_on_gpu(w.gpu_idx, w.device_ptr, w.bytes);
                self.write_back(name, w.index + 1)
            },
        }
    }
}

} // verus!
