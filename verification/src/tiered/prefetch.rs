//! Promotion ahead of need: the copy to the device is started and not waited
//! for. A later access finds it under way and only has to wait for it to land.
//!
//! It is done where it can be and costs nothing where it cannot: a promotion
//! that cannot be started leaves the pool as it was.

use crate::error::VugvaError;
use crate::tiered::model::{self, Inflight, Pool};
use crate::tiered::TieredPool;
use crate::vmt::Tier;
use vstd::prelude::*;
use vstd::string::*;

verus! {

/// What comes next in a promotion ahead of need.
#[derive(Debug, Clone, Copy, PartialEq, Eq, Structural)]
pub enum PrefetchStep {
    /// Get a device block from the driver.
    AllocateBlock {
        /// Size of the block.
        bytes: usize,
        /// Host memory that the page is to be copied from.
        host_ptr: usize,
    },
    /// Start the copy, and record an event behind it.
    StartCopy {
        /// Host memory that the page is copied from.
        host_ptr: usize,
        /// Device block that it is copied to.
        dst: u64,
        /// Size of the block.
        bytes: usize,
    },
    /// There is no more to do.
    Finished,
}

/// What came of starting a copy.
#[derive(Debug, Clone, Copy, PartialEq, Eq, Structural)]
pub enum CopyStart {
    /// The copy is under way, with an event behind it.
    Started,
    /// The copy was not started.
    NotStarted,
    /// The copy is under way, but nothing tells when it has landed.
    Untracked,
}

impl Pool {
    /// What comes of a promotion ahead of need. There is nothing to do for a
    /// page that is not known, that has one under way, that is not in host
    /// memory, or on a GPU that is not known. The copy takes as many bytes as the
    /// page has, from where its first piece begins.
    pub open spec fn prefetch(self, name: Seq<char>, gpu: int) -> (Pool, PrefetchStep) {
        let page = self.page(name);
        if self.inflight.contains_key(name) || !self.has(name) || page.tier != Tier::Dram
            || page.dram_chunks.len() == 0 || gpu >= self.vram_free.len() {
            (self, PrefetchStep::Finished)
        } else {
            let host_ptr = page.dram_chunks[0].host_ptr;
            let bytes = page.size_bytes;
            if self.has_block(gpu, bytes) {
                (
                    self.without_block(gpu, bytes),
                    PrefetchStep::StartCopy { host_ptr, dst: self.block_for(gpu, bytes), bytes },
                )
            } else {
                (self, PrefetchStep::AllocateBlock { bytes, host_ptr })
            }
        }
    }

    /// The pool once it is known what came of starting a copy: a block whose
    /// copy was not started can be used again, one that is being written to
    /// without notice is left alone.
    pub open spec fn prefetched(
        self,
        name: Seq<char>,
        gpu: usize,
        dst: u64,
        bytes: usize,
        event: CopyStart,
    ) -> Pool {
        match event {
            CopyStart::Started => Pool {
                inflight: self.inflight.insert(
                    name,
                    Inflight { gpu_idx: gpu, device_ptr: dst, size: bytes },
                ),
                ..self
            },
            CopyStart::NotStarted => self.with_block(gpu as int, dst, bytes),
            CopyStart::Untracked => self,
        }
    }
}

/// Asking twice is the same as asking once: a page that has a promotion under
/// way is left alone.
pub proof fn law_prefetch_is_idempotent(
    pool: Pool,
    name: Seq<char>,
    gpu: usize,
    dst: u64,
    bytes: usize,
    other: int,
)
    ensures
        ({
            let after = pool.prefetched(name, gpu, dst, bytes, CopyStart::Started);
            after.prefetch(name, other) == (after, PrefetchStep::Finished)
        }),
{
}

/// A promotion is started ahead of need for every page in host memory that has
/// none under way, to any GPU there is, and for no other. It takes as many bytes
/// as the page has from where its first piece begins, to a block of that size:
/// one that can be used again where there is one.
pub proof fn law_prefetch_is_for_pages_in_host_memory(pool: Pool, name: Seq<char>, gpu: int)
    requires
        0 <= gpu,
    ensures
        ({
            let page = pool.page(name);
            let (after, step) = pool.prefetch(name, gpu);
            let size = page.size_bytes;
            let start = page.dram_chunks[0].host_ptr;
            &&& step != PrefetchStep::Finished <==> pool.has(name) && page.tier == Tier::Dram
                && page.dram_chunks.len() > 0 && !pool.inflight.contains_key(name) && gpu
                < pool.vram_free.len()
            &&& match step {
                PrefetchStep::Finished => after == pool,
                PrefetchStep::AllocateBlock { bytes, host_ptr } => {
                    &&& after == pool
                    &&& bytes == size
                    &&& host_ptr == start
                    &&& forall|i: int|
                        0 <= i < pool.vram_free[gpu].len() ==> (
                        #[trigger] pool.vram_free[gpu][i]).0 != size
                },
                PrefetchStep::StartCopy { host_ptr, dst, bytes } => {
                    &&& bytes == size
                    &&& host_ptr == start
                    &&& pool.vram_free[gpu].contains((size, dst))
                    &&& pool.vram_free[gpu].to_multiset()
                        == after.vram_free[gpu].to_multiset().insert((size, dst))
                    &&& after == (Pool { vram_free: after.vram_free, ..pool })
                },
            }
        }),
{
    if gpu < pool.vram_free.len() {
        model::law_used_block_leaves_its_list(pool, gpu, pool.page(name).size_bytes);
    }
}

/// A copy that is under way is written down for its page, with its GPU, its block
/// and its size. A block whose copy was not started can be used again on its GPU.
/// One that is written to without notice is in no list. Nothing else changes.
pub proof fn law_started_copy_is_written_down(
    pool: Pool,
    name: Seq<char>,
    gpu: usize,
    dst: u64,
    bytes: usize,
    other: Seq<char>,
)
    requires
        gpu < pool.vram_free.len(),
        dst != 0,
        other != name,
    ensures
        ({
            let begun = pool.prefetched(name, gpu, dst, bytes, CopyStart::Started);
            let back = pool.prefetched(name, gpu, dst, bytes, CopyStart::NotStarted);
            let lost = pool.prefetched(name, gpu, dst, bytes, CopyStart::Untracked);
            &&& begun.inflight.contains_key(name)
            &&& begun.inflight[name].gpu_idx == gpu
            &&& begun.inflight[name].device_ptr == dst
            &&& begun.inflight[name].size == bytes
            &&& begun.inflight.contains_key(other) == pool.inflight.contains_key(other)
            &&& begun.inflight[other] == pool.inflight[other]
            &&& begun == (Pool { inflight: begun.inflight, ..pool })
            &&& back.vram_free[gpu as int] == pool.vram_free[gpu as int] + seq![(bytes, dst)]
            &&& forall|g: int|
                0 <= g < pool.vram_free.len() && g != gpu ==> #[trigger] back.vram_free[g]
                    == pool.vram_free[g]
            &&& back == (Pool { vram_free: back.vram_free, ..pool })
            &&& lost == pool
        }),
{
    model::law_returned_block_joins_its_list(pool, gpu as int, dst, bytes);
}

impl TieredPool {
    /// Start to promote a page without waiting for it.
    pub fn prefetch(&mut self, name: &str, gpu_idx: usize) -> (r: PrefetchStep)
        requires
            old(self).wf(),
        ensures
            final(self).wf(),
            (final(self)@, r) == old(self)@.prefetch(name@, gpu_idx as int),
    {
        if self.inflight.contains(name) || gpu_idx >= self.vram_free.len() {
            return PrefetchStep::Finished;
        }
        let (host_ptr, bytes): (usize, usize) = match self.vmt.lookup(name) {
            None => {
                return PrefetchStep::Finished;
            },
            Some(page) => {
                if page.tier != Tier::Dram || page.dram_chunks.len() == 0 {
                    return PrefetchStep::Finished;
                }
                (page.dram_chunks[0].host_ptr, page.size_bytes)
            },
        };
        match self.take_block(gpu_idx, bytes) {
            Some(dst) => PrefetchStep::StartCopy { host_ptr, dst, bytes },
            None => PrefetchStep::AllocateBlock { bytes, host_ptr },
        }
    }

    /// Go on with a promotion ahead of need, from what the driver answered to
    /// the request for a block.
    pub fn resume_prefetch(
        &self,
        host_ptr: usize,
        bytes: usize,
        block: Result<u64, VugvaError>,
    ) -> (r: PrefetchStep)
        ensures
            r == match block {
                Ok(dst) => PrefetchStep::StartCopy { host_ptr, dst, bytes },
                Err(_) => PrefetchStep::Finished,
            },
    {
        match block {
            Ok(dst) => PrefetchStep::StartCopy { host_ptr, dst, bytes },
            Err(_) => PrefetchStep::Finished,
        }
    }

    /// Conclude a promotion ahead of need, from what came of starting the copy.
    pub fn finish_prefetch(
        &mut self,
        name: &str,
        gpu_idx: usize,
        dst: u64,
        bytes: usize,
        event: CopyStart,
    )
        requires
            old(self).wf(),
        ensures
            final(self).wf(),
            final(self)@ == old(self)@.prefetched(name@, gpu_idx, dst, bytes, event),
    {
        match event {
            CopyStart::Started => {
                self.inflight.insert(
                    name.to_owned(),
                    Inflight { gpu_idx, device_ptr: dst, size: bytes },
                );
            },
            CopyStart::NotStarted => {
                let _ = self.free_vram_on_gpu(gpu_idx, dst, bytes);
            },
            CopyStart::Untracked => {},
        }
    }
}

} // verus!
