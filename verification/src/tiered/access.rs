//! Access to a page: bringing it to the device that asks for it.
//!
//! [`TieredPool::access`] either finishes at once or names the work that has to
//! be done first. [`TieredPool::resume_access`] takes what came of that work.

use crate::dma;
use crate::error::{self, Failure, VugvaError};
use crate::gpu;
use crate::ranges::ALIGN;
use crate::tiered::dram::Dram;
use crate::tiered::model::{self, Pool};
use crate::tiered::TieredPool;
use crate::vmt::{Chunk, DramChunk, PageState, PageView, Tier};
use vstd::prelude::*;
use vstd::string::*;

verus! {

/// The least size of a staging buffer that is worth its overhead: a request for
/// more is halved until the host pool can hold it.
pub const LEAST_STAGING: usize = 1_048_576;

/// Priority of a descriptor for a page that is needed now.
pub const HOT: u32 = 2;

/// Where a page is copied from.
#[derive(Debug, Clone, Copy, PartialEq, Eq, Structural)]
pub enum Source {
    /// The memory of another GPU.
    Peer {
        /// Index of that GPU.
        gpu: usize,
        /// Address there.
        ptr: u64,
    },
    /// Host memory.
    Host {
        /// Address.
        host_ptr: usize,
    },
    /// The backing file of the cold tier.
    Spill {
        /// Offset in the file.
        offset: u64,
    },
}

/// The work that an access waits for.
#[derive(Debug, Clone, Copy, PartialEq, Eq, Structural)]
pub enum Work {
    /// Wait until the promotion that was started ahead of need has landed.
    AwaitPrefetch {
        /// Device block that the page is copied to.
        ptr: u64,
        /// Size of the block.
        size: usize,
    },
    /// Get a device block from the driver.
    AllocateBlock {
        /// Size of the block.
        bytes: usize,
        /// Where the page is to be copied from.
        source: Source,
    },
    /// Copy the page to a device block and wait until the copy has landed.
    Copy {
        /// Where the page is copied from.
        source: Source,
        /// Device block that it is copied to.
        dst: u64,
        /// Size of the block.
        bytes: usize,
    },
    /// Read the next piece of the page from the backing file into the staging
    /// buffer and copy it from there to the device block. The first piece binds
    /// the device's context, also where the page is empty.
    Stream {
        /// Offset of the page in the file.
        offset: u64,
        /// Staging buffer.
        stage_ptr: usize,
        /// Size of the staging buffer.
        stage_len: usize,
        /// The staging buffer is borrowed from the host pool.
        borrowed: bool,
        /// Device block that the page is copied to.
        dst: u64,
        /// Size of the page.
        total: usize,
        /// Bytes that are copied already.
        done: usize,
        /// Size of the next piece.
        bytes: usize,
    },
}

/// What comes next in an access.
#[derive(Debug)]
pub enum AccessStep {
    /// Work has to be done first.
    Pending(Work),
    /// The access is over. A success is the address of the page on the device.
    Finished(Result<u64, VugvaError>),
}

/// What an [`AccessStep`] stands for.
pub enum Step {
    /// Work has to be done first.
    Pending(Work),
    /// The access is over.
    Finished(Result<u64, Failure>),
}

impl View for AccessStep {
    type V = Step;

    open spec fn view(&self) -> Step {
        match *self {
            AccessStep::Pending(w) => Step::Pending(w),
            AccessStep::Finished(r) => Step::Finished(error::outcome(r)),
        }
    }
}

/// The size that a request for a staging buffer of `want` bytes comes down to:
/// halved as often as the pool refuses, but not below the least size.
pub open spec fn staging_size(d: Dram, want: int) -> int
    decreases want,
{
    if d.answer(want) is Ok || want <= LEAST_STAGING {
        want
    } else {
        staging_size(d, want / 2)
    }
}

/// A staging buffer is not larger than the page, and not empty unless the page is.
pub(crate) proof fn lemma_staging_size(d: Dram, want: int)
    requires
        want >= 0,
    ensures
        0 <= staging_size(d, want) <= want,
        want > 0 ==> staging_size(d, want) > 0,
    decreases want,
{
    if !(d.answer(want) is Ok || want <= LEAST_STAGING) {
        lemma_staging_size(d, want / 2);
    }
}

/// The smaller of two sizes.
pub open spec fn at_most(a: int, b: int) -> int {
    if a <= b {
        a
    } else {
        b
    }
}

impl Pool {
    /// The pool once an access to a page is counted.
    pub open spec fn counted(self, name: Seq<char>) -> Pool {
        Pool { rates: self.rates.observed(name), ..self }
    }

    /// What comes of an access to page `name` from GPU `gpu`.
    pub open spec fn access(self, name: Seq<char>, gpu: int, now: u64) -> (Pool, Step) {
        let pool = self.counted(name);
        if self.inflight.contains_key(name) {
            let f = self.inflight[name];
            let claimed = Pool { inflight: self.inflight.remove(name), ..pool };
            if f.gpu_idx == gpu {
                (claimed, Step::Pending(Work::AwaitPrefetch { ptr: f.device_ptr, size: f.size }))
            } else {
                claimed.with_block(f.gpu_idx as int, f.device_ptr, f.size).locate(name, gpu, now)
            }
        } else {
            pool.locate(name, gpu, now)
        }
    }

    /// What comes of an access to a page that no promotion is under way for. A
    /// page that is to be on a device and is on none yet is brought there from
    /// host memory.
    pub open spec fn locate(self, name: Seq<char>, gpu: int, now: u64) -> (Pool, Step) {
        let unknown = Step::Finished(Err(Failure::UnknownAllocation(name)));
        if !self.has(name) {
            (self, unknown)
        } else {
            let page = self.page(name);
            let chunks = page.vram_chunks;
            let ordinal = self.cluster.ordinals@[gpu];
            match page.tier {
                Tier::Vram => {
                    let own = model::first_on(chunks, ordinal);
                    let peer = model::first_elsewhere(chunks, ordinal);
                    if own < chunks.len() {
                        (
                            self.with_page(name, page.touched(now)),
                            Step::Finished(Ok(chunks[own].device_ptr)),
                        )
                    } else if peer >= chunks.len() {
                        self.from_host(name, gpu)
                    } else {
                        let src = chunks[peer];
                        match self.index_of(src.gpu_ordinal) {
                            None => (
                                self,
                                Step::Finished(
                                    Err(Failure::InvalidGpu(src.gpu_ordinal as usize)),
                                ),
                            ),
                            Some(from) => self.find_block(
                                name,
                                gpu,
                                src.size_bytes,
                                Source::Peer { gpu: from, ptr: src.device_ptr },
                            ),
                        }
                    }
                },
                Tier::Dram => self.from_host(name, gpu),
                Tier::Ssd => match page.ssd_offset {
                    Some(offset) => self.find_block(
                        name,
                        gpu,
                        page.size_bytes,
                        Source::Spill { offset },
                    ),
                    None => (
                        self,
                        Step::Finished(
                            Err(
                                Failure::UnknownAllocation(
                                    name + ": page is on Tier::Ssd but has no spill offset"@,
                                ),
                            ),
                        ),
                    ),
                },
            }
        }
    }

    /// What comes of an access that takes the page from the piece of host memory
    /// that belongs to GPU `gpu`. Where there is none the page is nowhere.
    pub open spec fn from_host(self, name: Seq<char>, gpu: int) -> (Pool, Step) {
        let page = self.page(name);
        if gpu < page.dram_chunks.len() {
            self.find_block(
                name,
                gpu,
                page.dram_chunks[gpu].size_bytes,
                Source::Host { host_ptr: page.dram_chunks[gpu].host_ptr },
            )
        } else {
            (self, Step::Finished(Err(Failure::UnknownAllocation(name))))
        }
    }

    /// A device block for a page: one that can be used again, else one from the
    /// driver.
    pub open spec fn find_block(
        self,
        name: Seq<char>,
        gpu: int,
        bytes: usize,
        source: Source,
    ) -> (Pool, Step) {
        if self.has_block(gpu, bytes) {
            self.without_block(gpu, bytes).fill_block(
                name,
                gpu,
                self.block_for(gpu, bytes),
                bytes,
                source,
            )
        } else {
            (self, Step::Pending(Work::AllocateBlock { bytes, source }))
        }
    }

    /// What it takes to fill a device block with a page.
    pub open spec fn fill_block(
        self,
        name: Seq<char>,
        gpu: int,
        dst: u64,
        bytes: usize,
        source: Source,
    ) -> (Pool, Step) {
        match source {
            Source::Peer { .. } => (self, Step::Pending(Work::Copy { source, dst, bytes })),
            Source::Host { host_ptr } => if self.rings[gpu].full() {
                (self, Step::Finished(Err(Failure::DmaRingFull)))
            } else {
                let d = dma::promotion(gpu as usize, host_ptr as u64, dst, bytes, HOT);
                (
                    Pool { rings: self.rings.update(gpu, self.rings[gpu].push(d)), ..self },
                    Step::Pending(Work::Copy { source, dst, bytes }),
                )
            },
            Source::Spill { offset } => self.start_stream(name, gpu, dst, bytes, offset),
        }
    }

    /// The page's own host memory is large enough to stage all of it.
    pub open spec fn stages_itself(self, name: Seq<char>, gpu: int, total: usize) -> bool {
        gpu < self.page(name).dram_chunks.len() && self.page(name).dram_chunks[gpu].size_bytes
            >= total
    }

    /// Find a staging buffer for a page of the cold tier: the page's own host
    /// memory where it can hold all of it, else as much as the host pool can
    /// spare.
    pub open spec fn start_stream(
        self,
        name: Seq<char>,
        gpu: int,
        dst: u64,
        total: usize,
        offset: u64,
    ) -> (Pool, Step) {
        if self.stages_itself(name, gpu, total) {
            let ptr = self.page(name).dram_chunks[gpu].host_ptr;
            self.first_piece(name, gpu, dst, total, offset, ptr, total, false)
        } else {
            let d = self.dram[gpu];
            let want = staging_size(d, total as int);
            match d.answer(want) {
                Err(e) => (
                    self.with_block(gpu, dst, total),
                    Step::Finished(Err(e@)),
                ),
                Ok(ptr) => Pool {
                    dram: self.dram.update(gpu, d.grant(want)),
                    ..self
                }.first_piece(name, gpu, dst, total, offset, ptr, want as usize, true),
            }
        }
    }

    /// The first piece of a page of the cold tier.
    pub open spec fn first_piece(
        self,
        name: Seq<char>,
        gpu: int,
        dst: u64,
        total: usize,
        offset: u64,
        stage_ptr: usize,
        stage_len: usize,
        borrowed: bool,
    ) -> (Pool, Step) {
        if self.spill is None {
            (
                self.end_staging(gpu, stage_ptr, stage_len, borrowed).with_block(gpu, dst, total),
                Step::Finished(
                    Err(
                        Failure::UnknownAllocation(
                            name + ": page is on Tier::Ssd but no spill file is attached"@,
                        ),
                    ),
                ),
            )
        } else {
            (
                self,
                Step::Pending(
                    Work::Stream {
                        offset,
                        stage_ptr,
                        stage_len,
                        borrowed,
                        dst,
                        total,
                        done: 0,
                        bytes: at_most(stage_len as int, total as int) as usize,
                    },
                ),
            )
        }
    }

    /// The pool once a staging buffer is done with: what was borrowed goes back.
    pub open spec fn end_staging(
        self,
        gpu: int,
        stage_ptr: usize,
        stage_len: usize,
        borrowed: bool,
    ) -> Pool {
        if borrowed {
            Pool {
                dram: self.dram.update(
                    gpu,
                    self.dram[gpu].give_back(stage_ptr, stage_len as int),
                ),
                ..self
            }
        } else {
            self
        }
    }

    /// The pool once the page is in a device block of GPU `gpu`.
    pub open spec fn arrived(
        self,
        name: Seq<char>,
        gpu: int,
        dst: u64,
        bytes: usize,
        now: u64,
    ) -> Pool {
        let page = self.page(name);
        let chunk = Chunk {
            gpu_ordinal: self.cluster.ordinals@[gpu],
            device_ptr: dst,
            size_bytes: bytes,
            num_elements: bytes / page.element_size,
        };
        self.with_page(
            name,
            PageView {
                vram_chunks: page.vram_chunks.push(chunk),
                tier: Tier::Vram,
                state: PageState::Resident,
                ..page.touched(now)
            },
        )
    }

    /// What comes of an access once work for it was done or has failed.
    pub open spec fn resume_access(
        self,
        name: Seq<char>,
        gpu: int,
        now: u64,
        work: Work,
        event: Result<u64, Failure>,
    ) -> (Pool, Step) {
        match work {
            Work::AwaitPrefetch { ptr, size } => match event {
                Ok(_) => (
                    self.arrived(name, gpu, ptr, size, now),
                    Step::Finished(Ok(ptr)),
                ),
                Err(e) => (self, Step::Finished(Err(e))),
            },
            Work::AllocateBlock { bytes, source } => match event {
                Ok(ptr) => self.fill_block(name, gpu, ptr, bytes, source),
                Err(e) => (self, Step::Finished(Err(e))),
            },
            Work::Copy { source, dst, bytes } => match event {
                Ok(_) => (
                    self.arrived(name, gpu, dst, bytes, now),
                    Step::Finished(Ok(dst)),
                ),
                Err(e) => (self, Step::Finished(Err(e))),
            },
            Work::Stream { offset, stage_ptr, stage_len, borrowed, dst, total, done, bytes } => {
                let ended = self.end_staging(gpu, stage_ptr, stage_len, borrowed);
                match event {
                    Err(e) => (ended.with_block(gpu, dst, total), Step::Finished(Err(e))),
                    Ok(_) => if done + bytes < total {
                        (
                            self,
                            Step::Pending(
                                Work::Stream {
                                    offset,
                                    stage_ptr,
                                    stage_len,
                                    borrowed,
                                    dst,
                                    total,
                                    done: (done + bytes) as usize,
                                    bytes: at_most(
                                        stage_len as int,
                                        total - (done + bytes),
                                    ) as usize,
                                },
                            ),
                        )
                    } else {
                        (
                            ended.arrived(name, gpu, dst, total, now),
                            Step::Finished(Ok(dst)),
                        )
                    },
                }
            },
        }
    }

    /// A page of that name can be accessed: its elements have a size and its
    /// accesses can still be counted.
    pub open spec fn accessible(self, name: Seq<char>) -> bool {
        self.has(name) && self.page(name).element_size > 0 && self.page(name).access_count
            < u64::MAX
    }

    /// A page can be streamed through a staging buffer of the host pool of GPU
    /// `gpu`: its size can be rounded up to a whole line.
    pub open spec fn streamable(self, name: Seq<char>, gpu: int, total: usize) -> bool {
        self.stages_itself(name, gpu, total) || total <= usize::MAX - (ALIGN - 1)
    }

    /// `work` is consistent in itself and with the page it is for.
    pub open spec fn fits(self, name: Seq<char>, gpu: int, work: Work) -> bool {
        match work {
            Work::AwaitPrefetch { .. } => true,
            Work::AllocateBlock { bytes, source } => source is Spill ==> self.streamable(
                name,
                gpu,
                bytes,
            ),
            Work::Copy { .. } => true,
            Work::Stream { stage_ptr, stage_len, borrowed, total, done, bytes, .. } => {
                &&& done <= total
                &&& bytes == at_most(stage_len as int, total - done)
                &&& borrowed ==> stage_len <= usize::MAX - (ALIGN - 1)
                &&& stage_len == 0 ==> total == 0
            },
        }
    }
}

pub(crate) fn index_on(chunks: &Vec<Chunk>, ordinal: i32) -> (r: usize)
    ensures
        r == model::first_on(chunks@, ordinal),
        r <= chunks@.len(),
{
    let mut i: usize = 0;
    assert(chunks@.skip(0) =~= chunks@);
    while i < chunks.len() && chunks[i].gpu_ordinal != ordinal
        invariant
            i <= chunks@.len(),
            model::first_on(chunks@, ordinal) == i + model::first_on(
                chunks@.skip(i as int),
                ordinal,
            ),
        decreases chunks@.len() - i,
    {
        assert(chunks@.skip(i as int).skip(1) =~= chunks@.skip(i + 1));
        i = i + 1;
    }
    i
}

fn index_elsewhere(chunks: &Vec<Chunk>, ordinal: i32) -> (r: usize)
    ensures
        r == model::first_elsewhere(chunks@, ordinal),
        r <= chunks@.len(),
{
    let mut i: usize = 0;
    assert(chunks@.skip(0) =~= chunks@);
    while i < chunks.len() && chunks[i].gpu_ordinal == ordinal
        invariant
            i <= chunks@.len(),
            model::first_elsewhere(chunks@, ordinal) == i + model::first_elsewhere(
                chunks@.skip(i as int),
                ordinal,
            ),
        decreases chunks@.len() - i,
    {
        assert(chunks@.skip(i as int).skip(1) =~= chunks@.skip(i + 1));
        i = i + 1;
    }
    i
}

fn smaller(a: usize, b: usize) -> (r: usize)
    ensures
        r == at_most(a as int, b as int),
{
    if a <= b {
        a
    } else {
        b
    }
}

fn failed(name: &str, why: &str) -> (r: AccessStep)
    ensures
        r@ == Step::Finished(Err(Failure::UnknownAllocation(name@ + why@))),
{
    let mut text: String = name.to_owned();
    text.append(why);
    AccessStep::Finished(Err(VugvaError::UnknownAllocation(text)))
}

fn unknown(name: &str) -> (r: AccessStep)
    ensures
        r@ == Step::Finished(Err(Failure::UnknownAllocation(name@))),
{
    AccessStep::Finished(Err(VugvaError::UnknownAllocation(name.to_owned())))
}

impl TieredPool {
    /// The page is in a device block now.
    fn arrive(&mut self, name: &str, gpu_idx: usize, dst: u64, bytes: usize, now: u64)
        requires
            old(self).wf(),
            old(self)@.accessible(name@),
            gpu_idx < old(self)@.cluster.ordinals@.len(),
        ensures
            final(self).wf(),
            final(self)@ == old(self)@.arrived(name@, gpu_idx as int, dst, bytes, now),
    {
        let ordinal: i32 = self.cluster.ordinals[gpu_idx];
        if let Some(page) = self.vmt.lookup_mut(name) {
            let num_elements: usize = bytes / page.element_size;
            page.vram_chunks.push(
                Chunk { gpu_ordinal: ordinal, device_ptr: dst, size_bytes: bytes, num_elements },
            );
            page.tier = Tier::Vram;
            page.state = PageState::Resident;
            page.touch(now);
        }
    }

    fn end_staging(&mut self, gpu_idx: usize, stage_ptr: usize, stage_len: usize, borrowed: bool)
        requires
            old(self).wf(),
            gpu_idx < old(self)@.dram.len(),
            borrowed ==> stage_len <= usize::MAX - (ALIGN - 1),
        ensures
            final(self).wf(),
            final(self).vmt == old(self).vmt,
            final(self)@ == old(self)@.end_staging(
                gpu_idx as int,
                stage_ptr,
                stage_len,
                borrowed,
            ),
    {
        if borrowed {
            let ghost before = self@.dram;
            assert(before[gpu_idx as int] == self.dram_pools@[gpu_idx as int]@);
            self.dram_pools[gpu_idx].free(stage_ptr, stage_len);
            assert(self@.dram =~= before.update(
                gpu_idx as int,
                before[gpu_idx as int].give_back(stage_ptr, stage_len as int),
            ));
        }
    }

    fn first_piece(
        &mut self,
        name: &str,
        gpu_idx: usize,
        dst: u64,
        total: usize,
        offset: u64,
        stage_ptr: usize,
        stage_len: usize,
        borrowed: bool,
    ) -> (r: AccessStep)
        requires
            old(self).wf(),
            gpu_idx < old(self)@.dram.len(),
            borrowed ==> stage_len <= usize::MAX - (ALIGN - 1),
            stage_len == 0 ==> total == 0,
        ensures
            final(self).wf(),
            (final(self)@, r@) == old(self)@.first_piece(
                name@,
                gpu_idx as int,
                dst,
                total,
                offset,
                stage_ptr,
                stage_len,
                borrowed,
            ),
            r matches AccessStep::Pending(w) ==> final(self)@.fits(name@, gpu_idx as int, w),
    {
        if self.spill.is_none() {
            self.end_staging(gpu_idx, stage_ptr, stage_len, borrowed);
            let _ = self.free_vram_on_gpu(gpu_idx, dst, total);
            return failed(name, ": page is on Tier::Ssd but no spill file is attached");
        }
        AccessStep::Pending(
            Work::Stream {
                offset,
                stage_ptr,
                stage_len,
                borrowed,
                dst,
                total,
                done: 0,
                bytes: smaller(stage_len, total),
            },
        )
    }

    fn start_stream(
        &mut self,
        name: &str,
        gpu_idx: usize,
        dst: u64,
        total: usize,
        offset: u64,
    ) -> (r: AccessStep)
        requires
            old(self).wf(),
            old(self)@.has(name@),
            gpu_idx < old(self)@.dram.len(),
            old(self)@.streamable(name@, gpu_idx as int, total),
        ensures
            final(self).wf(),
            (final(self)@, r@) == old(self)@.start_stream(
                name@,
                gpu_idx as int,
                dst,
                total,
                offset,
            ),
            r matches AccessStep::Pending(w) ==> final(self)@.fits(name@, gpu_idx as int, w),
    {
        let ghost pre = self@;
        if let Some(page) = self.vmt.lookup(name) {
            if gpu_idx < page.dram_chunks.len() && page.dram_chunks[gpu_idx].size_bytes >= total {
                let ptr: usize = page.dram_chunks[gpu_idx].host_ptr;
                return self.first_piece(name, gpu_idx, dst, total, offset, ptr, total, false);
            }
        }
        let ghost d = pre.dram[gpu_idx as int];
        assert(d == self.dram_pools@[gpu_idx as int]@);
        let mut want: usize = total;
        loop
            invariant
                pre.wf(),
                self.wf(),
                self@ == pre,
                gpu_idx < pre.dram.len(),
                d == pre.dram[gpu_idx as int],
                want <= total <= usize::MAX - (ALIGN - 1),
                want == 0 ==> total == 0,
                staging_size(d, want as int) == staging_size(d, total as int),
                !pre.stages_itself(name@, gpu_idx as int, total),
                pre == old(self)@,
            decreases want,
        {
            assert(d == self.dram_pools@[gpu_idx as int]@);
            let ghost before = self@.dram;
            match self.dram_pools[gpu_idx].allocate(want) {
                Ok(ptr) => {
                    assert(self@.dram =~= before.update(gpu_idx as int, d.grant(want as int)));
                    return self.first_piece(name, gpu_idx, dst, total, offset, ptr, want, true);
                },
                Err(e) => {
                    assert(d.grant(want as int) =~= d);
                    assert(self@.dram =~= before);
                    if want <= LEAST_STAGING {
                        let _ = self.free_vram_on_gpu(gpu_idx, dst, total);
                        return AccessStep::Finished(Err(e));
                    }
                    want = want / 2;
                },
            }
        }
    }

    fn fill_block(
        &mut self,
        name: &str,
        gpu_idx: usize,
        dst: u64,
        bytes: usize,
        source: Source,
    ) -> (r: AccessStep)
        requires
            old(self).wf(),
            old(self)@.has(name@),
            gpu_idx < old(self)@.dram.len(),
            source is Spill ==> old(self)@.streamable(name@, gpu_idx as int, bytes),
        ensures
            final(self).wf(),
            (final(self)@, r@) == old(self)@.fill_block(
                name@,
                gpu_idx as int,
                dst,
                bytes,
                source,
            ),
            r matches AccessStep::Pending(w) ==> final(self)@.fits(name@, gpu_idx as int, w),
    {
        match source {
            Source::Peer { .. } => AccessStep::Pending(Work::Copy { source, dst, bytes }),
            Source::Host { host_ptr } => {
                let submitted = self.dma.submit_dram_to_vram(
                    gpu_idx,
                    host_ptr as u64,
                    dst,
                    bytes,
                    HOT,
                );
                match submitted {
                    Ok(_) => AccessStep::Pending(Work::Copy { source, dst, bytes }),
                    Err(e) => AccessStep::Finished(Err(e)),
                }
            },
            Source::Spill { offset } => self.start_stream(name, gpu_idx, dst, bytes, offset),
        }
    }

    fn find_block(
        &mut self,
        name: &str,
        gpu_idx: usize,
        bytes: usize,
        source: Source,
    ) -> (r: AccessStep)
        requires
            old(self).wf(),
            old(self)@.has(name@),
            gpu_idx < old(self)@.dram.len(),
            source is Spill ==> old(self)@.streamable(name@, gpu_idx as int, bytes),
        ensures
            final(self).wf(),
            (final(self)@, r@) == old(self)@.find_block(name@, gpu_idx as int, bytes, source),
            r matches AccessStep::Pending(w) ==> final(self)@.fits(name@, gpu_idx as int, w),
    {
        match self.take_block(gpu_idx, bytes) {
            Some(dst) => self.fill_block(name, gpu_idx, dst, bytes, source),
            None => AccessStep::Pending(Work::AllocateBlock { bytes, source }),
        }
    }

    fn from_host(&mut self, name: &str, gpu_idx: usize) -> (r: AccessStep)
        requires
            old(self).wf(),
            old(self)@.has(name@),
            gpu_idx < old(self)@.dram.len(),
        ensures
            final(self).wf(),
            (final(self)@, r@) == old(self)@.from_host(name@, gpu_idx as int),
            r matches AccessStep::Pending(w) ==> final(self)@.fits(name@, gpu_idx as int, w),
    {
        if let Some(page) = self.vmt.lookup(name) {
            if gpu_idx < page.dram_chunks.len() {
                let chunk: DramChunk = page.dram_chunks[gpu_idx];
                return self.find_block(
                    name,
                    gpu_idx,
                    chunk.size_bytes,
                    Source::Host { host_ptr: chunk.host_ptr },
                );
            }
        }
        unknown(name)
    }

    fn locate(&mut self, name: &str, gpu_idx: usize, now: u64) -> (r: AccessStep)
        requires
            old(self).wf(),
            old(self)@.has(name@) ==> {
                &&& gpu_idx < old(self)@.cluster.ordinals@.len()
                &&& old(self)@.page(name@).access_count < u64::MAX
                &&& old(self)@.page(name@).tier == Tier::Ssd ==> old(self)@.streamable(
                    name@,
                    gpu_idx as int,
                    old(self)@.page(name@).size_bytes,
                )
            },
        ensures
            final(self).wf(),
            (final(self)@, r@) == old(self)@.locate(name@, gpu_idx as int, now),
            r matches AccessStep::Pending(w) ==> final(self)@.fits(name@, gpu_idx as int, w),
    {
        let page = match self.vmt.lookup(name) {
            Some(p) => p,
            None => {
                return unknown(name);
            },
        };
        let ordinal: i32 = self.cluster.ordinals[gpu_idx];
        match page.tier {
            Tier::Vram => {
                let own: usize = index_on(&page.vram_chunks, ordinal);
                if own < page.vram_chunks.len() {
                    let ptr: u64 = page.vram_chunks[own].device_ptr;
                    if let Some(p) = self.vmt.lookup_mut(name) {
                        p.touch(now);
                    }
                    return AccessStep::Finished(Ok(ptr));
                }
                let peer: usize = index_elsewhere(&page.vram_chunks, ordinal);
                if peer >= page.vram_chunks.len() {
                    return self.from_host(name, gpu_idx);
                }
                let src: Chunk = page.vram_chunks[peer];
                match self.cluster.index_of(src.gpu_ordinal) {
                    None => AccessStep::Finished(
                        Err(
                            VugvaError::InvalidGpu(
                                #[verifier::truncate]
                                (src.gpu_ordinal as usize),
                            ),
                        ),
                    ),
                    Some(gpu) => self.find_block(
                        name,
                        gpu_idx,
                        src.size_bytes,
                        Source::Peer { gpu, ptr: src.device_ptr },
                    ),
                }
            },
            Tier::Dram => self.from_host(name, gpu_idx),
            Tier::Ssd => {
                let total: usize = page.size_bytes;
                match page.ssd_offset {
                    Some(offset) => self.find_block(
                        name,
                        gpu_idx,
                        total,
                        Source::Spill { offset },
                    ),
                    None => failed(name, ": page is on Tier::Ssd but has no spill offset"),
                }
            },
        }
    }

    /// Access a page from a GPU, which brings it there if it is not there yet.
    pub fn access(&mut self, name: &str, gpu_idx: usize, now: u64) -> (r: AccessStep)
        requires
            old(self).wf(),
            old(self)@.rates.hits_of(name@) < u64::MAX,
            old(self)@.has(name@) ==> {
                &&& gpu_idx < old(self)@.cluster.ordinals@.len()
                &&& old(self)@.page(name@).access_count < u64::MAX
                &&& old(self)@.page(name@).tier == Tier::Ssd ==> old(self)@.streamable(
                    name@,
                    gpu_idx as int,
                    old(self)@.page(name@).size_bytes,
                )
            },
        ensures
            final(self).wf(),
            (final(self)@, r@) == old(self)@.access(name@, gpu_idx as int, now),
            r matches AccessStep::Pending(w) ==> final(self)@.fits(name@, gpu_idx as int, w),
    {
        self.membrane.observe(name);
        match self.inflight.remove(name) {
            Some(f) => {
                if f.gpu_idx == gpu_idx {
                    return AccessStep::Pending(
                        Work::AwaitPrefetch { ptr: f.device_ptr, size: f.size },
                    );
                }
                let _ = self.free_vram_on_gpu(f.gpu_idx, f.device_ptr, f.size);
            },
            None => {
                assert(old(self)@.inflight.remove(name@) =~= old(self)@.inflight);
            },
        }
        self.locate(name, gpu_idx, now)
    }

    /// Go on with an access, from what came of the work that it named: for a
    /// block the address of it, for any other work any number.
    pub fn resume_access(
        &mut self,
        name: &str,
        gpu_idx: usize,
        now: u64,
        work: Work,
        event: Result<u64, VugvaError>,
    ) -> (r: AccessStep)
        requires
            old(self).wf(),
            event is Ok ==> old(self)@.accessible(name@),
            gpu_idx < old(self)@.cluster.ordinals@.len(),
            old(self)@.fits(name@, gpu_idx as int, work),
        ensures
            final(self).wf(),
            (final(self)@, r@) == old(self)@.resume_access(
                name@,
                gpu_idx as int,
                now,
                work,
                error::outcome(event),
            ),
            r matches AccessStep::Pending(w) ==> final(self)@.fits(name@, gpu_idx as int, w),
    {
        match work {
            Work::AwaitPrefetch { ptr, size } => match event {
                Ok(_) => {
                    self.arrive(name, gpu_idx, ptr, size, now);
                    AccessStep::Finished(Ok(ptr))
                },
                Err(e) => AccessStep::Finished(Err(e)),
            },
            Work::AllocateBlock { bytes, source } => match event {
                Ok(ptr) => self.fill_block(name, gpu_idx, ptr, bytes, source),
                Err(e) => AccessStep::Finished(Err(e)),
            },
            Work::Copy { source, dst, bytes } => match event {
                Ok(_) => {
                    self.arrive(name, gpu_idx, dst, bytes, now);
                    AccessStep::Finished(Ok(dst))
                },
                Err(e) => AccessStep::Finished(Err(e)),
            },
            Work::Stream { offset, stage_ptr, stage_len, borrowed, dst, total, done, bytes } => {
                match event {
                    Err(e) => {
                        self.end_staging(gpu_idx, stage_ptr, stage_len, borrowed);
                        let _ = self.free_vram_on_gpu(gpu_idx, dst, total);
                        AccessStep::Finished(Err(e))
                    },
                    Ok(_) => {
                        let done: usize = done + bytes;
                        if done < total {
                            return AccessStep::Pending(
                                Work::Stream {
                                    offset,
                                    stage_ptr,
                                    stage_len,
                                    borrowed,
                                    dst,
                                    total,
                                    done,
                                    bytes: smaller(stage_len, total - done),
                                },
                            );
                        }
                        self.end_staging(gpu_idx, stage_ptr, stage_len, borrowed);
                        self.arrive(name, gpu_idx, dst, total, now);
                        AccessStep::Finished(Ok(dst))
                    },
                }
            },
        }
    }
}

} // verus!
