//! Pages of a three-tier pool: where they are placed and how they are released.

use crate::error::{self, VugvaError};
use crate::ranges::{self, ALIGN};
use crate::tiered::drams;
use crate::tiered::model::{self, Pool};
use crate::tiered::TieredPool;
use crate::vmt::{self, Chunk, DramChunk, Page, PageState, Tier};
use vstd::prelude::*;
use vstd::string::*;

verus! {

impl TieredPool {
    /// Hand out the share of each pool in turn, as far as the pools can. The
    /// result is the pieces and, where a pool could not, its answer.
    fn share_out(&mut self, total: usize) -> (r: (Vec<DramChunk>, Option<VugvaError>))
        requires
            old(self).wf(),
            old(self)@.dram.len() > 0,
            model::shares_fit(total as int, old(self)@.dram.len() as int),
        ensures
            final(self).wf(),
            final(self).vmt == old(self).vmt,
            ({
                let pre = old(self)@;
                let k = model::first_refusal(pre.dram, total as int, 0);
                &&& final(self)@ == (Pool {
                    dram: model::shared_out(pre.dram, total as int, k),
                    ..pre
                })
                &&& r.0@ == model::host_pieces(pre.dram, total as int, k)
                &&& match r.1 {
                    Some(e) => k < pre.dram.len() && pre.dram[k].answer(
                        model::share(total as int, pre.dram.len() as int, k),
                    ) == Err::<usize, VugvaError>(e),
                    None => k == pre.dram.len(),
                }
            }),
    {
        let ghost pre = self@;
        let ghost n = pre.dram.len() as int;
        let pools: usize = self.dram_pools.len();
        let base_bytes: usize = total / pools;
        let remainder: usize = total % pools;
        let mut chunks: Vec<DramChunk> = Vec::new();
        let mut i: usize = 0;
        assert(model::shared_out(pre.dram, total as int, 0) =~= pre.dram);
        while i < pools
            invariant
                pre == old(self)@,
                pools == n == pre.dram.len(),
                n > 0,
                i <= n,
                self.wf(),
                pre.wf(),
                self.vmt == old(self).vmt,
                self@ == (Pool { dram: model::shared_out(pre.dram, total as int, i as int), ..pre }),
                chunks@ == model::host_pieces(pre.dram, total as int, i as int),
                model::first_refusal(pre.dram, total as int, 0) == model::first_refusal(
                    pre.dram,
                    total as int,
                    i as int,
                ),
                base_bytes == total as int / n,
                remainder == total as int % n,
                model::shares_fit(total as int, n),
            decreases n - i,
        {
            proof {
                model::lemma_share_bounds(total as int, n, i as int);
            }
            let bytes: usize = if i + 1 == pools {
                base_bytes + remainder
            } else {
                base_bytes
            };
            assert(bytes == model::share(total as int, n, i as int));
            assert(self@.dram[i as int] == self.dram_pools@[i as int]@);
            assert(self@.dram[i as int] == pre.dram[i as int]);
            let ghost before = self.dram_pools@;
            let answer = self.dram_pools[i].allocate(bytes);
            proof {
                assert(self@.dram =~= drams(before).update(i as int, self.dram_pools@[i as int]@));
            }
            match answer {
                Ok(host_ptr) => {
                    chunks.push(
                        DramChunk {
                            numa_node: self.dram_pools[i].numa_node,
                            host_ptr,
                            size_bytes: bytes,
                            cuda_registered: false,
                        },
                    );
                    assert(self@.dram =~= model::shared_out(pre.dram, total as int, i + 1));
                    assert(chunks@ =~= model::host_pieces(pre.dram, total as int, i + 1));
                },
                Err(e) => {
                    assert(pre.dram[i as int].grant(bytes as int) =~= pre.dram[i as int]);
                    assert(self@.dram =~= model::shared_out(pre.dram, total as int, i as int));
                    assert(model::first_refusal(pre.dram, total as int, i as int) == i);
                    return (chunks, Some(e));
                },
            }
            i = i + 1;
        }
        (chunks, None)
    }

    /// Allocate a tensor. Its home is host memory, one piece in the pool of each
    /// GPU, or for the cold tier a range of the backing file. An empty name is
    /// replaced by one that is made up.
    pub fn allocate(
        &mut self,
        name: &str,
        shape: &[usize],
        element_size: usize,
        initial_tier: Tier,
    ) -> (r: Result<String, VugvaError>)
        requires
            old(self).wf(),
            vmt::sizable(shape@, element_size),
            name@.len() == 0 ==> old(self)@.table.next_id < u64::MAX,
            initial_tier == Tier::Ssd && old(self)@.spill is Some ==> vmt::tensor_bytes(
                shape@,
                element_size,
            ) <= usize::MAX - (ALIGN - 1),
            initial_tier != Tier::Ssd ==> old(self)@.dram.len() > 0 && model::shares_fit(
                vmt::tensor_bytes(shape@, element_size),
                old(self)@.dram.len() as int,
            ),
        ensures
            final(self).wf(),
            (final(self)@, error::named_outcome(r)) == old(self)@.allocate(
                name@,
                shape@,
                element_size,
                initial_tier,
            ),
    {
        let ghost pre = self@;
        let total: usize = vmt::size_of_tensor(shape, element_size);
        let given = self.vmt.allocate(name, shape, element_size);
        let alloc_name: String = match given {
            Ok(n) => n,
            Err(e) => {
                return Err(e);
            },
        };
        let ghost mid = self@;
        assert((alloc_name@, mid) == pre.registered(name@, shape@, element_size));

        if initial_tier == Tier::Ssd {
            let reserved = match &mut self.spill {
                None => {
                    let mut text: String = alloc_name.clone();
                    text.append(
                        ": Tier::Ssd requires a spill file — call TieredPool::attach_spill first",
                    );
                    Err(VugvaError::UnknownAllocation(text))
                },
                Some(space) => space.reserve(total),
            };
            match reserved {
                Err(e) => {
                    assert(self@ == mid);
                    return Err(e);
                },
                Ok(offset) => {
                    if let Some(page) = self.vmt.lookup_mut(alloc_name.as_str()) {
                        page.tier = Tier::Ssd;
                        page.state = PageState::Cold;
                        page.ssd_offset = Some(offset);
                    }
                    return Ok(alloc_name);
                },
            }
        }
        let (chunks, refusal) = self.share_out(total);
        if let Some(page) = self.vmt.lookup_mut(alloc_name.as_str()) {
            page.tier = initial_tier;
            page.dram_chunks = chunks;
            if refusal.is_none() {
                page.state = match initial_tier {
                    Tier::Vram => PageState::Resident,
                    Tier::Dram => PageState::Warm,
                    Tier::Ssd => PageState::Cold,
                };
            }
        }
        match refusal {
            Some(e) => Err(e),
            None => Ok(alloc_name),
        }
    }

    /// Keep a device block for further use. It stays allocated as far as the
    /// driver is concerned. No block lies at address zero.
    pub fn free_vram_on_gpu(&mut self, gpu_idx: usize, ptr: u64, bytes: usize) -> (r: Result<
        (),
        VugvaError,
    >)
        requires
            old(self).wf(),
        ensures
            final(self).wf(),
            final(self).vmt == old(self).vmt,
            final(self)@ == old(self)@.with_block(gpu_idx as int, ptr, bytes),
            r == if ptr != 0 && gpu_idx >= old(self)@.vram_free.len() {
                Err::<(), VugvaError>(VugvaError::InvalidGpu(gpu_idx))
            } else {
                Ok(())
            },
    {
        if ptr == 0 {
            return Ok(());
        }
        if gpu_idx >= self.vram_free.len() {
            return Err(VugvaError::InvalidGpu(gpu_idx));
        }
        let ghost before = self@.vram_free;
        assert(before[gpu_idx as int] == self.vram_free@[gpu_idx as int]@);
        self.vram_free[gpu_idx].push((bytes, ptr));
        assert(self@.vram_free =~= before.update(
            gpu_idx as int,
            before[gpu_idx as int].push((bytes, ptr)),
        ));
        Ok(())
    }

    /// A device block of exactly `bytes` that can be used again, if there is
    /// one.
    pub fn take_block(&mut self, gpu_idx: usize, bytes: usize) -> (r: Option<u64>)
        requires
            old(self).wf(),
        ensures
            final(self).wf(),
            final(self).vmt == old(self).vmt,
            match r {
                Some(ptr) => {
                    &&& old(self)@.has_block(gpu_idx as int, bytes)
                    &&& ptr == old(self)@.block_for(gpu_idx as int, bytes)
                    &&& final(self)@ == old(self)@.without_block(gpu_idx as int, bytes)
                },
                None => !old(self)@.has_block(gpu_idx as int, bytes) && final(self)@ == old(
                    self,
                )@,
            },
    {
        if gpu_idx >= self.vram_free.len() {
            return None;
        }
        let ghost before = self@.vram_free;
        let ghost blocks = before[gpu_idx as int];
        assert(blocks == self.vram_free@[gpu_idx as int]@);
        let mut i: usize = 0;
        assert(blocks.skip(0) =~= blocks);
        while i < self.vram_free[gpu_idx].len() && self.vram_free[gpu_idx][i].0 != bytes
            invariant
                gpu_idx < self.vram_free@.len(),
                blocks == self.vram_free@[gpu_idx as int]@,
                i <= blocks.len(),
                model::first_of_size(blocks, bytes) == i + model::first_of_size(
                    blocks.skip(i as int),
                    bytes,
                ),
            decreases blocks.len() - i,
        {
            assert(blocks.skip(i as int).skip(1) =~= blocks.skip(i + 1));
            i = i + 1;
        }
        if i == self.vram_free[gpu_idx].len() {
            return None;
        }
        let (_, ptr) = self.vram_free[gpu_idx].swap_remove(i);
        assert(self@.vram_free =~= before.update(
            gpu_idx as int,
            blocks.update(i as int, blocks.last()).drop_last(),
        ));
        Some(ptr)
    }

    /// Offer pieces of host memory to every pool. The pool that a piece came
    /// from takes it back.
    fn give_back(&mut self, chunks: &Vec<DramChunk>)
        requires
            old(self).wf(),
            forall|i: int, k: int|
                0 <= i < chunks@.len() && 0 <= k < old(self)@.dram.len()
                    && #[trigger] old(self)@.dram[k].owns((#[trigger] chunks@[i]).host_ptr)
                    ==> chunks@[i].size_bytes <= usize::MAX - (ALIGN - 1),
        ensures
            final(self).wf(),
            final(self).vmt == old(self).vmt,
            final(self)@ == (Pool {
                dram: Seq::new(
                    old(self)@.dram.len(),
                    |k: int| model::taken_back(old(self)@.dram[k], chunks@),
                ),
                ..old(self)@
            }),
    {
        let ghost pre = self@;
        let pools: usize = self.dram_pools.len();
        let mut k: usize = 0;
        while k < pools
            invariant
                pre == old(self)@,
                pre.wf(),
                pools == pre.dram.len(),
                k <= pools,
                self.wf(),
                self.vmt == old(self).vmt,
                self@ == (Pool { dram: self@.dram, ..pre }),
                self@.dram.len() == pools,
                forall|m: int|
                    0 <= m < k ==> #[trigger] self@.dram[m] == model::taken_back(
                        pre.dram[m],
                        chunks@,
                    ),
                forall|m: int| k <= m < pools ==> #[trigger] self@.dram[m] == pre.dram[m],
                forall|i: int, m: int|
                    0 <= i < chunks@.len() && 0 <= m < pre.dram.len()
                        && #[trigger] pre.dram[m].owns((#[trigger] chunks@[i]).host_ptr)
                        ==> chunks@[i].size_bytes <= usize::MAX - (ALIGN - 1),
            decreases pools - k,
        {
            let ghost d = pre.dram[k as int];
            let ghost others = self@.dram;
            assert(others[k as int] == self.dram_pools@[k as int]@);
            let mut i: usize = 0;
            assert(model::taken_back(d, chunks@.take(0)) == d);
            while i < chunks.len()
                invariant
                    pre == old(self)@,
                    pre.wf(),
                    k < pools == pre.dram.len() == others.len(),
                    i <= chunks@.len(),
                    d == pre.dram[k as int],
                    self.wf(),
                    self.vmt == old(self).vmt,
                    self@ == (Pool { dram: self@.dram, ..pre }),
                    self@.dram == others.update(
                        k as int,
                        model::taken_back(d, chunks@.take(i as int)),
                    ),
                    model::taken_back(d, chunks@.take(i as int)).base_ptr == d.base_ptr,
                    model::taken_back(d, chunks@.take(i as int)).ranges.capacity
                        == d.ranges.capacity,
                    forall|i: int, m: int|
                        0 <= i < chunks@.len() && 0 <= m < pre.dram.len()
                            && #[trigger] pre.dram[m].owns((#[trigger] chunks@[i]).host_ptr)
                            ==> chunks@[i].size_bytes <= usize::MAX - (ALIGN - 1),
                decreases chunks@.len() - i,
            {
                let ghost so_far = model::taken_back(d, chunks@.take(i as int));
                let ghost before = self.dram_pools@;
                assert(self@.dram[k as int] == self.dram_pools@[k as int]@);
                assert(so_far.owns(chunks@[i as int].host_ptr) == pre.dram[k as int].owns(
                    chunks@[i as int].host_ptr,
                ));
                self.dram_pools[k].free(chunks[i].host_ptr, chunks[i].size_bytes);
                proof {
                    let u = chunks@.take(i + 1);
                    assert(u.drop_last() =~= chunks@.take(i as int));
                    assert(u.last() == chunks@[i as int]);
                    assert(self@.dram =~= drams(before).update(
                        k as int,
                        self.dram_pools@[k as int]@,
                    ));
                    assert(self@.dram =~= others.update(
                        k as int,
                        model::taken_back(d, chunks@.take(i + 1)),
                    ));
                    model::lemma_give_back_keeps_place(
                        so_far,
                        chunks@[i as int].host_ptr,
                        chunks@[i as int].size_bytes as int,
                    );
                }
                i = i + 1;
            }
            assert(chunks@.take(i as int) =~= chunks@);
            k = k + 1;
        }
        assert(self@.dram =~= Seq::new(
            pre.dram.len(),
            |m: int| model::taken_back(pre.dram[m], chunks@),
        ));
    }

    /// There is no promotion under way for a page any more.
    fn recall(&mut self, name: &str)
        requires
            old(self).wf(),
        ensures
            final(self).wf(),
            final(self).vmt == old(self).vmt,
            final(self)@ == old(self)@.recalled(name@),
    {
        match self.inflight.remove(name) {
            Some(f) => {
                let _ = self.free_vram_on_gpu(f.gpu_idx, f.device_ptr, f.size);
            },
            None => {
                assert(old(self)@.inflight.remove(name@) =~= old(self)@.inflight);
            },
        }
    }

    /// Give back the place that a page has in the cold tier. What cannot be a
    /// place there is none.
    fn vacate(&mut self, page: &Page)
        requires
            old(self).wf(),
        ensures
            final(self).wf(),
            final(self)@ == (Pool { spill: old(self)@.vacated(page@), ..old(self)@ }),
    {
        let ghost pre = self@;
        if let Some(offset) = page.ssd_offset {
            if let Some(space) = &mut self.spill {
                let bytes: usize = page.size_bytes;
                if bytes <= usize::MAX - (ALIGN - 1) && offset <= usize::MAX as u64 {
                    space.free(offset, bytes);
                } else {
                    proof {
                        let v = pre.spill->0;
                        let len = ranges::aligned(bytes as int);
                        ranges::lemma_give_back(v, offset as int, bytes as int);
                        assert(!v.live(offset + len - 1));
                    }
                }
            }
        }
    }

    /// Drop an allocation. Its device blocks can be used again, its host memory
    /// and what it has in the cold tier go back to where they came from, and the
    /// membrane forgets it. So can a block that a promotion is under way to, which
    /// has to have landed by then.
    pub fn deallocate(&mut self, name: &str) -> (r: Result<(), VugvaError>)
        requires
            old(self).wf(),
            old(self)@.has(name@) ==> forall|i: int, k: int|
                0 <= i < old(self)@.page(name@).dram_chunks.len() && 0 <= k < old(self)@.dram.len()
                    && #[trigger] old(self)@.dram[k].owns(
                    (#[trigger] old(self)@.page(name@).dram_chunks[i]).host_ptr,
                ) ==> old(self)@.page(name@).dram_chunks[i].size_bytes <= usize::MAX - (ALIGN - 1),
        ensures
            final(self).wf(),
            old(self)@.has(name@) ==> r is Ok && final(self)@ == old(self)@.released(name@),
            !old(self)@.has(name@) ==> error::outcome(r) == Err::<(), error::Failure>(
                error::Failure::UnknownAllocation(name@),
            ) && final(self)@ == old(self)@,
    {
        let ghost pre = self@;
        let page = match self.vmt.remove(name) {
            Some(p) => p,
            None => {
                assert(pre.table.pages.remove(name@) =~= pre.table.pages);
                return Err(VugvaError::UnknownAllocation(name.to_owned()));
            },
        };
        self.recall(name);
        let ghost mid = self@;
        let mut i: usize = 0;
        while i < page.vram_chunks.len()
            invariant
                i <= page.vram_chunks@.len(),
                self.wf(),
                mid.wf(),
                self@ == mid.with_blocks(page.vram_chunks@.take(i as int)),
                self@ == (Pool { vram_free: self@.vram_free, ..mid }),
            decreases page.vram_chunks@.len() - i,
        {
            let chunk: Chunk = page.vram_chunks[i];
            proof {
                let u = page.vram_chunks@.take(i + 1);
                assert(u.drop_last() =~= page.vram_chunks@.take(i as int));
                assert(u.last() == chunk);
            }
            if let Some(gpu_idx) = self.cluster.index_of(chunk.gpu_ordinal) {
                let _ = self.free_vram_on_gpu(gpu_idx, chunk.device_ptr, chunk.size_bytes);
            }
            i = i + 1;
        }
        assert(page.vram_chunks@.take(i as int) =~= page.vram_chunks@);
        self.give_back(&page.dram_chunks);
        self.membrane.forget(name);
        self.vacate(&page);
        proof {
            model::lemma_with_blocks_keeps_rest(pre.recalled(name@), mid, page.vram_chunks@);
            assert(self@.dram =~= pre.released(name@).dram);
            assert(self@ =~= pre.released(name@));
        }
        Ok(())
    }
}

} // verus!
