//! The model of a three-tier pool: its state and what allocation and release
//! do to it.

use crate::dma::Ring;
use crate::error::Failure;
use crate::gpu::{self, GpuCluster};
use crate::membrane::Rates;
use crate::ranges::{self, Ranges, ALIGN};
use crate::spill;
use crate::tiered::dram::Dram;
use crate::vmt::{self, Chunk, DramChunk, PageState, PageView, Table, Tier};
use vstd::prelude::*;

verus! {

/// A promotion that was started ahead of need and is not yet claimed.
#[derive(Debug, Clone, Copy)]
pub struct Inflight {
    /// Index of the GPU.
    pub gpu_idx: usize,
    /// Device block that the page is copied to.
    pub device_ptr: u64,
    /// Size of the block in bytes.
    pub size: usize,
}

/// What a [`TieredPool`](crate::tiered::TieredPool) stands for.
#[verifier::ext_equal]
pub struct Pool {
    /// The pages.
    pub table: Table,
    /// The DMA command ring of each GPU.
    pub rings: Seq<Ring>,
    /// The GPUs.
    pub cluster: GpuCluster,
    /// The host memory pool of each GPU.
    pub dram: Seq<Dram>,
    /// The device blocks `(size, address)` of each GPU that can be used again.
    pub vram_free: Seq<Seq<(usize, u64)>>,
    /// The space of the cold tier, if there is one.
    pub spill: Option<Ranges>,
    /// Promotions started ahead of need, by page.
    pub inflight: Map<Seq<char>, Inflight>,
    /// How often the pages are used.
    pub rates: Rates,
    /// Device memory that placement by rate may fill, if it is enabled.
    pub membrane_budget: Option<usize>,
    /// A page that was not used for longer is demoted.
    pub idle_threshold_ns: u64,
    /// A page that was used this often is promoted.
    pub hot_threshold: u64,
}

/// The part of `total` bytes that falls to pool `i` of `n`: an equal share, and
/// to the last what is left over.
pub open spec fn share(total: int, n: int, i: int) -> int {
    total / n + if i == n - 1 {
        total % n
    } else {
        0
    }
}

/// Bytes in the first `k` shares.
pub open spec fn shares_up_to(total: int, n: int, k: int) -> int
    decreases k,
{
    if k <= 0 {
        0
    } else {
        shares_up_to(total, n, k - 1) + share(total, n, k - 1)
    }
}

/// The shares of a page add up to the page: no byte is lost in the division.
pub proof fn law_shares_add_up(total: int, n: int)
    requires
        total >= 0,
        n > 0,
    ensures
        shares_up_to(total, n, n) == total,
{
    lemma_even_shares(total, n, n - 1);
    assert(total / n * (n - 1) + (total / n + total % n) == total) by (nonlinear_arith)
        requires
            n > 0,
    ;
}

proof fn lemma_even_shares(total: int, n: int, k: int)
    requires
        0 <= k < n,
    ensures
        shares_up_to(total, n, k) == total / n * k,
    decreases k,
{
    if k > 0 {
        lemma_even_shares(total, n, k - 1);
        assert(total / n * (k - 1) + total / n == total / n * k) by (nonlinear_arith);
    } else {
        assert(total / n * 0 == 0) by (nonlinear_arith);
    }
}

/// Every share can be rounded up to a whole line within a machine word.
pub open spec fn shares_fit(total: int, n: int) -> bool {
    share(total, n, n - 1) <= usize::MAX - (ALIGN - 1)
}

pub(crate) proof fn lemma_share_bounds(total: int, n: int, i: int)
    requires
        total >= 0,
        n > 0,
        0 <= i < n,
    ensures
        0 <= share(total, n, i) <= share(total, n, n - 1),
        share(total, n, i) <= total,
{
    assert(0 <= total / n && 0 <= total % n && total / n + total % n <= total) by (nonlinear_arith)
        requires
            total >= 0,
            n > 0,
    ;
}

/// The first pool from `i` on that cannot hold its share of `total` bytes, or
/// the number of pools.
pub open spec fn first_refusal(dram: Seq<Dram>, total: int, i: int) -> int
    decreases dram.len() - i,
{
    if i >= dram.len() {
        dram.len() as int
    } else if dram[i].answer(share(total, dram.len() as int, i)) is Ok {
        first_refusal(dram, total, i + 1)
    } else {
        i
    }
}

pub(crate) proof fn lemma_first_refusal(dram: Seq<Dram>, total: int, i: int)
    requires
        0 <= i <= dram.len(),
    ensures
        i <= first_refusal(dram, total, i) <= dram.len(),
    decreases dram.len() - i,
{
    if i < dram.len() && dram[i].answer(share(total, dram.len() as int, i)) is Ok {
        lemma_first_refusal(dram, total, i + 1);
    }
}

/// The piece of a page of `total` bytes in pool `i`.
pub open spec fn host_piece(dram: Seq<Dram>, total: int, i: int) -> DramChunk {
    let bytes = share(total, dram.len() as int, i);
    DramChunk {
        numa_node: dram[i].numa_node,
        host_ptr: dram[i].answer(bytes)->Ok_0,
        size_bytes: bytes as usize,
        cuda_registered: false,
    }
}

/// The pieces of a page of `total` bytes in the first `k` pools.
pub open spec fn host_pieces(dram: Seq<Dram>, total: int, k: int) -> Seq<DramChunk> {
    Seq::new(k as nat, |i: int| host_piece(dram, total, i))
}

/// The pools once the first `k` have handed out their share of `total` bytes.
pub open spec fn shared_out(dram: Seq<Dram>, total: int, k: int) -> Seq<Dram> {
    Seq::new(
        dram.len(),
        |i: int|
            if i < k {
                dram[i].grant(share(total, dram.len() as int, i))
            } else {
                dram[i]
            },
    )
}

/// The state of a page that is allocated in a tier.
pub open spec fn home_state(tier: Tier) -> PageState {
    match tier {
        Tier::Vram => PageState::Resident,
        Tier::Dram => PageState::Warm,
        Tier::Ssd => PageState::Cold,
    }
}

/// The pool after `bytes` at `ptr` are offered to it by all pieces of `chunks`.
pub open spec fn taken_back(d: Dram, chunks: Seq<DramChunk>) -> Dram
    decreases chunks.len(),
{
    if chunks.len() == 0 {
        d
    } else {
        taken_back(d, chunks.drop_last()).give_back(
            chunks.last().host_ptr,
            chunks.last().size_bytes as int,
        )
    }
}

/// What a pool takes back changes neither where it lies nor its size.
pub(crate) proof fn lemma_give_back_keeps_place(d: Dram, ptr: usize, bytes: int)
    requires
        d.wf(),
    ensures
        d.give_back(ptr, bytes).wf(),
        d.give_back(ptr, bytes).base_ptr == d.base_ptr,
        d.give_back(ptr, bytes).ranges.capacity == d.ranges.capacity,
{
    if d.owns(ptr) {
        ranges::lemma_give_back(d.ranges, ptr - d.base_ptr, bytes);
    }
}

/// Blocks that can be used again depend on the GPUs and on the blocks there are.
pub(crate) proof fn lemma_with_blocks_keeps_rest(a: Pool, b: Pool, chunks: Seq<Chunk>)
    requires
        a.cluster == b.cluster,
        a.vram_free == b.vram_free,
    ensures
        a.with_blocks(chunks).vram_free == b.with_blocks(chunks).vram_free,
        a.with_blocks(chunks) == (Pool { vram_free: a.with_blocks(chunks).vram_free, ..a }),
    decreases chunks.len(),
{
    if chunks.len() > 0 {
        lemma_with_blocks_keeps_rest(a, b, chunks.drop_last());
    }
}

/// The position of the first chunk of GPU `ordinal`, or the number of chunks.
pub open spec fn first_on(chunks: Seq<Chunk>, ordinal: i32) -> int
    decreases chunks.len(),
{
    if chunks.len() == 0 || chunks[0].gpu_ordinal == ordinal {
        0
    } else {
        1 + first_on(chunks.skip(1), ordinal)
    }
}

/// The position of the first chunk of another GPU than `ordinal`, or the number
/// of chunks.
pub open spec fn first_elsewhere(chunks: Seq<Chunk>, ordinal: i32) -> int
    decreases chunks.len(),
{
    if chunks.len() == 0 || chunks[0].gpu_ordinal != ordinal {
        0
    } else {
        1 + first_elsewhere(chunks.skip(1), ordinal)
    }
}

/// A piece that is found on a GPU is there, and none before it is. Where none is
/// found, none is there. Likewise for a piece on any other GPU.
pub proof fn law_first_piece_is_found(chunks: Seq<Chunk>, ordinal: i32)
    ensures
        ({
            let own = first_on(chunks, ordinal);
            let other = first_elsewhere(chunks, ordinal);
            &&& 0 <= own <= chunks.len()
            &&& own < chunks.len() ==> chunks[own].gpu_ordinal == ordinal
            &&& forall|i: int| 0 <= i < own ==> (#[trigger] chunks[i]).gpu_ordinal != ordinal
            &&& 0 <= other <= chunks.len()
            &&& other < chunks.len() ==> chunks[other].gpu_ordinal != ordinal
            &&& forall|i: int| 0 <= i < other ==> (#[trigger] chunks[i]).gpu_ordinal == ordinal
        }),
    decreases chunks.len(),
{
    if chunks.len() > 0 {
        let rest = chunks.skip(1);
        law_first_piece_is_found(rest, ordinal);
        assert forall|i: int| 1 <= i < chunks.len() implies #[trigger] chunks[i] == rest[i
            - 1] by {}
    }
}

/// The position of the first block of exactly `bytes`, or the number of blocks.
pub open spec fn first_of_size(blocks: Seq<(usize, u64)>, bytes: usize) -> int
    decreases blocks.len(),
{
    if blocks.len() == 0 || blocks[0].0 == bytes {
        0
    } else {
        1 + first_of_size(blocks.skip(1), bytes)
    }
}

pub(crate) proof fn lemma_first_of_size(blocks: Seq<(usize, u64)>, bytes: usize)
    ensures
        0 <= first_of_size(blocks, bytes) <= blocks.len(),
        first_of_size(blocks, bytes) < blocks.len() ==> blocks[first_of_size(
            blocks,
            bytes,
        )].0 == bytes,
    decreases blocks.len(),
{
    if blocks.len() > 0 && blocks[0].0 != bytes {
        lemma_first_of_size(blocks.skip(1), bytes);
    }
}

impl Pool {
    /// There is a host pool, a ring and a list of blocks for every GPU, and
    /// each host pool and the cold tier are in order.
    pub open spec fn wf(self) -> bool {
        &&& self.dram.len() == self.cluster.ordinals@.len()
        &&& self.vram_free.len() == self.cluster.ordinals@.len()
        &&& self.rings.len() == self.cluster.ordinals@.len()
        &&& forall|i: int| 0 <= i < self.dram.len() ==> (#[trigger] self.dram[i]).wf()
        &&& self.spill matches Some(s) ==> s.wf()
    }

    /// The page of that name.
    pub open spec fn page(self, name: Seq<char>) -> PageView {
        self.table.pages[name]
    }

    /// There is a page of that name.
    pub open spec fn has(self, name: Seq<char>) -> bool {
        self.table.pages.contains_key(name)
    }

    /// The pool with another page under that name.
    pub open spec fn with_page(self, name: Seq<char>, page: PageView) -> Pool {
        Pool {
            table: Table { pages: self.table.pages.insert(name, page), ..self.table },
            ..self
        }
    }

    /// Index of the GPU of that ordinal.
    pub open spec fn index_of(self, ordinal: i32) -> Option<usize> {
        gpu::position_of(self.cluster.ordinals@, ordinal)
    }

    /// The pool with a page registered in it: its name and the new state.
    pub open spec fn registered(
        self,
        name: Seq<char>,
        shape: Seq<usize>,
        element_size: usize,
    ) -> (Seq<char>, Pool) {
        let next_id = if name.len() == 0 {
            (self.table.next_id + 1) as u64
        } else {
            self.table.next_id
        };
        let given = if name.len() == 0 {
            vmt::generated_name(next_id)
        } else {
            name
        };
        (
            given,
            Pool {
                table: Table {
                    pages: self.table.pages.insert(
                        given,
                        PageView::allocated(given, shape, element_size),
                    ),
                    next_id,
                },
                ..self
            },
        )
    }

    /// What comes of the request for a page of `total` bytes in the cold tier,
    /// for a page that is registered as `name`.
    pub open spec fn place_cold(self, name: Seq<char>, total: int) -> (
        Pool,
        Result<Seq<char>, Failure>,
    ) {
        match self.spill {
            None => (
                self,
                Err(
                    Failure::UnknownAllocation(
                        name
                            + ": Tier::Ssd requires a spill file — call TieredPool::attach_spill first"@,
                    ),
                ),
            ),
            Some(space) => match spill::reservation(space, total) {
                Ok(offset) => (
                    Pool { spill: Some(space.grant(total)), ..self }.with_page(
                        name,
                        PageView {
                            tier: Tier::Ssd,
                            state: PageState::Cold,
                            ssd_offset: Some(offset),
                            ..self.page(name)
                        },
                    ),
                    Ok(name),
                ),
                Err(e) => (self, Err(e@)),
            },
        }
    }

    /// What comes of the request for a page of `total` bytes in host memory, for
    /// a page that is registered as `name`: every pool hands out its share. A
    /// pool that cannot ends it, and what was handed out until then stays with
    /// the page.
    pub open spec fn place_warm(self, name: Seq<char>, total: int, tier: Tier) -> (
        Pool,
        Result<Seq<char>, Failure>,
    ) {
        let n = self.dram.len() as int;
        let k = first_refusal(self.dram, total, 0);
        let page = PageView {
            tier,
            dram_chunks: host_pieces(self.dram, total, k),
            ..self.page(name)
        };
        let pool = Pool { dram: shared_out(self.dram, total, k), ..self };
        if k < n {
            (
                pool.with_page(name, page),
                Err((self.dram[k].answer(share(total, n, k))->Err_0)@),
            )
        } else {
            (pool.with_page(name, PageView { state: home_state(tier), ..page }), Ok(name))
        }
    }

    /// What comes of the request for a page.
    pub open spec fn allocate(
        self,
        name: Seq<char>,
        shape: Seq<usize>,
        element_size: usize,
        tier: Tier,
    ) -> (Pool, Result<Seq<char>, Failure>) {
        let (given, pool) = self.registered(name, shape, element_size);
        let total = vmt::tensor_bytes(shape, element_size);
        if tier == Tier::Ssd {
            pool.place_cold(given, total)
        } else {
            pool.place_warm(given, total, tier)
        }
    }

    /// The pool with a device block of GPU `gpu` among those that can be used
    /// again. No block lies at address zero.
    pub open spec fn with_block(self, gpu: int, ptr: u64, bytes: usize) -> Pool {
        if ptr != 0 && 0 <= gpu < self.vram_free.len() {
            Pool {
                vram_free: self.vram_free.update(gpu, self.vram_free[gpu].push((bytes, ptr))),
                ..self
            }
        } else {
            self
        }
    }

    /// The pool with the device blocks of all `chunks` among those that can be
    /// used again.
    pub open spec fn with_blocks(self, chunks: Seq<Chunk>) -> Pool
        decreases chunks.len(),
    {
        if chunks.len() == 0 {
            self
        } else {
            let c = chunks.last();
            let before = self.with_blocks(chunks.drop_last());
            match self.index_of(c.gpu_ordinal) {
                Some(g) => before.with_block(g as int, c.device_ptr, c.size_bytes),
                None => before,
            }
        }
    }

    /// The pool with no promotion under way for a page: the block that there was
    /// one to can be used again.
    pub open spec fn recalled(self, name: Seq<char>) -> Pool {
        if self.inflight.contains_key(name) {
            let f = self.inflight[name];
            Pool { inflight: self.inflight.remove(name), ..self }.with_block(
                f.gpu_idx as int,
                f.device_ptr,
                f.size,
            )
        } else {
            self
        }
    }

    /// The space of the cold tier once the place that a page has there is given
    /// back.
    pub open spec fn vacated(self, page: PageView) -> Option<Ranges> {
        match (self.spill, page.ssd_offset) {
            (Some(space), Some(offset)) => Some(
                space.give_back(offset as int, page.size_bytes as int),
            ),
            _ => self.spill,
        }
    }

    /// The pool without a page: its device blocks can be used again, also one that
    /// a promotion is under way to, its host memory and its place in the cold tier
    /// go back to where they came from, and how often it was used is forgotten.
    pub open spec fn released(self, name: Seq<char>) -> Pool {
        let page = self.page(name);
        let pool = self.recalled(name).with_blocks(page.vram_chunks);
        Pool {
            dram: Seq::new(self.dram.len(), |i: int| taken_back(self.dram[i], page.dram_chunks)),
            table: Table { pages: self.table.pages.remove(name), ..self.table },
            rates: self.rates.without(name),
            spill: self.vacated(page),
            ..pool
        }
    }

    /// A device block of exactly `bytes` on GPU `gpu` can be used again.
    pub open spec fn has_block(self, gpu: int, bytes: usize) -> bool {
        0 <= gpu < self.vram_free.len() && first_of_size(self.vram_free[gpu], bytes)
            < self.vram_free[gpu].len()
    }

    /// The address of the block that is used again.
    pub open spec fn block_for(self, gpu: int, bytes: usize) -> u64 {
        self.vram_free[gpu][first_of_size(self.vram_free[gpu], bytes)].1
    }

    /// The pool without that block. The last of the list takes its place.
    pub open spec fn without_block(self, gpu: int, bytes: usize) -> Pool {
        let blocks = self.vram_free[gpu];
        let i = first_of_size(blocks, bytes);
        Pool {
            vram_free: self.vram_free.update(gpu, blocks.update(i, blocks.last()).drop_last()),
            ..self
        }
    }
}

/// The shares of a page are all of one size, but for the last, which has what is
/// left over: less than a byte more for each pool.
pub proof fn law_shares_are_even(total: int, n: int, i: int)
    requires
        total >= 0,
        0 <= i < n,
    ensures
        i < n - 1 ==> share(total, n, i) == share(total, n, 0),
        0 <= share(total, n, n - 1) - share(total, n, i) < n,
        0 <= share(total, n, i) <= total,
{
    lemma_share_bounds(total, n, i);
    assert(0 <= total % n < n);
}

/// A block that is used again is of exactly the size that is asked for and was
/// on the list of the GPU that asks. It is no longer, and everything else is as
/// it was. Where no block is found, none of that size is on the list.
pub proof fn law_used_block_leaves_its_list(pool: Pool, gpu: int, bytes: usize)
    requires
        0 <= gpu < pool.vram_free.len(),
    ensures
        pool.has_block(gpu, bytes) <==> exists|i: int|
            0 <= i < pool.vram_free[gpu].len() && (#[trigger] pool.vram_free[gpu][i]).0 == bytes,
        pool.has_block(gpu, bytes) ==> {
            let after = pool.without_block(gpu, bytes);
            let block = (bytes, pool.block_for(gpu, bytes));
            &&& pool.vram_free[gpu].contains(block)
            &&& pool.vram_free[gpu].to_multiset() == after.vram_free[gpu].to_multiset().insert(
                block,
            )
            &&& after.vram_free.len() == pool.vram_free.len()
            &&& forall|g: int|
                0 <= g < pool.vram_free.len() && g != gpu ==> #[trigger] after.vram_free[g]
                    == pool.vram_free[g]
            &&& after == (Pool { vram_free: after.vram_free, ..pool })
        },
{
    let blocks = pool.vram_free[gpu];
    let at = first_of_size(blocks, bytes);
    lemma_first_of_size(blocks, bytes);
    lemma_size_is_found(blocks, bytes);
    if at < blocks.len() {
        let swapped = blocks.update(at, blocks.last());
        let rest = swapped.drop_last();
        let all = blocks.to_multiset();
        assert(blocks[at].0 == bytes);
        assert(blocks.contains(blocks[at]));
        vstd::seq_lib::to_multiset_contains(blocks, blocks[at]);
        vstd::seq_lib::to_multiset_update(blocks, at, blocks.last());
        vstd::seq_lib::to_multiset_build(rest, blocks.last());
        assert(swapped =~= rest.push(blocks.last()));
        assert(rest.to_multiset().insert(blocks.last()) == all.insert(blocks.last()).remove(
            blocks[at],
        ));
        assert(rest.to_multiset().insert(blocks[at]) =~= all) by {
            broadcast use vstd::multiset::group_multiset_axioms;
            assert forall|b: (usize, u64)| rest.to_multiset().insert(blocks[at]).count(b)
                == all.count(b) by {
                assert(rest.to_multiset().insert(blocks.last()).count(b) == all.insert(
                    blocks.last(),
                ).remove(blocks[at]).count(b));
            }
        }
    }
}

proof fn lemma_size_is_found(blocks: Seq<(usize, u64)>, bytes: usize)
    ensures
        forall|i: int|
            0 <= i < first_of_size(blocks, bytes) ==> (#[trigger] blocks[i]).0 != bytes,
    decreases blocks.len(),
{
    if blocks.len() > 0 && blocks[0].0 != bytes {
        let rest = blocks.skip(1);
        lemma_size_is_found(rest, bytes);
        lemma_first_of_size(rest, bytes);
        assert forall|i: int| 0 <= i < first_of_size(blocks, bytes) implies (
        #[trigger] blocks[i]).0 != bytes by {
            if i > 0 {
                assert(rest[i - 1] == blocks[i]);
            }
        }
    }
}

/// A block that can be used again is on the list of its GPU, behind those there
/// were, and everything else is as it was. No block lies at address zero.
pub proof fn law_returned_block_joins_its_list(pool: Pool, gpu: int, ptr: u64, bytes: usize)
    requires
        0 <= gpu < pool.vram_free.len(),
    ensures
        ({
            let after = pool.with_block(gpu, ptr, bytes);
            &&& ptr != 0 ==> after.vram_free[gpu] == pool.vram_free[gpu] + seq![(bytes, ptr)]
            &&& ptr == 0 ==> after == pool
            &&& after.vram_free.len() == pool.vram_free.len()
            &&& forall|g: int|
                0 <= g < pool.vram_free.len() && g != gpu ==> #[trigger] after.vram_free[g]
                    == pool.vram_free[g]
            &&& after == (Pool { vram_free: after.vram_free, ..pool })
        }),
{
    assert(pool.vram_free[gpu].push((bytes, ptr)) =~= pool.vram_free[gpu] + seq![(bytes, ptr)]);
}

/// The blocks of all pieces on GPUs of the cluster can be used again, each on
/// the GPU that it is on. The lists hold what they held, and nothing but those
/// blocks besides.
pub proof fn law_blocks_of_pieces_join_their_lists(pool: Pool, chunks: Seq<Chunk>)
    requires
        pool.vram_free.len() == pool.cluster.ordinals@.len(),
    ensures
        ({
            let after = pool.with_blocks(chunks);
            &&& after.vram_free.len() == pool.vram_free.len()
            &&& forall|i: int|
                0 <= i < chunks.len() && chunks[i].device_ptr != 0
                    && pool.cluster.ordinals@.contains((#[trigger] chunks[i]).gpu_ordinal)
                    ==> exists|g: int|
                    0 <= g < after.vram_free.len() && pool.cluster.ordinals@[g]
                        == chunks[i].gpu_ordinal && (#[trigger] after.vram_free[g]).contains(
                        (chunks[i].size_bytes, chunks[i].device_ptr),
                    )
            &&& forall|g: int, b: (usize, u64)|
                0 <= g < after.vram_free.len() && #[trigger] after.vram_free[g].contains(b)
                    ==> pool.vram_free[g].contains(b) || exists|i: int|
                    0 <= i < chunks.len() && (#[trigger] chunks[i]).gpu_ordinal
                        == pool.cluster.ordinals@[g] && b == (
                        chunks[i].size_bytes,
                        chunks[i].device_ptr,
                    )
            &&& forall|g: int|
                0 <= g < pool.vram_free.len() ==> pool.vram_free[g].is_prefix_of(
                    #[trigger] after.vram_free[g],
                )
        }),
    decreases chunks.len(),
{
    let after = pool.with_blocks(chunks);
    if chunks.len() > 0 {
        let init = chunks.drop_last();
        let c = chunks.last();
        let before = pool.with_blocks(init);
        law_blocks_of_pieces_join_their_lists(pool, init);
        assert(pool.cluster.ordinals@.len() == pool.cluster.ordinals.len());
        gpu::law_position_is_the_last(pool.cluster.ordinals@, c.gpu_ordinal);
        let at = pool.index_of(c.gpu_ordinal);
        if at is Some {
            law_returned_block_joins_its_list(before, at->0 as int, c.device_ptr, c.size_bytes);
        }
        assert forall|g: int| 0 <= g < before.vram_free.len() implies (
        #[trigger] after.vram_free[g]) == before.vram_free[g] || (at == Some(g as usize)
            && after.vram_free[g] == before.vram_free[g] + seq![(c.size_bytes, c.device_ptr)]) by {}
        assert forall|g: int, b: (usize, u64)|
            0 <= g < before.vram_free.len() && #[trigger] before.vram_free[g].contains(
                b,
            ) implies after.vram_free[g].contains(b) by {
            let k = choose|k: int|
                0 <= k < before.vram_free[g].len() && before.vram_free[g][k] == b;
            assert(after.vram_free[g][k] == b);
        }
        assert forall|i: int|
            0 <= i < chunks.len() && chunks[i].device_ptr != 0 && pool.cluster.ordinals@.contains(
                (#[trigger] chunks[i]).gpu_ordinal,
            ) implies exists|g: int|
            0 <= g < after.vram_free.len() && pool.cluster.ordinals@[g] == chunks[i].gpu_ordinal
                && (#[trigger] after.vram_free[g]).contains(
                (chunks[i].size_bytes, chunks[i].device_ptr),
            ) by {
            if i < init.len() {
                assert(init[i] == chunks[i]);
                let g = choose|g: int|
                    0 <= g < before.vram_free.len() && pool.cluster.ordinals@[g]
                        == init[i].gpu_ordinal && (#[trigger] before.vram_free[g]).contains(
                        (init[i].size_bytes, init[i].device_ptr),
                    );
                assert(after.vram_free[g].contains((init[i].size_bytes, init[i].device_ptr)));
            } else {
                let g = at->0 as int;
                let list = after.vram_free[g];
                assert(list[list.len() - 1] == (c.size_bytes, c.device_ptr));
                assert(list.contains((c.size_bytes, c.device_ptr)));
            }
        }
        assert forall|g: int, b: (usize, u64)|
            0 <= g < after.vram_free.len() && #[trigger] after.vram_free[g].contains(
                b,
            ) implies pool.vram_free[g].contains(b) || exists|i: int|
            0 <= i < chunks.len() && (#[trigger] chunks[i]).gpu_ordinal
                == pool.cluster.ordinals@[g] && b == (
                chunks[i].size_bytes,
                chunks[i].device_ptr,
            ) by {
            let k = choose|k: int| 0 <= k < after.vram_free[g].len() && after.vram_free[g][k] == b;
            if k < before.vram_free[g].len() {
                assert(before.vram_free[g][k] == b);
                assert(before.vram_free[g].contains(b));
                if !pool.vram_free[g].contains(b) {
                    let i = choose|i: int|
                        0 <= i < init.len() && (#[trigger] init[i]).gpu_ordinal
                            == pool.cluster.ordinals@[g] && b == (
                            init[i].size_bytes,
                            init[i].device_ptr,
                        );
                    assert(chunks[i].gpu_ordinal == pool.cluster.ordinals@[g]);
                }
            } else {
                assert(chunks[chunks.len() - 1].gpu_ordinal == pool.cluster.ordinals@[g]);
            }
        }
        assert forall|g: int| 0 <= g < pool.vram_free.len() implies pool.vram_free[g].is_prefix_of(
            #[trigger] after.vram_free[g],
        ) by {
            assert(pool.vram_free[g].is_prefix_of(before.vram_free[g]));
        }
    }
}

} // verus!
