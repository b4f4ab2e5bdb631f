//! What each step of an access leaves behind, and where it takes the page from.

use crate::dma::Descriptor;
use crate::error::{Failure, VugvaError};
use crate::gpu;
use crate::tiered::access::{self, Source, Step, Work};
use crate::tiered::dram::{self, Dram};
use crate::tiered::machine::{self, Machine};
use crate::tiered::model::{self, Pool};
use crate::vmt::{PageState, PageView, Tier};
use vstd::prelude::*;

verus! {

/// An access that finds the page on the device that asks leaves its time and one
/// more in the count, and nothing else of the page changes. The page is then not
/// stale at that time. What is returned is the address of the first piece of the
/// page on the device.
pub proof fn law_access_in_place_is_recorded(
    pool: Pool,
    name: Seq<char>,
    gpu: int,
    now: u64,
    ptr: u64,
)
    requires
        pool.accessible(name),
        pool.access(name, gpu, now).1 == Step::Finished(Ok(ptr)),
    ensures
        ({
            let before = pool.page(name);
            let after = pool.access(name, gpu, now).0;
            let page = after.page(name);
            &&& after.has(name)
            &&& page.last_access_ns == now
            &&& page.access_count == before.access_count + 1
            &&& page == (PageView {
                last_access_ns: page.last_access_ns,
                access_count: page.access_count,
                ..before
            })
            &&& page.tier == Tier::Vram
            &&& !after.is_stale(name, now)
            &&& exists|i: int|
                0 <= i < before.vram_chunks.len() && (
                #[trigger] before.vram_chunks[i]).gpu_ordinal == pool.cluster.ordinals@[gpu]
                    && before.vram_chunks[i].device_ptr == ptr && forall|j: int|
                    0 <= j < i ==> (#[trigger] before.vram_chunks[j]).gpu_ordinal
                        != pool.cluster.ordinals@[gpu]
        }),
{
    model::law_first_piece_is_found(pool.page(name).vram_chunks, pool.cluster.ordinals@[gpu]);
}

/// An access that had work to wait for and succeeds leaves its time and one more
/// in the count, whichever way the page has come, so that the page is not stale
/// at that time. The page has one piece more: on the device that asks, at the
/// address that is returned. What the page has in other tiers stays.
pub proof fn law_resumed_access_is_recorded(
    pool: Pool,
    name: Seq<char>,
    gpu: int,
    now: u64,
    work: Work,
    event: Result<u64, Failure>,
    ptr: u64,
)
    requires
        pool.accessible(name),
        pool.resume_access(name, gpu, now, work, event).1 == Step::Finished(Ok(ptr)),
    ensures
        ({
            let before = pool.page(name);
            let after = pool.resume_access(name, gpu, now, work, event).0;
            let page = after.page(name);
            let piece = page.vram_chunks.last();
            &&& event is Ok
            &&& after.has(name)
            &&& page.last_access_ns == now
            &&& page.access_count == before.access_count + 1
            &&& page.tier == Tier::Vram
            &&& page.state == PageState::Resident
            &&& !after.is_stale(name, now)
            &&& page.vram_chunks.len() == before.vram_chunks.len() + 1
            &&& page.vram_chunks.drop_last() == before.vram_chunks
            &&& piece.gpu_ordinal == pool.cluster.ordinals@[gpu]
            &&& piece.device_ptr == ptr
            &&& piece.size_bytes == match work {
                Work::AwaitPrefetch { size, .. } => size,
                Work::AllocateBlock { bytes, .. } => bytes,
                Work::Copy { bytes, .. } => bytes,
                Work::Stream { total, .. } => total,
            }
            &&& piece.num_elements * before.element_size <= piece.size_bytes
            &&& piece.size_bytes < (piece.num_elements + 1) * before.element_size
            &&& page == (PageView {
                last_access_ns: page.last_access_ns,
                access_count: page.access_count,
                vram_chunks: page.vram_chunks,
                tier: page.tier,
                state: page.state,
                ..before
            })
        }),
{
    let after = pool.resume_access(name, gpu, now, work, event).0;
    let bytes = after.page(name).vram_chunks.last().size_bytes;
    let size = pool.page(name).element_size;
    assert(after.page(name).vram_chunks.drop_last() =~= pool.page(name).vram_chunks);
    assert(bytes / size * size <= bytes && bytes < (bytes / size + 1) * size) by (nonlinear_arith)
        requires
            size > 0,
    ;
}

/// An access that succeeds, however much work it took, leaves the page with the
/// time of the access and one access more. The page is on the device that asked,
/// at the address that was returned, and not stale at the time.
pub proof fn law_successful_access_is_recorded(
    m: Machine,
    name: Seq<char>,
    gpu: int,
    now: u64,
    block: u64,
)
    requires
        m.pool.accessible(name),
        m.pool.access(name, gpu, now).1 matches Step::Pending(work) ==> m.pool.access(
            name,
            gpu,
            now,
        ).0.fits(name, gpu, work),
        m.access(name, gpu, now, block).1 is Ok,
    ensures
        ({
            let (after, r) = m.access(name, gpu, now, block);
            let page = after.pool.page(name);
            &&& after.pool.has(name)
            &&& page.last_access_ns == now
            &&& page.access_count == m.pool.page(name).access_count + 1
            &&& page.tier == Tier::Vram
            &&& !after.pool.is_stale(name, now)
            &&& exists|i: int|
                0 <= i < page.vram_chunks.len() && (#[trigger] page.vram_chunks[i]).gpu_ordinal
                    == m.pool.cluster.ordinals@[gpu] && page.vram_chunks[i].device_ptr == r->Ok_0
        }),
{
    let (pool, step) = m.pool.access(name, gpu, now);
    let begun = Machine { pool, ..m };
    match step {
        Step::Finished(r) => {
            law_access_in_place_is_recorded(m.pool, name, gpu, now, r->Ok_0);
            let i = choose|i: int|
                0 <= i < m.pool.page(name).vram_chunks.len() && (
                #[trigger] m.pool.page(name).vram_chunks[i]).gpu_ordinal
                    == m.pool.cluster.ordinals@[gpu]
                    && m.pool.page(name).vram_chunks[i].device_ptr == r->Ok_0;
            assert(pool.page(name).vram_chunks[i].device_ptr == r->Ok_0);
        },
        Step::Pending(work) => {
            lemma_run_is_recorded(begun, name, gpu, now, work, block);
        },
    }
}

#[verifier::spinoff_prover]
#[verifier::rlimit(40)]
proof fn lemma_run_is_recorded(
    m: Machine,
    name: Seq<char>,
    gpu: int,
    now: u64,
    work: Work,
    block: u64,
)
    requires
        m.pool.accessible(name),
        m.pool.fits(name, gpu, work),
        m.run_access(name, gpu, now, Step::Pending(work), block).1 is Ok,
    ensures
        ({
            let (after, r) = m.run_access(name, gpu, now, Step::Pending(work), block);
            let page = after.pool.page(name);
            &&& after.pool.has(name)
            &&& page.last_access_ns == now
            &&& page.access_count == m.pool.page(name).access_count + 1
            &&& page.tier == Tier::Vram
            &&& !after.pool.is_stale(name, now)
            &&& exists|i: int|
                0 <= i < page.vram_chunks.len() && (#[trigger] page.vram_chunks[i]).gpu_ordinal
                    == m.pool.cluster.ordinals@[gpu] && page.vram_chunks[i].device_ptr == r->Ok_0
        }),
    decreases machine::effort(Step::Pending(work)),
{
    reveal_with_fuel(Machine::run_access, 2);
    let done = m.done(gpu, work);
    assert(done.pool == m.pool);
    let (pool, next) = m.pool.resume_access(name, gpu, now, work, Ok(block));
    let ahead = Machine { pool, ..done };
    lemma_next_fits(m.pool, name, gpu, now, work, block);
    match next {
        Step::Finished(r) => {
            law_resumed_access_is_recorded(m.pool, name, gpu, now, work, Ok(block), r->Ok_0);
            let chunks = pool.page(name).vram_chunks;
            assert(chunks[chunks.len() - 1].device_ptr == r->Ok_0);
        },
        Step::Pending(w) => {
            lemma_run_is_recorded(ahead, name, gpu, now, w, block);
        },
    }
}

/// The work that follows on work that fits does, and is less.
proof fn lemma_next_fits(
    pool: Pool,
    name: Seq<char>,
    gpu: int,
    now: u64,
    work: Work,
    block: u64,
)
    requires
        pool.accessible(name),
        pool.fits(name, gpu, work),
    ensures
        pool.resume_access(name, gpu, now, work, Ok(block)).1 matches Step::Pending(next) ==> {
            let after = pool.resume_access(name, gpu, now, work, Ok(block)).0;
            &&& after.fits(name, gpu, next)
            &&& after.table == pool.table
            &&& after.cluster == pool.cluster
            &&& machine::effort(Step::Pending(next)) < machine::effort(Step::Pending(work))
        },
{
    if let Work::AllocateBlock { bytes, .. } = work {
        access::lemma_staging_size(pool.dram[gpu], bytes as int);
    }
}

/// A page that is on the device that asks is not brought there again, and an
/// access counts, for the rate of the page alone, whether it succeeds or not.
pub proof fn law_every_access_counts(
    pool: Pool,
    name: Seq<char>,
    gpu: int,
    now: u64,
    other: Seq<char>,
)
    requires
        pool.rates.hits_of(name) < u64::MAX,
        other != name,
    ensures
        ({
            let (after, step) = pool.access(name, gpu, now);
            let page = pool.page(name);
            &&& after.rates.hits_of(name) == pool.rates.hits_of(name) + 1
            &&& after.rates.hits_of(other) == pool.rates.hits_of(other)
            &&& after.rates.rates == pool.rates.rates
            &&& after.rates.sweeps == pool.rates.sweeps
            &&& after.cluster == pool.cluster
            &&& after.spill == pool.spill
            &&& after.membrane_budget == pool.membrane_budget
            &&& after.idle_threshold_ns == pool.idle_threshold_ns
            &&& after.hot_threshold == pool.hot_threshold
            &&& after.has(other) == pool.has(other)
            &&& after.page(other) == pool.page(other)
            &&& !after.inflight.contains_key(name)
            &&& after.inflight == pool.inflight.remove(name)
            &&& pool.has(name) && page.tier == Tier::Vram && !pool.inflight.contains_key(name) && (
            exists|i: int|
                0 <= i < page.vram_chunks.len() && (#[trigger] page.vram_chunks[i]).gpu_ordinal
                    == pool.cluster.ordinals@[gpu]) ==> step is Finished && step->Finished_0 is Ok
        }),
{
    let after = pool.access(name, gpu, now).0;
    model::law_first_piece_is_found(pool.page(name).vram_chunks, pool.cluster.ordinals@[gpu]);
    assert(after.inflight =~= pool.inflight.remove(name));
}

/// `source` is where page `page` lies, and `bytes` is what lies there, as seen
/// from GPU `gpu` of the GPUs `ordinals`: a page on other devices only is taken
/// from that of its first piece, a page in host memory, or on no device yet, from the piece
/// of that GPU, and a page in storage from its place there.
pub open spec fn lies_at(
    page: PageView,
    ordinals: Seq<i32>,
    gpu: int,
    source: Source,
    bytes: usize,
) -> bool {
    match source {
        Source::Peer { gpu: from, ptr } => {
            &&& page.tier == Tier::Vram
            &&& from < ordinals.len()
            &&& ordinals[from as int] != ordinals[gpu]
            &&& forall|i: int|
                0 <= i < page.vram_chunks.len() ==> (#[trigger] page.vram_chunks[i]).gpu_ordinal
                    != ordinals[gpu]
            &&& page.vram_chunks.len() > 0
            &&& page.vram_chunks[0].gpu_ordinal == ordinals[from as int]
            &&& page.vram_chunks[0].device_ptr == ptr
            &&& page.vram_chunks[0].size_bytes == bytes
        },
        Source::Host { host_ptr } => {
            &&& page.tier == Tier::Dram || page.tier == Tier::Vram && page.vram_chunks.len() == 0
            &&& gpu < page.dram_chunks.len()
            &&& page.dram_chunks[gpu].host_ptr == host_ptr
            &&& page.dram_chunks[gpu].size_bytes == bytes
        },
        Source::Spill { offset } => {
            &&& page.tier == Tier::Ssd
            &&& page.ssd_offset == Some(offset)
            &&& page.size_bytes == bytes
        },
    }
}

/// An access takes the page from where it lies: what it asks for is a block of
/// the size of what lies there, and what it copies or streams begins there. An
/// access that waits for a promotion started ahead of need waits for that of
/// the page, to the GPU that asks.
pub proof fn law_access_takes_the_page_from_where_it_lies(
    pool: Pool,
    name: Seq<char>,
    gpu: int,
    now: u64,
    work: Work,
)
    requires
        pool.access(name, gpu, now).1 == Step::Pending(work),
        0 <= gpu,
    ensures
        match work {
            Work::AwaitPrefetch { ptr, size } => {
                &&& pool.inflight.contains_key(name)
                &&& pool.inflight[name].gpu_idx == gpu
                &&& pool.inflight[name].device_ptr == ptr
                &&& pool.inflight[name].size == size
            },
            Work::AllocateBlock { bytes, source } => pool.has(name) && lies_at(
                pool.page(name),
                pool.cluster.ordinals@,
                gpu,
                source,
                bytes,
            ),
            Work::Copy { source, bytes, .. } => pool.has(name) && lies_at(
                pool.page(name),
                pool.cluster.ordinals@,
                gpu,
                source,
                bytes,
            ),
            Work::Stream { offset, total, done, .. } => pool.has(name) && lies_at(
                pool.page(name),
                pool.cluster.ordinals@,
                gpu,
                Source::Spill { offset },
                total,
            ) && done == 0,
        },
{
    let page = pool.page(name);
    let ordinal = pool.cluster.ordinals@[gpu];
    assert(pool.cluster.ordinals@.len() == pool.cluster.ordinals.len());
    model::law_first_piece_is_found(page.vram_chunks, ordinal);
    let peer = model::first_elsewhere(page.vram_chunks, ordinal);
    if pool.has(name) && page.tier == Tier::Vram && peer < page.vram_chunks.len() {
        let from = page.vram_chunks[peer];
        gpu::law_position_is_the_last(pool.cluster.ordinals@, from.gpu_ordinal);
        assert(page.vram_chunks[peer].size_bytes == from.size_bytes);
    }
}

/// Once the block that an access asked for is there, the access goes on with
/// what it asked it for: it copies or streams from the same place to that block.
pub proof fn law_access_goes_on_from_the_same_place(
    pool: Pool,
    name: Seq<char>,
    gpu: int,
    now: u64,
    bytes: usize,
    source: Source,
    block: u64,
)
    ensures
        ({
            let work = Work::AllocateBlock { bytes, source };
            match pool.resume_access(name, gpu, now, work, Ok(block)).1 {
                Step::Pending(next) => match source {
                    Source::Spill { offset } => {
                        &&& next is Stream
                        &&& next->Stream_offset == offset
                        &&& next->Stream_dst == block
                        &&& next->total == bytes
                        &&& next->done == 0
                    },
                    _ => next == (Work::Copy { source, dst: block, bytes }),
                },
                Step::Finished(r) => r is Err && source !is Peer,
            }
        }),
{
}

/// A descriptor of a copy of `bytes` bytes from host memory to a device block of
/// GPU `gpu`, for a page that is needed now.
pub open spec fn promotes(
    d: Descriptor,
    gpu: int,
    host_ptr: usize,
    dst: u64,
    bytes: usize,
) -> bool {
    &&& d.src_addr == host_ptr as u64
    &&& d.dst_addr == dst
    &&& d.size == bytes as u32
    &&& d.src_ordinal == gpu as usize as u32
    &&& d.dst_ordinal == gpu as usize as u32
    &&& d.priority == 2
    &&& d.flags == 0
}

/// `after` are the command rings `before` with one descriptor more, in the next
/// slot of the ring of GPU `gpu`, for that work, where it is a copy from host
/// memory. For any other work they are the same.
pub open spec fn tells_the_ring(before: Pool, after: Pool, gpu: int, step: Step) -> bool {
    match step {
        Step::Pending(Work::Copy { source: Source::Host { host_ptr }, dst, bytes }) => {
            let was = before.rings[gpu];
            let is = after.rings[gpu];
            &&& after.rings.len() == before.rings.len()
            &&& was.submitted - was.consumer < 1024
            &&& was.submitted < u32::MAX ==> is.submitted == was.submitted + 1
            &&& is.consumer == was.consumer
            &&& is.completed == was.completed
            &&& promotes(
                is.slots[was.submitted as int % 1024],
                gpu,
                host_ptr,
                dst,
                bytes,
            )
            &&& forall|k: int|
                0 <= k < was.slots.len() && k != was.submitted as int % 1024
                    ==> #[trigger] is.slots[k] == was.slots[k]
            &&& forall|g: int|
                0 <= g < before.rings.len() && g != gpu ==> #[trigger] after.rings[g]
                    == before.rings[g]
        },
        _ => after.rings == before.rings,
    }
}

/// A copy from host memory is told to the command ring of the GPU it goes to, as
/// one that is needed now, with the addresses and the size of the copy. No other
/// work of an access is told to any ring.
pub proof fn law_copies_from_host_memory_are_told_to_the_ring(
    pool: Pool,
    name: Seq<char>,
    gpu: int,
    now: u64,
    work: Work,
    event: Result<u64, Failure>,
)
    requires
        0 <= gpu < pool.rings.len(),
        pool.rings[gpu].wf(),
    ensures
        tells_the_ring(
            pool,
            pool.access(name, gpu, now).0,
            gpu,
            pool.access(name, gpu, now).1,
        ),
        tells_the_ring(
            pool,
            pool.resume_access(name, gpu, now, work, event).0,
            gpu,
            pool.resume_access(name, gpu, now, work, event).1,
        ),
{
    assert(0 <= pool.rings[gpu].submitted as int % 1024 < 1024);
}

/// An access fails for one of a few reasons, and says which it was.
pub open spec fn access_reason(pool: Pool, name: Seq<char>, gpu: int, e: Failure) -> bool {
    let page = pool.page(name);
    let peers = page.vram_chunks;
    let from_host = page.tier == Tier::Dram || page.tier == Tier::Vram && peers.len() == 0;
    ||| !pool.has(name) && e == Failure::UnknownAllocation(name)
    ||| pool.has(name) && from_host && gpu >= page.dram_chunks.len() && e
        == Failure::UnknownAllocation(name)
    ||| pool.has(name) && from_host && e == Failure::DmaRingFull && pool.rings[gpu].submitted
        - pool.rings[gpu].consumer >= 1024
    ||| pool.has(name) && page.tier == Tier::Vram && exists|i: int|
        0 <= i < peers.len() && !pool.cluster.ordinals@.contains(
            (#[trigger] peers[i]).gpu_ordinal,
        ) && e == Failure::InvalidGpu(peers[i].gpu_ordinal as usize)
    ||| pool.has(name) && page.tier == Tier::Ssd && (page.ssd_offset is None || pool.spill is None)
        && e is UnknownAllocation
    ||| pool.has(name) && page.tier == Tier::Ssd && !(gpu < page.dram_chunks.len()
        && page.dram_chunks[gpu].size_bytes >= page.size_bytes) && exists|size: int|
        0 <= size <= page.size_bytes && size <= 1024 * 1024 && #[trigger] pool.dram[gpu].answer(
            size,
        ) is Err && e == pool.dram[gpu].answer(size)->Err_0@
}

/// An access does not fail but for one of those reasons.
pub proof fn law_access_fails_for_a_reason(
    pool: Pool,
    name: Seq<char>,
    gpu: int,
    now: u64,
    e: Failure,
)
    requires
        0 <= gpu < pool.rings.len(),
        pool.access(name, gpu, now).1 == Step::Finished(Err(e)),
    ensures
        access_reason(pool, name, gpu, e),
{
    let page = pool.page(name);
    let ordinal = pool.cluster.ordinals@[gpu];
    assert(pool.cluster.ordinals@.len() == pool.cluster.ordinals.len());
    model::law_first_piece_is_found(page.vram_chunks, ordinal);
    let peer = model::first_elsewhere(page.vram_chunks, ordinal);
    if pool.has(name) && page.tier == Tier::Vram && peer < page.vram_chunks.len() {
        gpu::law_position_is_the_last(
            pool.cluster.ordinals@,
            page.vram_chunks[peer].gpu_ordinal,
        );
    }
    law_staging_is_halved_as_often_as_it_must(pool.dram[gpu], page.size_bytes as int);
}

/// Work that fails ends the access with that failure. So does work that the
/// access asked for in vain: nothing is written down of it.
pub proof fn law_failed_work_ends_the_access(
    pool: Pool,
    name: Seq<char>,
    gpu: int,
    now: u64,
    work: Work,
    e: Failure,
)
    ensures
        pool.resume_access(name, gpu, now, work, Err(e)).1 == Step::Finished(Err(e)),
        pool.resume_access(name, gpu, now, work, Err(e)).0.table == pool.table,
        pool.resume_access(name, gpu, now, work, Err(e)).0.rings == pool.rings,
        work !is Stream ==> pool.resume_access(name, gpu, now, work, Err(e)).0 == pool,
{
}

/// A request for a staging buffer comes down to what the host pool can hold, or
/// to no more than the least size that is worth its overhead. It is halved only
/// where it was above that size and the pool refused it.
pub proof fn law_staging_is_halved_as_often_as_it_must(d: Dram, want: int)
    requires
        want >= 0,
    ensures
        ({
            let size = access::staging_size(d, want);
            &&& 0 <= size <= want
            &&& d.answer(size) is Ok || size <= 1024 * 1024
            &&& d.answer(want) is Ok || want <= 1024 * 1024 ==> size == want
            &&& size < want ==> exists|twice: int|
                1024 * 1024 < twice <= want && twice / 2 == size && #[trigger] d.answer(
                    twice,
                ) is Err
        }),
    decreases want,
{
    if !(d.answer(want) is Ok || want <= access::LEAST_STAGING) {
        law_staging_is_halved_as_often_as_it_must(d, want / 2);
        assert(d.answer(want) is Err);
    }
}

/// A page is staged in its own host memory where that can hold all of it, and
/// else in memory that is borrowed from the host pool of the GPU. No piece is
/// larger than the buffer or than what is left of the page, and each is as large
/// as these allow.
pub proof fn law_staging_is_used_as_far_as_it_goes(
    pool: Pool,
    name: Seq<char>,
    gpu: int,
    dst: u64,
    total: usize,
    offset: u64,
    now: u64,
    block: u64,
    work: Work,
)
    requires
        0 <= gpu,
        pool.start_stream(name, gpu, dst, total, offset).1 == Step::Pending(work),
    ensures
        work is Stream,
        ({
            let own = pool.page(name).dram_chunks;
            let whole = gpu < own.len() && own[gpu].size_bytes >= total;
            let size = work->stage_len;
            let piece = work->Stream_bytes;
            &&& whole ==> !work->borrowed && work->stage_ptr == own[gpu].host_ptr && size == total
            &&& !whole ==> work->borrowed && size <= total && pool.dram[gpu].answer(
                size as int,
            ) == Ok::<usize, VugvaError>(work->stage_ptr)
            &&& piece <= size && piece <= total && (piece == size || piece == total)
            &&& match pool.resume_access(name, gpu, now, work, Ok(block)).1 {
                Step::Pending(next) => {
                    &&& piece < total
                    &&& next->stage_ptr == work->stage_ptr
                    &&& next->stage_len == size
                    &&& next->borrowed == work->borrowed
                    &&& next->Stream_offset == offset
                    &&& next->Stream_dst == dst
                    &&& next->total == total
                    &&& next->done == piece
                    &&& next->Stream_bytes <= size
                    &&& next->Stream_bytes <= total - piece
                    &&& next->Stream_bytes == size || next->Stream_bytes == total - piece
                },
                Step::Finished(r) => piece == total && r == Ok::<u64, Failure>(dst),
            }
        }),
{
    access::lemma_staging_size(pool.dram[gpu], total as int);
}

/// An access fills a block of exactly the size it needs. It uses one again that
/// is on the list of the GPU that asks, and takes it off that list. Only where
/// there is none of that size it asks the driver for one.
pub proof fn law_access_uses_blocks_again(
    pool: Pool,
    name: Seq<char>,
    gpu: int,
    now: u64,
    work: Work,
)
    requires
        0 <= gpu < pool.vram_free.len(),
        !pool.inflight.contains_key(name),
        pool.access(name, gpu, now).1 == Step::Pending(work),
    ensures
        ({
            let after = pool.access(name, gpu, now).0;
            let before_list = pool.vram_free[gpu];
            let list = after.vram_free[gpu];
            &&& after.vram_free.len() == pool.vram_free.len()
            &&& forall|g: int|
                0 <= g < pool.vram_free.len() && g != gpu ==> #[trigger] after.vram_free[g]
                    == pool.vram_free[g]
            &&& match work {
                Work::AwaitPrefetch { .. } => false,
                Work::AllocateBlock { bytes, .. } => list == before_list && forall|i: int|
                    0 <= i < before_list.len() ==> (#[trigger] before_list[i]).0 != bytes,
                Work::Copy { dst, bytes, .. } => before_list.to_multiset()
                    == list.to_multiset().insert((bytes, dst)),
                Work::Stream { dst, total, .. } => before_list.to_multiset()
                    == list.to_multiset().insert((total, dst)),
            }
        }),
{
    let counted = pool.counted(name);
    let page = pool.page(name);
    let ordinal = pool.cluster.ordinals@[gpu];
    let peer = model::first_elsewhere(page.vram_chunks, ordinal);
    let bytes = match work {
        Work::AwaitPrefetch { size, .. } => size,
        Work::AllocateBlock { bytes, .. } => bytes,
        Work::Copy { bytes, .. } => bytes,
        Work::Stream { total, .. } => total,
    };
    model::law_used_block_leaves_its_list(counted, gpu, bytes);
}

/// A page that was streamed to its end leaves the host pools as they were before
/// the stream: a staging buffer that was borrowed is given back.
pub proof fn law_streamed_page_gives_its_staging_back(
    pool: Pool,
    name: Seq<char>,
    gpu: int,
    dst: u64,
    total: usize,
    offset: u64,
    now: u64,
    block: u64,
    work: Work,
    done: usize,
)
    requires
        pool.wf(),
        0 <= gpu < pool.dram.len(),
        pool.start_stream(name, gpu, dst, total, offset).1 == Step::Pending(work),
        done <= total,
    ensures
        ({
            let begun = pool.start_stream(name, gpu, dst, total, offset).0;
            let last = Work::Stream {
                offset,
                stage_ptr: work->stage_ptr,
                stage_len: work->stage_len,
                borrowed: work->borrowed,
                dst,
                total,
                done,
                bytes: (total - done) as usize,
            };
            let after = begun.resume_access(name, gpu, now, last, Ok(block)).0;
            &&& after.dram == pool.dram
            &&& after.vram_free == pool.vram_free
            &&& after.spill == pool.spill
        }),
{
    access::lemma_staging_size(pool.dram[gpu], total as int);
    if !pool.stages_itself(name, gpu, total) {
        let d = pool.dram[gpu];
        let want = access::staging_size(d, total as int);
        if let Ok(ptr) = d.answer(want) {
            dram::law_give_back_undoes_grant(d, want, ptr);
            assert(pool.dram.update(gpu, d.grant(want)).update(gpu, d) =~= pool.dram);
        }
    }
}

} // verus!
