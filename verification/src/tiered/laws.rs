//! What holds of a three-tier pool as a whole.

use crate::error::Failure;
use crate::gpu;
use crate::membrane;
use crate::ranges;
use crate::spill;
use crate::tiered::access::{self, Step, Work};
use crate::tiered::demote::Retreat;
use crate::tiered::dram::{self, Dram};
use crate::tiered::model::{self, Inflight, Pool};
use crate::tiered::prefetch::CopyStart;
use crate::tiered::fill;
use crate::vmt::{self, Chunk, PageState, Table, Tier};
use vstd::prelude::*;

verus! {

/// The host pools lie apart from each other.
pub open spec fn apart(dram: Seq<Dram>) -> bool {
    forall|i: int, j: int|
        #![trigger dram[i], dram[j]]
        0 <= i < dram.len() && 0 <= j < dram.len() && i != j ==> dram[i].base_ptr
            + dram[i].ranges.capacity <= dram[j].base_ptr || dram[j].base_ptr
            + dram[j].ranges.capacity <= dram[i].base_ptr
}

/// Taking back nothing changes nothing.
proof fn lemma_nothing_given_back(d: Dram, ptr: usize)
    requires
        d.wf(),
    ensures
        d.give_back(ptr, 0) == d,
{
    assert(ranges::aligned(0) == 0);
    ranges::lemma_give_back(d.ranges, ptr - d.base_ptr, 0);
}

pub(crate) proof fn lemma_granted_piece(d: Seq<Dram>, total: int, k: int, i: int)
    requires
        0 <= i < k <= model::first_refusal(d, total, 0),
        k <= d.len(),
    ensures
        d[i].answer(model::share(total, d.len() as int, i)) is Ok,
{
    lemma_granted_piece_from(d, total, 0, i);
}

proof fn lemma_granted_piece_from(d: Seq<Dram>, total: int, from: int, i: int)
    requires
        0 <= from <= i < model::first_refusal(d, total, from),
        i < d.len(),
    ensures
        d[i].answer(model::share(total, d.len() as int, i)) is Ok,
    decreases i - from,
{
    if from < i {
        lemma_granted_piece_from(d, total, from + 1, i);
    }
}

/// Pool `m` after it was offered the first `j` of the pieces that were handed
/// out: only its own piece changes it.
proof fn lemma_taken_back(d: Seq<Dram>, total: int, k: int, m: int, j: int)
    requires
        apart(d),
        total >= 0,
        d.len() > 0,
        forall|i: int| 0 <= i < d.len() ==> (#[trigger] d[i]).wf(),
        0 <= k <= d.len(),
        k <= model::first_refusal(d, total, 0),
        0 <= m < d.len(),
        0 <= j <= k,
        model::shares_fit(total, d.len() as int),
    ensures
        model::taken_back(
            model::shared_out(d, total, k)[m],
            model::host_pieces(d, total, k).take(j),
        ) == if j <= m {
            model::shared_out(d, total, k)[m]
        } else {
            d[m]
        },
    decreases j,
{
    let n = d.len() as int;
    let pieces = model::host_pieces(d, total, k);
    let start = model::shared_out(d, total, k)[m];
    if j > 0 {
        lemma_taken_back(d, total, k, m, j - 1);
        assert(pieces.take(j).drop_last() =~= pieces.take(j - 1));
        let i = j - 1;
        let bytes = model::share(total, n, i);
        model::lemma_share_bounds(total, n, i);
        lemma_granted_piece(d, total, k, i);
        let ptr = d[i].answer(bytes)->Ok_0;
        assert(pieces.take(j).last() == model::host_piece(d, total, i));
        assert(pieces.take(j).last().size_bytes == bytes);
        if i == m {
            dram::law_give_back_undoes_grant(d[m], bytes, ptr);
        } else {
            let now = model::taken_back(start, pieces.take(j - 1));
            if bytes == 0 {
                if m < k {
                    let own = model::share(total, n, m);
                    model::lemma_share_bounds(total, n, m);
                    lemma_granted_piece(d, total, k, m);
                    dram::law_answers_are_free_memory(d[m], own, d[m].answer(own)->Ok_0);
                }
                lemma_nothing_given_back(now, ptr);
            } else {
                dram::law_answers_are_free_memory(d[i], bytes, ptr);
                if m < k {
                    let own = model::share(total, n, m);
                    model::lemma_share_bounds(total, n, m);
                    lemma_granted_piece(d, total, k, m);
                    ranges::lemma_answer_is_allocated(d[m].ranges, own);
                    ranges::lemma_allocated(
                        d[m].ranges,
                        own,
                        d[m].ranges.answer(own)->Ok_0,
                        d[m].ranges.grant(own),
                    );
                }
                assert(now.base_ptr == d[m].base_ptr);
                assert(now.ranges.capacity == d[m].ranges.capacity);
                assert(!now.owns(ptr));
            }
        }
    } else {
        assert(pieces.take(0) =~= seq![]);
    }
}

/// Dropping a page that was just allocated, in whatever tier, restores the pool,
/// so that capacity bounds what is live at a time and not what is allocated over a
/// lifetime. A number that was used up for a name stays used up, and what was
/// known of an earlier page of that name is gone with it.
pub proof fn law_deallocate_undoes_allocate(
    pool: Pool,
    name: Seq<char>,
    shape: Seq<usize>,
    element_size: usize,
    tier: Tier,
    given: Seq<char>,
)
    requires
        pool.wf(),
        apart(pool.dram),
        vmt::sizable(shape, element_size),
        tier != Tier::Ssd ==> pool.dram.len() > 0 && model::shares_fit(
            vmt::tensor_bytes(shape, element_size),
            pool.dram.len() as int,
        ),
        pool.allocate(name, shape, element_size, tier).1 == Ok::<Seq<char>, Failure>(given),
    ensures
        pool.allocate(name, shape, element_size, tier).0.released(given) == (Pool {
            table: Table {
                pages: pool.table.pages.remove(given),
                next_id: pool.registered(name, shape, element_size).1.table.next_id,
            },
            rates: pool.rates.without(given),
            ..pool.recalled(given)
        }),
        !pool.has(given) ==> pool.table.pages.remove(given) == pool.table.pages,
{
    let id = pool.registered(name, shape, element_size).0;
    let total = vmt::tensor_bytes(shape, element_size);
    vmt::lemma_tensor_bytes_nonnegative(shape, element_size);
    let after = pool.allocate(name, shape, element_size, tier).0;
    let n = pool.dram.len() as int;
    assert(id == given);
    let page = after.page(given);
    let back = after.released(given);
    assert(page.vram_chunks =~= seq![]);
    if tier == Tier::Ssd {
        spill::law_failed_write_strands_nothing(pool.spill->0, total, page.ssd_offset->0);
    } else {
        let k = model::first_refusal(pool.dram, total, 0);
        model::lemma_first_refusal(pool.dram, total, 0);
        assert(k == n);
        assert(page.dram_chunks == model::host_pieces(pool.dram, total, k));
        assert forall|m: int| 0 <= m < n implies #[trigger] back.dram[m] == pool.dram[m] by {
            lemma_taken_back(pool.dram, total, k, m, k);
            assert(page.dram_chunks.take(k) =~= page.dram_chunks);
        }
    }
    assert(back.dram =~= pool.dram);
    assert(back.table.pages =~= pool.table.pages.remove(given));
    if !pool.has(given) {
        assert(pool.table.pages.remove(given) =~= pool.table.pages);
    }
}

/// A page that is dropped is gone, and so is what was known of its use and a
/// promotion under way for it, which no later page of that name can claim. Every
/// other page is as it was.
pub proof fn law_dropped_page_is_forgotten(pool: Pool, name: Seq<char>, other: Seq<char>)
    requires
        other != name,
    ensures
        !pool.released(name).has(name),
        !pool.released(name).rates.known(name),
        !pool.released(name).inflight.contains_key(name),
        pool.released(name).inflight.contains_key(other) == pool.inflight.contains_key(other),
        pool.inflight.contains_key(other) ==> pool.released(name).inflight[other]
            == pool.inflight[other],
        pool.released(name).has(other) == pool.has(other),
        pool.released(name).page(other) == pool.page(other),
        pool.released(name).rates.rate_of(other) == pool.rates.rate_of(other),
        pool.released(name).rates.hits_of(other) == pool.rates.hits_of(other),
{
    membrane::law_forget_drops_history(pool.rates, name, other);
    let quiet = pool.recalled(name);
    model::lemma_with_blocks_keeps_rest(quiet, quiet, pool.page(name).vram_chunks);
}

pub(crate) proof fn lemma_room_of_pieces(d: Seq<Dram>, total: int, k: int)
    requires
        0 <= k <= d.len(),
        total >= 0,
        total <= usize::MAX,
    ensures
        fill::room(model::host_pieces(d, total, k)) == model::shares_up_to(
            total,
            d.len() as int,
            k,
        ),
    decreases k,
{
    if k > 0 {
        lemma_room_of_pieces(d, total, k - 1);
        let p = model::host_pieces(d, total, k);
        assert(p.drop_last() =~= model::host_pieces(d, total, k - 1));
        model::lemma_share_bounds(total, d.len() as int, k - 1);
        assert(p.last().size_bytes == model::share(total, d.len() as int, k - 1));
    }
}

/// A page that was allocated in host memory has room there for all of its bytes
/// and not for more: it can be filled whole.
pub proof fn law_allocated_page_can_be_filled(
    pool: Pool,
    name: Seq<char>,
    shape: Seq<usize>,
    element_size: usize,
    tier: Tier,
    given: Seq<char>,
)
    requires
        tier != Tier::Ssd,
        pool.dram.len() > 0,
        vmt::sizable(shape, element_size),
        pool.allocate(name, shape, element_size, tier).1 == Ok::<Seq<char>, Failure>(given),
    ensures
        ({
            let page = pool.allocate(name, shape, element_size, tier).0.page(given);
            &&& page.dram_chunks.len() == pool.dram.len()
            &&& fill::room(page.dram_chunks) == page.size_bytes
            &&& fill::covered(page.dram_chunks, page.size_bytes as int) == page.size_bytes
        }),
{
    let total = vmt::tensor_bytes(shape, element_size);
    vmt::lemma_tensor_bytes_nonnegative(shape, element_size);
    let n = pool.dram.len() as int;
    model::lemma_first_refusal(pool.dram, total, 0);
    lemma_room_of_pieces(pool.dram, total, n);
    model::law_shares_add_up(total, n);
    let page = pool.allocate(name, shape, element_size, tier).0.page(given);
    fill::law_runs_cover_the_page(page.dram_chunks, page.size_bytes as int);
}

/// The host memory that a page gets was not handed out before.
pub proof fn law_allocated_memory_was_free(pool: Pool, total: int, i: int, x: int)
    requires
        pool.wf(),
        total >= 0,
        0 <= i < model::first_refusal(pool.dram, total, 0),
        i < pool.dram.len(),
        model::host_piece(pool.dram, total, i).host_ptr <= x < model::host_piece(
            pool.dram,
            total,
            i,
        ).host_ptr + model::share(total, pool.dram.len() as int, i),
    ensures
        !pool.dram[i].live(x),
        model::shared_out(
            pool.dram,
            total,
            model::first_refusal(pool.dram, total, 0),
        )[i].live(x),
{
    let n = pool.dram.len() as int;
    model::lemma_share_bounds(total, n, i);
    model::lemma_first_refusal(pool.dram, total, 0);
    lemma_granted_piece(pool.dram, total, model::first_refusal(pool.dram, total, 0), i);
    let bytes = model::share(total, n, i);
    let k = model::first_refusal(pool.dram, total, 0);
    assert(model::shared_out(pool.dram, total, k)[i] == pool.dram[i].grant(bytes));
    dram::law_answers_are_free_memory(pool.dram[i], bytes, pool.dram[i].answer(bytes)->Ok_0);
    assert(!pool.dram[i].live(x));
}

/// An access that fails changes no page.
pub proof fn law_failed_access_changes_no_page(
    pool: Pool,
    name: Seq<char>,
    gpu: int,
    now: u64,
    work: Work,
    event: Result<u64, Failure>,
    e: Failure,
)
    ensures
        pool.access(name, gpu, now).1 == Step::Finished(Err(e)) ==> pool.access(
            name,
            gpu,
            now,
        ).0.table == pool.table,
        pool.resume_access(name, gpu, now, work, event).1 == Step::Finished(Err(e))
            ==> pool.resume_access(name, gpu, now, work, event).0.table == pool.table,
{
}

/// A promotion from the cold tier that fails strands nothing: host memory is as
/// it was before, and the device block can be used again.
pub proof fn law_failed_stream_strands_nothing(
    pool: Pool,
    name: Seq<char>,
    gpu: int,
    dst: u64,
    total: usize,
    offset: u64,
    now: u64,
    e: Failure,
)
    requires
        pool.wf(),
        0 <= gpu < pool.dram.len(),
    ensures
        ({
            let (begun, step) = pool.start_stream(name, gpu, dst, total, offset);
            match step {
                Step::Pending(work) => begun.resume_access(name, gpu, now, work, Err(e)) == (
                    pool.with_block(gpu, dst, total),
                    Step::Finished(Err(e)),
                ),
                Step::Finished(r) => r is Err && begun == pool.with_block(gpu, dst, total),
            }
        }),
{
    if !pool.stages_itself(name, gpu, total) {
        let d = pool.dram[gpu];
        let want = access::staging_size(d, total as int);
        access::lemma_staging_size(d, total as int);
        if let Ok(ptr) = d.answer(want) {
            dram::law_give_back_undoes_grant(d, want, ptr);
            assert(pool.dram.update(gpu, d.grant(want)).update(gpu, d) =~= pool.dram);
        }
    }
}

/// The pieces of a page that is streamed follow each other without a gap, none
/// of them is empty, and they end where the page ends.
pub proof fn law_stream_goes_on_to_the_end(
    pool: Pool,
    name: Seq<char>,
    gpu: int,
    now: u64,
    work: Work,
    any: u64,
)
    requires
        work is Stream,
        pool.fits(name, gpu, work),
        work->total > 0,
        work->done < work->total,
    ensures
        work->Stream_bytes > 0,
        ({
            let (after, step) = pool.resume_access(name, gpu, now, work, Ok(any));
            let done = work->done + work->Stream_bytes;
            match step {
                Step::Pending(next) => {
                    &&& next is Stream
                    &&& next->done == done < work->total
                    &&& next->Stream_bytes > 0
                    &&& after.fits(name, gpu, next)
                },
                Step::Finished(r) => done == work->total && r == Ok::<u64, Failure>(
                    work->Stream_dst,
                ),
            }
        }),
{
}

/// A page that has come to a device is found there by the next access from it,
/// with nothing left to do.
pub proof fn law_promoted_page_is_resident(
    pool: Pool,
    name: Seq<char>,
    gpu: int,
    dst: u64,
    bytes: usize,
    earlier: u64,
    now: u64,
)
    requires
        pool.accessible(name),
        !pool.inflight.contains_key(name),
        0 <= gpu < pool.cluster.ordinals@.len(),
        forall|i: int|
            0 <= i < pool.page(name).vram_chunks.len() ==> (
            #[trigger] pool.page(name).vram_chunks[i]).gpu_ordinal
                != pool.cluster.ordinals@[gpu],
    ensures
        pool.arrived(name, gpu, dst, bytes, earlier).access(name, gpu, now).1 == Step::Finished(
            Ok(dst),
        ),
{
    let after = pool.arrived(name, gpu, dst, bytes, earlier);
    let chunks = after.page(name).vram_chunks;
    let old_chunks = pool.page(name).vram_chunks;
    assert forall|i: int| 0 <= i < chunks.len() - 1 implies (#[trigger] chunks[i]).gpu_ordinal
        != pool.cluster.ordinals@[gpu] by {
        assert(chunks[i] == old_chunks[i]);
    }
    lemma_first_on(chunks, pool.cluster.ordinals@[gpu], chunks.len() - 1);
}

proof fn lemma_first_on(chunks: Seq<Chunk>, ordinal: i32, k: int)
    requires
        0 <= k < chunks.len(),
        chunks[k].gpu_ordinal == ordinal,
        forall|i: int| 0 <= i < k ==> (#[trigger] chunks[i]).gpu_ordinal != ordinal,
    ensures
        model::first_on(chunks, ordinal) == k,
    decreases k,
{
    if k > 0 {
        assert(chunks[0].gpu_ordinal != ordinal);
        let t = chunks.skip(1);
        assert forall|i: int| 0 <= i < k - 1 implies (#[trigger] t[i]).gpu_ordinal != ordinal by {
            assert(t[i] == chunks[i + 1]);
        }
        lemma_first_on(t, ordinal, k - 1);
    }
}

/// A promotion that was started ahead of need is claimed by the next access from
/// its GPU, which returns the block once it has landed. An access from another
/// GPU does not get that block: it can be used again.
pub proof fn law_prefetch_is_claimed(
    pool: Pool,
    name: Seq<char>,
    gpu: usize,
    dst: u64,
    bytes: usize,
    other: int,
    now: u64,
    any: u64,
)
    requires
        other != gpu,
    ensures
        ({
            let begun = pool.prefetched(name, gpu, dst, bytes, CopyStart::Started);
            let (claimed, step) = begun.access(name, gpu as int, now);
            let work = Work::AwaitPrefetch { ptr: dst, size: bytes };
            &&& step == Step::Pending(work)
            &&& !claimed.inflight.contains_key(name)
            &&& claimed.resume_access(name, gpu as int, now, work, Ok(any)).1 == Step::Finished(
                Ok(dst),
            )
            &&& begun.access(name, other, now) == Pool {
                inflight: pool.inflight.remove(name),
                ..pool.counted(name)
            }.with_block(gpu as int, dst, bytes).locate(name, other, now)
        }),
{
    assert(pool.inflight.insert(
        name,
        Inflight { gpu_idx: gpu, device_ptr: dst, size: bytes },
    ).remove(name) =~= pool.inflight.remove(name));
}

/// A pinned page is not demoted, and a sweep does not find it idle.
pub proof fn law_pinned_page_stays(pool: Pool, name: Seq<char>, now: u64)
    requires
        pool.has(name),
        pool.page(name).pinned,
    ensures
        pool.demote(name) == (pool, Retreat::Finished(Ok(()))),
        !pool.is_stale(name, now),
{
}

/// A page that was allocated is in the tier that was asked for, in the state
/// that goes with it, and every other page is as it was. A page in host memory
/// has a piece in every pool, on the node of that pool and inside it, and all
/// are of one size but the last. A page in storage has a place inside the file.
pub proof fn law_allocated_page_is_in_its_tier(
    pool: Pool,
    name: Seq<char>,
    shape: Seq<usize>,
    element_size: usize,
    tier: Tier,
    given: Seq<char>,
    other: Seq<char>,
    i: int,
)
    requires
        pool.wf(),
        vmt::sizable(shape, element_size),
        pool.allocate(name, shape, element_size, tier).1 == Ok::<Seq<char>, Failure>(given),
        other != given,
        0 <= i < pool.dram.len(),
    ensures
        ({
            let after = pool.allocate(name, shape, element_size, tier).0;
            let page = after.page(given);
            let piece = page.dram_chunks[i];
            let last = page.dram_chunks[pool.dram.len() - 1];
            &&& after.has(given)
            &&& name.len() > 0 ==> given == name && after.table.next_id == pool.table.next_id
            &&& name.len() == 0 && pool.table.next_id < u64::MAX ==> {
                &&& given == vmt::generated_name(after.table.next_id)
                &&& after.table.next_id == pool.table.next_id + 1
            }
            &&& page.name == given
            &&& page.shape == shape
            &&& page.element_size == element_size
            &&& page.size_bytes == vmt::elements(shape) * element_size
            &&& page.tier == tier
            &&& page.vram_chunks.len() == 0
            &&& page.access_count == 0
            &&& !page.pinned
            &&& tier == Tier::Vram ==> page.state == PageState::Resident
            &&& tier == Tier::Dram ==> page.state == PageState::Warm
            &&& tier == Tier::Ssd ==> {
                &&& page.state == PageState::Cold
                &&& page.dram_chunks.len() == 0
                &&& page.ssd_offset is Some
                &&& pool.spill is Some
                &&& page.ssd_offset->0 + page.size_bytes <= pool.spill->0.capacity
                &&& after.dram == pool.dram
            }
            &&& tier != Tier::Ssd ==> {
                &&& page.ssd_offset is None
                &&& page.dram_chunks.len() == pool.dram.len()
                &&& piece.numa_node == pool.dram[i].numa_node
                &&& pool.dram[i].base_ptr <= piece.host_ptr
                &&& piece.host_ptr + piece.size_bytes <= pool.dram[i].base_ptr
                    + pool.dram[i].ranges.capacity
                &&& !piece.cuda_registered
                &&& i < pool.dram.len() - 1 ==> piece.size_bytes == page.dram_chunks[0].size_bytes
                &&& 0 <= last.size_bytes - piece.size_bytes < pool.dram.len()
                &&& after.spill == pool.spill
            }
            &&& after.has(other) == pool.has(other)
            &&& after.page(other) == pool.page(other)
            &&& after.vram_free == pool.vram_free
            &&& after.rings == pool.rings
            &&& after.inflight == pool.inflight
            &&& after.rates == pool.rates
        }),
{
    let total = vmt::tensor_bytes(shape, element_size);
    vmt::lemma_tensor_bytes_nonnegative(shape, element_size);
    let n = pool.dram.len() as int;
    if tier == Tier::Ssd {
        let space = pool.spill->0;
        let off = space.answer(total)->Ok_0;
        assert(off as u64 == off);
        ranges::lemma_answer_is_allocated(space, total);
        ranges::lemma_allocated(space, total, off, space.grant(total));
        assert(ranges::aligned(total) >= total);
    } else {
        model::lemma_first_refusal(pool.dram, total, 0);
        lemma_granted_piece(pool.dram, total, n, i);
        model::law_shares_are_even(total, n, i);
        model::law_shares_are_even(total, n, 0);
        model::law_shares_are_even(total, n, n - 1);
        let bytes = model::share(total, n, i);
        let ptr = pool.dram[i].answer(bytes)->Ok_0;
        dram::law_answers_are_free_memory(pool.dram[i], bytes, ptr);
    }
}

/// An allocation is refused only where memory is: in host memory by a pool that
/// cannot hold its share, in storage where there is none or no room in it. What
/// is told is the answer of the first that refused.
pub proof fn law_allocation_fails_for_a_reason(
    pool: Pool,
    name: Seq<char>,
    shape: Seq<usize>,
    element_size: usize,
    tier: Tier,
    e: Failure,
)
    requires
        vmt::sizable(shape, element_size),
        pool.allocate(name, shape, element_size, tier).1 == Err::<Seq<char>, Failure>(e),
    ensures
        ({
            let total = vmt::elements(shape) * element_size;
            let n = pool.dram.len() as int;
            &&& tier == Tier::Ssd ==> pool.spill is None && e is UnknownAllocation || pool.spill
                is Some && pool.spill->0.answer(total) is Err && e == pool.spill->0.answer(
                total,
            )->Err_0@
            &&& tier != Tier::Ssd ==> exists|i: int|
                {
                    &&& 0 <= i < n
                    &&& #[trigger] pool.dram[i].answer(model::share(total, n, i)) is Err
                    &&& e == pool.dram[i].answer(model::share(total, n, i))->Err_0@
                    &&& forall|j: int|
                        0 <= j < i ==> #[trigger] pool.dram[j].answer(
                            model::share(total, n, j),
                        ) is Ok
                }
        }),
{
    let total = vmt::tensor_bytes(shape, element_size);
    if tier != Tier::Ssd {
        let n = pool.dram.len() as int;
        let k = model::first_refusal(pool.dram, total, 0);
        lemma_refusal(pool.dram, total, 0);
        assert(pool.dram[k].answer(model::share(total, n, k)) is Err);
    }
}

proof fn lemma_refusal(d: Seq<Dram>, total: int, from: int)
    requires
        0 <= from <= d.len(),
    ensures
        ({
            let k = model::first_refusal(d, total, from);
            &&& from <= k <= d.len()
            &&& k < d.len() ==> d[k].answer(model::share(total, d.len() as int, k)) is Err
            &&& forall|j: int|
                from <= j < k ==> #[trigger] d[j].answer(
                    model::share(total, d.len() as int, j),
                ) is Ok
        }),
    decreases d.len() - from,
{
    if from < d.len() && d[from].answer(model::share(total, d.len() as int, from)) is Ok {
        lemma_refusal(d, total, from + 1);
    }
}

/// A page that is dropped gives its device blocks back: each can be used again
/// on the GPU that it is on, and so can one that a promotion is under way to.
/// Nothing else comes on any list, and nothing leaves one.
pub proof fn law_dropped_page_gives_its_blocks_back(pool: Pool, name: Seq<char>)
    requires
        pool.wf(),
    ensures
        ({
            let after = pool.released(name);
            let pieces = pool.page(name).vram_chunks;
            let f = pool.inflight[name];
            &&& after.vram_free.len() == pool.vram_free.len()
            &&& forall|i: int|
                0 <= i < pieces.len() && pieces[i].device_ptr != 0
                    && pool.cluster.ordinals@.contains((#[trigger] pieces[i]).gpu_ordinal)
                    ==> exists|g: int|
                    0 <= g < after.vram_free.len() && pool.cluster.ordinals@[g]
                        == pieces[i].gpu_ordinal && (#[trigger] after.vram_free[g]).contains(
                        (pieces[i].size_bytes, pieces[i].device_ptr),
                    )
            &&& pool.inflight.contains_key(name) && f.device_ptr != 0 && f.gpu_idx
                < pool.vram_free.len() ==> after.vram_free[f.gpu_idx as int].contains(
                (f.size, f.device_ptr),
            )
            &&& forall|g: int, b: (usize, u64)|
                0 <= g < after.vram_free.len() && #[trigger] after.vram_free[g].contains(b)
                    ==> pool.vram_free[g].contains(b) || (pool.inflight.contains_key(name)
                    && f.gpu_idx == g && b == (f.size, f.device_ptr)) || exists|i: int|
                    0 <= i < pieces.len() && (#[trigger] pieces[i]).gpu_ordinal
                        == pool.cluster.ordinals@[g] && b == (
                        pieces[i].size_bytes,
                        pieces[i].device_ptr,
                    )
            &&& forall|g: int|
                0 <= g < pool.vram_free.len() ==> pool.vram_free[g].is_prefix_of(
                    #[trigger] after.vram_free[g],
                )
        }),
{
    let quiet = pool.recalled(name);
    let pieces = pool.page(name).vram_chunks;
    let after = pool.released(name);
    model::law_blocks_of_pieces_join_their_lists(quiet, pieces);
    assert(after.vram_free == quiet.with_blocks(pieces).vram_free);
    if pool.inflight.contains_key(name) {
        let f = pool.inflight[name];
        let g = f.gpu_idx as int;
        if f.device_ptr != 0 && g < pool.vram_free.len() {
            let list = quiet.vram_free[g];
            assert(list == pool.vram_free[g].push((f.size, f.device_ptr)));
            assert(list.is_prefix_of(after.vram_free[g]));
            assert(list[pool.vram_free[g].len() as int] == (f.size, f.device_ptr));
            assert(after.vram_free[g][pool.vram_free[g].len() as int] == (f.size, f.device_ptr));
        }
        assert forall|h: int, b: (usize, u64)|
            0 <= h < quiet.vram_free.len() && #[trigger] quiet.vram_free[h].contains(
                b,
            ) implies pool.vram_free[h].contains(b) || (f.gpu_idx == h && b == (
            f.size,
            f.device_ptr,
        )) by {
            let k = choose|k: int| 0 <= k < quiet.vram_free[h].len() && quiet.vram_free[h][k] == b;
            if k < pool.vram_free[h].len() {
                assert(pool.vram_free[h][k] == b);
            }
        }
    }
    assert forall|g: int| 0 <= g < pool.vram_free.len() implies pool.vram_free[g].is_prefix_of(
        #[trigger] after.vram_free[g],
    ) by {
        assert(pool.vram_free[g].is_prefix_of(quiet.vram_free[g]));
        assert(quiet.vram_free[g].is_prefix_of(after.vram_free[g]));
    }
}

/// An allocation in host memory that is refused loses nothing: the pieces that
/// were handed out until then stay with the page, which has no state of its tier
/// yet, and dropping it restores the pool.
pub proof fn law_refused_allocation_loses_nothing(
    pool: Pool,
    name: Seq<char>,
    shape: Seq<usize>,
    element_size: usize,
    tier: Tier,
    e: Failure,
)
    requires
        pool.wf(),
        apart(pool.dram),
        vmt::sizable(shape, element_size),
        pool.dram.len() > 0,
        model::shares_fit(vmt::tensor_bytes(shape, element_size), pool.dram.len() as int),
        pool.allocate(name, shape, element_size, tier).1 == Err::<Seq<char>, Failure>(e),
    ensures
        ({
            let given = pool.registered(name, shape, element_size).0;
            let after = pool.allocate(name, shape, element_size, tier).0;
            &&& after.has(given)
            &&& after.page(given).state == PageState::Allocated
            &&& after.page(given).vram_chunks.len() == 0
            &&& after.page(given).ssd_offset is None
            &&& after.spill == pool.spill
            &&& after.released(given).dram == pool.dram
            &&& after.released(given).spill == pool.spill
            &&& after.released(given).vram_free == pool.recalled(given).vram_free
        }),
{
    let given = pool.registered(name, shape, element_size).0;
    let total = vmt::tensor_bytes(shape, element_size);
    vmt::lemma_tensor_bytes_nonnegative(shape, element_size);
    let after = pool.allocate(name, shape, element_size, tier).0;
    let n = pool.dram.len() as int;
    let page = after.page(given);
    let back = after.released(given);
    assert(page.vram_chunks =~= seq![]);
    if tier == Tier::Ssd {
        assert(page.dram_chunks =~= seq![]);
        assert(back.dram =~= pool.dram);
    } else {
        let k = model::first_refusal(pool.dram, total, 0);
        model::lemma_first_refusal(pool.dram, total, 0);
        assert forall|m: int| 0 <= m < n implies #[trigger] back.dram[m] == pool.dram[m] by {
            lemma_taken_back(pool.dram, total, k, m, k);
            assert(page.dram_chunks.take(k) =~= page.dram_chunks);
        }
        assert(back.dram =~= pool.dram);
    }
}

} // verus!
