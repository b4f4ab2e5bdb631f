//! No device block is in two hands: a block is on the list of those that can be
//! used again, or it belongs to a page, or a promotion ahead of need is under way
//! to it, or an operation is at work on it.

use crate::error::Failure;
use crate::tiered::access::{Source, Step, Work};
use crate::tiered::demote::{Retreat, WriteBack};
use crate::tiered::model::{self, Pool};
use crate::tiered::prefetch::{CopyStart, PrefetchStep};
use crate::vmt::{PageView, Table, Tier};
use vstd::prelude::*;

verus! {

/// Where a device block can be.
pub enum Place {
    /// At a position of the list of a GPU's blocks that can be used again.
    Free(int, int),
    /// At a position of the blocks of a page.
    Page(Seq<char>, int),
    /// In the promotion of a page ahead of need.
    Ahead(Seq<char>),
}

impl Pool {
    /// The block at address `ptr` is in a place.
    pub open spec fn holds(self, place: Place, ptr: u64) -> bool {
        match place {
            Place::Free(g, i) => {
                &&& 0 <= g < self.vram_free.len()
                &&& 0 <= i < self.vram_free[g].len()
                &&& self.vram_free[g][i].1 == ptr
            },
            Place::Page(name, i) => {
                &&& self.has(name)
                &&& 0 <= i < self.page(name).vram_chunks.len()
                &&& self.page(name).vram_chunks[i].device_ptr == ptr
            },
            Place::Ahead(name) => {
                &&& self.inflight.contains_key(name)
                &&& self.inflight[name].device_ptr == ptr
            },
        }
    }

    /// No block is in two places. No block lies at address zero.
    pub open spec fn exclusive(self) -> bool {
        forall|p: Place, q: Place, ptr: u64| #[trigger]
            self.holds(p, ptr) && #[trigger] self.holds(q, ptr) && ptr != 0 ==> p == q
    }

    /// The block at address `ptr` is in no place.
    pub open spec fn unheld(self, ptr: u64) -> bool {
        ptr != 0 ==> forall|p: Place| !#[trigger] self.holds(p, ptr)
    }

    /// No block is in two places, and the block that is worked on is in none.
    pub open spec fn exclusive_at(self, step: Step) -> bool {
        self.exclusive() && (step matches Step::Pending(work) ==> self.unheld(block_of(work)))
    }
}

/// The block that is worked on, or zero where there is none yet.
pub open spec fn block_of(work: Work) -> u64 {
    match work {
        Work::AwaitPrefetch { ptr, .. } => ptr,
        Work::AllocateBlock { .. } => 0,
        Work::Copy { dst, .. } => dst,
        Work::Stream { dst, .. } => dst,
    }
}

/// A pool in which every block is where it is in this one, or nowhere.
proof fn lemma_no_more_places(a: Pool, b: Pool)
    requires
        a.exclusive(),
        forall|p: Place, ptr: u64| #[trigger] b.holds(p, ptr) ==> a.holds(p, ptr),
    ensures
        b.exclusive(),
        forall|ptr: u64| #[trigger] a.unheld(ptr) ==> b.unheld(ptr),
{
}

proof fn lemma_same_places(a: Pool, b: Pool)
    requires
        a.exclusive(),
        b.vram_free == a.vram_free,
        b.inflight == a.inflight,
        forall|n: Seq<char>| #[trigger]
            b.has(n) ==> a.has(n) && b.page(n).vram_chunks == a.page(n).vram_chunks,
    ensures
        b.exclusive(),
        forall|ptr: u64| #[trigger] a.unheld(ptr) ==> b.unheld(ptr),
{
    assert forall|p: Place, ptr: u64| #[trigger] b.holds(p, ptr) implies a.holds(p, ptr) by {
        if let Place::Page(n, _) = p {
            assert(b.has(n));
        }
    }
    lemma_no_more_places(a, b);
}

/// Putting a block that is in no place on a list.
proof fn lemma_with_block(pool: Pool, gpu: int, ptr: u64, bytes: usize)
    requires
        pool.exclusive(),
        pool.unheld(ptr),
    ensures
        pool.with_block(gpu, ptr, bytes).exclusive(),
        forall|other: u64| #[trigger]
            pool.unheld(other) && other != ptr ==> pool.with_block(gpu, ptr, bytes).unheld(other),
{
    let after = pool.with_block(gpu, ptr, bytes);
    if ptr != 0 && 0 <= gpu < pool.vram_free.len() {
        let new = Place::Free(gpu, pool.vram_free[gpu].len() as int);
        assert forall|p: Place, x: u64| #[trigger] after.holds(p, x) implies pool.holds(p, x) || (p
            == new && x == ptr) by {}
    }
}

/// Taking a block from a list.
proof fn lemma_without_block(pool: Pool, gpu: int, bytes: usize)
    requires
        pool.exclusive(),
        pool.has_block(gpu, bytes),
    ensures
        pool.without_block(gpu, bytes).exclusive(),
        pool.without_block(gpu, bytes).unheld(pool.block_for(gpu, bytes)),
        forall|ptr: u64| #[trigger]
            pool.unheld(ptr) ==> pool.without_block(gpu, bytes).unheld(ptr),
{
    let after = pool.without_block(gpu, bytes);
    let blocks = pool.vram_free[gpu];
    let at = model::first_of_size(blocks, bytes);
    model::lemma_first_of_size(blocks, bytes);
    let taken = pool.block_for(gpu, bytes);
    let last = blocks.len() - 1;
    assert forall|p: Place, x: u64| #[trigger] after.holds(p, x) implies pool.holds(p, x) || (p
        == Place::Free(gpu, at) && at < last && pool.holds(Place::Free(gpu, last), x)) by {}
    assert forall|p: Place, q: Place, x: u64| #[trigger]
        after.holds(p, x) && #[trigger] after.holds(q, x) && x != 0 implies p == q by {
        let p0 = if p == Place::Free(gpu, at) {
            Place::Free(gpu, last)
        } else {
            p
        };
        let q0 = if q == Place::Free(gpu, at) {
            Place::Free(gpu, last)
        } else {
            q
        };
        assert(pool.holds(p0, x));
        assert(pool.holds(q0, x));
    }
    assert(after.unheld(taken)) by {
        if taken != 0 {
            assert(pool.holds(Place::Free(gpu, at), taken));
            assert forall|p: Place| !#[trigger] after.holds(p, taken) by {
                if after.holds(p, taken) {
                    if p == Place::Free(gpu, at) {
                        assert(pool.holds(Place::Free(gpu, last), taken));
                    }
                }
            }
        }
    }
}

/// Giving a block that is in no place to a page.
proof fn lemma_arrived(pool: Pool, name: Seq<char>, gpu: int, dst: u64, bytes: usize, now: u64)
    requires
        pool.exclusive(),
        pool.unheld(dst),
        pool.accessible(name),
    ensures
        pool.arrived(name, gpu, dst, bytes, now).exclusive(),
{
    let after = pool.arrived(name, gpu, dst, bytes, now);
    let new = Place::Page(name, pool.page(name).vram_chunks.len() as int);
    assert forall|p: Place, x: u64| #[trigger] after.holds(p, x) implies pool.holds(p, x) || (p
        == new && x == dst) by {}
}

proof fn lemma_fill_block(
    pool: Pool,
    name: Seq<char>,
    gpu: int,
    dst: u64,
    bytes: usize,
    source: Source,
)
    requires
        pool.exclusive(),
        pool.unheld(dst),
    ensures
        pool.fill_block(name, gpu, dst, bytes, source).0.exclusive_at(
            pool.fill_block(name, gpu, dst, bytes, source).1,
        ),
{
    let after = pool.fill_block(name, gpu, dst, bytes, source).0;
    if after.vram_free == pool.vram_free {
        lemma_same_places(pool, after);
    } else {
        lemma_with_block(pool, gpu, dst, bytes);
        lemma_same_places(pool.with_block(gpu, dst, bytes), after);
    }
}

proof fn lemma_find_block(pool: Pool, name: Seq<char>, gpu: int, bytes: usize, source: Source)
    requires
        pool.exclusive(),
    ensures
        pool.find_block(name, gpu, bytes, source).0.exclusive_at(
            pool.find_block(name, gpu, bytes, source).1,
        ),
{
    if pool.has_block(gpu, bytes) {
        lemma_without_block(pool, gpu, bytes);
        lemma_fill_block(
            pool.without_block(gpu, bytes),
            name,
            gpu,
            pool.block_for(gpu, bytes),
            bytes,
            source,
        );
    }
}

proof fn lemma_locate(pool: Pool, name: Seq<char>, gpu: int, now: u64)
    requires
        pool.exclusive(),
    ensures
        pool.locate(name, gpu, now).0.exclusive_at(pool.locate(name, gpu, now).1),
{
    let page = pool.page(name);
    let piece = page.dram_chunks[gpu];
    let ordinal = pool.cluster.ordinals@[gpu];
    let src = page.vram_chunks[model::first_elsewhere(page.vram_chunks, ordinal)];
    lemma_find_block(
        pool,
        name,
        gpu,
        piece.size_bytes,
        Source::Host { host_ptr: piece.host_ptr },
    );
    if let Some(from) = pool.index_of(src.gpu_ordinal) {
        lemma_find_block(
            pool,
            name,
            gpu,
            src.size_bytes,
            Source::Peer { gpu: from, ptr: src.device_ptr },
        );
    }
    if let Some(offset) = page.ssd_offset {
        lemma_find_block(pool, name, gpu, page.size_bytes, Source::Spill { offset });
    }
    if pool.has(name) && page.tier == Tier::Vram {
        lemma_same_places(pool, pool.with_page(name, page.touched(now)));
    }
}

/// An access keeps the blocks apart: the block that it works on is in no place.
pub proof fn law_access_keeps_blocks_apart(pool: Pool, name: Seq<char>, gpu: int, now: u64)
    requires
        pool.exclusive(),
    ensures
        pool.access(name, gpu, now).0.exclusive_at(pool.access(name, gpu, now).1),
{
    let counted = pool.counted(name);
    lemma_same_places(pool, counted);
    if pool.inflight.contains_key(name) {
        let f = pool.inflight[name];
        let claimed = Pool { inflight: pool.inflight.remove(name), ..counted };
        assert(pool.holds(Place::Ahead(name), f.device_ptr));
        assert forall|p: Place, x: u64| #[trigger] claimed.holds(p, x) implies pool.holds(p, x)
            && p != Place::Ahead(name) by {}
        lemma_no_more_places(pool, claimed);
        assert(claimed.unheld(f.device_ptr));
        lemma_recalled(counted, name);
        lemma_locate(
            claimed.with_block(f.gpu_idx as int, f.device_ptr, f.size),
            name,
            gpu,
            now,
        );
    } else {
        lemma_locate(counted, name, gpu, now);
    }
}

/// An access that goes on keeps the blocks apart, whatever came of its work, as
/// long as the driver hands out no block that is in use.
pub proof fn law_resumed_access_keeps_blocks_apart(
    pool: Pool,
    name: Seq<char>,
    gpu: int,
    now: u64,
    work: Work,
    event: Result<u64, Failure>,
)
    requires
        pool.exclusive(),
        pool.unheld(block_of(work)),
        event is Ok ==> pool.accessible(name),
        work is AllocateBlock && event is Ok ==> pool.unheld(event->Ok_0),
    ensures
        pool.resume_access(name, gpu, now, work, event).0.exclusive_at(
            pool.resume_access(name, gpu, now, work, event).1,
        ),
{
    match work {
        Work::AwaitPrefetch { ptr, size } => {
            if event is Ok {
                lemma_arrived(pool, name, gpu, ptr, size, now);
            }
        },
        Work::AllocateBlock { bytes, source } => {
            if let Ok(ptr) = event {
                lemma_fill_block(pool, name, gpu, ptr, bytes, source);
            }
        },
        Work::Copy { dst, bytes, .. } => {
            if event is Ok {
                lemma_arrived(pool, name, gpu, dst, bytes, now);
            }
        },
        Work::Stream { stage_ptr, stage_len, borrowed, dst, total, .. } => {
            let ended = pool.end_staging(gpu, stage_ptr, stage_len, borrowed);
            lemma_same_places(pool, ended);
            if event is Ok {
                lemma_arrived(ended, name, gpu, dst, total, now);
            } else {
                lemma_with_block(ended, gpu, dst, total);
            }
        },
    }
}

/// A promotion ahead of need keeps the blocks apart: the block that it starts with
/// is in no place, and wherever it ends up is its only place.
pub proof fn law_prefetch_keeps_blocks_apart(
    pool: Pool,
    name: Seq<char>,
    gpu: usize,
    dst: u64,
    bytes: usize,
    event: CopyStart,
)
    requires
        pool.exclusive(),
        pool.unheld(dst),
    ensures
        pool.prefetch(name, gpu as int).0.exclusive(),
        pool.prefetch(name, gpu as int).1 matches PrefetchStep::StartCopy { dst: taken, .. }
            ==> pool.prefetch(name, gpu as int).0.unheld(taken),
        pool.prefetched(name, gpu, dst, bytes, event).exclusive(),
{
    let size = pool.page(name).size_bytes;
    if pool.has_block(gpu as int, size) {
        lemma_without_block(pool, gpu as int, size);
    }
    let after = pool.prefetched(name, gpu, dst, bytes, event);
    match event {
        CopyStart::Started => {
            let new = Place::Ahead(name);
            assert forall|p: Place, x: u64| #[trigger] after.holds(p, x) implies (p != new
                && pool.holds(p, x)) || (p == new && x == dst) by {}
        },
        CopyStart::NotStarted => {
            lemma_with_block(pool, gpu as int, dst, bytes);
        },
        CopyStart::Untracked => {},
    }
}

impl Pool {
    /// The pool as if the first `k` blocks of a page did not belong to it any more.
    pub open spec fn given_up(self, name: Seq<char>, k: int) -> Pool {
        let page = self.page(name);
        self.with_page(name, PageView { vram_chunks: page.vram_chunks.skip(k), ..page })
    }
}

/// A demotion keeps the blocks apart, but for those that it has put on a list and
/// that still are listed with the page. Where it succeeds none is left of those.
pub proof fn law_demotion_keeps_blocks_apart(pool: Pool, name: Seq<char>, w: WriteBack)
    requires
        pool.has(name),
        w.index < pool.page(name).vram_chunks.len(),
        w.device_ptr == pool.page(name).vram_chunks[w.index as int].device_ptr,
        pool.given_up(name, w.index as int).exclusive(),
    ensures
        ({
            let (after, step) = pool.resume_demote(name, w, Ok(()));
            &&& step == Retreat::Finished(Ok(())) ==> after.exclusive()
            &&& step != Retreat::Finished(Ok(())) ==> after.given_up(
                name,
                w.index + 1,
            ).exclusive()
        }),
{
    let k = w.index as int;
    let page = pool.page(name);
    let before = pool.given_up(name, k);
    let without = pool.given_up(name, k + 1);
    let first = Place::Page(name, 0);
    assert(before.holds(first, w.device_ptr));
    assert forall|p: Place, x: u64| #[trigger] without.holds(p, x) implies before.holds(
        shifted(name, p),
        x,
    ) && shifted(name, p) != first by {
        if let Place::Page(n, i) = p {
            if n == name {
                assert(page.vram_chunks.skip(k + 1)[i] == page.vram_chunks.skip(k)[i + 1]);
            } else {
                assert(pool.has(n));
            }
        }
    }
    assert forall|p: Place, q: Place, x: u64| #[trigger]
        without.holds(p, x) && #[trigger] without.holds(q, x) && x != 0 implies p == q by {
        assert(before.holds(shifted(name, p), x));
        assert(before.holds(shifted(name, q), x));
        assert(shifted(name, p) == shifted(name, q));
    }
    assert(without.unheld(w.device_ptr)) by {
        if w.device_ptr != 0 {
            assert forall|p: Place| !#[trigger] without.holds(p, w.device_ptr) by {
                if without.holds(p, w.device_ptr) {
                    assert(before.holds(shifted(name, p), w.device_ptr));
                }
            }
        }
    }
    lemma_with_block(without, w.gpu_idx as int, w.device_ptr, w.bytes);
    let listed = without.with_block(w.gpu_idx as int, w.device_ptr, w.bytes);
    let (after, step) = pool.resume_demote(name, w, Ok(()));
    if step == Retreat::Finished(Ok(())) {
        assert forall|p: Place, x: u64| #[trigger] after.holds(p, x) implies listed.holds(
            p,
            x,
        ) by {}
        lemma_no_more_places(listed, after);
    } else {
        assert forall|p: Place, x: u64| #[trigger]
            after.given_up(name, k + 1).holds(p, x) implies listed.holds(p, x) by {}
        lemma_no_more_places(listed, after.given_up(name, k + 1));
    }
}

/// A place among the blocks of a page, counted from one block earlier.
spec fn shifted(name: Seq<char>, p: Place) -> Place {
    match p {
        Place::Page(n, i) => if n == name {
            Place::Page(n, i + 1)
        } else {
            p
        },
        _ => p,
    }
}

/// The start of a demotion keeps the blocks apart.
pub proof fn law_begun_demotion_keeps_blocks_apart(pool: Pool, name: Seq<char>)
    requires
        pool.exclusive(),
        pool.has(name),
    ensures
        ({
            let (after, step) = pool.demote(name);
            &&& after.exclusive()
            &&& step is Pending ==> after.given_up(name, 0).exclusive()
        }),
{
    let after = pool.demote(name).0;
    assert forall|p: Place, x: u64| #[trigger] after.holds(p, x) implies pool.holds(p, x) by {}
    lemma_no_more_places(pool, after);
    assert(after.page(name).vram_chunks.skip(0) =~= after.page(name).vram_chunks);
    lemma_same_places(after, after.given_up(name, 0));
}

/// Allocation keeps the blocks apart: a new page has none.
pub proof fn law_allocate_keeps_blocks_apart(
    pool: Pool,
    name: Seq<char>,
    shape: Seq<usize>,
    element_size: usize,
    tier: Tier,
)
    requires
        pool.exclusive(),
    ensures
        pool.allocate(name, shape, element_size, tier).0.exclusive(),
{
    let after = pool.allocate(name, shape, element_size, tier).0;
    assert forall|p: Place, x: u64| #[trigger] after.holds(p, x) implies pool.holds(p, x) by {}
    lemma_no_more_places(pool, after);
}

/// A block that a promotion was under way to goes to a list.
proof fn lemma_recalled(pool: Pool, name: Seq<char>)
    requires
        pool.exclusive(),
    ensures
        pool.recalled(name).exclusive(),
{
    if pool.inflight.contains_key(name) {
        let f = pool.inflight[name];
        let claimed = Pool { inflight: pool.inflight.remove(name), ..pool };
        assert(pool.holds(Place::Ahead(name), f.device_ptr));
        assert forall|p: Place, x: u64| #[trigger] claimed.holds(p, x) implies pool.holds(p, x)
            && p != Place::Ahead(name) by {}
        lemma_no_more_places(pool, claimed);
        assert(claimed.unheld(f.device_ptr));
        lemma_with_block(claimed, f.gpu_idx as int, f.device_ptr, f.size);
    }
}

/// Dropping a page keeps the blocks apart.
pub proof fn law_deallocate_keeps_blocks_apart(pool: Pool, name: Seq<char>)
    requires
        pool.exclusive(),
        pool.has(name),
    ensures
        pool.released(name).exclusive(),
{
    let quiet = pool.recalled(name);
    lemma_recalled(pool, name);
    let bare = Pool {
        table: Table { pages: quiet.table.pages.remove(name), ..quiet.table },
        ..quiet
    };
    let chunks = pool.page(name).vram_chunks;
    assert forall|p: Place, x: u64| #[trigger] bare.holds(p, x) implies quiet.holds(p, x) by {}
    lemma_no_more_places(quiet, bare);
    lemma_blocks_put_back(quiet, bare, name, chunks.len() as int);
    assert(chunks.take(chunks.len() as int) =~= chunks);
    model::lemma_with_blocks_keeps_rest(quiet, bare, chunks);
    model::lemma_with_blocks_keeps_rest(bare, bare, chunks);
    lemma_same_places(bare.with_blocks(chunks), pool.released(name));
}

proof fn lemma_blocks_put_back(pool: Pool, bare: Pool, name: Seq<char>, k: int)
    requires
        pool.exclusive(),
        pool.has(name),
        bare.exclusive(),
        bare == (Pool {
            table: Table { pages: pool.table.pages.remove(name), ..pool.table },
            ..pool
        }),
        0 <= k <= pool.page(name).vram_chunks.len(),
    ensures
        bare.with_blocks(pool.page(name).vram_chunks.take(k)).exclusive(),
        forall|i: int|
            k <= i < pool.page(name).vram_chunks.len() ==> bare.with_blocks(
                pool.page(name).vram_chunks.take(k),
            ).unheld((#[trigger] pool.page(name).vram_chunks[i]).device_ptr),
    decreases k,
{
    let chunks = pool.page(name).vram_chunks;
    if k == 0 {
        assert forall|i: int| 0 <= i < chunks.len() implies bare.with_blocks(
            chunks.take(0),
        ).unheld((#[trigger] chunks[i]).device_ptr) by {
            let ptr = chunks[i].device_ptr;
            assert(pool.holds(Place::Page(name, i), ptr));
            assert forall|p: Place| ptr != 0 implies !#[trigger] bare.holds(p, ptr) by {
                if bare.holds(p, ptr) {
                    assert(pool.holds(p, ptr));
                }
            }
        }
    } else {
        lemma_blocks_put_back(pool, bare, name, k - 1);
        assert(chunks.take(k).drop_last() =~= chunks.take(k - 1));
        let before = bare.with_blocks(chunks.take(k - 1));
        let c = chunks[k - 1];
        assert(chunks.take(k).last() == c);
        if let Some(g) = bare.index_of(c.gpu_ordinal) {
            lemma_with_block(before, g as int, c.device_ptr, c.size_bytes);
            assert forall|i: int| k <= i < chunks.len() implies bare.with_blocks(
                chunks.take(k),
            ).unheld((#[trigger] chunks[i]).device_ptr) by {
                let ptr = chunks[i].device_ptr;
                assert(before.unheld(ptr));
                assert(pool.holds(Place::Page(name, i), ptr));
                assert(pool.holds(Place::Page(name, k - 1), c.device_ptr));
                assert(ptr != 0 ==> ptr != c.device_ptr);
            }
        }
    }
}

} // verus!
