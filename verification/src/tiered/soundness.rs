//! No memory is in two hands: the host memory and the storage of a page are
//! handed out, to that page and to no other, whatever operations are made.

use crate::error::{Failure, VugvaError};
use crate::gpu;
use crate::ranges::{self, Ranges};
use crate::tiered::access::{self, Source, Step, Work};
use crate::tiered::demote::WriteBack;
use crate::tiered::dram::Dram;
use crate::tiered::laws;
use crate::tiered::model::{self, Pool};
use crate::tiered::prefetch::CopyStart;
use crate::vmt::{self, Chunk, DramChunk, PageView, Tier};
use vstd::prelude::*;

verus! {

impl Pool {
    /// Address `x` lies in piece `i` of the host memory of a page. A piece takes
    /// whole lines.
    pub open spec fn in_piece(self, name: Seq<char>, i: int, x: int) -> bool {
        let pieces = self.page(name).dram_chunks;
        &&& self.has(name)
        &&& 0 <= i < pieces.len()
        &&& pieces[i].host_ptr <= x < pieces[i].host_ptr + ranges::aligned(
            pieces[i].size_bytes as int,
        )
    }

    /// Offset `x` of the backing file lies in the range of a page.
    pub open spec fn in_storage(self, name: Seq<char>, x: int) -> bool {
        let page = self.page(name);
        &&& self.has(name)
        &&& page.ssd_offset is Some
        &&& page.ssd_offset->0 <= x < page.ssd_offset->0 + ranges::aligned(page.size_bytes as int)
    }

    /// The host pools lie apart from each other. Piece `i` of a page is handed out
    /// by host pool `i`, and no part of it is in the piece of another page; the
    /// range of a page in the backing file is handed out, and no part of it is in
    /// the range of another page.
    pub open spec fn sound(self) -> bool {
        &&& self.wf()
        &&& laws::apart(self.dram)
        &&& forall|name: Seq<char>, i: int, x: int| #[trigger]
            self.in_piece(name, i, x) ==> i < self.dram.len() && self.dram[i].live(x)
        &&& forall|a: Seq<char>, b: Seq<char>, i: int, x: int| #[trigger]
            self.in_piece(a, i, x) && #[trigger] self.in_piece(b, i, x) ==> a == b
        &&& forall|name: Seq<char>, x: int| #[trigger]
            self.in_storage(name, x) ==> self.spill is Some && self.spill->0.live(x)
        &&& forall|a: Seq<char>, b: Seq<char>, x: int| #[trigger]
            self.in_storage(a, x) && #[trigger] self.in_storage(b, x) ==> a == b
    }

    /// The staging buffer that `work` has borrowed is handed out, and no part of
    /// it is in the host memory of a page.
    pub open spec fn sound_staging(self, gpu: int, work: Work) -> bool {
        work matches Work::Stream { stage_ptr, stage_len, borrowed: true, .. } ==> {
            let end = stage_ptr + ranges::aligned(stage_len as int);
            &&& forall|x: int| stage_ptr <= x < end ==> #[trigger] self.dram[gpu].live(x)
            &&& forall|name: Seq<char>, x: int| #[trigger]
                self.in_piece(name, gpu, x) ==> !(stage_ptr <= x < end)
        }
    }
}

/// A pool with the same memory, and with pages that have the same memory or less,
/// is sound where this one is.
pub(crate) proof fn lemma_same_memory(a: Pool, b: Pool)
    requires
        a.sound(),
        b.wf(),
        b.dram == a.dram,
        b.spill == a.spill,
        forall|n: Seq<char>| #[trigger]
            b.has(n) ==> a.has(n) && b.page(n).dram_chunks == a.page(n).dram_chunks && b.page(
                n,
            ).ssd_offset == a.page(n).ssd_offset && b.page(n).size_bytes == a.page(n).size_bytes,
    ensures
        b.sound(),
        forall|n: Seq<char>, i: int, x: int| #[trigger]
            b.in_piece(n, i, x) ==> a.in_piece(n, i, x),
{
    assert forall|n: Seq<char>, i: int, x: int| #[trigger] b.in_piece(n, i, x) implies a.in_piece(
        n,
        i,
        x,
    ) by {
        assert(b.has(n));
    }
    assert forall|n: Seq<char>, x: int| #[trigger] b.in_storage(n, x) implies a.in_storage(
        n,
        x,
    ) by {
        assert(b.has(n));
    }
}

/// A pool without pages is sound, as long as its host pools lie apart.
pub proof fn law_fresh_pool_is_sound(pool: Pool)
    requires
        pool.wf(),
        laws::apart(pool.dram),
        pool.table.pages == Map::<Seq<char>, PageView>::empty(),
    ensures
        pool.sound(),
{
}

/// What a host pool does to its addresses when it hands out `bytes`.
proof fn lemma_grant(d: Dram, bytes: int, ptr: usize)
    requires
        d.wf(),
        bytes >= 0,
        d.answer(bytes) == Ok::<usize, VugvaError>(ptr),
    ensures
        d.grant(bytes).wf(),
        d.grant(bytes).base_ptr == d.base_ptr,
        d.grant(bytes).ranges.capacity == d.ranges.capacity,
        forall|x: int|
            ptr <= x < ptr + ranges::aligned(bytes) ==> !#[trigger] d.live(x),
        forall|x: int| #[trigger]
            d.grant(bytes).live(x) <==> d.live(x) || ptr <= x < ptr + ranges::aligned(bytes),
{
    let off = d.ranges.answer(bytes)->Ok_0;
    let after = d.ranges.grant(bytes);
    ranges::lemma_answer_is_allocated(d.ranges, bytes);
    ranges::lemma_allocated(d.ranges, bytes, off, after);
    assert forall|x: int| ptr <= x < ptr + ranges::aligned(bytes) implies !#[trigger] d.live(
        x,
    ) by {
        assert(!d.ranges.live(x - d.base_ptr));
    }
    assert forall|x: int| #[trigger]
        d.grant(bytes).live(x) <==> d.live(x) || ptr <= x < ptr + ranges::aligned(bytes) by {
        assert(after.live(x - d.base_ptr) <==> d.ranges.live(x - d.base_ptr) || off <= x
            - d.base_ptr < off + ranges::aligned(bytes));
    }
}

/// What a host pool does to its addresses when it is given back `bytes`.
proof fn lemma_give_back(d: Dram, ptr: usize, bytes: int)
    requires
        d.wf(),
    ensures
        d.give_back(ptr, bytes).wf(),
        d.give_back(ptr, bytes).base_ptr == d.base_ptr,
        d.give_back(ptr, bytes).ranges.capacity == d.ranges.capacity,
        forall|x: int| #[trigger] d.give_back(ptr, bytes).live(x) ==> d.live(x),
        forall|x: int| #[trigger]
            d.live(x) && !(ptr <= x < ptr + ranges::aligned(bytes)) ==> d.give_back(
                ptr,
                bytes,
            ).live(x),
{
    model::lemma_give_back_keeps_place(d, ptr, bytes);
    if d.owns(ptr) {
        let off = ptr - d.base_ptr;
        let after = d.ranges.give_back(off, bytes);
        ranges::lemma_give_back(d.ranges, off, bytes);
        assert forall|x: int| #[trigger] d.give_back(ptr, bytes).live(x) implies d.live(x) by {
            assert(after.live(x - d.base_ptr));
        }
        assert forall|x: int| #[trigger]
            d.live(x) && !(ptr <= x < ptr + ranges::aligned(bytes)) implies d.give_back(
            ptr,
            bytes,
        ).live(x) by {
            assert(d.ranges.live(x - d.base_ptr));
            assert(after.live(x - d.base_ptr) || !(ranges::aligned(bytes) > 0
                && d.ranges.live_range(off, ranges::aligned(bytes))));
        }
    }
}

/// Allocation keeps a pool sound, in whatever tier, and whether it succeeds or not:
/// no page ever gets memory that another page has.
pub proof fn law_allocate_keeps_memory_apart(
    pool: Pool,
    name: Seq<char>,
    shape: Seq<usize>,
    element_size: usize,
    tier: Tier,
)
    requires
        pool.sound(),
        vmt::sizable(shape, element_size),
        tier != Tier::Ssd ==> pool.dram.len() > 0,
    ensures
        pool.allocate(name, shape, element_size, tier).0.sound(),
{
    let given = pool.registered(name, shape, element_size).0;
    let total = vmt::tensor_bytes(shape, element_size);
    vmt::lemma_tensor_bytes_nonnegative(shape, element_size);
    let after = pool.allocate(name, shape, element_size, tier).0;
    assert forall|n: Seq<char>| n != given implies (#[trigger] after.has(n) <==> pool.has(n))
        && after.page(n) == pool.page(n) by {}
    if tier == Tier::Ssd {
        lemma_cold_allocation(pool, after, given, total);
    } else {
        lemma_warm_allocation(pool, after, given, total);
    }
}

proof fn lemma_cold_allocation(pool: Pool, after: Pool, given: Seq<char>, total: int)
    requires
        pool.sound(),
        0 <= total <= usize::MAX,
        forall|n: Seq<char>|
            n != given ==> (#[trigger] after.has(n) <==> pool.has(n)) && after.page(n)
                == pool.page(n),
        after.has(given),
        after.page(given).dram_chunks.len() == 0,
        after.page(given).size_bytes == total,
        after.dram == pool.dram,
        after.vram_free == pool.vram_free,
        after.rings == pool.rings,
        after.cluster == pool.cluster,
        match pool.spill {
            Some(space) => match space.answer(total) {
                Ok(off) => after.spill == Some(space.grant(total)) && after.page(given).ssd_offset
                    == Some(off as u64),
                Err(_) => after.spill == pool.spill && after.page(given).ssd_offset is None,
            },
            None => after.spill is None && after.page(given).ssd_offset is None,
        },
    ensures
        after.sound(),
{
    assert forall|n: Seq<char>, i: int, x: int| #[trigger]
        after.in_piece(n, i, x) implies pool.in_piece(n, i, x) by {
        assert(after.has(n));
    }
    if let Some(space) = pool.spill {
        ranges::lemma_answer_is_allocated(space, total);
        if let Ok(off) = space.answer(total) {
            ranges::lemma_allocated(space, total, off, space.grant(total));
        }
    }
    assert forall|n: Seq<char>, x: int| #[trigger]
        after.in_storage(n, x) implies after.spill is Some && after.spill->0.live(x) && (n != given
        ==> pool.in_storage(n, x)) && (n == given ==> !pool.spill->0.live(x)) by {
        assert(after.has(n));
        if n != given {
            assert(pool.in_storage(n, x));
            assert(pool.spill->0.live(x));
        }
    }
}

proof fn lemma_warm_allocation(pool: Pool, after: Pool, given: Seq<char>, total: int)
    requires
        pool.sound(),
        0 <= total <= usize::MAX,
        pool.dram.len() > 0,
        forall|n: Seq<char>|
            n != given ==> (#[trigger] after.has(n) <==> pool.has(n)) && after.page(n)
                == pool.page(n),
        after.has(given),
        after.page(given).ssd_offset is None,
        after.spill == pool.spill,
        after.vram_free == pool.vram_free,
        after.rings == pool.rings,
        after.cluster == pool.cluster,
        ({
            let k = model::first_refusal(pool.dram, total, 0);
            &&& after.dram == model::shared_out(pool.dram, total, k)
            &&& after.page(given).dram_chunks == model::host_pieces(pool.dram, total, k)
        }),
    ensures
        after.sound(),
{
    let n = pool.dram.len() as int;
    let k = model::first_refusal(pool.dram, total, 0);
    model::lemma_first_refusal(pool.dram, total, 0);
    assert forall|i: int| 0 <= i < n implies (#[trigger] after.dram[i]).wf() && after.dram[i].base_ptr
        == pool.dram[i].base_ptr && after.dram[i].ranges.capacity == pool.dram[i].ranges.capacity
        && (forall|x: int| #[trigger] pool.dram[i].live(x) ==> after.dram[i].live(x)) by {
        if i < k {
            model::lemma_share_bounds(total, n, i);
            laws::lemma_granted_piece(pool.dram, total, k, i);
            lemma_grant(
                pool.dram[i],
                model::share(total, n, i),
                pool.dram[i].answer(model::share(total, n, i))->Ok_0,
            );
        }
    }
    assert forall|name: Seq<char>, i: int, x: int| #[trigger]
        after.in_piece(name, i, x) implies i < after.dram.len() && after.dram[i].live(x) && (name
        != given ==> pool.in_piece(name, i, x)) && (name == given ==> !pool.dram[i].live(x)) by {
        assert(after.has(name));
        if name == given {
            let bytes = model::share(total, n, i);
            model::lemma_share_bounds(total, n, i);
            laws::lemma_granted_piece(pool.dram, total, k, i);
            lemma_grant(pool.dram[i], bytes, pool.dram[i].answer(bytes)->Ok_0);
            assert(after.page(given).dram_chunks[i] == model::host_piece(pool.dram, total, i));
        } else {
            assert(pool.in_piece(name, i, x));
            assert(pool.dram[i].live(x));
        }
    }
    assert forall|name: Seq<char>, x: int| #[trigger] after.in_storage(name, x) implies
        pool.in_storage(name, x) by {
        assert(after.has(name));
    }
}

/// Address `x` lies in none of the pieces.
pub open spec fn outside(pieces: Seq<DramChunk>, x: int) -> bool {
    forall|i: int|
        #![trigger pieces[i]]
        0 <= i < pieces.len() ==> !(pieces[i].host_ptr <= x < pieces[i].host_ptr
            + ranges::aligned(pieces[i].size_bytes as int))
}

/// What a host pool does to its addresses when it is offered some pieces.
proof fn lemma_taken_back(d: Dram, pieces: Seq<DramChunk>)
    requires
        d.wf(),
    ensures
        model::taken_back(d, pieces).wf(),
        model::taken_back(d, pieces).base_ptr == d.base_ptr,
        model::taken_back(d, pieces).ranges.capacity == d.ranges.capacity,
        forall|x: int| #[trigger] model::taken_back(d, pieces).live(x) ==> d.live(x),
        forall|x: int| #[trigger]
            d.live(x) && outside(pieces, x) ==> model::taken_back(d, pieces).live(x),
    decreases pieces.len(),
{
    if pieces.len() > 0 {
        let init = pieces.drop_last();
        let before = model::taken_back(d, init);
        lemma_taken_back(d, init);
        lemma_give_back(before, pieces.last().host_ptr, pieces.last().size_bytes as int);
        assert forall|x: int| #[trigger]
            model::taken_back(d, pieces).live(x) implies d.live(x) by {
            assert(before.live(x));
        }
        assert forall|x: int| #[trigger] d.live(x) && outside(pieces, x) implies model::taken_back(
            d,
            pieces,
        ).live(x) by {
            assert(outside(init, x)) by {
                assert forall|i: int|
                    #![trigger init[i]]
                    0 <= i < init.len() implies !(init[i].host_ptr <= x < init[i].host_ptr
                    + ranges::aligned(init[i].size_bytes as int)) by {
                    assert(init[i] == pieces[i]);
                }
            }
            assert(before.live(x));
            assert(pieces[pieces.len() - 1] == pieces.last());
        }
    }
}

/// Giving back a range that is handed out leaves none of it handed out.
proof fn lemma_given_back(d: Dram, ptr: usize, bytes: int, x: int)
    requires
        d.wf(),
        forall|y: int| ptr <= y < ptr + ranges::aligned(bytes) ==> #[trigger] d.live(y),
        ptr <= x < ptr + ranges::aligned(bytes),
    ensures
        !d.give_back(ptr, bytes).live(x),
{
    assert(d.live(ptr as int));
    let off = ptr - d.base_ptr;
    let len = ranges::aligned(bytes);
    assert(d.ranges.live_range(off, len)) by {
        assert forall|y: int| off <= y < off + len implies #[trigger] d.ranges.live(y) by {
            assert(d.live(y + d.base_ptr));
        }
    }
    ranges::lemma_give_back(d.ranges, off, bytes);
    assert(!d.ranges.give_back(off, bytes).live(x - d.base_ptr));
}

/// Dropping a page keeps a pool sound, and leaves none of the host memory and of
/// the storage that the page had handed out.
pub proof fn law_deallocate_keeps_memory_apart(pool: Pool, name: Seq<char>)
    requires
        pool.sound(),
        pool.has(name),
    ensures
        pool.released(name).sound(),
        forall|i: int, x: int| #[trigger]
            pool.in_piece(name, i, x) ==> !pool.released(name).dram[i].live(x),
        forall|x: int| #[trigger]
            pool.in_storage(name, x) ==> !pool.released(name).spill->0.live(x),
{
    let after = pool.released(name);
    let pieces = pool.page(name).dram_chunks;
    let n = pool.dram.len() as int;
    let quiet = pool.recalled(name);
    model::lemma_with_blocks_keeps_rest(quiet, quiet, pool.page(name).vram_chunks);
    lemma_with_blocks_len(quiet, pool.page(name).vram_chunks);
    assert forall|k: int| 0 <= k < n implies (#[trigger] after.dram[k]).wf() && after.dram[k].base_ptr
        == pool.dram[k].base_ptr && after.dram[k].ranges.capacity
        == pool.dram[k].ranges.capacity by {
        lemma_taken_back(pool.dram[k], pieces);
    }
    assert forall|a: Seq<char>, i: int, x: int| #[trigger] after.in_piece(a, i, x) implies i
        < after.dram.len() && after.dram[i].live(x) && pool.in_piece(a, i, x) by {
        assert(after.has(a));
        assert(pool.in_piece(a, i, x));
        assert(pool.dram[i].live(x));
        lemma_taken_back(pool.dram[i], pieces);
        assert(outside(pieces, x)) by {
            assert forall|j: int|
                #![trigger pieces[j]]
                0 <= j < pieces.len() implies !(pieces[j].host_ptr <= x < pieces[j].host_ptr
                + ranges::aligned(pieces[j].size_bytes as int)) by {
                if pieces[j].host_ptr <= x < pieces[j].host_ptr + ranges::aligned(
                    pieces[j].size_bytes as int,
                ) {
                    assert(pool.in_piece(name, j, x));
                    assert(pool.dram[j].live(x));
                    assert(i == j);
                }
            }
        }
    }
    let page = pool.page(name);
    if let (Some(space), Some(offset)) = (pool.spill, page.ssd_offset) {
        let len = ranges::aligned(page.size_bytes as int);
        ranges::lemma_give_back(space, offset as int, page.size_bytes as int);
        assert(space.live_range(offset as int, len)) by {
            assert forall|x: int| offset <= x < offset + len implies #[trigger] space.live(x) by {
                assert(pool.in_storage(name, x));
            }
        }
    }
    assert forall|a: Seq<char>, x: int| #[trigger] after.in_storage(a, x) implies pool.in_storage(
        a,
        x,
    ) && after.spill is Some && after.spill->0.live(x) by {
        assert(after.has(a));
        assert(pool.in_storage(a, x));
        assert(!pool.in_storage(name, x));
    }
    assert forall|x: int| #[trigger] pool.in_storage(name, x) implies !after.spill->0.live(x) by {}
    assert forall|i: int, x: int| #[trigger] pool.in_piece(name, i, x) implies !after.dram[i].live(
        x,
    ) by {
        lemma_piece_is_given_back(pool, name, i, x, pieces.len() as int);
        assert(pieces.take(pieces.len() as int) =~= pieces);
    }
}

proof fn lemma_with_blocks_len(pool: Pool, chunks: Seq<Chunk>)
    ensures
        pool.with_blocks(chunks).vram_free.len() == pool.vram_free.len(),
    decreases chunks.len(),
{
    if chunks.len() > 0 {
        lemma_with_blocks_len(pool, chunks.drop_last());
    }
}

/// Once its pool was offered the first `j` pieces of a page, piece `i` is given
/// back if it was among them, and still handed out if not.
proof fn lemma_piece_is_given_back(pool: Pool, name: Seq<char>, i: int, x: int, j: int)
    requires
        pool.sound(),
        pool.in_piece(name, i, x),
        0 <= j <= pool.page(name).dram_chunks.len(),
    ensures
        model::taken_back(pool.dram[i], pool.page(name).dram_chunks.take(j)).live(x) <==> j <= i,
    decreases j,
{
    let pieces = pool.page(name).dram_chunks;
    let d = pool.dram[i];
    let so_far = pieces.take(j);
    assert(d.live(x));
    lemma_taken_back(d, so_far);
    if j <= i {
        assert(outside(so_far, x)) by {
            assert forall|m: int|
                #![trigger so_far[m]]
                0 <= m < so_far.len() implies !(so_far[m].host_ptr <= x < so_far[m].host_ptr
                + ranges::aligned(so_far[m].size_bytes as int)) by {
                if so_far[m].host_ptr <= x < so_far[m].host_ptr + ranges::aligned(
                    so_far[m].size_bytes as int,
                ) {
                    assert(pool.in_piece(name, m, x));
                    law_pieces_do_not_overlap(pool, name, i, name, m, x);
                }
            }
        }
    } else {
        let init = pieces.take(j - 1);
        assert(so_far.drop_last() =~= init);
        assert(so_far.last() == pieces[j - 1]);
        let before = model::taken_back(d, init);
        lemma_taken_back(d, init);
        if j - 1 == i {
            let p = pieces[i];
            assert forall|y: int|
                p.host_ptr <= y < p.host_ptr + ranges::aligned(
                    p.size_bytes as int,
                ) implies #[trigger] before.live(y) by {
                assert(pool.in_piece(name, i, y));
                lemma_piece_is_given_back(pool, name, i, y, j - 1);
            }
            lemma_given_back(before, p.host_ptr, p.size_bytes as int, x);
        } else {
            lemma_piece_is_given_back(pool, name, i, x, j - 1);
            lemma_give_back(before, pieces[j - 1].host_ptr, pieces[j - 1].size_bytes as int);
        }
    }
}

impl Pool {
    /// The pool is sound, and so is the staging buffer of the work that is left.
    pub open spec fn sound_at(self, gpu: int, step: Step) -> bool {
        self.sound() && (step matches Step::Pending(work) ==> self.sound_staging(gpu, work))
    }
}

/// Handing out a staging buffer keeps a pool sound, and so does taking it back.
proof fn lemma_staging(pool: Pool, gpu: int, want: int, ptr: usize)
    requires
        pool.sound(),
        0 <= gpu < pool.dram.len(),
        want >= 0,
        pool.dram[gpu].answer(want) == Ok::<usize, VugvaError>(ptr),
    ensures
        ({
            let d = pool.dram[gpu].grant(want);
            let after = Pool { dram: pool.dram.update(gpu, d), ..pool };
            &&& after.sound()
            &&& forall|x: int| ptr <= x < ptr + ranges::aligned(want) ==> #[trigger] d.live(x)
            &&& forall|name: Seq<char>, x: int| #[trigger]
                after.in_piece(name, gpu, x) ==> !(ptr <= x < ptr + ranges::aligned(want))
        }),
{
    let d = pool.dram[gpu].grant(want);
    let after = Pool { dram: pool.dram.update(gpu, d), ..pool };
    lemma_grant(pool.dram[gpu], want, ptr);
    assert forall|n: Seq<char>, i: int, x: int| #[trigger] after.in_piece(n, i, x) implies
        pool.in_piece(n, i, x) && i < after.dram.len() && after.dram[i].live(x) by {
        assert(pool.in_piece(n, i, x));
        assert(pool.dram[i].live(x));
    }
    assert forall|n: Seq<char>, x: int| #[trigger] after.in_storage(n, x) implies pool.in_storage(
        n,
        x,
    ) by {}
}

proof fn lemma_end_staging(
    pool: Pool,
    gpu: int,
    stage_ptr: usize,
    stage_len: usize,
    borrowed: bool,
)
    requires
        pool.sound(),
        0 <= gpu < pool.dram.len(),
        borrowed ==> forall|name: Seq<char>, x: int| #[trigger]
            pool.in_piece(name, gpu, x) ==> !(stage_ptr <= x < stage_ptr + ranges::aligned(
                stage_len as int,
            )),
    ensures
        pool.end_staging(gpu, stage_ptr, stage_len, borrowed).sound(),
{
    if borrowed {
        let after = pool.end_staging(gpu, stage_ptr, stage_len, borrowed);
        lemma_give_back(pool.dram[gpu], stage_ptr, stage_len as int);
        assert forall|n: Seq<char>, i: int, x: int| #[trigger] after.in_piece(n, i, x) implies
            pool.in_piece(n, i, x) && i < after.dram.len() && after.dram[i].live(x) by {
            assert(pool.in_piece(n, i, x));
            assert(pool.dram[i].live(x));
        }
        assert forall|n: Seq<char>, x: int| #[trigger] after.in_storage(n, x) implies
            pool.in_storage(n, x) by {}
    }
}

proof fn lemma_start_stream(
    pool: Pool,
    name: Seq<char>,
    gpu: int,
    dst: u64,
    total: usize,
    offset: u64,
)
    requires
        pool.sound(),
        0 <= gpu < pool.dram.len(),
    ensures
        pool.start_stream(name, gpu, dst, total, offset).0.sound_at(
            gpu,
            pool.start_stream(name, gpu, dst, total, offset).1,
        ),
{
    let after = pool.start_stream(name, gpu, dst, total, offset).0;
    if pool.stages_itself(name, gpu, total) {
        lemma_same_memory(pool, after);
    } else {
        let d = pool.dram[gpu];
        let want = access::staging_size(d, total as int);
        access::lemma_staging_size(d, total as int);
        match d.answer(want) {
            Err(_) => {
                lemma_same_memory(pool, after);
            },
            Ok(ptr) => {
                lemma_staging(pool, gpu, want, ptr);
                let mid = Pool { dram: pool.dram.update(gpu, d.grant(want)), ..pool };
                if pool.spill is None {
                    lemma_end_staging(mid, gpu, ptr, want as usize, true);
                    lemma_same_memory(
                        mid.end_staging(gpu, ptr, want as usize, true),
                        after,
                    );
                }
            },
        }
    }
}

proof fn lemma_fill_block(
    pool: Pool,
    name: Seq<char>,
    gpu: int,
    dst: u64,
    bytes: usize,
    source: Source,
)
    requires
        pool.sound(),
        0 <= gpu < pool.dram.len(),
    ensures
        pool.fill_block(name, gpu, dst, bytes, source).0.sound_at(
            gpu,
            pool.fill_block(name, gpu, dst, bytes, source).1,
        ),
{
    match source {
        Source::Spill { offset } => {
            lemma_start_stream(pool, name, gpu, dst, bytes, offset);
        },
        _ => {
            lemma_same_memory(pool, pool.fill_block(name, gpu, dst, bytes, source).0);
        },
    }
}

proof fn lemma_find_block(pool: Pool, name: Seq<char>, gpu: int, bytes: usize, source: Source)
    requires
        pool.sound(),
        0 <= gpu < pool.dram.len(),
    ensures
        pool.find_block(name, gpu, bytes, source).0.sound_at(
            gpu,
            pool.find_block(name, gpu, bytes, source).1,
        ),
{
    if pool.has_block(gpu, bytes) {
        let without = pool.without_block(gpu, bytes);
        lemma_same_memory(pool, without);
        lemma_fill_block(without, name, gpu, pool.block_for(gpu, bytes), bytes, source);
    }
}

proof fn lemma_locate(pool: Pool, name: Seq<char>, gpu: int, now: u64)
    requires
        pool.sound(),
        0 <= gpu < pool.dram.len(),
    ensures
        pool.locate(name, gpu, now).0.sound_at(gpu, pool.locate(name, gpu, now).1),
{
    let page = pool.page(name);
    let piece = page.dram_chunks[gpu];
    let ordinal = pool.cluster.ordinals@[gpu];
    let src = page.vram_chunks[model::first_elsewhere(page.vram_chunks, ordinal)];
    lemma_find_block(
        pool,
        name,
        gpu,
        piece.size_bytes,
        Source::Host { host_ptr: piece.host_ptr },
    );
    if let Some(from) = pool.index_of(src.gpu_ordinal) {
        lemma_find_block(
            pool,
            name,
            gpu,
            src.size_bytes,
            Source::Peer { gpu: from, ptr: src.device_ptr },
        );
    }
    if let Some(offset) = page.ssd_offset {
        lemma_find_block(pool, name, gpu, page.size_bytes, Source::Spill { offset });
    }
    if pool.has(name) && page.tier == Tier::Vram {
        lemma_same_memory(pool, pool.with_page(name, page.touched(now)));
    }
}

/// An access keeps a pool sound: a staging buffer is never memory that a page has.
pub proof fn law_access_keeps_memory_apart(pool: Pool, name: Seq<char>, gpu: int, now: u64)
    requires
        pool.sound(),
        0 <= gpu < pool.dram.len(),
    ensures
        pool.access(name, gpu, now).0.sound_at(gpu, pool.access(name, gpu, now).1),
{
    let counted = pool.counted(name);
    lemma_same_memory(pool, counted);
    if pool.inflight.contains_key(name) {
        let f = pool.inflight[name];
        let claimed = Pool { inflight: pool.inflight.remove(name), ..counted };
        lemma_same_memory(pool, claimed);
        let kept = claimed.with_block(f.gpu_idx as int, f.device_ptr, f.size);
        lemma_same_memory(pool, kept);
        lemma_locate(kept, name, gpu, now);
    } else {
        lemma_locate(counted, name, gpu, now);
    }
}

/// An access that goes on keeps a pool sound, whatever came of its work.
pub proof fn law_resumed_access_keeps_memory_apart(
    pool: Pool,
    name: Seq<char>,
    gpu: int,
    now: u64,
    work: Work,
    event: Result<u64, Failure>,
)
    requires
        pool.sound(),
        0 <= gpu < pool.dram.len(),
        pool.sound_staging(gpu, work),
        event is Ok ==> pool.accessible(name),
    ensures
        pool.resume_access(name, gpu, now, work, event).0.sound_at(
            gpu,
            pool.resume_access(name, gpu, now, work, event).1,
        ),
{
    let (after, step) = pool.resume_access(name, gpu, now, work, event);
    match work {
        Work::AllocateBlock { bytes, source } => {
            if let Ok(ptr) = event {
                lemma_fill_block(pool, name, gpu, ptr, bytes, source);
            }
        },
        Work::Stream { stage_ptr, stage_len, borrowed, .. } => {
            lemma_end_staging(pool, gpu, stage_ptr, stage_len, borrowed);
            let ended = pool.end_staging(gpu, stage_ptr, stage_len, borrowed);
            if step is Finished {
                lemma_same_memory(ended, after);
            }
        },
        _ => {
            lemma_same_memory(pool, after);
        },
    }
}

/// A demotion keeps a pool sound, at its start and whenever it goes on.
pub proof fn law_demotion_keeps_memory_apart(
    pool: Pool,
    name: Seq<char>,
    w: WriteBack,
    event: Result<(), Failure>,
)
    requires
        pool.sound(),
        pool.has(name),
    ensures
        pool.demote(name).0.sound(),
        pool.resume_demote(name, w, event).0.sound(),
{
    lemma_write_back(pool, name, 0);
    if event is Ok {
        let kept = pool.with_block(w.gpu_idx as int, w.device_ptr, w.bytes);
        lemma_same_memory(pool, kept);
        lemma_write_back(kept, name, w.index + 1);
    }
}

pub(crate) proof fn lemma_write_back(pool: Pool, name: Seq<char>, i: int)
    requires
        pool.sound(),
        pool.has(name),
    ensures
        pool.write_back(name, i).0.sound(),
{
    let ordinals = pool.cluster.ordinals;
    assert(ordinals@.len() == ordinals.len());
    gpu::law_position_is_the_last(ordinals@, pool.page(name).vram_chunks[i].gpu_ordinal);
    lemma_same_memory(pool, pool.write_back(name, i).0);
}

/// A promotion ahead of need keeps a pool sound, at its start and at its end.
pub proof fn law_prefetch_keeps_memory_apart(
    pool: Pool,
    name: Seq<char>,
    gpu: usize,
    dst: u64,
    bytes: usize,
    event: CopyStart,
)
    requires
        pool.sound(),
    ensures
        pool.prefetch(name, gpu as int).0.sound(),
        pool.prefetched(name, gpu, dst, bytes, event).sound(),
{
    lemma_same_memory(pool, pool.prefetch(name, gpu as int).0);
    lemma_same_memory(pool, pool.prefetched(name, gpu, dst, bytes, event));
}

/// Attaching a cold tier keeps a pool sound, as long as no page is in an earlier
/// one.
pub proof fn law_attached_storage_keeps_memory_apart(pool: Pool, capacity: usize)
    requires
        pool.sound(),
        forall|n: Seq<char>| #[trigger] pool.has(n) ==> pool.page(n).ssd_offset is None,
    ensures
        (Pool {
            spill: Some(Ranges { capacity, offset: 0, blocks: Seq::empty() }),
            ..pool
        }).sound(),
{
    let after = Pool {
        spill: Some(Ranges { capacity, offset: 0, blocks: Seq::empty() }),
        ..pool
    };
    assert forall|n: Seq<char>, i: int, x: int| #[trigger] after.in_piece(n, i, x) implies
        pool.in_piece(n, i, x) by {}
    assert forall|n: Seq<char>, x: int| !#[trigger] after.in_storage(n, x) by {
        if after.in_storage(n, x) {
            assert(pool.has(n));
        }
    }
}

/// In a sound pool no address is in two pieces, be they of two pages or of one.
pub proof fn law_pieces_do_not_overlap(
    pool: Pool,
    a: Seq<char>,
    i: int,
    b: Seq<char>,
    j: int,
    x: int,
)
    requires
        pool.sound(),
        pool.in_piece(a, i, x),
        pool.in_piece(b, j, x),
    ensures
        a == b,
        i == j,
{
    assert(pool.dram[i].live(x));
    assert(pool.dram[j].live(x));
}

} // verus!
