//! What is left of a page that was allocated, accessed and dropped: its memory is
//! used again, so that a pool bounds what is live at a time and not what is
//! allocated over a lifetime.

use crate::error::Failure;
use crate::tiered::laws;
use crate::tiered::machine::Machine;
use crate::tiered::model::{self, Pool};
use crate::vmt::{self, Chunk, Tier};
use vstd::prelude::*;

verus! {

/// Number of blocks of exactly `bytes`.
pub open spec fn blocks_of(blocks: Seq<(usize, u64)>, bytes: usize) -> int
    decreases blocks.len(),
{
    if blocks.len() == 0 {
        0
    } else {
        blocks_of(blocks.drop_last(), bytes) + if blocks.last().0 == bytes {
            1int
        } else {
            0
        }
    }
}

proof fn lemma_blocks_of_update(
    blocks: Seq<(usize, u64)>,
    i: int,
    b: (usize, u64),
    bytes: usize,
)
    requires
        0 <= i < blocks.len(),
    ensures
        blocks_of(blocks.update(i, b), bytes) == blocks_of(blocks, bytes) - (if blocks[i].0
            == bytes {
            1int
        } else {
            0
        }) + (if b.0 == bytes {
            1int
        } else {
            0
        }),
    decreases blocks.len(),
{
    if i == blocks.len() - 1 {
        assert(blocks.update(i, b).drop_last() =~= blocks.drop_last());
    } else {
        lemma_blocks_of_update(blocks.drop_last(), i, b, bytes);
        assert(blocks.update(i, b).drop_last() =~= blocks.drop_last().update(i, b));
    }
}

/// A block that is taken is one less of its size, and of no other size.
proof fn lemma_block_is_taken(pool: Pool, gpu: int, bytes: usize, other: usize)
    requires
        pool.has_block(gpu, bytes),
    ensures
        ({
            let after = pool.without_block(gpu, bytes);
            &&& after.vram_free.len() == pool.vram_free.len()
            &&& blocks_of(after.vram_free[gpu], other) == blocks_of(pool.vram_free[gpu], other)
                - if other == bytes {
                1int
            } else {
                0
            }
            &&& forall|g: int|
                0 <= g < pool.vram_free.len() && g != gpu ==> #[trigger] after.vram_free[g]
                    == pool.vram_free[g]
        }),
{
    let blocks = pool.vram_free[gpu];
    let i = model::first_of_size(blocks, bytes);
    model::lemma_first_of_size(blocks, bytes);
    lemma_blocks_of_update(blocks, i, blocks.last(), other);
    let swapped = blocks.update(i, blocks.last());
    assert(swapped.last() == blocks.last());
}

proof fn lemma_none_of_size(blocks: Seq<(usize, u64)>, bytes: usize)
    ensures
        model::first_of_size(blocks, bytes) == blocks.len() ==> blocks_of(blocks, bytes) == 0,
        blocks_of(blocks, bytes) >= 0,
    decreases blocks.len(),
{
    if blocks.len() > 0 {
        lemma_none_of_size(blocks.skip(1), bytes);
        model::lemma_first_of_size(blocks.skip(1), bytes);
        lemma_blocks_of_first(blocks, bytes);
    }
}

proof fn lemma_blocks_of_first(blocks: Seq<(usize, u64)>, bytes: usize)
    requires
        blocks.len() > 0,
    ensures
        blocks_of(blocks, bytes) == blocks_of(blocks.skip(1), bytes) + if blocks[0].0 == bytes {
            1int
        } else {
            0
        },
    decreases blocks.len(),
{
    if blocks.len() > 1 {
        lemma_blocks_of_first(blocks.drop_last(), bytes);
        assert(blocks.drop_last().skip(1) =~= blocks.skip(1).drop_last());
    } else {
        assert(blocks.drop_last() =~= blocks.skip(1));
    }
}

/// One page of a size that is always the same: under what name it is allocated,
/// when it is accessed, and where the driver puts a block that it is asked for.
pub struct Round {
    /// The name that is asked for.
    pub name: Seq<char>,
    /// Time of the access.
    pub now: u64,
    /// The block that the driver hands out, if it is asked.
    pub block: u64,
}

/// What the pages of all rounds have in common.
pub struct Kind {
    /// Shape of the tensor.
    pub shape: Seq<usize>,
    /// Size of an element.
    pub element_size: usize,
    /// Tier that it is allocated in.
    pub tier: Tier,
    /// GPU that it is accessed from.
    pub gpu: int,
}

impl Kind {
    /// The pages of this kind can be had from the pool: they are not of the cold
    /// tier, their size is a number of the machine, and their GPU is known.
    pub open spec fn suits(self, pool: Pool) -> bool {
        &&& self.tier != Tier::Ssd
        &&& self.element_size > 0
        &&& vmt::sizable(self.shape, self.element_size)
        &&& model::shares_fit(self.bytes(), pool.dram.len() as int)
        &&& 0 <= self.gpu < pool.dram.len()
        &&& pool.index_of(pool.cluster.ordinals@[self.gpu]) == Some(self.gpu as usize)
    }

    /// Size of a page in bytes.
    pub open spec fn bytes(self) -> int {
        vmt::tensor_bytes(self.shape, self.element_size)
    }

    /// Size of the piece of a page that falls to the GPU.
    pub open spec fn piece(self, pool: Pool) -> usize {
        model::share(self.bytes(), pool.dram.len() as int, self.gpu) as usize
    }
}

/// No promotion is under way for a page of the name that is asked for, or of any
/// name that may be made up.
pub open spec fn can_be_named(pool: Pool, name: Seq<char>) -> bool {
    if name.len() > 0 {
        !pool.inflight.contains_key(name)
    } else {
        forall|id: u64| !pool.inflight.contains_key(#[trigger] vmt::generated_name(id))
    }
}

impl Machine {
    /// The machine once a page was allocated, accessed and dropped, if both the
    /// allocation and the access succeed.
    pub open spec fn round(self, kind: Kind, round: Round) -> Option<Machine> {
        let (pool, r) = self.pool.allocate(
            round.name,
            kind.shape,
            kind.element_size,
            kind.tier,
        );
        match r {
            Err(_) => None,
            Ok(given) => {
                let (after, r) = Machine { pool, ..self }.access(
                    given,
                    kind.gpu,
                    round.now,
                    round.block,
                );
                match r {
                    Err(_) => None,
                    Ok(_) => Some(Machine { pool: after.pool.released(given), ..after }),
                }
            },
        }
    }

    /// The machine after some rounds, if they all succeed.
    pub open spec fn rounds(self, kind: Kind, rounds: Seq<Round>) -> Option<Machine>
        decreases rounds.len(),
    {
        if rounds.len() == 0 {
            Some(self)
        } else {
            match self.rounds(kind, rounds.drop_last()) {
                None => None,
                Some(m) => m.round(kind, rounds.last()),
            }
        }
    }
}

/// Nothing but device blocks that can be used again, descriptors, counts and pages
/// that are gone tell the pools apart: the pages that there are, host memory and
/// storage are the same.
pub open spec fn same_but_for_blocks(a: Pool, b: Pool) -> bool {
    &&& forall|x: Seq<char>| #[trigger] a.has(x) ==> b.has(x) && a.page(x) == b.page(x)
    &&& a.cluster == b.cluster
    &&& a.dram == b.dram
    &&& a.spill == b.spill
    &&& a.inflight == b.inflight
    &&& a.rings.len() == b.rings.len()
    &&& a.vram_free.len() == b.vram_free.len()
}

/// A page that is allocated, accessed and dropped gives everything back: it is gone,
/// the other pages and host memory are as before, and the device block that it had
/// can be used again. Where there was a block of its size there are not more than
/// before, and else there is one.
pub proof fn law_accessed_page_gives_everything_back(m: Machine, kind: Kind, round: Round)
    requires
        m.pool.wf(),
        laws::apart(m.pool.dram),
        kind.suits(m.pool),
        can_be_named(m.pool, round.name),
        round.block != 0,
        m.round(kind, round) is Some,
    ensures
        ({
            let after = m.round(kind, round)->0.pool;
            let given = m.pool.registered(round.name, kind.shape, kind.element_size).0;
            let piece = kind.piece(m.pool);
            &&& after.wf()
            &&& same_but_for_blocks(after, m.pool)
            &&& after.table.pages == m.pool.table.pages.remove(given)
            &&& forall|g: int|
                0 <= g < m.pool.vram_free.len() && g != kind.gpu ==> #[trigger] after.vram_free[g]
                    == m.pool.vram_free[g]
            &&& forall|bytes: usize|
                bytes != piece ==> #[trigger] blocks_of(after.vram_free[kind.gpu], bytes)
                    == blocks_of(m.pool.vram_free[kind.gpu], bytes)
            &&& blocks_of(m.pool.vram_free[kind.gpu], piece) == 0 ==> blocks_of(
                after.vram_free[kind.gpu],
                piece,
            ) == 1
            &&& blocks_of(after.vram_free[kind.gpu], piece) <= blocks_of(
                m.pool.vram_free[kind.gpu],
                piece,
            ) || blocks_of(after.vram_free[kind.gpu], piece) == 1
        }),
{
    let total = kind.bytes();
    let gpu = kind.gpu;
    let n = m.pool.dram.len() as int;
    let (begun, r) = m.pool.allocate(round.name, kind.shape, kind.element_size, kind.tier);
    let given = r->Ok_0;
    vmt::lemma_tensor_bytes_nonnegative(kind.shape, kind.element_size);
    model::lemma_first_refusal(m.pool.dram, total, 0);
    model::lemma_share_bounds(total, n, gpu);
    assert(!m.pool.inflight.contains_key(given));
    laws::law_deallocate_undoes_allocate(
        m.pool,
        round.name,
        kind.shape,
        kind.element_size,
        kind.tier,
        given,
    );
    let page = begun.page(given);
    assert(page.dram_chunks == model::host_pieces(m.pool.dram, total, n));
    let piece = page.dram_chunks[gpu];
    assert(piece.size_bytes == kind.piece(m.pool));
    let a = Machine { pool: begun, ..m };
    let (up, result) = a.access(given, gpu, round.now, round.block);
    lemma_host_access(a, given, gpu, round.now, round.block);
    let dst = result->Ok_0;
    let taken = if begun.has_block(gpu, piece.size_bytes) {
        begun.without_block(gpu, piece.size_bytes)
    } else {
        begun
    };
    let after = up.pool.released(given);
    let chunks = up.pool.page(given).vram_chunks;
    assert(m.pool.cluster.ordinals@.len() == m.pool.cluster.ordinals.len());
    assert(chunks.len() == 1);
    assert(up.pool.index_of(chunks.last().gpu_ordinal) == Some(gpu as usize));
    assert(chunks.drop_last() =~= Seq::<Chunk>::empty());
    assert(up.pool.with_blocks(chunks.drop_last()) == up.pool);
    assert(up.pool.with_blocks(chunks) == up.pool.with_block(gpu, dst, piece.size_bytes));
    assert(after.dram =~= begun.released(given).dram);
    assert(after.table.pages =~= m.pool.table.pages.remove(given));
    let before = m.pool.vram_free[gpu];
    let left = taken.vram_free[gpu];
    let back = after.vram_free[gpu];
    model::lemma_first_of_size(before, piece.size_bytes);
    lemma_none_of_size(before, piece.size_bytes);
    lemma_none_of_size(left, piece.size_bytes);
    assert forall|bytes: usize| bytes != piece.size_bytes implies #[trigger] blocks_of(back, bytes)
        == blocks_of(before, bytes) by {
        if begun.has_block(gpu, piece.size_bytes) {
            lemma_block_is_taken(begun, gpu, piece.size_bytes, bytes);
        }
        if dst != 0 {
            assert(back.drop_last() =~= left);
        }
    }
    if begun.has_block(gpu, piece.size_bytes) {
        lemma_block_is_taken(begun, gpu, piece.size_bytes, piece.size_bytes);
    }
    if dst != 0 {
        assert(back.drop_last() =~= left);
    }
}

/// An access to a page that is in host memory and has not been accessed yet ends
/// with the page in a device block, and leaves the rest as it is.
proof fn lemma_host_access(m: Machine, name: Seq<char>, gpu: int, now: u64, block: u64)
    requires
        m.pool.accessible(name),
        !m.pool.inflight.contains_key(name),
        m.pool.page(name).tier != Tier::Ssd,
        m.pool.page(name).vram_chunks.len() == 0,
        0 <= gpu < m.pool.page(name).dram_chunks.len(),
        0 <= gpu < m.pool.rings.len(),
        m.access(name, gpu, now, block).1 is Ok,
    ensures
        ({
            let (after, r) = m.access(name, gpu, now, block);
            let bytes = m.pool.page(name).dram_chunks[gpu].size_bytes;
            let pool = m.pool.counted(name);
            let had = m.pool.has_block(gpu, bytes);
            let taken = if had {
                pool.without_block(gpu, bytes)
            } else {
                pool
            };
            let dst = if had {
                pool.block_for(gpu, bytes)
            } else {
                block
            };
            &&& r == Ok::<u64, Failure>(dst)
            &&& after.pool == (Pool {
                rings: after.pool.rings,
                ..taken.arrived(name, gpu, dst, bytes, now)
            })
            &&& after.pool.rings.len() == m.pool.rings.len()
        }),
{
    reveal_with_fuel(Machine::run_access, 3);
}

/// However often a page of one size is allocated, accessed and dropped, host memory
/// is as before, and at most one device block of that size can be used again, or as
/// many as there were before if those were more: a pool's capacity is a budget for
/// what is live, not for a lifetime.
pub proof fn law_rounds_leave_one_block(m: Machine, kind: Kind, rounds: Seq<Round>)
    requires
        m.pool.wf(),
        laws::apart(m.pool.dram),
        kind.suits(m.pool),
        forall|i: int|
            0 <= i < rounds.len() ==> can_be_named(m.pool, (#[trigger] rounds[i]).name)
                && rounds[i].block != 0,
        m.rounds(kind, rounds) is Some,
    ensures
        ({
            let after = m.rounds(kind, rounds)->0.pool;
            let left = blocks_of(after.vram_free[kind.gpu], kind.piece(m.pool));
            &&& after.wf()
            &&& same_but_for_blocks(after, m.pool)
            &&& left <= 1 || left <= blocks_of(m.pool.vram_free[kind.gpu], kind.piece(m.pool))
        }),
    decreases rounds.len(),
{
    if rounds.len() > 0 {
        let init = rounds.drop_last();
        assert forall|i: int| 0 <= i < init.len() implies can_be_named(
            m.pool,
            (#[trigger] init[i]).name,
        ) && init[i].block != 0 by {
            assert(init[i] == rounds[i]);
        }
        law_rounds_leave_one_block(m, kind, init);
        let before = m.rounds(kind, init)->0;
        assert(can_be_named(m.pool, rounds[rounds.len() - 1].name));
        assert(can_be_named(before.pool, rounds.last().name));
        law_accessed_page_gives_everything_back(before, kind, rounds.last());
    }
}

} // verus!
