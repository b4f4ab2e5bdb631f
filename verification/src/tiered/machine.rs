//! A pool together with the memories that it keeps the books of, and what comes
//! of its operations when the work that they name is done: what is written to a
//! page is what an access brings to the device.

use crate::error::Failure;
use crate::gpu;
use crate::ranges::{self, ALIGN};
use crate::tiered::access::{self, Source, Step, Work};
use crate::tiered::demote::{Retreat, WriteBack};
use crate::tiered::dram::Dram;
use crate::tiered::fill::{self, Filling, HostCopy};
use crate::tiered::laws;
use crate::tiered::model::{self, Pool};
use crate::tiered::prefetch::{CopyStart, PrefetchStep};
use crate::tiered::soundness;
use crate::vmt::{self, Chunk, DramChunk, PageState, PageView, Tier};
use vstd::prelude::*;

verus! {

/// What each address of a memory holds.
pub type Memory = spec_fn(int) -> u8;

/// Memory once `bytes` bytes from address `src` on of `from` were copied to
/// address `dst` on.
pub open spec fn copied(memory: Memory, from: Memory, src: int, dst: int, bytes: int) -> Memory {
    |x: int|
        if dst <= x < dst + bytes {
            from(x - dst + src)
        } else {
            memory(x)
        }
}

/// Data as memory that starts at address zero.
pub open spec fn as_memory(data: Seq<u8>) -> Memory {
    |x: int| data[x]
}

/// A pool, the host memory, the backing file and the memory of each GPU.
#[verifier::ext_equal]
pub struct Machine {
    /// The pool.
    pub pool: Pool,
    /// Host memory.
    pub host: Memory,
    /// The backing file of the cold tier.
    pub file: Memory,
    /// The memory of each GPU, by index.
    pub device: spec_fn(int) -> Memory,
}

/// How much work is left at most in an access: it goes down with every step.
pub open spec fn effort(step: Step) -> nat {
    match step {
        Step::Finished(_) => 0,
        Step::Pending(Work::AwaitPrefetch { .. }) => 1,
        Step::Pending(Work::Copy { .. }) => 1,
        Step::Pending(Work::AllocateBlock { bytes, .. }) => (bytes + 2) as nat,
        Step::Pending(Work::Stream { total, done, .. }) => if done <= total {
            (total - done + 1) as nat
        } else {
            1
        },
    }
}

impl Machine {
    /// The machine with other contents in the memory of GPU `gpu`.
    pub open spec fn with_device(self, gpu: int, contents: Memory) -> Machine {
        Machine {
            device: |g: int|
                if g == gpu {
                    contents
                } else {
                    (self.device)(g)
                },
            ..self
        }
    }

    /// The machine once the work of an access from GPU `gpu` is done. A page
    /// that was started on ahead of need has been copied already.
    pub open spec fn done(self, gpu: int, work: Work) -> Machine {
        match work {
            Work::AwaitPrefetch { .. } => self,
            Work::AllocateBlock { .. } => self,
            Work::Copy { source, dst, bytes } => match source {
                Source::Peer { gpu: from, ptr } => self.with_device(
                    gpu,
                    copied(
                        (self.device)(gpu),
                        (self.device)(from as int),
                        ptr as int,
                        dst as int,
                        bytes as int,
                    ),
                ),
                Source::Host { host_ptr } => self.with_device(
                    gpu,
                    copied(
                        (self.device)(gpu),
                        self.host,
                        host_ptr as int,
                        dst as int,
                        bytes as int,
                    ),
                ),
                Source::Spill { .. } => self,
            },
            Work::Stream { offset, stage_ptr, dst, done, bytes, .. } => {
                let host = copied(
                    self.host,
                    self.file,
                    offset + done,
                    stage_ptr as int,
                    bytes as int,
                );
                Machine { host, ..self }.with_device(
                    gpu,
                    copied(
                        (self.device)(gpu),
                        host,
                        stage_ptr as int,
                        dst + done,
                        bytes as int,
                    ),
                )
            },
        }
    }

    /// The machine once an access has run to its end from `step` on, and the
    /// result of the access. All work succeeds, and a block that has to be
    /// allocated is the one at `block`.
    pub open spec fn run_access(
        self,
        name: Seq<char>,
        gpu: int,
        now: u64,
        step: Step,
        block: u64,
    ) -> (Machine, Result<u64, Failure>)
        decreases effort(step),
        when step matches Step::Pending(w) ==> self.pool.fits(name, gpu, w)
        via Self::access_comes_to_an_end
    {
        match step {
            Step::Finished(r) => (self, r),
            Step::Pending(work) => {
                let after = self.done(gpu, work);
                let (pool, next) = after.pool.resume_access(name, gpu, now, work, Ok(block));
                Machine { pool, ..after }.run_access(name, gpu, now, next, block)
            },
        }
    }

    #[via_fn]
    proof fn access_comes_to_an_end(
        self,
        name: Seq<char>,
        gpu: int,
        now: u64,
        step: Step,
        block: u64,
    ) {
        if let Step::Pending(work) = step {
            lemma_effort_goes_down(self.done(gpu, work).pool, name, gpu, now, work, block);
        }
    }

    /// The machine after an access to a page from GPU `gpu`, and its result.
    pub open spec fn access(self, name: Seq<char>, gpu: int, now: u64, block: u64) -> (
        Machine,
        Result<u64, Failure>,
    ) {
        let (pool, step) = self.pool.access(name, gpu, now);
        Machine { pool, ..self }.run_access(name, gpu, now, step, block)
    }

    /// The machine once data was written to a page, where it can be.
    pub open spec fn write(self, name: Seq<char>, data: Seq<u8>) -> Machine {
        match self.pool.write_page(name, data.len() as usize) {
            Filling::ToSpill { offset, bytes } => Machine {
                file: copied(self.file, as_memory(data), 0, offset as int, bytes as int),
                ..self
            },
            Filling::ToHost { copies, .. } => Machine {
                host: filled(self.host, data, copies),
                ..self
            },
            _ => self,
        }
    }
}

proof fn lemma_effort_goes_down(
    pool: Pool,
    name: Seq<char>,
    gpu: int,
    now: u64,
    work: Work,
    block: u64,
)
    requires
        pool.fits(name, gpu, work),
    ensures
        effort(pool.resume_access(name, gpu, now, work, Ok(block)).1) < effort(
            Step::Pending(work),
        ),
{
}

/// An access goes on with what comes of its work.
proof fn lemma_access_goes_on(
    m: Machine,
    name: Seq<char>,
    gpu: int,
    now: u64,
    work: Work,
    block: u64,
)
    requires
        m.pool.accessible(name),
        m.pool.fits(name, gpu, work),
    ensures
        ({
            let after = m.done(gpu, work);
            let (pool, next) = after.pool.resume_access(name, gpu, now, work, Ok(block));
            m.run_access(name, gpu, now, Step::Pending(work), block) == Machine {
                pool,
                ..after
            }.run_access(name, gpu, now, next, block)
        }),
{
    if let Work::AllocateBlock { bytes, source } = work {
        let d = m.pool.dram[gpu];
        access::lemma_staging_size(d, bytes as int);
        assert(m.pool.stages_itself(name, gpu, bytes) || d.answer(
            access::staging_size(d, bytes as int),
        ) is Ok || d.answer(access::staging_size(d, bytes as int)) is Err);
    }
}

/// The device holds what the file holds, for the bytes that are streamed
/// already, and will for all of them once the stream is at its end.
proof fn lemma_stream_copies(
    m: Machine,
    name: Seq<char>,
    gpu: int,
    now: u64,
    work: Work,
    block: u64,
    i: int,
)
    requires
        work is Stream,
        m.pool.fits(name, gpu, work),
        0 <= i < work->total,
        i < work->done ==> (m.device)(gpu)(work->Stream_dst + i) == (m.file)(
            work->Stream_offset + i,
        ),
    ensures
        ({
            let (after, r) = m.run_access(name, gpu, now, Step::Pending(work), block);
            &&& r == Ok::<u64, Failure>(work->Stream_dst)
            &&& (after.device)(gpu)(work->Stream_dst + i) == (m.file)(work->Stream_offset + i)
        }),
    decreases work->total - work->done,
{
    reveal_with_fuel(Machine::run_access, 2);
    let after = m.done(gpu, work);
    let (pool, next) = after.pool.resume_access(name, gpu, now, work, Ok(block));
    let ahead = Machine { pool, ..after };
    let dst = work->Stream_dst;
    let offset = work->Stream_offset;
    let done = work->done;
    let bytes = work->Stream_bytes;
    let x = dst + i;
    if done <= i < done + bytes {
        assert(x - (dst + done) + work->stage_ptr == work->stage_ptr + (i - done));
        assert((after.host)(work->stage_ptr + (i - done)) == (m.file)(
            work->stage_ptr + (i - done) - work->stage_ptr + (offset + done),
        ));
        assert(work->stage_ptr + (i - done) - work->stage_ptr + (offset + done) == offset + i);
    }
    if let Step::Pending(w) = next {
        assert(w->done == done + bytes);
        if bytes == 0 {
            assert(work->stage_len == 0);
        }
        lemma_stream_copies(ahead, name, gpu, now, w, block, i);
    } else {
        assert(done + bytes == work->total);
    }
}
/// Host memory once all runs of `copies` were copied out of the data.
pub open spec fn filled(
    host: Memory,
    data: Seq<u8>,
    copies: Seq<HostCopy>,
) -> Memory
    decreases copies.len(),
{
    if copies.len() == 0 {
        host
    } else {
        let c = copies.last();
        copied(
            filled(host, data, copies.drop_last()),
            as_memory(data),
            c.from as int,
            c.host_ptr as int,
            c.bytes as int,
        )
    }
}

/// Address `x` lies in a piece of host memory.
pub open spec fn within(piece: DramChunk, x: int) -> bool {
    piece.host_ptr <= x < piece.host_ptr + piece.size_bytes
}

/// The pieces of a page lie apart from each other.
pub open spec fn pieces_apart(pieces: Seq<DramChunk>) -> bool {
    forall|i: int, j: int, x: int|
        #![trigger within(pieces[i], x), within(pieces[j], x)]
        0 <= i < pieces.len() && 0 <= j < pieces.len() && within(pieces[i], x) && within(
            pieces[j],
            x,
        ) ==> i == j
}

/// What is written to a page in host memory is what its pieces hold, in order.
proof fn lemma_runs_fill_the_pieces(
    host: Memory,
    data: Seq<u8>,
    chunks: Seq<DramChunk>,
    total: int,
    g: int,
    j: int,
)
    requires
        pieces_apart(chunks),
        data.len() == total,
        fill::room(chunks) <= total <= usize::MAX,
        0 <= g < chunks.len(),
        0 <= j < chunks[g].size_bytes,
    ensures
        filled(host, data, fill::runs(chunks, total))(chunks[g].host_ptr + j)
            == data[fill::room(chunks.take(g)) + j],
        0 <= fill::room(chunks.take(g)) + j < total,
    decreases chunks.len(),
{
    let init = chunks.drop_last();
    fill::law_runs_cover_the_page(init, total);
    fill::law_runs_cover_the_page(chunks, total);
    let before = fill::covered(init, total);
    let after = fill::covered(chunks, total);
    let runs = fill::runs(chunks, total);
    assert(fill::room(chunks) == fill::room(init) + chunks.last().size_bytes);
    assert(before == fill::room(init));
    assert(after == fill::room(chunks));
    if after > before {
        assert(runs.drop_last() =~= fill::runs(init, total));
    }
    let x = chunks[g].host_ptr + j;
    if g == chunks.len() - 1 {
        assert(chunks.take(g) =~= init);
        assert(after > before);
        let c = runs.last();
        assert(c.from == before && c.bytes == chunks.last().size_bytes);
        assert(x - c.host_ptr + c.from == fill::room(chunks.take(g)) + j);
    } else {
        assert(init[g] == chunks[g]);
        assert(init.take(g) =~= chunks.take(g));
        assert(pieces_apart(init)) by {
            assert forall|a: int, b: int, y: int|
                #![trigger within(init[a], y), within(init[b], y)]
                0 <= a < init.len() && 0 <= b < init.len() && within(init[a], y) && within(
                    init[b],
                    y,
                ) implies a == b by {
                assert(within(chunks[a], y) && within(chunks[b], y));
            }
        }
        lemma_runs_fill_the_pieces(host, data, init, total, g, j);
        if after > before {
            let c = runs.last();
            assert(within(chunks[g], x));
            assert(!within(chunks[chunks.len() - 1], x));
            assert(!(c.host_ptr <= x < c.host_ptr + c.bytes));
        }
    }
}

/// An access to a page of the cold tier runs to its end from the moment that it
/// has a device block.
proof fn lemma_cold_access(
    m: Machine,
    name: Seq<char>,
    gpu: int,
    now: u64,
    dst: u64,
    total: usize,
    offset: u64,
    block: u64,
)
    requires
        m.pool.wf(),
        0 <= gpu < m.pool.dram.len(),
        m.pool.spill is Some,
        m.pool.streamable(name, gpu, total),
    ensures
        ({
            let (pool, step) = m.pool.start_stream(name, gpu, dst, total, offset);
            let (after, r) = Machine { pool, ..m }.run_access(name, gpu, now, step, block);
            match m.pool.staging_refusal(name, gpu, total) {
                Some(e) => r == Err::<u64, Failure>(e),
                None => {
                    &&& r == Ok::<u64, Failure>(dst)
                    &&& forall|i: int|
                        0 <= i < total ==> #[trigger] (after.device)(gpu)(dst + i) == (m.file)(
                            offset + i,
                        )
                },
            }
        }),
{
    reveal_with_fuel(Machine::run_access, 2);
    access::lemma_staging_size(m.pool.dram[gpu], total as int);
    let (pool, step) = m.pool.start_stream(name, gpu, dst, total, offset);
    let begun = Machine { pool, ..m };
    if let Step::Pending(work) = step {
        assert(pool.fits(name, gpu, work));
        let after = begun.run_access(name, gpu, now, step, block).0;
        assert forall|i: int| 0 <= i < total implies #[trigger] (after.device)(gpu)(dst + i) == (
        m.file)(offset + i) by {
            lemma_stream_copies(begun, name, gpu, now, work, block, i);
        }
        if total > 0 {
            lemma_stream_copies(begun, name, gpu, now, work, block, 0);
        }
    }
}

impl Pool {
    /// Why there is no staging buffer for a page of the cold tier, where there is
    /// none: the host pool of the GPU refuses even the least size.
    pub open spec fn staging_refusal(self, name: Seq<char>, gpu: int, total: usize) -> Option<
        Failure,
    > {
        let d = self.dram[gpu];
        if self.stages_itself(name, gpu, total) {
            None
        } else {
            match d.answer(access::staging_size(d, total as int)) {
                Ok(_) => None,
                Err(e) => Some(e@),
            }
        }
    }
}

/// What is written to a page of the cold tier is what an access from any GPU
/// brings to it, byte for byte, also where the page is larger than all of host
/// memory. The access fails only where there is no room for a staging buffer.
pub proof fn law_cold_page_reads_back_what_was_written(
    m: Machine,
    name: Seq<char>,
    data: Seq<u8>,
    gpu: int,
    now: u64,
    block: u64,
)
    requires
        m.pool.wf(),
        m.pool.accessible(name),
        !m.pool.inflight.contains_key(name),
        m.pool.page(name).tier == Tier::Ssd,
        m.pool.page(name).ssd_offset is Some,
        m.pool.spill is Some,
        0 <= gpu < m.pool.cluster.ordinals@.len(),
        m.pool.streamable(name, gpu, m.pool.page(name).size_bytes),
        data.len() == m.pool.page(name).size_bytes,
    ensures
        ({
            let (after, r) = m.write(name, data).access(name, gpu, now, block);
            match m.pool.staging_refusal(name, gpu, m.pool.page(name).size_bytes) {
                Some(e) => r == Err::<u64, Failure>(e),
                None => match r {
                    Ok(ptr) => forall|i: int|
                        0 <= i < data.len() ==> #[trigger] (after.device)(gpu)(ptr + i) == data[i],
                    Err(_) => false,
                },
            }
        }),
{
    reveal_with_fuel(Machine::run_access, 2);
    let w = m.write(name, data);
    let page = m.pool.page(name);
    let total = page.size_bytes;
    let offset = page.ssd_offset->0;
    let pool = w.pool.counted(name);
    assert(w.pool.access(name, gpu, now) == pool.find_block(
        name,
        gpu,
        total,
        Source::Spill { offset },
    ));
    let (after, r) = w.access(name, gpu, now, block);
    let dst = if pool.has_block(gpu, total) {
        pool.block_for(gpu, total)
    } else {
        block
    };
    let ready = if pool.has_block(gpu, total) {
        pool.without_block(gpu, total)
    } else {
        pool
    };
    let begun = Machine { pool: ready, ..w };
    lemma_cold_access(begun, name, gpu, now, dst, total, offset, block);
    let (streaming, step) = ready.start_stream(name, gpu, dst, total, offset);
    let streamer = Machine { pool: streaming, ..w };
    if !pool.has_block(gpu, total) {
        let work = Work::AllocateBlock { bytes: total, source: Source::Spill { offset } };
        let first = Step::Pending(work);
        assert(w.pool.access(name, gpu, now) == (pool, first));
        assert(pool.fits(name, gpu, work));
        assert(begun.done(gpu, work) == begun);
        assert(pool.resume_access(name, gpu, now, work, Ok(block)) == (streaming, step));
        lemma_access_goes_on(begun, name, gpu, now, work, block);
    }
    assert((after, r) == streamer.run_access(name, gpu, now, step, block));
    assert(ready.staging_refusal(name, gpu, total) == m.pool.staging_refusal(name, gpu, total));
    if let Ok(ptr) = r {
        assert forall|i: int| 0 <= i < data.len() implies #[trigger] (after.device)(gpu)(ptr + i)
            == data[i] by {
            assert((w.file)(offset + i) == as_memory(data)(offset + i - offset + 0));
            assert(offset + i - offset + 0 == i);
        }
    }
}

/// An access takes the page from host memory: the page is there, or it is to be
/// on a device and is on none yet.
pub open spec fn comes_from_host(page: PageView) -> bool {
    page.tier == Tier::Dram || page.tier == Tier::Vram && page.vram_chunks.len() == 0
}

/// An access to a page in host memory brings the piece of its GPU to the device.
proof fn lemma_warm_access(m: Machine, name: Seq<char>, gpu: int, now: u64, block: u64)
    requires
        m.pool.accessible(name),
        !m.pool.inflight.contains_key(name),
        comes_from_host(m.pool.page(name)),
        0 <= gpu < m.pool.page(name).dram_chunks.len(),
    ensures
        ({
            let piece = m.pool.page(name).dram_chunks[gpu];
            let (after, r) = m.access(name, gpu, now, block);
            if m.pool.rings[gpu].full() {
                r == Err::<u64, Failure>(Failure::DmaRingFull)
            } else {
                match r {
                    Ok(ptr) => forall|j: int|
                        0 <= j < piece.size_bytes ==> #[trigger] (after.device)(gpu)(ptr + j) == (
                        m.host)(piece.host_ptr + j),
                    Err(_) => false,
                }
            }
        }),
{
    reveal_with_fuel(Machine::run_access, 3);
    let piece = m.pool.page(name).dram_chunks[gpu];
    let pool = m.pool.counted(name);
    let source = Source::Host { host_ptr: piece.host_ptr };
    assert(m.pool.access(name, gpu, now) == pool.find_block(name, gpu, piece.size_bytes, source));
    let (after, r) = m.access(name, gpu, now, block);
    if let Ok(ptr) = r {
        assert forall|j: int| 0 <= j < piece.size_bytes implies #[trigger] (after.device)(gpu)(
            ptr + j,
        ) == (m.host)(piece.host_ptr + j) by {
            assert(ptr + j - ptr + piece.host_ptr == piece.host_ptr + j);
        }
    }
}

/// What is written to a page in host memory is what an access brings to a GPU:
/// the part of the data that falls to the piece of that GPU, which follows the
/// parts of the GPUs before it. The access fails only where the DMA ring of the
/// GPU is full.
pub proof fn law_warm_page_reads_back_what_was_written(
    m: Machine,
    name: Seq<char>,
    data: Seq<u8>,
    gpu: int,
    now: u64,
    block: u64,
)
    requires
        m.pool.wf(),
        m.pool.accessible(name),
        !m.pool.inflight.contains_key(name),
        comes_from_host(m.pool.page(name)),
        pieces_apart(m.pool.page(name).dram_chunks),
        fill::room(m.pool.page(name).dram_chunks) <= m.pool.page(name).size_bytes,
        0 <= gpu < m.pool.page(name).dram_chunks.len(),
        gpu < m.pool.cluster.ordinals@.len(),
        data.len() == m.pool.page(name).size_bytes,
    ensures
        ({
            let pieces = m.pool.page(name).dram_chunks;
            let (after, r) = m.write(name, data).access(name, gpu, now, block);
            if m.pool.rings[gpu].full() {
                r == Err::<u64, Failure>(Failure::DmaRingFull)
            } else {
                match r {
                    Ok(ptr) => forall|j: int|
                        0 <= j < pieces[gpu].size_bytes ==> #[trigger] (after.device)(gpu)(ptr + j)
                            == data[fill::room(pieces.take(gpu)) + j],
                    Err(_) => false,
                }
            }
        }),
{
    let w = m.write(name, data);
    let page = m.pool.page(name);
    let pieces = page.dram_chunks;
    lemma_warm_access(w, name, gpu, now, block);
    let (after, r) = w.access(name, gpu, now, block);
    if let Ok(ptr) = r {
        assert forall|j: int| 0 <= j < pieces[gpu].size_bytes implies #[trigger] (after.device)(
            gpu,
        )(ptr + j) == data[fill::room(pieces.take(gpu)) + j] by {
            lemma_runs_fill_the_pieces(m.host, data, pieces, page.size_bytes as int, gpu, j);
        }
    }
}

/// A page that is on another GPU only is brought over from there, byte for byte.
pub proof fn law_page_of_another_gpu_is_brought_over(
    m: Machine,
    name: Seq<char>,
    gpu: int,
    now: u64,
    block: u64,
)
    requires
        m.pool.wf(),
        m.pool.accessible(name),
        !m.pool.inflight.contains_key(name),
        m.pool.page(name).tier == Tier::Vram,
        m.pool.page(name).vram_chunks.len() > 0,
        0 <= gpu < m.pool.cluster.ordinals@.len(),
        m.pool.index_of(m.pool.page(name).vram_chunks[0].gpu_ordinal) is Some,
        model::first_on(m.pool.page(name).vram_chunks, m.pool.cluster.ordinals@[gpu])
            == m.pool.page(name).vram_chunks.len(),
    ensures
        ({
            let chunk = m.pool.page(name).vram_chunks[0];
            let from = m.pool.index_of(chunk.gpu_ordinal)->0 as int;
            let (after, r) = m.access(name, gpu, now, block);
            match r {
                Ok(ptr) => forall|j: int|
                    0 <= j < chunk.size_bytes ==> #[trigger] (after.device)(gpu)(ptr + j) == (
                    m.device)(from)(chunk.device_ptr + j),
                Err(_) => false,
            }
        }),
{
    reveal_with_fuel(Machine::run_access, 3);
    let chunks = m.pool.page(name).vram_chunks;
    let chunk = chunks[0];
    let from = m.pool.index_of(chunk.gpu_ordinal)->0;
    let ordinal = m.pool.cluster.ordinals@[gpu];
    assert(chunk.gpu_ordinal != ordinal);
    let pool = m.pool.counted(name);
    let source = Source::Peer { gpu: from, ptr: chunk.device_ptr };
    assert(m.pool.access(name, gpu, now) == pool.find_block(name, gpu, chunk.size_bytes, source));
    let (after, r) = m.access(name, gpu, now, block);
    if let Ok(ptr) = r {
        assert forall|j: int| 0 <= j < chunk.size_bytes implies #[trigger] (after.device)(gpu)(
            ptr + j,
        ) == (m.device)(from as int)(chunk.device_ptr + j) by {
            assert(ptr + j - ptr + chunk.device_ptr == chunk.device_ptr + j);
        }
    }
}

/// A page once it is in host memory and on no device.
pub open spec fn in_host_memory(page: PageView) -> PageView {
    PageView {
        vram_chunks: Seq::empty(),
        tier: Tier::Dram,
        state: PageState::Warm,
        access_count: 0,
        ..page
    }
}

/// How many pieces of a page are left to write back.
pub open spec fn pieces_left(pool: Pool, name: Seq<char>, step: Retreat) -> int {
    match step {
        Retreat::Pending(w) => pool.page(name).vram_chunks.len() - w.index,
        Retreat::Finished(_) => 0,
    }
}

impl Machine {
    /// The machine once a piece is written back.
    pub open spec fn written_back(self, w: WriteBack) -> Machine {
        Machine {
            host: copied(
                self.host,
                (self.device)(w.gpu_idx as int),
                w.device_ptr as int,
                w.host_ptr as int,
                w.bytes as int,
            ),
            ..self
        }
    }

    /// The machine once a demotion has run to its end from `step` on, and the
    /// result of the demotion. All work succeeds.
    pub open spec fn run_demote(self, name: Seq<char>, step: Retreat) -> (
        Machine,
        Result<(), Failure>,
    )
        decreases pieces_left(self.pool, name, step),
        when step matches Retreat::Pending(w) ==> w.index < self.pool.page(name).vram_chunks.len()
            <= usize::MAX
    {
        match step {
            Retreat::Finished(r) => (self, r),
            Retreat::Pending(w) => {
                let after = self.written_back(w);
                let (pool, next) = after.pool.resume_demote(name, w, Ok(()));
                Machine { pool, ..after }.run_demote(name, next)
            },
        }
    }

    /// The machine after the demotion of a page, and its result.
    pub open spec fn demote(self, name: Seq<char>) -> (Machine, Result<(), Failure>) {
        let (pool, step) = self.pool.demote(name);
        Machine { pool, ..self }.run_demote(name, step)
    }
}

/// No two of the device blocks are on the same GPU.
pub open spec fn on_different_gpus(pool: Pool, chunks: Seq<Chunk>) -> bool {
    forall|i: int, j: int|
        #![trigger chunks[i], chunks[j]]
        0 <= i < j < chunks.len() ==> pool.index_of(chunks[i].gpu_ordinal) != pool.index_of(
            chunks[j].gpu_ordinal,
        )
}

/// The host piece of the GPU of device block `i` of a page.
pub open spec fn backing(pool: Pool, name: Seq<char>, i: int) -> DramChunk {
    pool.page(name).dram_chunks[pool.index_of(
        pool.page(name).vram_chunks[i].gpu_ordinal,
    )->0 as int]
}

/// Host memory holds what device block `i` of a page holds.
pub open spec fn is_backed_up(
    m: Machine,
    host: Memory,
    name: Seq<char>,
    i: int,
) -> bool {
    let chunk = m.pool.page(name).vram_chunks[i];
    let gpu = m.pool.index_of(chunk.gpu_ordinal);
    &&& gpu is Some
    &&& gpu->0 < m.pool.page(name).dram_chunks.len()
    &&& chunk.size_bytes <= backing(m.pool, name, i).size_bytes
    &&& forall|j: int|
        0 <= j < chunk.size_bytes ==> #[trigger] host(backing(m.pool, name, i).host_ptr + j) == (
        m.device)(gpu->0 as int)(chunk.device_ptr + j)
}

proof fn lemma_demotion_backs_up(
    start: Machine,
    m: Machine,
    name: Seq<char>,
    k: int,
)
    requires
        m.pool.has(name),
        0 <= k <= m.pool.page(name).vram_chunks.len() <= usize::MAX,
        on_different_gpus(m.pool, m.pool.page(name).vram_chunks),
        pieces_apart(m.pool.page(name).dram_chunks),
        m.device == start.device,
        m.pool.page(name) == start.pool.page(name),
        m.pool.cluster == start.pool.cluster,
        forall|i: int| 0 <= i < k ==> is_backed_up(start, m.host, name, i),
    ensures
        ({
            let (pool, step) = m.pool.write_back(name, k);
            let (after, r) = Machine { pool, ..m }.run_demote(name, step);
            &&& after.device == start.device
            &&& r is Ok ==> {
                &&& after.pool.has(name)
                &&& after.pool.inflight == m.pool.inflight
                &&& after.pool.page(name) == in_host_memory(start.pool.page(name))
                &&& forall|i: int|
                    0 <= i < start.pool.page(name).vram_chunks.len() ==> is_backed_up(
                        start,
                        after.host,
                        name,
                        i,
                    )
            }
        }),
    decreases m.pool.page(name).vram_chunks.len() - k,
{
    reveal_with_fuel(Machine::run_demote, 2);
    let chunks = m.pool.page(name).vram_chunks;
    let pieces = m.pool.page(name).dram_chunks;
    let (pool, step) = m.pool.write_back(name, k);
    if let Retreat::Pending(w) = step {
        let begun = Machine { pool, ..m };
        let after = begun.written_back(w);
        let freed = after.pool.with_block(w.gpu_idx as int, w.device_ptr, w.bytes);
        let ahead = Machine { pool: freed, ..after };
        assert forall|i: int| 0 <= i < k + 1 implies is_backed_up(start, ahead.host, name, i) by {
            let chunk = chunks[i];
            let g = m.pool.index_of(chunk.gpu_ordinal)->0 as int;
            if i < k {
                assert(is_backed_up(start, m.host, name, i));
            } else {
                assert(pool.page(name) == m.pool.page(name));
                assert(w.gpu_idx == g);
            }
            assert forall|j: int| 0 <= j < chunk.size_bytes implies #[trigger] (ahead.host)(
                backing(start.pool, name, i).host_ptr + j,
            ) == (start.device)(g)(chunk.device_ptr + j) by {
                let x = backing(start.pool, name, i).host_ptr + j;
                if i == k {
                    assert(x - w.host_ptr + w.device_ptr == chunk.device_ptr + j);
                } else {
                    assert(is_backed_up(start, m.host, name, i));
                    assert((m.host)(x) == (start.device)(g)(chunk.device_ptr + j));
                    assert(chunks[i].gpu_ordinal != chunks[k].gpu_ordinal);
                    assert(within(pieces[g], x));
                    assert(!within(pieces[w.gpu_idx as int], x));
                }
            }
        }
        lemma_demotion_backs_up(start, ahead, name, k + 1);
    }
}

/// A demotion writes back what the devices hold: where it succeeds, every device
/// block of the page is found in the host memory of its GPU, byte for byte. The
/// devices keep what they hold.
pub proof fn law_demotion_writes_back(m: Machine, name: Seq<char>)
    requires
        m.pool.has(name),
        m.pool.page(name).tier == Tier::Vram,
        !m.pool.page(name).pinned,
        m.pool.page(name).vram_chunks.len() <= usize::MAX,
        on_different_gpus(m.pool, m.pool.page(name).vram_chunks),
        pieces_apart(m.pool.page(name).dram_chunks),
    ensures
        ({
            let (after, r) = m.demote(name);
            &&& after.device == m.device
            &&& r is Ok ==> {
                &&& after.pool.has(name)
                &&& after.pool.inflight == m.pool.inflight
                &&& after.pool.page(name) == in_host_memory(m.pool.page(name))
                &&& forall|i: int|
                    0 <= i < m.pool.page(name).vram_chunks.len() ==> is_backed_up(
                        m,
                        after.host,
                        name,
                        i,
                    )
            }
        }),
{
    lemma_demotion_backs_up(m, m, name, 0);
}

/// Device block `i` of a page can be written back: its GPU is known and has a
/// piece of host memory that it fits, and the DMA ring of the GPU has room.
pub open spec fn can_be_written_back(pool: Pool, name: Seq<char>, i: int) -> bool {
    let chunk = pool.page(name).vram_chunks[i];
    let gpu = pool.index_of(chunk.gpu_ordinal);
    &&& gpu is Some
    &&& gpu->0 < pool.page(name).dram_chunks.len()
    &&& chunk.size_bytes <= backing(pool, name, i).size_bytes
    &&& !pool.rings[gpu->0 as int].full()
}

/// A demotion succeeds where every device block of the page can be written back.
pub proof fn law_demotion_succeeds(m: Machine, name: Seq<char>)
    requires
        m.pool.wf(),
        m.pool.has(name),
        m.pool.page(name).vram_chunks.len() <= usize::MAX,
        on_different_gpus(m.pool, m.pool.page(name).vram_chunks),
        forall|i: int|
            0 <= i < m.pool.page(name).vram_chunks.len() ==> #[trigger] can_be_written_back(
                m.pool,
                name,
                i,
            ),
    ensures
        m.demote(name).1 == Ok::<(), Failure>(()),
{
    lemma_demotion_succeeds(m, name, 0);
}

proof fn lemma_demotion_succeeds(m: Machine, name: Seq<char>, k: int)
    requires
        m.pool.wf(),
        m.pool.has(name),
        0 <= k <= m.pool.page(name).vram_chunks.len() <= usize::MAX,
        on_different_gpus(m.pool, m.pool.page(name).vram_chunks),
        forall|i: int|
            k <= i < m.pool.page(name).vram_chunks.len() ==> #[trigger] can_be_written_back(
                m.pool,
                name,
                i,
            ),
    ensures
        ({
            let (pool, step) = m.pool.write_back(name, k);
            Machine { pool, ..m }.run_demote(name, step).1 == Ok::<(), Failure>(())
        }),
    decreases m.pool.page(name).vram_chunks.len() - k,
{
    reveal_with_fuel(Machine::run_demote, 2);
    let chunks = m.pool.page(name).vram_chunks;
    let (pool, step) = m.pool.write_back(name, k);
    if k < chunks.len() {
        assert(can_be_written_back(m.pool, name, k));
        assert(m.pool.cluster.ordinals@.len() == m.pool.cluster.ordinals.len());
        gpu::law_position_is_the_last(m.pool.cluster.ordinals@, chunks[k].gpu_ordinal);
        let w = step->Pending_0;
        let after = Machine { pool, ..m }.written_back(w);
        let ahead = Machine {
            pool: after.pool.with_block(w.gpu_idx as int, w.device_ptr, w.bytes),
            ..after
        };
        assert forall|i: int| k + 1 <= i < chunks.len() implies #[trigger] can_be_written_back(
            ahead.pool,
            name,
            i,
        ) by {
            assert(can_be_written_back(m.pool, name, i));
            gpu::law_position_is_the_last(m.pool.cluster.ordinals@, chunks[i].gpu_ordinal);
            assert(m.pool.index_of(chunks[k].gpu_ordinal) != m.pool.index_of(
                chunks[i].gpu_ordinal,
            ));
        }
        lemma_demotion_succeeds(ahead, name, k + 1);
    }
}

/// What a device held when its page was demoted is what the next access from it
/// brings back.
pub proof fn law_demoted_page_comes_back(
    m: Machine,
    name: Seq<char>,
    i: int,
    gpu: usize,
    now: u64,
    block: u64,
)
    requires
        m.pool.accessible(name),
        !m.pool.inflight.contains_key(name),
        m.pool.page(name).tier == Tier::Vram,
        !m.pool.page(name).pinned,
        m.pool.page(name).vram_chunks.len() <= usize::MAX,
        on_different_gpus(m.pool, m.pool.page(name).vram_chunks),
        pieces_apart(m.pool.page(name).dram_chunks),
        0 <= i < m.pool.page(name).vram_chunks.len(),
        m.pool.index_of(m.pool.page(name).vram_chunks[i].gpu_ordinal) == Some(gpu),
        m.demote(name).1 is Ok,
    ensures
        ({
            let chunk = m.pool.page(name).vram_chunks[i];
            let (after, r) = m.demote(name).0.access(name, gpu as int, now, block);
            match r {
                Ok(ptr) => forall|j: int|
                    0 <= j < chunk.size_bytes ==> #[trigger] (after.device)(gpu as int)(ptr + j) == (
                    m.device)(gpu as int)(chunk.device_ptr + j),
                Err(e) => e == Failure::DmaRingFull,
            }
        }),
{
    law_demotion_writes_back(m, name);
    let down = m.demote(name).0;
    let chunk = m.pool.page(name).vram_chunks[i];
    let piece = down.pool.page(name).dram_chunks[gpu as int];
    assert(is_backed_up(m, down.host, name, i));
    lemma_warm_access(down, name, gpu as int, now, block);
    let (after, r) = down.access(name, gpu as int, now, block);
    if let Ok(ptr) = r {
        assert forall|j: int| 0 <= j < chunk.size_bytes implies #[trigger] (after.device)(gpu as int)(
            ptr + j,
        ) == (m.device)(gpu as int)(chunk.device_ptr + j) by {
            assert((down.host)(piece.host_ptr + j) == (m.device)(gpu as int)(chunk.device_ptr + j));
        }
    }
}

impl Machine {
    /// The machine after a promotion ahead of need, whose copy lands. A block that
    /// has to be allocated is the one at `block`.
    pub open spec fn prefetch(self, name: Seq<char>, gpu: usize, block: u64) -> Machine {
        let (pool, step) = self.pool.prefetch(name, gpu as int);
        match step {
            PrefetchStep::Finished => Machine { pool, ..self },
            PrefetchStep::AllocateBlock { bytes, host_ptr } => Machine { pool, ..self }.started(
                name,
                gpu,
                host_ptr,
                block,
                bytes,
            ),
            PrefetchStep::StartCopy { host_ptr, dst, bytes } => Machine { pool, ..self }.started(
                name,
                gpu,
                host_ptr,
                dst,
                bytes,
            ),
        }
    }

    /// The machine once a copy ahead of need was started and has landed.
    pub open spec fn started(
        self,
        name: Seq<char>,
        gpu: usize,
        host_ptr: usize,
        dst: u64,
        bytes: usize,
    ) -> Machine {
        Machine {
            pool: self.pool.prefetched(name, gpu, dst, bytes, CopyStart::Started),
            ..self.with_device(
                gpu as int,
                copied(
                    (self.device)(gpu as int),
                    self.host,
                    host_ptr as int,
                    dst as int,
                    bytes as int,
                ),
            )
        }
    }
}

/// An access after a promotion ahead of need brings what was written, as it would
/// without one, where the page lies in one piece.
pub proof fn law_prefetched_page_reads_back_what_was_written(
    m: Machine,
    name: Seq<char>,
    data: Seq<u8>,
    gpu: usize,
    now: u64,
    block: u64,
    other: u64,
)
    requires
        m.pool.wf(),
        m.pool.accessible(name),
        !m.pool.inflight.contains_key(name),
        m.pool.page(name).tier == Tier::Dram,
        m.pool.page(name).dram_chunks.len() == 1,
        m.pool.page(name).dram_chunks[0].size_bytes == m.pool.page(name).size_bytes,
        gpu < m.pool.cluster.ordinals@.len(),
        data.len() == m.pool.page(name).size_bytes,
    ensures
        ({
            let (after, r) = m.write(name, data).prefetch(name, gpu, block).access(
                name,
                gpu as int,
                now,
                other,
            );
            match r {
                Ok(ptr) => forall|i: int|
                    0 <= i < data.len() ==> #[trigger] (after.device)(gpu as int)(ptr + i)
                        == data[i],
                Err(_) => false,
            }
        }),
{
    reveal_with_fuel(Machine::run_access, 2);
    let w = m.write(name, data);
    let page = m.pool.page(name);
    let pieces = page.dram_chunks;
    let p = w.prefetch(name, gpu, block);
    let f = p.pool.inflight[name];
    let (after, r) = p.access(name, gpu as int, now, other);
    assert(p.pool.inflight.contains_key(name));
    assert(r == Ok::<u64, Failure>(f.device_ptr));
    assert(fill::room(pieces) == page.size_bytes) by {
        assert(pieces.drop_last() =~= seq![]);
        assert(fill::room(pieces.drop_last()) == 0);
    }
    assert forall|i: int| 0 <= i < data.len() implies #[trigger] (after.device)(gpu as int)(
        f.device_ptr + i,
    ) == data[i] by {
        lemma_runs_fill_the_pieces(m.host, data, pieces, page.size_bytes as int, 0, i);
        assert(pieces.take(0) =~= seq![]);
        assert(f.device_ptr + i - f.device_ptr + pieces[0].host_ptr == pieces[0].host_ptr + i);
    }
}

/// An address in a piece of a page.
proof fn lemma_within(pool: Pool, name: Seq<char>, i: int, x: int)
    requires
        pool.has(name),
        0 <= i < pool.page(name).dram_chunks.len(),
        within(pool.page(name).dram_chunks[i], x),
    ensures
        pool.in_piece(name, i, x),
{
}

/// The pieces of a page of a sound pool lie apart from each other.
pub proof fn law_pieces_of_a_page_lie_apart(pool: Pool, name: Seq<char>)
    requires
        pool.sound(),
        pool.has(name),
    ensures
        pieces_apart(pool.page(name).dram_chunks),
{
    let pieces = pool.page(name).dram_chunks;
    assert forall|i: int, j: int, x: int|
        #![trigger within(pieces[i], x), within(pieces[j], x)]
        0 <= i < pieces.len() && 0 <= j < pieces.len() && within(pieces[i], x) && within(
            pieces[j],
            x,
        ) implies i == j by {
        lemma_within(pool, name, i, x);
        lemma_within(pool, name, j, x);
        soundness::law_pieces_do_not_overlap(pool, name, i, name, j, x);
    }
}

proof fn lemma_filled_elsewhere(host: Memory, data: Seq<u8>, copies: Seq<HostCopy>, x: int)
    requires
        forall|k: int|
            #![trigger copies[k]]
            0 <= k < copies.len() ==> !(copies[k].host_ptr <= x < copies[k].host_ptr
                + copies[k].bytes),
    ensures
        filled(host, data, copies)(x) == host(x),
    decreases copies.len(),
{
    if copies.len() > 0 {
        let init = copies.drop_last();
        assert forall|k: int| #![trigger init[k]] 0 <= k < init.len() implies !(init[k].host_ptr
            <= x < init[k].host_ptr + init[k].bytes) by {
            assert(init[k] == copies[k]);
        }
        lemma_filled_elsewhere(host, data, init, x);
        assert(copies[copies.len() - 1] == copies.last());
    }
}

/// Writing to a page changes nothing of any other page, neither in host memory nor
/// in the backing file.
pub proof fn law_write_changes_no_other_page(
    m: Machine,
    name: Seq<char>,
    data: Seq<u8>,
    other: Seq<char>,
    i: int,
    x: int,
)
    requires
        m.pool.sound(),
        other != name,
        data.len() <= usize::MAX,
    ensures
        m.pool.in_piece(other, i, x) ==> (m.write(name, data).host)(x) == (m.host)(x),
        m.pool.in_storage(other, x) ==> (m.write(name, data).file)(x) == (m.file)(x),
{
    let page = m.pool.page(name);
    match m.pool.write_page(name, data.len() as usize) {
        Filling::ToSpill { offset, bytes } => {
            if m.pool.in_storage(other, x) && offset <= x < offset + bytes {
                assert(m.pool.in_storage(name, x));
            }
        },
        Filling::ToHost { copies, .. } => {
            let total = page.size_bytes as int;
            if m.pool.in_piece(other, i, x) {
                assert forall|k: int|
                    #![trigger copies[k]]
                    0 <= k < copies.len() implies !(copies[k].host_ptr <= x < copies[k].host_ptr
                    + copies[k].bytes) by {
                    fill::law_runs_stay_in_bounds(page.dram_chunks, total, k);
                    let j = choose|j: int|
                        0 <= j < page.dram_chunks.len() && copies[k].host_ptr == (
                        #[trigger] page.dram_chunks[j]).host_ptr && copies[k].bytes
                            <= page.dram_chunks[j].size_bytes;
                    if copies[k].host_ptr <= x < copies[k].host_ptr + copies[k].bytes {
                        lemma_within(m.pool, name, j, x);
                        soundness::law_pieces_do_not_overlap(m.pool, name, j, other, i, x);
                    }
                }
                lemma_filled_elsewhere(m.host, data, copies, x);
            }
        },
        _ => {},
    }
}

/// A staging buffer that is not borrowed is the page's own piece.
spec fn stages_in_place(pool: Pool, name: Seq<char>, gpu: int, step: Step) -> bool {
    step matches Step::Pending(Work::Stream { stage_ptr, stage_len, borrowed: false, .. }) ==> {
        &&& 0 <= gpu < pool.page(name).dram_chunks.len()
        &&& stage_ptr == pool.page(name).dram_chunks[gpu].host_ptr
        &&& stage_len <= pool.page(name).dram_chunks[gpu].size_bytes
    }
}

/// What an access goes on with is in order, if what it comes from was.
proof fn lemma_resumed_work_fits(
    pool: Pool,
    name: Seq<char>,
    gpu: int,
    now: u64,
    work: Work,
    block: u64,
)
    requires
        0 <= gpu,
        pool.fits(name, gpu, work),
        stages_in_place(pool, name, gpu, Step::Pending(work)),
    ensures
        ({
            let (after, next) = pool.resume_access(name, gpu, now, work, Ok(block));
            &&& next matches Step::Pending(w) ==> after.fits(name, gpu, w) && after.table
                == pool.table
            &&& stages_in_place(after, name, gpu, next)
        }),
{
    if let Work::AllocateBlock { bytes, .. } = work {
        access::lemma_staging_size(pool.dram[gpu], bytes as int);
    }
}

proof fn lemma_run_changes_no_other_page(
    m: Machine,
    name: Seq<char>,
    gpu: int,
    now: u64,
    step: Step,
    block: u64,
    other: Seq<char>,
    i: int,
    x: int,
)
    requires
        m.pool.sound_at(gpu, step),
        m.pool.accessible(name),
        0 <= gpu < m.pool.dram.len(),
        step matches Step::Pending(w) ==> m.pool.fits(name, gpu, w),
        stages_in_place(m.pool, name, gpu, step),
        other != name,
        m.pool.in_piece(other, i, x),
    ensures
        (m.run_access(name, gpu, now, step, block).0.host)(x) == (m.host)(x),
    decreases effort(step),
{
    if let Step::Pending(work) = step {
        let after = m.done(gpu, work);
        let (pool, next) = after.pool.resume_access(name, gpu, now, work, Ok(block));
        lemma_access_goes_on(m, name, gpu, now, work, block);
        lemma_effort_goes_down(m.pool, name, gpu, now, work, block);
        lemma_resumed_work_fits(m.pool, name, gpu, now, work, block);
        soundness::law_resumed_access_keeps_memory_apart(
            m.pool,
            name,
            gpu,
            now,
            work,
            Ok(block),
        );
        if let Work::Stream { stage_ptr, stage_len, borrowed, bytes, .. } = work {
            if stage_ptr <= x < stage_ptr + bytes {
                if borrowed {
                    assert(m.pool.dram[gpu].live(x));
                    assert(m.pool.dram[i].live(x));
                } else {
                    lemma_within(m.pool, name, gpu, x);
                    soundness::law_pieces_do_not_overlap(m.pool, name, gpu, other, i, x);
                }
            }
        }
        assert((after.host)(x) == (m.host)(x));
        let ahead = Machine { pool, ..after };
        if next is Pending {
            assert(pool.in_piece(other, i, x));
            lemma_run_changes_no_other_page(ahead, name, gpu, now, next, block, other, i, x);
        }
    }
}

/// An access to a page changes nothing of any other page in host memory.
#[verifier::spinoff_prover]
#[verifier::rlimit(40)]
pub proof fn law_access_changes_no_other_page(
    m: Machine,
    name: Seq<char>,
    gpu: int,
    now: u64,
    block: u64,
    other: Seq<char>,
    i: int,
    x: int,
)
    requires
        m.pool.sound(),
        m.pool.accessible(name),
        0 <= gpu < m.pool.dram.len(),
        m.pool.page(name).tier == Tier::Ssd ==> m.pool.streamable(
            name,
            gpu,
            m.pool.page(name).size_bytes,
        ),
        other != name,
        m.pool.in_piece(other, i, x),
    ensures
        (m.access(name, gpu, now, block).0.host)(x) == (m.host)(x),
{
    let (pool, step) = m.pool.access(name, gpu, now);
    soundness::law_access_keeps_memory_apart(m.pool, name, gpu, now);
    access::lemma_staging_size(m.pool.dram[gpu], m.pool.page(name).size_bytes as int);
    let begun = Machine { pool, ..m };
    if step is Pending {
        assert(pool.table == m.pool.table);
        assert(pool.in_piece(other, i, x));
        lemma_run_changes_no_other_page(begun, name, gpu, now, step, block, other, i, x);
    }
}

proof fn lemma_demotion_changes_no_other_page(
    m: Machine,
    name: Seq<char>,
    k: int,
    other: Seq<char>,
    i: int,
    x: int,
)
    requires
        m.pool.sound(),
        m.pool.has(name),
        0 <= k <= m.pool.page(name).vram_chunks.len() <= usize::MAX,
        other != name,
        m.pool.in_piece(other, i, x),
    ensures
        ({
            let (pool, step) = m.pool.write_back(name, k);
            (Machine { pool, ..m }.run_demote(name, step).0.host)(x) == (m.host)(x)
        }),
    decreases m.pool.page(name).vram_chunks.len() - k,
{
    reveal_with_fuel(Machine::run_demote, 2);
    let (pool, step) = m.pool.write_back(name, k);
    if let Retreat::Pending(w) = step {
        let begun = Machine { pool, ..m };
        let after = begun.written_back(w);
        let freed = after.pool.with_block(w.gpu_idx as int, w.device_ptr, w.bytes);
        let ahead = Machine { pool: freed, ..after };
        if w.host_ptr <= x < w.host_ptr + w.bytes {
            lemma_within(m.pool, name, w.gpu_idx as int, x);
            soundness::law_pieces_do_not_overlap(
                m.pool,
                name,
                w.gpu_idx as int,
                other,
                i,
                x,
            );
        }
        soundness::lemma_write_back(m.pool, name, k);
        soundness::lemma_same_memory(pool, freed);
        assert(freed.in_piece(other, i, x));
        lemma_demotion_changes_no_other_page(ahead, name, k + 1, other, i, x);
    }
}

/// The demotion of a page changes nothing of any other page in host memory.
pub proof fn law_demotion_changes_no_other_page(
    m: Machine,
    name: Seq<char>,
    other: Seq<char>,
    i: int,
    x: int,
)
    requires
        m.pool.sound(),
        m.pool.has(name),
        m.pool.page(name).vram_chunks.len() <= usize::MAX,
        other != name,
        m.pool.in_piece(other, i, x),
    ensures
        (m.demote(name).0.host)(x) == (m.host)(x),
{
    lemma_demotion_changes_no_other_page(m, name, 0, other, i, x);
}

/// A page that is allocated in host memory or for the devices, filled and accessed
/// from a GPU brings to that GPU its share of the data: the bytes that follow the
/// shares of the GPUs before it. A page for the devices has no device memory until
/// then.
pub proof fn law_new_warm_page_reads_back_what_was_written(
    m: Machine,
    name: Seq<char>,
    shape: Seq<usize>,
    element_size: usize,
    tier: Tier,
    given: Seq<char>,
    data: Seq<u8>,
    gpu: int,
    now: u64,
    block: u64,
)
    requires
        m.pool.sound(),
        m.pool.dram.len() > 0,
        vmt::sizable(shape, element_size),
        element_size > 0,
        tier != Tier::Ssd,
        m.pool.allocate(name, shape, element_size, tier).1 == Ok::<Seq<char>, Failure>(given),
        !m.pool.inflight.contains_key(given),
        data.len() == vmt::tensor_bytes(shape, element_size),
        0 <= gpu < m.pool.dram.len(),
        !m.pool.rings[gpu].full(),
    ensures
        ({
            let n = m.pool.dram.len() as int;
            let total = data.len() as int;
            let pool = m.pool.allocate(name, shape, element_size, tier).0;
            let (after, r) = Machine { pool, ..m }.write(given, data).access(
                given,
                gpu,
                now,
                block,
            );
            match r {
                Ok(ptr) => forall|j: int|
                    0 <= j < model::share(total, n, gpu) ==> #[trigger] (after.device)(gpu)(ptr + j)
                        == data[model::shares_up_to(total, n, gpu) + j],
                Err(_) => false,
            }
        }),
{
    let n = m.pool.dram.len() as int;
    let total = data.len() as int;
    let pool = m.pool.allocate(name, shape, element_size, tier).0;
    let page = pool.page(given);
    let pieces = page.dram_chunks;
    let a = Machine { pool, ..m };
    soundness::law_allocate_keeps_memory_apart(m.pool, name, shape, element_size, tier);
    laws::law_allocated_page_can_be_filled(
        m.pool,
        name,
        shape,
        element_size,
        tier,
        given,
    );
    law_pieces_of_a_page_lie_apart(pool, given);
    law_warm_page_reads_back_what_was_written(a, given, data, gpu, now, block);
    model::lemma_first_refusal(m.pool.dram, total, 0);
    model::lemma_share_bounds(total, n, gpu);
    assert(pieces == model::host_pieces(m.pool.dram, total, n));
    assert(pieces.take(gpu) =~= model::host_pieces(m.pool.dram, total, gpu));
    laws::lemma_room_of_pieces(m.pool.dram, total, gpu);
    assert(pieces[gpu].size_bytes == model::share(total, n, gpu));
}

/// A page that is allocated in the cold tier, filled and accessed from a GPU brings
/// the data to that GPU, unless there is no room for a staging buffer.
pub proof fn law_new_cold_page_reads_back_what_was_written(
    m: Machine,
    name: Seq<char>,
    shape: Seq<usize>,
    element_size: usize,
    given: Seq<char>,
    data: Seq<u8>,
    gpu: int,
    now: u64,
    block: u64,
)
    requires
        m.pool.wf(),
        vmt::sizable(shape, element_size),
        element_size > 0,
        m.pool.allocate(name, shape, element_size, Tier::Ssd).1 == Ok::<Seq<char>, Failure>(given),
        !m.pool.inflight.contains_key(given),
        data.len() == vmt::tensor_bytes(shape, element_size),
        data.len() <= usize::MAX - (ALIGN - 1),
        0 <= gpu < m.pool.dram.len(),
    ensures
        ({
            let pool = m.pool.allocate(name, shape, element_size, Tier::Ssd).0;
            let (after, r) = Machine { pool, ..m }.write(given, data).access(
                given,
                gpu,
                now,
                block,
            );
            match pool.staging_refusal(given, gpu, data.len() as usize) {
                Some(e) => r == Err::<u64, Failure>(e),
                None => match r {
                    Ok(ptr) => forall|i: int|
                        0 <= i < data.len() ==> #[trigger] (after.device)(gpu)(ptr + i) == data[i],
                    Err(_) => false,
                },
            }
        }),
{
    vmt::lemma_tensor_bytes_nonnegative(shape, element_size);
    let pool = m.pool.allocate(name, shape, element_size, Tier::Ssd).0;
    let space = m.pool.spill->0;
    ranges::lemma_answer_is_allocated(space, data.len() as int);
    ranges::lemma_allocated(
        space,
        data.len() as int,
        space.answer(data.len() as int)->Ok_0,
        space.grant(data.len() as int),
    );
    law_cold_page_reads_back_what_was_written(
        Machine { pool, ..m },
        given,
        data,
        gpu,
        now,
        block,
    );
}

} // verus!
