//! The unified allocator: tensors that span the memory of several GPUs.
//!
//! A small tensor goes to the first GPU where it fits, any other is divided
//! among all of them. The engine decides and keeps the books; device
//! memory is allocated, copied and freed by the caller, which hands back what
//! came of it.

use crate::error::{self, Failure, VugvaError};
use crate::gpu::{self, GpuCluster};
use crate::tiered::model;
use crate::vmt::{self, Chunk, PageState, PageView, Table, Tier, VirtualMemoryTable};
use vstd::prelude::*;
use vstd::string::*;

verus! {

/// The largest tensor that goes to a single GPU: 128 MiB.
pub const SINGLE_GPU_LIMIT: usize = 134_217_728;

/// Which GPUs an engine is to use.
#[derive(Debug)]
pub struct VugvaEngineBuilder {
    /// The CUDA device ordinals.
    pub gpu_ordinals: Vec<i32>,
}

impl VugvaEngineBuilder {
    /// No GPUs yet.
    pub fn new() -> (r: Self)
        ensures
            r.gpu_ordinals@ == Seq::<i32>::empty(),
    {
        VugvaEngineBuilder { gpu_ordinals: Vec::new() }
    }

    /// Use these GPUs, in place of any named before.
    pub fn gpus(self, ordinals: &[i32]) -> (r: Self)
        ensures
            r.gpu_ordinals@ == ordinals@,
    {
        VugvaEngineBuilder { gpu_ordinals: vstd::slice::slice_to_vec(ordinals) }
    }

    /// The GPUs, of which there has to be one at least.
    pub fn ordinals(self) -> (r: Result<Vec<i32>, VugvaError>)
        ensures
            r == if self.gpu_ordinals@.len() == 0 {
                Err::<Vec<i32>, VugvaError>(VugvaError::InvalidGpu(0))
            } else {
                Ok(self.gpu_ordinals)
            },
    {
        if self.gpu_ordinals.len() == 0 {
            return Err(VugvaError::InvalidGpu(0));
        }
        Ok(self.gpu_ordinals)
    }
}

impl Default for VugvaEngineBuilder {
    fn default() -> (r: Self)
        ensures
            r.gpu_ordinals@ == Seq::<i32>::empty(),
    {
        VugvaEngineBuilder::new()
    }
}

/// The engine: the GPUs and the pages that span them.
pub struct VugvaEngine {
    /// The GPUs.
    pub cluster: GpuCluster,
    /// The pages.
    pub vmt: VirtualMemoryTable,
}

/// What a [`VugvaEngine`] stands for.
#[verifier::ext_equal]
pub struct Engine {
    /// The GPUs.
    pub cluster: GpuCluster,
    /// The pages.
    pub table: Table,
}

impl View for VugvaEngine {
    type V = Engine;

    open spec fn view(&self) -> Engine {
        Engine { cluster: self.cluster, table: self.vmt@ }
    }
}

/// A request for device memory for a part of a tensor.
#[derive(Debug, Clone, Copy, PartialEq, Eq, Structural)]
pub struct BlockRequest {
    /// Index of the GPU.
    pub gpu_idx: usize,
    /// Size of the part.
    pub bytes: usize,
    /// The part is all of the tensor.
    pub single: bool,
}

/// What comes next in an allocation.
#[derive(Debug)]
pub enum AllocateStep {
    /// Device memory has to be allocated first, for the tensor of that name.
    Pending {
        /// Name of the tensor.
        name: String,
        /// What is needed.
        request: BlockRequest,
    },
    /// The allocation is over. A success is the name of the tensor.
    Finished(Result<String, VugvaError>),
}

/// What an [`AllocateStep`] stands for.
pub enum Placing {
    /// Device memory has to be allocated first.
    Pending {
        /// Name of the tensor.
        name: Seq<char>,
        /// What is needed.
        request: BlockRequest,
    },
    /// The allocation is over.
    Finished(Result<Seq<char>, Failure>),
}

impl View for AllocateStep {
    type V = Placing;

    open spec fn view(&self) -> Placing {
        match *self {
            AllocateStep::Pending { name, request } => Placing::Pending { name: name@, request },
            AllocateStep::Finished(r) => Placing::Finished(error::named_outcome(r)),
        }
    }
}

/// A copy of a tensor to another GPU: memory for it has to be allocated there,
/// and the copy has to have landed.
#[derive(Debug, Clone, Copy, PartialEq, Eq, Structural)]
pub struct PeerCopy {
    /// Index of the GPU that has the tensor.
    pub src_idx: usize,
    /// Address there.
    pub src_ptr: u64,
    /// Index of the GPU that needs it.
    pub gpu_idx: usize,
    /// Size in bytes.
    pub bytes: usize,
}

/// What comes next in an access.
#[derive(Debug)]
pub enum ReachStep {
    /// The tensor has to be copied first.
    Pending(PeerCopy),
    /// The access is over. A success is an address.
    Finished(Result<u64, VugvaError>),
}

/// What a [`ReachStep`] stands for.
pub enum Reach {
    /// The tensor has to be copied first.
    Pending(PeerCopy),
    /// The access is over.
    Finished(Result<u64, Failure>),
}

impl View for ReachStep {
    type V = Reach;

    open spec fn view(&self) -> Reach {
        match *self {
            ReachStep::Pending(c) => Reach::Pending(c),
            ReachStep::Finished(r) => Reach::Finished(error::outcome(r)),
        }
    }
}

/// A part of a tensor that is to be freed.
#[derive(Debug, Clone, Copy, PartialEq, Eq, Structural)]
pub enum FreeStep {
    /// Free a device block.
    Block {
        /// Index of the GPU.
        gpu_idx: usize,
        /// The block.
        ptr: u64,
    },
    /// The part is on a GPU that is not in the cluster, and must not be freed
    /// on another.
    NoSuchGpu(usize),
}

/// The first GPU that has room for `total` bytes, by what each has left as far
/// as it is known, or the number of those that were asked.
pub open spec fn first_with_room(free: Seq<Option<usize>>, total: int) -> int
    decreases free.len(),
{
    if free.len() == 0 {
        0
    } else if free[0] is Some && free[0]->0 >= total {
        0
    } else {
        1 + first_with_room(free.skip(1), total)
    }
}

proof fn lemma_first_with_room(free: Seq<Option<usize>>, total: int)
    ensures
        0 <= first_with_room(free, total) <= free.len(),
    decreases free.len(),
{
    if free.len() > 0 {
        lemma_first_with_room(free.skip(1), total);
    }
}

/// A GPU that is found to have room is known to have it, and none before it is.
/// Where none is found, none is known to have room.
pub proof fn law_room_is_found_where_it_is(free: Seq<Option<usize>>, total: int)
    ensures
        ({
            let room = first_with_room(free, total);
            &&& 0 <= room <= free.len()
            &&& room < free.len() ==> free[room] is Some && free[room]->0 >= total
            &&& forall|i: int|
                0 <= i < room ==> (#[trigger] free[i] is None || free[i]->0 < total)
        }),
    decreases free.len(),
{
    if free.len() > 0 && !(free[0] is Some && free[0]->0 >= total) {
        let rest = free.skip(1);
        law_room_is_found_where_it_is(rest, total);
        let room = first_with_room(free, total);
        assert forall|i: int| 0 <= i < room implies (#[trigger] free[i] is None || free[i]->0
            < total) by {
            if i > 0 {
                assert(rest[i - 1] == free[i]);
            }
        }
    }
}

impl Engine {
    /// There is a GPU at least.
    pub open spec fn wf(self) -> bool {
        self.cluster.ordinals@.len() > 0
    }

    /// Number of GPUs.
    pub open spec fn gpus(self) -> int {
        self.cluster.ordinals@.len() as int
    }

    /// There is a page of that name.
    pub open spec fn has(self, name: Seq<char>) -> bool {
        self.table.pages.contains_key(name)
    }

    /// The page of that name.
    pub open spec fn page(self, name: Seq<char>) -> PageView {
        self.table.pages[name]
    }

    /// The engine with another page under that name.
    pub open spec fn with_page(self, name: Seq<char>, page: PageView) -> Engine {
        Engine {
            table: Table { pages: self.table.pages.insert(name, page), ..self.table },
            ..self
        }
    }

    /// The part of a tensor of `total` bytes for GPU `i`.
    pub open spec fn part(self, total: usize, i: int) -> BlockRequest {
        BlockRequest {
            gpu_idx: i as usize,
            bytes: model::share(total as int, self.gpus(), i) as usize,
            single: false,
        }
    }

    /// What comes of the request for a tensor: `free` is what each GPU has left,
    /// as far as it was asked and answered.
    pub open spec fn allocate(
        self,
        name: Seq<char>,
        shape: Seq<usize>,
        element_size: usize,
        free: Seq<Option<usize>>,
    ) -> (Engine, Placing) {
        let next_id = if name.len() == 0 {
            (self.table.next_id + 1) as u64
        } else {
            self.table.next_id
        };
        let given = if name.len() == 0 {
            vmt::generated_name(next_id)
        } else {
            name
        };
        let total = vmt::tensor_bytes(shape, element_size) as usize;
        let page = PageView::allocated(given, shape, element_size);
        let room = first_with_room(free, total as int);
        let request = if total <= SINGLE_GPU_LIMIT && room < free.len() {
            BlockRequest { gpu_idx: room as usize, bytes: total, single: true }
        } else {
            self.part(total, 0)
        };
        (
            Engine {
                table: Table { pages: self.table.pages.insert(given, page), next_id },
                ..self
            },
            Placing::Pending { name: given, request },
        )
    }

    /// What comes of an allocation once memory for a part of it was allocated or
    /// could not be.
    pub open spec fn resume_allocate(
        self,
        name: Seq<char>,
        request: BlockRequest,
        event: Result<u64, Failure>,
    ) -> (Engine, Placing) {
        match event {
            Err(e) => (self, Placing::Finished(Err(e))),
            Ok(ptr) => {
                let page = self.page(name);
                let chunk = Chunk {
                    gpu_ordinal: self.cluster.ordinals@[request.gpu_idx as int],
                    device_ptr: ptr,
                    size_bytes: request.bytes,
                    num_elements: request.bytes / page.element_size,
                };
                let more = PageView { vram_chunks: page.vram_chunks.push(chunk), ..page };
                if request.single || request.gpu_idx + 1 == self.gpus() {
                    (
                        self.with_page(
                            name,
                            PageView { state: PageState::Resident, tier: Tier::Vram, ..more },
                        ),
                        Placing::Finished(Ok(name)),
                    )
                } else {
                    (
                        self.with_page(name, more),
                        Placing::Pending {
                            name,
                            request: self.part(page.size_bytes, request.gpu_idx + 1),
                        },
                    )
                }
            },
        }
    }

    /// What comes of an allocation that goes on with `request`, where the memory
    /// that it asks for is at `blocks`, one after the other.
    pub open spec fn run_allocate(
        self,
        name: Seq<char>,
        request: BlockRequest,
        blocks: Seq<u64>,
    ) -> (Engine, Placing)
        decreases blocks.len(),
    {
        if blocks.len() == 0 {
            (self, Placing::Pending { name, request })
        } else {
            let (next, step) = self.resume_allocate(name, request, Ok(blocks[0]));
            match step {
                Placing::Pending { name, request } => next.run_allocate(
                    name,
                    request,
                    blocks.skip(1),
                ),
                Placing::Finished(_) => (next, step),
            }
        }
    }

    /// The chunk of a tensor that is divided among all GPUs on GPU `i`.
    pub open spec fn part_at(self, page: PageView, i: int, ptr: u64) -> Chunk {
        Chunk {
            gpu_ordinal: self.cluster.ordinals@[i],
            device_ptr: ptr,
            size_bytes: self.part(page.size_bytes, i).bytes,
            num_elements: self.part(page.size_bytes, i).bytes / page.element_size,
        }
    }

    /// What comes of an access to a tensor from GPU `ordinal`.
    pub open spec fn access(self, name: Seq<char>, ordinal: i32) -> Reach {
        let page = self.page(name);
        let chunks = page.vram_chunks;
        let own = model::first_on(chunks, ordinal);
        match gpu::position_of(self.cluster.ordinals@, ordinal) {
            None => Reach::Finished(Err(Failure::InvalidGpu(ordinal as usize))),
            Some(gpu_idx) => if !self.has(name) {
                Reach::Finished(Err(Failure::UnknownAllocation(name)))
            } else if page.state == PageState::Resident && own < chunks.len() {
                Reach::Finished(Ok(chunks[own].device_ptr))
            } else if chunks.len() == 0 {
                Reach::Finished(Err(Failure::UnknownAllocation(name)))
            } else if chunks[0].gpu_ordinal == ordinal {
                Reach::Finished(Ok(chunks[0].device_ptr))
            } else {
                Reach::Pending(
                    PeerCopy {
                        src_idx: gpu::position_of(
                            self.cluster.ordinals@,
                            chunks[0].gpu_ordinal,
                        )->0,
                        src_ptr: chunks[0].device_ptr,
                        gpu_idx,
                        bytes: chunks[0].size_bytes,
                    },
                )
            },
        }
    }

    /// The engine once a tensor was copied to GPU `ordinal`.
    pub open spec fn arrived(
        self,
        name: Seq<char>,
        ordinal: i32,
        bytes: usize,
        ptr: u64,
    ) -> Engine {
        let page = self.page(name);
        let chunk = Chunk {
            gpu_ordinal: ordinal,
            device_ptr: ptr,
            size_bytes: bytes,
            num_elements: bytes / page.element_size,
        };
        self.with_page(name, PageView { vram_chunks: page.vram_chunks.push(chunk), ..page })
    }

    /// How a part of a tensor is freed.
    pub open spec fn freeing(self, chunk: Chunk) -> FreeStep {
        match gpu::position_of(self.cluster.ordinals@, chunk.gpu_ordinal) {
            Some(gpu_idx) => FreeStep::Block { gpu_idx, ptr: chunk.device_ptr },
            None => FreeStep::NoSuchGpu(chunk.gpu_ordinal as usize),
        }
    }
}

/// The parts of a tensor that is divided among all GPUs add up to the tensor.
pub proof fn law_parts_add_up(engine: Engine, total: usize)
    requires
        engine.wf(),
    ensures
        model::shares_up_to(total as int, engine.gpus(), engine.gpus()) == total,
        forall|i: int|
            0 <= i < engine.gpus() ==> (#[trigger] engine.part(total, i)).bytes == model::share(
                total as int,
                engine.gpus(),
                i,
            ),
{
    model::law_shares_add_up(total as int, engine.gpus());
    assert forall|i: int| 0 <= i < engine.gpus() implies (#[trigger] engine.part(total, i)).bytes
        == model::share(total as int, engine.gpus(), i) by {
        model::lemma_share_bounds(total as int, engine.gpus(), i);
    }
}

/// An allocation that gets all the memory it asks for ends with the tensor on
/// the device: in one piece on the first GPU where it fits, if it is small
/// enough and there is one, and else with its part of every GPU.
pub proof fn law_allocation_reaches_the_device(
    engine: Engine,
    name: Seq<char>,
    shape: Seq<usize>,
    element_size: usize,
    free: Seq<Option<usize>>,
    blocks: Seq<u64>,
)
    requires
        engine.wf(),
        vmt::sizable(shape, element_size),
        element_size > 0,
        free.len() <= engine.gpus(),
        blocks.len() == engine.gpus(),
    ensures
        ({
            let (begun, step) = engine.allocate(name, shape, element_size, free);
            let given = step->Pending_name;
            let total = vmt::tensor_bytes(shape, element_size);
            let (done, end) = begun.run_allocate(given, step->request, blocks);
            let page = done.page(given);
            let room = first_with_room(free, total);
            let whole = total <= SINGLE_GPU_LIMIT && room < free.len();
            &&& end == Placing::Finished(Ok(given))
            &&& page.state == PageState::Resident
            &&& page.tier == Tier::Vram
            &&& page.size_bytes == total
            &&& whole ==> page.vram_chunks == seq![
                Chunk {
                    gpu_ordinal: engine.cluster.ordinals@[room],
                    device_ptr: blocks[0],
                    size_bytes: page.size_bytes,
                    num_elements: page.size_bytes / element_size,
                },
            ]
            &&& !whole ==> page.vram_chunks == Seq::new(
                blocks.len(),
                |i: int| engine.part_at(page, i, blocks[i]),
            )
        }),
{
    let (begun, step) = engine.allocate(name, shape, element_size, free);
    let given = step->Pending_name;
    let request = step->request;
    let done = begun.run_allocate(given, request, blocks).0;
    vmt::lemma_tensor_bytes_nonnegative(shape, element_size);
    lemma_first_with_room(free, vmt::tensor_bytes(shape, element_size));
    assert(engine.cluster.ordinals@.len() == engine.cluster.ordinals.len());
    if request.single {
        reveal_with_fuel(Engine::run_allocate, 2);
        assert(done.page(given).vram_chunks =~= seq![done.page(given).vram_chunks[0]]);
    } else {
        lemma_parts_follow(begun, given, blocks);
        assert(done.page(given).vram_chunks =~= Seq::new(
            blocks.len(),
            |i: int| engine.part_at(done.page(given), i, blocks[i]),
        ));
    }
}

/// An allocation that has got as many parts as there are gets the others.
proof fn lemma_parts_follow(engine: Engine, name: Seq<char>, blocks: Seq<u64>)
    requires
        engine.has(name),
        engine.page(name).element_size > 0,
        blocks.len() > 0,
        engine.page(name).vram_chunks.len() + blocks.len() == engine.gpus(),
    ensures
        ({
            let page = engine.page(name);
            let k = page.vram_chunks.len() as int;
            let request = engine.part(page.size_bytes, k);
            let (done, end) = engine.run_allocate(name, request, blocks);
            &&& end == Placing::Finished(Ok(name))
            &&& done.page(name) == (PageView {
                state: PageState::Resident,
                tier: Tier::Vram,
                vram_chunks: page.vram_chunks + Seq::new(
                    blocks.len(),
                    |i: int| engine.part_at(page, k + i, blocks[i]),
                ),
                ..page
            })
        }),
    decreases blocks.len(),
{
    let page = engine.page(name);
    let k = page.vram_chunks.len() as int;
    assert(engine.cluster.ordinals@.len() == engine.cluster.ordinals.len());
    let request = engine.part(page.size_bytes, k);
    let next = engine.resume_allocate(name, request, Ok(blocks[0])).0;
    let done = engine.run_allocate(name, request, blocks).0;
    let all = page.vram_chunks + Seq::new(
        blocks.len(),
        |i: int| engine.part_at(page, k + i, blocks[i]),
    );
    if blocks.len() == 1 {
        assert(done.page(name).vram_chunks =~= all);
    } else {
        lemma_parts_follow(next, name, blocks.skip(1));
        assert(done.page(name).vram_chunks =~= all);
    }
}

/// A tensor that was copied to a GPU is found there by the next access, with
/// nothing to copy: the copy, unless there was a part of it before.
pub proof fn law_copied_tensor_is_found(
    engine: Engine,
    name: Seq<char>,
    ordinal: i32,
    bytes: usize,
    ptr: u64,
)
    requires
        engine.has(name),
        engine.page(name).element_size > 0,
        engine.page(name).state == PageState::Resident,
        gpu::position_of(engine.cluster.ordinals@, ordinal) is Some,
    ensures
        engine.arrived(name, ordinal, bytes, ptr).access(name, ordinal) == Reach::Finished(
            Ok(
                ({
                    let before = engine.page(name).vram_chunks;
                    let own = model::first_on(before, ordinal);
                    if own < before.len() {
                        before[own].device_ptr
                    } else {
                        ptr
                    }
                }),
            ),
        ),
{
    let before = engine.page(name).vram_chunks;
    let chunks = engine.arrived(name, ordinal, bytes, ptr).page(name).vram_chunks;
    lemma_first_on_push(before, chunks.last(), ordinal);
    assert(chunks == before.push(chunks.last()));
}

proof fn lemma_first_on_push(chunks: Seq<Chunk>, chunk: Chunk, ordinal: i32)
    requires
        chunk.gpu_ordinal == ordinal,
    ensures
        0 <= model::first_on(chunks, ordinal) <= chunks.len(),
        model::first_on(chunks.push(chunk), ordinal) == model::first_on(chunks, ordinal),
    decreases chunks.len(),
{
    if chunks.len() > 0 && chunks[0].gpu_ordinal != ordinal {
        assert(chunks.push(chunk).skip(1) =~= chunks.skip(1).push(chunk));
        lemma_first_on_push(chunks.skip(1), chunk, ordinal);
    }
}

/// A request goes to a GPU of the cluster. A tensor of up to 128 MiB goes whole
/// to the first GPU that is known to have room for it, where there is one. Any
/// other begins with its part of the first GPU, and no part is larger than the
/// tensor.
pub proof fn law_request_fits_the_tensor(
    engine: Engine,
    name: Seq<char>,
    shape: Seq<usize>,
    element_size: usize,
    free: Seq<Option<usize>>,
)
    requires
        engine.wf(),
        vmt::sizable(shape, element_size),
        free.len() <= engine.gpus(),
    ensures
        ({
            let (begun, step) = engine.allocate(name, shape, element_size, free);
            let given = step->Pending_name;
            let request = step->request;
            let total = vmt::tensor_bytes(shape, element_size);
            &&& step is Pending
            &&& begun.has(given)
            &&& begun.page(given).state == PageState::Allocated
            &&& begun.page(given).vram_chunks.len() == 0
            &&& begun.page(given).size_bytes == total
            &&& begun.cluster == engine.cluster
            &&& name.len() > 0 ==> given == name && begun.table.next_id == engine.table.next_id
            &&& name.len() == 0 && engine.table.next_id < u64::MAX ==> {
                &&& given == vmt::generated_name(begun.table.next_id)
                &&& begun.table.next_id == engine.table.next_id + 1
            }
            &&& forall|other: Seq<char>|
                other != given ==> #[trigger] begun.has(other) == engine.has(other)
                    && begun.page(other) == engine.page(other)
            &&& request.gpu_idx < engine.gpus()
            &&& request.single <==> total <= 128 * 1024 * 1024 && exists|i: int|
                0 <= i < free.len() && (#[trigger] free[i]) is Some && free[i]->0 >= total
            &&& request.single ==> {
                &&& request.bytes == total
                &&& request.gpu_idx < free.len()
                &&& free[request.gpu_idx as int] is Some
                &&& free[request.gpu_idx as int]->0 >= total
                &&& forall|i: int|
                    0 <= i < request.gpu_idx ==> (#[trigger] free[i] is None || free[i]->0
                        < total)
            }
            &&& !request.single ==> request.gpu_idx == 0 && request.bytes <= total
            &&& !request.single && engine.gpus() == 1 ==> request.bytes == total
        }),
{
    let total = vmt::tensor_bytes(shape, element_size);
    vmt::lemma_tensor_bytes_nonnegative(shape, element_size);
    law_room_is_found_where_it_is(free, total);
    model::lemma_share_bounds(total, engine.gpus(), 0);
    assert(engine.cluster.ordinals@.len() == engine.cluster.ordinals.len());
    assert(total / 1 == total && total % 1 == 0);
    let room = first_with_room(free, total);
    if exists|i: int| 0 <= i < free.len() && (#[trigger] free[i]) is Some && free[i]->0 >= total {
        let i = choose|i: int|
            0 <= i < free.len() && (#[trigger] free[i]) is Some && free[i]->0 >= total;
        assert(i >= room);
    }
    if room < free.len() {
        assert(free[room] is Some);
    }
}

/// Memory that was allocated for a part of a tensor is written down as a piece
/// of it, on the GPU that it was asked of, behind the pieces there were. The
/// next part is asked of the next GPU. Where memory could not be allocated, the
/// allocation ends with that failure and nothing changes.
pub proof fn law_allocated_part_becomes_a_piece(
    engine: Engine,
    name: Seq<char>,
    request: BlockRequest,
    ptr: u64,
    e: Failure,
)
    requires
        engine.has(name),
        engine.page(name).element_size > 0,
        request.gpu_idx < engine.gpus(),
    ensures
        engine.resume_allocate(name, request, Err(e)) == (engine, Placing::Finished(Err(e))),
        ({
            let (after, step) = engine.resume_allocate(name, request, Ok(ptr));
            let before = engine.page(name).vram_chunks;
            let pieces = after.page(name).vram_chunks;
            let piece = pieces.last();
            &&& pieces.len() == before.len() + 1
            &&& pieces.drop_last() == before
            &&& piece.gpu_ordinal == engine.cluster.ordinals@[request.gpu_idx as int]
            &&& piece.device_ptr == ptr
            &&& piece.size_bytes == request.bytes
            &&& piece.num_elements * engine.page(name).element_size <= piece.size_bytes
            &&& piece.size_bytes < (piece.num_elements + 1) * engine.page(name).element_size
            &&& after.cluster == engine.cluster
            &&& after.table.next_id == engine.table.next_id
            &&& forall|other: Seq<char>|
                other != name ==> #[trigger] after.has(other) == engine.has(other)
                    && after.page(other) == engine.page(other)
            &&& match step {
                Placing::Pending { name: again, request: next } => {
                    &&& again == name
                    &&& !request.single
                    &&& !next.single
                    &&& next.gpu_idx == request.gpu_idx + 1 < engine.gpus()
                    &&& after.page(name).state == engine.page(name).state
                },
                Placing::Finished(r) => {
                    &&& r == Ok::<Seq<char>, Failure>(name)
                    &&& request.single || request.gpu_idx == engine.gpus() - 1
                    &&& after.page(name).state == PageState::Resident
                    &&& after.page(name).tier == Tier::Vram
                },
            }
        }),
{
    let after = engine.resume_allocate(name, request, Ok(ptr)).0;
    let before = engine.page(name).vram_chunks;
    assert(engine.cluster.ordinals@.len() == engine.cluster.ordinals.len());
    assert(after.page(name).vram_chunks.drop_last() =~= before);
    lemma_whole_elements(request.bytes, engine.page(name).element_size);
}

proof fn lemma_whole_elements(bytes: usize, element_size: usize)
    requires
        element_size > 0,
    ensures
        bytes / element_size * element_size <= bytes,
        bytes < (bytes / element_size + 1) * element_size,
{
    assert(bytes / element_size * element_size <= bytes && bytes < (bytes / element_size + 1)
        * element_size) by (nonlinear_arith)
        requires
            element_size > 0,
    ;
}

/// The parts of a tensor that is divided among several GPUs are all of one
/// size, but for the last, which has what is left over: less than a byte more
/// for each GPU.
pub proof fn law_parts_are_even(engine: Engine, total: usize, i: int)
    requires
        0 <= i < engine.gpus(),
    ensures
        engine.part(total, i).gpu_idx == i,
        !engine.part(total, i).single,
        i < engine.gpus() - 1 ==> engine.part(total, i).bytes == engine.part(total, 0).bytes,
        0 <= engine.part(total, engine.gpus() - 1).bytes - engine.part(total, i).bytes
            < engine.gpus(),
{
    let n = engine.gpus();
    assert(engine.cluster.ordinals@.len() == engine.cluster.ordinals.len());
    model::lemma_share_bounds(total as int, n, i);
    model::lemma_share_bounds(total as int, n, n - 1);
    model::lemma_share_bounds(total as int, n, 0);
    assert(0 <= total as int % n < n);
}

/// An access that asks for a copy names GPUs of the cluster: the source is the
/// GPU that holds the piece whose address and size are copied, which is the first
/// of the tensor, and the destination is the GPU that asks, which is another.
pub proof fn law_copy_goes_between_gpus_of_the_cluster(
    engine: Engine,
    name: Seq<char>,
    ordinal: i32,
    copy: PeerCopy,
)
    requires
        engine.access(name, ordinal) == Reach::Pending(copy),
        engine.cluster.ordinals@.contains(engine.page(name).vram_chunks[0].gpu_ordinal),
    ensures
        copy.src_idx < engine.gpus(),
        copy.gpu_idx < engine.gpus(),
        engine.cluster.ordinals@[copy.gpu_idx as int] == ordinal,
        engine.cluster.ordinals@[copy.src_idx as int] != ordinal,
        engine.page(name).vram_chunks.len() > 0,
        ({
            let first = engine.page(name).vram_chunks[0];
            &&& first.gpu_ordinal == engine.cluster.ordinals@[copy.src_idx as int]
            &&& first.device_ptr == copy.src_ptr
            &&& first.size_bytes == copy.bytes
        }),
{
    let chunks = engine.page(name).vram_chunks;
    assert(engine.cluster.ordinals@.len() == engine.cluster.ordinals.len());
    gpu::law_position_is_the_last(engine.cluster.ordinals@, ordinal);
    gpu::law_position_is_the_last(engine.cluster.ordinals@, chunks[0].gpu_ordinal);
}

/// An access from a GPU that is not in the cluster, or to a tensor that is not
/// known or nowhere on a device, fails and says which of them it was. Any other
/// either ends with the address of the first piece that the asking GPU holds, or
/// asks for a copy. A tensor that is in place is copied just where the asking GPU
/// holds no piece of it, and one that is not where its first piece is elsewhere.
pub proof fn law_access_reaches_the_asking_gpu(engine: Engine, name: Seq<char>, ordinal: i32)
    ensures
        ({
            let chunks = engine.page(name).vram_chunks;
            let known = engine.cluster.ordinals@.contains(ordinal);
            let held = exists|i: int|
                0 <= i < chunks.len() && (#[trigger] chunks[i]).gpu_ordinal == ordinal;
            let placed = engine.has(name) && chunks.len() > 0;
            &&& !known ==> engine.access(name, ordinal) == Reach::Finished(
                Err(Failure::InvalidGpu(ordinal as usize)),
            )
            &&& known && !placed ==> engine.access(name, ordinal) == Reach::Finished(
                Err(Failure::UnknownAllocation(name)),
            )
            &&& known && placed ==> match engine.access(name, ordinal) {
                Reach::Finished(Ok(ptr)) => exists|i: int|
                    0 <= i < chunks.len() && (#[trigger] chunks[i]).gpu_ordinal == ordinal
                        && chunks[i].device_ptr == ptr && forall|j: int|
                        0 <= j < i ==> (#[trigger] chunks[j]).gpu_ordinal != ordinal,
                Reach::Finished(Err(_)) => false,
                Reach::Pending(_) => chunks[0].gpu_ordinal != ordinal,
            }
            &&& known && placed && engine.page(name).state == PageState::Resident ==> (
            engine.access(name, ordinal) is Pending <==> !held)
            &&& known && placed && engine.page(name).state != PageState::Resident ==> (
            engine.access(name, ordinal) is Pending <==> chunks[0].gpu_ordinal != ordinal)
        }),
{
    let chunks = engine.page(name).vram_chunks;
    assert(engine.cluster.ordinals@.len() == engine.cluster.ordinals.len());
    gpu::law_position_is_the_last(engine.cluster.ordinals@, ordinal);
    model::law_first_piece_is_found(chunks, ordinal);
    if chunks.len() > 0 {
        assert(chunks[0].gpu_ordinal == ordinal || chunks[0].gpu_ordinal != ordinal);
    }
}

/// A copy that has landed is a piece of the tensor on the GPU that asked, behind
/// the pieces there were, and nothing else changes.
pub proof fn law_copy_becomes_a_piece(
    engine: Engine,
    name: Seq<char>,
    ordinal: i32,
    bytes: usize,
    ptr: u64,
    other: Seq<char>,
)
    requires
        engine.has(name),
        engine.page(name).element_size > 0,
        other != name,
    ensures
        ({
            let after = engine.arrived(name, ordinal, bytes, ptr);
            let before = engine.page(name).vram_chunks;
            let pieces = after.page(name).vram_chunks;
            let piece = pieces.last();
            &&& pieces.len() == before.len() + 1
            &&& pieces.drop_last() == before
            &&& piece.gpu_ordinal == ordinal
            &&& piece.device_ptr == ptr
            &&& piece.size_bytes == bytes
            &&& piece.num_elements * engine.page(name).element_size <= bytes
            &&& bytes < (piece.num_elements + 1) * engine.page(name).element_size
            &&& after.page(name) == (PageView { vram_chunks: pieces, ..engine.page(name) })
            &&& after.has(other) == engine.has(other)
            &&& after.page(other) == engine.page(other)
            &&& after.cluster == engine.cluster
        }),
{
    let after = engine.arrived(name, ordinal, bytes, ptr);
    assert(after.page(name).vram_chunks.drop_last() =~= engine.page(name).vram_chunks);
    lemma_whole_elements(bytes, engine.page(name).element_size);
}

/// Every block that is to be freed is named on the GPU that holds it. A piece on
/// a GPU that is not in the cluster is not freed on another.
pub proof fn law_blocks_are_freed_where_they_are(engine: Engine, piece: Chunk)
    ensures
        match engine.freeing(piece) {
            FreeStep::Block { gpu_idx, ptr } => {
                &&& gpu_idx < engine.gpus()
                &&& engine.cluster.ordinals@[gpu_idx as int] == piece.gpu_ordinal
                &&& ptr == piece.device_ptr
            },
            FreeStep::NoSuchGpu(ordinal) => {
                &&& !engine.cluster.ordinals@.contains(piece.gpu_ordinal)
                &&& ordinal == piece.gpu_ordinal as usize
            },
        },
{
    assert(engine.cluster.ordinals@.len() == engine.cluster.ordinals.len());
    gpu::law_position_is_the_last(engine.cluster.ordinals@, piece.gpu_ordinal);
}

/// What came of freeing part `i`.
pub open spec fn freed_part(
    steps: Seq<FreeStep>,
    outcomes: Seq<Result<(), VugvaError>>,
    i: int,
) -> Result<(), Failure> {
    match steps[i] {
        FreeStep::NoSuchGpu(g) => Err(Failure::InvalidGpu(g)),
        FreeStep::Block { .. } => error::outcome(outcomes[i]),
    }
}

/// The first failure from part `i` on.
pub open spec fn first_failure(
    steps: Seq<FreeStep>,
    outcomes: Seq<Result<(), VugvaError>>,
    i: int,
) -> Result<(), Failure>
    decreases steps.len() - i,
{
    if i >= steps.len() {
        Ok(())
    } else if freed_part(steps, outcomes, i) is Err {
        freed_part(steps, outcomes, i)
    } else {
        first_failure(steps, outcomes, i + 1)
    }
}

/// A tensor is freed without failure just where every part of it is. Else the
/// first part that could not be freed says why: for its GPU not being in the
/// cluster, or by what came of freeing it.
pub proof fn law_first_failure_is_told(
    steps: Seq<FreeStep>,
    outcomes: Seq<Result<(), VugvaError>>,
)
    requires
        outcomes.len() == steps.len(),
    ensures
        first_failure(steps, outcomes, 0) is Ok <==> forall|i: int|
            0 <= i < steps.len() ==> (#[trigger] steps[i]) is Block && outcomes[i] is Ok,
        first_failure(steps, outcomes, 0) matches Err(e) ==> exists|i: int|
            {
                &&& 0 <= i < steps.len()
                &&& match #[trigger] steps[i] {
                    FreeStep::NoSuchGpu(ordinal) => e == Failure::InvalidGpu(ordinal),
                    FreeStep::Block { .. } => outcomes[i] is Err && e == outcomes[i]->Err_0@,
                }
                &&& forall|j: int|
                    0 <= j < i ==> (#[trigger] steps[j]) is Block && outcomes[j] is Ok
            },
{
    lemma_first_failure(steps, outcomes, 0);
}

proof fn lemma_first_failure(
    steps: Seq<FreeStep>,
    outcomes: Seq<Result<(), VugvaError>>,
    from: int,
)
    requires
        outcomes.len() == steps.len(),
        0 <= from <= steps.len(),
    ensures
        first_failure(steps, outcomes, from) is Ok <==> forall|i: int|
            from <= i < steps.len() ==> (#[trigger] steps[i]) is Block && outcomes[i] is Ok,
        first_failure(steps, outcomes, from) matches Err(e) ==> exists|i: int|
            {
                &&& from <= i < steps.len()
                &&& match #[trigger] steps[i] {
                    FreeStep::NoSuchGpu(ordinal) => e == Failure::InvalidGpu(ordinal),
                    FreeStep::Block { .. } => outcomes[i] is Err && e == outcomes[i]->Err_0@,
                }
                &&& forall|j: int|
                    from <= j < i ==> (#[trigger] steps[j]) is Block && outcomes[j] is Ok
            },
    decreases steps.len() - from,
{
    if from < steps.len() {
        let here = steps[from];
        if freed_part(steps, outcomes, from) is Ok {
            lemma_first_failure(steps, outcomes, from + 1);
        }
    }
}

impl VugvaEngine {
    /// All parts of the engine are in order, and there is a GPU at least.
    pub open spec fn wf(&self) -> bool {
        self.cluster.wf() && self.vmt.wf() && self@.wf()
    }

    /// An engine is built from the GPUs it is to use.
    pub fn builder() -> (r: VugvaEngineBuilder)
        ensures
            r.gpu_ordinals@ == Seq::<i32>::empty(),
    {
        VugvaEngineBuilder::new()
    }

    /// An engine without any tensor. There has to be a GPU at least.
    pub fn new(cluster: GpuCluster) -> (r: Result<Self, VugvaError>)
        requires
            cluster.wf(),
        ensures
            match r {
                Ok(engine) => {
                    &&& cluster.ordinals@.len() > 0
                    &&& engine.wf()
                    &&& engine@ == (Engine {
                        cluster,
                        table: Table { pages: Map::empty(), next_id: 0 },
                    })
                },
                Err(e) => cluster.ordinals@.len() == 0 && e == VugvaError::InvalidGpu(0),
            },
    {
        if cluster.ordinals.len() == 0 {
            return Err(VugvaError::InvalidGpu(0));
        }
        let vmt = VirtualMemoryTable::new(cluster.ordinals.len(), cluster.numa.node_count);
        Ok(VugvaEngine { cluster, vmt })
    }

    /// Whether the GPUs are to be asked for their free memory before a tensor is
    /// allocated.
    pub fn asks_for_room(shape: &[usize], element_size: usize) -> (r: bool)
        requires
            vmt::sizable(shape@, element_size),
        ensures
            r == (vmt::tensor_bytes(shape@, element_size) <= SINGLE_GPU_LIMIT),
    {
        vmt::size_of_tensor(shape, element_size) <= SINGLE_GPU_LIMIT
    }

    fn first_with_room(free: &[Option<usize>], total: usize) -> (r: usize)
        ensures
            r == first_with_room(free@, total as int),
            r <= free@.len(),
    {
        let mut i: usize = 0;
        assert(free@.skip(0) =~= free@);
        while i < free.len()
            invariant
                i <= free@.len(),
                first_with_room(free@, total as int) == i + first_with_room(
                    free@.skip(i as int),
                    total as int,
                ),
            decreases free@.len() - i,
        {
            assert(free@.skip(i as int).skip(1) =~= free@.skip(i + 1));
            if let Some(bytes) = free[i] {
                if bytes >= total {
                    return i;
                }
            }
            i = i + 1;
        }
        i
    }

    fn part(&self, total: usize, i: usize) -> (r: BlockRequest)
        requires
            self.wf(),
            i < self@.gpus(),
        ensures
            r == self@.part(total, i as int),
    {
        let n: usize = self.cluster.ordinals.len();
        proof {
            model::lemma_share_bounds(total as int, n as int, i as int);
        }
        let bytes: usize = if i + 1 == n {
            total / n + total % n
        } else {
            total / n
        };
        BlockRequest { gpu_idx: i, bytes, single: false }
    }

    /// Allocate a tensor. `free` is what each GPU has left, as far as it was
    /// asked and answered.
    pub fn allocate(
        &mut self,
        name: &str,
        shape: &[usize],
        element_size: usize,
        free: &[Option<usize>],
    ) -> (r: AllocateStep)
        requires
            old(self).wf(),
            vmt::sizable(shape@, element_size),
            name@.len() == 0 ==> old(self)@.table.next_id < u64::MAX,
            free@.len() <= old(self)@.gpus(),
        ensures
            final(self).wf(),
            (final(self)@, r@) == old(self)@.allocate(name@, shape@, element_size, free@),
            r matches AllocateStep::Pending { name, request } ==> final(self)@.has(name@)
                && request.gpu_idx < final(self)@.gpus(),
    {
        let total: usize = vmt::size_of_tensor(shape, element_size);
        let given = match self.vmt.allocate(name, shape, element_size) {
            Ok(n) => n,
            Err(e) => {
                return AllocateStep::Finished(Err(e));
            },
        };
        let room: usize = Self::first_with_room(free, total);
        let request = if total <= SINGLE_GPU_LIMIT && room < free.len() {
            BlockRequest { gpu_idx: room, bytes: total, single: true }
        } else {
            self.part(total, 0)
        };
        AllocateStep::Pending { name: given, request }
    }

    /// Go on with an allocation, from what came of the request for device
    /// memory. A failure leaves the tensor registered with the parts it has.
    pub fn resume_allocate(
        &mut self,
        name: String,
        request: BlockRequest,
        event: Result<u64, VugvaError>,
    ) -> (r: AllocateStep)
        requires
            old(self).wf(),
            old(self)@.has(name@),
            request.gpu_idx < old(self)@.gpus(),
            event is Ok ==> old(self)@.page(name@).element_size > 0,
        ensures
            final(self).wf(),
            (final(self)@, r@) == old(self)@.resume_allocate(
                name@,
                request,
                error::outcome(event),
            ),
            r matches AllocateStep::Pending { name, request } ==> final(self)@.has(name@)
                && request.gpu_idx < final(self)@.gpus(),
    {
        let ptr: u64 = match event {
            Ok(p) => p,
            Err(e) => {
                return AllocateStep::Finished(Err(e));
            },
        };
        let n: usize = self.cluster.ordinals.len();
        let last = request.single || request.gpu_idx + 1 == n;
        let ordinal: i32 = self.cluster.ordinals[request.gpu_idx];
        let mut total: usize = 0;
        if let Some(page) = self.vmt.lookup_mut(name.as_str()) {
            total = page.size_bytes;
            let num_elements: usize = request.bytes / page.element_size;
            page.vram_chunks.push(
                Chunk {
                    gpu_ordinal: ordinal,
                    device_ptr: ptr,
                    size_bytes: request.bytes,
                    num_elements,
                },
            );
            if last {
                page.state = PageState::Resident;
                page.tier = Tier::Vram;
            }
        }
        if last {
            return AllocateStep::Finished(Ok(name));
        }
        let request = self.part(total, request.gpu_idx + 1);
        AllocateStep::Pending { name, request }
    }

    /// Access a tensor from a GPU: the address of its part there, else of a copy
    /// of its first part, which has to be made first.
    pub fn access(&self, name: &str, gpu_ordinal: i32) -> (r: ReachStep)
        requires
            self.wf(),
            self@.access(name@, gpu_ordinal) is Pending ==> gpu::position_of(
                self@.cluster.ordinals@,
                self@.page(name@).vram_chunks[0].gpu_ordinal,
            ) is Some,
        ensures
            r@ == self@.access(name@, gpu_ordinal),
    {
        let gpu_idx: usize = match self.cluster.index_of(gpu_ordinal) {
            Some(g) => g,
            None => {
                return ReachStep::Finished(
                    Err(
                        VugvaError::InvalidGpu(
                            #[verifier::truncate]
                            (gpu_ordinal as usize),
                        ),
                    ),
                );
            },
        };
        let page = match self.vmt.lookup(name) {
            Some(p) => p,
            None => {
                return ReachStep::Finished(Err(VugvaError::UnknownAllocation(name.to_owned())));
            },
        };
        if page.state == PageState::Resident {
            let own: usize = crate::tiered::access::index_on(&page.vram_chunks, gpu_ordinal);
            if own < page.vram_chunks.len() {
                return ReachStep::Finished(Ok(page.vram_chunks[own].device_ptr));
            }
        }
        if page.vram_chunks.len() == 0 {
            return ReachStep::Finished(Err(VugvaError::UnknownAllocation(name.to_owned())));
        }
        let src: Chunk = page.vram_chunks[0];
        if src.gpu_ordinal == gpu_ordinal {
            return ReachStep::Finished(Ok(src.device_ptr));
        }
        match self.cluster.index_of(src.gpu_ordinal) {
            Some(src_idx) => ReachStep::Pending(
                PeerCopy { src_idx, src_ptr: src.device_ptr, gpu_idx, bytes: src.size_bytes },
            ),
            None => ReachStep::Finished(Err(VugvaError::UnknownAllocation(name.to_owned()))),
        }
    }

    /// Conclude an access, from what came of the copy: the address of it.
    pub fn finish_access(
        &mut self,
        name: &str,
        gpu_ordinal: i32,
        bytes: usize,
        event: Result<u64, VugvaError>,
    ) -> (r: Result<u64, VugvaError>)
        requires
            old(self).wf(),
            event is Ok ==> old(self)@.has(name@) && old(self)@.page(name@).element_size > 0,
        ensures
            final(self).wf(),
            r == event,
            final(self)@ == match event {
                Ok(ptr) => old(self)@.arrived(name@, gpu_ordinal, bytes, ptr),
                Err(_) => old(self)@,
            },
    {
        if let Ok(ptr) = &event {
            let device_ptr: u64 = *ptr;
            if let Some(page) = self.vmt.lookup_mut(name) {
                let num_elements: usize = bytes / page.element_size;
                page.vram_chunks.push(
                    Chunk { gpu_ordinal, device_ptr, size_bytes: bytes, num_elements },
                );
            }
        }
        event
    }

    /// Drop a tensor. The result is what has to be freed, one step for each of
    /// its parts in order; all of them are to be attempted, even where an
    /// earlier one fails.
    pub fn free(&mut self, name: &str) -> (r: Result<Vec<FreeStep>, VugvaError>)
        requires
            old(self).wf(),
        ensures
            final(self).wf(),
            final(self)@ == (Engine {
                table: Table { pages: old(self)@.table.pages.remove(name@), ..old(self)@.table },
                ..old(self)@
            }),
            match r {
                Ok(steps) => {
                    &&& old(self)@.has(name@)
                    &&& steps@ == old(self)@.page(name@).vram_chunks.map_values(
                        |c: Chunk| old(self)@.freeing(c),
                    )
                },
                Err(e) => !old(self)@.has(name@) && e@ == Failure::UnknownAllocation(name@),
            },
    {
        let ghost pre = self@;
        let page = match self.vmt.remove(name) {
            Some(p) => p,
            None => {
                return Err(VugvaError::UnknownAllocation(name.to_owned()));
            },
        };
        let mut steps: Vec<FreeStep> = Vec::new();
        let mut i: usize = 0;
        while i < page.vram_chunks.len()
            invariant
                i <= page.vram_chunks@.len(),
                self.cluster == pre.cluster,
                steps@.len() == i,
                forall|k: int|
                    0 <= k < i ==> #[trigger] steps@[k] == pre.freeing(page.vram_chunks@[k]),
            decreases page.vram_chunks@.len() - i,
        {
            let chunk: Chunk = page.vram_chunks[i];
            let step = match self.cluster.index_of(chunk.gpu_ordinal) {
                Some(gpu_idx) => FreeStep::Block { gpu_idx, ptr: chunk.device_ptr },
                None => FreeStep::NoSuchGpu(
                    #[verifier::truncate]
                    (chunk.gpu_ordinal as usize),
                ),
            };
            steps.push(step);
            i = i + 1;
        }
        assert(steps@ =~= page.vram_chunks@.map_values(|c: Chunk| pre.freeing(c)));
        Ok(steps)
    }

    /// What came of dropping a tensor: the first failure, if any. There is one
    /// outcome for each step; that of a part on a GPU that is not known does not
    /// count.
    pub fn conclude_free(steps: &Vec<FreeStep>, outcomes: Vec<Result<(), VugvaError>>) -> (r: Result<
        (),
        VugvaError,
    >)
        requires
            outcomes@.len() == steps@.len(),
        ensures
            error::outcome(r) == first_failure(steps@, outcomes@, 0),
    {
        let mut rest = outcomes;
        let ghost all = outcomes@;
        let mut first: Result<(), VugvaError> = Ok(());
        let mut i: usize = steps.len();
        assert(rest@ =~= all.take(i as int));
        while i > 0
            invariant
                i <= steps@.len() == all.len(),
                rest@ == all.take(i as int),
                error::outcome(first) == first_failure(steps@, all, i as int),
            decreases i,
        {
            let last = rest.pop();
            i = i - 1;
            assert(rest@ =~= all.take(i as int));
            match steps[i] {
                FreeStep::NoSuchGpu(g) => {
                    first = Err(VugvaError::InvalidGpu(g));
                },
                FreeStep::Block { .. } => {
                    if let Some(Err(e)) = last {
                        first = Err(e);
                    }
                },
            }
        }
        first
    }
}

/// What an engine stands for is its GPUs and its tensors, and what a step stands
/// for is what it says.
pub proof fn law_an_engine_is_its_parts(engine: VugvaEngine, reach: ReachStep, copy: PeerCopy)
    ensures
        engine@.cluster == engine.cluster,
        engine@.table == engine.vmt@,
        reach@ == Reach::Pending(copy) <==> reach == ReachStep::Pending(copy),
        reach matches ReachStep::Finished(Ok(ptr)) ==> reach@ == Reach::Finished(Ok(ptr)),
        reach matches ReachStep::Finished(Err(e)) ==> reach@ == Reach::Finished(Err(e@)),
{
}

} // verus!
