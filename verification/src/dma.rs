//! The DMA control plane: descriptors, command rings and an engine with one
//! ring per GPU.
//!
//! The host writes a 64-byte descriptor into a ring and advances the producer
//! index; whoever executes the transfers reads the next descriptor with
//! [`DmaRing::peek`] and retires it with [`DmaRing::ack`].

use crate::error::VugvaError;
use vstd::prelude::*;

verus! {

/// `dst_addr` is host memory rather than device memory: the descriptor is a
/// writeback, not a promotion.
pub const DMA_FLAG_WRITEBACK: u32 = 1;

/// Number of slots of a ring.
pub const RING_SLOTS: u32 = 1024;

/// The bits of an index that name a slot.
const SLOT_MASK: u32 = 1023;

/// One DMA transfer.
#[derive(Debug, Clone, Copy)]
pub struct DmaDescriptor {
    /// Source address (host or device).
    pub src_addr: u64,
    /// Destination address (host or device).
    pub dst_addr: u64,
    /// Transfer size in bytes.
    pub size: u32,
    /// Source GPU or NUMA node.
    pub src_ordinal: u32,
    /// Destination GPU or NUMA node.
    pub dst_ordinal: u32,
    /// Priority: 0 cold, 1 warm, 2 hot.
    pub priority: u32,
    /// Flags, see `DMA_FLAG_*`.
    ///
    /// Both addresses are bare numbers, so a host pointer and a device pointer
    /// cannot be told apart once written: the direction has to be stated.
    pub flags: u32,
    /// Fills the descriptor up to 64 bytes.
    pub reserved: [u8; 28],
}

/// What a [`DmaDescriptor`] says.
pub struct Descriptor {
    /// Source address.
    pub src_addr: u64,
    /// Destination address.
    pub dst_addr: u64,
    /// Transfer size in bytes.
    pub size: u32,
    /// Source GPU or NUMA node.
    pub src_ordinal: u32,
    /// Destination GPU or NUMA node.
    pub dst_ordinal: u32,
    /// Priority.
    pub priority: u32,
    /// Flags.
    pub flags: u32,
}

impl View for DmaDescriptor {
    type V = Descriptor;

    open spec fn view(&self) -> Descriptor {
        Descriptor {
            src_addr: self.src_addr,
            dst_addr: self.dst_addr,
            size: self.size,
            src_ordinal: self.src_ordinal,
            dst_ordinal: self.dst_ordinal,
            priority: self.priority,
            flags: self.flags,
        }
    }
}

/// What a descriptor says is all that it holds.
pub proof fn law_a_descriptor_says_what_it_holds(d: DmaDescriptor)
    ensures
        d@.src_addr == d.src_addr,
        d@.dst_addr == d.dst_addr,
        d@.size == d.size,
        d@.src_ordinal == d.src_ordinal,
        d@.dst_ordinal == d.dst_ordinal,
        d@.priority == d.priority,
        d@.flags == d.flags,
{
}

impl DmaDescriptor {
    /// A descriptor of the given transfer.
    pub fn new(
        src_addr: u64,
        dst_addr: u64,
        size: u32,
        src_ordinal: u32,
        dst_ordinal: u32,
        priority: u32,
        flags: u32,
    ) -> (r: Self)
        ensures
            r@ == (Descriptor {
                src_addr,
                dst_addr,
                size,
                src_ordinal,
                dst_ordinal,
                priority,
                flags,
            }),
    {
        DmaDescriptor {
            src_addr,
            dst_addr,
            size,
            src_ordinal,
            dst_ordinal,
            priority,
            flags,
            reserved: [0u8; 28],
        }
    }
}

/// How many of a run of transfers were submitted and completed.
#[derive(Debug)]
pub struct DmaCompletion {
    /// Number of descriptors submitted.
    pub submitted: u32,
    /// Number of transfers confirmed complete.
    pub completed: u32,
}

/// `a - b`, or zero where that is negative.
pub open spec fn excess(a: u32, b: u32) -> u32 {
    if a >= b {
        (a - b) as u32
    } else {
        0
    }
}

/// The index after `i`: indices wrap around.
pub open spec fn next_index(i: u32) -> u32 {
    if i == u32::MAX {
        0
    } else {
        (i + 1) as u32
    }
}

impl DmaCompletion {
    /// Nothing submitted, nothing completed.
    pub fn new() -> (r: Self)
        ensures
            r.submitted == 0,
            r.completed == 0,
    {
        DmaCompletion { submitted: 0, completed: 0 }
    }

    /// Every submitted transfer is complete.
    pub fn is_done(&self) -> (r: bool)
        ensures
            r == (self.submitted == self.completed),
    {
        self.submitted == self.completed
    }

    /// Number of transfers still in flight.
    pub fn pending(&self) -> (r: u32)
        ensures
            r == excess(self.submitted, self.completed),
    {
        self.submitted.saturating_sub(self.completed)
    }
}

impl Default for DmaCompletion {
    fn default() -> (r: Self)
        ensures
            r.submitted == 0,
            r.completed == 0,
    {
        DmaCompletion::new()
    }
}

/// What a [`DmaRing`] stands for.
#[verifier::ext_equal]
pub struct Ring {
    /// The descriptor in each slot.
    pub slots: Seq<Descriptor>,
    /// Index of the next descriptor to be consumed.
    pub consumer: u32,
    /// Index of the next descriptor to be written.
    pub submitted: u32,
    /// Number of transfers confirmed complete.
    pub completed: u32,
}

impl Ring {
    /// The ring has all its slots.
    pub open spec fn wf(self) -> bool {
        self.slots.len() == RING_SLOTS
    }

    /// A ring in which nothing was ever written.
    pub open spec fn fresh() -> Ring {
        let blank = Descriptor {
            src_addr: 0,
            dst_addr: 0,
            size: 0,
            src_ordinal: 0,
            dst_ordinal: 0,
            priority: 0,
            flags: 0,
        };
        Ring {
            slots: Seq::new(RING_SLOTS as nat, |i: int| blank),
            consumer: 0,
            submitted: 0,
            completed: 0,
        }
    }

    /// Number of descriptors written and not yet consumed.
    pub open spec fn pending(self) -> u32 {
        excess(self.submitted, self.consumer)
    }

    /// No slot is left.
    pub open spec fn full(self) -> bool {
        self.pending() >= RING_SLOTS
    }

    /// The producer index can still be advanced where the ring has room.
    pub open spec fn can_advance(self) -> bool {
        self.full() || self.submitted < u32::MAX
    }

    /// The ring with `d` in the next slot.
    pub open spec fn push(self, d: Descriptor) -> Ring {
        Ring {
            slots: self.slots.update(self.submitted as int % RING_SLOTS as int, d),
            submitted: (self.submitted + 1) as u32,
            ..self
        }
    }

    /// The ring once a transfer is confirmed complete.
    pub open spec fn one_more_complete(self) -> Ring {
        Ring { completed: next_index(self.completed), ..self }
    }

    /// The ring once the next descriptor is consumed.
    pub open spec fn consumed(self) -> Ring {
        Ring { consumer: next_index(self.consumer), ..self.one_more_complete() }
    }

    /// The next descriptor to be consumed.
    pub open spec fn next(self) -> Descriptor {
        self.slots[self.consumer as int % RING_SLOTS as int]
    }

    /// The ring has never been consumed from, and no transfer is complete.
    pub open spec fn unconsumed(self) -> bool {
        &&& self.wf()
        &&& self.consumer == 0
        &&& self.completed == 0
        &&& self.submitted <= RING_SLOTS
    }

    /// Number of transfers submitted and not yet complete.
    pub open spec fn in_flight(self) -> u32 {
        excess(self.submitted, self.completed)
    }

    /// The consumer is not ahead of the producer, nor a whole ring behind.
    pub open spec fn in_order(self) -> bool {
        self.wf() && self.consumer <= self.submitted <= self.consumer + RING_SLOTS
    }

    /// The descriptors written and not yet consumed, oldest first.
    pub open spec fn queue(self) -> Seq<Descriptor> {
        Seq::new(
            self.pending() as nat,
            |i: int| self.slots[(self.consumer + i) % RING_SLOTS as int],
        )
    }
}

/// Submitting appends to the queue of pending descriptors and overwrites none
/// of them.
pub proof fn law_submit_appends(r: Ring, d: Descriptor)
    requires
        r.in_order(),
        !r.full(),
        r.submitted < u32::MAX,
    ensures
        r.push(d).in_order(),
        r.push(d).queue() == r.queue().push(d),
{
    assert forall|i: int| 0 <= i < r.pending() implies r.push(d).queue()[i] == #[trigger]
        r.queue()[i] by {
        lemma_offset_mod(r.consumer + i, r.submitted - (r.consumer + i));
    }
    assert(r.push(d).queue() =~= r.queue().push(d));
}

/// Two indices less than a ring apart name different slots.
proof fn lemma_offset_mod(a: int, k: int)
    requires
        0 <= a,
        0 < k < 1024,
    ensures
        a % 1024 != (a + k) % 1024,
{
}

/// Acknowledging takes the oldest descriptor off the queue: descriptors are
/// consumed in the order in which they were submitted, each once.
pub proof fn law_ack_takes_the_oldest(r: Ring)
    requires
        r.in_order(),
        r.consumer < r.submitted,
    ensures
        r.next() == r.queue()[0],
        r.consumed().in_order(),
        r.consumed().queue() == r.queue().skip(1),
{
    assert(r.consumed().queue() =~= r.queue().skip(1));
}

/// A ring that is only submitted to is idle exactly where nothing is in flight,
/// and a submission that it has room for is one more transfer in flight.
pub proof fn law_a_submission_is_in_flight(r: Ring, d: Descriptor)
    requires
        r.unconsumed(),
    ensures
        r.submitted == r.completed <==> r.in_flight() == 0,
        r.in_flight() == r.pending(),
        !r.full() ==> r.push(d).unconsumed() && r.push(d).in_flight() == r.in_flight() + 1,
{
}

/// A ring that is in order has as many descriptors pending as were written and
/// not consumed, and is full with 1024 of them. Where the consumer is ahead,
/// nothing is pending.
pub proof fn law_pending_is_what_is_not_consumed(r: Ring)
    ensures
        r.consumer <= r.submitted ==> r.pending() == r.submitted - r.consumer,
        r.consumer > r.submitted ==> r.pending() == 0,
        r.queue().len() == r.pending(),
        r.full() <==> r.submitted - r.consumer >= 1024,
        r.completed <= r.submitted ==> r.in_flight() == r.submitted - r.completed,
        r.completed > r.submitted ==> r.in_flight() == 0,
{
}

/// Nothing is pending or in flight in a new ring, and it takes 1024 descriptors.
pub proof fn law_new_ring_is_empty()
    ensures
        Ring::fresh().slots.len() == 1024,
        Ring::fresh().pending() == 0,
        Ring::fresh().in_flight() == 0,
        Ring::fresh().unconsumed(),
        Ring::fresh().in_order(),
        !Ring::fresh().full(),
{
}

/// Consuming a descriptor completes its transfer: there is one less pending and
/// one less in flight. Completing a transfer otherwise leaves what is pending.
/// Neither changes any descriptor.
pub proof fn law_consuming_completes(r: Ring)
    requires
        r.consumer < r.submitted,
        r.completed < r.submitted,
    ensures
        r.consumed().pending() == r.pending() - 1,
        r.consumed().in_flight() == r.in_flight() - 1,
        r.consumed().completed == r.completed + 1,
        r.consumed().submitted == r.submitted,
        r.consumed().slots == r.slots,
        r.one_more_complete().pending() == r.pending(),
        r.one_more_complete().in_flight() == r.in_flight() - 1,
        r.one_more_complete().slots == r.slots,
        r.one_more_complete().submitted == r.submitted,
{
}

/// The DMA command ring of one GPU.
pub struct DmaRing {
    /// The descriptor in each slot.
    pub ring: Vec<DmaDescriptor>,
    /// Index of the next descriptor to be consumed.
    pub consumer: u32,
    /// How many transfers were submitted and completed.
    pub completion: DmaCompletion,
}

/// What some descriptors stand for.
pub open spec fn descriptors(s: Seq<DmaDescriptor>) -> Seq<Descriptor> {
    s.map_values(|d: DmaDescriptor| d@)
}

impl View for DmaRing {
    type V = Ring;

    open spec fn view(&self) -> Ring {
        Ring {
            slots: descriptors(self.ring@),
            consumer: self.consumer,
            submitted: self.completion.submitted,
            completed: self.completion.completed,
        }
    }
}

impl DmaRing {
    /// The counts of a ring are those of what it stands for.
    pub proof fn law_counts_are_those_of_the_view(&self)
        ensures
            self@.submitted == self.completion.submitted,
            self@.completed == self.completion.completed,
    {
    }

    /// An empty ring.
    pub fn new() -> (r: Self)
        ensures
            r@.wf(),
            r@ == Ring::fresh(),
    {
        let mut ring: Vec<DmaDescriptor> = Vec::new();
        let mut i: u32 = 0;
        while i < RING_SLOTS
            invariant
                i <= RING_SLOTS,
                ring@.len() == i,
                forall|k: int| 0 <= k < i ==> (#[trigger] ring@[k])@ == Ring::fresh().slots[k],
            decreases RING_SLOTS - i,
        {
            ring.push(DmaDescriptor::new(0, 0, 0, 0, 0, 0, 0));
            i = i + 1;
        }
        let r = DmaRing { ring, consumer: 0, completion: DmaCompletion::new() };
        assert(r@.slots =~= Ring::fresh().slots);
        r
    }

    /// Number of descriptors not yet consumed.
    pub fn pending_count(&self) -> (r: u32)
        ensures
            r == self@.pending(),
    {
        self.completion.submitted.saturating_sub(self.consumer)
    }

    /// No slot is left.
    pub fn is_full(&self) -> (r: bool)
        ensures
            r == self@.full(),
    {
        self.pending_count() >= RING_SLOTS
    }

    /// Write a descriptor into the next slot and advance the producer index.
    /// The result is the slot.
    pub fn submit(&mut self, desc: &DmaDescriptor) -> (r: Result<u32, VugvaError>)
        requires
            old(self)@.wf(),
            old(self)@.can_advance(),
        ensures
            final(self)@.wf(),
            old(self)@.full() ==> r == Err::<u32, VugvaError>(VugvaError::DmaRingFull)
                && final(self)@ == old(self)@,
            !old(self)@.full() ==> {
                &&& r is Ok
                &&& r->Ok_0 == old(self)@.submitted as int % RING_SLOTS as int
                &&& final(self)@ == old(self)@.push(desc@)
            },
    {
        if self.is_full() {
            return Err(VugvaError::DmaRingFull);
        }
        let ghost pre = self@;
        let producer: u32 = self.completion.submitted;
        let slot: u32 = producer & SLOT_MASK;
        assert(slot == producer % 1024) by (bit_vector)
            requires
                slot == producer & 1023,
        ;
        self.ring.set(slot as usize, *desc);
        self.completion.submitted = producer + 1;
        assert(self@.slots =~= pre.push(desc@).slots);
        Ok(slot)
    }

    /// Count one more transfer as complete.
    pub fn mark_complete(&mut self)
        ensures
            final(self)@ == old(self)@.one_more_complete(),
    {
        self.completion.completed = self.completion.completed.wrapping_add(1);
    }

    /// The next descriptor, which stays where it is.
    pub fn peek(&self) -> (r: Option<&DmaDescriptor>)
        requires
            self@.wf(),
        ensures
            match r {
                Some(d) => self@.consumer < self@.submitted && d@ == self@.next(),
                None => self@.consumer >= self@.submitted,
            },
    {
        let consumer: u32 = self.consumer;
        if consumer >= self.completion.submitted {
            return None;
        }
        let slot: u32 = consumer & SLOT_MASK;
        assert(slot == consumer % 1024) by (bit_vector)
            requires
                slot == consumer & 1023,
        ;
        Some(&self.ring[slot as usize])
    }

    /// Consume the next descriptor and count its transfer as complete.
    pub fn ack(&mut self)
        ensures
            final(self)@ == old(self)@.consumed(),
    {
        self.consumer = self.consumer.wrapping_add(1);
        self.mark_complete();
    }
}

impl Default for DmaRing {
    fn default() -> (r: Self)
        ensures
            r@.wf(),
            r@ == Ring::fresh(),
    {
        DmaRing::new()
    }
}

/// The DMA engine: one ring per GPU.
pub struct DmaEngine {
    rings: Vec<DmaRing>,
}

spec fn ring_views(s: Seq<DmaRing>) -> Seq<Ring> {
    s.map_values(|r: DmaRing| r@)
}

/// Transfers in flight on all of `rings`.
pub open spec fn total_in_flight(rings: Seq<Ring>) -> int
    decreases rings.len(),
{
    if rings.len() == 0 {
        0
    } else {
        total_in_flight(rings.drop_last()) + rings.last().in_flight()
    }
}

proof fn lemma_total_in_flight_grows(rings: Seq<Ring>, k: int)
    requires
        0 <= k <= rings.len(),
    ensures
        0 <= total_in_flight(rings.take(k)) <= total_in_flight(rings),
    decreases rings.len(),
{
    if k == rings.len() {
        assert(rings.take(k) =~= rings);
        if k > 0 {
            lemma_total_in_flight_grows(rings.drop_last(), k - 1);
        }
    } else {
        lemma_total_in_flight_grows(rings.drop_last(), k);
        assert(rings.drop_last().take(k) =~= rings.take(k));
    }
}

/// A transfer from host memory to the GPU at index `gpu`.
pub open spec fn promotion(
    gpu: usize,
    src_addr: u64,
    dst_addr: u64,
    size_bytes: usize,
    priority: u32,
) -> Descriptor {
    Descriptor {
        src_addr,
        dst_addr,
        size: size_bytes as u32,
        src_ordinal: gpu as u32,
        dst_ordinal: gpu as u32,
        priority,
        flags: 0,
    }
}

/// A transfer from the GPU at index `gpu` back to host memory.
pub open spec fn writeback(
    gpu: usize,
    src_addr: u64,
    dst_addr: u64,
    size_bytes: usize,
    priority: u32,
) -> Descriptor {
    Descriptor {
        flags: DMA_FLAG_WRITEBACK,
        ..promotion(gpu, src_addr, dst_addr, size_bytes, priority)
    }
}

/// A transfer from the GPU at index `src_gpu` to that at index `dst_gpu`.
pub open spec fn exchange(
    src_gpu: usize,
    dst_gpu: usize,
    src_addr: u64,
    dst_addr: u64,
    size_bytes: usize,
    priority: u32,
) -> Descriptor {
    Descriptor {
        src_ordinal: src_gpu as u32,
        ..promotion(dst_gpu, src_addr, dst_addr, size_bytes, priority)
    }
}

/// What submitting `d` to the ring of GPU `gpu` does to `pre`.
pub open spec fn submitted(
    pre: Seq<Ring>,
    gpu: int,
    d: Descriptor,
    r: Result<u32, VugvaError>,
    post: Seq<Ring>,
) -> bool {
    if pre[gpu].full() {
        r == Err::<u32, VugvaError>(VugvaError::DmaRingFull) && post == pre
    } else {
        &&& r is Ok
        &&& r->Ok_0 == pre[gpu].submitted as int % RING_SLOTS as int
        &&& post == pre.update(gpu, pre[gpu].push(d))
    }
}

/// A descriptor carries the addresses, the size as far as it can be told, and the
/// priority of its transfer. Of a transfer with host memory the GPU stands at
/// both ends, of one between GPUs each at its end. The flag tells a writeback from
/// any other.
pub proof fn law_descriptors_describe_the_transfer(
    gpu: usize,
    other: usize,
    src_addr: u64,
    dst_addr: u64,
    size_bytes: usize,
    priority: u32,
)
    ensures
        ({
            let up = promotion(gpu, src_addr, dst_addr, size_bytes, priority);
            let down = writeback(gpu, src_addr, dst_addr, size_bytes, priority);
            &&& up.src_addr == src_addr && down.src_addr == src_addr
            &&& up.dst_addr == dst_addr && down.dst_addr == dst_addr
            &&& size_bytes <= u32::MAX ==> up.size == size_bytes && down.size == size_bytes
            &&& gpu <= u32::MAX ==> up.src_ordinal == gpu && down.src_ordinal == gpu
            &&& gpu <= u32::MAX ==> up.dst_ordinal == gpu && down.dst_ordinal == gpu
            &&& up.priority == priority && down.priority == priority
            &&& up.flags == 0
            &&& down.flags == 1
        }),
        ({
            let across = exchange(other, gpu, src_addr, dst_addr, size_bytes, priority);
            &&& across.src_addr == src_addr
            &&& across.dst_addr == dst_addr
            &&& size_bytes <= u32::MAX ==> across.size == size_bytes
            &&& other <= u32::MAX ==> across.src_ordinal == other
            &&& gpu <= u32::MAX ==> across.dst_ordinal == gpu
            &&& across.priority == priority
            &&& across.flags == 0
        }),
{
}

/// A descriptor that is submitted stands in the slot that is returned, of the
/// ring of its GPU alone, behind those that were pending there. A full ring
/// refuses it and nothing changes.
pub proof fn law_submitted_descriptor_is_queued(
    pre: Seq<Ring>,
    gpu: int,
    d: Descriptor,
    r: Result<u32, VugvaError>,
    post: Seq<Ring>,
)
    requires
        0 <= gpu < pre.len(),
        pre[gpu].in_order(),
        pre[gpu].submitted < u32::MAX,
        submitted(pre, gpu, d, r, post),
    ensures
        post.len() == pre.len(),
        forall|g: int| 0 <= g < pre.len() && g != gpu ==> #[trigger] post[g] == pre[g],
        pre[gpu].queue().len() >= 1024 <==> r is Err,
        r is Err ==> post == pre && r->Err_0 == VugvaError::DmaRingFull,
        r matches Ok(slot) ==> {
            &&& slot < 1024
            &&& post[gpu].slots[slot as int] == d
            &&& post[gpu].queue() == pre[gpu].queue().push(d)
            &&& post[gpu].submitted == pre[gpu].submitted + 1
        },
{
    if !pre[gpu].full() {
        law_submit_appends(pre[gpu], d);
        assert(0 <= pre[gpu].submitted as int % 1024 < 1024);
    }
}

/// What is in flight in all is what is in flight on each ring: nothing on no
/// ring, and with one ring more what is in flight on that.
pub proof fn law_flights_add_up(rings: Seq<Ring>, r: Ring)
    ensures
        total_in_flight(Seq::empty()) == 0,
        total_in_flight(rings.push(r)) == total_in_flight(rings) + r.in_flight(),
        total_in_flight(rings) >= 0,
        total_in_flight(rings) == 0 <==> forall|i: int|
            0 <= i < rings.len() ==> (#[trigger] rings[i]).in_flight() == 0,
    decreases rings.len(),
{
    assert(rings.push(r).drop_last() =~= rings);
    if rings.len() > 0 {
        let init = rings.drop_last();
        law_flights_add_up(init, r);
        let last = rings.len() - 1;
        assert(rings[last] == rings.last());
        assert forall|i: int| 0 <= i < last implies #[trigger] rings[i] == init[i] by {}
        if forall|i: int| 0 <= i < rings.len() ==> (#[trigger] rings[i]).in_flight() == 0 {
            assert forall|i: int| 0 <= i < init.len() implies (
            #[trigger] init[i]).in_flight() == 0 by {
                assert(rings[i].in_flight() == 0);
            }
            assert(rings[last].in_flight() == 0);
        }
    }
}

impl View for DmaEngine {
    type V = Seq<Ring>;

    closed spec fn view(&self) -> Seq<Ring> {
        ring_views(self.rings@)
    }
}

impl DmaEngine {
    /// Every ring has all its slots, and as the engine only ever submits,
    /// nothing of any ring is consumed or complete.
    pub open spec fn wf(&self) -> bool {
        forall|i: int| 0 <= i < self@.len() ==> (#[trigger] self@[i]).unconsumed()
    }

    /// Empty rings for the given number of GPUs.
    pub fn new(num_gpus: usize) -> (r: Self)
        ensures
            r.wf(),
            r@ == Seq::new(num_gpus as nat, |i: int| Ring::fresh()),
    {
        let mut rings: Vec<DmaRing> = Vec::new();
        let mut i: usize = 0;
        while i < num_gpus
            invariant
                i <= num_gpus,
                rings@.len() == i,
                forall|k: int| 0 <= k < i ==> (#[trigger] rings@[k])@ == Ring::fresh(),
            decreases num_gpus - i,
        {
            rings.push(DmaRing::new());
            i = i + 1;
        }
        let r = DmaEngine { rings };
        assert(r@ =~= Seq::new(num_gpus as nat, |i: int| Ring::fresh()));
        r
    }

    fn submit_to(&mut self, gpu: usize, desc: &DmaDescriptor) -> (r: Result<u32, VugvaError>)
        requires
            old(self).wf(),
            gpu < old(self)@.len(),
        ensures
            final(self).wf(),
            submitted(old(self)@, gpu as int, desc@, r, final(self)@),
    {
        let ghost pre = self@;
        assert(self.rings@[gpu as int]@ == pre[gpu as int]);
        let r = self.rings[gpu].submit(desc);
        assert(self@ =~= pre.update(gpu as int, self.rings@[gpu as int]@));
        assert(pre.update(gpu as int, pre[gpu as int]) =~= pre);
        r
    }

    /// Submit a transfer from host memory to the GPU at index `dst_gpu`. A size
    /// above 4 GiB is written as its low 32 bits.
    pub fn submit_dram_to_vram(
        &mut self,
        dst_gpu: usize,
        src_addr: u64,
        dst_addr: u64,
        size_bytes: usize,
        priority: u32,
    ) -> (r: Result<u32, VugvaError>)
        requires
            old(self).wf(),
        ensures
            final(self).wf(),
            dst_gpu >= old(self)@.len() ==> r == Err::<u32, VugvaError>(
                VugvaError::InvalidGpu(dst_gpu),
            ) && final(self)@ == old(self)@,
            dst_gpu < old(self)@.len() ==> submitted(
                old(self)@,
                dst_gpu as int,
                promotion(dst_gpu, src_addr, dst_addr, size_bytes, priority),
                r,
                final(self)@,
            ),
    {
        if dst_gpu >= self.rings.len() {
            return Err(VugvaError::InvalidGpu(dst_gpu));
        }
        let desc = DmaDescriptor::new(
            src_addr,
            dst_addr,
            #[verifier::truncate]
            (size_bytes as u32),
            #[verifier::truncate]
            (dst_gpu as u32),
            #[verifier::truncate]
            (dst_gpu as u32),
            priority,
            0,
        );
        self.submit_to(dst_gpu, &desc)
    }

    /// Submit a transfer from the GPU at index `src_gpu` back to host memory. A
    /// size above 4 GiB is written as its low 32 bits.
    pub fn submit_vram_to_dram(
        &mut self,
        src_gpu: usize,
        src_addr: u64,
        dst_addr: u64,
        size_bytes: usize,
        priority: u32,
    ) -> (r: Result<u32, VugvaError>)
        requires
            old(self).wf(),
        ensures
            final(self).wf(),
            src_gpu >= old(self)@.len() ==> r == Err::<u32, VugvaError>(
                VugvaError::InvalidGpu(src_gpu),
            ) && final(self)@ == old(self)@,
            src_gpu < old(self)@.len() ==> submitted(
                old(self)@,
                src_gpu as int,
                writeback(src_gpu, src_addr, dst_addr, size_bytes, priority),
                r,
                final(self)@,
            ),
    {
        if src_gpu >= self.rings.len() {
            return Err(VugvaError::InvalidGpu(src_gpu));
        }
        let desc = DmaDescriptor::new(
            src_addr,
            dst_addr,
            #[verifier::truncate]
            (size_bytes as u32),
            #[verifier::truncate]
            (src_gpu as u32),
            #[verifier::truncate]
            (src_gpu as u32),
            priority,
            DMA_FLAG_WRITEBACK,
        );
        self.submit_to(src_gpu, &desc)
    }

    /// Submit a transfer between two GPUs, to the ring of the destination. A
    /// size above 4 GiB is written as its low 32 bits. Where an index is out of
    /// range the error names the larger of the two.
    pub fn submit_vram_to_vram(
        &mut self,
        src_gpu: usize,
        dst_gpu: usize,
        src_addr: u64,
        dst_addr: u64,
        size_bytes: usize,
        priority: u32,
    ) -> (r: Result<u32, VugvaError>)
        requires
            old(self).wf(),
        ensures
            final(self).wf(),
            src_gpu >= old(self)@.len() || dst_gpu >= old(self)@.len() ==> r == Err::<
                u32,
                VugvaError,
            >(
                VugvaError::InvalidGpu(
                    if src_gpu > dst_gpu {
                        src_gpu
                    } else {
                        dst_gpu
                    },
                ),
            ) && final(self)@ == old(self)@,
            src_gpu < old(self)@.len() && dst_gpu < old(self)@.len() ==> submitted(
                old(self)@,
                dst_gpu as int,
                exchange(src_gpu, dst_gpu, src_addr, dst_addr, size_bytes, priority),
                r,
                final(self)@,
            ),
    {
        if src_gpu >= self.rings.len() || dst_gpu >= self.rings.len() {
            let worst: usize = if src_gpu > dst_gpu {
                src_gpu
            } else {
                dst_gpu
            };
            return Err(VugvaError::InvalidGpu(worst));
        }
        let desc = DmaDescriptor::new(
            src_addr,
            dst_addr,
            #[verifier::truncate]
            (size_bytes as u32),
            #[verifier::truncate]
            (src_gpu as u32),
            #[verifier::truncate]
            (dst_gpu as u32),
            priority,
            0,
        );
        self.submit_to(dst_gpu, &desc)
    }

    /// All transfers of a GPU are complete. There are none for an index out of
    /// range.
    pub fn is_idle(&self, gpu_idx: usize) -> (r: bool)
        ensures
            r == (gpu_idx < self@.len() ==> self@[gpu_idx as int].submitted
                == self@[gpu_idx as int].completed),
    {
        if gpu_idx >= self.rings.len() {
            return true;
        }
        self.rings[gpu_idx].completion.is_done()
    }

    /// Number of transfers of a GPU in flight. There are none for an index out
    /// of range.
    pub fn pending(&self, gpu_idx: usize) -> (r: u32)
        ensures
            r == if gpu_idx < self@.len() {
                self@[gpu_idx as int].in_flight()
            } else {
                0
            },
    {
        if gpu_idx >= self.rings.len() {
            return 0;
        }
        self.rings[gpu_idx].completion.pending()
    }

    /// Number of transfers in flight on all GPUs.
    pub fn total_pending(&self) -> (r: u32)
        requires
            total_in_flight(self@) <= u32::MAX,
        ensures
            r == total_in_flight(self@),
    {
        let mut total: u32 = 0;
        let mut i: usize = 0;
        while i < self.rings.len()
            invariant
                i <= self.rings@.len(),
                total_in_flight(self@) <= u32::MAX,
                total == total_in_flight(self@.take(i as int)),
            decreases self.rings@.len() - i,
        {
            proof {
                lemma_total_in_flight_grows(self@, i + 1);
                assert(self@.take(i + 1).drop_last() =~= self@.take(i as int));
                assert(self@.take(i + 1).last() == self.rings@[i as int]@);
            }
            total = total + self.rings[i].completion.pending();
            i = i + 1;
        }
        assert(self@.take(i as int) =~= self@);
        total
    }
}

} // verus!
