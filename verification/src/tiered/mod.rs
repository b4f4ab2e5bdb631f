//! The three-tier pool: device memory above host memory above storage.
//!
//! The pool decides and keeps the books. What the driver and the file have to
//! do, the caller does: an operation that needs it says what is to be done and
//! is resumed with what came of it.

use crate::dma::{DmaEngine, Ring};
use crate::error::VugvaError;
use crate::gpu::GpuCluster;
use crate::membrane::{Membrane, Rates};
use crate::name_map::NameMap;
use crate::ranges::Ranges;
use crate::scan;
use crate::spill::SpillFile;
use crate::tiered::dram::{Dram, DramPool};
use crate::tiered::model::{Inflight, Pool};
use crate::vmt::{Table, VirtualMemoryTable};
use vstd::prelude::*;

pub mod access;
pub mod blocks;
pub mod demote;
pub mod dram;
pub mod fill;
pub mod laws;
pub mod machine;
pub mod model;
pub mod pages;
pub mod placement;
pub mod prefetch;
pub mod reuse;
pub mod soundness;
pub mod steps;
pub mod sweep;

verus! {

/// A page that was not used for this long is demoted: five seconds.
pub const DEFAULT_IDLE_NS: u64 = 5_000_000_000;

/// A page that was used this often is promoted.
pub const HOT_ACCESS_THRESHOLD: u64 = 10;

/// A three-tier pool.
pub struct TieredPool {
    /// The pages.
    pub vmt: VirtualMemoryTable,
    /// The DMA command rings.
    pub dma: DmaEngine,
    /// The GPUs.
    pub cluster: GpuCluster,
    /// The host memory pool of each GPU.
    pub dram_pools: Vec<DramPool>,
    /// The device blocks `(size, address)` of each GPU that can be used again.
    ///
    /// Returning a block to the driver stops the whole device, so blocks are
    /// kept and used again, for requests of exactly their size.
    pub vram_free: Vec<Vec<(usize, u64)>>,
    /// The space of the cold tier, once there is one.
    pub spill: Option<SpillFile>,
    /// Promotions started ahead of need and not yet claimed.
    pub inflight: NameMap<Inflight>,
    /// How often the pages are used.
    pub membrane: Membrane,
    /// Device memory that placement by rate may fill, once it is enabled.
    pub membrane_budget: Option<usize>,
    /// A page that was not used for longer is demoted.
    pub idle_threshold_ns: u64,
    /// A page that was used this often is promoted.
    pub hot_threshold: u64,
}

/// Host memory that was mapped for one GPU.
#[derive(Debug, Clone, Copy)]
pub struct HostMapping {
    /// Address of the first byte.
    pub base_ptr: usize,
    /// The memory is bound to the NUMA node it was asked for.
    pub numa_bound: bool,
    /// The memory is page-locked.
    pub pinned: bool,
}

/// `d` is the untouched pool of `capacity` bytes at `m` for GPU `ordinal`.
pub open spec fn is_fresh_pool(
    d: Dram,
    cluster: GpuCluster,
    ordinal: i32,
    m: HostMapping,
    capacity: usize,
) -> bool {
    &&& cluster.is_optimal_node(ordinal, d.numa_node as int)
    &&& d.gpu_ordinal == ordinal
    &&& d.base_ptr == m.base_ptr
    &&& d.ranges == (Ranges { capacity, offset: 0, blocks: Seq::empty() })
    &&& d.numa_bound == m.numa_bound
    &&& d.pinned == m.pinned
}

/// An untouched pool has handed out nothing, lies where its memory was mapped and
/// serves its GPU from the node that is closest to it.
pub proof fn law_untouched_pool_is_empty(
    d: Dram,
    cluster: GpuCluster,
    ordinal: i32,
    m: HostMapping,
    capacity: usize,
    x: int,
)
    requires
        is_fresh_pool(d, cluster, ordinal, m, capacity),
        m.base_ptr + capacity <= usize::MAX,
    ensures
        d.wf(),
        !d.live(x),
        d.ranges.used() == 0,
        d.ranges.capacity == capacity,
        d.base_ptr == m.base_ptr,
        d.gpu_ordinal == ordinal,
        cluster.is_optimal_node(ordinal, d.numa_node as int),
        d.numa_bound == m.numa_bound,
        d.pinned == m.pinned,
{
}

/// The views of some host pools.
pub open spec fn drams(s: Seq<DramPool>) -> Seq<Dram> {
    s.map_values(|d: DramPool| d@)
}

impl View for TieredPool {
    type V = Pool;

    open spec fn view(&self) -> Pool {
        Pool {
            table: self.vmt@,
            rings: self.dma@,
            cluster: self.cluster,
            dram: drams(self.dram_pools@),
            vram_free: scan::views(self.vram_free@),
            spill: match self.spill {
                Some(s) => Some(s@),
                None => None,
            },
            inflight: self.inflight@,
            rates: self.membrane@,
            membrane_budget: self.membrane_budget,
            idle_threshold_ns: self.idle_threshold_ns,
            hot_threshold: self.hot_threshold,
        }
    }
}

/// What a pool stands for is all that it holds.
pub proof fn law_a_pool_is_what_it_holds(pool: TieredPool, i: int)
    ensures
        pool@.table == pool.vmt@,
        pool@.rings == pool.dma@,
        pool@.cluster == pool.cluster,
        pool@.dram.len() == pool.dram_pools@.len(),
        0 <= i < pool.dram_pools@.len() ==> pool@.dram[i] == pool.dram_pools@[i]@,
        pool@.vram_free.len() == pool.vram_free@.len(),
        0 <= i < pool.vram_free@.len() ==> pool@.vram_free[i] == pool.vram_free@[i]@,
        pool.spill matches Some(file) ==> pool@.spill == Some(file.ranges@),
        pool.spill is None ==> pool@.spill is None,
        pool@.inflight == pool.inflight@,
        pool@.rates == pool.membrane@,
        pool@.membrane_budget == pool.membrane_budget,
        pool@.idle_threshold_ns == pool.idle_threshold_ns,
        pool@.hot_threshold == pool.hot_threshold,
{
}

impl TieredPool {
    /// All parts of the pool are in order.
    pub open spec fn wf(&self) -> bool {
        &&& self@.wf()
        &&& self.vmt.wf()
        &&& self.dma.wf()
        &&& self.cluster.wf()
        &&& self.inflight.wf()
        &&& self.membrane.wf()
    }

    /// An empty pool over the GPUs of `cluster`, with `dram_pool_size_per_gpu`
    /// bytes of host memory for each, mapped as `mappings` says.
    pub fn new(
        cluster: GpuCluster,
        mappings: &Vec<HostMapping>,
        dram_pool_size_per_gpu: usize,
    ) -> (r: Self)
        requires
            cluster.wf(),
            mappings@.len() == cluster.ordinals@.len(),
            forall|i: int|
                0 <= i < mappings@.len() ==> (#[trigger] mappings@[i]).base_ptr
                    + dram_pool_size_per_gpu <= usize::MAX,
        ensures
            r.wf(),
            r@.table == (Table { pages: Map::empty(), next_id: 0 }),
            r@.rings == Seq::new(cluster.ordinals@.len(), |i: int| Ring::fresh()),
            r@.cluster == cluster,
            r@.dram.len() == cluster.ordinals@.len(),
            forall|i: int|
                0 <= i < r@.dram.len() ==> is_fresh_pool(
                    #[trigger] r@.dram[i],
                    cluster,
                    cluster.ordinals@[i],
                    mappings@[i],
                    dram_pool_size_per_gpu,
                ),
            r@.vram_free == Seq::new(
                cluster.ordinals@.len(),
                |i: int| Seq::<(usize, u64)>::empty(),
            ),
            r@.spill is None,
            r@.inflight == Map::<Seq<char>, Inflight>::empty(),
            r@.rates == Rates::fresh(),
            r@.membrane_budget is None,
            r@.idle_threshold_ns == DEFAULT_IDLE_NS,
            r@.hot_threshold == HOT_ACCESS_THRESHOLD,
            r@.idle_threshold_ns == 5 * 1_000_000_000,
            r@.hot_threshold == 10,
    {
        let n: usize = cluster.ordinals.len();
        let mut dram_pools: Vec<DramPool> = Vec::new();
        let mut vram_free: Vec<Vec<(usize, u64)>> = Vec::new();
        let mut i: usize = 0;
        while i < n
            invariant
                n == cluster.ordinals@.len() == mappings@.len(),
                i <= n,
                cluster.wf(),
                forall|k: int|
                    0 <= k < mappings@.len() ==> (#[trigger] mappings@[k]).base_ptr
                        + dram_pool_size_per_gpu <= usize::MAX,
                dram_pools@.len() == i,
                vram_free@.len() == i,
                forall|k: int|
                    0 <= k < i ==> (#[trigger] dram_pools@[k])@.wf() && is_fresh_pool(
                        dram_pools@[k]@,
                        cluster,
                        cluster.ordinals@[k],
                        mappings@[k],
                        dram_pool_size_per_gpu,
                    ),
                forall|k: int|
                    0 <= k < i ==> (#[trigger] vram_free@[k])@ == Seq::<(usize, u64)>::empty(),
            decreases n - i,
        {
            let ordinal: i32 = cluster.ordinals[i];
            let m: HostMapping = mappings[i];
            let node: usize = cluster.optimal_dram_node(ordinal);
            dram_pools.push(
                DramPool::new(
                    node,
                    ordinal,
                    m.base_ptr,
                    dram_pool_size_per_gpu,
                    m.numa_bound,
                    m.pinned,
                ),
            );
            vram_free.push(Vec::new());
            i = i + 1;
        }
        let vmt = VirtualMemoryTable::new(n, cluster.numa.node_count);
        let r = TieredPool {
            vmt,
            dma: DmaEngine::new(n),
            cluster,
            dram_pools,
            vram_free,
            spill: None,
            inflight: NameMap::new(),
            membrane: Membrane::new(),
            membrane_budget: None,
            idle_threshold_ns: DEFAULT_IDLE_NS,
            hot_threshold: HOT_ACCESS_THRESHOLD,
        };
        assert(r@.vram_free =~= Seq::new(
            cluster.ordinals@.len(),
            |i: int| Seq::<(usize, u64)>::empty(),
        ));
        r
    }

    /// Attach the cold tier, with a backing file of `capacity` bytes.
    pub fn attach_spill(&mut self, capacity: usize)
        requires
            old(self).wf(),
        ensures
            final(self).wf(),
            final(self)@ == (Pool {
                spill: Some(Ranges { capacity, offset: 0, blocks: Seq::empty() }),
                ..old(self)@
            }),
    {
        self.spill = Some(SpillFile::create(capacity));
    }

    /// Whether there is a cold tier.
    pub fn has_spill(&self) -> (r: bool)
        ensures
            r == (self@.spill is Some),
    {
        self.spill.is_some()
    }

    /// Bytes taken in the cold tier.
    pub fn spill_used(&self) -> (r: usize)
        requires
            self.wf(),
        ensures
            r == match self@.spill {
                Some(s) => s.used(),
                None => 0,
            },
    {
        match &self.spill {
            Some(s) => s.used(),
            None => 0,
        }
    }

    /// Place by rate from now on, with `vram_budget` bytes of device memory.
    ///
    /// This is another promise than that of the idle time: a page that is still
    /// being used gives way when one that is used more needs the space.
    pub fn enable_membrane(&mut self, vram_budget: usize)
        requires
            old(self).wf(),
        ensures
            final(self).wf(),
            final(self)@ == (Pool { membrane_budget: Some(vram_budget), ..old(self)@ }),
    {
        self.membrane_budget = Some(vram_budget);
    }

    /// The access rate of a page, if it has one, as the bits that represent it.
    pub fn membrane_rate(&self, name: &str) -> (r: Option<u64>)
        requires
            self.wf(),
        ensures
            r == self@.rates.rate_of(name@),
    {
        self.membrane.rate(name)
    }

    /// Number of promotions started ahead of need and not yet claimed.
    pub fn inflight_count(&self) -> (r: usize)
        requires
            self.wf(),
        ensures
            r == self@.inflight.dom().len(),
    {
        self.inflight.len()
    }

    /// Bytes handed out by the host pool of a GPU.
    pub fn dram_used(&self, gpu_idx: usize) -> (r: Result<usize, VugvaError>)
        requires
            self.wf(),
        ensures
            r == if gpu_idx < self@.dram.len() {
                Ok(self@.dram[gpu_idx as int].ranges.used() as usize)
            } else {
                Err(VugvaError::InvalidGpu(gpu_idx))
            },
    {
        if gpu_idx < self.dram_pools.len() {
            assert(self@.dram[gpu_idx as int] == self.dram_pools@[gpu_idx as int]@);
            Ok(self.dram_pools[gpu_idx].used())
        } else {
            Err(VugvaError::InvalidGpu(gpu_idx))
        }
    }

    /// Number of device blocks of a GPU that can be used again.
    pub fn vram_cached_blocks(&self, gpu_idx: usize) -> (r: Result<usize, VugvaError>)
        ensures
            r == if gpu_idx < self@.vram_free.len() {
                Ok(self@.vram_free[gpu_idx as int].len() as usize)
            } else {
                Err(VugvaError::InvalidGpu(gpu_idx))
            },
    {
        if gpu_idx < self.vram_free.len() {
            Ok(self.vram_free[gpu_idx].len())
        } else {
            Err(VugvaError::InvalidGpu(gpu_idx))
        }
    }

    /// Whether the host pool of a GPU really is bound to its NUMA node.
    pub fn dram_numa_bound(&self, gpu_idx: usize) -> (r: Result<bool, VugvaError>)
        ensures
            r == if gpu_idx < self@.dram.len() {
                Ok(self@.dram[gpu_idx as int].numa_bound)
            } else {
                Err(VugvaError::InvalidGpu(gpu_idx))
            },
    {
        if gpu_idx < self.dram_pools.len() {
            Ok(self.dram_pools[gpu_idx].numa_bound)
        } else {
            Err(VugvaError::InvalidGpu(gpu_idx))
        }
    }

    /// Whether the host pool of a GPU is page-locked.
    pub fn dram_pinned(&self, gpu_idx: usize) -> (r: Result<bool, VugvaError>)
        ensures
            r == if gpu_idx < self@.dram.len() {
                Ok(self@.dram[gpu_idx as int].pinned)
            } else {
                Err(VugvaError::InvalidGpu(gpu_idx))
            },
    {
        if gpu_idx < self.dram_pools.len() {
            Ok(self.dram_pools[gpu_idx].pinned)
        } else {
            Err(VugvaError::InvalidGpu(gpu_idx))
        }
    }
}

} // verus!
