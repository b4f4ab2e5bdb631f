//! The three-tier pool, with devices, host memory and a file that are made of
//! ordinary vectors.

use std::collections::HashMap;
use vugva::gpu::{GpuCluster, GpuInfo, NumaTopology, PeerMatrix};
use vugva::ranking::Candidate;
use vugva::tiered::access::{AccessStep, Source, Work};
use vugva::tiered::demote::DemoteStep;
use vugva::tiered::fill::WritePlan;
use vugva::tiered::prefetch::{CopyStart, PrefetchStep};
use vugva::tiered::sweep::{SweepKind, SweepStep};
use vugva::tiered::{HostMapping, TieredPool};
use vugva::vmt::{PageState, Tier};
use vugva::VugvaError;

fn info(device_id: i32) -> GpuInfo {
    GpuInfo {
        device_id,
        name: "test".into(),
        total_vram: 0,
        free_vram: 0,
        compute_capability: (0, 0),
        sm_count: 0,
        numa_node: 0,
        pci_bus_id: 0,
        pci_device_id: 0,
        concurrent_kernels: false,
    }
}

fn cluster(ordinals: &[i32]) -> GpuCluster {
    let n = ordinals.len();
    GpuCluster::new(
        ordinals.to_vec(),
        ordinals.iter().map(|&o| info(o)).collect(),
        PeerMatrix::discover(&vec![vec![1; n]; n]),
        NumaTopology::single_node(),
    )
}

/// Address of the host memory of the first GPU.
const HOST: usize = 0x1000_0000;

/// A pool and what it runs on.
struct Rig {
    pool: TieredPool,
    host: Vec<u8>,
    file: Vec<u8>,
    device: HashMap<u64, Vec<u8>>,
    next_block: u64,
    /// What the driver answers to the next request for a block.
    refuse_block: bool,
    /// The copy that fails, counted down.
    fail_copy: Option<usize>,
    now: u64,
}

impl Rig {
    fn new(ordinals: &[i32], dram: usize) -> Rig {
        let mappings: Vec<HostMapping> = (0..ordinals.len())
            .map(|i| HostMapping { base_ptr: HOST + i * dram, numa_bound: true, pinned: true })
            .collect();
        Rig {
            pool: TieredPool::new(cluster(ordinals), &mappings, dram),
            host: vec![0; dram * ordinals.len()],
            file: Vec::new(),
            device: HashMap::new(),
            next_block: 0x100,
            refuse_block: false,
            fail_copy: None,
            now: 1000,
        }
    }

    fn attach_spill(&mut self, capacity: usize) {
        self.pool.attach_spill(capacity);
        self.file = vec![0; capacity];
    }

    fn block(&mut self, bytes: usize) -> Result<u64, VugvaError> {
        if self.refuse_block {
            return Err(VugvaError::CudaError { fn_name: "cuMemAlloc_v2", code: 2 });
        }
        let ptr = self.next_block;
        self.next_block += 0x1_0000_0000;
        self.device.insert(ptr, vec![0xCC; bytes]);
        Ok(ptr)
    }

    fn copies(&mut self) -> Result<(), VugvaError> {
        match self.fail_copy {
            Some(0) => {
                self.fail_copy = None;
                Err(VugvaError::CudaError { fn_name: "cuMemcpy", code: 700 })
            }
            Some(n) => {
                self.fail_copy = Some(n - 1);
                Ok(())
            }
            None => Ok(()),
        }
    }

    fn do_work(&mut self, work: Work) -> Result<u64, VugvaError> {
        match work {
            Work::AwaitPrefetch { .. } => self.copies().map(|_| 0),
            Work::AllocateBlock { bytes, .. } => self.block(bytes),
            Work::Copy { source, dst, bytes } => {
                self.copies()?;
                let data = match source {
                    Source::Peer { ptr, .. } => self.device[&ptr].clone(),
                    Source::Host { host_ptr } => {
                        self.host[host_ptr - HOST..host_ptr - HOST + bytes].to_vec()
                    }
                    Source::Spill { .. } => panic!("not copied in one piece"),
                };
                self.device.get_mut(&dst).unwrap()[..bytes].copy_from_slice(&data[..bytes]);
                Ok(0)
            }
            Work::Stream { offset, stage_ptr, stage_len, dst, done, bytes, .. } => {
                self.copies()?;
                assert!(bytes <= stage_len);
                let at = offset as usize + done;
                let stage = stage_ptr - HOST;
                self.host[stage..stage + bytes].copy_from_slice(&self.file[at..at + bytes]);
                let block = self.device.get_mut(&dst).unwrap();
                block[done..done + bytes].copy_from_slice(&self.host[stage..stage + bytes]);
                Ok(0)
            }
        }
    }

    fn access(&mut self, name: &str, gpu: usize) -> Result<u64, VugvaError> {
        self.now += 1;
        let now = self.now;
        let mut step = self.pool.access(name, gpu, now);
        loop {
            match step {
                AccessStep::Finished(r) => return r,
                AccessStep::Pending(work) => {
                    let event = self.do_work(work);
                    step = self.pool.resume_access(name, gpu, now, work, event);
                }
            }
        }
    }

    fn demote(&mut self, name: &str) -> Result<(), VugvaError> {
        let mut step = self.pool.demote(name);
        loop {
            match step {
                DemoteStep::Finished(r) => return r,
                DemoteStep::Pending(w) => {
                    let event = self.copies();
                    if event.is_ok() {
                        let data = self.device[&w.device_ptr][..w.bytes].to_vec();
                        let at = w.host_ptr - HOST;
                        self.host[at..at + w.bytes].copy_from_slice(&data);
                    }
                    step = self.pool.resume_demote(name, w, event);
                }
            }
        }
    }

    fn prefetch(&mut self, name: &str, gpu: usize, start: CopyStart) {
        let mut step = self.pool.prefetch(name, gpu);
        loop {
            match step {
                PrefetchStep::Finished => return,
                PrefetchStep::AllocateBlock { bytes, host_ptr } => {
                    let block = self.block(bytes);
                    step = self.pool.resume_prefetch(host_ptr, bytes, block);
                }
                PrefetchStep::StartCopy { host_ptr, dst, bytes } => {
                    if start != CopyStart::NotStarted {
                        let at = host_ptr - HOST;
                        let data = self.host[at..at + bytes].to_vec();
                        self.device.insert(dst, data);
                    }
                    self.pool.finish_prefetch(name, gpu, dst, bytes, start);
                    return;
                }
            }
        }
    }

    fn write_page(&mut self, name: &str, data: &[u8]) -> Result<(), String> {
        match self.pool.write_page(name, data.len()) {
            WritePlan::Refused(e) => Err(e.to_string()),
            WritePlan::WrongLength(text) => Err(text),
            WritePlan::ToSpill { offset, bytes } => {
                let at = offset as usize;
                self.file[at..at + bytes].copy_from_slice(data);
                Ok(())
            }
            WritePlan::ToHost { copies, shortfall } => {
                for c in copies {
                    let at = c.host_ptr - HOST;
                    self.host[at..at + c.bytes].copy_from_slice(&data[c.from..c.from + c.bytes]);
                }
                match shortfall {
                    Some(text) => Err(text),
                    None => Ok(()),
                }
            }
        }
    }

    fn sweep(&mut self) -> Result<(), VugvaError> {
        let mut sweep = match self.pool.sweep_kind() {
            SweepKind::ByIdleTime => self.pool.idle_sweep(self.now),
            SweepKind::ByRate(budget) => {
                let rates = self
                    .pool
                    .membrane
                    .window()
                    .into_iter()
                    .map(|s| {
                        let old = s.rate.map_or(0.0, f64::from_bits);
                        (s.name, (old * 0.75 + s.hits as f64 * 0.25).to_bits())
                    })
                    .collect();
                self.pool.membrane.decay(rates);
                let candidates: Vec<Candidate> = self
                    .pool
                    .observations()
                    .into_iter()
                    .map(|o| {
                        let rate = o.rate.map_or(0.0, f64::from_bits);
                        let hold = if o.resident { 1.5 } else { 1.0 };
                        let score = rate * hold - 0.05 * (o.bytes as f64 / 1048576.0);
                        let bits = (score + 0.0).to_bits();
                        let key = if bits >> 63 == 1 { !bits } else { bits | 1 << 63 };
                        Candidate { name: o.name, key, bytes: o.bytes, pinned: o.pinned }
                    })
                    .collect();
                let cap = (budget as f64 * 0.85) as usize;
                let (keep, evict) = self.pool.membrane.plan(&candidates, cap);
                TieredPool::rate_sweep(keep, evict)
            }
        };
        let mut failure = None;
        loop {
            match self.pool.background_sweep(&mut sweep, failure) {
                SweepStep::Finished(r) => return r,
                SweepStep::Demote(name) => failure = self.demote(&name).err(),
                SweepStep::Promote(name) => failure = self.access(&name, 0).err(),
            }
        }
    }

    fn rate(&self, name: &str) -> f64 {
        self.pool.membrane_rate(name).map_or(0.0, f64::from_bits)
    }

    fn tier(&self, name: &str) -> Tier {
        self.pool.vmt.lookup(name).unwrap().tier
    }
}

#[test]
fn paper_repeated_access_does_not_leak_context() {
    const PAGES: usize = 128;
    const PAGE_ELEMS: usize = 2_621; // a small page at 4 bytes/element
    let mut rig = Rig::new(&[0], 2 << 20);
    let names: Vec<String> = (0..PAGES)
        .map(|i| {
            rig.pool
                .allocate(&format!("leak.probe.{i}"), &[PAGE_ELEMS], 4, Tier::Dram)
                .expect("allocate")
        })
        .collect();
    for (i, name) in names.iter().enumerate() {
        let p = rig.access(name, 0).expect("access");
        assert_ne!(p, 0, "promotion {i} returned a null device pointer");
    }
    // One block for each page, and none more.
    assert_eq!(rig.device.len(), PAGES);
}

#[test]
fn paper_allocations_are_reclaimed_and_reused() {
    const DRAM_POOL: usize = 64 << 10;
    const PAGE_ELEMS: usize = 1 << 10; // 4 KiB at 4 bytes/element
    const CYCLES: usize = 128;
    let mut rig = Rig::new(&[0], DRAM_POOL);
    for i in 0..CYCLES {
        let name = rig
            .pool
            .allocate(&format!("churn_{i}"), &[PAGE_ELEMS], 4, Tier::Dram)
            .expect("allocate");
        rig.access(&name, 0).expect("access");
        rig.pool.deallocate(&name).expect("deallocate");
        assert_eq!(
            rig.pool.dram_used(0).expect("dram_used"),
            0,
            "cycle {i}: DRAM still marked in use after the only page was freed"
        );
    }
    assert_eq!(
        rig.pool.vram_cached_blocks(0).expect("vram_cached_blocks"),
        1,
        "{CYCLES} promote/release cycles should recycle a single device block"
    );
    assert_eq!(rig.device.len(), 1);
}

#[test]
fn paper_demote_writes_back_and_reclaims_vram() {
    const ELEMS: usize = 1 << 10;
    const BYTES: usize = ELEMS * 4;
    let mut rig = Rig::new(&[0], 64 << 10);
    let name = rig.pool.allocate("wb", &[ELEMS], 4, Tier::Dram).expect("allocate");
    let host = rig.pool.vmt.lookup(&name).expect("page").dram_chunks[0].host_ptr - HOST;

    // A position-dependent pattern.
    let pattern = |i: usize| (i as u8) ^ 0xA5;
    for i in 0..BYTES {
        rig.host[host + i] = pattern(i);
    }
    rig.access(&name, 0).expect("promote to VRAM");
    assert_eq!(rig.tier(&name), Tier::Vram);

    // Destroy the host's copy.
    for i in 0..BYTES {
        rig.host[host + i] = 0xEE;
    }
    rig.demote(&name).expect("demote");

    let page = rig.pool.vmt.lookup(&name).expect("page");
    assert_eq!(page.tier, Tier::Dram, "tier must drop to DRAM");
    assert_eq!(page.state, PageState::Warm, "state must drop to Warm");
    assert!(page.vram_chunks.is_empty());
    assert!((0..BYTES).all(|i| rig.host[host + i] == pattern(i)));
    assert_eq!(
        rig.pool.vram_cached_blocks(0).expect("vram_cached_blocks"),
        1,
        "demote must return its device block to the recycle cache"
    );

    // Promoting again must reuse that exact block rather than growing.
    rig.access(&name, 0).expect("re-promote");
    assert_eq!(rig.pool.vram_cached_blocks(0).expect("vram_cached_blocks"), 0);
    assert_eq!(rig.device.len(), 1);
}

#[test]
fn paper_ssd_tier_promotes_cold_pages() {
    const ELEMS: usize = 1 << 20; // 1 MiB at 1 byte/element
    const BYTES: usize = ELEMS;
    const DRAM_POOL: usize = 4 << 20;
    let mut rig = Rig::new(&[0], DRAM_POOL);
    rig.attach_spill(64 << 20);
    assert!(rig.pool.has_spill(), "spill must be attached");
    let name = rig
        .pool
        .allocate("t2.cold.page", &[ELEMS], 1, Tier::Ssd)
        .expect("a cold page must allocate against the spill file");
    assert!(rig.pool.spill_used() >= BYTES);

    let dptr = rig.access(&name, 0).expect("promote from SSD");
    assert_ne!(dptr, 0, "promotion must yield a device pointer");
    assert_eq!(
        rig.device[&dptr].iter().filter(|&&b| b != 0).count(),
        0,
        "a reserved-but-unwritten cold page must arrive as zeros"
    );
    assert_eq!(rig.pool.dram_used(0).unwrap(), 0, "staging must be given back");
}

#[test]
fn paper_ssd_tier_round_trips_written_bytes() {
    const BYTES: usize = 2 << 20; // 2 MiB
    const DRAM_POOL: usize = 4 << 20;
    let mut rig = Rig::new(&[0], DRAM_POOL);
    rig.attach_spill(64 << 20);
    let name = rig.pool.allocate("t2.corpus", &[BYTES], 1, Tier::Ssd).expect("cold allocate");
    let src: Vec<u8> = (0..BYTES).map(|i| (i * 31 + (i >> 13)) as u8).collect();
    rig.write_page(&name, &src).expect("write_page");

    let dptr = rig.access(&name, 0).expect("promote from SSD");
    let bad = rig.device[&dptr].iter().zip(&src).filter(|(a, b)| a != b).count();
    assert_eq!(bad, 0, "{bad} of {BYTES} bytes differ after SSD, DRAM, VRAM");

    // A short write must be refused rather than leaving a partial page.
    assert!(
        rig.write_page(&name, &src[..BYTES / 2]).is_err(),
        "a size mismatch must be rejected, not silently truncated"
    );
}

#[test]
fn paper_membrane_places_by_access_frequency() {
    const PAGES: usize = 12;
    const ELEMS: usize = 1 << 8;
    const PAGE_BYTES: usize = ELEMS * 4;
    // Room for about 4 of 12 pages below the high-water mark.
    const BUDGET: usize = PAGE_BYTES * 5;
    let mut rig = Rig::new(&[0], 64 << 10);
    rig.pool.enable_membrane(BUDGET);
    let names: Vec<String> = (0..PAGES)
        .map(|i| {
            rig.pool
                .allocate(&format!("lgm.page.{i}"), &[ELEMS], 4, Tier::Dram)
                .expect("allocate")
        })
        .collect();

    // Phase 1: pages 0..3 are hot, the rest touched once each.
    for _ in 0..6 {
        for _ in 0..8 {
            for n in names.iter().take(3) {
                rig.access(n, 0).expect("hot access");
            }
        }
        for n in names.iter().skip(3) {
            rig.access(n, 0).expect("cold access");
        }
        rig.sweep().expect("sweep");
    }
    let hot_rate: f64 = names.iter().take(3).map(|n| rig.rate(n)).sum();
    let cold_rate: f64 = names.iter().skip(3).map(|n| rig.rate(n)).sum();
    assert!(
        hot_rate > cold_rate,
        "phase 1: hot pages must carry the higher aggregate rate ({hot_rate:.2} vs {cold_rate:.2})"
    );
    let resident_hot = names.iter().take(3).filter(|n| rig.tier(n) == Tier::Vram).count();
    assert!(resident_hot >= 2, "phase 1: at least 2 of 3 hot pages, got {resident_hot}");

    // Phase 2: the workload inverts. The last three pages become hot.
    for _ in 0..8 {
        for _ in 0..8 {
            for n in names.iter().rev().take(3) {
                rig.access(n, 0).expect("hot access");
            }
        }
        rig.sweep().expect("sweep");
    }
    let new_hot: f64 = names.iter().rev().take(3).map(|n| rig.rate(n)).sum();
    let old_hot: f64 = names.iter().take(3).map(|n| rig.rate(n)).sum();
    assert!(new_hot > old_hot, "phase 2: the membrane must follow the workload");
    let resident_new = names.iter().rev().take(3).filter(|n| rig.tier(n) == Tier::Vram).count();
    assert!(resident_new >= 2, "phase 2: at least 2 of 3, got {resident_new}");
    let resident = names.iter().filter(|n| rig.tier(n) == Tier::Vram).count();
    assert!(resident <= 4);
}

#[test]
fn paper_prefetch_overlaps_transport_with_compute() {
    const ELEMS: usize = 8 << 10;
    const BYTES: usize = ELEMS * 4;
    const PAGES: usize = 8;
    let mut rig = Rig::new(&[0], 512 << 10);
    let names: Vec<String> = (0..PAGES)
        .map(|i| {
            rig.pool
                .allocate(&format!("pf.page.{i}"), &[ELEMS], 4, Tier::Dram)
                .expect("allocate")
        })
        .collect();
    // Distinct, position-dependent contents per page.
    for (i, name) in names.iter().enumerate() {
        let src: Vec<u8> = (0..BYTES).map(|b| (b.wrapping_mul(31) ^ i) as u8).collect();
        rig.write_page(name, &src).expect("write_page");
    }
    for name in &names {
        rig.access(name, 0).expect("cold access");
        rig.demote(name).expect("demote");
    }
    for name in &names {
        rig.prefetch(name, 0, CopyStart::Started);
    }
    assert_eq!(rig.pool.inflight_count(), PAGES);
    let mut ptrs = Vec::with_capacity(PAGES);
    for name in &names {
        ptrs.push(rig.access(name, 0).expect("warm access"));
    }
    assert_eq!(rig.pool.inflight_count(), 0, "claims must drain the in-flight set");
    for (i, ptr) in ptrs.iter().enumerate() {
        let want: Vec<u8> = (0..4096usize).map(|b| (b.wrapping_mul(31) ^ i) as u8).collect();
        assert_eq!(&rig.device[ptr][..4096], &want[..], "page {i} has another page's contents");
    }
}

#[test]
fn a_new_pool_is_empty() {
    let rig = Rig::new(&[3, 5], 4096);
    assert_eq!(rig.pool.dram_used(0).unwrap(), 0);
    assert_eq!(rig.pool.vram_cached_blocks(1).unwrap(), 0);
    assert!(rig.pool.dram_numa_bound(0).unwrap());
    assert!(rig.pool.dram_pinned(1).unwrap());
    assert!(!rig.pool.has_spill());
    assert_eq!(rig.pool.spill_used(), 0);
    assert_eq!(rig.pool.inflight_count(), 0);
    assert_eq!(rig.pool.membrane_rate("x"), None);
    assert_eq!(rig.pool.idle_threshold_ns, 5_000_000_000);
    assert_eq!(rig.pool.hot_threshold, 10);
    assert_eq!(rig.pool.dram_pools[1].gpu_ordinal, 5);
}

#[test]
fn a_gpu_that_is_not_there_is_an_error() {
    let rig = Rig::new(&[0], 4096);
    assert!(matches!(rig.pool.dram_used(1), Err(VugvaError::InvalidGpu(1))));
    assert!(matches!(rig.pool.vram_cached_blocks(2), Err(VugvaError::InvalidGpu(2))));
    assert!(matches!(rig.pool.dram_numa_bound(3), Err(VugvaError::InvalidGpu(3))));
    assert!(matches!(rig.pool.dram_pinned(4), Err(VugvaError::InvalidGpu(4))));
}

#[test]
fn a_page_is_divided_among_the_pools() {
    let mut rig = Rig::new(&[0, 1, 2], 4096);
    let name = rig.pool.allocate("t", &[100], 1, Tier::Dram).unwrap();
    let page = rig.pool.vmt.lookup(&name).unwrap();
    let sizes: Vec<usize> = page.dram_chunks.iter().map(|c| c.size_bytes).collect();
    assert_eq!(sizes, vec![33, 33, 34]);
    assert_eq!(page.state, PageState::Warm);
    assert_eq!(page.tier, Tier::Dram);
    let name = rig.pool.allocate("v", &[6], 1, Tier::Vram).unwrap();
    let page = rig.pool.vmt.lookup(&name).unwrap();
    assert_eq!(page.state, PageState::Resident);
    assert_eq!(page.dram_chunks[2].host_ptr, HOST + 2 * 4096 + 64);
}

#[test]
fn an_allocation_that_fails_half_way_keeps_what_it_has() {
    let mut rig = Rig::new(&[0, 1], 256);
    // The second pool has less room than the first.
    rig.pool.dram_pools[1].allocate(200).unwrap();
    match rig.pool.allocate("t", &[256], 1, Tier::Dram) {
        Err(VugvaError::DramOom { requested, available, capacity }) => {
            assert_eq!((requested, available, capacity), (128, 0, 256));
        }
        other => panic!("expected DramOom, got {other:?}"),
    }
    let page = rig.pool.vmt.lookup("t").unwrap();
    assert_eq!(page.dram_chunks.len(), 1);
    assert_eq!(page.state, PageState::Allocated);
    assert_eq!(rig.pool.dram_used(0).unwrap(), 128);
    rig.pool.deallocate("t").unwrap();
    assert_eq!(rig.pool.dram_used(0).unwrap(), 0);
}

#[test]
fn a_cold_page_needs_a_file() {
    let mut rig = Rig::new(&[0], 4096);
    match rig.pool.allocate("cold", &[8], 1, Tier::Ssd) {
        Err(VugvaError::UnknownAllocation(text)) => assert_eq!(
            text,
            "cold: Tier::Ssd requires a spill file \u{2014} call TieredPool::attach_spill first"
        ),
        other => panic!("unexpected {other:?}"),
    }
    rig.attach_spill(128);
    assert_eq!(rig.pool.allocate("", &[64], 1, Tier::Ssd).unwrap(), "vugva_alloc_1");
    let page = rig.pool.vmt.lookup("vugva_alloc_1").unwrap();
    assert_eq!(page.ssd_offset, Some(0));
    assert_eq!(page.state, PageState::Cold);
    assert!(page.dram_chunks.is_empty());
    assert!(matches!(
        rig.pool.allocate("big", &[65], 1, Tier::Ssd),
        Err(VugvaError::DramOom { requested: 128, available: 64, capacity: 128 })
    ));
    assert_eq!(rig.pool.spill_used(), 64);
}

#[test]
fn deallocating_returns_everything() {
    let mut rig = Rig::new(&[0, 1], 4096);
    rig.pool.allocate("keep", &[100], 1, Tier::Dram).unwrap();
    let before = (rig.pool.dram_used(0).unwrap(), rig.pool.dram_used(1).unwrap());
    rig.pool.allocate("t", &[300], 1, Tier::Dram).unwrap();
    rig.access("t", 1).unwrap();
    rig.pool.deallocate("t").unwrap();
    assert_eq!((rig.pool.dram_used(0).unwrap(), rig.pool.dram_used(1).unwrap()), before);
    assert_eq!(rig.pool.vram_cached_blocks(1).unwrap(), 1);
    assert!(rig.pool.vmt.lookup("t").is_none());
    assert!(matches!(
        rig.pool.deallocate("t"),
        Err(VugvaError::UnknownAllocation(n)) if n == "t"
    ));
}

#[test]
fn each_gpu_gets_its_own_piece() {
    let mut rig = Rig::new(&[7, 9], 4096);
    rig.pool.allocate("t", &[64], 1, Tier::Dram).unwrap();
    let data: Vec<u8> = (0..64).collect();
    rig.write_page("t", &data).unwrap();
    let p = rig.access("t", 1).unwrap();
    assert_eq!(rig.device[&p], data[32..].to_vec());
    let page = rig.pool.vmt.lookup("t").unwrap();
    assert_eq!(page.vram_chunks[0].gpu_ordinal, 9);
    assert_eq!(page.vram_chunks[0].num_elements, 32);
    assert_eq!(page.access_count, 1);
    // The page is on a device now: the other GPU copies it from there.
    let q = rig.access("t", 0).unwrap();
    assert_ne!(p, q);
    assert_eq!(rig.device[&q], data[32..].to_vec());
    // Both are found at once from now on.
    assert_eq!(rig.access("t", 1).unwrap(), p);
    assert_eq!(rig.access("t", 0).unwrap(), q);
    assert_eq!(rig.device.len(), 2);
    assert_eq!(rig.pool.vmt.lookup("t").unwrap().access_count, 4);
    assert_eq!(rig.pool.dma.pending(1), 1);
    assert_eq!(rig.pool.dma.pending(0), 0);
}

#[test]
fn an_access_to_what_is_not_there_fails() {
    let mut rig = Rig::new(&[0], 4096);
    assert!(matches!(
        rig.access("nothing", 0),
        Err(VugvaError::UnknownAllocation(n)) if n == "nothing"
    ));
    // On a device by its tier, but neither on one nor in host memory.
    rig.pool.allocate("v", &[8], 1, Tier::Vram).unwrap();
    rig.pool.vmt.lookup_mut("v").unwrap().dram_chunks.clear();
    assert!(matches!(rig.access("v", 0), Err(VugvaError::UnknownAllocation(n)) if n == "v"));
    // In host memory by its tier, but without a piece there.
    rig.pool.allocate("d", &[8], 1, Tier::Dram).unwrap();
    rig.pool.vmt.lookup_mut("d").unwrap().dram_chunks.clear();
    assert!(matches!(rig.access("d", 0), Err(VugvaError::UnknownAllocation(n)) if n == "d"));
    // On a device that is not one of these.
    rig.pool.vmt.lookup_mut("v").unwrap().vram_chunks.push(vugva::vmt::Chunk {
        gpu_ordinal: 12,
        device_ptr: 1,
        size_bytes: 8,
        num_elements: 8,
    });
    assert!(matches!(rig.access("v", 0), Err(VugvaError::InvalidGpu(12))));
    // Cold by its tier, but without a place in the file.
    let page = rig.pool.vmt.lookup_mut("d").unwrap();
    page.tier = Tier::Ssd;
    match rig.access("d", 0) {
        Err(VugvaError::UnknownAllocation(text)) => {
            assert_eq!(text, "d: page is on Tier::Ssd but has no spill offset")
        }
        other => panic!("unexpected {other:?}"),
    }
    rig.pool.vmt.lookup_mut("d").unwrap().ssd_offset = Some(0);
    match rig.access("d", 0) {
        Err(VugvaError::UnknownAllocation(text)) => {
            assert_eq!(text, "d: page is on Tier::Ssd but no spill file is attached")
        }
        other => panic!("unexpected {other:?}"),
    }
}

#[test]
fn a_failed_access_changes_no_page() {
    let mut rig = Rig::new(&[0], 4096);
    rig.pool.allocate("t", &[64], 1, Tier::Dram).unwrap();
    rig.refuse_block = true;
    assert!(matches!(
        rig.access("t", 0),
        Err(VugvaError::CudaError { fn_name: "cuMemAlloc_v2", code: 2 })
    ));
    rig.refuse_block = false;
    rig.fail_copy = Some(0);
    assert!(matches!(rig.access("t", 0), Err(VugvaError::CudaError { code: 700, .. })));
    let page = rig.pool.vmt.lookup("t").unwrap();
    assert_eq!(page.tier, Tier::Dram);
    assert_eq!(page.state, PageState::Warm);
    assert_eq!(page.access_count, 0);
    assert!(page.vram_chunks.is_empty());
    rig.access("t", 0).unwrap();
    assert_eq!(rig.tier("t"), Tier::Vram);
}

#[test]
fn a_cold_page_may_be_larger_than_host_memory() {
    // The pool holds 3 MiB, the page 10: it is streamed in pieces.
    let mut rig = Rig::new(&[0], 3 << 20);
    rig.attach_spill(16 << 20);
    let total = 10 << 20;
    rig.pool.allocate("big", &[total], 1, Tier::Ssd).unwrap();
    let data: Vec<u8> = (0..total).map(|i| (i * 7 + (i >> 9)) as u8).collect();
    rig.write_page("big", &data).unwrap();
    let mut step = rig.pool.access("big", 0, 1);
    let mut pieces = Vec::new();
    let ptr = loop {
        match step {
            AccessStep::Finished(r) => break r.unwrap(),
            AccessStep::Pending(work) => {
                if let Work::Stream { done, bytes, borrowed, stage_len, .. } = work {
                    assert!(borrowed);
                    assert_eq!(stage_len, total / 4);
                    pieces.push((done, bytes));
                    assert_eq!(rig.pool.dram_used(0).unwrap(), total / 4);
                }
                let event = rig.do_work(work);
                step = rig.pool.resume_access("big", 0, 1, work, event);
            }
        }
    };
    let quarter = total / 4;
    assert_eq!(
        pieces,
        vec![(0, quarter), (quarter, quarter), (2 * quarter, quarter), (3 * quarter, quarter)]
    );
    assert!(rig.device[&ptr] == data);
    assert_eq!(rig.pool.dram_used(0).unwrap(), 0);
}

#[test]
fn a_page_with_host_memory_of_its_own_is_staged_there() {
    let mut rig = Rig::new(&[0], 4096);
    rig.attach_spill(4096);
    rig.pool.allocate("t", &[100], 1, Tier::Dram).unwrap();
    let page = rig.pool.vmt.lookup_mut("t").unwrap();
    page.tier = Tier::Ssd;
    page.ssd_offset = Some(64);
    for i in 0..100 {
        rig.file[64 + i] = i as u8;
    }
    let used = rig.pool.dram_used(0).unwrap();
    let p = rig.access("t", 0).unwrap();
    assert_eq!(rig.device[&p], (0..100u8).collect::<Vec<u8>>());
    assert_eq!(rig.pool.dram_used(0).unwrap(), used);
}

#[test]
fn a_stream_that_fails_strands_nothing() {
    let mut rig = Rig::new(&[0], 3 << 20);
    rig.attach_spill(16 << 20);
    rig.pool.allocate("big", &[10 << 20], 1, Tier::Ssd).unwrap();
    rig.fail_copy = Some(2);
    assert!(matches!(rig.access("big", 0), Err(VugvaError::CudaError { code: 700, .. })));
    assert_eq!(rig.pool.dram_used(0).unwrap(), 0);
    assert_eq!(rig.pool.vram_cached_blocks(0).unwrap(), 1);
    assert_eq!(rig.tier("big"), Tier::Ssd);
    // The block is used again.
    rig.access("big", 0).unwrap();
    assert_eq!(rig.device.len(), 1);
    assert_eq!(rig.pool.vram_cached_blocks(0).unwrap(), 0);
}

#[test]
fn a_stream_without_a_staging_buffer_strands_nothing() {
    let mut rig = Rig::new(&[0], 4096);
    rig.attach_spill(4 << 20);
    rig.pool.allocate("big", &[3 << 20], 1, Tier::Ssd).unwrap();
    match rig.access("big", 0) {
        // Halved once, to one and a half, and once more, below the least size.
        Err(VugvaError::DramOom { requested, available, capacity }) => {
            assert_eq!((requested, available, capacity), (3 << 18, 4096, 4096))
        }
        other => panic!("unexpected {other:?}"),
    }
    assert_eq!(rig.pool.vram_cached_blocks(0).unwrap(), 1);
}

#[test]
fn an_empty_cold_page_is_promoted() {
    let mut rig = Rig::new(&[0], 4096);
    rig.attach_spill(4096);
    rig.pool.allocate("none", &[0], 4, Tier::Ssd).unwrap();
    rig.access("none", 0).unwrap();
    assert_eq!(rig.tier("none"), Tier::Vram);
    assert_eq!(rig.pool.dram_used(0).unwrap(), 0);
}

#[test]
fn promotions_end_when_the_ring_is_full() {
    let mut rig = Rig::new(&[0], 4096);
    rig.pool.allocate("t", &[8], 1, Tier::Dram).unwrap();
    let mut promotions = 0;
    loop {
        match rig.access("t", 0) {
            Ok(_) => promotions += 1,
            Err(VugvaError::DmaRingFull) => break,
            other => panic!("unexpected {other:?}"),
        }
        // Give the page up without a descriptor.
        let page = rig.pool.vmt.lookup_mut("t").unwrap();
        page.vram_chunks.clear();
        page.tier = Tier::Dram;
    }
    assert_eq!(promotions, 1024);
    rig.pool.vmt.lookup_mut("t").unwrap().tier = Tier::Vram;
    let chunk = vugva::vmt::Chunk { gpu_ordinal: 0, device_ptr: 1, size_bytes: 8, num_elements: 8 };
    rig.pool.vmt.lookup_mut("t").unwrap().vram_chunks.push(chunk);
    assert!(matches!(rig.demote("t"), Err(VugvaError::DmaRingFull)));
}

#[test]
fn demotion_leaves_alone_what_it_should() {
    let mut rig = Rig::new(&[0], 4096);
    assert!(matches!(rig.demote("x"), Err(VugvaError::UnknownAllocation(n)) if n == "x"));
    rig.pool.allocate("t", &[8], 1, Tier::Dram).unwrap();
    rig.demote("t").unwrap();
    assert_eq!(rig.tier("t"), Tier::Dram);
    rig.access("t", 0).unwrap();
    rig.pool.vmt.lookup_mut("t").unwrap().pinned = true;
    rig.demote("t").unwrap();
    assert_eq!(rig.tier("t"), Tier::Vram);
    assert_eq!(rig.pool.vram_cached_blocks(0).unwrap(), 0);
}

#[test]
fn demotion_never_writes_past_its_backing() {
    let mut rig = Rig::new(&[0], 4096);
    rig.pool.allocate("t", &[8], 1, Tier::Dram).unwrap();
    rig.access("t", 0).unwrap();
    rig.pool.vmt.lookup_mut("t").unwrap().vram_chunks[0].size_bytes = 9;
    assert!(matches!(
        rig.demote("t"),
        Err(VugvaError::DramOom { requested: 9, available: 8, capacity: 4096 })
    ));
    rig.pool.vmt.lookup_mut("t").unwrap().dram_chunks.clear();
    assert!(matches!(rig.demote("t"), Err(VugvaError::UnknownAllocation(n)) if n == "t"));
    rig.pool.vmt.lookup_mut("t").unwrap().vram_chunks[0].gpu_ordinal = 3;
    assert!(matches!(rig.demote("t"), Err(VugvaError::InvalidGpu(3))));
}

#[test]
fn a_demotion_that_fails_leaves_the_page_on_its_device() {
    let mut rig = Rig::new(&[0], 4096);
    rig.pool.allocate("t", &[8], 1, Tier::Dram).unwrap();
    rig.access("t", 0).unwrap();
    rig.fail_copy = Some(0);
    assert!(rig.demote("t").is_err());
    assert_eq!(rig.tier("t"), Tier::Vram);
    assert_eq!(rig.pool.vmt.lookup("t").unwrap().vram_chunks.len(), 1);
    assert_eq!(rig.pool.vram_cached_blocks(0).unwrap(), 0);
}

#[test]
fn prefetching_what_cannot_be_is_no_error() {
    let mut rig = Rig::new(&[0], 4096);
    rig.attach_spill(4096);
    rig.prefetch("nothing", 0, CopyStart::Started);
    rig.pool.allocate("cold", &[8], 1, Tier::Ssd).unwrap();
    rig.prefetch("cold", 0, CopyStart::Started);
    rig.pool.allocate("t", &[8], 1, Tier::Dram).unwrap();
    rig.prefetch("t", 9, CopyStart::Started);
    rig.refuse_block = true;
    rig.prefetch("t", 0, CopyStart::Started);
    assert_eq!(rig.pool.inflight_count(), 0);
    rig.refuse_block = false;
    rig.prefetch("t", 0, CopyStart::NotStarted);
    assert_eq!(rig.pool.inflight_count(), 0);
    assert_eq!(rig.pool.vram_cached_blocks(0).unwrap(), 1);
    rig.prefetch("t", 0, CopyStart::Untracked);
    assert_eq!(rig.pool.inflight_count(), 0);
    assert_eq!(rig.pool.vram_cached_blocks(0).unwrap(), 0);
    // The access that follows is none the worse for it.
    rig.access("t", 0).unwrap();
    assert_eq!(rig.tier("t"), Tier::Vram);
}

#[test]
fn prefetching_twice_is_prefetching_once() {
    let mut rig = Rig::new(&[0], 4096);
    rig.pool.allocate("t", &[8], 1, Tier::Dram).unwrap();
    rig.prefetch("t", 0, CopyStart::Started);
    rig.prefetch("t", 0, CopyStart::Started);
    assert_eq!(rig.pool.inflight_count(), 1);
    assert_eq!(rig.device.len(), 1);
}

#[test]
fn a_prefetch_for_another_gpu_is_discarded() {
    let mut rig = Rig::new(&[0, 1], 4096);
    rig.pool.allocate("t", &[64], 1, Tier::Dram).unwrap();
    rig.prefetch("t", 0, CopyStart::Started);
    let p = rig.access("t", 1).unwrap();
    assert_eq!(rig.pool.inflight_count(), 0);
    assert_eq!(rig.pool.vram_cached_blocks(0).unwrap(), 1);
    assert_eq!(rig.pool.vmt.lookup("t").unwrap().vram_chunks[0].device_ptr, p);
    assert_eq!(rig.pool.vmt.lookup("t").unwrap().vram_chunks[0].gpu_ordinal, 1);
}

#[test]
fn a_prefetch_that_does_not_land_is_an_error() {
    let mut rig = Rig::new(&[0], 4096);
    rig.pool.allocate("t", &[64], 1, Tier::Dram).unwrap();
    rig.prefetch("t", 0, CopyStart::Started);
    rig.fail_copy = Some(0);
    assert!(rig.access("t", 0).is_err());
    assert_eq!(rig.pool.inflight_count(), 0);
    assert_eq!(rig.tier("t"), Tier::Dram);
    rig.access("t", 0).unwrap();
}

#[test]
fn writing_says_what_is_wrong() {
    let mut rig = Rig::new(&[0], 4096);
    assert_eq!(
        rig.write_page("t", &[0]).unwrap_err(),
        "no allocation registered under \"t\""
    );
    rig.pool.allocate("t", &[4], 1, Tier::Dram).unwrap();
    assert_eq!(
        rig.write_page("t", &[0; 3]).unwrap_err(),
        "write_page(t): 3 bytes for a 4-byte page \u{2014} a partial write would leave the tail undefined"
    );
    rig.pool.vmt.lookup_mut("t").unwrap().dram_chunks[0].size_bytes = 3;
    assert_eq!(
        rig.write_page("t", &[9; 4]).unwrap_err(),
        "write_page(t): DRAM chunks cover 3 of 4 bytes \u{2014} the page's backing is short"
    );
    assert_eq!(&rig.host[..4], &[9, 9, 9, 0]);
    rig.pool.vmt.lookup_mut("t").unwrap().tier = Tier::Ssd;
    assert!(rig.write_page("t", &[0; 4]).unwrap_err().contains("has no spill offset"));
    rig.pool.vmt.lookup_mut("t").unwrap().ssd_offset = Some(0);
    assert!(rig.write_page("t", &[0; 4]).unwrap_err().contains("no spill file is attached"));
}

#[test]
fn a_page_with_fewer_bytes_than_there_are_pools_is_written_whole() {
    let mut rig = Rig::new(&[0, 1, 2], 256);
    rig.pool.allocate("t", &[2], 1, Tier::Dram).unwrap();
    let sizes: Vec<usize> = rig
        .pool
        .vmt
        .lookup("t")
        .unwrap()
        .dram_chunks
        .iter()
        .map(|c| c.size_bytes)
        .collect();
    assert_eq!(sizes, vec![0, 0, 2]);
    rig.write_page("t", &[7, 8]).unwrap();
    assert_eq!(&rig.host[512..514], &[7, 8]);
}

#[test]
fn what_is_written_comes_back_from_every_pool() {
    let mut rig = Rig::new(&[0, 1, 2], 4096);
    rig.pool.allocate("other", &[200], 1, Tier::Dram).unwrap();
    rig.pool.allocate("t", &[1000], 1, Tier::Dram).unwrap();
    let data: Vec<u8> = (0..1000).map(|i| (i % 251) as u8).collect();
    rig.write_page("t", &data).unwrap();
    for (g, range) in [(0, 0..333), (1, 333..666), (2, 666..1000)] {
        let page = rig.pool.vmt.lookup_mut("t").unwrap();
        page.tier = Tier::Dram;
        let p = rig.access("t", g).unwrap();
        assert_eq!(rig.device[&p], data[range].to_vec());
    }
}

#[test]
fn a_sweep_demotes_the_idle_and_promotes_the_hot() {
    let mut rig = Rig::new(&[0], 4096);
    for n in ["idle", "busy", "hot", "pinned", "tepid"] {
        rig.pool.allocate(n, &[8], 1, Tier::Dram).unwrap();
    }
    for n in ["idle", "pinned"] {
        rig.access(n, 0).unwrap();
    }
    rig.pool.vmt.lookup_mut("pinned").unwrap().pinned = true;
    rig.now += 6_000_000_000;
    rig.access("busy", 0).unwrap();
    rig.pool.vmt.lookup_mut("hot").unwrap().access_count = 10;
    rig.pool.vmt.lookup_mut("tepid").unwrap().access_count = 9;
    rig.sweep().unwrap();
    assert_eq!(rig.tier("idle"), Tier::Dram);
    assert_eq!(rig.tier("busy"), Tier::Vram);
    assert_eq!(rig.tier("hot"), Tier::Vram);
    assert_eq!(rig.tier("pinned"), Tier::Vram);
    assert_eq!(rig.tier("tepid"), Tier::Dram);
}

#[test]
fn a_failed_move_ends_a_sweep_by_idle_time() {
    let mut rig = Rig::new(&[0], 4096);
    for n in ["a", "b"] {
        rig.pool.allocate(n, &[8], 1, Tier::Dram).unwrap();
        rig.pool.vmt.lookup_mut(n).unwrap().access_count = 10;
    }
    rig.refuse_block = true;
    assert!(rig.sweep().is_err());
    rig.refuse_block = false;
    rig.sweep().unwrap();
    assert_eq!(rig.tier("a"), Tier::Vram);
    assert_eq!(rig.tier("b"), Tier::Vram);
}

#[test]
fn a_failed_promotion_does_not_end_a_sweep_by_rate() {
    let mut rig = Rig::new(&[0], 4096);
    rig.pool.enable_membrane(4096);
    for n in ["a", "b"] {
        rig.pool.allocate(n, &[8], 1, Tier::Dram).unwrap();
    }
    rig.fail_copy = Some(0);
    rig.sweep().unwrap();
    let resident = ["a", "b"].iter().filter(|n| rig.tier(n) == Tier::Vram).count();
    assert_eq!(resident, 1);
    // A demotion that fails ends it.
    rig.pool.enable_membrane(0);
    rig.fail_copy = Some(0);
    assert!(rig.sweep().is_err());
    rig.sweep().unwrap();
    assert!(["a", "b"].iter().all(|n| rig.tier(n) == Tier::Dram));
}

#[test]
fn a_sweep_by_rate_makes_only_moves_that_change_something() {
    let mut rig = Rig::new(&[0], 4096);
    for n in ["on", "off"] {
        rig.pool.allocate(n, &[8], 1, Tier::Dram).unwrap();
    }
    rig.access("on", 0).unwrap();
    let names = |s: &[&str]| -> Vec<String> { s.iter().map(|n| n.to_string()).collect() };
    let mut sweep = TieredPool::rate_sweep(names(&["on", "gone", "off"]), names(&["off", "gone"]));
    match rig.pool.background_sweep(&mut sweep, None) {
        SweepStep::Promote(n) => assert_eq!(n, "off"),
        other => panic!("unexpected {other:?}"),
    }
    assert!(matches!(
        rig.pool.background_sweep(&mut sweep, Some(VugvaError::DmaRingFull)),
        SweepStep::Finished(Ok(()))
    ));
}

#[test]
fn observations_say_what_there_is_to_say() {
    let mut rig = Rig::new(&[0], 4096);
    rig.pool.allocate("a", &[8], 1, Tier::Dram).unwrap();
    rig.pool.allocate("b", &[16], 1, Tier::Dram).unwrap();
    rig.access("b", 0).unwrap();
    rig.pool.vmt.lookup_mut("a").unwrap().pinned = true;
    let mut seen: Vec<(String, usize, bool, bool, bool)> = rig
        .pool
        .observations()
        .into_iter()
        .map(|o| (o.name, o.bytes, o.resident, o.pinned, o.rate.is_some()))
        .collect();
    seen.sort();
    assert_eq!(
        seen,
        vec![("a".into(), 8, false, true, false), ("b".into(), 16, true, false, false)]
    );
}

#[test]
fn blocks_are_used_again_by_their_exact_size() {
    let mut rig = Rig::new(&[0], 4096);
    for (ptr, bytes) in [(1u64, 8usize), (2, 16), (3, 8), (4, 32)] {
        rig.pool.free_vram_on_gpu(0, ptr, bytes).unwrap();
    }
    rig.pool.free_vram_on_gpu(0, 0, 8).unwrap();
    assert!(matches!(rig.pool.free_vram_on_gpu(1, 5, 8), Err(VugvaError::InvalidGpu(1))));
    assert!(rig.pool.free_vram_on_gpu(1, 0, 8).is_ok());
    assert_eq!(rig.pool.vram_cached_blocks(0).unwrap(), 4);
    assert_eq!(rig.pool.take_block(0, 8), Some(1));
    assert_eq!(rig.pool.vram_free[0], vec![(32, 4), (16, 2), (8, 3)]);
    assert_eq!(rig.pool.take_block(0, 9), None);
    assert_eq!(rig.pool.take_block(0, 8), Some(3));
    assert_eq!(rig.pool.take_block(0, 8), None);
    assert_eq!(rig.pool.take_block(1, 8), None);
}

/// Numbers that look random and are the same every time.
struct Dice(u64);

impl Dice {
    fn roll(&mut self, n: u64) -> u64 {
        self.0 = self.0.wrapping_mul(6364136223846793005).wrapping_add(1442695040888963407);
        (self.0 >> 33) % n
    }
}

fn lines(bytes: usize) -> usize {
    (bytes + 63) / 64 * 64
}

/// The memory of no two pages overlaps, and nothing else is handed out.
fn assert_memory_is_apart(rig: &Rig) {
    let mut host: Vec<(usize, usize)> = Vec::new();
    let mut storage: Vec<(usize, usize)> = Vec::new();
    for (_, page) in rig.pool.vmt.iter() {
        for c in &page.dram_chunks {
            host.push((c.host_ptr, lines(c.size_bytes)));
        }
        if let Some(offset) = page.ssd_offset {
            storage.push((offset as usize, lines(page.size_bytes)));
        }
    }
    for ranges in [&mut host, &mut storage] {
        ranges.retain(|r| r.1 > 0);
        ranges.sort();
        for pair in ranges.windows(2) {
            assert!(pair[0].0 + pair[0].1 <= pair[1].0, "{pair:?} overlap");
        }
    }
    let used: usize =
        (0..rig.pool.dram_pools.len()).map(|g| rig.pool.dram_used(g).unwrap()).sum();
    assert_eq!(used, host.iter().map(|r| r.1).sum::<usize>());
}

/// No device block is in two hands.
fn assert_blocks_are_apart(rig: &Rig) {
    let mut blocks: Vec<u64> = Vec::new();
    for (_, page) in rig.pool.vmt.iter() {
        blocks.extend(page.vram_chunks.iter().map(|c| c.device_ptr));
    }
    for list in &rig.pool.vram_free {
        blocks.extend(list.iter().map(|b| b.1));
    }
    blocks.extend(rig.pool.inflight.entries().iter().map(|e| e.1.device_ptr));
    let all = blocks.len();
    blocks.sort();
    blocks.dedup();
    assert_eq!(blocks.len(), all);
}

#[test]
fn memory_is_never_in_two_hands() {
    let mut rig = Rig::new(&[0, 1, 2], 8192);
    rig.attach_spill(1 << 16);
    let mut dice = Dice(1);
    let mut names: Vec<String> = Vec::new();
    for _ in 0..900 {
        let gpu = dice.roll(3) as usize;
        let pick = dice.roll(1000) as usize;
        match dice.roll(6) {
            0 | 1 => {
                let tier = [Tier::Dram, Tier::Dram, Tier::Ssd][dice.roll(3) as usize];
                let elements = dice.roll(700) as usize;
                if let Ok(name) = rig.pool.allocate("", &[elements], 1, tier) {
                    names.push(name);
                }
            }
            2 if !names.is_empty() => {
                let name = names.swap_remove(pick % names.len());
                rig.prefetch(&name, gpu, CopyStart::NotStarted);
                rig.pool.deallocate(&name).unwrap();
            }
            3 if !names.is_empty() => {
                let _ = rig.access(&names[pick % names.len()], gpu);
            }
            4 if !names.is_empty() => {
                let name = &names[pick % names.len()];
                if rig.pool.vmt.lookup(name).unwrap().vram_chunks.len() == 1 {
                    let _ = rig.demote(name);
                }
            }
            _ if !names.is_empty() => {
                rig.fail_copy = Some(0);
                let _ = rig.access(&names[pick % names.len()], gpu);
                rig.fail_copy = None;
            }
            _ => {}
        }
        // A page that was given up half-way keeps what it got.
        assert_memory_is_apart(&rig);
        assert_blocks_are_apart(&rig);
    }
}

#[test]
fn what_is_written_survives_whatever_happens_to_other_pages() {
    let mut rig = Rig::new(&[0], 1 << 14);
    rig.attach_spill(1 << 16);
    let mut dice = Dice(7);
    let mut pages: Vec<(String, Vec<u8>)> = Vec::new();
    for i in 0..12usize {
        let tier = if i % 3 == 2 { Tier::Ssd } else { Tier::Dram };
        let bytes = 100 + 40 * i;
        let name = rig.pool.allocate("", &[bytes], 1, tier).unwrap();
        let data: Vec<u8> = (0..bytes).map(|_| dice.roll(256) as u8).collect();
        rig.write_page(&name, &data).unwrap();
        pages.push((name, data));
    }
    for _ in 0..600 {
        let i = dice.roll(pages.len() as u64) as usize;
        let (name, data) = pages[i].clone();
        match dice.roll(4) {
            0 => {
                // The device changes its copy. The page takes it down with it.
                let p = rig.access(&name, 0).unwrap();
                if !rig.pool.vmt.lookup(&name).unwrap().dram_chunks.is_empty() {
                    let at = dice.roll(data.len() as u64) as usize;
                    rig.device.get_mut(&p).unwrap()[at] ^= 0x55;
                    pages[i].1[at] ^= 0x55;
                }
            }
            1 => {
                if !rig.pool.vmt.lookup(&name).unwrap().dram_chunks.is_empty() {
                    rig.demote(&name).unwrap();
                }
            }
            2 => rig.prefetch(&name, 0, CopyStart::Started),
            _ => {
                let p = rig.access(&name, 0).unwrap();
                assert!(rig.device[&p] == data, "{name} came back changed");
            }
        }
        // The ring has no consumer here: start over before it is full.
        if rig.pool.dma.pending(0) > 1000 {
            rig.pool.dma = vugva::dma::DmaEngine::new(1);
        }
    }
}

#[test]
fn a_copy_on_another_gpu_is_the_same() {
    let mut rig = Rig::new(&[4, 8], 4096);
    rig.pool.allocate("t", &[200], 1, Tier::Dram).unwrap();
    let data: Vec<u8> = (0..200).map(|i| (i * 3) as u8).collect();
    rig.write_page("t", &data).unwrap();
    let a = rig.access("t", 0).unwrap();
    rig.device.get_mut(&a).unwrap()[7] = 0xEE;
    let b = rig.access("t", 1).unwrap();
    assert_eq!(rig.device[&a], rig.device[&b]);
    assert_eq!(rig.device[&b][7], 0xEE);
}

#[test]
fn a_page_that_is_dropped_is_forgotten() {
    let mut rig = Rig::new(&[0], 4096);
    rig.pool.allocate("t", &[64], 1, Tier::Dram).unwrap();
    rig.access("t", 0).unwrap();
    rig.pool.membrane.decay(vec![("t".to_string(), 3), ("other".to_string(), 4)]);
    rig.access("t", 0).unwrap();
    assert_eq!(rig.pool.membrane_rate("t"), Some(3));
    rig.pool.deallocate("t").unwrap();
    assert_eq!(rig.pool.membrane_rate("t"), None);
    assert_eq!(rig.pool.membrane_rate("other"), Some(4));
    assert!(rig.pool.membrane.window().iter().all(|s| s.name != "t"));
}

#[test]
fn a_sweep_demotes_first_and_makes_residence_match() {
    let mut rig = Rig::new(&[0], 4096);
    let all = ["a", "b", "c", "d", "e", "f"];
    for n in all {
        rig.pool.allocate(n, &[8], 1, Tier::Dram).unwrap();
    }
    for n in ["a", "c", "e"] {
        rig.access(n, 0).unwrap();
    }
    let names = |s: &[&str]| -> Vec<String> { s.iter().map(|n| n.to_string()).collect() };
    let (keep, evict) = (["b", "c", "d"], ["a", "e", "f"]);
    let mut sweep = TieredPool::rate_sweep(names(&keep), names(&evict));
    let mut moves = Vec::new();
    loop {
        match rig.pool.background_sweep(&mut sweep, None) {
            SweepStep::Finished(r) => break r.unwrap(),
            SweepStep::Demote(n) => {
                rig.demote(&n).unwrap();
                moves.push(format!("-{n}"));
            }
            SweepStep::Promote(n) => {
                rig.access(&n, 0).unwrap();
                moves.push(format!("+{n}"));
            }
        }
    }
    assert_eq!(moves, vec!["-a", "-e", "+b", "+d"]);
    assert!(keep.iter().all(|n| rig.tier(n) == Tier::Vram));
    assert!(evict.iter().all(|n| rig.tier(n) == Tier::Dram));
}

#[test]
fn a_page_for_the_devices_comes_to_one_with_its_first_access() {
    let mut rig = Rig::new(&[0], 1 << 16);
    assert_eq!(rig.pool.allocate("x", &[1024], 4, Tier::Vram).unwrap(), "x");
    let data: Vec<u8> = (0..4096).map(|i| (i * 7) as u8).collect();
    rig.write_page("x", &data).unwrap();
    assert!(rig.pool.vmt.lookup("x").unwrap().vram_chunks.is_empty());
    let p = rig.access("x", 0).unwrap();
    assert_ne!(p, 0);
    assert_eq!(rig.device[&p], data);
    assert_eq!(rig.tier("x"), Tier::Vram);
    assert_eq!(rig.access("x", 0).unwrap(), p);
}

#[test]
fn a_demotion_starts_the_count_of_accesses_anew() {
    let mut rig = Rig::new(&[0], 4096);
    rig.pool.allocate("t", &[8], 1, Tier::Dram).unwrap();
    for _ in 0..12 {
        rig.access("t", 0).unwrap();
    }
    let page = rig.pool.vmt.lookup("t").unwrap();
    assert_eq!(page.access_count, 12);
    assert!(page.is_hot(10));
    rig.demote("t").unwrap();
    let page = rig.pool.vmt.lookup("t").unwrap();
    assert_eq!(page.access_count, 0);
    assert!(!page.is_hot(10));
    // The next sweep does not bring back what the last one took away.
    rig.sweep().unwrap();
    assert_eq!(rig.tier("t"), Tier::Dram);
}

#[test]
fn a_prefetch_copies_as_many_bytes_as_the_page_has() {
    let data: Vec<u8> = (0..200).map(|i| (i + 1) as u8).collect();
    let mut rig = Rig::new(&[0], 4096);
    rig.pool.allocate("t", &[200], 1, Tier::Dram).unwrap();
    rig.write_page("t", &data).unwrap();
    rig.prefetch("t", 0, CopyStart::Started);
    let p = rig.access("t", 0).unwrap();
    assert_eq!(rig.device[&p], data);
    // From the first piece on, where there are several.
    let mut rig = Rig::new(&[4, 8, 9], 4096);
    rig.pool.allocate("t", &[200], 1, Tier::Dram).unwrap();
    rig.write_page("t", &data).unwrap();
    rig.prefetch("t", 2, CopyStart::Started);
    let p = rig.access("t", 2).unwrap();
    assert_eq!(rig.pool.vmt.lookup("t").unwrap().vram_chunks[0].size_bytes, 200);
    assert_eq!(rig.device[&p][..66], data[..66]);
}

#[test]
fn a_dropped_page_gives_its_storage_back() {
    let mut rig = Rig::new(&[0], 4096);
    rig.attach_spill(1024);
    for _ in 0..10 {
        let name = rig.pool.allocate("", &[1000], 1, Tier::Ssd).unwrap();
        assert_eq!(rig.pool.spill_used(), 1024);
        rig.access(&name, 0).unwrap();
        rig.pool.deallocate(&name).unwrap();
        assert_eq!(rig.pool.spill_used(), 0);
        assert_eq!(rig.pool.dram_used(0).unwrap(), 0);
    }
    let a = rig.pool.allocate("a", &[64], 1, Tier::Ssd).unwrap();
    let b = rig.pool.allocate("b", &[64], 1, Tier::Ssd).unwrap();
    rig.write_page(&b, &[7; 64]).unwrap();
    rig.pool.deallocate(&a).unwrap();
    assert_eq!(rig.pool.spill_used(), 64);
    let p = rig.access(&b, 0).unwrap();
    assert_eq!(rig.device[&p], vec![7; 64]);
}

#[test]
fn a_dropped_page_leaves_no_promotion_to_claim() {
    let mut rig = Rig::new(&[0], 4096);
    rig.pool.allocate("t", &[8], 1, Tier::Dram).unwrap();
    rig.write_page("t", &[1; 8]).unwrap();
    rig.prefetch("t", 0, CopyStart::Started);
    rig.pool.deallocate("t").unwrap();
    assert_eq!(rig.pool.inflight_count(), 0);
    assert_eq!(rig.pool.vram_cached_blocks(0).unwrap(), 1);
    rig.pool.allocate("t", &[8], 1, Tier::Dram).unwrap();
    rig.write_page("t", &[2; 8]).unwrap();
    let p = rig.access("t", 0).unwrap();
    assert_eq!(rig.device[&p], vec![2; 8]);
}

#[test]
fn a_budget_makes_sweeps_go_by_rate() {
    let mut rig = Rig::new(&[0], 4096);
    assert_eq!(rig.pool.sweep_kind(), SweepKind::ByIdleTime);
    rig.pool.enable_membrane(77);
    assert_eq!(rig.pool.sweep_kind(), SweepKind::ByRate(77));
}

#[test]
fn rounds_of_one_size_leave_one_block() {
    let mut rig = Rig::new(&[0], 4096);
    for tier in [Tier::Dram, Tier::Vram] {
        for i in 0..100 {
            let name = rig.pool.allocate("", &[1000 + i % 2], 1, tier).unwrap();
            rig.access(&name, 0).unwrap();
            rig.pool.deallocate(&name).unwrap();
            assert_eq!(rig.pool.dram_used(0).unwrap(), 0);
            assert!(rig.pool.vram_cached_blocks(0).unwrap() <= 2);
            assert!(matches!(
                rig.pool.deallocate(&name),
                Err(VugvaError::UnknownAllocation(n)) if n == name
            ));
        }
    }
    assert_eq!(rig.pool.vram_cached_blocks(0).unwrap(), 2);
    assert_eq!(rig.device.len(), 2);
}

#[test]
fn a_failed_promotion_leaves_out_only_its_page() {
    let mut rig = Rig::new(&[0], 4096);
    for n in ["a", "b", "c", "d"] {
        rig.pool.allocate(n, &[8], 1, Tier::Dram).unwrap();
    }
    rig.access("a", 0).unwrap();
    let names = |s: &[&str]| -> Vec<String> { s.iter().map(|n| n.to_string()).collect() };
    let mut sweep = TieredPool::rate_sweep(names(&["b", "c", "d"]), names(&["a"]));
    let mut failure = None;
    loop {
        match rig.pool.background_sweep(&mut sweep, failure.take()) {
            SweepStep::Finished(r) => break r.unwrap(),
            SweepStep::Demote(n) => failure = rig.demote(&n).err(),
            SweepStep::Promote(n) => {
                rig.refuse_block = n == "c";
                failure = rig.access(&n, 0).err();
            }
        }
    }
    assert_eq!(rig.tier("a"), Tier::Dram);
    assert_eq!(rig.tier("b"), Tier::Vram);
    assert_eq!(rig.tier("c"), Tier::Dram);
    assert_eq!(rig.tier("d"), Tier::Vram);
}
