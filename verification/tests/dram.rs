//! Host memory pools.

use vugva::context::ContextRegistry;
use vugva::tiered::dram::DramPool;
use vugva::tiered::TieredPool;
use vugva::VugvaError;

/// A pool over an address range that nothing is mapped at: handing out memory
/// is arithmetic on addresses.
fn pool(capacity: usize) -> DramPool {
    DramPool::new(0, 0, 0x1000_0000, capacity, false, false)
}

/// The pool can cross a thread boundary.
#[test]
fn tiered_pool_is_send_and_sync() {
    fn assert_send_sync<T: Send + Sync>() {}
    assert_send_sync::<TieredPool>();
    assert_send_sync::<ContextRegistry>();
}

#[test]
fn dram_allocate_is_aligned_and_sequential() {
    let mut p = pool(4096);
    let a = p.allocate(1).unwrap();
    let b = p.allocate(1).unwrap();
    assert_eq!(a, 0x1000_0000);
    assert_eq!(b - a, 64, "sub-alignment sizes must still consume a line");
    assert_eq!(p.used(), 128);
}

#[test]
fn dram_free_then_allocate_reuses_the_same_range() {
    let mut p = pool(4096);
    let keep = p.allocate(128).unwrap();
    let a = p.allocate(256).unwrap();
    p.free(a, 256);
    let b = p.allocate(256).unwrap();
    assert_eq!(a, b, "the freed range must be handed back out");
    assert_eq!(p.used(), 384);
    assert_ne!(keep, b);
}

#[test]
fn dram_pool_survives_more_churn_than_it_has_capacity_for() {
    // A pool that never holds more than one allocation never runs out.
    let mut p = pool(4096);
    for _ in 0..1000 {
        let ptr = p.allocate(1024).unwrap();
        p.free(ptr, 1024);
    }
    assert_eq!(p.used(), 0);
}

#[test]
fn dram_free_coalesces_adjacent_blocks() {
    let mut p = pool(4096);
    let a = p.allocate(256).unwrap();
    let b = p.allocate(256).unwrap();
    let c = p.allocate(256).unwrap();
    let _tail = p.allocate(256).unwrap(); // keeps the top from retracting

    // Free out of order so the middle block has to merge both ways.
    p.free(a, 256);
    p.free(c, 256);
    assert_eq!(p.free_blocks().len(), 2);
    p.free(b, 256);
    assert_eq!(p.free_blocks().len(), 1, "a+b+c must merge into one block");
    assert_eq!(p.free_blocks()[0], (0, 768));

    // And that merged block must be usable as a single large allocation,
    // which is the whole point of coalescing.
    let big = p.allocate(768).unwrap();
    assert_eq!(big, a);
}

#[test]
fn dram_free_retracts_the_high_water_mark() {
    let mut p = pool(4096);
    let a = p.allocate(1024).unwrap();
    assert_eq!(p.offset(), 1024);
    p.free(a, 1024);
    assert_eq!(p.offset(), 0, "a freed top block must not park on the list");
    assert!(p.free_blocks().is_empty());
}

#[test]
fn dram_free_ignores_foreign_and_double_frees() {
    let mut p = pool(4096);
    let a = p.allocate(256).unwrap();
    let _b = p.allocate(256).unwrap();
    let before = p.used();

    p.free(a - 0x1_0000, 256); // below the pool
    p.free(p.base_ptr + p.capacity() + 64, 256); // above the pool
    assert_eq!(p.used(), before, "out-of-range frees must be ignored");

    p.free(a, 256);
    let after_one = p.used();
    p.free(a, 256); // double free
    assert_eq!(
        p.used(),
        after_one,
        "a double free must not put the range on the list twice"
    );

    // The decisive check: the range must be handed out exactly once.
    let x = p.allocate(256).unwrap();
    let y = p.allocate(256).unwrap();
    assert_ne!(x, y, "double free must never alias two live allocations");
}

#[test]
fn dram_best_fit_prefers_the_tightest_hole() {
    let mut p = pool(8192);
    let small = p.allocate(128).unwrap();
    let _g1 = p.allocate(64).unwrap();
    let large = p.allocate(1024).unwrap();
    let _g2 = p.allocate(64).unwrap();
    p.free(small, 128);
    p.free(large, 1024);

    let got = p.allocate(128).unwrap();
    assert_eq!(
        got, small,
        "must not shred the 1024-byte hole for 128 bytes"
    );
    // The large hole is therefore still intact.
    assert_eq!(p.allocate(1024).unwrap(), large);
}

#[test]
fn dram_allocate_reports_exhaustion_as_a_host_error() {
    let mut p = pool(256);
    assert!(p.allocate(256).is_ok());
    // Must not masquerade as a *device* OOM — the GPU is not involved and
    // the fixes that error suggests all target the wrong resource.
    match p.allocate(64) {
        Err(VugvaError::DramOom {
            requested,
            available,
            capacity,
        }) => {
            assert_eq!(requested, 64);
            assert_eq!(available, 0);
            assert_eq!(capacity, 256);
        }
        other => panic!("expected DramOom, got {other:?}"),
    }
}

#[test]
fn dram_oom_distinguishes_fragmentation_from_exhaustion() {
    let mut p = pool(1024);
    let a = p.allocate(256).unwrap();
    let _b = p.allocate(256).unwrap();
    let c = p.allocate(256).unwrap();
    let _d = p.allocate(256).unwrap();
    p.free(a, 256);
    p.free(c, 256);

    // 512 bytes free, but in two non-adjacent holes.
    match p.allocate(512) {
        Err(VugvaError::DramOom { available, .. }) => assert_eq!(
            available, 512,
            "a fragmentation failure must report the free bytes, so it is \
             distinguishable from a genuinely full pool"
        ),
        other => panic!("expected DramOom, got {other:?}"),
    }
}

#[test]
fn dram_pool_reports_what_it_was_made_with() {
    let p = DramPool::new(3, 7, 4096, 128, true, false);
    assert_eq!(p.numa_node, 3);
    assert_eq!(p.gpu_ordinal, 7);
    assert_eq!(p.base_ptr, 4096);
    assert_eq!(p.capacity(), 128);
    assert!(p.numa_bound);
    assert!(!p.pinned);
    assert_eq!(p.used(), 0);
}

#[test]
fn dram_free_takes_back_only_its_own() {
    let mut low = DramPool::new(0, 0, 0x1000, 0x1000, false, false);
    let mut high = DramPool::new(0, 1, 0x2000, 0x1000, false, false);
    let a = low.allocate(256).unwrap();
    let b = high.allocate(256).unwrap();
    high.free(a, 256);
    low.free(b, 256);
    assert_eq!(low.used(), 256);
    assert_eq!(high.used(), 256);
    low.free(a, 256);
    high.free(b, 256);
    assert_eq!(low.used() + high.used(), 0);
}
