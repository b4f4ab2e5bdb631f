//! The range allocator.

use vugva::range_alloc::RangeAllocator;
use vugva::VugvaError;

#[test]
fn allocate_is_aligned_and_sequential() {
    let mut r = RangeAllocator::new(4096);
    assert_eq!(r.allocate(1).unwrap(), 0);
    assert_eq!(
        r.allocate(1).unwrap(),
        64,
        "sub-alignment sizes must still consume a line"
    );
    assert_eq!(r.used(), 128);
}

#[test]
fn free_then_allocate_reuses_the_same_range() {
    let mut r = RangeAllocator::new(4096);
    let keep = r.allocate(128).unwrap();
    let a = r.allocate(256).unwrap();
    r.free(a, 256);
    let b = r.allocate(256).unwrap();
    assert_eq!(a, b, "the freed range must be handed back out");
    assert_eq!(r.used(), 384);
    assert_ne!(keep, b);
}

#[test]
fn survives_more_churn_than_it_has_capacity_for() {
    // A region that never holds more than one allocation never runs out.
    let mut r = RangeAllocator::new(4096);
    for _ in 0..1000 {
        let off = r.allocate(1024).unwrap();
        r.free(off, 1024);
    }
    assert_eq!(r.used(), 0);
}

#[test]
fn free_coalesces_adjacent_blocks() {
    let mut r = RangeAllocator::new(4096);
    let a = r.allocate(256).unwrap();
    let b = r.allocate(256).unwrap();
    let c = r.allocate(256).unwrap();
    let _tail = r.allocate(256).unwrap(); // keeps the top from retracting

    // Free out of order so the middle block has to merge both ways.
    r.free(a, 256);
    r.free(c, 256);
    assert_eq!(r.free_block_count(), 2);
    r.free(b, 256);
    assert_eq!(r.free_block_count(), 1, "a+b+c must merge into one block");

    // The merged block must be usable as a single large allocation, which
    // is the whole point of coalescing.
    assert_eq!(r.allocate(768).unwrap(), a);
}

#[test]
fn free_retracts_the_high_water_mark() {
    let mut r = RangeAllocator::new(4096);
    let a = r.allocate(1024).unwrap();
    r.free(a, 1024);
    assert_eq!(r.used(), 0);
    assert_eq!(
        r.free_block_count(),
        0,
        "a freed top block must not park on the list"
    );
}

#[test]
fn free_ignores_out_of_range_and_double_frees() {
    let mut r = RangeAllocator::new(4096);
    let a = r.allocate(256).unwrap();
    let _b = r.allocate(256).unwrap();
    let before = r.used();

    r.free(1 << 20, 256); // past the high-water mark
    assert_eq!(r.used(), before, "out-of-range frees must be ignored");

    r.free(a, 256);
    let after_one = r.used();
    r.free(a, 256); // double free
    assert_eq!(
        r.used(),
        after_one,
        "a double free must not put the range on the list twice"
    );

    // The decisive check: the range must be handed out exactly once.
    let x = r.allocate(256).unwrap();
    let y = r.allocate(256).unwrap();
    assert_ne!(x, y, "double free must never alias two live allocations");
}

#[test]
fn best_fit_prefers_the_tightest_hole() {
    let mut r = RangeAllocator::new(8192);
    let small = r.allocate(128).unwrap();
    let _g1 = r.allocate(64).unwrap();
    let large = r.allocate(1024).unwrap();
    let _g2 = r.allocate(64).unwrap();
    r.free(small, 128);
    r.free(large, 1024);

    assert_eq!(
        r.allocate(128).unwrap(),
        small,
        "must not shred the 1024-byte hole for 128 bytes"
    );
    // The large hole is therefore still intact.
    assert_eq!(r.allocate(1024).unwrap(), large);
}

#[test]
fn exhaustion_is_a_host_error_not_a_device_one() {
    let mut r = RangeAllocator::new(256);
    assert!(r.allocate(256).is_ok());
    // Must not masquerade as a *device* OOM — no GPU is involved, and the
    // fixes that error suggests all target the wrong resource.
    match r.allocate(64) {
        Err(VugvaError::DramOom {
            requested,
            available,
            capacity,
        }) => {
            assert_eq!(requested, 64);
            assert_eq!(available, 0);
            assert_eq!(capacity, 256);
        }
        other => panic!("expected DramOom, got {other:?}"),
    }
}

#[test]
fn oom_distinguishes_fragmentation_from_exhaustion() {
    let mut r = RangeAllocator::new(1024);
    let a = r.allocate(256).unwrap();
    let _b = r.allocate(256).unwrap();
    let c = r.allocate(256).unwrap();
    let _d = r.allocate(256).unwrap();
    r.free(a, 256);
    r.free(c, 256);

    // 512 bytes free, but in two non-adjacent holes.
    match r.allocate(512) {
        Err(VugvaError::DramOom { available, .. }) => assert_eq!(
            available, 512,
            "a fragmentation failure must report the free bytes, so it is \
             distinguishable from a genuinely full region"
        ),
        other => panic!("expected DramOom, got {other:?}"),
    }
}

#[test]
fn alignment_rounds_up_to_a_line() {
    assert_eq!(RangeAllocator::align(0), 0);
    assert_eq!(RangeAllocator::align(1), 64);
    assert_eq!(RangeAllocator::align(64), 64);
    assert_eq!(RangeAllocator::align(65), 128);
    assert_eq!(RangeAllocator::align(usize::MAX - 63), usize::MAX - 63);
}

#[test]
fn an_untouched_region_is_empty() {
    let r = RangeAllocator::new(1000);
    assert_eq!(r.capacity(), 1000);
    assert_eq!(r.used(), 0);
    assert_eq!(r.high_water(), 0);
    assert!(r.free_blocks().is_empty());
}

#[test]
fn a_partly_free_range_is_not_taken_back() {
    let mut r = RangeAllocator::new(4096);
    let a = r.allocate(128).unwrap();
    let _b = r.allocate(64).unwrap();
    r.free(a, 64);
    assert_eq!(r.used(), 128);
    // Half of this range is free already.
    r.free(a, 128);
    assert_eq!(r.used(), 128);
    assert_eq!(r.free_blocks()[0], (0, 64));
}

#[test]
fn freeing_everything_in_any_order_restores_the_region() {
    for order in [[0, 1, 2], [0, 2, 1], [1, 0, 2], [1, 2, 0], [2, 0, 1], [2, 1, 0]] {
        let mut r = RangeAllocator::new(4096);
        let offs: Vec<usize> = [100, 200, 300].iter().map(|&n| r.allocate(n).unwrap()).collect();
        for i in order {
            r.free(offs[i], [100, 200, 300][i]);
        }
        assert_eq!(r.used(), 0);
        assert_eq!(r.high_water(), 0);
        assert_eq!(r.free_block_count(), 0);
    }
}

#[test]
fn ranges_that_are_live_together_do_not_overlap() {
    let mut r = RangeAllocator::new(1 << 16);
    let mut live: Vec<(usize, usize)> = Vec::new();
    let mut seed = 12345u32;
    for step in 0..400 {
        seed = seed.wrapping_mul(1664525).wrapping_add(1013904223);
        let bytes = (seed >> 16) as usize % 700 + 1;
        if step % 3 == 2 && !live.is_empty() {
            let k = seed as usize % live.len();
            let (off, len) = live.swap_remove(k);
            r.free(off, len);
        } else if let Ok(off) = r.allocate(bytes) {
            for &(o, l) in &live {
                assert!(off + bytes <= o || o + l <= off);
            }
            live.push((off, bytes));
        }
    }
    let total: usize = live.iter().map(|&(_, l)| RangeAllocator::align(l)).sum();
    assert_eq!(r.used(), total);
}

#[test]
fn an_exact_fit_is_used_up() {
    let mut r = RangeAllocator::new(4096);
    let a = r.allocate(256).unwrap();
    let _b = r.allocate(64).unwrap();
    r.free(a, 256);
    assert_eq!(r.allocate(100).unwrap(), a);
    assert_eq!(r.free_blocks()[0], (128, 128));
    assert_eq!(r.allocate(128).unwrap(), 128);
    assert_eq!(r.free_block_count(), 0);
}
