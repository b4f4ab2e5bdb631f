//! Properties of the parts, on chosen values.

use std::mem;
use vugva::dma::DmaDescriptor;
use vugva::range_alloc::{RangeAllocator, ALIGN};
use vugva::vmt::{Page, PageState, Tier, VirtualMemoryTable};

#[test]
fn proof_01_dma_descriptor_is_64_bytes() {
    assert_eq!(
        mem::size_of::<DmaDescriptor>(),
        64,
        "DmaDescriptor must be exactly 64 bytes"
    );
}

#[test]
fn proof_03_dma_descriptor_all_fields_fit() {
    // 8+8+4+4+4+4+4 = 36 bytes fields, pad = 28 bytes, total = 64
    assert_eq!(mem::size_of::<DmaDescriptor>(), 64);
}

#[test]
fn proof_04_metadata_per_promotion_is_72_bytes() {
    let page_lookup = mem::size_of::<usize>(); // 8 bytes on 64-bit
    let dma_desc = mem::size_of::<DmaDescriptor>(); // 64 bytes
    assert_eq!(
        page_lookup + dma_desc,
        72,
        "CPU touches exactly 72 bytes per promotion"
    );
}

#[test]
fn proof_05_metadata_ratio_below_01_percent() {
    let metadata = 72usize;
    // 4KB page (minimum realistic DMA transfer)
    let ratio_4k = metadata as f64 / 4096.0;
    assert!(
        ratio_4k < 0.02,
        "Ratio {ratio_4k:.4} must be < 2% for 4KB page"
    );

    // 256KB page (typical L2 cache-sized block)
    let ratio_256k = metadata as f64 / (256.0 * 1024.0);
    assert!(
        ratio_256k < 0.001,
        "Ratio {ratio_256k:.6} must be < 0.1% for 256KB"
    );

    // 256MB allocation (typical tensor)
    let ratio_256m = metadata as f64 / (256.0 * 1024.0 * 1024.0);
    assert!(
        ratio_256m < 0.000001,
        "Ratio {ratio_256m:.10} must be < 0.0001% for 256MB"
    );
}

#[test]
fn proof_06_cpu_bypass_fraction() {
    let cpu_touch = 72usize;
    let transfer = 4 * 1024 * 1024; // 4MB DMA
    let fraction = cpu_touch as f64 / transfer as f64;
    assert!(
        fraction < 0.0001,
        "CPU fraction {fraction:.8} must be < 0.01%"
    );
}

#[test]
fn proof_07_valid_transitions_accepted() {
    let valid = [
        (PageState::Unmapped, PageState::Allocated),
        (PageState::Allocated, PageState::Resident),
        (PageState::Resident, PageState::Warm),
        (PageState::Warm, PageState::Resident),
        (PageState::Warm, PageState::Cold),
        (PageState::Cold, PageState::Warm),
    ];
    for (from, to) in &valid {
        let mut page = Page::new("t".into(), vec![10], 4, 1, 1);
        advance_page(&mut page, *from);
        assert!(
            page.transition(*to).is_ok(),
            "Valid {from:?} → {to:?} was rejected"
        );
    }
}

#[test]
fn proof_08_invalid_transitions_rejected() {
    let invalid = [
        (PageState::Unmapped, PageState::Resident),
        (PageState::Unmapped, PageState::Warm),
        (PageState::Unmapped, PageState::Cold),
        (PageState::Allocated, PageState::Warm),
        (PageState::Allocated, PageState::Cold),
        (PageState::Resident, PageState::Allocated),
        (PageState::Cold, PageState::Allocated),
        (PageState::Cold, PageState::Unmapped),
    ];
    for (from, to) in &invalid {
        let mut page = Page::new("t".into(), vec![10], 4, 1, 1);
        advance_page(&mut page, *from);
        assert!(
            page.transition(*to).is_err(),
            "Invalid {from:?} → {to:?} should be rejected"
        );
    }
}

fn advance_page(page: &mut Page, target: PageState) {
    match target {
        PageState::Unmapped => {}
        PageState::Allocated => page.state = PageState::Allocated,
        PageState::Resident => page.state = PageState::Resident,
        PageState::Warm => {
            page.state = PageState::Resident;
            page.state = PageState::Warm;
        }
        PageState::Cold => {
            page.state = PageState::Resident;
            page.state = PageState::Warm;
            page.state = PageState::Cold;
        }
    }
}

#[test]
fn proof_09_bandwidth_hierarchy() {
    let vram: f64 = 1008.0;
    let dram: f64 = 43.0;
    let ssd: f64 = 6.0;

    assert!(vram > dram * 10.0, "VRAM > 10× DRAM");
    assert!(dram > ssd * 3.0, "DRAM > 3× SSD");
    assert!(vram > ssd * 100.0, "VRAM > 100× SSD");
}

#[test]
fn proof_10_numa_bandwidth_factors_ordering() {
    let local = 0.95f64;
    let cross = 0.80f64;
    let far = 0.65f64;

    assert!(local > cross, "Local > Cross-socket");
    assert!(cross > far, "Cross-socket > Far");
    assert!(local - far >= 0.25, "Spread ≥ 0.25");
}

#[test]
fn proof_18_alignment_is_power_of_two() {
    assert!(ALIGN.is_power_of_two());
    assert_eq!(ALIGN, 64);
}

#[test]
fn proof_19_allocations_are_aligned() {
    let mut alloc = RangeAllocator::new(1024 * 1024);
    for size in [1, 7, 33, 63, 64, 65, 128, 1000] {
        let offset = alloc.allocate(size).unwrap();
        assert_eq!(
            offset % ALIGN,
            0,
            "offset {offset} not aligned for size {size}"
        );
    }
}

#[test]
fn proof_20_best_fit_picks_tightest() {
    let mut alloc = RangeAllocator::new(1024);
    let a = alloc.allocate(128).unwrap();
    let _b = alloc.allocate(256).unwrap();
    let c = alloc.allocate(128).unwrap();
    alloc.free(a, 128);
    alloc.free(c, 128);
    let got = alloc.allocate(64).unwrap();
    assert_eq!(got, a, "Best-fit must pick tightest hole");
}

#[test]
fn proof_21_coalescing_merges_adjacent() {
    let mut alloc = RangeAllocator::new(1024);
    let a = alloc.allocate(128).unwrap(); // 0..128
    let b = alloc.allocate(128).unwrap(); // 128..256
    let _c = alloc.allocate(128).unwrap(); // 256..384
    let _d = alloc.allocate(128).unwrap(); // 384..512 — keeps HW mark above a,b
                                           // Free a and b (adjacent, in the middle)
    alloc.free(a, 128);
    alloc.free(b, 128);
    assert_eq!(alloc.free_block_count(), 1, "Adjacent frees must coalesce");
}

#[test]
fn proof_22_oom_is_fragmentation() {
    let mut alloc = RangeAllocator::new(256);
    let a = alloc.allocate(128).unwrap();
    let _b = alloc.allocate(64).unwrap();
    let c = alloc.allocate(64).unwrap();
    alloc.free(a, 128);
    alloc.free(c, 64);

    match alloc.allocate(192).unwrap_err() {
        vugva::VugvaError::DramOom {
            requested,
            available,
            ..
        } => {
            assert_eq!(requested, 192);
            assert_eq!(available, 192);
        }
        other => panic!("Expected DramOom, got {other:?}"),
    }
}

#[test]
fn proof_23_vmt_unique_names() {
    let mut vmt = VirtualMemoryTable::new(1, 1);
    // Empty name triggers auto-ID generation
    let n1 = vmt.allocate("", &[100], 4).unwrap();
    let n2 = vmt.allocate("", &[100], 4).unwrap();
    assert_ne!(n1, n2, "Auto-generated names must be unique: {n1} vs {n2}");
}

#[test]
fn proof_24_vmt_lookup_correct_page() {
    let mut vmt = VirtualMemoryTable::new(1, 1);
    let name = vmt.allocate("test", &[256, 256], 4).unwrap();
    let page = vmt.lookup(&name).unwrap();
    assert_eq!(page.size_bytes, 256 * 256 * 4);
    assert_eq!(page.element_size, 4);
    assert_eq!(page.shape, vec![256, 256]);
}

#[test]
fn proof_25_vmt_remove_returns_page() {
    let mut vmt = VirtualMemoryTable::new(1, 1);
    let name = vmt.allocate("test", &[100], 4).unwrap();
    let page = vmt.remove(&name).unwrap();
    assert_eq!(page.name, "test");
    assert!(vmt.lookup(&name).is_none());
}

#[test]
fn proof_26_page_size_calculation() {
    let p1 = Page::new("t".into(), vec![1024, 1024], 4, 1, 1);
    assert_eq!(p1.size_bytes, 4_194_304);

    let p2 = Page::new("t".into(), vec![8192, 8192], 2, 1, 1);
    assert_eq!(p2.size_bytes, 134_217_728);
}

#[test]
fn proof_27_tier_ordering() {
    assert!((Tier::Vram as u8) < (Tier::Dram as u8));
    assert!((Tier::Dram as u8) < (Tier::Ssd as u8));
}

#[test]
fn proof_28_latency_hiding_condition() {
    let t_compute = 50.0_f64;
    let t_transport = 8.5_f64;
    let t_total = t_compute.max(t_transport);

    assert_eq!(t_total, t_compute);
    assert!(t_compute >= t_transport, "Compute must dominate transport");
}
