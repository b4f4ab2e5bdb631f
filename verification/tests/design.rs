//! Properties that the design rests on.

use vugva::gpu::NumaTopology;
use vugva::vmt::{Page, PageState};

fn factor(topo: &NumaTopology, src: usize, dst: usize) -> f64 {
    topo.dma_bandwidth_factor(src, dst) as f64 / 100.0
}

fn advance_to(page: &mut Page, target: PageState) {
    let chain: &[PageState] = &[PageState::Allocated, PageState::Resident, PageState::Warm];
    for &state in chain {
        if state == target {
            page.transition(state).unwrap();
            return;
        }
        page.transition(state).unwrap();
    }
    if target == PageState::Cold {
        page.transition(PageState::Cold).unwrap();
    }
}

#[test]
fn paper_dma_bandwidth_factor_thresholds() {
    let topo = NumaTopology::single_node();
    assert_eq!(factor(&topo, 0, 0), 0.95);

    let topo2 = NumaTopology {
        distances: vec![vec![10, 12], vec![12, 10]],
        node_count: 2,
    };
    assert_eq!(factor(&topo2, 0, 1), 0.95);

    let topo3 = NumaTopology {
        distances: vec![vec![10, 13], vec![13, 10]],
        node_count: 2,
    };
    assert_eq!(factor(&topo3, 0, 1), 0.80);

    let topo4 = NumaTopology {
        distances: vec![vec![10, 20], vec![20, 10]],
        node_count: 2,
    };
    assert_eq!(factor(&topo4, 0, 1), 0.80);

    let topo5 = NumaTopology {
        distances: vec![vec![10, 21], vec![21, 10]],
        node_count: 2,
    };
    assert_eq!(factor(&topo5, 0, 1), 0.65);
}

#[test]
fn paper_page_state_machine_completeness() {

    let valid_transitions: &[(PageState, PageState)] = &[
        (PageState::Unmapped, PageState::Allocated),
        (PageState::Allocated, PageState::Resident),
        (PageState::Resident, PageState::Warm),
        (PageState::Warm, PageState::Resident),
        (PageState::Warm, PageState::Cold),
        (PageState::Cold, PageState::Warm),
        (PageState::Resident, PageState::Cold),
        (PageState::Cold, PageState::Resident),
    ];

    for &(from, to) in valid_transitions {
        let mut page = Page::new("test".into(), vec![100], 2, 1, 1);
        if from != PageState::Unmapped {
            advance_to(&mut page, from);
        }
        let result = page.transition(to);
        assert!(
            result.is_ok(),
            "valid transition {from:?} -> {to:?} was rejected"
        );
    }
}

#[test]
fn paper_page_state_machine_invalid_transitions() {

    let invalid_transitions: &[(PageState, PageState)] = &[
        (PageState::Unmapped, PageState::Resident),
        (PageState::Unmapped, PageState::Warm),
        (PageState::Unmapped, PageState::Cold),
        (PageState::Allocated, PageState::Warm),
        (PageState::Allocated, PageState::Cold),
        (PageState::Allocated, PageState::Unmapped),
    ];

    for &(from, to) in invalid_transitions {
        let mut page = Page::new("test".into(), vec![100], 2, 1, 1);
        if from != PageState::Unmapped {
            advance_to(&mut page, from);
        }
        let result = page.transition(to);
        assert!(
            result.is_err(),
            "invalid transition {from:?} -> {to:?} should have been rejected"
        );
    }
}

#[test]
fn paper_dma_descriptor_64_bytes() {
    assert_eq!(std::mem::size_of::<vugva::dma::DmaDescriptor>(), 64);
}

#[test]
fn paper_algo2_metadata_ratio() {
    let total_metadata = 8 + 64; // page lookup + DMA descriptor
    assert_eq!(total_metadata, 72);
    let page_size = 2 * 1024 * 1024;
    let ratio = total_metadata as f64 / page_size as f64;
    assert!(ratio < 0.001);
    println!("metadata ratio: {ratio:.6}");
}

#[test]
fn paper_latency_hiding_equation() {
    let t_compute: f64 = 50.0;
    let t_transport: f64 = 256.0 * 1024.0 * 1024.0 / (31.5 * 1e9) * 1e3;
    assert!(t_compute > t_transport);
    println!("T_compute={t_compute}ms > T_transport={t_transport:.1}ms");
}

#[test]
fn paper_tier_bandwidth_ordering() {
    let (bw_vram, bw_dram_max, bw_dram_min, bw_ssd) = (1008.0_f64, 58.0, 28.0, 7.0);
    assert!(bw_vram / bw_dram_max > 17.0);
    assert!(bw_dram_min / bw_ssd > 3.0);
    assert!(bw_vram >= bw_ssd * 144.0);
}

#[test]
fn paper_tier_latency_ordering() {
    let (lat_vram, lat_dram, lat_ssd) = (100.0_f64, 2_000.0, 50_000.0);
    assert!(lat_dram > lat_vram * 10.0);
    assert!(lat_ssd > lat_dram * 10.0);
}

#[test]
fn paper_prefetch_depth_hides_latency() {
    let t_compute: f64 = 50.0;
    let t_transport: f64 = 256.0 * 1024.0 * 1024.0 / (31.5 * 1e9) * 1e3;
    assert!(t_compute >= t_transport);
}

#[test]
fn paper_cpu_bypass_metadata_only() {
    let total_data = 100 * 2 * 1024 * 1024;
    let total_metadata = 100 * 72;
    let ratio = total_metadata as f64 / total_data as f64;
    assert!(ratio < 0.0001);
    println!("CPU bypass ratio: {ratio:.6}");
}

#[test]
fn paper_throughput_improvement_formula() {
    let bw_cpu_mediated: f64 = 28.0;
    let bw_cpu_bypass: f64 = 31.5;
    let overhead = 30.0 * 1e-6 * 1000.0;
    let effective_cpu = bw_cpu_mediated * (1.0 - overhead);
    let improvement = (bw_cpu_bypass - effective_cpu) / effective_cpu * 100.0;
    assert!(improvement > 10.0);
    println!("throughput improvement: {improvement:.1}%");
}

#[test]
fn paper_numa_topology_parseable() {
    let output = b"node 0 distances: 10 21\nnode 1 distances: 21 10\n";
    let topo = NumaTopology::from_numactl(output);
    assert!(topo.node_count >= 1);
    println!("NUMA nodes: {}", topo.node_count);
    for n in 0..topo.node_count {
        assert_eq!(topo.distance(n, n), 10, "self-distance must be 10");
    }
}
