//! GPUs, their reach and their distance from memory.

use vugva::gpu::{
    device_name, numa_node_paths, read_numa_node, DeviceAnswers, GpuCluster, GpuInfo,
    NumaTopology, PeerMatrix,
};

fn factor(topo: &NumaTopology, src: usize, dst: usize) -> f64 {
    topo.dma_bandwidth_factor(src, dst) as f64 / 100.0
}

fn info(numa_node: usize) -> GpuInfo {
    GpuInfo {
        device_id: 0,
        name: "test".into(),
        total_vram: 0,
        free_vram: 0,
        compute_capability: (0, 0),
        sm_count: 0,
        numa_node,
        pci_bus_id: 0,
        pci_device_id: 0,
        concurrent_kernels: false,
    }
}

#[test]
fn numa_single_node() {
    let topo = NumaTopology::single_node();
    assert_eq!(topo.node_count, 1);
    assert_eq!(topo.distance(0, 0), 10);
    assert_eq!(factor(&topo, 0, 0), 0.95);
}

#[test]
fn numa_bandwidth_factors() {
    let topo = NumaTopology {
        distances: vec![vec![10, 18], vec![18, 10]],
        node_count: 2,
    };
    // Same node: 0.95
    assert_eq!(factor(&topo, 0, 0), 0.95);
    assert_eq!(factor(&topo, 1, 1), 0.95);
    // Cross-socket (18, up to 20): 0.80
    assert_eq!(factor(&topo, 0, 1), 0.80);
    assert_eq!(factor(&topo, 1, 0), 0.80);
}

#[test]
fn numa_far_node() {
    let topo = NumaTopology {
        distances: vec![vec![10, 31], vec![31, 10]],
        node_count: 2,
    };
    assert_eq!(factor(&topo, 0, 1), 0.65);
}

#[test]
fn numa_out_of_bounds_distance() {
    let topo = NumaTopology::single_node();
    // Out-of-bounds returns 30 (far)
    assert_eq!(topo.distance(0, 99), 30);
}

#[test]
fn peer_matrix_self_access() {
    let matrix = PeerMatrix::discover(&vec![vec![1, 0], vec![0, 1]]);
    assert!(matrix.can_access(0, 0));
    assert!(matrix.can_access(1, 1));
    assert!(!matrix.can_access(0, 1));
}

#[test]
fn gpu_cluster_optimal_dram_node() {
    let cluster = GpuCluster::new(
        vec![0],
        vec![info(0)],
        PeerMatrix::discover(&vec![vec![1]]),
        NumaTopology {
            distances: vec![vec![10, 18], vec![18, 10]],
            node_count: 2,
        },
    );
    // GPU 0 is on NUMA node 0, closest DRAM node is 0
    assert_eq!(cluster.optimal_dram_node(0), 0);
    assert_eq!(cluster.dma_factor(0, 0) as f64 / 100.0, 0.95);
    // Distance 18 (up to 20): 0.80
    assert_eq!(cluster.dma_factor(0, 1) as f64 / 100.0, 0.80);
}

#[test]
fn bandwidth_falls_at_the_thresholds() {
    for (d, percent) in [(0, 95), (12, 95), (13, 80), (20, 80), (21, 65), (255, 65)] {
        let topo = NumaTopology { distances: vec![vec![d]], node_count: 1 };
        assert_eq!(topo.dma_bandwidth_factor(0, 0), percent);
    }
}

const LISTING: &str = "available: 2 nodes (0-1)
node 0 cpus: 0 1 2 3
node 0 size: 32101 MB
node 1 cpus: 4 5 6 7
node distances:
node   0   1
  0:  10  21
  1:  21  10
";

#[test]
fn a_listing_with_its_distances_in_rows_states_none() {
    // The rows do not begin with the word that a line of distances begins with,
    // and nothing follows the heading.
    let topo = NumaTopology::from_numactl(LISTING.as_bytes());
    assert_eq!(topo.node_count, 1);
    assert_eq!(topo.distances, vec![vec![10]]);
}

#[test]
fn a_listing_with_a_line_for_each_node_is_read() {
    let text = "node 0 distances: 10 21 21 31\r\n  node 1 distances: 21\t+10 x 31 -4\nnode 2 size: 7\n";
    let topo = NumaTopology::from_numactl(text.as_bytes());
    assert_eq!(topo.distances, vec![vec![10, 21, 21, 31], vec![21, 10, 31]]);
    assert_eq!(topo.node_count, 4);
    assert_eq!(topo.distance(0, 3), 31);
    assert_eq!(topo.distance(1, 3), 30);
}

#[test]
fn a_listing_that_is_no_valid_text_is_read_all_the_same() {
    let mut bytes = b"node 0 distances: 10 ".to_vec();
    bytes.push(0xff);
    bytes.extend_from_slice(b" 20\n");
    let topo = NumaTopology::from_numactl(&bytes);
    assert_eq!(topo.distances, vec![vec![10, 20]]);
}

#[test]
fn an_empty_listing_means_a_single_node() {
    let topo = NumaTopology::from_numactl(b"");
    assert_eq!(topo.distances, vec![vec![10]]);
    assert_eq!(topo.node_count, 1);
}

#[test]
fn numbers_that_are_too_large_are_passed_over() {
    let topo = NumaTopology::from_listing("node 0 distances: 4294967295 4294967296 007\n");
    assert_eq!(topo.distances, vec![vec![4294967295, 7]]);
}

#[test]
fn peers_are_enabled_once() {
    let mut m = PeerMatrix::discover(&vec![vec![0, 1, 0], vec![1, 0, 1], vec![0, 0, 0]]);
    assert_eq!(m.wanted(), vec![(0, 1), (1, 0), (1, 2)]);
    m.record(0, 1, 0);
    m.record(1, 0, 704);
    m.record(1, 2, 711);
    assert!(m.is_enabled(0, 1));
    assert!(m.is_enabled(1, 0));
    assert!(!m.is_enabled(1, 2));
    assert!(!m.is_enabled(0, 0));
    assert!(!m.is_enabled(9, 0));
    assert!(!m.can_access(0, 9));
    assert_eq!(m.wanted(), vec![(1, 2)]);
}

#[test]
fn the_closest_node_wins_and_the_first_of_equals() {
    let cluster = GpuCluster::new(
        vec![4, 5],
        vec![info(1), info(2)],
        PeerMatrix::discover(&vec![vec![0, 0], vec![0, 0]]),
        NumaTopology {
            distances: vec![vec![10, 20, 20], vec![30, 20, 20], vec![12, 11]],
            node_count: 3,
        },
    );
    assert_eq!(cluster.index_of(4), Some(0));
    assert_eq!(cluster.index_of(5), Some(1));
    assert_eq!(cluster.index_of(0), None);
    assert_eq!(cluster.optimal_dram_node(4), 1);
    assert_eq!(cluster.optimal_dram_node(5), 1);
    assert_eq!(cluster.optimal_dram_node(6), 0);
    assert_eq!(cluster.dma_factor(6, 0), 65);
    assert_eq!(cluster.dma_factor(5, 0), 80);
}

#[test]
fn an_ordinal_that_is_listed_twice_counts_where_it_comes_last() {
    let cluster = GpuCluster::new(
        vec![1, 1],
        vec![info(0), info(0)],
        PeerMatrix::discover(&vec![vec![0, 0], vec![0, 0]]),
        NumaTopology::single_node(),
    );
    assert_eq!(cluster.index_of(1), Some(1));
}

#[test]
fn node_files_are_named_after_the_ordinal() {
    let (by_bus, by_card) = numa_node_paths(10);
    assert_eq!(by_bus, "/sys/bus/pci/devices/0000:0a:00.0/numa_node");
    assert_eq!(by_card, "/sys/class/drm/card10/device/numa_node");
    let (by_bus, by_card) = numa_node_paths(300);
    assert_eq!(by_bus, "/sys/bus/pci/devices/0000:12c:00.0/numa_node");
    assert_eq!(by_card, "/sys/class/drm/card300/device/numa_node");
    let (by_bus, by_card) = numa_node_paths(-1);
    assert_eq!(by_bus, "/sys/bus/pci/devices/0000:ffffffff:00.0/numa_node");
    assert_eq!(by_card, "/sys/class/drm/card-1/device/numa_node");
}

#[test]
fn the_first_file_that_states_a_node_counts() {
    assert_eq!(read_numa_node(&vec![]), None);
    assert_eq!(read_numa_node(&vec![None, None]), None);
    assert_eq!(read_numa_node(&vec![Some("3\n".into())]), Some(3));
    assert_eq!(read_numa_node(&vec![Some("-1\n".into())]), Some(0));
    assert_eq!(read_numa_node(&vec![Some("none".into()), Some(" 2 ".into())]), Some(2));
    assert_eq!(read_numa_node(&vec![None, Some("+5".into())]), Some(5));
    assert_eq!(read_numa_node(&vec![Some("99999999999999999999".into())]), None);
    assert_eq!(read_numa_node(&vec![Some("-".into()), Some("".into())]), None);
}

#[test]
fn a_name_ends_at_the_first_zero_byte() {
    assert_eq!(device_name(b"GeForce\0rubbish"), "GeForce");
    assert_eq!(device_name(b"\0"), "");
    assert_eq!(device_name(b"no end"), "");
    assert_eq!(device_name(&[0xff, 0]), "\u{fffd}");
}

#[test]
fn answers_about_a_device_are_taken_over() {
    let mut answers = DeviceAnswers {
        name: b"NVIDIA GeForce RTX 4060\0\0".to_vec(),
        total_vram: 8 << 30,
        free_vram: 6 << 30,
        compute_capability: (8, 9),
        sm_count: 24,
        concurrent_kernels: 1,
        pci_bus_id: 1,
        pci_device_id: 2,
        numa_node_files: vec![None, Some("1\n".into())],
    };
    let gpu = GpuInfo::new(3, &answers);
    assert_eq!(gpu.device_id, 3);
    assert_eq!(gpu.name, "NVIDIA GeForce RTX 4060");
    assert_eq!(gpu.total_vram, 8 << 30);
    assert_eq!(gpu.free_vram, 6 << 30);
    assert_eq!(gpu.compute_capability, (8, 9));
    assert_eq!(gpu.sm_count, 24);
    assert_eq!(gpu.numa_node, 1);
    assert!(gpu.concurrent_kernels);
    answers.concurrent_kernels = 0;
    answers.numa_node_files = vec![None, None];
    let gpu = GpuInfo::new(3, &answers).clone();
    assert_eq!(gpu.numa_node, 0);
    assert!(!gpu.concurrent_kernels);
    assert_eq!((gpu.pci_bus_id, gpu.pci_device_id), (1, 2));
}
