//! The unified allocator.

use vugva::allocator::{
    AllocateStep, BlockRequest, FreeStep, PeerCopy, ReachStep, VugvaEngine, VugvaEngineBuilder,
    SINGLE_GPU_LIMIT,
};
use vugva::gpu::{GpuCluster, GpuInfo, NumaTopology, PeerMatrix};
use vugva::vmt::{PageState, Tier};
use vugva::VugvaError;

fn engine(ordinals: &[i32]) -> VugvaEngine {
    let n = ordinals.len();
    let infos = ordinals
        .iter()
        .map(|&device_id| GpuInfo {
            device_id,
            name: "test".into(),
            total_vram: 0,
            free_vram: 0,
            compute_capability: (0, 0),
            sm_count: 0,
            numa_node: 0,
            pci_bus_id: 0,
            pci_device_id: 0,
            concurrent_kernels: false,
        })
        .collect();
    let peers = PeerMatrix::discover(&vec![vec![1; n]; n]);
    VugvaEngine::new(GpuCluster::new(ordinals.to_vec(), infos, peers, NumaTopology::single_node()))
        .unwrap()
}

/// Allocate with a driver that hands out block after block.
fn allocate(e: &mut VugvaEngine, name: &str, shape: &[usize], free: &[Option<usize>]) -> String {
    let mut next = 1u64;
    let mut step = e.allocate(name, shape, 4, free);
    loop {
        match step {
            AllocateStep::Finished(r) => return r.unwrap(),
            AllocateStep::Pending { name, request } => {
                step = e.resume_allocate(name, request, Ok(next));
                next += 1;
            }
        }
    }
}

#[test]
fn a_builder_takes_the_gpus_named_last() {
    let b = VugvaEngine::builder().gpus(&[1, 2]).gpus(&[3]);
    assert_eq!(b.gpu_ordinals, vec![3]);
    assert_eq!(b.ordinals().unwrap(), vec![3]);
    assert!(VugvaEngineBuilder::default().gpu_ordinals.is_empty());
}

#[test]
fn there_has_to_be_a_gpu() {
    assert!(matches!(VugvaEngineBuilder::new().ordinals(), Err(VugvaError::InvalidGpu(0))));
    let none = GpuCluster::new(
        vec![],
        vec![],
        PeerMatrix::discover(&vec![]),
        NumaTopology::single_node(),
    );
    assert!(matches!(VugvaEngine::new(none), Err(VugvaError::InvalidGpu(0))));
}

#[test]
fn a_small_tensor_goes_to_one_gpu() {
    let mut e = engine(&[4, 5]);
    assert!(VugvaEngine::asks_for_room(&[10], 4));
    let name = allocate(&mut e, "t", &[10], &[Some(40), Some(80)]);
    let page = e.vmt.lookup(&name).unwrap();
    assert_eq!(page.vram_chunks.len(), 1);
    assert_eq!(page.vram_chunks[0].gpu_ordinal, 4);
    assert_eq!(page.vram_chunks[0].size_bytes, 40);
    assert_eq!(page.vram_chunks[0].num_elements, 10);
    assert_eq!(page.state, PageState::Resident);
    assert_eq!(page.tier, Tier::Vram);
}

#[test]
fn a_small_tensor_goes_to_the_first_gpu_where_it_fits() {
    let mut e = engine(&[4, 5, 6, 7]);
    let name = allocate(&mut e, "t", &[10], &[Some(39), None, Some(40), Some(80)]);
    let page = e.vmt.lookup(&name).unwrap();
    assert_eq!(page.vram_chunks.len(), 1);
    assert_eq!(page.vram_chunks[0].gpu_ordinal, 6);
    assert_eq!(page.vram_chunks[0].size_bytes, 40);
    assert_eq!(page.state, PageState::Resident);
}

#[test]
fn a_tensor_that_does_not_fit_is_divided() {
    let mut e = engine(&[4, 5, 6]);
    for free in [vec![], vec![None, None, None], vec![Some(39), None, Some(0)]] {
        let name = allocate(&mut e, "", &[10], &free);
        let page = e.vmt.lookup(&name).unwrap();
        let parts: Vec<(i32, usize, usize)> = page
            .vram_chunks
            .iter()
            .map(|c| (c.gpu_ordinal, c.size_bytes, c.num_elements))
            .collect();
        assert_eq!(parts, vec![(4, 13, 3), (5, 13, 3), (6, 14, 3)]);
        assert_eq!(page.state, PageState::Resident);
    }
}

#[test]
fn a_large_tensor_is_divided_though_it_fits() {
    let mut e = engine(&[0, 1]);
    assert_eq!(SINGLE_GPU_LIMIT, 128 * 1024 * 1024);
    let elements = SINGLE_GPU_LIMIT / 4;
    assert!(VugvaEngine::asks_for_room(&[elements], 4));
    assert!(!VugvaEngine::asks_for_room(&[elements + 1], 4));
    let name = allocate(&mut e, "big", &[elements + 1], &[Some(usize::MAX)]);
    assert_eq!(e.vmt.lookup(&name).unwrap().vram_chunks.len(), 2);
    let name = allocate(&mut e, "just", &[elements], &[Some(usize::MAX)]);
    assert_eq!(e.vmt.lookup(&name).unwrap().vram_chunks.len(), 1);
}

#[test]
fn an_allocation_that_fails_half_way_stays_registered() {
    let mut e = engine(&[0, 1]);
    let AllocateStep::Pending { name, request } = e.allocate("t", &[10], 4, &[]) else {
        panic!("nothing to do");
    };
    assert_eq!(request, BlockRequest { gpu_idx: 0, bytes: 20, single: false });
    let AllocateStep::Pending { name, request } = e.resume_allocate(name, request, Ok(9)) else {
        panic!("nothing to do");
    };
    assert_eq!(request.gpu_idx, 1);
    let failure = VugvaError::CudaError { fn_name: "cuMemAlloc_v2", code: 2 };
    assert!(matches!(
        e.resume_allocate(name, request, Err(failure)),
        AllocateStep::Finished(Err(VugvaError::CudaError { code: 2, .. }))
    ));
    let page = e.vmt.lookup("t").unwrap();
    assert_eq!(page.vram_chunks.len(), 1);
    assert_eq!(page.state, PageState::Allocated);
}

#[test]
fn access_finds_the_part_of_a_gpu() {
    let mut e = engine(&[0, 1]);
    allocate(&mut e, "t", &[10], &[]);
    assert!(matches!(e.access("t", 0), ReachStep::Finished(Ok(1))));
    assert!(matches!(e.access("t", 1), ReachStep::Finished(Ok(2))));
    assert!(matches!(e.access("t", 7), ReachStep::Finished(Err(VugvaError::InvalidGpu(7)))));
    assert!(matches!(
        e.access("x", 0),
        ReachStep::Finished(Err(VugvaError::UnknownAllocation(n))) if n == "x"
    ));
}

#[test]
fn access_copies_from_the_gpu_that_has_it() {
    let mut e = engine(&[0, 1]);
    allocate(&mut e, "t", &[10], &[Some(1000)]);
    let ReachStep::Pending(copy) = e.access("t", 1) else {
        panic!("nothing to copy");
    };
    assert_eq!(copy, PeerCopy { src_idx: 0, src_ptr: 1, gpu_idx: 1, bytes: 40 });
    assert!(e
        .finish_access("t", 1, copy.bytes, Err(VugvaError::DmaRingFull))
        .is_err());
    assert_eq!(e.vmt.lookup("t").unwrap().vram_chunks.len(), 1);
    assert_eq!(e.finish_access("t", 1, copy.bytes, Ok(77)).unwrap(), 77);
    assert!(matches!(e.access("t", 1), ReachStep::Finished(Ok(77))));
    let chunk = e.vmt.lookup("t").unwrap().vram_chunks[1];
    assert_eq!((chunk.gpu_ordinal, chunk.size_bytes, chunk.num_elements), (1, 40, 10));
}

#[test]
fn access_to_a_tensor_without_parts_fails() {
    let mut e = engine(&[0]);
    e.vmt.allocate("t", &[1], 1).unwrap();
    assert!(matches!(
        e.access("t", 0),
        ReachStep::Finished(Err(VugvaError::UnknownAllocation(n))) if n == "t"
    ));
}

#[test]
fn every_part_is_freed_and_the_first_failure_told() {
    let mut e = engine(&[0, 1]);
    allocate(&mut e, "t", &[10], &[]);
    let stray = vugva::vmt::Chunk { gpu_ordinal: 9, device_ptr: 5, size_bytes: 1, num_elements: 1 };
    e.vmt.lookup_mut("t").unwrap().vram_chunks.push(stray);
    let steps = e.free("t").unwrap();
    assert_eq!(
        steps,
        vec![
            FreeStep::Block { gpu_idx: 0, ptr: 1 },
            FreeStep::Block { gpu_idx: 1, ptr: 2 },
            FreeStep::NoSuchGpu(9),
        ]
    );
    assert!(e.vmt.lookup("t").is_none());
    let code = |code: i32| VugvaError::CudaError { fn_name: "cuMemFree_v2", code };
    assert!(matches!(
        VugvaEngine::conclude_free(&steps, vec![Ok(()), Ok(()), Ok(())]),
        Err(VugvaError::InvalidGpu(9))
    ));
    assert!(matches!(
        VugvaEngine::conclude_free(&steps, vec![Ok(()), Err(code(1)), Ok(())]),
        Err(VugvaError::CudaError { code: 1, .. })
    ));
    assert!(matches!(
        VugvaEngine::conclude_free(&steps, vec![Err(code(3)), Err(code(1)), Ok(())]),
        Err(VugvaError::CudaError { code: 3, .. })
    ));
    assert!(VugvaEngine::conclude_free(&steps[..2].to_vec(), vec![Ok(()), Ok(())]).is_ok());
    assert!(matches!(e.free("t"), Err(VugvaError::UnknownAllocation(n)) if n == "t"));
}
