//! Handles, codes and names of the driver and of NVRTC.

use vugva::context::ContextRegistry;
use vugva::ffi::cuda::{
    error_name, error_string, CUcontext, CUdevice, CUdeviceptr, CUstream,
    CUDA_ERROR_NOT_FOUND, CUDA_ERROR_OUT_OF_MEMORY, CUDA_SUCCESS,
};
use vugva::ffi::nvrtc;
use vugva::ffi::nvrtc::{
    nvrtcProgram, NVRTC_ERROR_COMPILATION, NVRTC_ERROR_INVALID_PROGRAM, NVRTC_ERROR_NOT_FOUND,
    NVRTC_SUCCESS,
};
use vugva::ffi::{cuda_candidates, nvrtc_candidates, symbol_candidates};
use vugva::host::{mapped_address, mapping_size, mask_bits, node_mask};
use vugva::nvrtc_kernel::{
    architecture_option, compile_and_load, detect_sm_arch, source_name, CompileStage, CompileStep,
};
use vugva::prefetch::{LayerLocation, LayerSchedule, LookAheadPrefetcher, PrefetchJob};
use vugva::streams::query_complete;
use vugva::vmt::Tier;
use vugva::VugvaError;

#[test]
fn error_name_is_never_empty() {
    assert!(!error_name(CUDA_ERROR_OUT_OF_MEMORY, None).is_empty());
    assert!(!error_name(CUDA_ERROR_NOT_FOUND, None).is_empty());
    // An implausible code must still round-trip to something printable
    // rather than panicking or yielding "".
    assert!(!error_name(31337, None).is_empty());
}

#[test]
fn error_names_come_from_the_driver_where_it_has_them() {
    assert_eq!(error_name(2, Some("CUDA_ERROR_OUT_OF_MEMORY".into())), "CUDA_ERROR_OUT_OF_MEMORY");
    assert_eq!(error_name(CUDA_SUCCESS, None), "CUDA_SUCCESS");
    assert_eq!(error_name(500, None), "CUDA_ERROR_NOT_FOUND (no driver, or symbol missing)");
    assert_eq!(error_name(-7, None), "CUresult(-7)");
    assert_eq!(error_string(2, Some("out of memory".into()), None), "out of memory");
    assert_eq!(error_string(2, None, Some("NAME".into())), "NAME");
    assert_eq!(error_string(31337, None, None), "CUresult(31337)");
}

#[test]
fn null_handles_report_null() {
    assert!(CUdeviceptr::null().is_null());
    assert!(CUstream::null().is_default());
    assert!(CUcontext::null().is_null());
    assert!(CUdeviceptr::default().is_null());
    assert!(CUcontext::default().is_null());
    assert!(CUstream::default().is_default());
    assert!(!CUdeviceptr(1).is_null());
    assert!(!CUstream(1).is_default());
    assert!(!CUcontext(1).is_null());
    assert_eq!(CUdevice(3).ordinal(), 3);
    assert_eq!(CUdevice::default().ordinal(), 0);
}

#[test]
fn error_string_is_never_empty() {
    for code in [
        NVRTC_SUCCESS,
        NVRTC_ERROR_COMPILATION,
        NVRTC_ERROR_INVALID_PROGRAM,
        NVRTC_ERROR_NOT_FOUND,
        -12345,
    ] {
        for library in [None, Some(String::new()), Some("said".to_string())] {
            assert!(
                !nvrtc::error_string(code, library).is_empty(),
                "empty description for code {code}"
            );
        }
    }
    assert_eq!(nvrtc::error_string(6, Some("said".into())), "said");
    assert_eq!(nvrtc::error_string(6, Some("".into())), "nvrtcResult(6)");
    assert_eq!(
        nvrtc::error_string(10_000, Some("said".into())),
        "NVRTC_ERROR_NOT_FOUND (libnvrtc.so is not available)"
    );
}

#[test]
fn null_program_reports_null() {
    assert!(nvrtcProgram::null().is_null());
    assert!(nvrtcProgram::default().is_null());
}

#[test]
fn registry_rejects_out_of_range_index() {
    let reg = ContextRegistry::new(vec![CUcontext(0x10)]);
    assert_eq!(reg.len(), 1);
    assert!(!reg.is_empty());
    assert!(reg.get(0).is_ok());
    // Must be a typed error, not a panic on a bad index.
    assert!(matches!(reg.get(7), Err(VugvaError::InvalidGpu(7))));
    assert!(ContextRegistry::new(vec![]).is_empty());
}

#[test]
fn symbols_are_looked_up_under_their_versioned_names_too() {
    assert_eq!(symbol_candidates("cuMemAlloc"), vec!["cuMemAlloc", "cuMemAlloc_v2", "cuMemAlloc_v3"]);
    assert_eq!(symbol_candidates("cuMemAlloc_v2"), vec!["cuMemAlloc_v2"]);
    assert_eq!(symbol_candidates("f_v3"), vec!["f_v3"]);
    assert_eq!(symbol_candidates("v2"), vec!["v2", "v2_v2", "v2_v3"]);
    assert_eq!(cuda_candidates(), vec!["libcuda.so.1", "libcuda.so", "cuda"]);
    assert_eq!(nvrtc_candidates()[0], "libnvrtc.so.12");
    assert_eq!(nvrtc_candidates().len(), 6);
}

#[test]
fn mappings_are_whole_pages() {
    assert_eq!(mapping_size(0), 0);
    assert_eq!(mapping_size(1), 4096);
    assert_eq!(mapping_size(4096), 4096);
    assert_eq!(mapping_size(4097), 8192);
}

#[test]
fn a_failed_mapping_is_an_error() {
    for failed in [0, usize::MAX] {
        assert!(matches!(
            mapped_address(failed),
            Err(VugvaError::CudaError { fn_name: "mmap", code: 2 })
        ));
    }
    assert_eq!(mapped_address(0x7f00_0000).unwrap(), 0x7f00_0000);
}

#[test]
fn a_mask_names_one_node() {
    assert_eq!(node_mask(0), vec![1]);
    assert_eq!(node_mask(5), vec![32]);
    assert_eq!(node_mask(63), vec![1 << 63]);
    assert_eq!(node_mask(64), vec![0, 1]);
    assert_eq!(node_mask(130), vec![0, 0, 4]);
    assert_eq!(mask_bits(&node_mask(130)), 192);
}

#[test]
fn queries_tell_done_from_not_ready_from_failed() {
    assert!(query_complete("cuStreamQuery", 0).unwrap());
    assert!(!query_complete("cuStreamQuery", 600).unwrap());
    assert!(matches!(
        query_complete("cuEventQuery", 700),
        Err(VugvaError::CudaError { fn_name: "cuEventQuery", code: 700 })
    ));
}

#[test]
fn kernels_are_compiled_for_an_architecture() {
    assert_eq!(detect_sm_arch(0, 8, 9).unwrap(), "sm_89");
    assert_eq!(detect_sm_arch(0, 10, 0).unwrap(), "sm_100");
    assert!(matches!(
        detect_sm_arch(101, 8, 9),
        Err(VugvaError::CudaError { fn_name: "cuDeviceComputeCapability", code: 101 })
    ));
    assert_eq!(source_name("tier_promote"), "tier_promote.cu");
    assert_eq!(architecture_option("sm_89"), "--gpu-architecture=sm_89");
}

#[test]
fn a_compilation_goes_through_all_its_stages() {
    let mut stage = CompileStage::Create;
    let mut calls = 1;
    loop {
        match compile_and_load(stage, 0) {
            CompileStep::Call(next) => {
                stage = next;
                calls += 1;
            }
            CompileStep::Finished(Ok(())) => break,
            other => panic!("unexpected {other:?}"),
        }
    }
    assert_eq!(stage, CompileStage::Function);
    assert_eq!(calls, 6);
}

#[test]
fn a_compilation_ends_at_the_first_failure() {
    assert!(matches!(
        compile_and_load(CompileStage::Compile, 6),
        CompileStep::ReportLog(VugvaError::NvrtcError { fn_name: "nvrtcCompileProgram", code: 6 })
    ));
    assert!(matches!(
        compile_and_load(CompileStage::Ptx, 4),
        CompileStep::Finished(Err(VugvaError::NvrtcError { fn_name: "nvrtcGetPTX", code: 4 }))
    ));
    assert!(matches!(
        compile_and_load(CompileStage::Load, 218),
        CompileStep::Finished(Err(VugvaError::CudaError { fn_name: "cuModuleLoadData", code: 218 }))
    ));
}

#[test]
fn transfers_ahead_of_need_are_drained() {
    let schedule: LayerSchedule = vec![LayerLocation {
        gpu_ordinal: 1,
        tier: Tier::Dram,
        name: "layer.0".into(),
    }];
    assert_eq!(schedule[0].clone().name, "layer.0");
    let mut p = LookAheadPrefetcher::new(4);
    assert_eq!(p.inflight_count(), 0);
    for name in ["a", "b"] {
        p.inflight.push(PrefetchJob { name: name.into(), event: 1, dst_gpu: 0 });
    }
    assert_eq!(p.inflight_count(), 2);
    let jobs = p.sync_all();
    assert_eq!(jobs[0].name, "a");
    assert_eq!(jobs[1].name, "b");
    assert_eq!(p.inflight_count(), 0);
    assert_eq!(p.depth, 4);
}
