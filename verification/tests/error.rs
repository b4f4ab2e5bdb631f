//! What the errors say of themselves.

use vugva::error::{check_cu, check_nvrtc};
use vugva::vmt::PageState;
use vugva::VugvaError;

#[test]
fn every_error_says_what_it_is() {
    let cases = [
        (
            VugvaError::CudaError { fn_name: "cuInit", code: 100 },
            "CUDA error in cuInit: code 100",
        ),
        (
            VugvaError::NvrtcError { fn_name: "nvrtcVersion", code: -1 },
            "NVRTC error in nvrtcVersion: code -1",
        ),
        (
            VugvaError::LibLoad { library: "libcuda.so.1", os_error: 0 },
            "failed to dlopen libcuda.so.1: OS error 0",
        ),
        (VugvaError::InvalidGpu(7), "invalid GPU ordinal: 7"),
        (
            VugvaError::UnknownAllocation("a\"b\n".into()),
            "no allocation registered under \"a\\\"b\\n\"",
        ),
        (
            VugvaError::InvalidTransition {
                from: PageState::Allocated,
                to: PageState::Cold,
                page: "p".into(),
            },
            "invalid page transition Allocated \u{2192} Cold on \"p\"",
        ),
        (VugvaError::DmaRingFull, "DMA command ring is full"),
        (
            VugvaError::DramOom { requested: 64, available: 10, capacity: 100 },
            "host DRAM pool exhausted: requested 64 bytes, 10 free of 100 total",
        ),
    ];
    for (e, text) in cases {
        assert_eq!(e.to_string(), text);
    }
}

#[test]
fn io_errors_are_carried_through() {
    let e: VugvaError = std::io::Error::new(std::io::ErrorKind::NotFound, "gone").into();
    assert!(matches!(&e, VugvaError::Io(i) if i.kind() == std::io::ErrorKind::NotFound));
    assert_eq!(e.to_string(), "io error: gone");
}

#[test]
fn every_state_has_its_name() {
    for (s, name) in [
        (PageState::Unmapped, "Unmapped"),
        (PageState::Allocated, "Allocated"),
        (PageState::Resident, "Resident"),
        (PageState::Warm, "Warm"),
        (PageState::Cold, "Cold"),
    ] {
        let e = VugvaError::InvalidTransition { from: s, to: s, page: "".into() };
        assert_eq!(
            e.to_string(),
            format!("invalid page transition {name} \u{2192} {name} on \"\"")
        );
        assert_eq!(format!("{s:?}"), name);
    }
}

#[test]
fn codes_other_than_zero_are_errors() {
    assert!(check_cu("f", 0).is_ok());
    assert!(check_nvrtc("f", 0).is_ok());
    assert!(matches!(check_cu("f", 3), Err(VugvaError::CudaError { fn_name: "f", code: 3 })));
    assert!(matches!(check_nvrtc("g", 4), Err(VugvaError::NvrtcError { fn_name: "g", code: 4 })));
}
