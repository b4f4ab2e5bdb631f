//! Handles, codes and flags of the CUDA driver API.

use crate::text;
use vstd::prelude::*;
use vstd::string::*;

verus! {

/// A device.
#[derive(Copy, Clone, Debug, PartialEq, Eq, Structural, Hash)]
pub struct CUdevice(pub i32);

/// An address in device memory.
#[derive(Copy, Clone, Debug, PartialEq, Eq, Structural, Hash)]
pub struct CUdeviceptr(pub u64);

/// A context, by the address of what the driver keeps for it.
#[derive(Copy, Clone, Debug, PartialEq, Eq, Structural, Hash)]
pub struct CUcontext(pub usize);

/// A stream, by the address of what the driver keeps for it.
#[derive(Copy, Clone, Debug, PartialEq, Eq, Structural, Hash)]
pub struct CUstream(pub usize);

/// Return code of the driver.
pub type CUresult = i32;

/// Success.
pub const CUDA_SUCCESS: i32 = 0;

/// A parameter is not acceptable.
pub const CUDA_ERROR_INVALID_VALUE: i32 = 1;

/// No memory left.
pub const CUDA_ERROR_OUT_OF_MEMORY: i32 = 2;

/// The driver was not initialised.
pub const CUDA_ERROR_NOT_INITIALIZED: i32 = 3;

/// There is no device.
pub const CUDA_ERROR_NO_DEVICE: i32 = 100;

/// Asynchronous work is still outstanding.
pub const CUDA_ERROR_NOT_READY: i32 = 600;

/// Something was not found. Also stands for a driver that is absent or does not
/// have the requested symbol.
pub const CUDA_ERROR_NOT_FOUND: i32 = 500;

/// The peer mapping is in place already.
pub const CUDA_ERROR_PEER_ACCESS_ALREADY_ENABLED: i32 = 704;

/// There is no such peer mapping.
pub const CUDA_ERROR_PEER_ACCESS_NOT_ENABLED: i32 = 705;

/// Attribute: number of multiprocessors.
pub const CU_DEVICE_ATTRIBUTE_MULTIPROCESSOR_COUNT: i32 = 16;

/// Attribute: compute capability, major.
pub const CU_DEVICE_ATTRIBUTE_COMPUTE_CAPABILITY_MAJOR: i32 = 75;

/// Attribute: compute capability, minor.
pub const CU_DEVICE_ATTRIBUTE_COMPUTE_CAPABILITY_MINOR: i32 = 76;

/// Attribute: kernels can run side by side.
pub const CU_DEVICE_ATTRIBUTE_CONCURRENT_KERNELS: i32 = 31;

/// Attribute: PCI bus.
pub const CU_DEVICE_ATTRIBUTE_PCI_BUS_ID: i32 = 33;

/// Attribute: PCI device.
pub const CUDEVICE_ATTRIBUTE_PCI_DEVICE_ID: i32 = 34;

/// Attribute: compute preemption.
pub const CU_DEVICE_ATTRIBUTE_COMPUTE_PREEMPTION_SUPPORTED: i32 = 62;

/// Attribute: host memory can be registered.
pub const CU_DEVICE_ATTRIBUTE_HOST_REGISTER_SUPPORTED: i32 = 81;

/// Attribute: PCI domain.
pub const CU_DEVICE_ATTRIBUTE_PCI_DOMAIN_ID: i32 = 50;

/// Attribute: the GPU shares system memory.
pub const CU_DEVICE_ATTRIBUTE_INTEGRATED: i32 = 18;

/// Flag of a stream: the default.
pub const CU_STREAM_DEFAULT: u32 = 0x00;

/// Flag of a stream: it does not wait for the null stream.
pub const CU_STREAM_NON_BLOCKING: u32 = 0x01;

/// Flag of an event: the default.
pub const CU_EVENT_DEFAULT: u32 = 0x00;

/// Flag of an event: waiting for it sleeps instead of spinning.
pub const CU_EVENT_BLOCKING_SYNC: u32 = 0x01;

/// Flag of an event: it takes no time stamp.
pub const CU_EVENT_DISABLE_TIMING: u32 = 0x02;

/// Flag of host memory: valid in every context.
pub const CU_MEMHOSTALLOC_PORTABLE: u32 = 0x01;

/// Flag of host memory: mapped into the device's address space.
pub const CU_MEMHOSTALLOC_DEVICEMAP: u32 = 0x02;

/// Flag of host memory: write-combined.
pub const CU_MEMHOSTALLOC_WRITECOMBINED: u32 = 0x04;

/// Flag of a registration: valid in every context.
pub const CU_MEMHOSTREGISTER_PORTABLE: u32 = 0x01;

/// Flag of a registration: mapped into the device's address space.
pub const CU_MEMHOSTREGISTER_DEVICEMAP: u32 = 0x02;

/// Flag of a registration: mapped I/O memory.
pub const CU_MEMHOSTREGISTER_IOMEMORY: u32 = 0x04;

impl CUdevice {
    /// The device's ordinal.
    pub fn ordinal(self) -> (r: i32)
        ensures
            r == self.0,
    {
        self.0
    }
}

impl CUdeviceptr {
    /// The address of nothing.
    pub fn null() -> (r: Self)
        ensures
            r.0 == 0,
    {
        CUdeviceptr(0)
    }

    /// It is the address of nothing.
    pub fn is_null(self) -> (r: bool)
        ensures
            r == (self.0 == 0),
    {
        self.0 == 0
    }
}

impl CUstream {
    /// The default stream.
    pub fn null() -> (r: Self)
        ensures
            r.0 == 0,
    {
        CUstream(0)
    }

    /// It is the default stream.
    pub fn is_default(self) -> (r: bool)
        ensures
            r == (self.0 == 0),
    {
        self.0 == 0
    }
}

impl CUcontext {
    /// No context.
    pub fn null() -> (r: Self)
        ensures
            r.0 == 0,
    {
        CUcontext(0)
    }

    /// No context is bound.
    pub fn is_null(self) -> (r: bool)
        ensures
            r == (self.0 == 0),
    {
        self.0 == 0
    }
}

impl Default for CUdevice {
    fn default() -> (r: Self)
        ensures
            r.0 == 0,
    {
        CUdevice(0)
    }
}

impl Default for CUdeviceptr {
    fn default() -> (r: Self)
        ensures
            r.0 == 0,
    {
        CUdeviceptr(0)
    }
}

impl Default for CUcontext {
    fn default() -> (r: Self)
        ensures
            r.0 == 0,
    {
        CUcontext(0)
    }
}

impl Default for CUstream {
    fn default() -> (r: Self)
        ensures
            r.0 == 0,
    {
        CUstream(0)
    }
}

/// The name of a code where the driver has none for it.
pub open spec fn fallback_name(code: i32) -> Seq<char> {
    if code == CUDA_SUCCESS {
        "CUDA_SUCCESS"@
    } else if code == CUDA_ERROR_NOT_FOUND {
        "CUDA_ERROR_NOT_FOUND (no driver, or symbol missing)"@
    } else {
        "CUresult("@ + text::decimal(code as int) + ")"@
    }
}

/// The name of a code: what the driver calls it, else its number.
pub open spec fn name_of(code: i32, driver: Option<String>) -> Seq<char> {
    match driver {
        Some(s) => s@,
        None => fallback_name(code),
    }
}

/// A code for which the driver has no name still has one that is not empty.
pub proof fn law_fallback_name_is_never_empty(code: i32)
    ensures
        fallback_name(code).len() > 0,
{
    reveal_strlit("CUDA_SUCCESS");
    reveal_strlit("CUDA_ERROR_NOT_FOUND (no driver, or symbol missing)");
    reveal_strlit("CUresult(");
}

/// The name of a code, from what the driver calls it, if there is a driver and
/// it knows the code.
pub fn error_name(code: CUresult, driver: Option<String>) -> (r: String)
    ensures
        r@ == name_of(code, driver),
{
    match driver {
        Some(s) => s,
        None => {
            if code == CUDA_SUCCESS {
                "CUDA_SUCCESS".to_owned()
            } else if code == CUDA_ERROR_NOT_FOUND {
                "CUDA_ERROR_NOT_FOUND (no driver, or symbol missing)".to_owned()
            } else {
                let mut r: String = "CUresult(".to_owned();
                text::append_signed(&mut r, code);
                r.append(")");
                r
            }
        },
    }
}

/// The description of a code, from how the driver describes and names it: the
/// description, or else the name.
pub fn error_string(
    code: CUresult,
    description: Option<String>,
    name: Option<String>,
) -> (r: String)
    ensures
        r@ == match description {
            Some(s) => s@,
            None => name_of(code, name),
        },
{
    match description {
        Some(s) => s,
        None => error_name(code, name),
    }
}

/// What the driver calls a code is its name. A code that the driver does not
/// name is told by its number, so that different codes have different names.
pub proof fn law_codes_are_told_apart(a: i32, b: i32, name: String)
    requires
        a != b,
        a != CUDA_SUCCESS && a != CUDA_ERROR_NOT_FOUND,
        b != CUDA_SUCCESS && b != CUDA_ERROR_NOT_FOUND,
    ensures
        name_of(a, Some(name)) == name@,
        name_of(a, None) != name_of(b, None),
{
    text::law_decimals_are_distinct(a as int, b as int);
    let p = "CUresult("@;
    let e = ")"@;
    reveal_strlit(")");
    let n = p.len() as int;
    let x = fallback_name(a);
    let y = fallback_name(b);
    assert(x.subrange(n, x.len() - 1) =~= text::decimal(a as int));
    assert(y.subrange(n, y.len() - 1) =~= text::decimal(b as int));
}

} // verus!
