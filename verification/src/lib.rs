//! Virtual unified GPU memory: tensors that live in the memory of several GPUs,
//! in host memory and on storage, and move between the three as they are used.
//!
//! - [`vmt`]: the virtual memory table, from names to pages
//! - [`allocator`]: tensors that span several GPUs
//! - [`tiered`]: the three-tier pool
//! - [`dma`]: descriptors and command rings
//! - [`membrane`]: placement by access rate
//! - [`gpu`]: devices, their reach and their distance from memory
//! - [`range_alloc`]: the allocator behind host memory and storage

use vstd::prelude::*;

pub mod allocator;
pub mod context;
pub mod dma;
pub mod error;
pub mod ffi;
pub mod gpu;
pub mod host;
pub mod membrane;
pub mod name_map;
pub mod nvrtc_kernel;
pub mod prefetch;
pub mod range_alloc;
pub mod ranges;
pub mod ranking;
pub mod scan;
pub mod spill;
pub mod streams;
pub mod text;
pub mod tiered;
pub mod vmt;

pub use crate::error::VugvaError;

verus! {

/// Version of the library.
pub const VERSION: &'static str = "0.1.0";

} // verus!
