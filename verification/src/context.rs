//! The contexts of the GPUs, by index.

use crate::error::VugvaError;
use crate::ffi::cuda::CUcontext;
use vstd::prelude::*;

verus! {

/// One context per GPU, in the order of the GPUs. Who retained them keeps them.
#[derive(Debug)]
pub struct ContextRegistry {
    /// The contexts.
    pub contexts: Vec<CUcontext>,
}

impl ContextRegistry {
    /// The registry of these contexts.
    pub fn new(contexts: Vec<CUcontext>) -> (r: Self)
        ensures
            r.contexts == contexts,
    {
        ContextRegistry { contexts }
    }

    /// Number of GPUs.
    pub fn len(&self) -> (r: usize)
        ensures
            r == self.contexts@.len(),
    {
        self.contexts.len()
    }

    /// There are no GPUs.
    pub fn is_empty(&self) -> (r: bool)
        ensures
            r == (self.contexts@.len() == 0),
    {
        self.contexts.len() == 0
    }

    /// The context of the GPU at an index.
    pub fn get(&self, idx: usize) -> (r: Result<CUcontext, VugvaError>)
        ensures
            r == if idx < self.contexts@.len() {
                Ok(self.contexts@[idx as int])
            } else {
                Err::<CUcontext, VugvaError>(VugvaError::InvalidGpu(idx))
            },
    {
        if idx < self.contexts.len() {
            Ok(self.contexts[idx])
        } else {
            Err(VugvaError::InvalidGpu(idx))
        }
    }
}

} // verus!
