//! What the driver answers about asynchronous work.

use crate::error::VugvaError;
use crate::ffi::cuda::{CUDA_ERROR_NOT_READY, CUDA_SUCCESS};
use vstd::prelude::*;

verus! {

/// What a code that a query for asynchronous work returned says of the work.
pub open spec fn completion(call: &'static str, code: i32) -> Result<bool, VugvaError> {
    if code == CUDA_SUCCESS {
        Ok(true)
    } else if code == CUDA_ERROR_NOT_READY {
        Ok(false)
    } else {
        Err(VugvaError::CudaError { fn_name: call, code })
    }
}

/// Work is complete where the query for it succeeds and is not where it is not
/// ready, which is code 600. Any other code is told as an error of the call.
pub proof fn law_codes_tell_of_completion(call: &'static str, code: i32)
    ensures
        completion(call, code) == Ok::<bool, VugvaError>(true) <==> code == 0,
        completion(call, code) == Ok::<bool, VugvaError>(false) <==> code == 600,
        completion(call, code) matches Err(e) ==> e is CudaError && e->CudaError_fn_name == call
            && e->CudaError_code == code,
{
}

/// Whether asynchronous work is complete, from the code that a query for it
/// returned: success where it is, not ready where it is not. Any other code is
/// an error.
pub fn query_complete(call: &'static str, code: i32) -> (r: Result<bool, VugvaError>)
    ensures
        r == completion(call, code),
{
    if code == CUDA_SUCCESS {
        Ok(true)
    } else if code == CUDA_ERROR_NOT_READY {
        Ok(false)
    } else {
        Err(VugvaError::CudaError { fn_name: call, code })
    }
}

} // verus!
