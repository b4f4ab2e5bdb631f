//! Compilation of kernels at run time: what NVRTC is asked for, in what order,
//! and what a failure on the way means.

use crate::error::{check_cu, check_nvrtc, VugvaError};
use crate::ffi::nvrtc::NVRTC_SUCCESS;
use crate::text;
use vstd::prelude::*;
use vstd::string::*;

verus! {

/// A call on the way from the source of a kernel to its function.
#[derive(Debug, Clone, Copy, PartialEq, Eq, Structural)]
pub enum CompileStage {
    /// Create the program.
    Create,
    /// Compile it.
    Compile,
    /// Ask for the size of the PTX.
    PtxSize,
    /// Get the PTX.
    Ptx,
    /// Load it into a module.
    Load,
    /// Get the function.
    Function,
}

/// What comes next in a compilation.
#[derive(Debug)]
pub enum CompileStep {
    /// Make the next call.
    Call(CompileStage),
    /// Report the log of a program that does not compile. The compilation is
    /// over.
    ReportLog(VugvaError),
    /// The compilation is over.
    Finished(Result<(), VugvaError>),
}

/// The error of a call that returned `code`.
pub open spec fn stage_error(stage: CompileStage, code: i32) -> VugvaError {
    match stage {
        CompileStage::Create => VugvaError::NvrtcError { fn_name: "nvrtcCreateProgram", code },
        CompileStage::Compile => VugvaError::NvrtcError { fn_name: "nvrtcCompileProgram", code },
        CompileStage::PtxSize => VugvaError::NvrtcError { fn_name: "nvrtcGetPTXSize", code },
        CompileStage::Ptx => VugvaError::NvrtcError { fn_name: "nvrtcGetPTX", code },
        CompileStage::Load => VugvaError::CudaError { fn_name: "cuModuleLoadData", code },
        CompileStage::Function => VugvaError::CudaError { fn_name: "cuModuleGetFunction", code },
    }
}

/// The call after `stage`, if there is one.
pub open spec fn next_stage(stage: CompileStage) -> Option<CompileStage> {
    match stage {
        CompileStage::Create => Some(CompileStage::Compile),
        CompileStage::Compile => Some(CompileStage::PtxSize),
        CompileStage::PtxSize => Some(CompileStage::Ptx),
        CompileStage::Ptx => Some(CompileStage::Load),
        CompileStage::Load => Some(CompileStage::Function),
        CompileStage::Function => None,
    }
}

/// What comes after `stage` returned `code`.
pub open spec fn compile_step(stage: CompileStage, code: i32) -> CompileStep {
    if code == 0 {
        match next_stage(stage) {
            Some(s) => CompileStep::Call(s),
            None => CompileStep::Finished(Ok(())),
        }
    } else if stage == CompileStage::Compile {
        CompileStep::ReportLog(stage_error(stage, code))
    } else {
        CompileStep::Finished(Err(stage_error(stage, code)))
    }
}

/// What comes of a compilation that goes on with `stage`, where the calls return
/// `codes`, one after the other.
pub open spec fn run_compile(stage: CompileStage, codes: Seq<i32>) -> CompileStep
    decreases codes.len(),
{
    if codes.len() == 0 {
        CompileStep::Call(stage)
    } else {
        match compile_step(stage, codes[0]) {
            CompileStep::Call(next) => run_compile(next, codes.skip(1)),
            over => over,
        }
    }
}

/// The calls of a compilation in order.
pub open spec fn stages() -> Seq<CompileStage> {
    seq![
        CompileStage::Create,
        CompileStage::Compile,
        CompileStage::PtxSize,
        CompileStage::Ptx,
        CompileStage::Load,
        CompileStage::Function,
    ]
}

/// A kernel is compiled and loaded where every call succeeds, and the first call
/// that does not ends the compilation with its error.
pub proof fn law_first_failure_ends_a_compilation(codes: Seq<i32>, k: int)
    requires
        0 <= k < codes.len() == stages().len(),
        forall|i: int| 0 <= i < k ==> #[trigger] codes[i] == 0,
    ensures
        codes[k] != 0 ==> run_compile(CompileStage::Create, codes) == compile_step(
            stages()[k],
            codes[k],
        ),
        codes[k] == 0 && k == stages().len() - 1 ==> run_compile(CompileStage::Create, codes)
            == CompileStep::Finished(Ok(())),
{
    lemma_run_from(codes, k, 0);
    assert(codes.skip(0) =~= codes);
}

proof fn lemma_run_from(codes: Seq<i32>, k: int, i: int)
    requires
        0 <= i <= k < codes.len() == stages().len(),
        forall|j: int| 0 <= j < k ==> #[trigger] codes[j] == 0,
    ensures
        codes[k] != 0 ==> run_compile(stages()[i], codes.skip(i)) == compile_step(
            stages()[k],
            codes[k],
        ),
        codes[k] == 0 && k == stages().len() - 1 ==> run_compile(stages()[i], codes.skip(i))
            == CompileStep::Finished(Ok(())),
    decreases k - i,
{
    assert(codes.skip(i)[0] == codes[i]);
    if i < k {
        assert(codes.skip(i).skip(1) =~= codes.skip(i + 1));
        lemma_run_from(codes, k, i + 1);
        assert(compile_step(stages()[i], 0) == CompileStep::Call(stages()[i + 1]));
    }
}

fn go_on(checked: Result<(), VugvaError>, next: CompileStage) -> (r: CompileStep)
    ensures
        r == match checked {
            Ok(_) => CompileStep::Call(next),
            Err(e) => CompileStep::Finished(Err(e)),
        },
{
    match checked {
        Ok(_) => CompileStep::Call(next),
        Err(e) => CompileStep::Finished(Err(e)),
    }
}

/// What comes next in a compilation, once a call has returned.
pub fn compile_and_load(stage: CompileStage, code: i32) -> (r: CompileStep)
    ensures
        r == compile_step(stage, code),
{
    match stage {
        CompileStage::Create => go_on(
            check_nvrtc("nvrtcCreateProgram", code),
            CompileStage::Compile,
        ),
        CompileStage::Compile => {
            if code != NVRTC_SUCCESS {
                CompileStep::ReportLog(
                    VugvaError::NvrtcError { fn_name: "nvrtcCompileProgram", code },
                )
            } else {
                CompileStep::Call(CompileStage::PtxSize)
            }
        },
        CompileStage::PtxSize => go_on(check_nvrtc("nvrtcGetPTXSize", code), CompileStage::Ptx),
        CompileStage::Ptx => go_on(check_nvrtc("nvrtcGetPTX", code), CompileStage::Load),
        CompileStage::Load => go_on(check_cu("cuModuleLoadData", code), CompileStage::Function),
        CompileStage::Function => CompileStep::Finished(check_cu("cuModuleGetFunction", code)),
    }
}

/// The architecture of a GPU of compute capability `major`.`minor`.
pub open spec fn arch_name(major: i32, minor: i32) -> Seq<char> {
    "sm_"@ + text::decimal(major as int) + text::decimal(minor as int)
}

/// The architecture of a GPU, from what the driver answered to the question for
/// its compute capability.
pub fn detect_sm_arch(code: i32, major: i32, minor: i32) -> (r: Result<String, VugvaError>)
    ensures
        match r {
            Ok(s) => code == 0 && s@ == arch_name(major, minor),
            Err(e) => code != 0 && e == (VugvaError::CudaError {
                fn_name: "cuDeviceComputeCapability",
                code,
            }),
        },
{
    match check_cu("cuDeviceComputeCapability", code) {
        Ok(_) => {
            let mut s: String = "sm_".to_owned();
            text::append_signed(&mut s, major);
            text::append_signed(&mut s, minor);
            Ok(s)
        },
        Err(e) => Err(e),
    }
}

/// The name under which a kernel's source appears in diagnostics.
pub fn source_name(kernel: &str) -> (r: String)
    ensures
        r@ == kernel@ + ".cu"@,
{
    let mut s: String = kernel.to_owned();
    s.append(".cu");
    s
}

/// The option that names the architecture to compile for.
pub fn architecture_option(arch: &str) -> (r: String)
    ensures
        r@ == "--gpu-architecture="@ + arch@,
{
    let mut s: String = "--gpu-architecture=".to_owned();
    s.append(arch);
    s
}

/// A call that succeeds is followed by the next, and the last by the end. One
/// that fails ends the compilation with an error that carries the code: of NVRTC
/// while the kernel is compiled, of the driver once it is loaded. Only a program
/// that does not compile has a log to report.
pub proof fn law_codes_decide_what_comes_next(k: int, code: i32)
    requires
        0 <= k < stages().len(),
    ensures
        code == 0 && k < stages().len() - 1 ==> compile_step(stages()[k], code)
            == CompileStep::Call(stages()[k + 1]),
        code == 0 && k == stages().len() - 1 ==> compile_step(stages()[k], code)
            == CompileStep::Finished(Ok(())),
        code != 0 ==> match compile_step(stages()[k], code) {
            CompileStep::Call(_) => false,
            CompileStep::ReportLog(e) => stages()[k] == CompileStage::Compile && e is NvrtcError
                && e->NvrtcError_code == code,
            CompileStep::Finished(r) => stages()[k] != CompileStage::Compile && r is Err
                && match r->Err_0 {
                VugvaError::NvrtcError { code: told, .. } => k < 4 && told == code,
                VugvaError::CudaError { code: told, .. } => k >= 4 && told == code,
                _ => false,
            },
        },
        forall|j: int| 0 <= j < stages().len() && j != k ==> #[trigger] stages()[j] != stages()[k],
{
}

/// The error of a call names that call.
pub proof fn law_errors_name_the_call(code: i32)
    ensures
        stage_error(CompileStage::Create, code)->NvrtcError_fn_name == "nvrtcCreateProgram",
        stage_error(CompileStage::Compile, code)->NvrtcError_fn_name == "nvrtcCompileProgram",
        stage_error(CompileStage::PtxSize, code)->NvrtcError_fn_name == "nvrtcGetPTXSize",
        stage_error(CompileStage::Ptx, code)->NvrtcError_fn_name == "nvrtcGetPTX",
        stage_error(CompileStage::Load, code)->CudaError_fn_name == "cuModuleLoadData",
        stage_error(CompileStage::Function, code)->CudaError_fn_name == "cuModuleGetFunction",
{
}

} // verus!
