//! Handles and codes of NVRTC, the run-time compiler for kernels.

use crate::text;
use vstd::prelude::*;
use vstd::string::*;

verus! {

/// Return code of NVRTC.
#[allow(non_camel_case_types)]
pub type nvrtcResult = i32;

/// Success.
pub const NVRTC_SUCCESS: i32 = 0;

/// No memory left.
pub const NVRTC_ERROR_OUT_OF_MEMORY: i32 = 1;

/// The program could not be created.
pub const NVRTC_ERROR_PROGRAM_CREATION_FAILURE: i32 = 2;

/// A parameter is not acceptable.
pub const NVRTC_ERROR_INVALID_INPUT: i32 = 3;

/// There is no such program.
pub const NVRTC_ERROR_INVALID_PROGRAM: i32 = 4;

/// The program does not compile.
pub const NVRTC_ERROR_COMPILATION: i32 = 6;

/// The library is absent or does not have the requested symbol. It lies outside
/// the range of NVRTC's own codes.
pub const NVRTC_ERROR_NOT_FOUND: i32 = 10_000;

/// A program, by the address of what NVRTC keeps for it.
#[allow(non_camel_case_types)]
#[derive(Copy, Clone, Debug, PartialEq, Eq, Structural, Hash)]
pub struct nvrtcProgram(pub usize);

impl nvrtcProgram {
    /// No program.
    pub fn null() -> (r: Self)
        ensures
            r.0 == 0,
    {
        nvrtcProgram(0)
    }

    /// No program was created.
    pub fn is_null(&self) -> (r: bool)
        ensures
            r == (self.0 == 0),
    {
        self.0 == 0
    }
}

impl Default for nvrtcProgram {
    fn default() -> (r: Self)
        ensures
            r.0 == 0,
    {
        nvrtcProgram(0)
    }
}

/// The description of a code: fixed for a library that is absent, else what the
/// library says, else the number.
pub open spec fn description_of(code: i32, library: Option<String>) -> Seq<char> {
    if code == NVRTC_ERROR_NOT_FOUND {
        "NVRTC_ERROR_NOT_FOUND (libnvrtc.so is not available)"@
    } else if library is Some && library->0@.len() > 0 {
        library->0@
    } else {
        "nvrtcResult("@ + text::decimal(code as int) + ")"@
    }
}

/// Every code has a description that is not empty.
pub proof fn law_description_is_never_empty(code: i32, library: Option<String>)
    ensures
        description_of(code, library).len() > 0,
{
    reveal_strlit("NVRTC_ERROR_NOT_FOUND (libnvrtc.so is not available)");
    reveal_strlit("nvrtcResult(");
}

/// The description of a code, from what the library says of it, where it is
/// there and what it says is valid text.
pub fn error_string(code: nvrtcResult, library: Option<String>) -> (r: String)
    ensures
        r@ == description_of(code, library),
{
    if code == NVRTC_ERROR_NOT_FOUND {
        return "NVRTC_ERROR_NOT_FOUND (libnvrtc.so is not available)".to_owned();
    }
    if let Some(s) = library {
        if !s.as_str().is_empty() {
            return s;
        }
    }
    let mut r: String = "nvrtcResult(".to_owned();
    text::append_signed(&mut r, code);
    r.append(")");
    r
}

/// What the library says of a code describes it, where it says anything. Else a
/// code is told by its number, so that different codes are described
/// differently. That the library is absent is told in the same words always.
pub proof fn law_codes_are_told_apart(a: i32, b: i32, text: String, other: Option<String>)
    requires
        a != b,
        a != NVRTC_ERROR_NOT_FOUND,
        b != NVRTC_ERROR_NOT_FOUND,
    ensures
        text@.len() > 0 ==> description_of(a, Some(text)) == text@,
        text@.len() == 0 ==> description_of(a, Some(text)) == description_of(a, None),
        description_of(a, None) != description_of(b, None),
        description_of(NVRTC_ERROR_NOT_FOUND, other) == description_of(
            NVRTC_ERROR_NOT_FOUND,
            None,
        ),
{
    text::law_decimals_are_distinct(a as int, b as int);
    let p = "nvrtcResult("@;
    reveal_strlit(")");
    let n = p.len() as int;
    let x = description_of(a, None);
    let y = description_of(b, None);
    assert(x.subrange(n, x.len() - 1) =~= text::decimal(a as int));
    assert(y.subrange(n, y.len() - 1) =~= text::decimal(b as int));
}

} // verus!
