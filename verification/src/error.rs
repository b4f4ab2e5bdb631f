//! The error type of the library and what it says of itself.

use crate::text;
use crate::vmt::PageState;
use vstd::prelude::*;
use vstd::string::*;

verus! {

/// The I/O error of the standard library, carried through as an opaque value.
#[verifier::external_type_specification]
#[verifier::external_body]
pub struct ExIoError(std::io::Error);

/// What can go wrong in any operation of the library.
#[derive(Debug)]
pub enum VugvaError {
    /// A CUDA driver call returned a code other than success.
    CudaError {
        /// The function that failed.
        fn_name: &'static str,
        /// The code it returned.
        code: i32,
    },
    /// An NVRTC call returned a code other than success.
    NvrtcError {
        /// The function that failed.
        fn_name: &'static str,
        /// The code it returned.
        code: i32,
    },
    /// A shared library could not be opened.
    LibLoad {
        /// The library.
        library: &'static str,
        /// The error of the operating system.
        os_error: i32,
    },
    /// A GPU index or ordinal that is out of range.
    InvalidGpu(usize),
    /// No allocation is registered under that name.
    UnknownAllocation(String),
    /// An I/O error of the operating system.
    Io(std::io::Error),
    /// A page cannot go from one state to the other.
    InvalidTransition {
        /// The state the page is in.
        from: PageState,
        /// The state it was asked to go to.
        to: PageState,
        /// The page.
        page: String,
    },
    /// All slots of a DMA command ring are taken.
    DmaRingFull,
    /// A host pool could not satisfy a request.
    ///
    /// This is not a device running out of memory. The sizes tell the two
    /// causes apart: a request above `capacity` needs a larger pool, a small
    /// request that fails with much `available` is fragmentation.
    DramOom {
        /// Bytes requested, after alignment.
        requested: usize,
        /// Bytes not handed out anywhere in the pool.
        available: usize,
        /// Total size of the pool.
        capacity: usize,
    },
}

/// What a [`VugvaError`] stands for: strings by the text they hold.
pub enum Failure {
    /// A CUDA driver call failed.
    CudaError {
        /// The function that failed.
        fn_name: Seq<char>,
        /// The code it returned.
        code: i32,
    },
    /// An NVRTC call failed.
    NvrtcError {
        /// The function that failed.
        fn_name: Seq<char>,
        /// The code it returned.
        code: i32,
    },
    /// A shared library could not be opened.
    LibLoad {
        /// The library.
        library: Seq<char>,
        /// The error of the operating system.
        os_error: i32,
    },
    /// A GPU index or ordinal that is out of range.
    InvalidGpu(usize),
    /// No allocation is registered under that name.
    UnknownAllocation(Seq<char>),
    /// An I/O error of the operating system.
    Io(std::io::Error),
    /// A page cannot go from one state to the other.
    InvalidTransition {
        /// The state the page is in.
        from: PageState,
        /// The state it was asked to go to.
        to: PageState,
        /// The page.
        page: Seq<char>,
    },
    /// All slots of a DMA command ring are taken.
    DmaRingFull,
    /// A host pool could not satisfy a request.
    DramOom {
        /// Bytes requested.
        requested: usize,
        /// Bytes not handed out.
        available: usize,
        /// Total size of the pool.
        capacity: usize,
    },
}

impl View for VugvaError {
    type V = Failure;

    open spec fn view(&self) -> Failure {
        match *self {
            VugvaError::CudaError { fn_name, code } => Failure::CudaError {
                fn_name: fn_name@,
                code,
            },
            VugvaError::NvrtcError { fn_name, code } => Failure::NvrtcError {
                fn_name: fn_name@,
                code,
            },
            VugvaError::LibLoad { library, os_error } => Failure::LibLoad {
                library: library@,
                os_error,
            },
            VugvaError::InvalidGpu(g) => Failure::InvalidGpu(g),
            VugvaError::UnknownAllocation(n) => Failure::UnknownAllocation(n@),
            VugvaError::Io(e) => Failure::Io(e),
            VugvaError::InvalidTransition { from, to, page } => Failure::InvalidTransition {
                from,
                to,
                page: page@,
            },
            VugvaError::DmaRingFull => Failure::DmaRingFull,
            VugvaError::DramOom { requested, available, capacity } => Failure::DramOom {
                requested,
                available,
                capacity,
            },
        }
    }
}

/// A result with its error by what it stands for.
pub open spec fn outcome<T>(r: Result<T, VugvaError>) -> Result<T, Failure> {
    match r {
        Ok(t) => Ok(t),
        Err(e) => Err(e@),
    }
}

/// A result that is a name, by its text.
pub open spec fn named_outcome(r: Result<String, VugvaError>) -> Result<Seq<char>, Failure> {
    match r {
        Ok(n) => Ok(n@),
        Err(e) => Err(e@),
    }
}

/// The text that the standard library's `Debug` writes for a string: the string
/// in double quotes, with the characters that need it escaped.
pub uninterp spec fn quoted(s: Seq<char>) -> Seq<char>;

/// The `Debug` form of a `str`, which [`quoted`] names: it depends on the
/// string alone.
#[verifier::external_body]
fn quote(s: &str) -> (r: String)
    ensures
        r@ == quoted(s@),
{
    format!("{s:?}")
}

/// The name of a page state.
pub open spec fn state_name(s: PageState) -> Seq<char> {
    match s {
        PageState::Unmapped => "Unmapped"@,
        PageState::Allocated => "Allocated"@,
        PageState::Resident => "Resident"@,
        PageState::Warm => "Warm"@,
        PageState::Cold => "Cold"@,
    }
}

fn state_text(s: PageState) -> (r: &'static str)
    ensures
        r@ == state_name(s),
{
    match s {
        PageState::Unmapped => "Unmapped",
        PageState::Allocated => "Allocated",
        PageState::Resident => "Resident",
        PageState::Warm => "Warm",
        PageState::Cold => "Cold",
    }
}

impl VugvaError {
    /// `r` is the message of this error.
    pub open spec fn says(&self, r: Seq<char>) -> bool {
        match *self {
            VugvaError::CudaError { fn_name, code } => r == "CUDA error in "@ + fn_name@
                + ": code "@ + text::decimal(code as int),
            VugvaError::NvrtcError { fn_name, code } => r == "NVRTC error in "@ + fn_name@
                + ": code "@ + text::decimal(code as int),
            VugvaError::LibLoad { library, os_error } => r == "failed to dlopen "@ + library@
                + ": OS error "@ + text::decimal(os_error as int),
            VugvaError::InvalidGpu(g) => r == "invalid GPU ordinal: "@ + text::decimal(g as int),
            VugvaError::UnknownAllocation(n) => r == "no allocation registered under "@ + quoted(
                n@,
            ),
            VugvaError::Io(e) => exists|t: String| #[trigger]
                to_string_from_display_ensures::<std::io::Error>(&e, t) && r == "io error: "@ + t@,
            VugvaError::InvalidTransition { from, to, page } => r == "invalid page transition "@
                + state_name(from) + " → "@ + state_name(to) + " on "@ + quoted(page@),
            VugvaError::DmaRingFull => r == "DMA command ring is full"@,
            VugvaError::DramOom { requested, available, capacity } => r
                == "host DRAM pool exhausted: requested "@ + text::decimal(requested as int)
                + " bytes, "@ + text::decimal(available as int) + " free of "@ + text::decimal(
                capacity as int,
            ) + " total"@,
        }
    }

    /// The message of this error. That of an I/O error ends in whatever text
    /// the I/O error has for itself.
    pub fn to_string(&self) -> (r: String)
        ensures
            self.says(r@),
    {
        let mut r: String = String::new();
        match self {
            VugvaError::CudaError { fn_name, code } => {
                r.append("CUDA error in ");
                r.append(fn_name);
                r.append(": code ");
                text::append_signed(&mut r, *code);
            },
            VugvaError::NvrtcError { fn_name, code } => {
                r.append("NVRTC error in ");
                r.append(fn_name);
                r.append(": code ");
                text::append_signed(&mut r, *code);
            },
            VugvaError::LibLoad { library, os_error } => {
                r.append("failed to dlopen ");
                r.append(library);
                r.append(": OS error ");
                text::append_signed(&mut r, *os_error);
            },
            VugvaError::InvalidGpu(g) => {
                r.append("invalid GPU ordinal: ");
                text::append_unsigned(&mut r, *g as u64);
            },
            VugvaError::UnknownAllocation(n) => {
                r.append("no allocation registered under ");
                r.append(quote(n.as_str()).as_str());
            },
            VugvaError::Io(e) => {
                let t: String = e.to_string();
                r.append("io error: ");
                r.append(t.as_str());
                assert(to_string_from_display_ensures::<std::io::Error>(e, t));
            },
            VugvaError::InvalidTransition { from, to, page } => {
                r.append("invalid page transition ");
                r.append(state_text(*from));
                r.append(" → ");
                r.append(state_text(*to));
                r.append(" on ");
                r.append(quote(page.as_str()).as_str());
            },
            VugvaError::DmaRingFull => {
                r.append("DMA command ring is full");
            },
            VugvaError::DramOom { requested, available, capacity } => {
                r.append("host DRAM pool exhausted: requested ");
                text::append_unsigned(&mut r, *requested as u64);
                r.append(" bytes, ");
                text::append_unsigned(&mut r, *available as u64);
                r.append(" free of ");
                text::append_unsigned(&mut r, *capacity as u64);
                r.append(" total");
            },
        }
        proof {
            lemma_empty_prefix(Seq::<char>::empty());
        }
        r
    }
}

proof fn lemma_empty_prefix(e: Seq<char>)
    requires
        e.len() == 0,
    ensures
        forall|t: Seq<char>| #[trigger] (e + t) == t,
{
    assert forall|t: Seq<char>| #[trigger] (e + t) == t by {
        assert(e + t =~= t);
    }
}

impl From<std::io::Error> for VugvaError {
    fn from(e: std::io::Error) -> (r: Self) {
        VugvaError::Io(e)
    }
}

impl vstd::std_specs::convert::FromSpecImpl<std::io::Error> for VugvaError {
    open spec fn obeys_from_spec() -> bool {
        true
    }

    open spec fn from_spec(e: std::io::Error) -> Self {
        VugvaError::Io(e)
    }
}

/// The result of a CUDA driver call: success is code zero.
pub fn check_cu(call: &'static str, code: i32) -> (r: Result<(), VugvaError>)
    ensures
        r == (if code == 0 {
            Ok::<(), VugvaError>(())
        } else {
            Err(VugvaError::CudaError { fn_name: call, code })
        }),
{
    if code == 0 {
        Ok(())
    } else {
        Err(VugvaError::CudaError { fn_name: call, code })
    }
}

/// The result of an NVRTC call: success is code zero.
pub fn check_nvrtc(call: &'static str, code: i32) -> (r: Result<(), VugvaError>)
    ensures
        r == (if code == 0 {
            Ok::<(), VugvaError>(())
        } else {
            Err(VugvaError::NvrtcError { fn_name: call, code })
        }),
{
    if code == 0 {
        Ok(())
    } else {
        Err(VugvaError::NvrtcError { fn_name: call, code })
    }
}

/// Every state has a name of its own.
pub proof fn law_states_are_told_apart(a: PageState, b: PageState)
    requires
        a != b,
    ensures
        state_name(a) != state_name(b),
{
    reveal_strlit("Unmapped");
    reveal_strlit("Allocated");
    reveal_strlit("Resident");
    reveal_strlit("Warm");
    reveal_strlit("Cold");
    assert(state_name(a)[0] != state_name(b)[0]);
}

/// The number in the middle of a text can be told from the text.
proof fn lemma_number_is_told(p: Seq<char>, a: int, b: int, q: Seq<char>)
    requires
        p + text::decimal(a) + q == p + text::decimal(b) + q,
    ensures
        a == b,
{
    let x = p + text::decimal(a) + q;
    assert(x.subrange(p.len() as int, x.len() - q.len()) =~= text::decimal(a));
    let y = p + text::decimal(b) + q;
    assert(y.subrange(p.len() as int, y.len() - q.len()) =~= text::decimal(b));
    if a != b {
        text::law_decimals_are_distinct(a, b);
    }
}

/// The message of an error tells its numbers: of two errors that differ in one
/// number alone the messages differ.
pub proof fn law_messages_tell_the_numbers(
    call: &'static str,
    library: &'static str,
    a: i32,
    b: i32,
    g: usize,
    h: usize,
    x: usize,
    y: usize,
    r: Seq<char>,
)
    requires
        a != b,
        g != h,
    ensures
        !(VugvaError::CudaError { fn_name: call, code: a }.says(r) && VugvaError::CudaError {
            fn_name: call,
            code: b,
        }.says(r)),
        !(VugvaError::NvrtcError { fn_name: call, code: a }.says(r) && VugvaError::NvrtcError {
            fn_name: call,
            code: b,
        }.says(r)),
        !(VugvaError::LibLoad { library, os_error: a }.says(r) && VugvaError::LibLoad {
            library,
            os_error: b,
        }.says(r)),
        !(VugvaError::InvalidGpu(g).says(r) && VugvaError::InvalidGpu(h).says(r)),
        !(VugvaError::DramOom { requested: g, available: x, capacity: y }.says(r)
            && VugvaError::DramOom { requested: h, available: x, capacity: y }.says(r)),
        !(VugvaError::DramOom { requested: x, available: g, capacity: y }.says(r)
            && VugvaError::DramOom { requested: x, available: h, capacity: y }.says(r)),
        !(VugvaError::DramOom { requested: x, available: y, capacity: g }.says(r)
            && VugvaError::DramOom { requested: x, available: y, capacity: h }.says(r)),
{
    let e = Seq::<char>::empty();
    let cu = "CUDA error in "@ + call@ + ": code "@;
    let nv = "NVRTC error in "@ + call@ + ": code "@;
    let so = "failed to dlopen "@ + library@ + ": OS error "@;
    let ix = "invalid GPU ordinal: "@;
    let d0 = "host DRAM pool exhausted: requested "@;
    let d1 = " bytes, "@;
    let d2 = " free of "@;
    let d3 = " total"@;
    let da = text::decimal(a as int);
    let db = text::decimal(b as int);
    let dg = text::decimal(g as int);
    let dh = text::decimal(h as int);
    let dx = text::decimal(x as int);
    let dy = text::decimal(y as int);
    assert forall|p: Seq<char>, q: Seq<char>| #[trigger] (p + q) + e == p + q by {
        assert((p + q) + e =~= p + q);
    }
    if cu + da == cu + db {
        lemma_number_is_told(cu, a as int, b as int, e);
    }
    if nv + da == nv + db {
        lemma_number_is_told(nv, a as int, b as int, e);
    }
    if so + da == so + db {
        lemma_number_is_told(so, a as int, b as int, e);
    }
    if ix + dg == ix + dh {
        lemma_number_is_told(ix, g as int, h as int, e);
    }
    let tail0 = d1 + dx + d2 + dy + d3;
    assert(d0 + dg + d1 + dx + d2 + dy + d3 =~= d0 + dg + tail0);
    assert(d0 + dh + d1 + dx + d2 + dy + d3 =~= d0 + dh + tail0);
    if d0 + dg + tail0 == d0 + dh + tail0 {
        lemma_number_is_told(d0, g as int, h as int, tail0);
    }
    let head1 = d0 + dx + d1;
    let tail1 = d2 + dy + d3;
    assert(d0 + dx + d1 + dg + d2 + dy + d3 =~= head1 + dg + tail1);
    assert(d0 + dx + d1 + dh + d2 + dy + d3 =~= head1 + dh + tail1);
    if head1 + dg + tail1 == head1 + dh + tail1 {
        lemma_number_is_told(head1, g as int, h as int, tail1);
    }
    let head2 = d0 + dx + d1 + dy + d2;
    if head2 + dg + d3 == head2 + dh + d3 {
        lemma_number_is_told(head2, g as int, h as int, d3);
    }
}

/// What an error stands for tells it from every other error of its kind.
pub proof fn law_failures_are_told_apart(
    g: usize,
    name: String,
    requested: usize,
    available: usize,
    capacity: usize,
    call: &'static str,
    code: i32,
)
    ensures
        VugvaError::InvalidGpu(g)@ == Failure::InvalidGpu(g),
        VugvaError::UnknownAllocation(name)@ == Failure::UnknownAllocation(name@),
        VugvaError::DmaRingFull@ == Failure::DmaRingFull,
        (VugvaError::DramOom { requested, available, capacity })@ == (Failure::DramOom {
            requested,
            available,
            capacity,
        }),
        (VugvaError::CudaError { fn_name: call, code })@ == (Failure::CudaError {
            fn_name: call@,
            code,
        }),
        (VugvaError::NvrtcError { fn_name: call, code })@ == (Failure::NvrtcError {
            fn_name: call@,
            code,
        }),
{
}

} // verus!
