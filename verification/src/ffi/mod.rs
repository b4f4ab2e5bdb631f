//! What is known of the CUDA driver and of NVRTC without loading either: their
//! handles and codes, and the names under which to look for them.

use vstd::prelude::*;
use vstd::string::*;

pub mod cuda;
pub mod nvrtc;

verus! {

/// Name of the driver's shared library.
pub const CUDA_SONAME: &'static str = "libcuda.so.1";

/// Name of NVRTC's shared library.
pub const NVRTC_SONAME: &'static str = "libnvrtc.so.12";

/// `name` ends in `suffix`.
pub open spec fn ends_with(name: Seq<char>, suffix: Seq<char>) -> bool {
    name.len() >= suffix.len() && name.skip(name.len() - suffix.len()) == suffix
}

/// The names under which the driver may have the entry point `name`, in the
/// order in which to try them: the name itself, then its versioned spellings
/// unless it is one already.
pub open spec fn spellings(name: Seq<char>) -> Seq<Seq<char>> {
    if ends_with(name, "_v2"@) || ends_with(name, "_v3"@) {
        seq![name]
    } else {
        seq![name, name + "_v2"@, name + "_v3"@]
    }
}

fn has_suffix(name: &str, suffix: &str) -> (r: bool)
    ensures
        r == ends_with(name@, suffix@),
{
    let s = crate::scan::characters(name);
    let t = crate::scan::characters(suffix);
    if s.len() < t.len() {
        return false;
    }
    let from: usize = s.len() - t.len();
    let ghost tail = name@.skip(from as int);
    let mut i: usize = 0;
    while i < t.len()
        invariant
            s@ == name@,
            t@ == suffix@,
            from + t@.len() == s@.len(),
            s@.len() <= usize::MAX,
            i <= t@.len(),
            tail == name@.skip(from as int),
            forall|k: int| 0 <= k < i ==> tail[k] == #[trigger] suffix@[k],
        decreases t@.len() - i,
    {
        if s[from + i] != t[i] {
            assert(tail[i as int] != suffix@[i as int]);
            return false;
        }
        i = i + 1;
    }
    assert(tail =~= suffix@);
    true
}

/// The names under which to look for an entry point of the driver, in order.
pub fn symbol_candidates(name: &str) -> (r: Vec<String>)
    ensures
        r@.map_values(|s: String| s@) == spellings(name@),
{
    let mut r: Vec<String> = Vec::new();
    r.push(name.to_owned());
    if !has_suffix(name, "_v2") && !has_suffix(name, "_v3") {
        let mut second: String = name.to_owned();
        second.append("_v2");
        r.push(second);
        let mut third: String = name.to_owned();
        third.append("_v3");
        r.push(third);
    }
    assert(r@.map_values(|s: String| s@) =~= spellings(name@));
    r
}

/// The files to try for the driver, in order.
pub fn cuda_candidates() -> (r: Vec<&'static str>)
    ensures
        r@ == seq![CUDA_SONAME, "libcuda.so", "cuda"],
{
    vec![CUDA_SONAME, "libcuda.so", "cuda"]
}

/// The files to try for NVRTC, in order: the version that is looked for
/// first, then every version from the newest down, then the unversioned name.
pub fn nvrtc_candidates() -> (r: Vec<&'static str>)
    ensures
        r@ == seq![
            NVRTC_SONAME,
            "libnvrtc.so.13",
            "libnvrtc.so.12",
            "libnvrtc.so.11",
            "libnvrtc.so.10",
            "libnvrtc.so",
        ],
{
    vec![
        NVRTC_SONAME,
        "libnvrtc.so.13",
        "libnvrtc.so.12",
        "libnvrtc.so.11",
        "libnvrtc.so.10",
        "libnvrtc.so",
    ]
}

/// An entry point is looked for under its own name first. One that names its
/// version is looked for under no other name, and any other under the names of
/// its two versions too, the lower first.
pub proof fn law_names_are_tried_in_order(name: Seq<char>, stem: Seq<char>)
    ensures
        spellings(name)[0] == name,
        spellings(stem + "_v2"@) == seq![stem + "_v2"@],
        spellings(stem + "_v3"@) == seq![stem + "_v3"@],
        spellings(name).len() == 1 || spellings(name) == seq![name, name + "_v2"@, name + "_v3"@],
        name.len() < 3 || name[name.len() - 2] != 'v' ==> spellings(name).len() == 3,
{
    reveal_strlit("_v2");
    reveal_strlit("_v3");
    let two = stem + "_v2"@;
    let three = stem + "_v3"@;
    assert(two.skip(two.len() - 3) =~= "_v2"@);
    assert(three.skip(three.len() - 3) =~= "_v3"@);
    if name.len() >= 3 {
        let tail = name.skip(name.len() - 3);
        assert(tail[1] == name[name.len() - 2]);
        assert("_v2"@[1] == 'v');
        assert("_v3"@[1] == 'v');
    }
}

} // verus!
