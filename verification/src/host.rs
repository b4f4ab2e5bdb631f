//! Host memory that is mapped for a pool: how much, and on which NUMA node.

use crate::error::VugvaError;
use crate::ffi::cuda::CUDA_ERROR_OUT_OF_MEMORY;
use vstd::prelude::*;

verus! {

/// Size of a page of the operating system.
pub const PAGE_SIZE: usize = 4096;

/// `size` rounded up to whole pages of the operating system.
pub open spec fn whole_pages(size: int) -> int {
    (size + PAGE_SIZE - 1) / PAGE_SIZE as int * PAGE_SIZE as int
}

/// The size of a mapping that holds `size` bytes.
pub fn mapping_size(size: usize) -> (r: usize)
    requires
        size <= usize::MAX - (PAGE_SIZE - 1),
    ensures
        r == whole_pages(size as int),
        size <= r < size + PAGE_SIZE,
        r % PAGE_SIZE == 0,
{
    let sum: usize = size + (PAGE_SIZE - 1);
    sum / PAGE_SIZE * PAGE_SIZE
}

/// What the operating system answered is the address of a mapping.
pub open spec fn is_mapped(answer: usize) -> bool {
    answer != 0 && answer != usize::MAX
}

/// An answer is the address of a mapping unless it is zero or the largest there
/// is.
pub proof fn law_two_answers_are_failures(answer: usize)
    ensures
        is_mapped(answer) <==> 0 < answer < usize::MAX,
{
}

/// The address of a mapping, from what the operating system answered: zero and
/// the largest address stand for a failure.
pub fn mapped_address(answer: usize) -> (r: Result<usize, VugvaError>)
    ensures
        r == if is_mapped(answer) {
            Ok(answer)
        } else {
            Err::<usize, VugvaError>(
                VugvaError::CudaError { fn_name: "mmap", code: CUDA_ERROR_OUT_OF_MEMORY },
            )
        },
{
    if answer == 0 || answer == usize::MAX {
        return Err(VugvaError::CudaError { fn_name: "mmap", code: CUDA_ERROR_OUT_OF_MEMORY });
    }
    Ok(answer)
}

/// Bit `n` of a mask of 64-bit words.
pub open spec fn bit(mask: Seq<u64>, n: int) -> bool {
    0 <= n < 64 * mask.len() && (mask[n / 64] >> ((n % 64) as u64)) & 1 == 1
}

/// The mask that names one NUMA node: as many words as it takes, with the bit of
/// the node set and no other.
pub fn node_mask(numa_node: usize) -> (r: Vec<u64>)
    requires
        numa_node / 64 < usize::MAX,
    ensures
        r@.len() == numa_node / 64 + 1,
        forall|n: int| 0 <= n < 64 * r@.len() ==> (#[trigger] bit(r@, n) <==> n == numa_node),
{
    let word: usize = numa_node / 64;
    let place: u64 = (numa_node % 64) as u64;
    let mut mask: Vec<u64> = Vec::new();
    let mut i: usize = 0;
    while i < word
        invariant
            i <= word,
            mask@ == Seq::new(i as nat, |k: int| 0u64),
        decreases word - i,
    {
        mask.push(0);
        i = i + 1;
        assert(mask@ =~= Seq::new(i as nat, |k: int| 0u64));
    }
    mask.push(1u64 << place);
    proof {
        assert forall|n: int| 0 <= n < 64 * mask@.len() implies (#[trigger] bit(mask@, n) <==> n
            == numa_node) by {
            let at = (n % 64) as u64;
            if n / 64 < word {
                assert((0u64 >> at) & 1 == 0) by (bit_vector);
            } else {
                assert(n / 64 == word);
                let set = 1u64 << place;
                assert((set >> at) & 1 == 1 <==> at == place) by (bit_vector)
                    requires
                        set == 1u64 << place,
                        at < 64,
                        place < 64,
                ;
                assert(n == 64 * (n / 64) + n % 64);
                assert(numa_node == 64 * (numa_node / 64) + numa_node % 64);
            }
        }
    }
    mask
}

/// Number of bits of a mask, as the operating system wants it to be told.
pub fn mask_bits(mask: &Vec<u64>) -> (r: u64)
    requires
        mask@.len() <= u64::MAX / 64,
    ensures
        r == 64 * mask@.len(),
{
    mask.len() as u64 * 64
}

/// A mask holds its bits in words of 64, each by its value: bit `n` is set where
/// `2` to the power of its place goes into its word an odd number of times.
pub proof fn law_bits_go_by_value(mask: Seq<u64>, n: int)
    requires
        0 <= n < 64 * mask.len(),
    ensures
        bit(mask, n) <==> mask[n / 64] as nat / vstd::arithmetic::power2::pow2((n % 64) as nat) % 2
            == 1,
{
    let word = mask[n / 64];
    let place = (n % 64) as u64;
    vstd::bits::lemma_u64_shr_is_div(word, place);
    let high = word >> place;
    assert(high & 1 == high % 2) by (bit_vector);
}

/// A mapping is of whole pages and not more than it needs: a byte more than a
/// whole number of them takes another page, and a whole number takes no more.
pub proof fn law_mappings_are_whole_pages(pages: int, more: int)
    requires
        0 <= pages,
        0 < more <= 4096,
    ensures
        whole_pages(4096 * pages) == 4096 * pages,
        whole_pages(4096 * pages + more) == 4096 * (pages + 1),
{
}

} // verus!
