//! The model of a range allocator: a region, its high-water mark and the free
//! blocks below it, and what holds of every allocation and release.

use crate::error::VugvaError;
use vstd::prelude::*;

verus! {

/// Alignment of every allocation: one cache line, and the granularity of a
/// DMA descriptor.
pub const ALIGN: usize = 64;

/// `bytes` rounded up to the next multiple of [`ALIGN`].
pub open spec fn aligned(bytes: int) -> int {
    (bytes + ALIGN - 1) / ALIGN as int * ALIGN as int
}

/// The bytes of all `blocks` together.
pub open spec fn total_len(blocks: Seq<(usize, usize)>) -> int
    decreases blocks.len(),
{
    if blocks.len() == 0 {
        0
    } else {
        total_len(blocks.drop_last()) + blocks.last().1
    }
}

/// What a [`RangeAllocator`] stands for: a region, its high-water mark and the
/// free blocks below it.
#[verifier::ext_equal]
pub struct Ranges {
    /// Total size of the region.
    pub capacity: usize,
    /// High-water mark: nothing at or above it is handed out.
    pub offset: usize,
    /// Free blocks `(offset, length)` below the mark, by ascending offset.
    pub blocks: Seq<(usize, usize)>,
}

impl Ranges {
    /// Blocks are non-empty and ascending, no two of them touch, and the top
    /// one does not touch the high-water mark.
    pub open spec fn wf(self) -> bool {
        &&& self.offset <= self.capacity
        &&& forall|i: int|
            #![trigger self.blocks[i]]
            0 <= i < self.blocks.len() ==> self.blocks[i].1 > 0 && self.blocks[i].0
                + self.blocks[i].1 < self.offset
        &&& forall|i: int, j: int|
            #![trigger self.blocks[i], self.blocks[j]]
            0 <= i < j < self.blocks.len() ==> self.blocks[i].0 + self.blocks[i].1
                < self.blocks[j].0
    }

    /// Byte `x` lies in block `i`.
    pub open spec fn in_block(self, i: int, x: int) -> bool {
        self.blocks[i].0 <= x < self.blocks[i].0 + self.blocks[i].1
    }

    /// Byte `x` lies in a free block.
    pub open spec fn covered(self, x: int) -> bool {
        exists|i: int| 0 <= i < self.blocks.len() && #[trigger] self.in_block(i, x)
    }

    /// Byte `x` is handed out.
    pub open spec fn live(self, x: int) -> bool {
        0 <= x < self.offset && !self.covered(x)
    }

    /// Every byte of `[off, off + len)` is handed out.
    pub open spec fn live_range(self, off: int, len: int) -> bool {
        forall|x: int| off <= x < off + len ==> #[trigger] self.live(x)
    }

    /// Bytes handed out.
    pub open spec fn used(self) -> int {
        self.offset - total_len(self.blocks)
    }

    /// Some free block holds `need` bytes.
    pub open spec fn fits(self, need: int) -> bool {
        exists|i: int| 0 <= i < self.blocks.len() && #[trigger] self.blocks[i].1 >= need
    }

    /// Block `i` is the shortest that holds `need` bytes, and the first of
    /// those that are equally short.
    pub open spec fn is_tightest(self, i: int, need: int) -> bool {
        &&& 0 <= i < self.blocks.len()
        &&& self.blocks[i].1 >= need
        &&& forall|j: int|
            #![trigger self.blocks[j]]
            0 <= j < self.blocks.len() && self.blocks[j].1 >= need ==> {
                &&& self.blocks[i].1 <= self.blocks[j].1
                &&& j < i ==> self.blocks[i].1 < self.blocks[j].1
            }
    }

    /// The ranges once `need` bytes are cut from the front of block `i`.
    pub open spec fn cut(self, i: int, need: int) -> Ranges {
        let (off, len) = self.blocks[i];
        Ranges {
            blocks: if len == need {
                self.blocks.remove(i)
            } else {
                self.blocks.update(i, ((off + need) as usize, (len - need) as usize))
            },
            ..self
        }
    }

    /// The ranges with blocks `lo..hi` replaced by one block `[start, end)`.
    pub open spec fn spliced(self, lo: int, hi: int, start: usize, end: usize) -> Ranges {
        Ranges {
            blocks: self.blocks.take(lo) + seq![(start, (end - start) as usize)]
                + self.blocks.skip(hi),
            ..self
        }
    }

    /// The ranges with the high-water mark down at `start` and only the first
    /// `lo` blocks left.
    pub open spec fn retracted(self, lo: int, start: usize) -> Ranges {
        Ranges { blocks: self.blocks.take(lo), offset: start, ..self }
    }

    /// The ranges once the high-water mark is raised by `need` bytes.
    pub open spec fn extend(self, need: int) -> Ranges {
        Ranges { offset: (self.offset + need) as usize, ..self }
    }
}

/// What a request for `bytes` does to `pre`: a block of the tightest fit is cut,
/// else the high-water mark is raised, else nothing changes and the request is
/// answered with the bytes that are free in all.
pub open spec fn allocated(
    pre: Ranges,
    bytes: int,
    r: Result<usize, VugvaError>,
    post: Ranges,
) -> bool {
    let need = aligned(bytes);
    if pre.fits(need) {
        exists|i: int| #[trigger]
            pre.is_tightest(i, need) && r == Ok::<usize, VugvaError>(pre.blocks[i].0) && post
                == pre.cut(i, need)
    } else if pre.offset + need <= pre.capacity {
        r == Ok::<usize, VugvaError>(pre.offset) && post == pre.extend(need)
    } else {
        r == Err::<usize, VugvaError>(
            VugvaError::DramOom {
                requested: need as usize,
                available: (pre.capacity - pre.used()) as usize,
                capacity: pre.capacity,
            },
        ) && post == pre
    }
}

/// What giving back `bytes` at `off` does to `pre`: where every byte of the
/// range is handed out, exactly those bytes become free; else nothing changes.
pub open spec fn freed(pre: Ranges, off: int, bytes: int, post: Ranges) -> bool {
    let len = aligned(bytes);
    if len > 0 && pre.live_range(off, len) {
        &&& post.capacity == pre.capacity
        &&& forall|x: int| #[trigger]
            post.live(x) <==> pre.live(x) && !(off <= x < off + len)
    } else {
        post == pre
    }
}

impl Ranges {
    /// The answer to a request for `bytes`.
    pub open spec fn answer(self, bytes: int) -> Result<usize, VugvaError> {
        let need = aligned(bytes);
        if self.fits(need) {
            Ok(self.blocks[choose|i: int| self.is_tightest(i, need)].0)
        } else if self.offset + need <= self.capacity {
            Ok(self.offset)
        } else {
            Err(
                VugvaError::DramOom {
                    requested: need as usize,
                    available: (self.capacity - self.used()) as usize,
                    capacity: self.capacity,
                },
            )
        }
    }

    /// The ranges after a request for `bytes`.
    pub open spec fn grant(self, bytes: int) -> Ranges {
        let need = aligned(bytes);
        if self.fits(need) {
            self.cut(choose|i: int| self.is_tightest(i, need), need)
        } else if self.offset + need <= self.capacity {
            self.extend(need)
        } else {
            self
        }
    }

    /// The ranges after `bytes` at `off` are given back.
    pub open spec fn give_back(self, off: int, bytes: int) -> Ranges {
        choose|post: Ranges| post.wf() && freed(self, off, bytes, post)
    }
}

/// A request has one answer and one outcome.
pub proof fn law_allocation_is_determined(
    pre: Ranges,
    bytes: int,
    r: Result<usize, VugvaError>,
    post: Ranges,
)
    requires
        allocated(pre, bytes, r, post),
    ensures
        r == pre.answer(bytes),
        post == pre.grant(bytes),
{
    let need = aligned(bytes);
    if pre.fits(need) {
        let i = choose|i: int| #[trigger]
            pre.is_tightest(i, need) && r == Ok::<usize, VugvaError>(pre.blocks[i].0) && post
                == pre.cut(i, need);
        let j = choose|j: int| pre.is_tightest(j, need);
        assert(pre.is_tightest(i, need));
        assert(pre.is_tightest(j, need));
        assert(pre.blocks[i].1 <= pre.blocks[j].1);
    }
}

/// A release has one outcome.
pub proof fn law_release_is_determined(pre: Ranges, off: int, bytes: int, post: Ranges)
    requires
        pre.wf(),
        post.wf(),
        freed(pre, off, bytes, post),
    ensures
        post == pre.give_back(off, bytes),
{
    let other = pre.give_back(off, bytes);
    assert(other.wf() && freed(pre, off, bytes, other));
    if aligned(bytes) > 0 && pre.live_range(off, aligned(bytes)) {
        assert forall|x: int| #[trigger] post.live(x) <==> other.live(x) by {
            assert(other.live(x) <==> pre.live(x) && !(off <= x < off + aligned(bytes)));
        }
        law_state_is_what_is_handed_out(post, other);
    }
}

pub(crate) proof fn lemma_total_bound(v: Ranges, k: int)
    requires
        v.wf(),
        0 <= k <= v.blocks.len(),
    ensures
        0 <= total_len(v.blocks.take(k)) <= v.offset,
        k > 0 ==> total_len(v.blocks.take(k)) <= v.blocks[k - 1].0 + v.blocks[k - 1].1,
    decreases k,
{
    if k > 0 {
        lemma_total_bound(v, k - 1);
        assert(v.blocks.take(k).drop_last() =~= v.blocks.take(k - 1));
    }
}

pub(crate) proof fn lemma_total_update(blocks: Seq<(usize, usize)>, i: int, b: (usize, usize))
    requires
        0 <= i < blocks.len(),
    ensures
        total_len(blocks.update(i, b)) == total_len(blocks) - blocks[i].1 + b.1,
    decreases blocks.len(),
{
    let n = blocks.len() - 1;
    if i == n {
        assert(blocks.update(i, b).drop_last() =~= blocks.drop_last());
    } else {
        lemma_total_update(blocks.drop_last(), i, b);
        assert(blocks.update(i, b).drop_last() =~= blocks.drop_last().update(i, b));
    }
}

pub(crate) proof fn lemma_total_remove(blocks: Seq<(usize, usize)>, i: int)
    requires
        0 <= i < blocks.len(),
    ensures
        total_len(blocks.remove(i)) == total_len(blocks) - blocks[i].1,
    decreases blocks.len(),
{
    let n = blocks.len() - 1;
    if i == n {
        assert(blocks.remove(i) =~= blocks.drop_last());
    } else {
        lemma_total_remove(blocks.drop_last(), i);
        assert(blocks.remove(i).drop_last() =~= blocks.drop_last().remove(i));
    }
}

/// Cutting `need` bytes from block `i` hands out exactly those bytes.
pub(crate) proof fn lemma_cut(v: Ranges, i: int, need: int)
    requires
        v.wf(),
        0 <= i < v.blocks.len(),
        0 <= need <= v.blocks[i].1,
    ensures
        v.cut(i, need).wf(),
        v.blocks[i].0 + need <= v.capacity,
        forall|x: int|
            v.blocks[i].0 <= x < v.blocks[i].0 + need ==> !#[trigger] v.live(x),
        forall|x: int| #[trigger]
            v.cut(i, need).live(x) <==> v.live(x) || v.blocks[i].0 <= x < v.blocks[i].0 + need,
        v.cut(i, need).used() == v.used() + need,
{
    let w = v.cut(i, need);
    let (off, len) = v.blocks[i];
    assert forall|x: int| off <= x < off + need implies !#[trigger] v.live(x) by {
        assert(v.in_block(i, x));
    }
    if len == need {
        lemma_total_remove(v.blocks, i);
        assert forall|x: int| #[trigger]
            w.live(x) <==> v.live(x) || off <= x < off + need by {
            if v.covered(x) && !(off <= x < off + need) {
                let k = choose|k: int| 0 <= k < v.blocks.len() && #[trigger] v.in_block(k, x);
                let m = if k < i { k } else { k - 1 };
                assert(w.blocks[m] == v.blocks[k]);
                assert(w.in_block(m, x));
            }
            if w.covered(x) {
                let m = choose|m: int| 0 <= m < w.blocks.len() && #[trigger] w.in_block(m, x);
                let k = if m < i { m } else { m + 1 };
                assert(w.blocks[m] == v.blocks[k]);
                assert(v.in_block(k, x));
            }
        }
    } else {
        lemma_total_update(v.blocks, i, w.blocks[i]);
        assert forall|x: int| #[trigger]
            w.live(x) <==> v.live(x) || off <= x < off + need by {
            if v.covered(x) && !(off <= x < off + need) {
                let k = choose|k: int| 0 <= k < v.blocks.len() && #[trigger] v.in_block(k, x);
                assert(w.in_block(k, x));
            }
            if w.covered(x) {
                let m = choose|m: int| 0 <= m < w.blocks.len() && #[trigger] w.in_block(m, x);
                assert(v.in_block(m, x));
                if off <= x < off + need {
                    assert(v.blocks[m] == w.blocks[m] || m == i);
                }
            }
        }
    }
}

/// Raising the mark by `need` bytes hands out exactly the bytes between.
pub(crate) proof fn lemma_extend(v: Ranges, need: int)
    requires
        v.wf(),
        need >= 0,
        v.offset + need <= v.capacity,
    ensures
        v.extend(need).wf(),
        forall|x: int| v.offset <= x ==> !#[trigger] v.live(x),
        forall|x: int| #[trigger]
            v.extend(need).live(x) <==> v.live(x) || v.offset <= x < v.offset + need,
        v.extend(need).used() == v.used() + need,
{
    let w = v.extend(need);
    assert forall|x: int| #[trigger]
        w.live(x) <==> v.live(x) || v.offset <= x < v.offset + need by {
        if v.covered(x) {
            let k = choose|k: int| 0 <= k < v.blocks.len() && #[trigger] v.in_block(k, x);
            assert(w.in_block(k, x));
        }
        if w.covered(x) {
            let k = choose|k: int| 0 <= k < w.blocks.len() && #[trigger] w.in_block(k, x);
            assert(v.in_block(k, x));
        }
    }
}

/// Freeing `[off, off + len)`, merged with its free neighbours into
/// `[start, end)`, frees exactly those bytes.
pub(crate) proof fn lemma_release(
    v: Ranges,
    off: int,
    len: int,
    lo: int,
    hi: int,
    start: usize,
    end: usize,
)
    requires
        v.wf(),
        len > 0,
        0 <= off,
        off + len <= v.offset,
        0 <= lo <= hi <= v.blocks.len(),
        forall|j: int|
            #![trigger v.blocks[j]]
            0 <= j < lo ==> v.blocks[j].0 + v.blocks[j].1 < start,
        forall|j: int| #![trigger v.blocks[j]] hi <= j < v.blocks.len() ==> end < v.blocks[j].0,
        start <= off,
        off + len <= end <= v.offset,
        forall|j: int|
            #![trigger v.blocks[j]]
            lo <= j < hi ==> start <= v.blocks[j].0 && v.blocks[j].0 + v.blocks[j].1 <= end && (
            v.blocks[j].0 + v.blocks[j].1 <= off || off + len <= v.blocks[j].0),
        forall|x: int|
            start <= x < end && !(off <= x < off + len) ==> #[trigger] v.covered(x),
    ensures
        v.live_range(off, len),
        end == v.offset ==> hi == v.blocks.len(),
        end == v.offset ==> v.retracted(lo, start).wf() && forall|x: int| #[trigger]
            v.retracted(lo, start).live(x) <==> v.live(x) && !(off <= x < off + len),
        end < v.offset ==> v.spliced(lo, hi, start, end).wf() && forall|x: int| #[trigger]
            v.spliced(lo, hi, start, end).live(x) <==> v.live(x) && !(off <= x < off + len),
{
    assert forall|x: int| off <= x < off + len implies #[trigger] v.live(x) by {
        if v.covered(x) {
            let k = choose|k: int| 0 <= k < v.blocks.len() && #[trigger] v.in_block(k, x);
            assert(v.blocks[k].1 > 0);
        }
    }
    if end == v.offset {
        if hi < v.blocks.len() {
            assert(v.blocks[hi].1 > 0);
        }
        let w = v.retracted(lo, start);
        assert forall|x: int| #[trigger]
            w.live(x) <==> v.live(x) && !(off <= x < off + len) by {
            if v.covered(x) && x < start {
                let k = choose|k: int| 0 <= k < v.blocks.len() && #[trigger] v.in_block(k, x);
                assert(v.blocks[k].1 > 0);
                assert(w.in_block(k, x));
            }
            if w.covered(x) {
                let k = choose|k: int| 0 <= k < w.blocks.len() && #[trigger] w.in_block(k, x);
                assert(w.blocks[k] == v.blocks[k]);
                assert(v.in_block(k, x));
            }
        }
    } else {
        let w = v.spliced(lo, hi, start, end);
        assert forall|i: int|
            0 <= i < w.blocks.len() implies #[trigger] w.blocks[i] == (if i < lo {
            v.blocks[i]
        } else if i == lo {
            (start, (end - start) as usize)
        } else {
            v.blocks[i - lo - 1 + hi]
        }) by {}
        assert forall|x: int| #[trigger]
            w.live(x) <==> v.live(x) && !(off <= x < off + len) by {
            if v.covered(x) || off <= x < off + len {
                if start <= x < end {
                    assert(w.in_block(lo, x));
                } else {
                    let k = choose|k: int|
                        0 <= k < v.blocks.len() && #[trigger] v.in_block(k, x);
                    assert(v.blocks[k].1 > 0);
                    let m = if k < lo {
                        k
                    } else {
                        k - hi + lo + 1
                    };
                    assert(w.blocks[m] == v.blocks[k]);
                    assert(w.in_block(m, x));
                }
            }
            if w.covered(x) {
                let m = choose|m: int| 0 <= m < w.blocks.len() && #[trigger] w.in_block(m, x);
                if m != lo {
                    let k = if m < lo {
                        m
                    } else {
                        m - lo - 1 + hi
                    };
                    assert(w.blocks[m] == v.blocks[k]);
                    assert(v.in_block(k, x));
                }
            }
        }
    }
}

impl Ranges {
    /// The bytes handed out.
    pub open spec fn live_bytes(self) -> Set<int> {
        vstd::set_lib::set_int_range(0, self.offset as int).filter(|x: int| self.live(x))
    }

    /// Lines of [`ALIGN`] bytes are handed out and freed as a whole.
    pub open spec fn by_lines(self) -> bool {
        forall|x: int, y: int|
            #![trigger self.live(x), self.live(y)]
            0 <= x && 0 <= y && x / ALIGN as int == y / ALIGN as int ==> (self.live(x)
                <==> self.live(y))
    }
}

/// The byte directly below the mark is handed out, that at the mark is not.
proof fn lemma_top(v: Ranges)
    requires
        v.wf(),
    ensures
        v.offset > 0 ==> v.live(v.offset - 1),
        !v.live(v.offset as int),
{
    if v.offset > 0 && v.covered(v.offset - 1) {
        let k = choose|k: int|
            0 <= k < v.blocks.len() && #[trigger] v.in_block(k, v.offset - 1);
        assert(v.blocks[k].1 > 0);
    }
}

/// The bytes on both sides of a block are handed out, its first is not.
proof fn lemma_edge(v: Ranges, i: int)
    requires
        v.wf(),
        0 <= i < v.blocks.len(),
    ensures
        !v.live(v.blocks[i].0 as int),
        v.blocks[i].0 > 0 ==> v.live(v.blocks[i].0 - 1),
        v.live(v.blocks[i].0 + v.blocks[i].1),
{
    let b = v.blocks[i];
    assert(v.in_block(i, b.0 as int));
    if v.covered(b.0 - 1) {
        let k = choose|k: int| 0 <= k < v.blocks.len() && #[trigger] v.in_block(k, b.0 - 1);
        assert(v.blocks[k].1 > 0);
        assert(k < i || k == i || i < k);
    }
    if v.covered(b.0 + b.1) {
        let k = choose|k: int|
            0 <= k < v.blocks.len() && #[trigger] v.in_block(k, b.0 + b.1);
        assert(v.blocks[k].1 > 0);
        assert(k < i || k == i || i < k);
    }
}

/// A free byte below the mark lies in a block.
proof fn lemma_block_of(v: Ranges, x: int) -> (m: int)
    requires
        v.wf(),
        0 <= x < v.offset,
        !v.live(x),
    ensures
        0 <= m < v.blocks.len(),
        v.in_block(m, x),
{
    choose|m: int| 0 <= m < v.blocks.len() && #[trigger] v.in_block(m, x)
}

/// The first `k` blocks agree when the same bytes are handed out.
proof fn lemma_same_prefix(a: Ranges, b: Ranges, k: int)
    requires
        a.wf(),
        b.wf(),
        a.offset == b.offset,
        forall|x: int| #[trigger] a.live(x) <==> b.live(x),
        0 <= k <= a.blocks.len(),
    ensures
        k <= b.blocks.len(),
        forall|i: int| 0 <= i < k ==> #[trigger] a.blocks[i] == b.blocks[i],
    decreases k,
{
    if k > 0 {
        lemma_same_prefix(a, b, k - 1);
        let p = a.blocks[k - 1];
        lemma_edge(a, k - 1);
        assert(!b.live(p.0 as int));
        let m = lemma_block_of(b, p.0 as int);
        if m < k - 1 {
            assert(a.blocks[m] == b.blocks[m]);
            assert(a.blocks[m].0 + a.blocks[m].1 < a.blocks[k - 1].0);
        }
        let q = b.blocks[k - 1];
        lemma_edge(b, k - 1);
        if q.0 < p.0 {
            assert(!a.live(q.0 as int));
            let n = lemma_block_of(a, q.0 as int);
            if n < k - 1 {
                assert(a.blocks[n] == b.blocks[n]);
                assert(b.blocks[n].0 + b.blocks[n].1 < b.blocks[k - 1].0);
            } else if n > k - 1 {
                assert(a.blocks[k - 1].0 + a.blocks[k - 1].1 < a.blocks[n].0);
            }
        }
        if m > k - 1 {
            assert(b.blocks[k - 1].0 + b.blocks[k - 1].1 < b.blocks[m].0);
        }
        assert(q.0 == p.0);
        assert(b.live(q.0 + q.1));
        if p.1 < q.1 {
            assert(a.live(p.0 + p.1));
            assert(b.in_block(k - 1, p.0 + p.1));
        }
        if q.1 < p.1 {
            assert(a.in_block(k - 1, q.0 + q.1));
            assert(!a.live(q.0 + q.1));
        }
    }
}

/// The free list is a normal form: two allocators of the same size that have
/// the same bytes handed out are in the same state. So free neighbours are
/// always merged, and the mark is always as low as it can be.
pub proof fn law_state_is_what_is_handed_out(a: Ranges, b: Ranges)
    requires
        a.wf(),
        b.wf(),
        a.capacity == b.capacity,
        forall|x: int| #[trigger] a.live(x) <==> b.live(x),
    ensures
        a == b,
{
    lemma_top(a);
    lemma_top(b);
    if a.offset < b.offset {
        assert(!a.live(b.offset - 1));
    }
    if b.offset < a.offset {
        assert(a.live(a.offset - 1));
        assert(!b.live(a.offset - 1));
    }
    lemma_same_prefix(a, b, a.blocks.len() as int);
    lemma_same_prefix(b, a, b.blocks.len() as int);
    assert(a.blocks =~= b.blocks);
}

/// Where a block fits there is a tightest among the first `k`.
proof fn lemma_some_tightest(v: Ranges, need: int, k: int) -> (i: int)
    requires
        0 <= k <= v.blocks.len(),
        exists|j: int| 0 <= j < k && #[trigger] v.blocks[j].1 >= need,
    ensures
        0 <= i < k,
        v.blocks[i].1 >= need,
        forall|j: int|
            #![trigger v.blocks[j]]
            0 <= j < k && v.blocks[j].1 >= need ==> v.blocks[i].1 <= v.blocks[j].1 && (j < i
                ==> v.blocks[i].1 < v.blocks[j].1),
    decreases k,
{
    if exists|j: int| 0 <= j < k - 1 && #[trigger] v.blocks[j].1 >= need {
        let i = lemma_some_tightest(v, need, k - 1);
        if v.blocks[k - 1].1 >= need && v.blocks[k - 1].1 < v.blocks[i].1 {
            k - 1
        } else {
            i
        }
    } else {
        let j = choose|j: int| 0 <= j < k && #[trigger] v.blocks[j].1 >= need;
        assert(j == k - 1);
        k - 1
    }
}

/// Every request has an answer and an outcome.
pub(crate) proof fn lemma_answer_is_allocated(v: Ranges, bytes: int)
    ensures
        allocated(v, bytes, v.answer(bytes), v.grant(bytes)),
{
    let need = aligned(bytes);
    if v.fits(need) {
        let i = lemma_some_tightest(v, need, v.blocks.len() as int);
        assert(v.is_tightest(i, need));
        let j = choose|j: int| v.is_tightest(j, need);
        assert(v.is_tightest(j, need));
    }
}

/// What an allocation does to the bytes handed out.
pub(crate) proof fn lemma_allocated(pre: Ranges, bytes: int, off: usize, post: Ranges)
    requires
        pre.wf(),
        bytes >= 0,
        allocated(pre, bytes, Ok(off), post),
    ensures
        post.wf(),
        post.capacity == pre.capacity,
        off + aligned(bytes) <= pre.capacity,
        forall|x: int| off <= x < off + aligned(bytes) ==> !#[trigger] pre.live(x),
        forall|x: int| #[trigger]
            post.live(x) <==> pre.live(x) || off <= x < off + aligned(bytes),
        post.used() == pre.used() + aligned(bytes),
{
    let need = aligned(bytes);
    if pre.fits(need) {
        let i = choose|i: int| #[trigger]
            pre.is_tightest(i, need) && Ok::<usize, VugvaError>(off) == Ok::<usize, VugvaError>(
                pre.blocks[i].0,
            ) && post == pre.cut(i, need);
        lemma_cut(pre, i, need);
    } else {
        lemma_extend(pre, need);
    }
}

/// Where the blocks that start below `off` end, among the first `k`.
proof fn lemma_split(v: Ranges, off: int, k: int) -> (pos: int)
    requires
        v.wf(),
        0 <= k <= v.blocks.len(),
    ensures
        0 <= pos <= k,
        forall|j: int| 0 <= j < pos ==> (#[trigger] v.blocks[j]).0 < off,
        forall|j: int| pos <= j < k ==> (#[trigger] v.blocks[j]).0 >= off,
    decreases k,
{
    if k == 0 {
        0
    } else if v.blocks[k - 1].0 < off {
        assert forall|j: int| 0 <= j < k implies (#[trigger] v.blocks[j]).0 < off by {
            if j < k - 1 {
                assert(v.blocks[j].0 + v.blocks[j].1 < v.blocks[k - 1].0);
            }
        }
        k
    } else {
        lemma_split(v, off, k - 1)
    }
}

/// There is an outcome of every release, and it keeps the size.
pub(crate) proof fn lemma_give_back(v: Ranges, off: int, bytes: int)
    requires
        v.wf(),
    ensures
        v.give_back(off, bytes).wf(),
        freed(v, off, bytes, v.give_back(off, bytes)),
        v.give_back(off, bytes).capacity == v.capacity,
{
    let len = aligned(bytes);
    if len > 0 && v.live_range(off, len) {
        assert(v.live(off));
        assert(v.live(off + len - 1));
        let pos = lemma_split(v, off, v.blocks.len() as int);
        if pos > 0 {
            assert(v.blocks[pos - 1].0 < off);
            if v.blocks[pos - 1].0 + v.blocks[pos - 1].1 > off {
                assert(v.in_block(pos - 1, off));
            }
        }
        if pos < v.blocks.len() {
            let b = v.blocks[pos].0 as int;
            assert(v.blocks[pos].1 > 0);
            assert(v.in_block(pos, b));
            if b < off + len {
                assert(v.live(b));
            }
        }
        let left = pos > 0 && v.blocks[pos - 1].0 + v.blocks[pos - 1].1 == off;
        let right = pos < v.blocks.len() && off + len == v.blocks[pos].0;
        let start = if left {
            v.blocks[pos - 1].0
        } else {
            off as usize
        };
        let end = if right {
            (off + len + v.blocks[pos].1) as usize
        } else {
            (off + len) as usize
        };
        let lo = if left {
            pos - 1
        } else {
            pos
        };
        let hi = if right {
            pos + 1
        } else {
            pos
        };
        assert forall|x: int|
            start <= x < end && !(off <= x < off + len) implies #[trigger] v.covered(x) by {
            if x < off {
                assert(v.in_block(pos - 1, x));
            } else {
                assert(v.in_block(pos, x));
            }
        }
        lemma_release(v, off, len, lo, hi, start, end);
        if end == v.offset {
            assert(freed(v, off, bytes, v.retracted(lo, start)));
        } else {
            assert(freed(v, off, bytes, v.spliced(lo, hi, start, end)));
        }
    } else {
        assert(freed(v, off, bytes, v));
    }
}

/// Giving back what was just handed out leads back to where it was.
pub(crate) proof fn lemma_free_after_allocate(pre: Ranges, bytes: int, off: usize, mid: Ranges)
    requires
        pre.wf(),
        bytes >= 0,
        allocated(pre, bytes, Ok(off), mid),
    ensures
        freed(mid, off as int, bytes, pre),
{
    lemma_allocated(pre, bytes, off, mid);
    assert(mid.live_range(off as int, aligned(bytes))) by {
        assert forall|x: int| off <= x < off + aligned(bytes) implies #[trigger] mid.live(x) by {}
    }
    assert forall|x: int| #[trigger]
        pre.live(x) <==> mid.live(x) && !(off <= x < off + aligned(bytes)) by {
        assert(mid.live(x) <==> pre.live(x) || off <= x < off + aligned(bytes));
    }
    if aligned(bytes) == 0 {
        law_state_is_what_is_handed_out(mid, pre);
    }
}

/// Giving back what was just handed out restores the state: capacity bounds
/// what is in use at a time, not what is handed out over a lifetime.
pub proof fn law_free_undoes_allocate(
    pre: Ranges,
    bytes: int,
    off: usize,
    mid: Ranges,
    post: Ranges,
)
    requires
        pre.wf(),
        bytes >= 0,
        allocated(pre, bytes, Ok(off), mid),
        freed(mid, off as int, bytes, post),
        post.wf(),
    ensures
        post == pre,
{
    lemma_allocated(pre, bytes, off, mid);
    assert(mid.live_range(off as int, aligned(bytes))) by {
        assert forall|x: int| off <= x < off + aligned(bytes) implies #[trigger] mid.live(x) by {}
    }
    assert forall|x: int| #[trigger] post.live(x) <==> pre.live(x) by {
        assert(mid.live(x) <==> pre.live(x) || off <= x < off + aligned(bytes));
        if off <= x < off + aligned(bytes) {
            assert(!pre.live(x));
        }
    }
    law_state_is_what_is_handed_out(post, pre);
}

/// Two allocations in a row never share a byte.
pub proof fn law_allocations_are_disjoint(
    pre: Ranges,
    bytes1: int,
    off1: usize,
    mid: Ranges,
    bytes2: int,
    off2: usize,
    post: Ranges,
)
    requires
        pre.wf(),
        bytes1 >= 0,
        bytes2 >= 0,
        allocated(pre, bytes1, Ok(off1), mid),
        allocated(mid, bytes2, Ok(off2), post),
    ensures
        forall|x: int|
            !(off1 <= x < off1 + aligned(bytes1) && #[trigger] post.live(x) && off2 <= x < off2
                + aligned(bytes2)),
{
    lemma_allocated(pre, bytes1, off1, mid);
    lemma_allocated(mid, bytes2, off2, post);
    assert forall|x: int|
        !(off1 <= x < off1 + aligned(bytes1) && #[trigger] post.live(x) && off2 <= x < off2
            + aligned(bytes2)) by {
        if off1 <= x < off1 + aligned(bytes1) {
            assert(mid.live(x));
        }
    }
}

/// Giving back the same range twice does nothing the second time.
pub proof fn law_double_free_is_ignored(
    pre: Ranges,
    off: int,
    bytes: int,
    mid: Ranges,
    post: Ranges,
)
    requires
        freed(pre, off, bytes, mid),
        freed(mid, off, bytes, post),
    ensures
        post == mid,
{
    let len = aligned(bytes);
    if len > 0 && pre.live_range(off, len) {
        assert(!mid.live(off));
    }
}

/// An allocator with nothing handed out is as good as new.
pub proof fn law_empty_is_fresh(v: Ranges)
    requires
        v.wf(),
        forall|x: int| !#[trigger] v.live(x),
    ensures
        v == (Ranges { capacity: v.capacity, offset: 0, blocks: Seq::empty() }),
{
    let fresh = Ranges { capacity: v.capacity, offset: 0, blocks: Seq::empty() };
    law_state_is_what_is_handed_out(v, fresh);
}

/// Allocations start on a line boundary, as long as every range given back did.
pub proof fn law_allocations_are_aligned(pre: Ranges, bytes: int, off: usize, post: Ranges)
    requires
        pre.wf(),
        pre.by_lines(),
        bytes >= 0,
        allocated(pre, bytes, Ok(off), post),
    ensures
        off % ALIGN == 0,
        post.by_lines(),
{
    lemma_allocated(pre, bytes, off, post);
    let need = aligned(bytes);
    assert(!pre.live(off as int) && (off > 0 ==> pre.live(off - 1))) by {
        lemma_top(pre);
        if pre.fits(need) {
            let i = choose|i: int| #[trigger]
                pre.is_tightest(i, need) && Ok::<usize, VugvaError>(off) == Ok::<
                    usize,
                    VugvaError,
                >(pre.blocks[i].0) && post == pre.cut(i, need);
            lemma_edge(pre, i);
        }
    }
    if off as int % 64 != 0 {
        assert((off - 1) / 64 == off as int / 64);
        assert(pre.live(off - 1) <==> pre.live(off as int));
    }
    assert forall|x: int, y: int|
        #![trigger post.live(x), post.live(y)]
        0 <= x && 0 <= y && x / ALIGN as int == y / ALIGN as int implies (post.live(x)
        <==> post.live(y)) by {
        assert(pre.live(x) <==> pre.live(y));
        lemma_same_line(off as int, need, x, y);
    }
}

/// A run of whole lines holds both of two bytes in one line, or neither.
proof fn lemma_same_line(off: int, len: int, x: int, y: int)
    requires
        off % ALIGN as int == 0,
        len % ALIGN as int == 0,
        x / ALIGN as int == y / ALIGN as int,
    ensures
        off <= x < off + len <==> off <= y < off + len,
{
}

/// Giving back a range that starts on a line boundary keeps lines whole.
pub proof fn law_aligned_frees_keep_lines(pre: Ranges, off: int, bytes: int, post: Ranges)
    requires
        pre.by_lines(),
        off >= 0,
        off % ALIGN as int == 0,
        freed(pre, off, bytes, post),
    ensures
        post.by_lines(),
{
    assert forall|x: int, y: int|
        #![trigger post.live(x), post.live(y)]
        0 <= x && 0 <= y && x / ALIGN as int == y / ALIGN as int implies (post.live(x)
        <==> post.live(y)) by {
        assert(pre.live(x) <==> pre.live(y));
        lemma_same_line(off, aligned(bytes), x, y);
    }
}

/// A fresh allocator has its lines whole.
pub proof fn law_fresh_is_by_lines(capacity: usize)
    ensures
        (Ranges { capacity, offset: 0, blocks: Seq::empty() }).by_lines(),
{
}

/// The bytes below `bound` that are free, and those that are not, make up
/// `bound`.
proof fn lemma_count(v: Ranges, k: int)
    requires
        v.wf(),
        0 <= k <= v.blocks.len(),
    ensures
        ({
            let bound = if k == 0 {
                0
            } else {
                v.blocks[k - 1].0 + v.blocks[k - 1].1
            };
            vstd::set_lib::set_int_range(0, bound).filter(|x: int| v.live(x)).len() == bound - total_len(
                v.blocks.take(k),
            )
        }),
    decreases k,
{
    if k == 0 {
        assert(vstd::set_lib::set_int_range(0, 0).filter(|x: int| v.live(x)) =~= Set::empty());
        assert(v.blocks.take(0).len() == 0);
    } else {
        lemma_count(v, k - 1);
        assert(v.blocks.take(k).drop_last() =~= v.blocks.take(k - 1));
        let prev = if k == 1 {
            0
        } else {
            v.blocks[k - 2].0 + v.blocks[k - 2].1
        };
        let b = v.blocks[k - 1];
        if k > 1 {
            assert(v.blocks[k - 2].0 + v.blocks[k - 2].1 < v.blocks[k - 1].0);
        }
        let below = vstd::set_lib::set_int_range(0, prev).filter(|x: int| v.live(x));
        let between = vstd::set_lib::set_int_range(prev, b.0 as int);
        let all = vstd::set_lib::set_int_range(0, b.0 + b.1).filter(|x: int| v.live(x));
        assert forall|x: int| prev <= x < b.0 implies #[trigger] v.live(x) by {
            if v.covered(x) {
                let j = choose|j: int| 0 <= j < v.blocks.len() && #[trigger] v.in_block(j, x);
                assert(v.blocks[j].1 > 0);
                if j < k - 2 {
                    assert(v.blocks[j].0 + v.blocks[j].1 < v.blocks[k - 2].0);
                }
            }
        }
        assert forall|x: int| b.0 <= x < b.0 + b.1 implies !#[trigger] v.live(x) by {
            assert(v.in_block(k - 1, x));
        }
        assert(all =~= below + between);
        assert(below.disjoint(between));
        vstd::set_lib::lemma_int_range(0, prev);
        vstd::set_lib::set_int_range(0, prev).lemma_len_filter(|x: int| v.live(x));
        vstd::set_lib::lemma_int_range(prev, b.0 as int);
        vstd::set_lib::lemma_set_disjoint_lens(below, between);
    }
}

/// `used` is the number of bytes handed out.
pub proof fn law_used_counts_live_bytes(v: Ranges)
    requires
        v.wf(),
    ensures
        v.used() == v.live_bytes().len(),
{
    let n = v.blocks.len() as int;
    lemma_count(v, n);
    assert(v.blocks.take(n) =~= v.blocks);
    let top = if n == 0 {
        0
    } else {
        v.blocks[n - 1].0 + v.blocks[n - 1].1
    };
    let below = vstd::set_lib::set_int_range(0, top).filter(|x: int| v.live(x));
    let above = vstd::set_lib::set_int_range(top, v.offset as int);
    assert forall|x: int| top <= x < v.offset implies #[trigger] v.live(x) by {
        if v.covered(x) {
            let j = choose|j: int| 0 <= j < v.blocks.len() && #[trigger] v.in_block(j, x);
            if j < n - 1 {
                assert(v.blocks[j].0 + v.blocks[j].1 < v.blocks[n - 1].0);
            }
        }
    }
    assert(v.live_bytes() =~= below + above);
    assert(below.disjoint(above));
    vstd::set_lib::lemma_int_range(0, top);
    vstd::set_lib::set_int_range(0, top).lemma_len_filter(|x: int| v.live(x));
    vstd::set_lib::lemma_int_range(top, v.offset as int);
    vstd::set_lib::lemma_set_disjoint_lens(below, above);
}

/// Giving back a range that is handed out lowers `used` by its length.
pub proof fn law_free_returns_bytes(pre: Ranges, off: int, bytes: int, post: Ranges)
    requires
        pre.wf(),
        post.wf(),
        aligned(bytes) > 0,
        pre.live_range(off, aligned(bytes)),
        freed(pre, off, bytes, post),
    ensures
        post.used() == pre.used() - aligned(bytes),
{
    let len = aligned(bytes);
    let gone = vstd::set_lib::set_int_range(off, off + len);
    law_used_counts_live_bytes(pre);
    law_used_counts_live_bytes(post);
    assert(pre.live(off));
    assert(pre.live(off + len - 1));
    assert(pre.live_bytes() =~= post.live_bytes() + gone) by {
        assert forall|x: int| pre.live_bytes().contains(x) implies (post.live_bytes()
            + gone).contains(x) by {
            assert(post.live(x) <==> pre.live(x) && !(off <= x < off + len));
        }
        assert forall|x: int| (post.live_bytes() + gone).contains(x) implies
            pre.live_bytes().contains(x) by {
            if gone.contains(x) {
                assert(pre.live(x));
            } else {
                assert(post.live(x) <==> pre.live(x) && !(off <= x < off + len));
            }
        }
    }
    assert(post.live_bytes().disjoint(gone)) by {
        assert forall|x: int| gone.contains(x) implies !post.live_bytes().contains(x) by {
            assert(!post.live(x));
        }
    }
    vstd::set_lib::lemma_int_range(0, post.offset as int);
    vstd::set_lib::set_int_range(0, post.offset as int).lemma_len_filter(|x: int| post.live(x));
    vstd::set_lib::lemma_int_range(off, off + len);
    vstd::set_lib::lemma_set_disjoint_lens(post.live_bytes(), gone);
}

/// What is rounded up holds at least what was asked for, less than a line more,
/// and whole lines.
pub proof fn law_requests_are_rounded_up(bytes: int)
    requires
        bytes >= 0,
    ensures
        bytes <= aligned(bytes) < bytes + 64,
        aligned(bytes) % 64 == 0,
{
}

/// A request is refused only for want of room: where every run of bytes of the
/// size that is needed has a byte in it that is handed out. The refusal says what
/// was needed and what there is, and changes nothing.
pub proof fn law_requests_are_refused_for_want_of_room(
    pre: Ranges,
    bytes: int,
    e: VugvaError,
    post: Ranges,
    off: int,
)
    requires
        pre.wf(),
        bytes >= 0,
        allocated(pre, bytes, Err(e), post),
        0 <= off,
        off + aligned(bytes) <= pre.capacity,
    ensures
        exists|x: int| off <= x < off + aligned(bytes) && #[trigger] pre.live(x),
        post == pre,
        e matches VugvaError::DramOom { requested, available, capacity } && requested
            == aligned(bytes) as usize && available == (pre.capacity - pre.used()) as usize
            && capacity == pre.capacity,
{
    let need = aligned(bytes);
    law_requests_are_rounded_up(bytes);
    assert(!pre.fits(need));
    assert(need > 0);
    if off < pre.offset && !pre.live(off) {
        assert(pre.covered(off));
        let i = choose|i: int| 0 <= i < pre.blocks.len() && #[trigger] pre.in_block(i, off);
        let end = pre.blocks[i].0 + pre.blocks[i].1;
        assert(pre.blocks[i].1 < need);
        assert(!pre.covered(end)) by {
            if pre.covered(end) {
                let j = choose|j: int| 0 <= j < pre.blocks.len() && #[trigger] pre.in_block(j, end);
                assert(pre.blocks[j].0 <= end);
                if j < i {
                    assert(pre.blocks[j].0 + pre.blocks[j].1 < pre.blocks[i].0);
                } else if i < j {
                    assert(pre.blocks[i].0 + pre.blocks[i].1 < pre.blocks[j].0);
                }
            }
        }
        assert(pre.live(end));
    } else if off < pre.offset {
        assert(pre.live(off));
    }
}

/// A request takes a free block of the least size that will do, the first of
/// those of that size, from its start on, and only where none will do bytes that
/// were never handed out.
pub proof fn law_requests_take_the_tightest_block(
    pre: Ranges,
    bytes: int,
    off: usize,
    post: Ranges,
)
    requires
        allocated(pre, bytes, Ok(off), post),
    ensures
        (exists|i: int|
            {
                &&& 0 <= i < pre.blocks.len()
                &&& (#[trigger] pre.blocks[i]).0 == off
                &&& pre.blocks[i].1 >= aligned(bytes)
                &&& forall|j: int|
                    0 <= j < pre.blocks.len() && (#[trigger] pre.blocks[j]).1 >= aligned(bytes)
                        ==> pre.blocks[j].1 > pre.blocks[i].1 || pre.blocks[j].1
                        == pre.blocks[i].1 && j >= i
            }) || (off == pre.offset && forall|j: int|
            0 <= j < pre.blocks.len() ==> (#[trigger] pre.blocks[j]).1 < aligned(bytes)),
{
    let need = aligned(bytes);
    if pre.fits(need) {
        let i = choose|i: int| #[trigger]
            pre.is_tightest(i, need) && Ok::<usize, VugvaError>(off) == Ok::<usize, VugvaError>(
                pre.blocks[i].0,
            ) && post == pre.cut(i, need);
        assert(pre.blocks[i].0 == off);
    } else {
        assert forall|j: int| 0 <= j < pre.blocks.len() implies (#[trigger] pre.blocks[j]).1
            < need by {}
    }
}

/// A range is given back as a whole or not at all: where all of its bytes are
/// handed out, none of them is any more, and where one is not, nothing changes.
/// No other byte is touched.
pub proof fn law_ranges_go_back_whole(pre: Ranges, off: int, bytes: int, post: Ranges, x: int)
    requires
        bytes > 0,
        freed(pre, off, bytes, post),
    ensures
        (forall|y: int| off <= y < off + aligned(bytes) ==> #[trigger] pre.live(y)) && off <= x
            < off + aligned(bytes) ==> !post.live(x),
        (exists|y: int| off <= y < off + aligned(bytes) && !#[trigger] pre.live(y)) ==> post
            == pre,
        !(off <= x < off + aligned(bytes)) ==> (post.live(x) <==> pre.live(x)),
        post.capacity == pre.capacity,
{
    law_requests_are_rounded_up(bytes);
}

} // verus!
