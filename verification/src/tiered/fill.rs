//! Filling a page: where each byte of it goes.

use crate::error::{Failure, VugvaError};
use crate::text;
use crate::tiered::model::Pool;
use crate::tiered::TieredPool;
use crate::vmt::{DramChunk, Tier};
use vstd::prelude::*;
use vstd::string::*;

verus! {

/// A run of the data that is copied to host memory.
#[derive(Debug, Clone, Copy)]
pub struct HostCopy {
    /// Position in the data.
    pub from: usize,
    /// Address that it is copied to.
    pub host_ptr: usize,
    /// Number of bytes.
    pub bytes: usize,
}

/// What there is to do to fill a page.
#[derive(Debug)]
pub enum WritePlan {
    /// The page cannot be filled.
    Refused(VugvaError),
    /// The data is not of the size of the page. This is the text of an error for
    /// invalid input.
    WrongLength(String),
    /// Write all of the data to the backing file.
    ToSpill {
        /// Offset in the file.
        offset: u64,
        /// Number of bytes.
        bytes: usize,
    },
    /// Copy the data to host memory, run by run.
    ToHost {
        /// The runs.
        copies: Vec<HostCopy>,
        /// Where the runs do not cover the data, the text of an error for
        /// invalid data, which is due once they are copied.
        shortfall: Option<String>,
    },
}

/// What a [`WritePlan`] stands for.
#[verifier::ext_equal]
pub enum Filling {
    /// The page cannot be filled.
    Refused(Failure),
    /// The data is not of the size of the page.
    WrongLength(Seq<char>),
    /// Write all of the data to the backing file.
    ToSpill {
        /// Offset in the file.
        offset: u64,
        /// Number of bytes.
        bytes: usize,
    },
    /// Copy the data to host memory.
    ToHost {
        /// The runs.
        copies: Seq<HostCopy>,
        /// The text of the error where the runs do not cover the data.
        shortfall: Option<Seq<char>>,
    },
}

impl View for WritePlan {
    type V = Filling;

    open spec fn view(&self) -> Filling {
        match *self {
            WritePlan::Refused(e) => Filling::Refused(e@),
            WritePlan::WrongLength(t) => Filling::WrongLength(t@),
            WritePlan::ToSpill { offset, bytes } => Filling::ToSpill { offset, bytes },
            WritePlan::ToHost { copies, shortfall } => Filling::ToHost {
                copies: copies@,
                shortfall: match shortfall {
                    Some(t) => Some(t@),
                    None => None,
                },
            },
        }
    }
}

/// Bytes of `total` that `chunks` cover, each as far as it is needed.
pub open spec fn covered(chunks: Seq<DramChunk>, total: int) -> int
    decreases chunks.len(),
{
    if chunks.len() == 0 {
        0
    } else {
        let before = covered(chunks.drop_last(), total);
        if total - before <= chunks.last().size_bytes {
            total
        } else {
            before + chunks.last().size_bytes
        }
    }
}

/// The runs that fill `chunks` in order with `total` bytes. A piece for which
/// nothing is left, or that is empty, gets none.
pub open spec fn runs(chunks: Seq<DramChunk>, total: int) -> Seq<HostCopy>
    decreases chunks.len(),
{
    if chunks.len() == 0 {
        seq![]
    } else {
        let before = covered(chunks.drop_last(), total);
        let after = covered(chunks, total);
        if after > before {
            runs(chunks.drop_last(), total).push(
                HostCopy {
                    from: before as usize,
                    host_ptr: chunks.last().host_ptr,
                    bytes: (after - before) as usize,
                },
            )
        } else {
            runs(chunks.drop_last(), total)
        }
    }
}

/// Bytes of all `chunks` together.
pub open spec fn room(chunks: Seq<DramChunk>) -> int
    decreases chunks.len(),
{
    if chunks.len() == 0 {
        0
    } else {
        room(chunks.drop_last()) + chunks.last().size_bytes
    }
}

/// Bytes of all runs together.
pub open spec fn run_bytes(copies: Seq<HostCopy>) -> int
    decreases copies.len(),
{
    if copies.len() == 0 {
        0
    } else {
        run_bytes(copies.drop_last()) + copies.last().bytes
    }
}

/// The runs take the data from its start on, without a gap and without taking a
/// byte twice.
pub open spec fn consecutive(copies: Seq<HostCopy>) -> bool {
    forall|i: int|
        #![trigger copies[i]]
        0 <= i < copies.len() ==> copies[i].from == run_bytes(copies.take(i))
}

/// As much of a page is written as its host memory holds, byte for byte in the
/// order of the pieces; the page is written whole where its pieces hold it.
pub proof fn law_runs_cover_the_page(chunks: Seq<DramChunk>, total: int)
    requires
        0 <= total <= usize::MAX,
    ensures
        consecutive(runs(chunks, total)),
        run_bytes(runs(chunks, total)) == covered(chunks, total),
        covered(chunks, total) == if room(chunks) < total {
            room(chunks)
        } else {
            total
        },
        room(chunks) >= 0,
    decreases chunks.len(),
{
    if chunks.len() > 0 {
        let init = chunks.drop_last();
        law_runs_cover_the_page(init, total);
        let before = runs(init, total);
        let after = runs(chunks, total);
        if covered(chunks, total) > covered(init, total) {
            assert(after.drop_last() =~= before);
            assert forall|i: int| #![trigger after[i]] 0 <= i < after.len() implies after[i].from
                == run_bytes(after.take(i)) by {
                if i < before.len() {
                    assert(before[i].from == run_bytes(before.take(i)));
                    assert(before.take(i) =~= after.take(i));
                } else {
                    assert(after.take(i) =~= before);
                }
            }
        }
    }
}

/// Every run stays inside the piece it is copied to.
pub proof fn law_runs_stay_in_bounds(chunks: Seq<DramChunk>, total: int, k: int)
    requires
        0 <= total <= usize::MAX,
        0 <= k < runs(chunks, total).len(),
    ensures
        exists|i: int|
            0 <= i < chunks.len() && runs(chunks, total)[k].host_ptr == (
            #[trigger] chunks[i]).host_ptr && runs(chunks, total)[k].bytes <= chunks[i].size_bytes,
        runs(chunks, total)[k].from + runs(chunks, total)[k].bytes <= total,
    decreases chunks.len(),
{
    if chunks.len() > 0 {
        let init = chunks.drop_last();
        law_runs_cover_the_page(init, total);
        law_runs_cover_the_page(chunks, total);
        if k < runs(init, total).len() {
            law_runs_stay_in_bounds(init, total, k);
            let i = choose|i: int|
                0 <= i < init.len() && runs(init, total)[k].host_ptr == (
                #[trigger] init[i]).host_ptr && runs(init, total)[k].bytes <= init[i].size_bytes;
            assert(chunks[i] == init[i]);
        } else {
            assert(chunks[chunks.len() - 1] == chunks.last());
        }
    }
}

impl Pool {
    /// What there is to do to fill page `name` with `len` bytes of data.
    pub open spec fn write_page(self, name: Seq<char>, len: usize) -> Filling {
        let page = self.page(name);
        let total = page.size_bytes;
        if !self.has(name) {
            Filling::Refused(Failure::UnknownAllocation(name))
        } else if len != total {
            Filling::WrongLength(
                "write_page("@ + name + "): "@ + text::decimal(len as int) + " bytes for a "@
                    + text::decimal(total as int)
                    + "-byte page — a partial write would leave the tail undefined"@,
            )
        } else if page.tier == Tier::Ssd {
            match page.ssd_offset {
                None => Filling::Refused(
                    Failure::UnknownAllocation(
                        name + ": page is on Tier::Ssd but has no spill offset"@,
                    ),
                ),
                Some(offset) => if self.spill is None {
                    Filling::Refused(
                        Failure::UnknownAllocation(
                            name + ": page is on Tier::Ssd but no spill file is attached"@,
                        ),
                    )
                } else {
                    Filling::ToSpill { offset, bytes: total }
                },
            }
        } else {
            let written = covered(page.dram_chunks, total as int);
            Filling::ToHost {
                copies: runs(page.dram_chunks, total as int),
                shortfall: if written == total {
                    None
                } else {
                    Some(
                        "write_page("@ + name + "): DRAM chunks cover "@ + text::decimal(written)
                            + " of "@ + text::decimal(total as int)
                            + " bytes — the page's backing is short"@,
                    )
                },
            }
        }
    }
}

fn refusal(name: &str, why: &str) -> (r: WritePlan)
    ensures
        r@ == Filling::Refused(Failure::UnknownAllocation(name@ + why@)),
{
    let mut t: String = name.to_owned();
    t.append(why);
    WritePlan::Refused(VugvaError::UnknownAllocation(t))
}

impl TieredPool {
    /// What there is to do to fill a page with `len` bytes of data, wherever its
    /// home is. A page that is on a device keeps its copy there as it is.
    pub fn write_page(&self, name: &str, len: usize) -> (r: WritePlan)
        requires
            self.wf(),
        ensures
            r@ == self@.write_page(name@, len),
    {
        let page = match self.vmt.lookup(name) {
            Some(p) => p,
            None => {
                return WritePlan::Refused(VugvaError::UnknownAllocation(name.to_owned()));
            },
        };
        let total: usize = page.size_bytes;
        if len != total {
            let mut t: String = "write_page(".to_owned();
            t.append(name);
            t.append("): ");
            text::append_unsigned(&mut t, len as u64);
            t.append(" bytes for a ");
            text::append_unsigned(&mut t, total as u64);
            t.append("-byte page — a partial write would leave the tail undefined");
            return WritePlan::WrongLength(t);
        }
        if page.tier == Tier::Ssd {
            return match page.ssd_offset {
                None => refusal(name, ": page is on Tier::Ssd but has no spill offset"),
                Some(offset) => {
                    if self.spill.is_none() {
                        refusal(name, ": page is on Tier::Ssd but no spill file is attached")
                    } else {
                        WritePlan::ToSpill { offset, bytes: total }
                    }
                },
            };
        }
        let chunks = &page.dram_chunks;
        let mut copies: Vec<HostCopy> = Vec::new();
        let mut written: usize = 0;
        let mut i: usize = 0;
        assert(copies@ =~= runs(chunks@.take(0), total as int));
        while i < chunks.len()
            invariant
                i <= chunks@.len(),
                written <= total,
                written == covered(chunks@.take(i as int), total as int),
                copies@ == runs(chunks@.take(i as int), total as int),
            decreases chunks@.len() - i,
        {
            let chunk: DramChunk = chunks[i];
            proof {
                let u = chunks@.take(i + 1);
                assert(u.drop_last() =~= chunks@.take(i as int));
                assert(u.last() == chunk);
            }
            let bytes: usize = if total - written <= chunk.size_bytes {
                total - written
            } else {
                chunk.size_bytes
            };
            if bytes > 0 {
                copies.push(HostCopy { from: written, host_ptr: chunk.host_ptr, bytes });
                written = written + bytes;
            }
            i = i + 1;
        }
        assert(chunks@.take(i as int) =~= chunks@);
        if written == total {
            return WritePlan::ToHost { copies, shortfall: None };
        }
        let mut t: String = "write_page(".to_owned();
        t.append(name);
        t.append("): DRAM chunks cover ");
        text::append_unsigned(&mut t, written as u64);
        t.append(" of ");
        text::append_unsigned(&mut t, total as u64);
        t.append(" bytes — the page's backing is short");
        WritePlan::ToHost { copies, shortfall: Some(t) }
    }
}

/// A page is filled whole or not at all: data of another size is refused, as is
/// a page that is not known. A page in storage is written to its place there. Any
/// other is written to its host memory, in order, as far as that goes, and it is
/// told where it does not go all the way.
pub proof fn law_pages_are_filled_where_they_live(pool: Pool, name: Seq<char>, len: usize)
    ensures
        ({
            let page = pool.page(name);
            let plan = pool.write_page(name, len);
            &&& !pool.has(name) <==> plan == Filling::Refused(Failure::UnknownAllocation(name))
            &&& plan is WrongLength <==> pool.has(name) && len != page.size_bytes
            &&& plan is ToSpill <==> pool.has(name) && len == page.size_bytes && page.tier
                == Tier::Ssd && page.ssd_offset is Some && pool.spill is Some
            &&& plan is ToHost <==> pool.has(name) && len == page.size_bytes && page.tier
                != Tier::Ssd
            &&& plan matches Filling::ToSpill { offset, bytes } ==> page.ssd_offset == Some(
                offset,
            ) && bytes == len
            &&& plan matches Filling::ToHost { copies, shortfall } ==> {
                &&& consecutive(copies)
                &&& run_bytes(copies) <= len
                &&& run_bytes(copies) <= room(page.dram_chunks)
                &&& run_bytes(copies) == len || run_bytes(copies) == room(page.dram_chunks)
                &&& shortfall is None <==> run_bytes(copies) == len
            }
        }),
{
    let page = pool.page(name);
    law_runs_cover_the_page(page.dram_chunks, page.size_bytes as int);
    reveal_strlit(": page is on Tier::Ssd but has no spill offset");
    reveal_strlit(": page is on Tier::Ssd but no spill file is attached");
    let a = name + ": page is on Tier::Ssd but has no spill offset"@;
    let b = name + ": page is on Tier::Ssd but no spill file is attached"@;
    assert(a.len() > name.len());
    assert(b.len() > name.len());
}

} // verus!
