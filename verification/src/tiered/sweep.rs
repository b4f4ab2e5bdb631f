//! Sweeps: bringing the placement of all pages up to date.
//!
//! A sweep is a list of moves. Without placement by rate, pages that are idle
//! are demoted and pages that are hot are promoted. With it, the membrane says
//! which pages are to be on a device, and the moves make it so: demotions come
//! first, so that what a promotion needs is free already.

use crate::error::{self, Failure, VugvaError};
use crate::name_map;
use crate::ranking;
use crate::tiered::model::Pool;
use crate::tiered::TieredPool;
use crate::vmt::{self, Page, PageState, PageView, Tier};
use vstd::prelude::*;
use vstd::string::*;

verus! {

/// What the policy sees of a page.
#[derive(Debug)]
pub struct PageObs {
    /// The page.
    pub name: String,
    /// Its access rate, if it has one, as the bits that represent it.
    pub rate: Option<u64>,
    /// Its size in bytes.
    pub bytes: usize,
    /// It is on a device.
    pub resident: bool,
    /// It must not be demoted.
    pub pinned: bool,
}

/// How pages are placed by a sweep.
#[derive(Debug, Clone, Copy, PartialEq, Eq, Structural)]
pub enum SweepKind {
    /// By how long they were not used and how often they were.
    ByIdleTime,
    /// By access rate, within that many bytes of device memory.
    ByRate(usize),
}

/// A sweep under way.
#[derive(Debug)]
pub struct Sweep {
    /// Pages to demote.
    pub demote: Vec<String>,
    /// Pages to promote.
    pub promote: Vec<String>,
    /// Moves are made only where the page is not where it is to be, and a
    /// promotion that fails does not end the sweep.
    pub lenient: bool,
    /// Moves that are behind, made or passed over.
    pub at: usize,
}

/// What a [`Sweep`] stands for.
#[verifier::ext_equal]
pub struct Moves {
    /// Pages to demote.
    pub demote: Seq<Seq<char>>,
    /// Pages to promote.
    pub promote: Seq<Seq<char>>,
    /// Moves are made only where they change something.
    pub lenient: bool,
    /// Moves that are behind.
    pub at: int,
}

impl Moves {
    /// A failure of the move before ends the sweep.
    pub open spec fn ends_with_failure(self) -> bool {
        !(self.lenient && self.at > self.demote.len())
    }
}

impl View for Sweep {
    type V = Moves;

    open spec fn view(&self) -> Moves {
        Moves {
            demote: ranking::texts(self.demote@),
            promote: ranking::texts(self.promote@),
            lenient: self.lenient,
            at: self.at as int,
        }
    }
}

/// What comes next in a sweep.
#[derive(Debug)]
pub enum SweepStep {
    /// Demote a page.
    Demote(String),
    /// Promote a page to the first GPU.
    Promote(String),
    /// The sweep is over.
    Finished(Result<(), VugvaError>),
}

/// What a [`SweepStep`] stands for.
pub enum Move {
    /// Demote a page.
    Demote(Seq<char>),
    /// Promote a page.
    Promote(Seq<char>),
    /// The sweep is over.
    Finished(Result<(), Failure>),
}

impl View for SweepStep {
    type V = Move;

    open spec fn view(&self) -> Move {
        match *self {
            SweepStep::Demote(n) => Move::Demote(n@),
            SweepStep::Promote(n) => Move::Promote(n@),
            SweepStep::Finished(r) => Move::Finished(error::outcome(r)),
        }
    }
}

impl Pool {
    /// The page is to be demoted for not being used.
    pub open spec fn is_stale(self, name: Seq<char>, now: u64) -> bool {
        self.has(name) && self.page(name).state == PageState::Resident && self.page(name).idle(
            now,
            self.idle_threshold_ns,
        )
    }

    /// The page is to be promoted for being used often.
    pub open spec fn is_wanted(self, name: Seq<char>) -> bool {
        self.has(name) && self.page(name).tier == Tier::Dram && self.page(name).hot(
            self.hot_threshold,
        )
    }

    /// The page is on a device.
    pub open spec fn is_resident(self, name: Seq<char>) -> bool {
        self.has(name) && self.page(name).tier == Tier::Vram
    }

    /// The next move of a sweep, and how many moves are behind then.
    pub open spec fn next_move(self, m: Moves) -> (int, Move)
        decreases m.demote.len() + m.promote.len() - m.at,
    {
        let d = m.demote.len() as int;
        if m.at < d {
            let name = m.demote[m.at];
            if !m.lenient || self.is_resident(name) {
                (m.at + 1, Move::Demote(name))
            } else {
                self.next_move(Moves { at: m.at + 1, ..m })
            }
        } else if m.at < d + m.promote.len() {
            let name = m.promote[m.at - d];
            if !m.lenient || (self.has(name) && !self.is_resident(name)) {
                (m.at + 1, Move::Promote(name))
            } else {
                self.next_move(Moves { at: m.at + 1, ..m })
            }
        } else {
            (m.at, Move::Finished(Ok(())))
        }
    }
}

/// `names` has every name that satisfies `p`, each once, and no other.
pub open spec fn names_exactly(names: Seq<Seq<char>>, p: spec_fn(Seq<char>) -> bool) -> bool {
    &&& forall|n: Seq<char>| #[trigger] names.contains(n) <==> p(n)
    &&& forall|i: int, j: int|
        #![trigger names[i], names[j]]
        0 <= i < j < names.len() ==> names[i] != names[j]
}

/// The observation `o` says what there is to be said of page `name`.
pub open spec fn observes(o: PageObs, pool: Pool) -> bool {
    &&& pool.has(o.name@)
    &&& o.rate == pool.rates.rate_of(o.name@)
    &&& o.bytes == pool.page(o.name@).size_bytes
    &&& o.resident == pool.is_resident(o.name@)
    &&& o.pinned == pool.page(o.name@).pinned
}

/// What is observed of a page is its rate, its size, whether it is on a device
/// and whether it is pinned.
pub proof fn law_observations_tell_of_the_page(o: PageObs, pool: Pool)
    requires
        observes(o, pool),
    ensures
        pool.has(o.name@),
        o.rate is Some <==> pool.rates.rates.contains_key(o.name@),
        o.rate matches Some(rate) ==> rate == pool.rates.rates[o.name@],
        o.bytes == pool.page(o.name@).size_bytes,
        o.resident <==> pool.page(o.name@).tier == Tier::Vram,
        o.pinned == pool.page(o.name@).pinned,
{
}

/// A list of exactly the names that satisfy something has each of them at one
/// position, and no other name.
pub proof fn law_names_are_listed_once(
    names: Seq<Seq<char>>,
    p: spec_fn(Seq<char>) -> bool,
    name: Seq<char>,
    i: int,
    j: int,
)
    requires
        names_exactly(names, p),
        0 <= i < names.len(),
        0 <= j < names.len(),
    ensures
        p(name) ==> exists|k: int| 0 <= k < names.len() && #[trigger] names[k] == name,
        p(names[i]),
        names[i] == names[j] ==> i == j,
{
    assert(names.contains(names[i]));
    if p(name) {
        assert(names.contains(name));
    }
}

/// The names of the pages among the first `k` entries that satisfy `p`.
spec fn picked(
    entries: Seq<(String, Page)>,
    k: int,
    p: spec_fn(PageView) -> bool,
) -> Seq<Seq<char>>
    decreases k,
{
    if k <= 0 {
        seq![]
    } else if p(entries[k - 1].1@) {
        picked(entries, k - 1, p).push(entries[k - 1].0@)
    } else {
        picked(entries, k - 1, p)
    }
}

proof fn lemma_picked(
    entries: Seq<(String, Page)>,
    pages: Map<Seq<char>, PageView>,
    k: int,
    p: spec_fn(PageView) -> bool,
)
    requires
        vmt::lists(entries, pages),
        0 <= k <= entries.len(),
    ensures
        forall|n: Seq<char>| #[trigger]
            picked(entries, k, p).contains(n) <==> exists|i: int|
                0 <= i < k && (#[trigger] entries[i]).0@ == n && p(entries[i].1@),
        forall|i: int, j: int|
            #![trigger picked(entries, k, p)[i], picked(entries, k, p)[j]]
            0 <= i < j < picked(entries, k, p).len() ==> picked(entries, k, p)[i] != picked(
                entries,
                k,
                p,
            )[j],
    decreases k,
{
    if k > 0 {
        lemma_picked(entries, pages, k - 1, p);
        let before = picked(entries, k - 1, p);
        let after = picked(entries, k, p);
        let name = entries[k - 1].0@;
        assert forall|n: Seq<char>| #[trigger] after.contains(n) <==> exists|i: int|
            0 <= i < k && (#[trigger] entries[i]).0@ == n && p(entries[i].1@) by {
            if after.contains(n) {
                let m = choose|m: int| 0 <= m < after.len() && after[m] == n;
                if m < before.len() {
                    assert(before[m] == n);
                    assert(before.contains(n));
                } else {
                    assert(entries[k - 1].0@ == n);
                }
            }
            if exists|i: int|
                0 <= i < k && (#[trigger] entries[i]).0@ == n && p(entries[i].1@) {
                let i = choose|i: int|
                    0 <= i < k && (#[trigger] entries[i]).0@ == n && p(entries[i].1@);
                if i < k - 1 {
                    assert(before.contains(n));
                    let m = choose|m: int| 0 <= m < before.len() && before[m] == n;
                    assert(after[m] == n);
                } else {
                    assert(after[after.len() - 1] == n);
                }
            }
        }
        if p(entries[k - 1].1@) {
            assert forall|i: int| 0 <= i < before.len() implies #[trigger] before[i] != name by {
                if before[i] == name {
                    assert(before.contains(name));
                    let e = choose|e: int|
                        0 <= e < k - 1 && (#[trigger] entries[e]).0@ == name && p(entries[e].1@);
                    assert(entries[e].0@ != entries[k - 1].0@);
                }
            }
        }
    }
}

/// The names picked from all entries are exactly those of the pages that
/// satisfy `p`.
proof fn lemma_picked_exactly(
    entries: Seq<(String, Page)>,
    pages: Map<Seq<char>, PageView>,
    p: spec_fn(PageView) -> bool,
    q: spec_fn(Seq<char>) -> bool,
)
    requires
        vmt::lists(entries, pages),
        forall|n: Seq<char>| #[trigger] q(n) <==> pages.contains_key(n) && p(pages[n]),
    ensures
        names_exactly(picked(entries, entries.len() as int, p), q),
{
    let k = entries.len() as int;
    lemma_picked(entries, pages, k, p);
    let all = picked(entries, k, p);
    assert forall|n: Seq<char>| #[trigger] all.contains(n) <==> q(n) by {
        if all.contains(n) {
            let i = choose|i: int|
                0 <= i < k && (#[trigger] entries[i]).0@ == n && p(entries[i].1@);
            assert(pages[n] == entries[i].1@);
            assert(q(n));
        }
        if q(n) {
            let i = choose|i: int| name_map::entry_at(entries, n, i);
            assert(entries[i].0@ == n);
            assert(pages[n] == entries[i].1@);
        }
    }
}

impl TieredPool {
    /// How a sweep is to place the pages: by rate where that is enabled.
    pub fn sweep_kind(&self) -> (r: SweepKind)
        ensures
            r == match self@.membrane_budget {
                Some(budget) => SweepKind::ByRate(budget),
                None => SweepKind::ByIdleTime,
            },
    {
        match self.membrane_budget {
            Some(budget) => SweepKind::ByRate(budget),
            None => SweepKind::ByIdleTime,
        }
    }

    /// The moves of a sweep without placement by rate: pages that were not used
    /// for too long are demoted, pages in host memory that are used often are
    /// promoted.
    pub fn idle_sweep(&self, now: u64) -> (r: Sweep)
        requires
            self.wf(),
        ensures
            names_exactly(r@.demote, |n: Seq<char>| self@.is_stale(n, now)),
            names_exactly(r@.promote, |n: Seq<char>| self@.is_wanted(n)),
            !r@.lenient,
            r@.at == 0,
    {
        let entries = self.vmt.entries();
        let ghost stale = |p: PageView|
            p.state == PageState::Resident && p.idle(now, self.idle_threshold_ns);
        let ghost wanted = |p: PageView| p.tier == Tier::Dram && p.hot(self.hot_threshold);
        let mut demote: Vec<String> = Vec::new();
        let mut promote: Vec<String> = Vec::new();
        let mut i: usize = 0;
        assert(ranking::texts(demote@) =~= picked(entries@, 0, stale));
        assert(ranking::texts(promote@) =~= picked(entries@, 0, wanted));
        while i < entries.len()
            invariant
                i <= entries@.len(),
                stale == (|p: PageView|
                    p.state == PageState::Resident && p.idle(now, self.idle_threshold_ns)),
                wanted == (|p: PageView| p.tier == Tier::Dram && p.hot(self.hot_threshold)),
                ranking::texts(demote@) == picked(entries@, i as int, stale),
                ranking::texts(promote@) == picked(entries@, i as int, wanted),
            decreases entries@.len() - i,
        {
            let name = &entries[i].0;
            let page = &entries[i].1;
            let ghost before_demote = ranking::texts(demote@);
            let ghost before_promote = ranking::texts(promote@);
            if page.state == PageState::Resident && page.is_idle(now, self.idle_threshold_ns) {
                demote.push(name.clone());
                assert(ranking::texts(demote@) =~= before_demote.push(name@));
            }
            if page.tier == Tier::Dram && page.is_hot(self.hot_threshold) {
                promote.push(name.clone());
                assert(ranking::texts(promote@) =~= before_promote.push(name@));
            }
            i = i + 1;
        }
        proof {
            lemma_picked_exactly(
                entries@,
                self@.table.pages,
                stale,
                |n: Seq<char>| self@.is_stale(n, now),
            );
            lemma_picked_exactly(
                entries@,
                self@.table.pages,
                wanted,
                |n: Seq<char>| self@.is_wanted(n),
            );
        }
        Sweep { demote, promote, lenient: false, at: 0 }
    }

    /// What the policy sees of all pages.
    pub fn observations(&self) -> (r: Vec<PageObs>)
        requires
            self.wf(),
        ensures
            forall|i: int| 0 <= i < r@.len() ==> observes(#[trigger] r@[i], self@),
            forall|i: int, j: int|
                #![trigger r@[i], r@[j]]
                0 <= i < j < r@.len() ==> r@[i].name@ != r@[j].name@,
            forall|n: Seq<char>| #[trigger]
                self@.has(n) ==> exists|i: int| 0 <= i < r@.len() && (#[trigger] r@[i]).name@ == n,
    {
        let entries = self.vmt.entries();
        let mut r: Vec<PageObs> = Vec::new();
        let mut i: usize = 0;
        while i < entries.len()
            invariant
                self.wf(),
                vmt::lists(entries@, self@.table.pages),
                i <= entries@.len(),
                r@.len() == i,
                forall|k: int|
                    #![trigger r@[k]]
                    0 <= k < i ==> observes(r@[k], self@) && r@[k].name@ == entries@[k].0@,
            decreases entries@.len() - i,
        {
            let name = &entries[i].0;
            let page = &entries[i].1;
            let rate = self.membrane.rate(name.as_str());
            assert(self@.page(entries@[i as int].0@) == page@);
            r.push(
                PageObs {
                    name: name.clone(),
                    rate,
                    bytes: page.size_bytes,
                    resident: page.tier == Tier::Vram,
                    pinned: page.pinned,
                },
            );
            i = i + 1;
        }
        proof {
            assert forall|a: int, b: int|
                #![trigger r@[a], r@[b]]
                0 <= a < b < r@.len() implies r@[a].name@ != r@[b].name@ by {
                assert(entries@[a].0@ != entries@[b].0@);
            }
            assert forall|n: Seq<char>| #[trigger] self@.has(n) implies exists|k: int|
                0 <= k < r@.len() && (#[trigger] r@[k]).name@ == n by {
                let k = choose|k: int| name_map::entry_at(entries@, n, k);
                assert(r@[k].name@ == n);
            }
        }
        r
    }

    /// The moves of a sweep with placement by rate.
    pub fn rate_sweep(keep: Vec<String>, evict: Vec<String>) -> (r: Sweep)
        ensures
            r@ == (Moves {
                demote: ranking::texts(evict@),
                promote: ranking::texts(keep@),
                lenient: true,
                at: 0,
            }),
    {
        Sweep { demote: evict, promote: keep, lenient: true, at: 0 }
    }

    /// The next move of a sweep, after the one before it was made. What the move
    /// before failed with, if it failed, ends the sweep, unless it was a
    /// promotion of a sweep by rate: the page stays where it is, and the next
    /// sweep tries again.
    pub fn background_sweep(&self, sweep: &mut Sweep, failure: Option<VugvaError>) -> (r: SweepStep)
        requires
            self.wf(),
            old(sweep)@.demote.len() + old(sweep)@.promote.len() < usize::MAX,
        ensures
            ({
                let m = old(sweep)@;
                match failure {
                    Some(e) if m.ends_with_failure() => {
                        &&& r@ == Move::Finished(Err(e@))
                        &&& final(sweep)@ == m
                    },
                    _ => {
                        &&& r@ == self@.next_move(m).1
                        &&& final(sweep)@ == (Moves { at: self@.next_move(m).0, ..m })
                    },
                }
            }),
    {
        let ghost m = sweep@;
        if let Some(e) = failure {
            if !(sweep.lenient && sweep.at > sweep.demote.len()) {
                return SweepStep::Finished(Err(e));
            }
        }
        let d: usize = sweep.demote.len();
        while sweep.at < d
            invariant
                self.wf(),
                d == m.demote.len(),
                sweep@ == (Moves { at: sweep.at as int, ..m }),
                self@.next_move(sweep@) == self@.next_move(m),
                m.demote.len() + m.promote.len() < usize::MAX,
                match failure {
                    Some(e) => m.lenient && m.at > m.demote.len(),
                    None => true,
                },
                m == old(sweep)@,
            decreases d - sweep.at,
        {
            let at: usize = sweep.at;
            sweep.at = at + 1;
            let resident = match self.vmt.lookup(sweep.demote[at].as_str()) {
                Some(page) => page.tier == Tier::Vram,
                None => false,
            };
            if !sweep.lenient || resident {
                return SweepStep::Demote(sweep.demote[at].clone());
            }
        }
        let n: usize = sweep.promote.len();
        while sweep.at >= d && sweep.at - d < n
            invariant
                self.wf(),
                d == m.demote.len(),
                n == m.promote.len(),
                sweep@ == (Moves { at: sweep.at as int, ..m }),
                sweep.at >= d,
                self@.next_move(sweep@) == self@.next_move(m),
                m.demote.len() + m.promote.len() < usize::MAX,
                match failure {
                    Some(e) => m.lenient && m.at > m.demote.len(),
                    None => true,
                },
                m == old(sweep)@,
            decreases d + n - sweep.at,
        {
            let at: usize = sweep.at;
            sweep.at = at + 1;
            let resident = match self.vmt.lookup(sweep.promote[at - d].as_str()) {
                Some(page) => page.tier == Tier::Vram,
                None => true,
            };
            if !sweep.lenient || !resident {
                return SweepStep::Promote(sweep.promote[at - d].clone());
            }
        }
        SweepStep::Finished(Ok(()))
    }
}

} // verus!
