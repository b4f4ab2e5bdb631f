//! The tier membrane: which pages deserve device memory, by how often they are
//! used.
//!
//! Every page carries an access rate that decays while the page is not used.
//! Pages are ranked against each other, and device memory is filled from the
//! top of the ranking down. The rates and the scores made of them are
//! floating-point numbers: the membrane keeps a rate as the 64 bits that
//! represent it and ranks by an integer key that orders as the scores do.

use crate::name_map::{self, NameMap};
use crate::ranking::{self, Candidate};
use vstd::prelude::*;
use vstd::string::*;

verus! {

/// What a [`Membrane`] stands for.
#[verifier::ext_equal]
pub struct Rates {
    /// The rate of each page that had any access before the last sweep.
    pub rates: Map<Seq<char>, u64>,
    /// Accesses to each page since the last sweep.
    pub hits: Map<Seq<char>, u64>,
    /// Sweeps so far.
    pub sweeps: u64,
}

impl Rates {
    /// Nothing was ever accessed.
    pub open spec fn fresh() -> Rates {
        Rates { rates: Map::empty(), hits: Map::empty(), sweeps: 0 }
    }

    /// Accesses to `name` since the last sweep.
    pub open spec fn hits_of(self, name: Seq<char>) -> u64 {
        if self.hits.contains_key(name) {
            self.hits[name]
        } else {
            0
        }
    }

    /// One more access to `name`.
    pub open spec fn observed(self, name: Seq<char>) -> Rates {
        Rates { hits: self.hits.insert(name, (self.hits_of(name) + 1) as u64), ..self }
    }

    /// There is some history of `name`.
    pub open spec fn known(self, name: Seq<char>) -> bool {
        self.rates.contains_key(name) || self.hits.contains_key(name)
    }

    /// The rate of `name`, if it has one.
    pub open spec fn rate_of(self, name: Seq<char>) -> Option<u64> {
        if self.rates.contains_key(name) {
            Some(self.rates[name])
        } else {
            None
        }
    }

    /// The state once a sweep has made `rates` the new rates.
    pub open spec fn swept(self, rates: Map<Seq<char>, u64>) -> Rates {
        Rates { rates, hits: Map::empty(), sweeps: (self.sweeps + 1) as u64 }
    }

    /// No history of `name` is left.
    pub open spec fn without(self, name: Seq<char>) -> Rates {
        Rates { rates: self.rates.remove(name), hits: self.hits.remove(name), ..self }
    }
}

/// What one window says of one page.
#[derive(Debug)]
pub struct Sample {
    /// The page.
    pub name: String,
    /// The rate it had, if it had one.
    pub rate: Option<u64>,
    /// Accesses in the window.
    pub hits: u64,
}

/// `samples` has one entry for every page of which there is some history, with
/// its rate and its accesses, and no other.
pub open spec fn samples_all(samples: Seq<Sample>, m: Rates) -> bool {
    &&& forall|i: int|
        #![trigger samples[i]]
        0 <= i < samples.len() ==> {
            &&& m.known(samples[i].name@)
            &&& samples[i].rate == m.rate_of(samples[i].name@)
            &&& samples[i].hits == m.hits_of(samples[i].name@)
        }
    &&& forall|i: int, j: int|
        #![trigger samples[i], samples[j]]
        0 <= i < j < samples.len() ==> samples[i].name@ != samples[j].name@
    &&& forall|n: Seq<char>| #[trigger]
        m.known(n) ==> is_sampled(samples, n)
}

/// There is a sample of `name`.
pub open spec fn is_sampled(samples: Seq<Sample>, name: Seq<char>) -> bool {
    exists|i: int| sampled_at(samples, name, i)
}

/// Sample `i` is that of `name`.
pub open spec fn sampled_at(samples: Seq<Sample>, name: Seq<char>, i: int) -> bool {
    0 <= i < samples.len() && samples[i].name@ == name
}

/// The rates that `entries` list. The last entry of a name counts.
pub open spec fn listed_rates(entries: Seq<(String, u64)>) -> Map<Seq<char>, u64>
    decreases entries.len(),
{
    if entries.len() == 0 {
        Map::empty()
    } else {
        listed_rates(entries.drop_last()).insert(entries.last().0@, entries.last().1)
    }
}

/// A sweep that gives every sample a new rate keeps every page of which there
/// was some history, and no other: a page that was not accessed decays with the
/// rest instead of keeping its rate for ever.
pub proof fn law_a_sweep_reaches_every_page(
    m: Rates,
    samples: Seq<Sample>,
    entries: Seq<(String, u64)>,
    name: Seq<char>,
)
    requires
        samples_all(samples, m),
        entries.len() == samples.len(),
        forall|i: int|
            #![trigger entries[i]]
            0 <= i < entries.len() ==> entries[i].0@ == samples[i].name@,
    ensures
        m.swept(listed_rates(entries)).known(name) <==> m.known(name),
{
    lemma_listed_names(entries, name);
    if m.known(name) {
        let i = choose|i: int| sampled_at(samples, name, i);
        assert(entries[i].0@ == name);
    }
}

proof fn lemma_listed_names(entries: Seq<(String, u64)>, name: Seq<char>)
    ensures
        listed_rates(entries).contains_key(name) <==> exists|i: int|
            0 <= i < entries.len() && (#[trigger] entries[i]).0@ == name,
    decreases entries.len(),
{
    if entries.len() > 0 {
        lemma_listed_names(entries.drop_last(), name);
        if exists|i: int| 0 <= i < entries.len() && (#[trigger] entries[i]).0@ == name {
            let i = choose|i: int| 0 <= i < entries.len() && (#[trigger] entries[i]).0@ == name;
            if i < entries.len() - 1 {
                assert(entries.drop_last()[i].0@ == name);
            }
        }
        if listed_rates(entries).contains_key(name) {
            if entries.last().0@ == name {
                assert(entries[entries.len() - 1].0@ == name);
            } else {
                let i = choose|i: int|
                    0 <= i < entries.drop_last().len() && (#[trigger] entries.drop_last()[i]).0@
                        == name;
                assert(entries[i].0@ == name);
            }
        }
    }
}

/// Once a page is forgotten there is no history of it and that of every other
/// page is as it was.
pub proof fn law_forget_drops_history(m: Rates, name: Seq<char>, other: Seq<char>)
    requires
        other != name,
    ensures
        !m.without(name).known(name),
        m.without(name).rate_of(name) is None,
        m.without(name).hits_of(name) == 0,
        m.without(name).rate_of(other) == m.rate_of(other),
        m.without(name).hits_of(other) == m.hits_of(other),
{
}

/// Before anything is accessed there is no history of any page.
pub proof fn law_nothing_is_known_at_first(name: Seq<char>)
    ensures
        !Rates::fresh().known(name),
        Rates::fresh().rate_of(name) is None,
        Rates::fresh().hits_of(name) == 0,
        Rates::fresh().sweeps == 0,
{
}

/// An access adds one to the accesses of its page in this window, and makes the
/// page known. It changes nothing of any other page, and no rate before the
/// sweep.
pub proof fn law_an_access_counts_once(m: Rates, name: Seq<char>, other: Seq<char>)
    requires
        other != name,
        m.hits_of(name) < u64::MAX,
    ensures
        m.observed(name).hits_of(name) == m.hits_of(name) + 1,
        m.observed(name).known(name),
        m.observed(name).hits_of(other) == m.hits_of(other),
        m.observed(name).known(other) == m.known(other),
        m.observed(name).rate_of(name) == m.rate_of(name),
        m.observed(name).rate_of(other) == m.rate_of(other),
        m.observed(name).sweeps == m.sweeps,
{
}

/// A sweep starts a window with no access to any page. A page has the rate that
/// the last entry for it lists, and a page without an entry has none.
pub proof fn law_a_sweep_takes_over_the_rates(
    m: Rates,
    entries: Seq<(String, u64)>,
    name: Seq<char>,
)
    requires
        m.sweeps < u64::MAX,
    ensures
        m.swept(listed_rates(entries)).hits_of(name) == 0,
        m.swept(listed_rates(entries)).sweeps == m.sweeps + 1,
        match m.swept(listed_rates(entries)).rate_of(name) {
            Some(rate) => exists|i: int|
                {
                    &&& 0 <= i < entries.len()
                    &&& (#[trigger] entries[i]).0@ == name
                    &&& entries[i].1 == rate
                    &&& forall|j: int| i < j < entries.len() ==> (#[trigger] entries[j]).0@ != name
                },
            None => forall|i: int|
                0 <= i < entries.len() ==> (#[trigger] entries[i]).0@ != name,
        },
    decreases entries.len(),
{
    if entries.len() > 0 {
        let init = entries.drop_last();
        law_a_sweep_takes_over_the_rates(m, init, name);
        let last = entries.len() - 1;
        assert(entries[last] == entries.last());
        assert forall|i: int| 0 <= i < last implies #[trigger] entries[i] == init[i] by {}
        if entries.last().0@ != name && listed_rates(init).contains_key(name) {
            let rate = listed_rates(init)[name];
            let i = choose|i: int|
                {
                    &&& 0 <= i < init.len()
                    &&& (#[trigger] init[i]).0@ == name
                    &&& init[i].1 == rate
                    &&& forall|j: int| i < j < init.len() ==> (#[trigger] init[j]).0@ != name
                };
            assert(entries[i].0@ == name && entries[i].1 == rate);
        }
    }
}

/// The samples of a window say of each page of which there is some history how
/// often it was accessed and what its rate was, once, and nothing of any other.
pub proof fn law_a_window_tells_of_every_page(
    m: Rates,
    samples: Seq<Sample>,
    name: Seq<char>,
)
    requires
        samples_all(samples, m),
    ensures
        (m.rates.contains_key(name) || m.hits.contains_key(name)) <==> exists|i: int|
            0 <= i < samples.len() && (#[trigger] samples[i]).name@ == name,
        forall|i: int|
            0 <= i < samples.len() && (#[trigger] samples[i]).name@ == name ==> {
                &&& samples[i].rate is Some <==> m.rates.contains_key(name)
                &&& samples[i].rate matches Some(rate) ==> rate == m.rates[name]
                &&& m.hits.contains_key(name) ==> samples[i].hits == m.hits[name]
                &&& !m.hits.contains_key(name) ==> samples[i].hits == 0
            },
        forall|i: int, j: int|
            #![trigger samples[i], samples[j]]
            0 <= i < samples.len() && 0 <= j < samples.len() && samples[i].name@ == name
                && samples[j].name@ == name ==> i == j,
{
    if m.known(name) {
        assert(is_sampled(samples, name));
        let i = choose|i: int| sampled_at(samples, name, i);
        assert(samples[i].name@ == name);
    }
    assert forall|i: int, j: int|
        #![trigger samples[i], samples[j]]
        0 <= i < samples.len() && 0 <= j < samples.len() && samples[i].name@ == name
            && samples[j].name@ == name implies i == j by {
        if i < j {
            assert(samples[i].name@ != samples[j].name@);
        } else if j < i {
            assert(samples[j].name@ != samples[i].name@);
        }
    }
}

/// Access rates of pages, by name.
#[derive(Debug)]
pub struct Membrane {
    rates: NameMap<u64>,
    hits: NameMap<u64>,
    sweeps: u64,
}

impl View for Membrane {
    type V = Rates;

    closed spec fn view(&self) -> Rates {
        Rates { rates: self.rates@, hits: self.hits@, sweeps: self.sweeps }
    }
}

impl Membrane {
    /// No page is listed twice.
    pub closed spec fn wf(&self) -> bool {
        self.rates.wf() && self.hits.wf()
    }

    /// A membrane that has seen nothing.
    pub fn new() -> (r: Self)
        ensures
            r.wf(),
            r@ == Rates::fresh(),
    {
        Membrane { rates: NameMap::new(), hits: NameMap::new(), sweeps: 0 }
    }

    /// Count one access to a page. Accesses are folded into the rate by the
    /// next sweep, all at once.
    pub fn observe(&mut self, name: &str)
        requires
            old(self).wf(),
            old(self)@.hits_of(name@) < u64::MAX,
        ensures
            final(self).wf(),
            final(self)@ == old(self)@.observed(name@),
    {
        let so_far: u64 = match self.hits.get(name) {
            Some(h) => *h,
            None => 0,
        };
        self.hits.insert(name.to_owned(), so_far + 1);
    }

    /// What the window since the last sweep says of every page of which there
    /// is some history.
    pub fn window(&self) -> (r: Vec<Sample>)
        requires
            self.wf(),
        ensures
            samples_all(r@, self@),
    {
        let mut r: Vec<Sample> = Vec::new();
        let rated = self.rates.entries();
        let ghost m = self@;
        let mut i: usize = 0;
        while i < rated.len()
            invariant
                self.wf(),
                m == self@,
                rated@ == self.rates.listing(),
                i <= rated@.len(),
                r@.len() == i,
                forall|k: int|
                    #![trigger r@[k]]
                    0 <= k < i ==> {
                        &&& r@[k].name@ == rated@[k].0@
                        &&& m.rates.contains_key(r@[k].name@)
                        &&& r@[k].rate == m.rate_of(r@[k].name@)
                        &&& r@[k].hits == m.hits_of(r@[k].name@)
                    },
            decreases rated@.len() - i,
        {
            let name: String = rated[i].0.clone();
            let hits: u64 = match self.hits.get(name.as_str()) {
                Some(h) => *h,
                None => 0,
            };
            proof {
                name_map::lemma_entry(rated@, i as int);
            }
            r.push(Sample { name, rate: Some(rated[i].1), hits });
            i = i + 1;
        }
        let fresh = self.hits.entries();
        let mut j: usize = 0;
        proof {
            assert forall|a: int, b: int|
                #![trigger r@[a], r@[b]]
                0 <= a < b < r@.len() implies r@[a].name@ != r@[b].name@ by {
                assert(rated@[a].0@ != rated@[b].0@);
            }
            assert forall|n: Seq<char>| #[trigger] m.rates.contains_key(n) implies is_sampled(
                r@,
                n,
            ) by {
                let k = choose|k: int| name_map::entry_at(rated@, n, k);
                assert(r@[k].name@ == n);
                assert(sampled_at(r@, n, k));
            }
        }
        while j < fresh.len()
            invariant
                self.wf(),
                m == self@,
                fresh@ == self.hits.listing(),
                j <= fresh@.len(),
                forall|k: int|
                    #![trigger r@[k]]
                    0 <= k < r@.len() ==> {
                        &&& m.known(r@[k].name@)
                        &&& r@[k].rate == m.rate_of(r@[k].name@)
                        &&& r@[k].hits == m.hits_of(r@[k].name@)
                        &&& m.rates.contains_key(r@[k].name@) || exists|e: int|
                            0 <= e < j && r@[k].name@ == (#[trigger] fresh@[e]).0@
                    },
                forall|a: int, b: int|
                    #![trigger r@[a], r@[b]]
                    0 <= a < b < r@.len() ==> r@[a].name@ != r@[b].name@,
                forall|n: Seq<char>| #[trigger]
                    m.rates.contains_key(n) ==> is_sampled(r@, n),
                forall|e: int|
                    #![trigger fresh@[e]]
                    0 <= e < j ==> is_sampled(r@, fresh@[e].0@),
            decreases fresh@.len() - j,
        {
            let ghost before = r@;
            let name: String = fresh[j].0.clone();
            let ghost n = name@;
            proof {
                name_map::lemma_entry(fresh@, j as int);
            }
            if !self.rates.contains(name.as_str()) {
                assert forall|a: int| 0 <= a < before.len() implies (#[trigger] before[a]).name@
                    != n by {
                    if before[a].name@ == n {
                        let e = choose|e: int| 0 <= e < j && n == (#[trigger] fresh@[e]).0@;
                        assert(fresh@[e].0@ != fresh@[j as int].0@);
                    }
                }
                r.push(Sample { name, rate: None, hits: fresh[j].1 });
                assert(sampled_at(r@, n, before.len() as int));
            }
            proof {
                assert forall|e: int| #![trigger fresh@[e]] 0 <= e < j + 1 implies is_sampled(
                    r@,
                    fresh@[e].0@,
                ) by {
                    if e < j {
                        let k = choose|k: int| sampled_at(before, fresh@[e].0@, k);
                        assert(sampled_at(r@, fresh@[e].0@, k));
                    } else if m.rates.contains_key(n) {
                        let k = choose|k: int| sampled_at(before, n, k);
                        assert(sampled_at(r@, n, k));
                    }
                }
                assert forall|x: Seq<char>| #[trigger] m.rates.contains_key(x) implies is_sampled(
                    r@,
                    x,
                ) by {
                    let k = choose|k: int| sampled_at(before, x, k);
                    assert(sampled_at(r@, x, k));
                }
            }
            j = j + 1;
        }
        proof {
            assert forall|x: Seq<char>| #[trigger] m.known(x) implies is_sampled(r@, x) by {
                if !m.rates.contains_key(x) {
                    let e = choose|e: int| name_map::entry_at(fresh@, x, e);
                    assert(fresh@[e].0@ == x);
                }
            }
        }
        r
    }

    /// Conclude a sweep: take over the new rates and start a new window.
    pub fn decay(&mut self, new_rates: Vec<(String, u64)>)
        requires
            old(self).wf(),
            old(self)@.sweeps < u64::MAX,
        ensures
            final(self).wf(),
            final(self)@ == old(self)@.swept(listed_rates(new_rates@)),
    {
        let mut rates: NameMap<u64> = NameMap::new();
        let mut i: usize = 0;
        while i < new_rates.len()
            invariant
                i <= new_rates@.len(),
                rates.wf(),
                rates@ == listed_rates(new_rates@.take(i as int)),
            decreases new_rates@.len() - i,
        {
            proof {
                let u = new_rates@.take(i + 1);
                assert(u.drop_last() =~= new_rates@.take(i as int));
                assert(u.last() == new_rates@[i as int]);
            }
            rates.insert(new_rates[i].0.clone(), new_rates[i].1);
            i = i + 1;
        }
        assert(new_rates@.take(i as int) =~= new_rates@);
        self.rates = rates;
        self.hits = NameMap::new();
        self.sweeps = self.sweeps + 1;
    }

    /// The rate of a page, if it has one.
    pub fn rate(&self, name: &str) -> (r: Option<u64>)
        requires
            self.wf(),
        ensures
            r == self@.rate_of(name@),
    {
        match self.rates.get(name) {
            Some(bits) => Some(*bits),
            None => None,
        }
    }

    /// Sweeps so far.
    pub fn sweeps(&self) -> (r: u64)
        ensures
            r == self@.sweeps,
    {
        self.sweeps
    }

    /// Divide `cap` bytes of device memory among the candidates by rank: the
    /// first of the ranking that fit are kept, and pinned pages always. The
    /// result is the names of the pages to keep there and of those to evict.
    pub fn plan(&self, candidates: &Vec<Candidate>, cap: usize) -> (r: (
        Vec<String>,
        Vec<String>,
    ))
        ensures
            ranking::texts(r.0@) == ranking::kept(
                ranking::ranked(ranking::entrants(candidates@)),
                cap as int,
            ),
            ranking::texts(r.1@) == ranking::evicted(
                ranking::ranked(ranking::entrants(candidates@)),
                cap as int,
            ),
    {
        ranking::divide(candidates, cap)
    }

    /// Drop what is known of a page.
    pub fn forget(&mut self, name: &str)
        requires
            old(self).wf(),
        ensures
            final(self).wf(),
            final(self)@ == old(self)@.without(name@),
    {
        self.rates.remove(name);
        self.hits.remove(name);
    }
}

impl Default for Membrane {
    fn default() -> (r: Self)
        ensures
            r.wf(),
            r@ == Rates::fresh(),
    {
        Membrane::new()
    }
}

} // verus!
