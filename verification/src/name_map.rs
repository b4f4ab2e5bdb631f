//! A map from names to values that keeps its entries in a vector.

use vstd::prelude::*;
use vstd::string::*;

verus! {

/// A map from names to values.
#[derive(Debug)]
pub struct NameMap<V> {
    entries: Vec<(String, V)>,
}

/// No two entries have the same name.
pub open spec fn distinct_names<V>(entries: Seq<(String, V)>) -> bool {
    forall|i: int, j: int|
        #![trigger entries[i], entries[j]]
        0 <= i < j < entries.len() ==> entries[i].0@ != entries[j].0@
}

/// Entry `i` is the one for `name`.
pub open spec fn entry_at<V>(entries: Seq<(String, V)>, name: Seq<char>, i: int) -> bool {
    0 <= i < entries.len() && entries[i].0@ == name
}

/// The map that `entries` list.
pub open spec fn map_of<V>(entries: Seq<(String, V)>) -> Map<Seq<char>, V> {
    Map::new(
        |name: Seq<char>| exists|i: int| entry_at(entries, name, i),
        |name: Seq<char>| entries[choose|i: int| entry_at(entries, name, i)].1,
    )
}

/// Entry `i` holds the value of its name.
pub proof fn lemma_entry<V>(entries: Seq<(String, V)>, i: int)
    requires
        distinct_names(entries),
        0 <= i < entries.len(),
    ensures
        map_of(entries).contains_key(entries[i].0@),
        map_of(entries)[entries[i].0@] == entries[i].1,
{
    let name = entries[i].0@;
    assert(entry_at(entries, name, i));
    let k = choose|k: int| entry_at(entries, name, k);
    assert(k < i || k == i || i < k);
}

/// A name that is in the map has an entry.
proof fn lemma_has_entry<V>(entries: Seq<(String, V)>, name: Seq<char>) -> (i: int)
    requires
        distinct_names(entries),
        map_of(entries).contains_key(name),
    ensures
        entry_at(entries, name, i),
        map_of(entries)[name] == entries[i].1,
{
    let i = choose|i: int| entry_at(entries, name, i);
    i
}

/// The map has as many names as there are entries.
proof fn lemma_size<V>(entries: Seq<(String, V)>)
    requires
        distinct_names(entries),
    ensures
        map_of(entries).dom().finite(),
        map_of(entries).dom().len() == entries.len(),
{
    let names = entries.map_values(|e: (String, V)| e.0@);
    assert(names.no_duplicates()) by {
        assert forall|i: int, j: int|
            0 <= i < names.len() && 0 <= j < names.len() && i != j implies names[i]
            != names[j] by {
            assert(entries[i].0@ == names[i] && entries[j].0@ == names[j]);
        }
    }
    names.unique_seq_to_set();
    assert(map_of(entries).dom() =~= names.to_set()) by {
        assert forall|k: Seq<char>| map_of(entries).dom().contains(k) implies
            names.to_set().contains(k) by {
            let i = lemma_has_entry(entries, k);
            assert(names[i] == k);
        }
        assert forall|k: Seq<char>| names.to_set().contains(k) implies map_of(
            entries,
        ).dom().contains(k) by {
            let i = choose|i: int| 0 <= i < names.len() && names[i] == k;
            assert(entry_at(entries, k, i));
        }
    }
}

/// Two lists that agree on every name list the same map.
proof fn lemma_update<V>(entries: Seq<(String, V)>, i: int, value: V)
    requires
        distinct_names(entries),
        0 <= i < entries.len(),
    ensures
        distinct_names(entries.update(i, (entries[i].0, value))),
        map_of(entries.update(i, (entries[i].0, value))) == map_of(entries).insert(
            entries[i].0@,
            value,
        ),
{
    let post = entries.update(i, (entries[i].0, value));
    let a = map_of(post);
    let b = map_of(entries).insert(entries[i].0@, value);
    lemma_entry(post, i);
    assert forall|k: Seq<char>| a.contains_key(k) <==> b.contains_key(k) by {
        if a.contains_key(k) {
            let j = lemma_has_entry(post, k);
            lemma_entry(entries, j);
        }
        if map_of(entries).contains_key(k) {
            let j = lemma_has_entry(entries, k);
            lemma_entry(post, j);
        }
    }
    assert forall|k: Seq<char>| a.contains_key(k) implies a[k] == b[k] by {
        let j = lemma_has_entry(post, k);
        lemma_entry(entries, j);
    }
    assert(a =~= b);
}

proof fn lemma_push<V>(entries: Seq<(String, V)>, name: String, value: V)
    requires
        distinct_names(entries),
        !map_of(entries).contains_key(name@),
    ensures
        distinct_names(entries.push((name, value))),
        map_of(entries.push((name, value))) == map_of(entries).insert(name@, value),
{
    let post = entries.push((name, value));
    let a = map_of(post);
    let b = map_of(entries).insert(name@, value);
    assert forall|i: int| 0 <= i < entries.len() implies (#[trigger] entries[i]).0@ != name@ by {
        lemma_entry(entries, i);
    }
    lemma_entry(post, entries.len() as int);
    assert forall|k: Seq<char>| a.contains_key(k) <==> b.contains_key(k) by {
        if a.contains_key(k) {
            let j = lemma_has_entry(post, k);
            if j < entries.len() {
                lemma_entry(entries, j);
            }
        }
        if map_of(entries).contains_key(k) {
            let j = lemma_has_entry(entries, k);
            lemma_entry(post, j);
        }
    }
    assert forall|k: Seq<char>| a.contains_key(k) implies a[k] == b[k] by {
        let j = lemma_has_entry(post, k);
        if j < entries.len() {
            lemma_entry(entries, j);
        }
    }
    assert(a =~= b);
}

proof fn lemma_remove<V>(entries: Seq<(String, V)>, i: int)
    requires
        distinct_names(entries),
        0 <= i < entries.len(),
    ensures
        distinct_names(entries.remove(i)),
        map_of(entries.remove(i)) == map_of(entries).remove(entries[i].0@),
{
    let post = entries.remove(i);
    let a = map_of(post);
    let b = map_of(entries).remove(entries[i].0@);
    assert forall|j: int| 0 <= j < post.len() implies (#[trigger] post[j]) == entries[if j < i {
        j
    } else {
        j + 1
    }] by {}
    assert(distinct_names(post));
    assert forall|k: Seq<char>| a.contains_key(k) <==> b.contains_key(k) by {
        if a.contains_key(k) {
            let j = lemma_has_entry(post, k);
            let m = if j < i {
                j
            } else {
                j + 1
            };
            assert(post[j] == entries[m]);
            lemma_entry(entries, m);
            assert(entries[m].0@ != entries[i].0@);
        }
        if b.contains_key(k) {
            let j = lemma_has_entry(entries, k);
            let m = if j < i {
                j
            } else {
                j - 1
            };
            assert(post[m] == entries[j]);
            lemma_entry(post, m);
        }
    }
    assert forall|k: Seq<char>| a.contains_key(k) implies a[k] == b[k] by {
        let j = lemma_has_entry(post, k);
        let m = if j < i {
            j
        } else {
            j + 1
        };
        assert(post[j] == entries[m]);
        lemma_entry(entries, m);
    }
    assert(a =~= b);
}

impl<V> View for NameMap<V> {
    type V = Map<Seq<char>, V>;

    open spec fn view(&self) -> Map<Seq<char>, V> {
        map_of(self.listing())
    }
}

impl<V> NameMap<V> {
    /// The entries in the order in which they are walked.
    pub closed spec fn listing(&self) -> Seq<(String, V)> {
        self.entries@
    }

    /// No name occurs twice.
    pub open spec fn wf(&self) -> bool {
        distinct_names(self.listing())
    }

    /// An empty map.
    pub fn new() -> (r: Self)
        ensures
            r.wf(),
            r@ == Map::<Seq<char>, V>::empty(),
            r.listing() == Seq::<(String, V)>::empty(),
    {
        let r = NameMap { entries: Vec::new() };
        proof {
            assert(r@ =~= Map::<Seq<char>, V>::empty());
        }
        r
    }

    fn find(&self, name: &str) -> (r: Option<usize>)
        requires
            self.wf(),
        ensures
            r is Some <==> self@.contains_key(name@),
            r matches Some(i) ==> entry_at(self.listing(), name@, i as int),
    {
        let key: String = name.to_owned();
        let mut i: usize = 0;
        while i < self.entries.len()
            invariant
                self.wf(),
                key@ == name@,
                0 <= i <= self.entries@.len(),
                forall|j: int| 0 <= j < i ==> (#[trigger] self.entries@[j]).0@ != name@,
            decreases self.entries@.len() - i,
        {
            if self.entries[i].0 == key {
                proof {
                    lemma_entry(self.listing(), i as int);
                }
                return Some(i);
            }
            i = i + 1;
        }
        proof {
            if self@.contains_key(name@) {
                lemma_has_entry(self.listing(), name@);
            }
        }
        None
    }

    /// The value of `name`.
    pub fn get(&self, name: &str) -> (r: Option<&V>)
        requires
            self.wf(),
        ensures
            match r {
                Some(v) => self@.contains_key(name@) && *v == self@[name@],
                None => !self@.contains_key(name@),
            },
    {
        match self.find(name) {
            Some(i) => {
                proof {
                    lemma_entry(self.listing(), i as int);
                }
                Some(&self.entries[i].1)
            },
            None => None,
        }
    }

    /// `name` has a value.
    pub fn contains(&self, name: &str) -> (r: bool)
        requires
            self.wf(),
        ensures
            r == self@.contains_key(name@),
    {
        self.find(name).is_some()
    }

    /// The value of `name`, to be changed in place.
    pub fn get_mut(&mut self, name: &str) -> (r: Option<&mut V>)
        requires
            old(self).wf(),
        ensures
            final(self).wf(),
            match r {
                Some(v) => {
                    &&& old(self)@.contains_key(name@)
                    &&& *v == old(self)@[name@]
                    &&& final(self)@ == old(self)@.insert(name@, *final(v))
                },
                None => !old(self)@.contains_key(name@) && *final(self) == *old(self),
            },
    {
        match self.find(name) {
            Some(i) => {
                proof {
                    lemma_entry(self.listing(), i as int);
                    let listing = self.listing();
                    assert forall|e: (String, V)|
                        e.0 == listing[i as int].0 implies distinct_names(
                        #[trigger] listing.update(i as int, e),
                    ) && map_of(listing.update(i as int, e)) == self@.insert(name@, e.1) by {
                        lemma_update(listing, i as int, e.1);
                        assert(e == (listing[i as int].0, e.1));
                    }
                }
                Some(&mut self.entries[i].1)
            },
            None => None,
        }
    }

    /// The entry at a position of the walk, its value to be changed in place.
    pub fn at_mut(&mut self, i: usize) -> (r: Option<(&String, &mut V)>)
        requires
            old(self).wf(),
        ensures
            final(self).wf(),
            match r {
                Some((n, v)) => {
                    &&& i < old(self).listing().len()
                    &&& *n == old(self).listing()[i as int].0
                    &&& *v == old(self).listing()[i as int].1
                    &&& final(self).listing() == old(self).listing().update(
                        i as int,
                        (*n, *final(v)),
                    )
                    &&& final(self)@ == old(self)@.insert(n@, *final(v))
                },
                None => i >= old(self).listing().len() && *final(self) == *old(self),
            },
    {
        if i >= self.entries.len() {
            return None;
        }
        proof {
            let listing = self.listing();
            assert forall|e: (String, V)|
                e.0 == listing[i as int].0 implies distinct_names(
                #[trigger] listing.update(i as int, e),
            ) && map_of(listing.update(i as int, e)) == self@.insert(e.0@, e.1) by {
                lemma_update(listing, i as int, e.1);
                assert(e == (listing[i as int].0, e.1));
            }
        }
        let e = &mut self.entries[i];
        Some((&e.0, &mut e.1))
    }

    /// Give `name` the value `value`, in place of any it had.
    pub fn insert(&mut self, name: String, value: V)
        requires
            old(self).wf(),
        ensures
            final(self).wf(),
            final(self)@ == old(self)@.insert(name@, value),
    {
        match self.find(name.as_str()) {
            Some(i) => {
                proof {
                    lemma_update(self.listing(), i as int, value);
                }
                self.entries[i].1 = value;
            },
            None => {
                proof {
                    lemma_push(self.listing(), name, value);
                }
                self.entries.push((name, value));
            },
        }
    }

    /// Take `name` out of the map.
    pub fn remove(&mut self, name: &str) -> (r: Option<V>)
        requires
            old(self).wf(),
        ensures
            final(self).wf(),
            final(self)@ == old(self)@.remove(name@),
            match r {
                Some(v) => old(self)@.contains_key(name@) && v == old(self)@[name@],
                None => !old(self)@.contains_key(name@),
            },
    {
        match self.find(name) {
            Some(i) => {
                proof {
                    lemma_entry(self.listing(), i as int);
                    lemma_remove(self.listing(), i as int);
                }
                let (_key, value) = self.entries.remove(i);
                Some(value)
            },
            None => {
                assert(self@.remove(name@) =~= self@);
                None
            },
        }
    }

    /// Number of names.
    pub fn len(&self) -> (r: usize)
        requires
            self.wf(),
        ensures
            r == self@.dom().len(),
            r == self.listing().len(),
            self@.dom().finite(),
    {
        proof {
            lemma_size(self.listing());
        }
        self.entries.len()
    }

    /// All entries.
    pub fn entries(&self) -> (r: &Vec<(String, V)>)
        ensures
            r@ == self.listing(),
    {
        &self.entries
    }
}

} // verus!
