//! Ranking of pages against each other, and the division of a budget by rank.

use crate::scan;
use vstd::prelude::*;
use vstd::string::*;

verus! {

/// A page that competes for device memory.
#[derive(Debug)]
pub struct Candidate {
    /// The page.
    pub name: String,
    /// Its score: the larger, the more the page deserves its place.
    pub key: u64,
    /// Its size in bytes.
    pub bytes: usize,
    /// It must not lose its place.
    pub pinned: bool,
}

/// What a [`Candidate`] stands for.
pub struct Entrant {
    /// The page.
    pub name: Seq<char>,
    /// Its score.
    pub key: u64,
    /// Its size in bytes.
    pub bytes: usize,
    /// It must not lose its place.
    pub pinned: bool,
}

impl View for Candidate {
    type V = Entrant;

    open spec fn view(&self) -> Entrant {
        Entrant { name: self.name@, key: self.key, bytes: self.bytes, pinned: self.pinned }
    }
}

/// The views of some candidates.
pub open spec fn entrants(s: Seq<Candidate>) -> Seq<Entrant> {
    s.map_values(|c: Candidate| c@)
}

/// `a` comes before `b` in the order of a dictionary, character by character.
pub open spec fn name_before(a: Seq<char>, b: Seq<char>) -> bool
    decreases a.len(),
{
    if b.len() == 0 {
        false
    } else if a.len() == 0 {
        true
    } else {
        a[0] < b[0] || a[0] == b[0] && name_before(a.skip(1), b.skip(1))
    }
}

/// `a` ranks above `b`: by a larger key, or by name where the keys are equal.
pub open spec fn ranks_above(a: Entrant, b: Entrant) -> bool {
    a.key > b.key || a.key == b.key && name_before(a.name, b.name)
}

/// `s` with `x` put behind the last that does not rank below it.
pub open spec fn put_in(s: Seq<Entrant>, x: Entrant) -> Seq<Entrant>
    decreases s.len(),
{
    if s.len() > 0 && ranks_above(x, s.last()) {
        put_in(s.drop_last(), x).push(s.last())
    } else {
        s.push(x)
    }
}

/// `s` by rank, the highest first. Equals keep the order in which they come.
pub open spec fn ranked(s: Seq<Entrant>) -> Seq<Entrant>
    decreases s.len(),
{
    if s.len() == 0 {
        seq![]
    } else {
        put_in(ranked(s.drop_last()), s.last())
    }
}

/// Bytes of all of `s`.
pub open spec fn bytes_of(s: Seq<Entrant>) -> int
    decreases s.len(),
{
    if s.len() == 0 {
        0
    } else {
        bytes_of(s.drop_last()) + s.last().bytes
    }
}

/// All of `s` get a place, highest rank first: a page that is not pinned has to
/// fit into `cap` with those before it.
pub open spec fn all_fit(s: Seq<Entrant>, cap: int) -> bool
    decreases s.len(),
{
    s.len() == 0 || all_fit(s.drop_last(), cap) && (s.last().pinned || bytes_of(s) <= cap)
}

/// `x` gets a place once all of `s` had their turn: a pinned page always, any
/// other where nobody before it was refused and it still fits into `cap`.
pub open spec fn admits(s: Seq<Entrant>, cap: int, x: Entrant) -> bool {
    x.pinned || all_fit(s, cap) && bytes_of(s) + x.bytes <= cap
}

/// Bytes of those that got a place once all of `s` had their turn.
pub open spec fn load(s: Seq<Entrant>, cap: int) -> int
    decreases s.len(),
{
    if s.len() == 0 {
        0
    } else if admits(s.drop_last(), cap, s.last()) {
        load(s.drop_last(), cap) + s.last().bytes
    } else {
        load(s.drop_last(), cap)
    }
}

/// The names of those of `s` that get a place, in order.
pub open spec fn kept(s: Seq<Entrant>, cap: int) -> Seq<Seq<char>>
    decreases s.len(),
{
    if s.len() == 0 {
        seq![]
    } else if admits(s.drop_last(), cap, s.last()) {
        kept(s.drop_last(), cap).push(s.last().name)
    } else {
        kept(s.drop_last(), cap)
    }
}

/// The names of those of `s` that get no place, in order.
pub open spec fn evicted(s: Seq<Entrant>, cap: int) -> Seq<Seq<char>>
    decreases s.len(),
{
    if s.len() == 0 {
        seq![]
    } else if admits(s.drop_last(), cap, s.last()) {
        evicted(s.drop_last(), cap)
    } else {
        evicted(s.drop_last(), cap).push(s.last().name)
    }
}

/// No name comes before itself, and of two names only one comes before the
/// other; of two different names one does.
pub proof fn law_names_are_ordered(a: Seq<char>, b: Seq<char>)
    ensures
        !(name_before(a, b) && name_before(b, a)),
        a != b ==> name_before(a, b) || name_before(b, a),
        !name_before(a, a),
    decreases a.len() + b.len(),
{
    if a.len() > 0 {
        if b.len() > 0 {
            law_names_are_ordered(a.skip(1), b.skip(1));
            if a[0] == b[0] && a.skip(1) == b.skip(1) {
                assert(a =~= seq![a[0]] + a.skip(1));
                assert(b =~= seq![b[0]] + b.skip(1));
            }
        } else {
            law_names_are_ordered(a.skip(1), b);
        }
    } else {
        assert(a =~= seq![]);
        if b.len() == 0 {
            assert(b =~= seq![]);
        }
    }
}

proof fn lemma_name_before_transitive(a: Seq<char>, b: Seq<char>, c: Seq<char>)
    requires
        name_before(a, b),
        name_before(b, c),
    ensures
        name_before(a, c),
    decreases a.len(),
{
    if a.len() > 0 && a[0] == b[0] && b[0] == c[0] {
        lemma_name_before_transitive(a.skip(1), b.skip(1), c.skip(1));
    }
}

proof fn lemma_above_transitive(a: Entrant, b: Entrant, c: Entrant)
    requires
        ranks_above(a, b),
        ranks_above(b, c),
    ensures
        ranks_above(a, c),
{
    if a.key == b.key && b.key == c.key {
        lemma_name_before_transitive(a.name, b.name, c.name);
    }
}

proof fn lemma_above_asymmetric(a: Entrant, b: Entrant)
    ensures
        !(ranks_above(a, b) && ranks_above(b, a)),
{
    law_names_are_ordered(a.name, b.name);
}

/// Nobody in `s` ranks above one who comes earlier.
pub open spec fn in_rank_order(s: Seq<Entrant>) -> bool {
    forall|i: int, j: int|
        #![trigger s[i], s[j]]
        0 <= i < j < s.len() ==> !ranks_above(s[j], s[i])
}

proof fn lemma_put_in(s: Seq<Entrant>, x: Entrant)
    requires
        in_rank_order(s),
    ensures
        in_rank_order(put_in(s, x)),
        put_in(s, x).len() == s.len() + 1,
        forall|y: Entrant| #[trigger] put_in(s, x).contains(y) <==> s.contains(y) || y == x,
    decreases s.len(),
{
    let t = put_in(s, x);
    if s.len() > 0 && ranks_above(x, s.last()) {
        let init = s.drop_last();
        assert(in_rank_order(init)) by {
            assert forall|i: int, j: int|
                #![trigger init[i], init[j]]
                0 <= i < j < init.len() implies !ranks_above(init[j], init[i]) by {
                assert(!ranks_above(s[j], s[i]));
            }
        }
        lemma_put_in(init, x);
        let u = put_in(init, x);
        assert(t == u.push(s.last()));
        assert forall|i: int, j: int|
            #![trigger t[i], t[j]]
            0 <= i < j < t.len() implies !ranks_above(t[j], t[i]) by {
            if j < u.len() {
                assert(!ranks_above(u[j], u[i]));
            } else {
                assert(u.contains(u[i]));
                if u[i] == x {
                    lemma_above_asymmetric(x, s.last());
                } else {
                    let k = choose|k: int| 0 <= k < init.len() && init[k] == u[i];
                    assert(!ranks_above(s[s.len() - 1], s[k]));
                }
            }
        }
        assert forall|y: Entrant| #[trigger] t.contains(y) <==> s.contains(y) || y == x by {
            if t.contains(y) {
                let k = choose|k: int| 0 <= k < t.len() && t[k] == y;
                if k < u.len() {
                    assert(u.contains(y));
                    if init.contains(y) {
                        let m = choose|m: int| 0 <= m < init.len() && init[m] == y;
                        assert(s[m] == y);
                    }
                } else {
                    assert(s[s.len() - 1] == y);
                }
            }
            if s.contains(y) || y == x {
                if y == s.last() {
                    assert(t[t.len() - 1] == y);
                } else {
                    if s.contains(y) {
                        let m = choose|m: int| 0 <= m < s.len() && s[m] == y;
                        assert(init[m] == y);
                    }
                    assert(u.contains(y));
                    let k = choose|k: int| 0 <= k < u.len() && u[k] == y;
                    assert(t[k] == y);
                }
            }
        }
    } else {
        assert(t == s.push(x));
        assert forall|i: int, j: int|
            #![trigger t[i], t[j]]
            0 <= i < j < t.len() implies !ranks_above(t[j], t[i]) by {
            if j < s.len() {
                assert(!ranks_above(s[j], s[i]));
            } else if i < s.len() - 1 {
                assert(!ranks_above(s[s.len() - 1], s[i]));
                if ranks_above(x, s[i]) {
                    lemma_between(x, s[i], s.last());
                }
            }
        }
        assert forall|y: Entrant| #[trigger] t.contains(y) <==> s.contains(y) || y == x by {
            if t.contains(y) {
                let k = choose|k: int| 0 <= k < t.len() && t[k] == y;
                if k < s.len() {
                    assert(s[k] == y);
                }
            }
            if s.contains(y) {
                let k = choose|k: int| 0 <= k < s.len() && s[k] == y;
                assert(t[k] == y);
            }
            if y == x {
                assert(t[s.len() as int] == y);
            }
        }
    }
}

/// Who ranks above `a`, while `b` does not, ranks above `b`.
proof fn lemma_between(x: Entrant, a: Entrant, b: Entrant)
    requires
        ranks_above(x, a),
        !ranks_above(b, a),
    ensures
        ranks_above(x, b),
{
    law_names_are_ordered(a.name, b.name);
    if a.key == b.key && a.name != b.name {
        lemma_above_transitive(x, a, b);
    }
}

/// Ranking puts everyone in the order of rank, and drops or adds nobody.
pub proof fn law_ranking_orders_everyone(s: Seq<Entrant>)
    ensures
        in_rank_order(ranked(s)),
        ranked(s).len() == s.len(),
        forall|y: Entrant| #[trigger] ranked(s).contains(y) <==> s.contains(y),
    decreases s.len(),
{
    if s.len() > 0 {
        law_ranking_orders_everyone(s.drop_last());
        lemma_put_in(ranked(s.drop_last()), s.last());
        assert forall|y: Entrant| #[trigger] ranked(s).contains(y) <==> s.contains(y) by {
            if s.contains(y) && y != s.last() {
                let k = choose|k: int| 0 <= k < s.len() && s[k] == y;
                assert(s.drop_last()[k] == y);
            }
            if s.drop_last().contains(y) {
                let k = choose|k: int| 0 <= k < s.drop_last().len() && s.drop_last()[k] == y;
                assert(s[k] == y);
            }
            if y == s.last() {
                assert(s[s.len() - 1] == y);
            }
        }
    }
}

/// No two of `s` have the same name.
pub open spec fn distinct(s: Seq<Entrant>) -> bool {
    forall|i: int, j: int|
        #![trigger s[i], s[j]]
        0 <= i < j < s.len() ==> s[i].name != s[j].name
}

proof fn lemma_ranked_distinct(s: Seq<Entrant>)
    requires
        distinct(s),
    ensures
        distinct(ranked(s)),
    decreases s.len(),
{
    if s.len() > 0 {
        let init = s.drop_last();
        assert(distinct(init)) by {
            assert forall|i: int, j: int|
                #![trigger init[i], init[j]]
                0 <= i < j < init.len() implies init[i].name != init[j].name by {
                assert(s[i].name != s[j].name);
            }
        }
        lemma_ranked_distinct(init);
        law_ranking_orders_everyone(init);
        assert forall|y: Entrant| ranked(init).contains(y) implies y.name != s.last().name by {
            let k = choose|k: int| 0 <= k < init.len() && init[k] == y;
            assert(s[k].name != s[s.len() - 1].name);
        }
        lemma_put_in_distinct(ranked(init), s.last());
    }
}

proof fn lemma_put_in_distinct(s: Seq<Entrant>, x: Entrant)
    requires
        in_rank_order(s),
        distinct(s),
        forall|y: Entrant| #[trigger] s.contains(y) ==> y.name != x.name,
    ensures
        distinct(put_in(s, x)),
    decreases s.len(),
{
    let t = put_in(s, x);
    if s.len() > 0 && ranks_above(x, s.last()) {
        let init = s.drop_last();
        assert forall|y: Entrant| #[trigger] init.contains(y) implies y.name != x.name by {
            let k = choose|k: int| 0 <= k < init.len() && init[k] == y;
            assert(s[k] == y);
            assert(s.contains(y));
        }
        assert(in_rank_order(init)) by {
            assert forall|i: int, j: int|
                #![trigger init[i], init[j]]
                0 <= i < j < init.len() implies !ranks_above(init[j], init[i]) by {
                assert(!ranks_above(s[j], s[i]));
            }
        }
        assert(distinct(init)) by {
            assert forall|i: int, j: int|
                #![trigger init[i], init[j]]
                0 <= i < j < init.len() implies init[i].name != init[j].name by {
                assert(s[i].name != s[j].name);
            }
        }
        lemma_put_in_distinct(init, x);
        lemma_put_in(init, x);
        let u = put_in(init, x);
        assert forall|i: int, j: int|
            #![trigger t[i], t[j]]
            0 <= i < j < t.len() implies t[i].name != t[j].name by {
            if j < u.len() {
                assert(u[i].name != u[j].name);
            } else {
                assert(u.contains(u[i]));
                if u[i] == x {
                    assert(s.contains(s[s.len() - 1]));
                } else {
                    let k = choose|k: int| 0 <= k < init.len() && init[k] == u[i];
                    assert(s[k].name != s[s.len() - 1].name);
                }
            }
        }
    } else {
        assert forall|i: int, j: int|
            #![trigger t[i], t[j]]
            0 <= i < j < t.len() implies t[i].name != t[j].name by {
            if j < s.len() {
                assert(s[i].name != s[j].name);
            } else {
                assert(s.contains(s[i]));
            }
        }
    }
}

/// The first `k` agree when both are in rank order and have the same members.
proof fn lemma_same_members(a: Seq<Entrant>, b: Seq<Entrant>, k: int)
    requires
        in_rank_order(a),
        in_rank_order(b),
        distinct(a),
        distinct(b),
        forall|y: Entrant| #[trigger] a.contains(y) <==> b.contains(y),
        0 <= k <= a.len(),
    ensures
        k <= b.len(),
        forall|i: int| 0 <= i < k ==> #[trigger] a[i] == b[i],
    decreases k,
{
    if k > 0 {
        lemma_same_members(a, b, k - 1);
        let p = a[k - 1];
        assert(a.contains(p));
        let m = choose|m: int| 0 <= m < b.len() && b[m] == p;
        if m < k - 1 {
            assert(a[m] == b[m]);
            assert(a[m].name != a[k - 1].name);
        }
        if m > k - 1 {
            let q = b[k - 1];
            assert(b.contains(q));
            assert(a.contains(q));
            let n = choose|n: int| 0 <= n < a.len() && a[n] == q;
            assert(b[k - 1].name != b[m].name);
            if n < k - 1 {
                assert(a[n] == b[n]);
                assert(b[n].name != b[k - 1].name);
            }
            assert(n > k - 1);
            assert(!ranks_above(a[n], a[k - 1]));
            assert(!ranks_above(b[m], b[k - 1]));
            law_names_are_ordered(p.name, q.name);
        }
    }
}

/// A ranking depends on who takes part, not on the order in which they are
/// listed.
pub proof fn law_ranking_ignores_the_listing(a: Seq<Entrant>, b: Seq<Entrant>)
    requires
        distinct(a),
        distinct(b),
        forall|y: Entrant| #[trigger] a.contains(y) <==> b.contains(y),
    ensures
        ranked(a) == ranked(b),
{
    law_ranking_orders_everyone(a);
    law_ranking_orders_everyone(b);
    lemma_ranked_distinct(a);
    lemma_ranked_distinct(b);
    assert forall|y: Entrant| #[trigger] ranked(a).contains(y) <==> ranked(b).contains(y) by {
        assert(a.contains(y) <==> b.contains(y));
    }
    lemma_same_members(ranked(a), ranked(b), ranked(a).len() as int);
    lemma_same_members(ranked(b), ranked(a), ranked(b).len() as int);
    assert(ranked(a) =~= ranked(b));
}

/// A pinned page is kept whatever the budget, and only pages that are not
/// pinned are evicted.
pub proof fn law_pinned_pages_are_kept(s: Seq<Entrant>, cap: int)
    ensures
        forall|i: int|
            0 <= i < s.len() && (#[trigger] s[i]).pinned ==> kept(s, cap).contains(s[i].name),
        forall|n: Seq<char>| #[trigger]
            evicted(s, cap).contains(n) ==> exists|i: int|
                0 <= i < s.len() && !(#[trigger] s[i]).pinned && s[i].name == n,
    decreases s.len(),
{
    if s.len() > 0 {
        let init = s.drop_last();
        law_pinned_pages_are_kept(init, cap);
        let k = kept(s, cap);
        let e = evicted(s, cap);
        assert forall|i: int| 0 <= i < s.len() && (#[trigger] s[i]).pinned implies k.contains(
            s[i].name,
        ) by {
            if i < init.len() {
                assert(init[i] == s[i]);
                let m = choose|m: int|
                    0 <= m < kept(init, cap).len() && kept(init, cap)[m] == s[i].name;
                assert(k[m] == s[i].name);
            } else {
                assert(k[k.len() - 1] == s[i].name);
            }
        }
        assert forall|n: Seq<char>| #[trigger] e.contains(n) implies exists|i: int|
            0 <= i < s.len() && !(#[trigger] s[i]).pinned && s[i].name == n by {
            let m = choose|m: int| 0 <= m < e.len() && e[m] == n;
            if m < evicted(init, cap).len() {
                assert(evicted(init, cap)[m] == n);
                assert(evicted(init, cap).contains(n));
                let i = choose|i: int|
                    0 <= i < init.len() && !(#[trigger] init[i]).pinned && init[i].name == n;
                assert(s[i].name == n);
            } else {
                assert(s[s.len() - 1].name == n);
            }
        }
    }
}

/// Bytes of the pinned pages of `s`.
pub open spec fn pinned_bytes(s: Seq<Entrant>) -> int
    decreases s.len(),
{
    if s.len() == 0 {
        0
    } else {
        pinned_bytes(s.drop_last()) + if s.last().pinned {
            s.last().bytes as int
        } else {
            0
        }
    }
}

proof fn lemma_load_of_all(s: Seq<Entrant>, cap: int)
    requires
        all_fit(s, cap),
    ensures
        load(s, cap) == bytes_of(s),
    decreases s.len(),
{
    if s.len() > 0 {
        lemma_load_of_all(s.drop_last(), cap);
    }
}

/// What is kept fits the budget, unless pinned pages exceed it: beyond the
/// budget there is never more than what is pinned.
pub proof fn law_budget_is_respected(s: Seq<Entrant>, cap: int)
    requires
        cap >= 0,
    ensures
        0 <= load(s, cap) <= cap + pinned_bytes(s),
        (forall|i: int| 0 <= i < s.len() ==> !(#[trigger] s[i]).pinned) ==> load(s, cap) <= cap,
        0 <= pinned_bytes(s),
    decreases s.len(),
{
    if s.len() > 0 {
        law_budget_is_respected(s.drop_last(), cap);
        if all_fit(s.drop_last(), cap) {
            lemma_load_of_all(s.drop_last(), cap);
        }
        if forall|i: int| 0 <= i < s.len() ==> !(#[trigger] s[i]).pinned {
            assert forall|i: int| 0 <= i < s.drop_last().len() implies !(
            #[trigger] s.drop_last()[i]).pinned by {
                assert(s.drop_last()[i] == s[i]);
            }
            assert(!s[s.len() - 1].pinned);
        }
    }
}

/// The names of all of `s`, in order.
pub open spec fn names(s: Seq<Entrant>) -> Seq<Seq<char>> {
    s.map_values(|e: Entrant| e.name)
}

/// The first `n` of `s` are kept, and the others are evicted.
pub open spec fn divided_at(s: Seq<Entrant>, cap: int, n: int) -> bool {
    &&& 0 <= n <= s.len()
    &&& kept(s, cap) == names(s.take(n))
    &&& evicted(s, cap) == names(s.skip(n))
}

/// Device memory is filled from the top of the ranking down: where no page is
/// pinned, those that are kept are the first of the ranking, up to one that does
/// not fit any more.
pub proof fn law_kept_is_a_prefix(s: Seq<Entrant>, cap: int)
    requires
        forall|i: int| 0 <= i < s.len() ==> !(#[trigger] s[i]).pinned,
    ensures
        exists|n: int| #[trigger] divided_at(s, cap, n),
{
    let n = lemma_divided_at(s, cap);
    assert(divided_at(s, cap, n));
}

proof fn lemma_divided_at(s: Seq<Entrant>, cap: int) -> (n: int)
    requires
        forall|i: int| 0 <= i < s.len() ==> !(#[trigger] s[i]).pinned,
    ensures
        divided_at(s, cap, n),
        n == s.len() <==> all_fit(s, cap),
    decreases s.len(),
{
    if s.len() == 0 {
        assert(names(s.take(0)) =~= kept(s, cap));
        assert(names(s.skip(0)) =~= evicted(s, cap));
        0
    } else {
        let init = s.drop_last();
        assert forall|i: int| 0 <= i < init.len() implies !(#[trigger] init[i]).pinned by {
            assert(init[i] == s[i]);
        }
        assert(!s[s.len() - 1].pinned);
        let n = lemma_divided_at(init, cap);
        if admits(init, cap, s.last()) {
            assert(names(s.take(s.len() as int)) =~= names(init.take(n)).push(s.last().name));
            assert(names(s.skip(s.len() as int)) =~= names(init.skip(n)));
            s.len() as int
        } else {
            assert(init.take(n) =~= s.take(n));
            assert(names(s.skip(n)) =~= names(init.skip(n)).push(s.last().name));
            n
        }
    }
}

/// Nobody who is not pinned gets a place behind one who was refused.
pub proof fn law_nobody_overtakes(s: Seq<Entrant>, cap: int, i: int, j: int)
    requires
        0 <= i < j < s.len(),
        !admits(s.take(i), cap, s[i]),
        !s[j].pinned,
    ensures
        !admits(s.take(j), cap, s[j]),
{
    lemma_refusal_lasts(s, cap, i, j);
}

proof fn lemma_refusal_lasts(s: Seq<Entrant>, cap: int, i: int, j: int)
    requires
        0 <= i < j <= s.len(),
        !admits(s.take(i), cap, s[i]),
    ensures
        !all_fit(s.take(j), cap),
    decreases j,
{
    assert(s.take(j).drop_last() =~= s.take(j - 1));
    if i < j - 1 {
        lemma_refusal_lasts(s, cap, i, j - 1);
    }
}

/// Everyone is either kept or evicted.
pub proof fn law_everyone_is_placed(s: Seq<Entrant>, cap: int)
    ensures
        kept(s, cap).len() + evicted(s, cap).len() == s.len(),
        forall|i: int|
            0 <= i < s.len() ==> kept(s, cap).contains((#[trigger] s[i]).name) || evicted(
                s,
                cap,
            ).contains(s[i].name),
    decreases s.len(),
{
    if s.len() > 0 {
        let init = s.drop_last();
        law_everyone_is_placed(init, cap);
        let k = kept(s, cap);
        let e = evicted(s, cap);
        assert forall|i: int| 0 <= i < s.len() implies k.contains((#[trigger] s[i]).name)
            || e.contains(s[i].name) by {
            if i < init.len() {
                assert(init[i] == s[i]);
                let n = s[i].name;
                if kept(init, cap).contains(n) {
                    let m = choose|m: int| 0 <= m < kept(init, cap).len() && kept(init, cap)[m]
                        == n;
                    assert(k[m] == n);
                } else {
                    let m = choose|m: int|
                        0 <= m < evicted(init, cap).len() && evicted(init, cap)[m] == n;
                    assert(e[m] == n);
                }
            } else if admits(init, cap, s.last()) {
                assert(k[k.len() - 1] == s[i].name);
            } else {
                assert(e[e.len() - 1] == s[i].name);
            }
        }
    }
}

/// Of pages with different names none is both kept and evicted.
pub proof fn law_nobody_is_placed_twice(s: Seq<Entrant>, cap: int, name: Seq<char>)
    requires
        distinct(s),
    ensures
        !(kept(ranked(s), cap).contains(name) && evicted(ranked(s), cap).contains(name)),
{
    let r = ranked(s);
    lemma_ranked_distinct(s);
    if kept(r, cap).contains(name) && evicted(r, cap).contains(name) {
        let i = lemma_kept_at(r, cap, name);
        let j = lemma_evicted_at(r, cap, name);
        assert(r[i].name == r[j].name);
    }
}

proof fn lemma_kept_at(s: Seq<Entrant>, cap: int, name: Seq<char>) -> (i: int)
    requires
        kept(s, cap).contains(name),
    ensures
        0 <= i < s.len(),
        s[i].name == name,
        admits(s.take(i), cap, s[i]),
    decreases s.len(),
{
    let init = s.drop_last();
    let k = choose|k: int| 0 <= k < kept(s, cap).len() && kept(s, cap)[k] == name;
    if k < kept(init, cap).len() {
        assert(kept(init, cap)[k] == name);
        let i = lemma_kept_at(init, cap, name);
        assert(init.take(i) =~= s.take(i));
        i
    } else {
        assert(init =~= s.take(s.len() - 1));
        s.len() - 1
    }
}

proof fn lemma_evicted_at(s: Seq<Entrant>, cap: int, name: Seq<char>) -> (i: int)
    requires
        evicted(s, cap).contains(name),
    ensures
        0 <= i < s.len(),
        s[i].name == name,
        !admits(s.take(i), cap, s[i]),
    decreases s.len(),
{
    let init = s.drop_last();
    let k = choose|k: int| 0 <= k < evicted(s, cap).len() && evicted(s, cap)[k] == name;
    if k < evicted(init, cap).len() {
        assert(evicted(init, cap)[k] == name);
        let i = lemma_evicted_at(init, cap, name);
        assert(init.take(i) =~= s.take(i));
        i
    } else {
        assert(init =~= s.take(s.len() - 1));
        s.len() - 1
    }
}

/// Nothing takes no room, and every page takes its own.
pub proof fn law_bytes_add_up(s: Seq<Entrant>, x: Entrant, i: int)
    ensures
        bytes_of(Seq::empty()) == 0,
        bytes_of(s.push(x)) == bytes_of(s) + x.bytes,
        0 <= i <= s.len() ==> 0 <= bytes_of(s.take(i)) <= bytes_of(s),
    decreases s.len(),
{
    assert(s.push(x).drop_last() =~= s);
    if 0 <= i <= s.len() {
        if i == s.len() {
            assert(s.take(i) =~= s);
            if i > 0 {
                law_bytes_add_up(s.drop_last(), x, i - 1);
            }
        } else {
            law_bytes_add_up(s.drop_last(), x, i);
            assert(s.drop_last().take(i) =~= s.take(i));
        }
    }
}

/// The page at `i` of the ranking has room: it and every page above it that is
/// not pinned fits into `cap` together with all that rank above it.
spec fn has_room(s: Seq<Entrant>, cap: int, i: int) -> bool {
    forall|k: int|
        0 <= k <= i && !(#[trigger] s[k]).pinned ==> bytes_of(s.take(k + 1)) <= cap
}

proof fn lemma_all_fit_is_room(s: Seq<Entrant>, cap: int)
    ensures
        all_fit(s, cap) <==> has_room(s, cap, s.len() - 1),
    decreases s.len(),
{
    if s.len() > 0 {
        let init = s.drop_last();
        let n = s.len() - 1;
        lemma_all_fit_is_room(init, cap);
        assert(s.take(n + 1) =~= s);
        assert forall|k: int| 0 <= k < n implies #[trigger] s[k] == init[k] && s.take(k + 1)
            =~= init.take(k + 1) by {}
        if has_room(s, cap, n) {
            assert forall|k: int| 0 <= k <= n - 1 && !(#[trigger] init[k]).pinned implies bytes_of(
                init.take(k + 1),
            ) <= cap by {
                assert(s[k] == init[k]);
            }
            assert(s[n] == s.last());
        }
        if all_fit(s, cap) {
            assert forall|k: int| 0 <= k <= n && !(#[trigger] s[k]).pinned implies bytes_of(
                s.take(k + 1),
            ) <= cap by {
                if k < n {
                    assert(!init[k].pinned);
                }
            }
        }
    }
}

proof fn lemma_admits_is_room(s: Seq<Entrant>, cap: int, i: int)
    requires
        0 <= i < s.len(),
    ensures
        admits(s.take(i), cap, s[i]) <==> s[i].pinned || has_room(s, cap, i),
{
    let t = s.take(i + 1);
    lemma_all_fit_is_room(t, cap);
    assert(t.drop_last() =~= s.take(i));
    assert(t.last() == s[i]);
    assert forall|k: int| 0 <= k <= i implies #[trigger] s[k] == t[k] && s.take(k + 1)
        =~= t.take(k + 1) by {}
    if has_room(t, cap, i) {
        assert forall|k: int| 0 <= k <= i && !(#[trigger] s[k]).pinned implies bytes_of(
            s.take(k + 1),
        ) <= cap by {
            assert(!t[k].pinned);
        }
    }
    if has_room(s, cap, i) {
        assert forall|k: int| 0 <= k <= i && !(#[trigger] t[k]).pinned implies bytes_of(
            t.take(k + 1),
        ) <= cap by {
            assert(!s[k].pinned);
        }
    }
}

/// A page is refused only for want of room: where one is evicted, it or one that
/// ranks above it, not pinned, does not fit into the budget together with all
/// that rank above it. And a page that has no room is not kept unless it is
/// pinned.
pub proof fn law_pages_are_refused_for_want_of_room(s: Seq<Entrant>, cap: int, name: Seq<char>)
    ensures
        evicted(s, cap).contains(name) ==> exists|i: int, k: int|
            #![trigger s[i], s[k]]
            0 <= k <= i < s.len() && s[i].name == name && !s[i].pinned && !s[k].pinned
                && bytes_of(s.take(k + 1)) > cap,
        kept(s, cap).contains(name) ==> exists|i: int|
            0 <= i < s.len() && (#[trigger] s[i]).name == name && (s[i].pinned || forall|k: int|
                0 <= k <= i && !(#[trigger] s[k]).pinned ==> bytes_of(s.take(k + 1)) <= cap),
{
    if evicted(s, cap).contains(name) {
        let i = lemma_evicted_at(s, cap, name);
        lemma_admits_is_room(s, cap, i);
        let k = choose|k: int|
            0 <= k <= i && !(#[trigger] s[k]).pinned && bytes_of(s.take(k + 1)) > cap;
        assert(s[i].name == name && !s[k].pinned);
    }
    if kept(s, cap).contains(name) {
        let i = lemma_kept_at(s, cap, name);
        lemma_admits_is_room(s, cap, i);
        assert(s[i].name == name);
    }
}

/// Where all pages together fit into the budget all of them are kept, pinned or
/// not, in the order of the ranking, and none is evicted.
pub proof fn law_all_are_kept_where_all_fit(s: Seq<Entrant>, cap: int)
    requires
        bytes_of(s) <= cap,
    ensures
        kept(s, cap) == names(s),
        evicted(s, cap) == Seq::<Seq<char>>::empty(),
        load(s, cap) == bytes_of(s),
        kept(ranked(s), cap) == names(ranked(s)),
        evicted(ranked(s), cap) == Seq::<Seq<char>>::empty(),
{
    lemma_all_kept(s, cap);
    lemma_ranked_bytes(s);
    lemma_all_kept(ranked(s), cap);
}

proof fn lemma_all_kept(s: Seq<Entrant>, cap: int)
    requires
        bytes_of(s) <= cap,
    ensures
        kept(s, cap) == names(s),
        evicted(s, cap) == Seq::<Seq<char>>::empty(),
        load(s, cap) == bytes_of(s),
        all_fit(s, cap),
    decreases s.len(),
{
    if s.len() > 0 {
        lemma_all_kept(s.drop_last(), cap);
        assert(names(s) =~= names(s.drop_last()).push(s.last().name));
    } else {
        assert(names(s) =~= seq![]);
    }
}

proof fn lemma_ranked_bytes(s: Seq<Entrant>)
    ensures
        bytes_of(ranked(s)) == bytes_of(s),
    decreases s.len(),
{
    if s.len() > 0 {
        lemma_ranked_bytes(s.drop_last());
        lemma_put_in_bytes(ranked(s.drop_last()), s.last());
    }
}

proof fn lemma_put_in_bytes(s: Seq<Entrant>, x: Entrant)
    ensures
        bytes_of(put_in(s, x)) == bytes_of(s) + x.bytes,
    decreases s.len(),
{
    if s.len() > 0 && ranks_above(x, s.last()) {
        lemma_put_in_bytes(s.drop_last(), x);
        assert(put_in(s, x).drop_last() =~= put_in(s.drop_last(), x));
    } else {
        assert(s.push(x).drop_last() =~= s);
    }
}

/// A name comes before every longer one that begins with it, and of two names
/// that differ the one with the smaller character at the first difference comes
/// first.
pub proof fn law_first_difference_decides(
    common: Seq<char>,
    x: char,
    y: char,
    a: Seq<char>,
    b: Seq<char>,
)
    ensures
        name_before(common, common.push(x) + a),
        !name_before(common.push(x) + a, common),
        x < y ==> name_before(common.push(x) + a, common.push(y) + b),
    decreases common.len(),
{
    if common.len() > 0 {
        let rest = common.skip(1);
        law_first_difference_decides(rest, x, y, a, b);
        assert((common.push(x) + a).skip(1) =~= rest.push(x) + a);
        assert((common.push(y) + b).skip(1) =~= rest.push(y) + b);
    }
}

/// Of two pages the one with the larger key stands above the other in the
/// ranking, and where the keys are equal the one whose name comes first.
pub proof fn law_larger_keys_stand_above(s: Seq<Entrant>, i: int, j: int)
    requires
        0 <= i < j < s.len(),
    ensures
        ranked(s)[i].key >= ranked(s)[j].key,
        ranked(s)[i].key == ranked(s)[j].key ==> !name_before(
            ranked(s)[j].name,
            ranked(s)[i].name,
        ),
{
    law_ranking_orders_everyone(s);
}

fn is_name_before(a: &str, b: &str) -> (r: bool)
    ensures
        r == name_before(a@, b@),
{
    let x = scan::characters(a);
    let y = scan::characters(b);
    let mut i: usize = 0;
    assert(x@.skip(0) =~= x@);
    assert(y@.skip(0) =~= y@);
    while i < x.len() && i < y.len()
        invariant
            x@ == a@,
            y@ == b@,
            i <= x@.len(),
            i <= y@.len(),
            name_before(x@.skip(i as int), y@.skip(i as int)) == name_before(a@, b@),
        decreases x@.len() - i,
    {
        let ghost p = x@.skip(i as int);
        let ghost q = y@.skip(i as int);
        assert(p.skip(1) =~= x@.skip(i + 1));
        assert(q.skip(1) =~= y@.skip(i + 1));
        if x[i] < y[i] {
            return true;
        }
        if x[i] != y[i] {
            return false;
        }
        i = i + 1;
    }
    i < y.len()
}

fn is_above(a: &Candidate, b: &Candidate) -> (r: bool)
    ensures
        r == ranks_above(a@, b@),
{
    a.key > b.key || (a.key == b.key && is_name_before(a.name.as_str(), b.name.as_str()))
}

/// `put_in` puts `x` at position `at`, where everyone from there on ranks below
/// it and the one before does not.
proof fn lemma_put_in_at(s: Seq<Entrant>, x: Entrant, at: int)
    requires
        0 <= at <= s.len(),
        forall|i: int| at <= i < s.len() ==> ranks_above(x, #[trigger] s[i]),
        at > 0 ==> !ranks_above(x, s[at - 1]),
    ensures
        put_in(s, x) == s.insert(at, x),
    decreases s.len(),
{
    if at < s.len() {
        assert(ranks_above(x, s[s.len() - 1]));
        lemma_put_in_at(s.drop_last(), x, at);
        assert(s.insert(at, x) =~= s.drop_last().insert(at, x).push(s.last()));
    } else {
        assert(s.insert(at, x) =~= s.push(x));
    }
}

/// A page that is listed last comes in the ranking behind all that it does not
/// rank above, equals among them, and before all others, which keep their order.
pub proof fn law_equals_keep_their_order(s: Seq<Entrant>, x: Entrant)
    ensures
        exists|at: int|
            {
                &&& 0 <= at <= s.len()
                &&& ranked(s.push(x)) == #[trigger] ranked(s).insert(at, x)
                &&& forall|i: int|
                    0 <= i < at ==> (#[trigger] ranked(s)[i]).key > x.key || ranked(s)[i].key
                        == x.key && !name_before(x.name, ranked(s)[i].name)
                &&& forall|i: int|
                    at <= i < s.len() ==> x.key > (#[trigger] ranked(s)[i]).key || x.key
                        == ranked(s)[i].key && name_before(x.name, ranked(s)[i].name)
            },
{
    let r = ranked(s);
    law_ranking_orders_everyone(s);
    assert(s.push(x).drop_last() =~= s);
    let at = lemma_place(r, x, r.len() as int);
    lemma_put_in_at(r, x, at);
    assert forall|i: int| 0 <= i < at implies (#[trigger] r[i]).key > x.key || r[i].key == x.key
        && !name_before(x.name, r[i].name) by {
        if ranks_above(x, r[i]) {
            let b = r[at - 1];
            assert(!ranks_above(x, b));
            if i < at - 1 {
                assert(!ranks_above(b, r[i]));
                lemma_above_carries_down(x, r[i], b);
            }
        }
    }
    assert(ranked(s.push(x)) == ranked(s).insert(at, x));
}

/// The place among the first `k` of a ranking behind the last that `x` does not
/// rank above.
proof fn lemma_place(r: Seq<Entrant>, x: Entrant, k: int) -> (at: int)
    requires
        0 <= k <= r.len(),
        forall|i: int| k <= i < r.len() ==> ranks_above(x, #[trigger] r[i]),
    ensures
        0 <= at <= k,
        forall|i: int| at <= i < r.len() ==> ranks_above(x, #[trigger] r[i]),
        at > 0 ==> !ranks_above(x, r[at - 1]),
    decreases k,
{
    if k > 0 && ranks_above(x, r[k - 1]) {
        lemma_place(r, x, k - 1)
    } else {
        k
    }
}

/// What ranks above one that nothing ranks below ranks above that too.
proof fn lemma_above_carries_down(x: Entrant, a: Entrant, b: Entrant)
    requires
        ranks_above(x, a),
        !ranks_above(b, a),
    ensures
        ranks_above(x, b),
{
    if x.key == a.key && a.key == b.key {
        lemma_name_before_carries_down(x.name, a.name, b.name);
    }
}

proof fn lemma_name_before_carries_down(x: Seq<char>, a: Seq<char>, b: Seq<char>)
    requires
        name_before(x, a),
        !name_before(b, a),
    ensures
        name_before(x, b),
    decreases x.len() + a.len() + b.len(),
{
    if x.len() > 0 && a.len() > 0 && b.len() > 0 && x[0] == a[0] && a[0] == b[0] {
        lemma_name_before_carries_down(x.skip(1), a.skip(1), b.skip(1));
    }
}

/// The entrants at some positions of a list.
spec fn picked(s: Seq<Candidate>, order: Seq<usize>) -> Seq<Entrant> {
    Seq::new(order.len(), |i: int| s[order[i] as int]@)
}

/// The positions of the candidates by rank, the highest first.
fn rank_order(candidates: &Vec<Candidate>) -> (r: Vec<usize>)
    ensures
        forall|i: int| 0 <= i < r@.len() ==> #[trigger] r@[i] < candidates@.len(),
        picked(candidates@, r@) == ranked(entrants(candidates@)),
{
    let mut order: Vec<usize> = Vec::new();
    let ghost all = entrants(candidates@);
    let mut n: usize = 0;
    assert(picked(candidates@, order@) =~= ranked(all.take(0)));
    while n < candidates.len()
        invariant
            all == entrants(candidates@),
            n <= candidates@.len(),
            forall|i: int| 0 <= i < order@.len() ==> #[trigger] order@[i] < candidates@.len(),
            picked(candidates@, order@) == ranked(all.take(n as int)),
        decreases candidates@.len() - n,
    {
        let ghost s = picked(candidates@, order@);
        let ghost x = candidates@[n as int]@;
        let mut at: usize = order.len();
        while at > 0 && is_above(&candidates[n], &candidates[order[at - 1]])
            invariant
                n < candidates@.len(),
                x == candidates@[n as int]@,
                s == picked(candidates@, order@),
                at <= order@.len(),
                forall|i: int| 0 <= i < order@.len() ==> #[trigger] order@[i] < candidates@.len(),
                forall|i: int| at <= i < s.len() ==> ranks_above(x, #[trigger] s[i]),
            decreases at,
        {
            at = at - 1;
        }
        proof {
            lemma_put_in_at(s, x, at as int);
            let u = all.take(n + 1);
            assert(u.drop_last() =~= all.take(n as int));
            assert(u.last() == x);
        }
        order.insert(at, n);
        assert(picked(candidates@, order@) =~= s.insert(at as int, x));
        n = n + 1;
    }
    assert(all.take(n as int) =~= all);
    order
}

/// The names as they are.
pub open spec fn texts(s: Seq<String>) -> Seq<Seq<char>> {
    s.map_values(|n: String| n@)
}

/// Divide `cap` bytes among the candidates by rank, from the top down to the
/// first that does not fit. The result is the names of those that get a place
/// and of those that do not, by rank.
pub fn divide(candidates: &Vec<Candidate>, cap: usize) -> (r: (Vec<String>, Vec<String>))
    ensures
        texts(r.0@) == kept(ranked(entrants(candidates@)), cap as int),
        texts(r.1@) == evicted(ranked(entrants(candidates@)), cap as int),
{
    let order = rank_order(candidates);
    let ghost all = ranked(entrants(candidates@));
    let mut keep: Vec<String> = Vec::new();
    let mut evict: Vec<String> = Vec::new();
    let mut used: u128 = 0;
    let mut filling = true;
    let mut i: usize = 0;
    assert(texts(keep@) =~= kept(all.take(0), cap as int));
    assert(texts(evict@) =~= evicted(all.take(0), cap as int));
    while i < order.len()
        invariant
            all == ranked(entrants(candidates@)),
            picked(candidates@, order@) == all,
            i <= order@.len(),
            forall|k: int| 0 <= k < order@.len() ==> #[trigger] order@[k] < candidates@.len(),
            used == bytes_of(all.take(i as int)),
            filling == all_fit(all.take(i as int), cap as int),
            used <= i * usize::MAX,
            texts(keep@) == kept(all.take(i as int), cap as int),
            texts(evict@) == evicted(all.take(i as int), cap as int),
        decreases order@.len() - i,
    {
        let c = &candidates[order[i]];
        let ghost before_keep = keep@;
        let ghost before_evict = evict@;
        proof {
            let u = all.take(i + 1);
            assert(u.drop_last() =~= all.take(i as int));
            assert(u.last() == c@);
            assert(i * usize::MAX + usize::MAX <= 0xffff_ffff_ffff_ffff_ffff_ffff_ffff_ffffu128)
                by (nonlinear_arith)
                requires
                    0 <= i < usize::MAX,
                    usize::MAX <= 0xffff_ffff_ffff_ffff,
            ;
            assert((i + 1) * usize::MAX == i * usize::MAX + usize::MAX) by (nonlinear_arith);
        }
        used = used + c.bytes as u128;
        if c.pinned || (filling && used <= cap as u128) {
            keep.push(c.name.clone());
            assert(texts(keep@) =~= texts(before_keep).push(c.name@));
        } else {
            filling = false;
            evict.push(c.name.clone());
            assert(texts(evict@) =~= texts(before_evict).push(c.name@));
        }
        i = i + 1;
    }
    assert(all.take(i as int) =~= all);
    (keep, evict)
}

/// What a candidate stands for is all that it holds, and candidates come in the
/// order in which they are listed.
pub proof fn law_a_candidate_is_what_it_holds(candidates: Seq<Candidate>, i: int)
    requires
        0 <= i < candidates.len(),
    ensures
        entrants(candidates).len() == candidates.len(),
        entrants(candidates)[i].name == candidates[i].name@,
        entrants(candidates)[i].key == candidates[i].key,
        entrants(candidates)[i].bytes == candidates[i].bytes,
        entrants(candidates)[i].pinned == candidates[i].pinned,
{
}

} // verus!
