//! What a sweep does to the placement of the pages.

use crate::error::Failure;
use crate::tiered::access::{Step, Work};
use crate::tiered::demote::{Retreat, WriteBack};
use crate::tiered::model::Pool;
use crate::tiered::sweep::{self, Move, Moves};
use crate::vmt::{PageState, Tier};
use vstd::prelude::*;

verus! {

/// `after` is `before` once a move was made: the page is off its device or on
/// one, and every other page is where it was.
pub open spec fn moved(before: Pool, after: Pool, step: Move) -> bool {
    &&& forall|x: Seq<char>| #[trigger] after.has(x) == before.has(x)
    &&& forall|x: Seq<char>| #[trigger]
        after.is_resident(x) == match step {
            Move::Demote(name) => x != name && before.is_resident(x),
            Move::Promote(name) => x == name || before.is_resident(x),
            Move::Finished(_) => before.is_resident(x),
        }
}

/// Every page of `after` is where it is in `before`.
pub open spec fn unmoved(before: Pool, after: Pool) -> bool {
    &&& forall|x: Seq<char>| #[trigger] after.has(x) == before.has(x)
    &&& forall|x: Seq<char>| #[trigger] after.is_resident(x) == before.is_resident(x)
}

/// The move is the promotion of one of the pages `failed`.
pub open spec fn fails(step: Move, failed: Set<Seq<char>>) -> bool {
    step matches Move::Promote(name) && failed.contains(name)
}

/// `trace` is a sweep that goes on with `m`: each pool of it is what the move
/// that comes next makes of the one before, and the sweep is over at the last.
/// The promotions of the pages `failed` fail, which a sweep by rate goes on
/// after.
pub open spec fn swept(m: Moves, trace: Seq<Pool>, failed: Set<Seq<char>>) -> bool
    decreases trace.len(),
{
    &&& trace.len() > 0
    &&& {
        let (at, step) = trace[0].next_move(m);
        if step is Finished {
            trace.len() == 1
        } else {
            &&& trace.len() > 1
            &&& if fails(step, failed) {
                m.lenient && unmoved(trace[0], trace[1])
            } else {
                moved(trace[0], trace[1], step)
            }
            &&& swept(Moves { at, ..m }, trace.skip(1), failed)
        }
    }
}

/// No page is both to be demoted and to be promoted.
pub open spec fn of_one_mind(m: Moves) -> bool {
    forall|i: int, j: int|
        #![trigger m.demote[i], m.promote[j]]
        0 <= i < m.demote.len() && 0 <= j < m.promote.len() ==> m.demote[i] != m.promote[j]
}

/// The moves that are behind have had their effect, but for those that failed.
spec fn in_place(pool: Pool, m: Moves, failed: Set<Seq<char>>) -> bool {
    &&& forall|i: int|
        0 <= i < m.demote.len() && i < m.at ==> !pool.is_resident(#[trigger] m.demote[i])
    &&& forall|j: int|
        0 <= j < m.promote.len() && m.demote.len() + j < m.at && pool.has(m.promote[j])
            && !failed.contains(m.promote[j]) ==> pool.is_resident(#[trigger] m.promote[j])
}

/// What is passed over on the way to the next move is in its place already.
proof fn lemma_next_move(pool: Pool, m: Moves, failed: Set<Seq<char>>)
    requires
        0 <= m.at <= m.demote.len() + m.promote.len(),
    ensures
        ({
            let d = m.demote.len() as int;
            let (at, step) = pool.next_move(m);
            &&& m.at <= at <= d + m.promote.len()
            &&& match step {
                Move::Demote(name) => m.at < at <= d && name == m.demote[at - 1],
                Move::Promote(name) => m.at < at && d < at && name == m.promote[at - 1 - d],
                Move::Finished(r) => at == d + m.promote.len() && r == Ok::<(), Failure>(()),
            }
            &&& in_place(pool, m, failed) ==> in_place(
                pool,
                Moves {
                    at: if step is Finished {
                        at
                    } else {
                        at - 1
                    },
                    ..m
                },
                failed,
            )
        }),
    decreases m.demote.len() + m.promote.len() - m.at,
{
    let d = m.demote.len() as int;
    let next = Moves { at: m.at + 1, ..m };
    if m.at < d {
        if m.lenient && !pool.is_resident(m.demote[m.at]) {
            lemma_next_move(pool, next, failed);
        }
    } else if m.at < d + m.promote.len() {
        let name = m.promote[m.at - d];
        if m.lenient && !(pool.has(name) && !pool.is_resident(name)) {
            lemma_next_move(pool, next, failed);
        }
    }
}

/// A sweep demotes before it promotes, so that what a promotion needs is free
/// by then: once it has come to a promotion, no demotion follows, whatever has
/// become of the pages meanwhile.
pub proof fn law_demotions_come_first(pool: Pool, later: Pool, m: Moves)
    requires
        0 <= m.at <= m.demote.len() + m.promote.len(),
        pool.next_move(m).1 is Promote,
    ensures
        later.next_move(Moves { at: pool.next_move(m).0, ..m }).1 !is Demote,
{
    lemma_next_move(pool, m, Set::empty());
    lemma_next_move(later, Moves { at: pool.next_move(m).0, ..m }, Set::empty());
}

/// Every move of a sweep leaves fewer to be made, so that a sweep comes to an
/// end.
pub proof fn law_a_sweep_goes_on(pool: Pool, m: Moves)
    requires
        0 <= m.at <= m.demote.len() + m.promote.len(),
    ensures
        pool.next_move(m).0 <= m.demote.len() + m.promote.len(),
        pool.next_move(m).1 !is Finished ==> pool.next_move(m).0 > m.at,
        m.at == m.demote.len() + m.promote.len() ==> pool.next_move(m).1 == Move::Finished(Ok(())),
{
    lemma_next_move(pool, m, Set::empty());
}

/// A sweep by rate moves only pages that are not where they are to be.
pub proof fn law_a_sweep_by_rate_moves_what_it_must(pool: Pool, m: Moves)
    requires
        m.lenient,
    ensures
        pool.next_move(m).1 matches Move::Demote(name) ==> pool.is_resident(name),
        pool.next_move(m).1 matches Move::Promote(name) ==> pool.has(name) && !pool.is_resident(
            name,
        ),
    decreases m.demote.len() + m.promote.len() - m.at,
{
    if m.at < m.demote.len() + m.promote.len() {
        law_a_sweep_by_rate_moves_what_it_must(pool, Moves { at: m.at + 1, ..m });
    }
}

/// A sweep that is over has made residence match: no page that was to be demoted
/// is on a device, and every page that was to be promoted is on one. In a sweep
/// by rate promotions may fail: only the pages they were for are left out.
pub proof fn law_a_sweep_makes_residence_match(
    m: Moves,
    trace: Seq<Pool>,
    failed: Set<Seq<char>>,
)
    requires
        m.at == 0,
        of_one_mind(m),
        swept(m, trace, failed),
    ensures
        forall|i: int|
            0 <= i < m.demote.len() ==> !trace.last().is_resident(#[trigger] m.demote[i]),
        forall|j: int|
            0 <= j < m.promote.len() && trace.last().has(m.promote[j]) && !failed.contains(
                m.promote[j],
            ) ==> trace.last().is_resident(#[trigger] m.promote[j]),
{
    lemma_sweep_keeps_place(m, trace, failed);
    let end = Moves { at: (m.demote.len() + m.promote.len()) as int, ..m };
    assert forall|i: int| 0 <= i < m.demote.len() implies !trace.last().is_resident(
        #[trigger] m.demote[i],
    ) by {
        assert(!trace.last().is_resident(end.demote[i]));
    }
    assert forall|j: int|
        0 <= j < m.promote.len() && trace.last().has(m.promote[j]) && !failed.contains(
            m.promote[j],
        ) implies trace.last().is_resident(#[trigger] m.promote[j]) by {
        assert(trace.last().is_resident(end.promote[j]));
    }
}

proof fn lemma_sweep_keeps_place(m: Moves, trace: Seq<Pool>, failed: Set<Seq<char>>)
    requires
        0 <= m.at <= m.demote.len() + m.promote.len(),
        of_one_mind(m),
        swept(m, trace, failed),
        in_place(trace[0], m, failed),
    ensures
        in_place(
            trace.last(),
            Moves { at: (m.demote.len() + m.promote.len()) as int, ..m },
            failed,
        ),
    decreases trace.len(),
{
    let (at, step) = trace[0].next_move(m);
    lemma_next_move(trace[0], m, failed);
    if step !is Finished {
        let next = Moves { at, ..m };
        let d = m.demote.len() as int;
        let reached = Moves { at: at - 1, ..m };
        assert(in_place(trace[0], reached, failed));
        assert forall|i: int| 0 <= i < next.demote.len() && i < at implies !trace[1].is_resident(
            #[trigger] next.demote[i],
        ) by {
            if i < at - 1 {
                assert(!trace[0].is_resident(reached.demote[i]));
            }
        }
        assert forall|j: int|
            0 <= j < next.promote.len() && d + j < at && trace[1].has(next.promote[j])
                && !failed.contains(next.promote[j]) implies trace[1].is_resident(#[trigger] next.promote[j]) by {
            assert(trace[0].has(next.promote[j]));
            if d + j < at - 1 {
                assert(trace[0].is_resident(reached.promote[j]));
            }
        }
        assert(in_place(trace[1], next, failed));
        lemma_sweep_keeps_place(next, trace.skip(1), failed);
        assert(trace.skip(1).last() == trace.last());
    }
}

/// Pools with the same table have every page in the same place.
pub proof fn law_the_table_says_where_pages_are(before: Pool, after: Pool)
    requires
        after.table == before.table,
    ensures
        unmoved(before, after),
{
}

/// A demotion that succeeds takes the page off its device and leaves every
/// other page where it is. Before it is over, and where it fails, no page is
/// moved.
pub proof fn law_a_demotion_is_a_move(pool: Pool, name: Seq<char>)
    requires
        pool.has(name),
        !pool.page(name).pinned,
    ensures
        pool.demote(name).1 == Retreat::Finished(Ok(())) ==> moved(
            pool,
            pool.demote(name).0,
            Move::Demote(name),
        ),
        pool.demote(name).1 != Retreat::Finished(Ok(())) ==> pool.demote(name).0.table
            == pool.table,
{
}

/// A demotion that goes on and succeeds takes the page off its device and leaves
/// every other page where it is. Before it is over, and where it fails, no page
/// is moved.
pub proof fn law_a_resumed_demotion_is_a_move(
    pool: Pool,
    name: Seq<char>,
    w: WriteBack,
    event: Result<(), Failure>,
)
    requires
        pool.has(name),
    ensures
        pool.resume_demote(name, w, event).1 == Retreat::Finished(Ok(())) ==> moved(
            pool,
            pool.resume_demote(name, w, event).0,
            Move::Demote(name),
        ),
        pool.resume_demote(name, w, event).1 != Retreat::Finished(Ok(())) ==> pool.resume_demote(
            name,
            w,
            event,
        ).0.table == pool.table,
{
}

/// An access that succeeds leaves the page on a device and every other page
/// where it is. Before it is over, and where it fails, no page is moved.
#[verifier::spinoff_prover]
#[verifier::rlimit(40)]
pub proof fn law_an_access_is_a_move(pool: Pool, name: Seq<char>, gpu: int, now: u64)
    ensures
        match pool.access(name, gpu, now).1 {
            Step::Finished(Ok(_)) => pool.has(name) && moved(
                pool,
                pool.access(name, gpu, now).0,
                Move::Promote(name),
            ),
            _ => pool.access(name, gpu, now).0.table == pool.table,
        },
{
}

/// An access that goes on and succeeds leaves the page on a device and every
/// other page where it is. Before it is over, and where it fails, no page is
/// moved.
pub proof fn law_a_resumed_access_is_a_move(
    pool: Pool,
    name: Seq<char>,
    gpu: int,
    now: u64,
    work: Work,
    event: Result<u64, Failure>,
)
    requires
        pool.has(name),
    ensures
        match pool.resume_access(name, gpu, now, work, event).1 {
            Step::Finished(Ok(_)) => moved(
                pool,
                pool.resume_access(name, gpu, now, work, event).0,
                Move::Promote(name),
            ),
            _ => pool.resume_access(name, gpu, now, work, event).0.table == pool.table,
        },
{
}

/// A page is stale once its last access lies further back than the threshold of
/// the pool, if it is on a device and not pinned. It is wanted once it was
/// accessed as often as the threshold says, if it is in host memory.
pub proof fn law_thresholds_decide(pool: Pool, name: Seq<char>, now: u64)
    ensures
        pool.is_stale(name, now) <==> pool.has(name) && pool.page(name).state
            == PageState::Resident && !pool.page(name).pinned && now
            > pool.page(name).last_access_ns + pool.idle_threshold_ns,
        pool.is_wanted(name) <==> pool.has(name) && pool.page(name).tier == Tier::Dram
            && pool.page(name).access_count >= pool.hot_threshold,
        pool.is_resident(name) <==> pool.has(name) && pool.page(name).tier == Tier::Vram,
{
}

/// A sweep by idle time demotes no page that was accessed within the threshold
/// and none that is pinned, and promotes no page that was not accessed often
/// enough or that is not in host memory.
pub proof fn law_a_sweep_spares_recent_pages(
    pool: Pool,
    later: Pool,
    m: Moves,
    now: u64,
    name: Seq<char>,
)
    requires
        sweep::names_exactly(m.demote, |n: Seq<char>| pool.is_stale(n, now)),
        sweep::names_exactly(m.promote, |n: Seq<char>| pool.is_wanted(n)),
        0 <= m.at <= m.demote.len() + m.promote.len(),
    ensures
        later.next_move(m).1 == Move::Demote(name) ==> {
            &&& pool.has(name)
            &&& pool.page(name).state == PageState::Resident
            &&& !pool.page(name).pinned
            &&& now > pool.page(name).last_access_ns + pool.idle_threshold_ns
        },
        later.next_move(m).1 == Move::Promote(name) ==> {
            &&& pool.has(name)
            &&& pool.page(name).tier == Tier::Dram
            &&& pool.page(name).access_count >= pool.hot_threshold
        },
{
    lemma_next_move(later, m, Set::empty());
    let at = later.next_move(m).0;
    if later.next_move(m).1 == Move::Demote(name) {
        assert(m.demote.contains(m.demote[at - 1]));
        assert((|n: Seq<char>| pool.is_stale(n, now))(name));
    }
    if later.next_move(m).1 == Move::Promote(name) {
        assert(m.promote.contains(m.promote[at - 1 - m.demote.len()]));
        assert((|n: Seq<char>| pool.is_wanted(n))(name));
    }
}

/// A sweep by idle time makes all its moves, one after the other: whatever has
/// become of the pages meanwhile, none is passed over.
pub proof fn law_a_sweep_by_idle_time_makes_every_move(pool: Pool, m: Moves)
    requires
        !m.lenient,
        0 <= m.at,
    ensures
        ({
            let d = m.demote.len() as int;
            let (at, step) = pool.next_move(m);
            &&& m.at < d ==> at == m.at + 1 && step == Move::Demote(m.demote[m.at])
            &&& d <= m.at < d + m.promote.len() ==> at == m.at + 1 && step == Move::Promote(
                m.promote[m.at - d],
            )
            &&& m.at >= d + m.promote.len() ==> at == m.at && step == Move::Finished(Ok(()))
        }),
{
}

/// A demotion that fails ends a sweep of either kind. A promotion that fails
/// ends a sweep by idle time and does not end a sweep by rate.
pub proof fn law_failed_promotions_do_not_end_a_sweep_by_rate(pool: Pool, m: Moves)
    requires
        0 <= m.at <= m.demote.len() + m.promote.len(),
    ensures
        ({
            let (at, step) = pool.next_move(m);
            let then = Moves { at, ..m };
            &&& step is Demote ==> then.ends_with_failure()
            &&& step is Promote ==> (then.ends_with_failure() <==> !m.lenient)
        }),
{
    lemma_next_move(pool, m, Set::empty());
}

} // verus!
