//! What the count indices tell of the moves at the counts.
use crate::card::Card;
use crate::chart::CellInfo;
use crate::count::{CountKind, CountSystemId};
use crate::exact::exact;
use crate::hand::{law_best_move_is_best, ranks, HandCategory, Move, MoveEvs};
use crate::index::{describes, follows, in_run, seed_at, seed_count, Answers, Run};
use crate::num::Scalar;
use crate::rules::Ruleset;
use crate::sharelaws::{law_window_drops_little, rises, share_sum, tail_sum};
use crate::sweep::{
    bands, basic_of, first_usable, flips_between, has_start_only, ladder_move, last_usable,
    running_dist, start_only_upto, sweep_of, usable, window_of, CategoryIndex, Ladder, Sweep,
};
use vstd::prelude::*;

verus! {

/// What is told of a hand that may no longer double, split or be given up is the better of
/// hitting and standing, and hitting where they are equal.
pub proof fn law_fallback_is_the_better_of_two<N: Scalar>(evs: MoveEvs<N>, h: N, s: N)
    requires
        ranks::<N>(),
        evs.hit == Some(h),
        evs.stand == Some(s),
    ensures
        h.less_spec(s) ==> ladder_move(evs, Ladder::HitStand) == Some(Move::Stand),
        s.less_spec(h) ==> ladder_move(evs, Ladder::HitStand) == Some(Move::Hit),
        !h.less_spec(s) && !s.less_spec(h) ==> ladder_move(evs, Ladder::HitStand) == Some(Move::Hit),
{
}

/// The headline that is told is a move of the row that no other move of the row beats.
pub proof fn law_headline_told_is_best<N: Scalar>(evs: MoveEvs<N>, mv: Move)
    requires
        ranks::<N>(),
        evs.at(mv) is Some,
    ensures
        ladder_move(evs, Ladder::Primary) matches Some(top) && evs.at(top) is Some && !evs.at(
            top,
        )->0.less_spec(evs.at(mv)->0),
{
    law_best_move_is_best(evs, mv);
}

/// Every run has the move of some count.
proof fn run_is_answered(runs: Seq<Run>, f: Answers, lo: i16, hi: i16, i: int) -> (x: i16)
    requires
        describes(runs, f, lo, hi),
        lo <= hi,
        0 <= i < runs.len(),
    ensures
        f(x) == Some(runs[i].0),
{
    if i > 0 {
        assert(follows(f, runs, i - 1));
        runs[i].1
    } else if runs.len() > 1 {
        assert(follows(f, runs, 0));
        runs[0].2
    } else {
        let k = choose|k: int|
            0 <= k < seed_count(lo as int, hi as int) && f(
                (#[trigger] seed_at(lo as int, hi as int, k)) as i16,
            ) is Some;
        let j = choose|j: int|
            0 <= j < runs.len() && in_run(#[trigger] runs[j], seed_at(lo as int, hi as int, k))
                && f(seed_at(lo as int, hi as int, k) as i16) == Some(runs[j].0);
        seed_at(lo as int, hi as int, k) as i16
    }
}

/// A row has runs for hands that may no longer double, split or be given up exactly where it
/// recommends one of these at some count, and those runs tell of hitting and standing alone.
pub proof fn law_fallback_goes_with_first_moves<N: Scalar>(
    ci: CategoryIndex,
    sw: Sweep,
    cat: HandCategory,
    i: int,
)
    requires
        sw.valid(),
        ci.indexes::<N>(sw, cat),
        0 <= i < ci.fallback@.len(),
    ensures
        exists|j: int|
            0 <= j < ci.primary@.len() && ((#[trigger] ci.primary@[j]).0 == Move::Double
                || ci.primary@[j].0 == Move::Split || ci.primary@[j].0 == Move::Surrender),
        ci.fallback@[i].0 == Move::Hit || ci.fallback@[i].0 == Move::Stand,
{
    assert(has_start_only(ci.primary@));
    let j = choose|j: int| 0 <= j < ci.primary@.len() && (#[trigger] ci.primary@[j]).0.start_only_spec();
    assert(ci.primary@[j].0 == Move::Double || ci.primary@[j].0 == Move::Split || ci.primary@[j].0
        == Move::Surrender);
    let f = sw.answers::<N>(cat, Ladder::HitStand);
    let x = run_is_answered(ci.fallback@, f, sw.lo, sw.hi, i);
    assert(f(x) == sw.move_spec::<N>(x as int, cat, Ladder::HitStand));
}

/// The runs of a row, where they follow each other without a gap, show a change in a band exactly
/// where two neighbouring counts, the later one in the band, have different runs.
pub proof fn law_flips_are_changes_of_the_run(runs: Seq<Run>, lo: int, hi: int, x: int, i: int, j: int)
    requires
        forall|k: int| 0 <= k < runs.len() - 1 ==> (#[trigger] runs[k]).2 + 1 == runs[k + 1].1,
        forall|k: int| 0 <= k < runs.len() ==> (#[trigger] runs[k]).1 <= runs[k].2,
        lo <= x <= hi,
        0 <= i < runs.len(),
        0 <= j < runs.len(),
        in_run(runs[i], x - 1),
        in_run(runs[j], x),
    ensures
        i != j ==> flips_between(runs, lo, hi),
        !flips_between(runs, lo, hi) ==> i == j,
{
    if i < j {
        starts_rise(runs, i, j);
        assert(runs[j].1 == x) by {
            if runs[j].1 < x {
                assert(in_run(runs[j], x - 1));
            }
        }
        assert(lo <= runs[j].1 <= hi);
    } else if j < i {
        starts_rise(runs, j, i);
    }
}

proof fn starts_rise(runs: Seq<Run>, i: int, j: int)
    requires
        forall|k: int| 0 <= k < runs.len() - 1 ==> (#[trigger] runs[k]).2 + 1 == runs[k + 1].1,
        forall|k: int| 0 <= k < runs.len() ==> (#[trigger] runs[k]).1 <= runs[k].2,
        0 <= i < j < runs.len(),
    ensures
        runs[i].2 < runs[j].1,
    decreases j - i,
{
    assert(runs[i].2 + 1 == runs[i + 1].1);
    if i + 1 < j {
        starts_rise(runs, i + 1, j);
        assert(runs[i + 1].1 <= runs[i + 1].2);
    }
}

/// A change that is shown in a band is one: a count in the band begins a run that another run
/// comes before.
pub proof fn law_shown_flips_are_there(runs: Seq<Run>, lo: int, hi: int)
    requires
        flips_between(runs, lo, hi),
    ensures
        exists|j: int| 0 < j < runs.len() && lo <= (#[trigger] runs[j]).1 <= hi,
{
}

/// In an exact arithmetic the sweep leaves out no more than a hundredth of the counts at either
/// end, and the counts at which a change is marked leave out no more than a tenth; both cover
/// the counts near the pivot, and whatever is marked is swept.
pub proof fn law_bands_cover_the_counts<N: Scalar>(
    val: spec_fn(N) -> real,
    dist: Seq<(i16, N)>,
    pivot: int,
)
    requires
        exact(val),
        dist.len() > 0,
        rises(dist),
        forall|i: int| 0 <= i < dist.len() ==> val((#[trigger] dist[i]).1) >= 0real,
    ensures
        ({
            let (marks, swept) = bands(dist, pivot);
            let all = share_sum(val, dist);
            &&& all - tail_sum(val, dist, swept.0) <= 1real / 100real
            &&& tail_sum(val, dist, swept.1 + 1) <= 1real / 100real
            &&& all - tail_sum(val, dist, marks.0) <= 1real / 10real
            &&& tail_sum(val, dist, marks.1 + 1) <= 1real / 10real
            &&& swept.0 <= marks.0 <= pivot - 5
            &&& pivot + 5 <= marks.1 <= swept.1
        }),
{
    let tenth = N::ratio_spec(1, 10);
    let hundredth = N::ratio_spec(1, 100);
    assert(val(tenth) == 1real / 10real);
    assert(val(hundredth) == 1real / 100real);
    assert(1real / 10real >= 0real && 1real / 100real >= 0real) by (nonlinear_arith);
    law_window_drops_little(val, dist, tenth);
    law_window_drops_little(val, dist, hundredth);
    let (marks, swept) = bands(dist, pivot);
    let common = window_of(dist, tenth);
    let wide = window_of(dist, hundredth);
    tails_fall(val, dist, swept.0, wide.0 as int);
    tails_fall(val, dist, wide.1 + 1, swept.1 + 1);
    tails_fall(val, dist, marks.0, common.0 as int);
    tails_fall(val, dist, common.1 + 1, marks.1 + 1);
}

proof fn tails_fall<N: Scalar>(val: spec_fn(N) -> real, dist: Seq<(i16, N)>, c: int, d: int)
    requires
        c <= d,
        forall|i: int| 0 <= i < dist.len() ==> val((#[trigger] dist[i]).1) >= 0real,
    ensures
        tail_sum(val, dist, d) <= tail_sum(val, dist, c),
    decreases dist.len(),
{
    if dist.len() > 0 {
        let less = dist.drop_last();
        assert forall|i: int| 0 <= i < less.len() implies val((#[trigger] less[i]).1) >= 0real by {
            assert(less[i] == dist[i]);
        }
        tails_fall(val, less, c, d);
        assert(val(dist[dist.len() - 1].1) >= 0real);
    }
}

/// The moves for the first two cards that a row tells of are those of its runs, each once.
pub proof fn law_first_moves_are_listed_once(runs: Seq<Run>, k: int, mv: Move)
    requires
        0 <= k <= runs.len(),
    ensures
        start_only_upto(runs, k).contains(mv) <==> (mv == Move::Double || mv == Move::Split || mv
            == Move::Surrender) && exists|i: int| 0 <= i < k && (#[trigger] runs[i]).0 == mv,
        start_only_upto(runs, k).no_duplicates(),
    decreases k,
{
    let now = start_only_upto(runs, k);
    if k > 0 {
        law_first_moves_are_listed_once(runs, k - 1, mv);
        let before = start_only_upto(runs, k - 1);
        let last = runs[k - 1].0;
        if now != before {
            assert(now == before.push(last));
            assert(now[before.len() as int] == last);
            if now.contains(mv) {
                let j = choose|j: int| 0 <= j < now.len() && now[j] == mv;
                if j < before.len() {
                    assert(before[j] == mv);
                } else {
                    assert(runs[k - 1].0 == mv);
                }
            }
            if before.contains(mv) {
                let j = choose|j: int| 0 <= j < before.len() && before[j] == mv;
                assert(now[j] == mv);
            }
        }
        if exists|i: int| 0 <= i < k && (#[trigger] runs[i]).0 == mv {
            let i = choose|i: int| 0 <= i < k && (#[trigger] runs[i]).0 == mv;
            if i == k - 1 && now == before {
                assert(mv == last);
            }
        }
    }
}

/// The moves that a row recommends without a count are those of the chart without one: its
/// headline, and the better of hitting and standing.
pub proof fn law_basic_moves_are_those_of_the_chart<N: Scalar>(cell: CellInfo<N>, h: N, s: N)
    requires
        cell.move_evs.hit == Some(h),
        cell.move_evs.stand == Some(s),
    ensures
        basic_of(Some(cell)) == (Some(cell.headline), Some(
            if h.less_spec(s) {
                Move::Stand
            } else {
                Move::Hit
            },
        )),
        basic_of::<N>(None) == (None::<Move>, None::<Move>),
{
}

/// A sweep is over the counts of its kind, and has every count within five of the pivot that some
/// shoe has: the running count at which KO is even, or a true count of zero. Whatever is marked is
/// swept. A sweep of running counts
/// begins and ends with one that some shoe has.
pub proof fn law_sweeps_go_round_the_pivot<N: Scalar>(
    kind: CountKind,
    n: u8,
    up: Card,
    rules: Ruleset,
    c: int,
)
    ensures
        match sweep_of::<N>(kind, n, up, rules) {
            Some((sw, marks)) => {
                let pivot: int = match kind {
                    CountKind::Running => CountSystemId::Ko.pivot_spec(n as int),
                    CountKind::TrueCount => 0,
                };
                let had = kind == CountKind::Running ==> usable::<N>(n as int, c);
                &&& sw.kind == kind && sw.n == n && sw.up == up && sw.rules == rules
                &&& pivot - 5 <= c <= pivot + 5 && had ==> sw.lo <= c <= sw.hi
                &&& pivot - 5 <= c <= pivot + 5 && had ==> marks.0 <= c <= marks.1
                &&& sw.lo <= marks.0 <= marks.1 <= sw.hi
                &&& kind == CountKind::Running ==> usable::<N>(n as int, sw.lo as int) && usable::<N>(
                    n as int,
                    sw.hi as int,
                )
            },
            None => true,
        },
{
    if kind == CountKind::Running {
        let (m, w) = bands(running_dist::<N>(n), CountSystemId::Ko.pivot_spec(n as int));
        first_found::<N>(n as int, w.0, w.1, c);
        last_found::<N>(n as int, w.1, w.0, c);
        let first = first_usable::<N>(n as int, w.0, w.1);
        last_found::<N>(n as int, w.1, w.0, first);
    }
}

proof fn first_found<N: Scalar>(n_decks: int, from: int, hi: int, c: int)
    ensures
        ({
            let first = first_usable::<N>(n_decks, from, hi);
            &&& from <= first
            &&& first <= hi ==> usable::<N>(n_decks, first)
            &&& from <= c <= hi && usable::<N>(n_decks, c) ==> first <= c
            &&& from <= hi + 1 ==> first <= hi + 1
        }),
    decreases hi - from + 1,
{
    if from <= hi && !usable::<N>(n_decks, from) {
        first_found::<N>(n_decks, from + 1, hi, c);
    }
}

proof fn last_found<N: Scalar>(n_decks: int, from: int, lo: int, c: int)
    ensures
        ({
            let last = last_usable::<N>(n_decks, from, lo);
            &&& last <= from
            &&& last >= lo ==> usable::<N>(n_decks, last)
            &&& lo <= c <= from && usable::<N>(n_decks, c) ==> last >= c
            &&& from >= lo - 1 ==> last >= lo - 1
        }),
    decreases from - lo + 1,
{
    if from >= lo && !usable::<N>(n_decks, from) {
        last_found::<N>(n_decks, from - 1, lo, c);
    }
}

} // verus!
