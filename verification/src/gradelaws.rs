//! What the grades of the trainer say of a decision and of the plays it is held against.
use crate::card::Card;
use crate::chart::{offered_has_best, CellInfo, ChartTable};
use crate::exact::exact;
use crate::grading::{
    best_allowed_upto, finite_evs, first_run, mark_by, mark_of, run_move_spec, simple_move_spec,
    DecisionMark, EvalJob, RefScore, Reference,
};
use crate::hand::{
    best_is_offered, best_move_spec, category_of, law_best_move_is_best, pair_of, ranks, Move,
    MoveEvs,
};
use crate::index::Run;
use crate::num::Scalar;
use crate::shoe::{best, hard, size};
use vstd::prelude::*;

verus! {

/// The best of some moves is one of them, and none of them has a greater value.
proof fn best_of_some<N: Scalar>(row: MoveEvs<N>, allowed: Seq<Move>, k: int, i: int)
    requires
        ranks::<N>(),
        0 <= i < k <= allowed.len(),
        row.at(allowed[i]) is Some,
    ensures
        best_allowed_upto(row, allowed, k) is Some,
        ({
            let (mv, top) = best_allowed_upto(row, allowed, k)->0;
            &&& row.at(mv) == Some(top)
            &&& allowed.contains(mv)
            &&& !top.less_spec(row.at(allowed[i])->0)
        }),
    decreases k,
{
    some_is_offered(row, allowed, k - 1);
    let so_far = best_allowed_upto(row, allowed, k - 1);
    assert(allowed.contains(allowed[k - 1]));
    if i < k - 1 {
        best_of_some(row, allowed, k - 1, i);
        let (mv, top) = so_far->0;
        if let Some(ev) = row.at(allowed[k - 1]) {
            if !ev.less_spec(top) {
                assert(!ev.less_spec(row.at(allowed[i])->0));
            }
        }
    } else if let Some((mv, top)) = so_far {
        let ev = row.at(allowed[i])->0;
        assert(!ev.less_spec(ev));
    }
}

proof fn some_is_offered<N: Scalar>(row: MoveEvs<N>, allowed: Seq<Move>, k: int)
    requires
        k <= allowed.len(),
    ensures
        best_allowed_upto(row, allowed, k) matches Some((mv, top)) ==> row.at(mv) == Some(top)
            && allowed.contains(mv),
    decreases k,
{
    if k > 0 {
        some_is_offered(row, allowed, k - 1);
        assert(allowed.contains(allowed[k - 1]));
    }
}

/// Where some move that is allowed has a value in the row of the chart, the play of basic
/// strategy is an allowed move, and no allowed move has a greater value in that row.
pub proof fn law_basic_play_is_the_best_allowed<N: Scalar>(
    job: EvalJob,
    evs: MoveEvs<N>,
    row: MoveEvs<N>,
    i: int,
)
    requires
        ranks::<N>(),
        0 <= i < job.allowed@.len(),
        row.at(job.allowed@[i]) is Some,
    ensures
        ({
            let basic = mark_of(job, evs, Some(row)).basic;
            &&& job.allowed@.contains(basic.mv)
            &&& row.at(basic.mv) is Some
            &&& !row.at(basic.mv)->0.less_spec(row.at(job.allowed@[i])->0)
        }),
{
    best_of_some(row, job.allowed@, job.allowed@.len() as int, i);
}

/// The value that a play is given is the one that its move has on the very hand, wherever it has
/// one: that of the move chosen and of every reference's alike.
pub proof fn law_plays_are_valued_on_the_hand<N: Scalar>(
    job: EvalJob,
    evs: MoveEvs<N>,
    row: Option<MoveEvs<N>>,
)
    requires
        evs.offers_any(),
    ensures
        ({
            let m = mark_of(job, evs, row);
            &&& m.chosen == job.chosen
            &&& m.opening == job.opening
            &&& evs.at(job.chosen) is Some ==> evs.at(job.chosen) == Some(m.ev_chosen)
            &&& evs.at(m.simple.mv) is Some ==> evs.at(m.simple.mv) == Some(m.simple.ev)
            &&& evs.at(m.basic.mv) is Some ==> evs.at(m.basic.mv) == Some(m.basic.ev)
            &&& evs.at(m.optimal.mv) == Some(m.optimal.ev)
            &&& match (job.indexed, m.indexed) {
                (Some(mv), Some(play)) => play.mv == mv && (evs.at(mv) is Some ==> evs.at(mv)
                    == Some(play.ev)),
                (None, None) => true,
                _ => false,
            }
        }),
{
    offered_has_best(evs);
    best_is_offered(evs, 5);
}

/// The best play is worth at least as much as any move that the hand offers.
pub proof fn law_optimal_play_is_best<N: Scalar>(
    job: EvalJob,
    evs: MoveEvs<N>,
    row: Option<MoveEvs<N>>,
    mv: Move,
)
    requires
        ranks::<N>(),
        evs.at(mv) is Some,
    ensures
        ({
            let best = mark_of(job, evs, row).optimal;
            evs.at(best.mv) is Some && !evs.at(best.mv)->0.less_spec(evs.at(mv)->0)
        }),
{
    law_best_move_is_best(evs, mv);
}

/// The beginner's play is the beginner's rule wherever the hand offers its move, and a card or
/// none wherever it does not.
pub proof fn law_simple_play_follows_the_rule<N: Scalar>(
    job: EvalJob,
    evs: MoveEvs<N>,
    row: Option<MoveEvs<N>>,
)
    requires
        evs.hit is Some,
    ensures
        ({
            let simple = mark_of(job, evs, row).simple;
            let rule = simple_move_spec(job.hand@, job.up);
            &&& evs.at(rule) is Some ==> simple.mv == rule
            &&& evs.at(rule) is None ==> simple.mv == Move::Hit
        }),
{
}

/// The beginner's rule, move by move. Aces and eights are split and nothing else is; a ten or
/// eleven of two cards is doubled against less and nothing else is; no total of 18 takes a card;
/// and hard 12 to 16 stands exactly against a card up to six.
pub proof fn law_beginners_rule(t: Seq<nat>, up: Card)
    requires
        up.valid(),
        t.len() == 10,
        hard(t) <= 21,
    ensures
        ({
            let mv = simple_move_spec(t, up);
            let pair = pair_of(t) == Some(Card::Ace) || pair_of(t) == Some(Card::Pip(8));
            &&& mv == Move::Split <==> pair
            &&& mv == Move::Double <==> !pair && best(t) < 18 && size(t) == 2 && ((hard(t) == 11
                && up != Card::Ace) || (hard(t) == 10 && up != Card::Ace && up != Card::Ten))
            &&& mv != Move::Surrender
            &&& !pair && best(t) >= 18 ==> mv == Move::Stand
            &&& !pair && 12 <= hard(t) <= 16 && best(t) < 18 ==> (mv == Move::Stand <==> up
                != Card::Ace && up.value() <= 6)
            &&& !pair && hard(t) == 17 ==> mv == Move::Stand
            &&& hard(t) <= 9 && best(t) < 18 && !pair ==> mv == Move::Hit
        }),
{
    crate::card::law_rank_round_trip(up, 0);
}

/// One decision more counts as one decision for every reference that has a play for it, and as
/// agreement exactly where the move chosen is that play.
pub proof fn law_agreement_is_counted<N: Scalar>(score: RefScore<N>, mark: DecisionMark<N>)
    requires
        score.has_room(),
    ensures
        ({
            let after = score.graded(mark);
            let play = match score.which {
                Reference::Simple => Some(mark.simple),
                Reference::Basic => Some(mark.basic),
                Reference::Indexed => mark.indexed,
                Reference::Optimal => Some(mark.optimal),
            };
            &&& after.which == score.which
            &&& after.decisions - score.decisions == if play is Some {
                1int
            } else {
                0
            }
            &&& after.agree - score.agree == if play is Some && play->0.mv == mark.chosen {
                1int
            } else {
                0
            }
            &&& after.agree <= after.decisions
            &&& after.rounds - score.rounds == if play is Some && mark.opening {
                1int
            } else {
                0
            }
        }),
{
}

/// In an exact arithmetic what the player is ahead of a reference changes, with the first decision
/// of a round, by what the move chosen is worth more than the reference's play, and with a later
/// one by what it is worth more than the best play. The indices are left alone by later decisions.
pub proof fn law_gap_is_what_decisions_cost<N: Scalar>(
    val: spec_fn(N) -> real,
    score: RefScore<N>,
    mark: DecisionMark<N>,
)
    requires
        exact(val),
        score.has_room(),
    ensures
        ({
            let after = score.graded(mark);
            let gap = val(score.player_ev) - val(score.ev);
            let now = val(after.player_ev) - val(after.ev);
            match score.which {
                Reference::Simple => now - gap == if mark.opening {
                    val(mark.ev_chosen) - val(mark.simple.ev)
                } else {
                    val(mark.ev_chosen) - val(mark.optimal.ev)
                },
                Reference::Basic => now - gap == if mark.opening {
                    val(mark.ev_chosen) - val(mark.basic.ev)
                } else {
                    val(mark.ev_chosen) - val(mark.optimal.ev)
                },
                Reference::Optimal => now - gap == val(mark.ev_chosen) - val(mark.optimal.ev),
                Reference::Indexed => now - gap == match mark.indexed {
                    Some(play) => if mark.opening {
                        val(mark.ev_chosen) - val(play.ev)
                    } else {
                        0real
                    },
                    None => 0real,
                },
            }
        }),
{
}

/// A round without a decision leaves what the player is ahead of every reference, and agreement,
/// as they were.
pub proof fn law_naturals_change_no_gap<N: Scalar>(
    val: spec_fn(N) -> real,
    score: RefScore<N>,
    ev: N,
)
    requires
        exact(val),
        score.has_room(),
    ensures
        ({
            let after = score.settled(ev);
            &&& val(after.player_ev) - val(after.ev) == val(score.player_ev) - val(score.ev)
            &&& after.agree == score.agree && after.decisions == score.decisions
            &&& score.which != Reference::Indexed ==> after.rounds == score.rounds + 1 && val(
                after.ev,
            ) == val(score.ev) + val(ev)
            &&& score.which == Reference::Indexed ==> after == score
        }),
{
}

/// Of the allowed moves that have the greatest value in the row, the last listed is the play of
/// basic strategy: every later one that has a value has a smaller one.
pub proof fn law_ties_go_to_the_later_move<N: Scalar>(
    job: EvalJob,
    evs: MoveEvs<N>,
    row: MoveEvs<N>,
    i: int,
)
    requires
        ranks::<N>(),
        0 <= i < job.allowed@.len(),
        row.at(job.allowed@[i]) is Some,
    ensures
        ({
            let basic = mark_of(job, evs, Some(row)).basic;
            exists|j: int|
                0 <= j < job.allowed@.len() && #[trigger] job.allowed@[j] == basic.mv && (i > j
                    ==> row.at(job.allowed@[i])->0.less_spec(row.at(basic.mv)->0))
        }),
{
    let n = job.allowed@.len() as int;
    let j = last_best(row, job.allowed@, n, i);
    assert(job.allowed@[j] == mark_of(job, evs, Some(row)).basic.mv);
}

proof fn last_best<N: Scalar>(row: MoveEvs<N>, allowed: Seq<Move>, k: int, i: int) -> (j: int)
    requires
        ranks::<N>(),
        0 <= i < k <= allowed.len(),
        row.at(allowed[i]) is Some,
    ensures
        0 <= j < k,
        best_allowed_upto(row, allowed, k) is Some,
        ({
            let (mv, top) = best_allowed_upto(row, allowed, k)->0;
            &&& allowed[j] == mv
            &&& row.at(mv) == Some(top)
            &&& i > j ==> row.at(allowed[i])->0.less_spec(top)
        }),
    decreases k,
{
    let so_far = best_allowed_upto(row, allowed, k - 1);
    if i < k - 1 {
        let j = last_best(row, allowed, k - 1, i);
        let (mv, top) = so_far->0;
        match row.at(allowed[k - 1]) {
            Some(ev) => if ev.less_spec(top) {
                j
            } else {
                k - 1
            },
            None => j,
        }
    } else {
        match so_far {
            Some((mv, top)) => {
                let ev = row.at(allowed[k - 1])->0;
                if ev.less_spec(top) {
                    some_is_offered(row, allowed, k - 1);
                    let j = place_of_best(row, allowed, k - 1);
                    j
                } else {
                    k - 1
                }
            },
            None => k - 1,
        }
    }
}

proof fn place_of_best<N: Scalar>(row: MoveEvs<N>, allowed: Seq<Move>, k: int) -> (j: int)
    requires
        0 <= k <= allowed.len(),
        best_allowed_upto(row, allowed, k) is Some,
    ensures
        0 <= j < k,
        ({
            let (mv, top) = best_allowed_upto(row, allowed, k)->0;
            allowed[j] == mv && row.at(mv) == Some(top)
        }),
    decreases k,
{
    let so_far = best_allowed_upto(row, allowed, k - 1);
    if best_allowed_upto(row, allowed, k) == so_far && so_far is Some {
        place_of_best(row, allowed, k - 1)
    } else {
        k - 1
    }
}

/// A decision on a finite shoe is graded by the values that its moves have on that shoe, and one
/// on the infinite deck by those of the row of the chart; the basic reference goes by the row in
/// either case.
pub proof fn law_decisions_are_graded_on_the_shoe<N: Scalar>(
    job: EvalJob,
    table: ChartTable<CellInfo<N>>,
    cell: CellInfo<N>,
)
    requires
        table.at(category_of(job.hand@)) == Some(cell),
    ensures
        match job.finite_shoe {
            Some(shoe) => match finite_evs::<N>(shoe@, job.hand@, job.up, job.rules) {
                Some(evs) => mark_by(job, table) == Some(mark_of(job, evs, Some(cell.move_evs))),
                None => mark_by(job, table) is None,
            },
            None => mark_by(job, table) == Some(
                mark_of(job, cell.move_evs, Some(cell.move_evs)),
            ),
        },
{
}

/// A play that the hand does not offer is valued at what the best play is worth: no move that the
/// hand offers is worth more, and some is worth as much.
pub proof fn law_plays_not_offered_cost_nothing<N: Scalar>(
    job: EvalJob,
    evs: MoveEvs<N>,
    row: Option<MoveEvs<N>>,
    mv: Move,
)
    requires
        ranks::<N>(),
        evs.at(mv) is Some,
    ensures
        ({
            let mark = mark_of(job, evs, row);
            let best = |x: N| !x.less_spec(evs.at(mv)->0) && exists|m: Move| #[trigger]
                evs.at(m) == Some(x);
            &&& evs.at(job.chosen) is None ==> best(mark.ev_chosen)
            &&& evs.at(mark.basic.mv) is None ==> best(mark.basic.ev)
            &&& job.indexed matches Some(m) ==> evs.at(m) is None ==> mark.indexed is Some && best(
                mark.indexed->0.ev,
            )
        }),
{
    law_best_move_is_best(evs, mv);
    best_is_offered(evs, 5);
    offered_has_best(evs);
    assert(evs.at(best_move_spec(evs)) is Some);
}

/// At a count beyond the runs of an index the move is that of the run at that end, and at any other
/// that of the run which holds the count.
pub proof fn law_runs_are_read_at_the_count(runs: Seq<Run>, ext: i16, i: int)
    requires
        0 <= i < runs.len(),
        forall|j: int| 0 <= j < runs.len() ==> (#[trigger] runs[j]).1 <= runs[j].2,
        forall|j: int, k: int|
            0 <= j < k < runs.len() ==> (#[trigger] runs[j]).2 < (#[trigger] runs[k]).1,
    ensures
        ext < runs[0].1 ==> run_move_spec(runs, ext) == Some(runs[0].0),
        ext > runs.last().2 ==> run_move_spec(runs, ext) == Some(runs.last().0),
        runs[i].1 <= ext <= runs[i].2 ==> run_move_spec(runs, ext) == Some(runs[i].0),
{
    let last = runs.len() - 1;
    assert(runs[0].1 <= runs[0].2 && runs[last].1 <= runs[last].2);
    assert(runs[i].1 <= runs[i].2);
    if last > 0 {
        assert(runs[0].2 < runs[last].1);
    }
    if 0 < i {
        assert(runs[0].2 < runs[i].1);
    }
    if i < last {
        assert(runs[i].2 < runs[last].1);
    }
    read_from(runs, runs[0].1, 0, 0);
    read_from(runs, runs[last].2, last, 0);
    if runs[i].1 <= ext <= runs[i].2 {
        read_from(runs, ext, i, 0);
    }
}

proof fn read_from(runs: Seq<Run>, e: i16, i: int, from: int)
    requires
        0 <= from <= i < runs.len(),
        runs[i].1 <= e <= runs[i].2,
        forall|j: int, k: int|
            0 <= j < k < runs.len() ==> (#[trigger] runs[j]).2 < (#[trigger] runs[k]).1,
    ensures
        first_run(runs, e, from) == Some(runs[i].0),
    decreases i - from,
{
    if from < i {
        assert(runs[from].2 < runs[i].1);
        read_from(runs, e, i, from + 1);
    }
}

} // verus!
