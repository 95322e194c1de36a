//! What a cell of the chart says of the hands of its row.
use crate::chart::{
    cell_evs, chart_hit_upto, chart_value, charted_move, counts, deciding_pool, is_breakdown,
    is_cell, is_chart, is_summary, legal_part, names_all, pooled, pooled_upto, row_hands, row_sum,
    share_of, shift_of, table_edge, CellInfo, ChartTable, Pool, ShareRow,
};
use crate::drawing::Shoe;
use crate::exact::{exact, exact_whole};
use crate::hand::{
    best_is_offered, best_move_spec, category_of, law_best_move_is_best, ranks,
    HandCategory, Move, MoveEvs,
};
use crate::num::Scalar;
use crate::reach::mass_of;
use crate::rules::Ruleset;
use crate::shoe::{hard, size, with_card, Tally};
use crate::simulation::{basis_draws, basis_draws_are_there, Basis};
use crate::solve::{
    best_edge, best_value, child_fits, child_total, dealable, edge_upto, every_hand_stands, hand_ev,
    hit_upto, is_tree,
};
use vstd::prelude::*;

verus! {

/// The mass of the hands among the first `k` that belong to a row and offer a move, of two cards
/// only or of any number.
pub open spec fn offering_mass<N: Scalar>(
    val: spec_fn(N) -> real,
    order: Seq<Tally>,
    tree: Map<Tally, (N, MoveEvs<N>)>,
    weights: Map<Tally, N>,
    two: bool,
    cat: HandCategory,
    mv: Move,
    k: int,
) -> real
    decreases k,
{
    if k <= 0 {
        0real
    } else {
        let t = order[k - 1];
        offering_mass(val, order, tree, weights, two, cat, mv, k - 1) + if category_of(t) == cat
            && (two ==> size(t) == 2) && tree[t].1.at(mv) is Some {
            val(mass_of(weights, t))
        } else {
            0real
        }
    }
}

/// The values of the move for those hands, each times the mass of the hand, added up.
pub open spec fn offered_value<N: Scalar>(
    val: spec_fn(N) -> real,
    order: Seq<Tally>,
    tree: Map<Tally, (N, MoveEvs<N>)>,
    weights: Map<Tally, N>,
    two: bool,
    cat: HandCategory,
    mv: Move,
    k: int,
) -> real
    decreases k,
{
    if k <= 0 {
        0real
    } else {
        let t = order[k - 1];
        offered_value(val, order, tree, weights, two, cat, mv, k - 1) + if category_of(t) == cat
            && (two ==> size(t) == 2) && tree[t].1.at(mv) is Some {
            val(mass_of(weights, t)) * val(tree[t].1.at(mv)->0)
        } else {
            0real
        }
    }
}

proof fn pooled_sums<N: Scalar>(
    val: spec_fn(N) -> real,
    order: Seq<Tally>,
    tree: Map<Tally, (N, MoveEvs<N>)>,
    weights: Map<Tally, N>,
    pool: Pool,
    cat: HandCategory,
    mv: Move,
    k: int,
)
    requires
        exact(val),
        0 <= k <= order.len(),
    ensures
        ({
            let two = pool == Pool::TwoCards;
            let m = offering_mass(val, order, tree, weights, two, cat, mv, k);
            let v = offered_value(val, order, tree, weights, two, cat, mv, k);
            match pooled_upto(order, tree, weights, true, pool, cat, mv, k) {
                Some((w, e)) => val(w) == m && val(e) == v,
                None => m == 0real && v == 0real,
            }
        }),
    decreases k,
{
    exact_whole::<N>(val, 0);
    if k > 0 {
        pooled_sums(val, order, tree, weights, pool, cat, mv, k - 1);
        let t = order[k - 1];
        if tree[t].1.at(mv) is Some {
            let x = val(tree[t].1.at(mv)->0);
            assert(0real * x == 0real) by (nonlinear_arith);
        }
    }
}

/// In an exact arithmetic what a row has for a move is the average of what its hands have for it,
/// each weighed by its mass; hands that do not offer the move are left out.
pub proof fn law_rows_are_averages<N: Scalar>(
    val: spec_fn(N) -> real,
    order: Seq<Tally>,
    tree: Map<Tally, (N, MoveEvs<N>)>,
    weights: Map<Tally, N>,
    cat: HandCategory,
    mv: Move,
)
    requires
        exact(val),
    ensures
        ({
            let two = deciding_pool(order, weights, cat) == Pool::TwoCards;
            let n = order.len() as int;
            let m = offering_mass(val, order, tree, weights, two, cat, mv, n);
            m != 0real ==> (cell_evs(order, tree, weights, cat).at(mv) matches Some(x) && val(x) * m
                == offered_value(val, order, tree, weights, two, cat, mv, n))
        }),
{
    let pool = deciding_pool(order, weights, cat);
    let two = pool == Pool::TwoCards;
    let n = order.len() as int;
    pooled_sums(val, order, tree, weights, pool, cat, mv, n);
    let m = offering_mass(val, order, tree, weights, two, cat, mv, n);
    let v = offered_value(val, order, tree, weights, two, cat, mv, n);
    assert(cell_evs(order, tree, weights, cat).at(mv) == pooled(
        order,
        tree,
        weights,
        true,
        pool,
        cat,
        mv,
    ));
    if m != 0real {
        assert((v / m) * m == v) by (nonlinear_arith)
            requires
                m != 0real,
        ;
    }
}

/// Where hands of two cards are played in a row, they alone decide it: it does not matter what
/// longer hands are worth.
pub proof fn law_two_card_hands_decide<N: Scalar>(
    order: Seq<Tally>,
    a: Map<Tally, (N, MoveEvs<N>)>,
    b: Map<Tally, (N, MoveEvs<N>)>,
    weights: Map<Tally, N>,
    cat: HandCategory,
    i: int,
)
    requires
        0 <= i < order.len(),
        size(order[i]) == 2,
        category_of(order[i]) == cat,
        !crate::num::is_nil(mass_of(weights, order[i])),
        forall|j: int|
            0 <= j < order.len() && size(#[trigger] order[j]) == 2 ==> a[order[j]] == b[order[j]],
    ensures
        cell_evs(order, a, weights, cat) == cell_evs(order, b, weights, cat),
{
    assert(counts(weights, true, Pool::TwoCards, cat, order[i]));
    let n = order.len() as int;
    same_pools(order, a, b, weights, cat, Move::Hit, n);
    same_pools(order, a, b, weights, cat, Move::Stand, n);
    same_pools(order, a, b, weights, cat, Move::Double, n);
    same_pools(order, a, b, weights, cat, Move::Split, n);
    same_pools(order, a, b, weights, cat, Move::Surrender, n);
}

proof fn same_pools<N: Scalar>(
    order: Seq<Tally>,
    a: Map<Tally, (N, MoveEvs<N>)>,
    b: Map<Tally, (N, MoveEvs<N>)>,
    weights: Map<Tally, N>,
    cat: HandCategory,
    mv: Move,
    k: int,
)
    requires
        0 <= k <= order.len(),
        forall|j: int|
            0 <= j < order.len() && size(#[trigger] order[j]) == 2 ==> a[order[j]] == b[order[j]],
    ensures
        pooled_upto(order, a, weights, true, Pool::TwoCards, cat, mv, k) == pooled_upto(
            order,
            b,
            weights,
            true,
            Pool::TwoCards,
            cat,
            mv,
            k,
        ),
    decreases k,
{
    if k > 0 {
        same_pools(order, a, b, weights, cat, mv, k - 1);
        let t = order[k - 1];
        if size(t) == 2 {
            assert(a[t] == b[t]);
        }
    }
}

/// The move that a row recommends to a hand is one that the hand offers, and no move that it
/// offers is better by the row.
pub proof fn law_charted_move_is_best_by_the_row<N: Scalar>(
    row: MoveEvs<N>,
    legal: MoveEvs<N>,
    mv: Move,
)
    requires
        ranks::<N>(),
        legal.at(mv) is Some,
        row.at(mv) is Some,
    ensures
        ({
            let c = charted_move(Some(row), legal);
            &&& legal.at(c) is Some
            &&& row.at(c) is Some
            &&& !row.at(c)->0.less_spec(row.at(mv)->0)
        }),
{
    let part = legal_part(row, legal);
    assert(part.at(mv) == row.at(mv));
    law_best_move_is_best(part, mv);
    best_is_offered(part, 5);
}

/// The headline of a cell is the best move by the row: no move that the row has is better.
pub proof fn law_headline_is_best<N: Scalar>(
    cell: CellInfo<N>,
    order: Seq<Tally>,
    tree: Map<Tally, (N, MoveEvs<N>)>,
    weights: Map<Tally, N>,
    cat: HandCategory,
    mv: Move,
)
    requires
        ranks::<N>(),
        is_cell(cell, order, tree, weights, cat),
        cell.move_evs.at(mv) is Some,
    ensures
        cell.move_evs.at(cell.headline) is Some,
        !cell.move_evs.at(cell.headline)->0.less_spec(cell.move_evs.at(mv)->0),
{
    law_best_move_is_best(cell.move_evs, mv);
}

/// A cell that is not marked is played by the row: of every hand that is played in it, no move
/// is better than the one that the row recommends to it. A cell that is marked has a hand that is
/// played otherwise.
pub proof fn law_marks_tell_of_deviations<N: Scalar>(
    cell: CellInfo<N>,
    order: Seq<Tally>,
    tree: Map<Tally, (N, MoveEvs<N>)>,
    weights: Map<Tally, N>,
    cat: HandCategory,
    i: int,
    mv: Move,
)
    requires
        ranks::<N>(),
        is_cell(cell, order, tree, weights, cat),
        0 <= i < order.len(),
        category_of(order[i]) == cat,
        !crate::num::is_nil(mass_of(weights, order[i])),
        tree[order[i]].1.at(mv) is Some,
    ensures
        ({
            let evs = tree[order[i]].1;
            let charted = charted_move(Some(cell.move_evs), evs);
            !cell.composition_dependent ==> evs.at(charted) is Some && !evs.at(
                charted,
            )->0.less_spec(evs.at(mv)->0)
        }),
        cell.composition_dependent ==> exists|j: int|
            0 <= j < order.len() && category_of(#[trigger] order[j]) == cat && charted_move(
                Some(cell.move_evs),
                tree[order[j]].1,
            ) != best_move_spec(tree[order[j]].1),
{
    assert(counts(weights, true, Pool::All, cat, order[i]));
    law_best_move_is_best(tree[order[i]].1, mv);
    if cell.composition_dependent {
        let j = choose|j: int|
            0 <= j < order.len() && counts(weights, true, Pool::All, cat, #[trigger] order[j])
                && crate::chart::deviates(cell.move_evs, tree[order[j]].1);
        assert(category_of(order[j]) == cat);
    }
}

/// Whether no chance of a card that can come to a hand is negative.
pub open spec fn no_negative_chance<N: Scalar, S: Shoe<N>>(
    val: spec_fn(N) -> real,
    b: Basis,
    s: S::State,
) -> bool {
    forall|t: Tally, i: int|
        0 <= i < basis_draws::<N, S>(b, S::without(s, t)).len() ==> val(
            (#[trigger] basis_draws::<N, S>(b, S::without(s, t))[i]).1,
        ) >= 0real
}

/// In an exact arithmetic following a chart is worth no more to any hand than the best play, also
/// where it says to hit, whatever the chart.
pub proof fn law_no_chart_beats_the_best_play<N: Scalar, S: Shoe<N>>(
    val: spec_fn(N) -> real,
    b: Basis,
    rules: Ruleset,
    s: S::State,
    splits: Map<Tally, N>,
    tree: Map<Tally, (N, MoveEvs<N>)>,
    table: spec_fn(HandCategory) -> Option<MoveEvs<N>>,
    t: Tally,
)
    requires
        exact(val),
        S::sane(s),
        is_tree::<N, S>(tree, b, rules, s, splits),
        no_negative_chance::<N, S>(val, b, s),
        dealable::<N, S>(s, t),
    ensures
        val(chart_value::<N, S>(b, s, tree, table, t)) <= val(best_value(tree[t].1)),
    decreases 32 - hard(t), 20int,
{
    exact_ranks(val);
    assert(tree.contains_key(t));
    every_hand_stands::<N, S>(b, rules, s, splits, t);
    let legal = tree[t].1;
    let mv = charted_move(table(category_of(t)), legal);
    best_is_offered(legal, 5);
    match table(category_of(t)) {
        Some(row) => {
            best_is_offered(legal_part(row, legal), 5);
        },
        None => {},
    }
    crate::chart::offered_has_best(legal);
    law_best_move_is_best(legal, mv);
    if mv == Move::Hit {
        S::without_supply(s, t);
        basis_draws_are_there::<N, S>(b, S::without(s, t));
        S::draws_are_there(S::without(s, t));
        let n = basis_draws::<N, S>(b, S::without(s, t)).len() as int;
        charted_hits::<N, S>(val, b, rules, s, splits, tree, table, t, n);
    }
}

/// An exact arithmetic ranks its numbers.
proof fn exact_ranks<N: Scalar>(val: spec_fn(N) -> real)
    requires
        exact(val),
    ensures
        ranks::<N>(),
{
}

proof fn charted_hits<N: Scalar, S: Shoe<N>>(
    val: spec_fn(N) -> real,
    b: Basis,
    rules: Ruleset,
    s: S::State,
    splits: Map<Tally, N>,
    tree: Map<Tally, (N, MoveEvs<N>)>,
    table: spec_fn(HandCategory) -> Option<MoveEvs<N>>,
    t: Tally,
    k: int,
)
    requires
        exact(val),
        S::sane(s),
        is_tree::<N, S>(tree, b, rules, s, splits),
        no_negative_chance::<N, S>(val, b, s),
        dealable::<N, S>(s, t),
        0 <= k <= basis_draws::<N, S>(b, S::without(s, t)).len(),
    ensures
        val(chart_hit_upto::<N, S>(b, s, tree, table, t, k)) <= val(
            hit_upto::<N, S>(b, rules, s, splits, t, k),
        ),
    decreases 32 - hard(t), k,
{
    if k > 0 {
        charted_hits::<N, S>(val, b, rules, s, splits, tree, table, t, k - 1);
        child_total::<N, S>(b, s, t, k - 1);
        let (card, p) = basis_draws::<N, S>(b, S::without(s, t))[k - 1];
        child_fits::<N, S>(s, t, card);
        let child = with_card(t, card);
        assert(val(basis_draws::<N, S>(b, S::without(s, t))[k - 1].1) >= 0real);
        let x = if tree.contains_key(child) {
            chart_value::<N, S>(b, s, tree, table, child)
        } else {
            crate::num::minus_one::<N>()
        };
        let y = if hard(child) > 21 {
            crate::num::minus_one::<N>()
        } else {
            best_value(hand_ev::<N, S>(b, rules, s, splits, child))
        };
        if hard(child) <= 21 {
            assert(dealable::<N, S>(s, child));
            assert(tree.contains_key(child));
            law_no_chart_beats_the_best_play::<N, S>(val, b, rules, s, splits, tree, table, child);
        } else {
            assert(!dealable::<N, S>(s, child));
        }
        let (u, v, w) = (val(p), val(x), val(y));
        assert(u * v <= u * w) by (nonlinear_arith)
            requires
                u >= 0real,
                v <= w,
        ;
    }
}

/// In an exact arithmetic the edge of following values that are no greater than the best is no
/// greater than the best edge, and weighs the same hands.
pub proof fn law_no_chart_beats_the_best_edge<N: Scalar>(
    val: spec_fn(N) -> real,
    order: Seq<Tally>,
    tree: Map<Tally, (N, MoveEvs<N>)>,
    values: Map<Tally, N>,
    k: int,
)
    requires
        exact(val),
        0 <= k <= order.len(),
        forall|i: int|
            0 <= i < order.len() ==> val(tree[#[trigger] order[i]].0) >= 0real
                && values.contains_key(order[i]) && val(values[order[i]]) <= val(
                best_value(tree[order[i]].1),
            ),
    ensures
        ({
            let weight = |t: Tally| tree[t].0;
            let charted = edge_upto(order, weight, |t: Tally| mass_of(values, t), k);
            let best = edge_upto(order, weight, |t: Tally| best_value(tree[t].1), k);
            &&& val(charted.weighted_ev) <= val(best.weighted_ev)
            &&& charted.weight == best.weight
            &&& k == order.len() ==> charted == table_edge(order, tree, values) && best
                == best_edge(order, tree)
        }),
    decreases k,
{
    if k > 0 {
        law_no_chart_beats_the_best_edge(val, order, tree, values, k - 1);
        let t = order[k - 1];
        assert(val(tree[order[k - 1]].0) >= 0real);
        let (u, v, w) = (val(tree[t].0), val(values[t]), val(best_value(tree[t].1)));
        assert(u * v <= u * w) by (nonlinear_arith)
            requires
                u >= 0real,
                v <= w,
        ;
    }
}

/// The weights of the hands of a row among the first `k`, added up as numbers.
pub open spec fn weight_of_row(
    order: Seq<Tally>,
    weight: spec_fn(Tally) -> real,
    cat: HandCategory,
    k: int,
) -> real
    decreases k,
{
    if k <= 0 {
        0real
    } else {
        weight_of_row(order, weight, cat, k - 1) + if category_of(order[k - 1]) == cat {
            weight(order[k - 1])
        } else {
            0real
        }
    }
}

proof fn weights_of_row<N: Scalar>(
    val: spec_fn(N) -> real,
    order: Seq<Tally>,
    weight: spec_fn(Tally) -> N,
    number: spec_fn(Tally) -> real,
    cat: HandCategory,
    k: int,
)
    requires
        exact(val),
        0 <= k <= order.len(),
        forall|t: Tally| #[trigger] number(t) == val(weight(t)),
    ensures
        val(row_sum(order, weight, cat, k)) == weight_of_row(order, number, cat, k),
    decreases k,
{
    exact_whole::<N>(val, 0);
    if k > 0 {
        weights_of_row(val, order, weight, number, cat, k - 1);
        assert(number(order[k - 1]) == val(weight(order[k - 1])));
    }
}

proof fn hands_of_row(order: Seq<Tally>, cat: HandCategory, t: Tally, k: int)
    requires
        0 <= k <= order.len(),
    ensures
        row_hands(order, cat, k).contains(t) <==> category_of(t) == cat && exists|i: int|
            0 <= i < k && #[trigger] order[i] == t,
        row_hands(order, cat, k).len() <= k,
    decreases k,
{
    if k > 0 {
        hands_of_row(order, cat, t, k - 1);
        let before = row_hands(order, cat, k - 1);
        let now = row_hands(order, cat, k);
        if before.contains(t) {
            let j = before.index_of(t);
            assert(now[j] == t);
        }
        if order[k - 1] == t {
            assert(0 <= k - 1 < k && order[k - 1] == t);
            if category_of(t) == cat {
                assert(now.last() == t);
            }
        }
        if now.contains(t) && order[k - 1] != t {
            let j = now.index_of(t);
            assert(before[j] == t);
        }
        if exists|i: int| 0 <= i < k && #[trigger] order[i] == t {
            let i = choose|i: int| 0 <= i < k && #[trigger] order[i] == t;
            if i < k - 1 {
                assert(0 <= i < k - 1 && order[i] == t);
            }
        }
    }
}

/// In an exact arithmetic the breakdown of a row tells of each of its hands, and of no other, which
/// part of the weight of the row is the hand's, by what is stored and by what is reached. No hand
/// follows one whose two parts are closer together.
pub proof fn law_breakdown_tells_the_parts<N: Scalar>(
    val: spec_fn(N) -> real,
    rows: Seq<ShareRow<N>>,
    order: Seq<Tally>,
    tree: Map<Tally, (N, MoveEvs<N>)>,
    reach: Map<Tally, N>,
    cat: HandCategory,
    t: Tally,
    i: int,
    j: int,
)
    requires
        exact(val),
        is_breakdown(rows, order, tree, reach, cat),
        order.len() <= usize::MAX,
        0 <= i < rows.len(),
        0 <= j < rows.len(),
    ensures
        order.contains(t) && category_of(t) == cat <==> exists|k: int|
            0 <= k < rows.len() && (#[trigger] rows[k]).hand@ == t,
        ({
            let n = order.len() as int;
            let hand = rows[i].hand@;
            let stored = weight_of_row(order, |x: Tally| val(tree[x].0), cat, n);
            let reached = weight_of_row(order, |x: Tally| val(mass_of(reach, x)), cat, n);
            &&& stored > 0real ==> val(rows[i].stored) * stored == val(tree[hand].0)
            &&& stored <= 0real ==> val(rows[i].stored) == 0real
            &&& reached > 0real ==> val(rows[i].reached) * reached == val(mass_of(reach, hand))
            &&& reached <= 0real ==> val(rows[i].reached) == 0real
        }),
        i < j ==> ({
            let apart = |at: int|
                if val(rows[at].reached) >= val(rows[at].stored) {
                    val(rows[at].reached) - val(rows[at].stored)
                } else {
                    val(rows[at].stored) - val(rows[at].reached)
                };
            apart(i) >= apart(j)
        }),
{
    exact_whole::<N>(val, 0);
    exact_ranks(val);
    let n = order.len() as int;
    let hands = row_hands(order, cat, n);
    hands_of_row(order, cat, t, n);
    let w = |x: Tally| tree[x].0;
    let m = |x: Tally| mass_of(reach, x);
    weights_of_row(val, order, w, |x: Tally| val(tree[x].0), cat, n);
    weights_of_row(val, order, m, |x: Tally| val(mass_of(reach, x)), cat, n);
    let stored_sum = row_sum(order, |x: Tally| tree[x].0, cat, n);
    let reach_sum = row_sum(order, |x: Tally| mass_of(reach, x), cat, n);
    let places = choose|places: Seq<usize>| #[trigger]
        names_all(places, hands.len() as int) && rows.len() == places.len() && (forall|i: int|
            0 <= i < rows.len() ==> {
                let t = hands[places[i] as int];
                &&& (#[trigger] rows[i]).hand@ == t
                &&& rows[i].stored == share_of(tree[t].0, stored_sum)
                &&& rows[i].reached == share_of(mass_of(reach, t), reach_sum)
            }) && (ranks::<N>() ==> forall|i: int, j: int|
            0 <= i < j < rows.len() ==> {
                let a = shift_of((#[trigger] rows[i]).stored, rows[i].reached);
                let b = shift_of((#[trigger] rows[j]).stored, rows[j].reached);
                &&& !a.less_spec(b)
                &&& b.less_spec(a) || places[i] < places[j]
            });
    if order.contains(t) && category_of(t) == cat {
        let at = order.index_of(t);
        assert(order[at] == t);
        let h = hands.index_of(t);
        assert(places.contains(h as usize));
        let k = places.index_of(h as usize);
        assert(rows[k].hand@ == t);
    }
    if exists|k: int| 0 <= k < rows.len() && (#[trigger] rows[k]).hand@ == t {
        let k = choose|k: int| 0 <= k < rows.len() && (#[trigger] rows[k]).hand@ == t;
        assert(hands[places[k] as int] == t);
        assert(hands.contains(t));
    }
    let hand = rows[i].hand@;
    parts_of_sum(val(tree[hand].0), val(stored_sum));
    parts_of_sum(val(mass_of(reach, hand)), val(reach_sum));
    if i < j {
        assert(!shift_of(rows[i].stored, rows[i].reached).less_spec(
            shift_of(rows[j].stored, rows[j].reached),
        ));
    }
}

proof fn parts_of_sum(part: real, sum: real)
    ensures
        sum > 0real ==> (part / sum) * sum == part,
{
    if sum > 0real {
        assert((part / sum) * sum == part) by (nonlinear_arith)
            requires
                sum > 0real,
        ;
    }
}

/// A chart has a row exactly where some hand with a mass belongs to it.
pub proof fn law_charts_have_rows_for_hands_played<N: Scalar>(
    rows: ChartTable<CellInfo<N>>,
    order: Seq<Tally>,
    tree: Map<Tally, (N, MoveEvs<N>)>,
    weights: Map<Tally, N>,
    cat: HandCategory,
)
    requires
        is_chart(rows, order, tree, weights),
    ensures
        rows.has(cat) <==> exists|i: int|
            0 <= i < order.len() && category_of(#[trigger] order[i]) == cat
                && !crate::num::is_nil(mass_of(weights, order[i])),
{
    if rows.has(cat) {
        let i = choose|i: int|
            0 <= i < order.len() && counts(weights, true, Pool::All, cat, #[trigger] order[i]);
        assert(category_of(order[i]) == cat);
    } else if exists|i: int|
        0 <= i < order.len() && category_of(#[trigger] order[i]) == cat && !crate::num::is_nil(
            mass_of(weights, order[i]),
        ) {
        let i = choose|i: int|
            0 <= i < order.len() && category_of(#[trigger] order[i]) == cat
                && !crate::num::is_nil(mass_of(weights, order[i]));
        assert(counts(weights, true, Pool::All, cat, order[i]));
    }
}

/// In an exact arithmetic a summary has for a move of a row the average over all hands of the row
/// that offer it, each weighed by its mass, be they of two cards or more.
pub proof fn law_summaries_are_averages<N: Scalar>(
    val: spec_fn(N) -> real,
    rows: ChartTable<MoveEvs<N>>,
    order: Seq<Tally>,
    tree: Map<Tally, (N, MoveEvs<N>)>,
    weights: Map<Tally, N>,
    i: int,
    mv: Move,
)
    requires
        exact(val),
        is_summary(rows, order, tree, weights, true),
        0 <= i < rows.entries().len(),
    ensures
        ({
            let (cat, evs) = rows.entries()[i];
            let n = order.len() as int;
            let m = offering_mass(val, order, tree, weights, false, cat, mv, n);
            m != 0real ==> (evs.at(mv) matches Some(x) && val(x) * m == offered_value(
                val,
                order,
                tree,
                weights,
                false,
                cat,
                mv,
                n,
            ))
        }),
{
    let (cat, evs) = rows.entries()[i];
    let n = order.len() as int;
    pooled_sums(val, order, tree, weights, Pool::All, cat, mv, n);
    let m = offering_mass(val, order, tree, weights, false, cat, mv, n);
    let v = offered_value(val, order, tree, weights, false, cat, mv, n);
    assert(evs.at(mv) == pooled(order, tree, weights, true, Pool::All, cat, mv));
    if m != 0real {
        assert((v / m) * m == v) by (nonlinear_arith)
            requires
                m != 0real,
        ;
    }
}

} // verus!
