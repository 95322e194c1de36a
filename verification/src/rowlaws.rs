//! Why the rows of a chart are enough on the infinite deck.
use crate::chart::{counts, pooled, pooled_upto, Pool};
use crate::drawing::{InfiniteDeck, Shoe};
use crate::exact::{exact, exact_whole};
use crate::hand::{category_of, HandCategory, Move, MoveEvs};
use crate::num::Scalar;
use crate::partitions::hard_with_n;
use crate::reach::mass_of;
use crate::rules::Ruleset;
use crate::shoe::{hard, is_natural, is_soft, size, with_card, Tally};
use crate::simulation::{basis_draws, basis_draws_are_there, Basis};
use crate::solve::{double_upto, hand_ev, hit_upto};
use vstd::prelude::*;

verus! {

/// Whether two hands of two cards or more count the same and are no naturals.
pub open spec fn alike(t: Tally, u: Tally) -> bool {
    &&& t.len() == 10
    &&& u.len() == 10
    &&& size(t) >= 2
    &&& size(u) >= 2
    &&& hard(t) == hard(u)
    &&& hard(t) <= 21
    &&& is_soft(t) == is_soft(u)
    &&& !is_natural(t)
    &&& !is_natural(u)
}

/// On the infinite deck hands that count the same are worth the same: to stand and to hit, and
/// where both have two cards, also to double and to surrender.
pub proof fn law_infinite_deck_plays_by_the_total<N: Scalar>(
    b: Basis,
    rules: Ruleset,
    splits: Map<Tally, N>,
    t: Tally,
    u: Tally,
)
    requires
        alike(t, u),
    ensures
        ({
            let a = hand_ev::<N, InfiniteDeck>(b, rules, (), splits, t);
            let c = hand_ev::<N, InfiniteDeck>(b, rules, (), splits, u);
            &&& a.hit == c.hit
            &&& a.stand == c.stand
            &&& size(t) == 2 && size(u) == 2 ==> a.double == c.double && a.surrender
                == c.surrender
            &&& size(t) != 2 && size(u) != 2 ==> a == c
        }),
    decreases 32 - hard(t), 20int,
{
    basis_draws_are_there::<N, InfiniteDeck>(b, ());
    <InfiniteDeck as Shoe<N>>::draws_are_there(());
    let draws = basis_draws::<N, InfiniteDeck>(b, ()).len() as int;
    hits_alike::<N>(b, rules, splits, t, u, draws);
    doubles_alike::<N>(b, rules, splits, t, u, draws);
}

/// Two hands that count the same still do with one more card.
proof fn grown_alike<N: Scalar>(b: Basis, t: Tally, u: Tally, i: int)
    requires
        alike(t, u),
        0 <= i < basis_draws::<N, InfiniteDeck>(b, ()).len(),
    ensures
        ({
            let card = basis_draws::<N, InfiniteDeck>(b, ())[i].0;
            let a = with_card(t, card);
            let c = with_card(u, card);
            &&& hard(a) == hard(c)
            &&& hard(a) > hard(t)
            &&& a.len() == 10
            &&& size(a) > 2
            &&& size(c) > 2
            &&& hard(a) <= 21 ==> alike(a, c)
        }),
{
    basis_draws_are_there::<N, InfiniteDeck>(b, ());
    let card = basis_draws::<N, InfiniteDeck>(b, ())[i].0;
    let a = with_card(t, card);
    let c = with_card(u, card);
    assert(card == <InfiniteDeck as Shoe<N>>::draws(())[i].0);
    assert(card.valid());
    hard_with_n(t, card.rank(), 1);
    hard_with_n(u, card.rank(), 1);
    crate::card::law_rank_round_trip(card, 0);
    crate::shoe::law_natural_is_two_card_21(a);
    crate::shoe::law_natural_is_two_card_21(c);
    if card.rank() != 0 {
        assert(a[0] == t[0] && c[0] == u[0]);
    } else {
        assert(a[0] == t[0] + 1 && c[0] == u[0] + 1);
    }
}

proof fn hits_alike<N: Scalar>(
    b: Basis,
    rules: Ruleset,
    splits: Map<Tally, N>,
    t: Tally,
    u: Tally,
    k: int,
)
    requires
        alike(t, u),
        0 <= k <= basis_draws::<N, InfiniteDeck>(b, ()).len(),
    ensures
        hit_upto::<N, InfiniteDeck>(b, rules, (), splits, t, k) == hit_upto::<N, InfiniteDeck>(
            b,
            rules,
            (),
            splits,
            u,
            k,
        ),
    decreases 32 - hard(t), k,
{
    if k > 0 {
        hits_alike::<N>(b, rules, splits, t, u, k - 1);
        grown_alike::<N>(b, t, u, k - 1);
        let card = basis_draws::<N, InfiniteDeck>(b, ())[k - 1].0;
        let a = with_card(t, card);
        let c = with_card(u, card);
        if hard(a) <= 21 {
            law_infinite_deck_plays_by_the_total::<N>(b, rules, splits, a, c);
        }
    }
}

proof fn doubles_alike<N: Scalar>(
    b: Basis,
    rules: Ruleset,
    splits: Map<Tally, N>,
    t: Tally,
    u: Tally,
    k: int,
)
    requires
        alike(t, u),
        0 <= k <= basis_draws::<N, InfiniteDeck>(b, ()).len(),
    ensures
        double_upto::<N, InfiniteDeck>(b, rules, (), splits, t, k) == double_upto::<
            N,
            InfiniteDeck,
        >(b, rules, (), splits, u, k),
    decreases 32 - hard(t), k,
{
    if k > 0 {
        doubles_alike::<N>(b, rules, splits, t, u, k - 1);
        grown_alike::<N>(b, t, u, k - 1);
        let card = basis_draws::<N, InfiniteDeck>(b, ())[k - 1].0;
        let a = with_card(t, card);
        let c = with_card(u, card);
        if hard(a) <= 21 {
            law_infinite_deck_plays_by_the_total::<N>(b, rules, splits, a, c);
        }
    }
}

/// In an exact arithmetic hands of a row that are all worth the same are, pooled by whatever
/// weights, worth that.
pub proof fn law_pool_of_equals<N: Scalar>(
    val: spec_fn(N) -> real,
    order: Seq<Tally>,
    tree: Map<Tally, (N, MoveEvs<N>)>,
    weights: Map<Tally, N>,
    skip_nil: bool,
    pool: Pool,
    cat: HandCategory,
    mv: Move,
    x: real,
)
    requires
        exact(val),
        forall|i: int|
            0 <= i < order.len() && counts(weights, skip_nil, pool, cat, #[trigger] order[i]) ==> (
            tree[order[i]].1.at(mv) matches Some(ev) ==> val(ev) == x),
        pooled_upto(
            order,
            tree,
            weights,
            skip_nil,
            pool,
            cat,
            mv,
            order.len() as int,
        ) matches Some(sums) && val(sums.0) != 0real,
    ensures
        pooled(order, tree, weights, skip_nil, pool, cat, mv) matches Some(ev) && val(ev) == x,
{
    equals_upto(val, order, tree, weights, skip_nil, pool, cat, mv, x, order.len() as int);
    let sums = pooled_upto(
        order,
        tree,
        weights,
        skip_nil,
        pool,
        cat,
        mv,
        order.len() as int,
    )->0;
    let w = val(sums.0);
    assert((w * x) / w == x) by (nonlinear_arith)
        requires
            w != 0real,
    ;
}

proof fn equals_upto<N: Scalar>(
    val: spec_fn(N) -> real,
    order: Seq<Tally>,
    tree: Map<Tally, (N, MoveEvs<N>)>,
    weights: Map<Tally, N>,
    skip_nil: bool,
    pool: Pool,
    cat: HandCategory,
    mv: Move,
    x: real,
    k: int,
)
    requires
        exact(val),
        forall|i: int|
            0 <= i < order.len() && counts(weights, skip_nil, pool, cat, #[trigger] order[i]) ==> (
            tree[order[i]].1.at(mv) matches Some(ev) ==> val(ev) == x),
        0 <= k <= order.len(),
    ensures
        pooled_upto(order, tree, weights, skip_nil, pool, cat, mv, k) matches Some(sums) ==> val(
            sums.1,
        ) == val(sums.0) * x,
    decreases k,
{
    exact_whole::<N>(val, 0);
    if k > 0 {
        equals_upto(val, order, tree, weights, skip_nil, pool, cat, mv, x, k - 1);
        let t = order[k - 1];
        let before = pooled_upto(order, tree, weights, skip_nil, pool, cat, mv, k - 1);
        let a = match before {
            Some(sums) => val(sums.0),
            None => 0real,
        };
        let w = val(mass_of(weights, t));
        assert(0real * x == 0real) by (nonlinear_arith);
        assert((a + w) * x == a * x + w * x) by (nonlinear_arith);
    }
}

/// On the infinite deck it does not matter how the hands of a row of totals are weighed: in an
/// exact arithmetic the row is worth the same.
pub proof fn law_weights_are_irrelevant_on_infinite_deck<N: Scalar>(
    val: spec_fn(N) -> real,
    b: Basis,
    rules: Ruleset,
    splits: Map<Tally, N>,
    order: Seq<Tally>,
    tree: Map<Tally, (N, MoveEvs<N>)>,
    weights: Map<Tally, N>,
    others: Map<Tally, N>,
    cat: HandCategory,
    mv: Move,
)
    requires
        exact(val),
        cat is Hard || cat is Soft,
        mv == Move::Hit || mv == Move::Stand,
        forall|i: int|
            0 <= i < order.len() ==> {
                let t = #[trigger] order[i];
                t.len() == 10 && hard(t) <= 21 && tree[t].1 == hand_ev::<N, InfiniteDeck>(
                    b,
                    rules,
                    (),
                    splits,
                    t,
                )
            },
        forall|i: int|
            0 <= i < order.len() && category_of(#[trigger] order[i]) == cat ==> size(order[i]) >= 2,
        weighs(val, order, tree, weights, cat, mv),
        weighs(val, order, tree, others, cat, mv),
    ensures
        val(pooled(order, tree, weights, true, Pool::All, cat, mv)->0) == val(
            pooled(order, tree, others, true, Pool::All, cat, mv)->0,
        ),
{
    some_hand_counts(val, order, tree, weights, cat, mv, order.len() as int);
    let j = choose|j: int|
        0 <= j < order.len() && category_of(#[trigger] order[j]) == cat && tree[order[j]].1.at(
            mv,
        ) is Some;
    let x = val(tree[order[j]].1.at(mv)->0);
    assert forall|i: int|
        0 <= i < order.len() && category_of(#[trigger] order[i]) == cat implies (
    tree[order[i]].1.at(mv) matches Some(ev) ==> val(ev) == x) by {
        same_row_alike(order[i], order[j], cat);
        law_infinite_deck_plays_by_the_total::<N>(b, rules, splits, order[i], order[j]);
    }
    law_pool_of_equals(val, order, tree, weights, true, Pool::All, cat, mv, x);
    law_pool_of_equals(val, order, tree, others, true, Pool::All, cat, mv, x);
}

/// Whether some weight is on the hands of a row that offer a move.
pub open spec fn weighs<N: Scalar>(
    val: spec_fn(N) -> real,
    order: Seq<Tally>,
    tree: Map<Tally, (N, MoveEvs<N>)>,
    weights: Map<Tally, N>,
    cat: HandCategory,
    mv: Move,
) -> bool {
    pooled_upto(order, tree, weights, true, Pool::All, cat, mv, order.len() as int) matches Some(
        sums,
    ) && val(sums.0) != 0real
}

proof fn some_hand_counts<N: Scalar>(
    val: spec_fn(N) -> real,
    order: Seq<Tally>,
    tree: Map<Tally, (N, MoveEvs<N>)>,
    weights: Map<Tally, N>,
    cat: HandCategory,
    mv: Move,
    k: int,
)
    requires
        0 <= k <= order.len(),
        pooled_upto(order, tree, weights, true, Pool::All, cat, mv, k) is Some,
    ensures
        exists|j: int|
            0 <= j < order.len() && category_of(#[trigger] order[j]) == cat && tree[order[j]].1.at(
                mv,
            ) is Some,
    decreases k,
{
    let t = order[k - 1];
    if tree[t].1.at(mv) is Some && counts(weights, true, Pool::All, cat, t) {
        assert(category_of(order[k - 1]) == cat);
    } else {
        some_hand_counts(val, order, tree, weights, cat, mv, k - 1);
    }
}

/// Hands of one row of totals count the same.
proof fn same_row_alike(t: Tally, u: Tally, cat: HandCategory)
    requires
        t.len() == 10,
        u.len() == 10,
        hard(t) <= 21,
        hard(u) <= 21,
        size(t) >= 2,
        size(u) >= 2,
        category_of(t) == cat,
        category_of(u) == cat,
        cat is Hard || cat is Soft,
    ensures
        alike(t, u),
{
}

} // verus!
