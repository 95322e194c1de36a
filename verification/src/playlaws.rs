//! What holds of the values of moves, whatever the shoe.
use crate::card::Card;
use crate::dealer::{
    dealer_average, dealer_dist, final_outcome, law_dealer_stops_at_17_or_more, must_hit,
    outcome_place, DealerOutcome,
};
use crate::drawing::{InfiniteDeck, Shoe};
use crate::exact::{exact, exact_whole};
use crate::hand::ranks;
use crate::num::{is_nil, Fixed, Scalar};
use crate::partitions::hard_with_n;
use crate::round::pair_values;
use crate::rules::{Ruleset, SurrenderRule};
use crate::shoe::{hard, is_natural, single, size, with_card, Tally};
use crate::simulation::{
    basis_draws, basis_draws_are_there, natural_hole, peeked_dist, peeked_dist_upto, Basis,
};
use crate::solve::hand_ev;
use crate::split::{
    arm_double_upto, arm_hit_upto, arm_value, rest_value, second_upto, spent, SplitGame,
};
use vstd::prelude::*;

verus! {

/// Only hands of two cards double, split and surrender.
pub proof fn law_long_hands_hit_or_stand<N: Scalar, S: Shoe<N>>(
    b: Basis,
    rules: Ruleset,
    s: S::State,
    splits: Map<Tally, N>,
    t: Tally,
)
    requires
        S::sane(s),
        t.len() == 10,
        hard(t) <= 21,
        size(t) != 2,
    ensures
        ({
            let evs = hand_ev::<N, S>(b, rules, s, splits, t);
            &&& evs.stand is Some
            &&& evs.hit is Some
            &&& evs.double is None
            &&& evs.split is None
            &&& evs.surrender is None
        }),
{
    crate::shoe::law_natural_is_two_card_21(t);
}

/// A natural stands: there is no other move.
pub proof fn law_naturals_stand<N: Scalar, S: Shoe<N>>(
    b: Basis,
    rules: Ruleset,
    s: S::State,
    splits: Map<Tally, N>,
    t: Tally,
)
    requires
        S::sane(s),
        t.len() == 10,
        hard(t) <= 21,
        is_natural(t),
    ensures
        ({
            let evs = hand_ev::<N, S>(b, rules, s, splits, t);
            &&& evs.stand is Some
            &&& evs.hit is None
            &&& evs.double is None
            &&& evs.split is None
            &&& evs.surrender is None
        }),
{
}

/// Where splitting may lead to one hand only, no hand is split.
pub proof fn law_no_split_where_not_allowed<N: Scalar, S: Shoe<N>>(
    b: Basis,
    s: S::State,
    up: Card,
    rules: Ruleset,
    t: Tally,
)
    requires
        S::sane(S::without(s, single(up))),
        rules.max_split_hands < 2,
        t.len() == 10,
        hard(t) <= 21,
    ensures
        hand_ev::<N, S>(
            b,
            rules,
            S::without(s, single(up)),
            pair_values::<N, S>(s, up, rules),
            t,
        ).split is None,
{
    assert(!pair_values::<N, S>(s, up, rules).contains_key(t));
}

/// Surrender is offered exactly on the first two cards where the rules have it, but not
/// on a natural, and costs half the bet.
pub proof fn law_surrender_costs_half<N: Scalar, S: Shoe<N>>(
    b: Basis,
    rules: Ruleset,
    s: S::State,
    splits: Map<Tally, N>,
    t: Tally,
)
    requires
        S::sane(s),
        t.len() == 10,
        hard(t) <= 21,
    ensures
        hand_ev::<N, S>(b, rules, s, splits, t).surrender == if size(t) == 2 && !is_natural(t)
            && rules.peek.surrender_spec() != SurrenderRule::Never {
            Some(N::ratio_spec((-1) as i64, 2))
        } else {
            None
        },
{
}

/// Where no drawn card is followed from one arm to the next, what an arm leaves behind
/// does not matter to the arms after it.
pub proof fn law_arms_are_independent_without_budget<N: Scalar, S: Shoe<N>>(
    g: SplitGame<S::State>,
    pending: nat,
    splits: nat,
    s1: S::State,
    s2: S::State,
)
    ensures
        rest_value::<N, S>(g, pending, splits, s1, 0) == rest_value::<N, S>(
            g,
            pending,
            splits,
            s2,
            0,
        ),
{
}

/// On the infinite deck it does not matter how many drawn cards are followed from one arm
/// to the next.
pub proof fn law_budget_is_irrelevant_on_infinite_deck<N: Scalar>(
    g: SplitGame<()>,
    t: Tally,
    first: bool,
    pending: nat,
    splits: nat,
    b1: nat,
    b2: nat,
)
    requires
        t.len() == 10,
        hard(t) <= 21,
        g.card.valid(),
    ensures
        arm_value::<N, InfiniteDeck>(g, t, first, pending, splits, (), b1) == arm_value::<
            N,
            InfiniteDeck,
        >(g, t, first, pending, splits, (), b2),
    decreases splits, pending, 33 - hard(t), 20int,
{
    basis_draws_are_there::<N, InfiniteDeck>(g.basis, ());
    <InfiniteDeck as Shoe<N>>::draws_are_there(());
    let draws = basis_draws::<N, InfiniteDeck>(g.basis, ()).len() as int;
    if size(t) == 1 {
        second_budget::<N>(g, t, pending, splits, b1, b2, draws);
    } else {
        rest_budget::<N>(g, pending, splits, b1, b2);
        hit_budget::<N>(g, t, pending, splits, b1, b2, draws);
        double_budget::<N>(g, t, pending, splits, b1, b2, draws);
        if splits > 0 {
            crate::split::single_card_total(g.card);
            law_budget_is_irrelevant_on_infinite_deck::<N>(
                g,
                single(g.card),
                false,
                pending + 1,
                (splits - 1) as nat,
                b1,
                b2,
            );
        }
    }
}

proof fn rest_budget<N: Scalar>(g: SplitGame<()>, pending: nat, splits: nat, b1: nat, b2: nat)
    requires
        g.card.valid(),
    ensures
        rest_value::<N, InfiniteDeck>(g, pending, splits, (), b1) == rest_value::<N, InfiniteDeck>(
            g,
            pending,
            splits,
            (),
            b2,
        ),
    decreases splits, pending, 0int, 0int,
{
    if pending > 0 {
        crate::split::single_card_total(g.card);
        law_budget_is_irrelevant_on_infinite_deck::<N>(
            g,
            single(g.card),
            false,
            (pending - 1) as nat,
            splits,
            b1,
            b2,
        );
    }
}

proof fn second_budget<N: Scalar>(
    g: SplitGame<()>,
    t: Tally,
    pending: nat,
    splits: nat,
    b1: nat,
    b2: nat,
    k: int,
)
    requires
        t.len() == 10,
        hard(t) <= 21,
        size(t) == 1,
        g.card.valid(),
        0 <= k <= basis_draws::<N, InfiniteDeck>(g.basis, ()).len(),
    ensures
        second_upto::<N, InfiniteDeck>(g, t, pending, splits, (), b1, k) == second_upto::<
            N,
            InfiniteDeck,
        >(g, t, pending, splits, (), b2, k),
    decreases splits, pending, 33 - hard(t), k,
{
    if k > 0 {
        second_budget::<N>(g, t, pending, splits, b1, b2, k - 1);
        arm_grows::<N>(g.basis, t, k - 1);
        let card = basis_draws::<N, InfiniteDeck>(g.basis, ())[k - 1].0;
        let child = with_card(t, card);
        if g.card == Card::Ace {
            rest_budget::<N>(g, pending, splits, spent(b1), spent(b2));
        } else {
            crate::partitions::hard_monotone(t, child);
            one_card_is_small(t);
            law_budget_is_irrelevant_on_infinite_deck::<N>(
                g,
                child,
                true,
                pending,
                splits,
                spent(b1),
                spent(b2),
            );
        }
    }
}

proof fn hit_budget<N: Scalar>(
    g: SplitGame<()>,
    t: Tally,
    pending: nat,
    splits: nat,
    b1: nat,
    b2: nat,
    k: int,
)
    requires
        t.len() == 10,
        hard(t) <= 21,
        g.card.valid(),
        0 <= k <= basis_draws::<N, InfiniteDeck>(g.basis, ()).len(),
    ensures
        arm_hit_upto::<N, InfiniteDeck>(g, t, pending, splits, (), b1, k) == arm_hit_upto::<
            N,
            InfiniteDeck,
        >(g, t, pending, splits, (), b2, k),
    decreases splits, pending, 33 - hard(t), k,
{
    if k > 0 {
        hit_budget::<N>(g, t, pending, splits, b1, b2, k - 1);
        arm_grows::<N>(g.basis, t, k - 1);
        let card = basis_draws::<N, InfiniteDeck>(g.basis, ())[k - 1].0;
        let child = with_card(t, card);
        rest_budget::<N>(g, pending, splits, spent(b1), spent(b2));
        if hard(child) <= 21 {
            law_budget_is_irrelevant_on_infinite_deck::<N>(
                g,
                child,
                false,
                pending,
                splits,
                spent(b1),
                spent(b2),
            );
        }
    }
}

proof fn double_budget<N: Scalar>(
    g: SplitGame<()>,
    t: Tally,
    pending: nat,
    splits: nat,
    b1: nat,
    b2: nat,
    k: int,
)
    requires
        t.len() == 10,
        hard(t) <= 21,
        g.card.valid(),
        0 <= k <= basis_draws::<N, InfiniteDeck>(g.basis, ()).len(),
    ensures
        arm_double_upto::<N, InfiniteDeck>(g, t, pending, splits, (), b1, k) == arm_double_upto::<
            N,
            InfiniteDeck,
        >(g, t, pending, splits, (), b2, k),
    decreases splits, pending, 33 - hard(t), k,
{
    if k > 0 {
        double_budget::<N>(g, t, pending, splits, b1, b2, k - 1);
        rest_budget::<N>(g, pending, splits, spent(b1), spent(b2));
    }
}

/// A card more is more points.
pub proof fn arm_grows<N: Scalar>(b: Basis, t: Tally, i: int)
    requires
        t.len() == 10,
        0 <= i < basis_draws::<N, InfiniteDeck>(b, ()).len(),
    ensures
        ({
            let card = basis_draws::<N, InfiniteDeck>(b, ())[i].0;
            &&& card.valid()
            &&& with_card(t, card).len() == 10
            &&& hard(with_card(t, card)) == hard(t) + card.value()
            &&& size(with_card(t, card)) == size(t) + 1
            &&& 1 <= card.value() <= 10
        }),
{
    basis_draws_are_there::<N, InfiniteDeck>(b, ());
    let card = basis_draws::<N, InfiniteDeck>(b, ())[i].0;
    assert(card == <InfiniteDeck as Shoe<N>>::draws(())[i].0);
    hard_with_n(t, card.rank(), 1);
    crate::card::law_rank_round_trip(card, 0);
}

/// One card has ten points at most.
pub proof fn one_card_is_small(t: Tally)
    requires
        t.len() == 10,
        size(t) == 1,
    ensures
        hard(t) <= 10,
{
}

/// The numbers of this crate are ranked by their comparison.
pub proof fn law_fixed_numbers_are_ranked()
    ensures
        ranks::<Fixed>(),
{
}

/// In an exact arithmetic a dealer who holds two cards that are no natural, or more cards,
/// ends with no natural.
pub proof fn no_natural_later<N: Scalar, S: Shoe<N>>(
    val: spec_fn(N) -> real,
    s: S::State,
    t: Tally,
    hs17: bool,
)
    requires
        exact(val),
        S::sane(s),
        t.len() == 10,
        size(t) >= 2,
        !is_natural(t),
    ensures
        dealer_dist::<N, S>(s, t, hs17).len() == 7,
        val(dealer_dist::<N, S>(s, t, hs17)[6]) == 0real,
    decreases 27 - hard(t), 12int,
{
    exact_whole::<N>(val, 0);
    S::draws_are_there(s);
    if must_hit(t, hs17) {
        average_without_natural::<N, S>(val, s, t, hs17, S::draws(s).len() as int);
    } else {
        law_dealer_stops_at_17_or_more(t, hs17);
        assert(final_outcome(t) != DealerOutcome::Natural);
        assert(outcome_place(final_outcome(t)) != 6);
    }
}

proof fn average_without_natural<N: Scalar, S: Shoe<N>>(
    val: spec_fn(N) -> real,
    s: S::State,
    t: Tally,
    hs17: bool,
    k: int,
)
    requires
        exact(val),
        S::sane(s),
        t.len() == 10,
        hard(t) < 17,
        size(t) >= 2,
        0 <= k <= S::draws(s).len(),
    ensures
        dealer_average::<N, S>(s, t, hs17, k).len() == 7,
        val(dealer_average::<N, S>(s, t, hs17, k)[6]) == 0real,
    decreases 27 - hard(t), k,
{
    exact_whole::<N>(val, 0);
    S::draws_are_there(s);
    if k > 0 {
        average_without_natural::<N, S>(val, s, t, hs17, k - 1);
        let acc = dealer_average::<N, S>(s, t, hs17, k - 1);
        let (card, p) = S::draws(s)[k - 1];
        if !is_nil(p) {
            let next = S::without(s, single(card));
            let hand = with_card(t, card);
            S::without_supply(s, single(card));
            hard_with_n(t, card.rank(), 1);
            crate::shoe::law_natural_is_two_card_21(hand);
            no_natural_later::<N, S>(val, next, hand, hs17);
            let x = val(p);
            assert(x * 0real == 0real) by (nonlinear_arith);
        }
    }
}

/// In an exact arithmetic a dealer who has looked and has no natural never ends with one.
pub proof fn law_peeked_dealer_has_no_natural<N: Scalar, S: Shoe<N>>(
    val: spec_fn(N) -> real,
    s: S::State,
    up: Card,
    hs17: bool,
)
    requires
        exact(val),
        S::sane(s),
        up == Card::Ace || up == Card::Ten,
    ensures
        peeked_dist::<N, S>(s, up, natural_hole(up)->0, hs17).len() == 7,
        val(peeked_dist::<N, S>(s, up, natural_hole(up)->0, hs17)[6]) == 0real,
{
    S::draws_are_there(s);
    peeked_without_natural::<N, S>(val, s, up, hs17, S::draws(s).len() as int);
}

proof fn peeked_without_natural<N: Scalar, S: Shoe<N>>(
    val: spec_fn(N) -> real,
    s: S::State,
    up: Card,
    hs17: bool,
    k: int,
)
    requires
        exact(val),
        S::sane(s),
        up == Card::Ace || up == Card::Ten,
        0 <= k <= S::draws(s).len(),
    ensures
        peeked_dist_upto::<N, S>(s, up, natural_hole(up)->0, hs17, k).len() == 7,
        val(peeked_dist_upto::<N, S>(s, up, natural_hole(up)->0, hs17, k)[6]) == 0real,
    decreases k,
{
    exact_whole::<N>(val, 0);
    S::draws_are_there(s);
    if k > 0 {
        peeked_without_natural::<N, S>(val, s, up, hs17, k - 1);
        let (hole, p) = S::draws(s)[k - 1];
        let bj = natural_hole(up)->0;
        if hole != bj {
            let next = S::without(s, single(hole));
            let hand = with_card(single(up), hole);
            S::without_supply(s, single(hole));
            hard_with_n(crate::shoe::no_cards(), up.rank(), 1);
            hard_with_n(single(up), hole.rank(), 1);
            let pair = with_card(single(Card::Ace), Card::Ten);
            if is_natural(hand) {
                assert(hand[0] == pair[0] && hand[9] == pair[9]);
                assert(hole.rank() == 0 || hole.rank() == 9);
            }
            no_natural_later::<N, S>(val, next, hand, hs17);
            let x = val(p.over_spec(crate::simulation::no_natural::<N, S>(s, bj)));
            assert(x * 0real == 0real) by (nonlinear_arith);
        }
    }
}

} // verus!
