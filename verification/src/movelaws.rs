//! What the values of a hand's moves come to, as numbers: what the dealer does, what standing
//! wins, and what a card more leads to.
use crate::card::{card_at, Card};
use crate::dealer::{final_outcome, must_hit, DealerOutcome};
use crate::drawing::Shoe;
use crate::exact::{exact, exact_whole};
use crate::grading::{finite_evs, own_split};
use crate::hand::{is_pair_of, pair_of, state_of, HandState, Move};
use crate::num::Scalar;
use crate::column::tree_map;
use crate::round::{pair_tally, pair_value, pair_values};
use crate::rules::{BjPayout, Ruleset};
use crate::shoe::{best, hard, is_natural, is_soft, single, size, taken, with_card, CardCol, Tally};
use crate::simulation::{
    basis_dist, basis_draws, basis_of, stand_upto, stand_value, Basis,
};
use crate::solve::{
    best_value, child_total, dealable, double_upto, hand_ev, hit_upto, EdgeTerm,
};
use crate::split::split_value;
use vstd::prelude::*;

verus! {

/// The house rule: the dealer takes a card on every total below 17, on a soft 17 exactly under the
/// rules that say so, and on nothing else.
pub proof fn law_dealer_plays_by_the_house_rule(t: Tally, hs17: bool)
    requires
        t.len() == 10,
        hard(t) <= 21,
    ensures
        best(t) < 17 ==> must_hit(t, hs17),
        best(t) == 17 ==> must_hit(t, hs17) == (hs17 && is_soft(t)),
        best(t) > 17 ==> !must_hit(t, hs17),
{
}

/// How a dealer ends who takes no more cards: over 21, with a natural, or with the total.
pub proof fn law_dealer_ends_with_the_total(t: Tally)
    requires
        t.len() == 10,
        hard(t) <= 31,
    ensures
        final_outcome(t) == DealerOutcome::Bust <==> best(t) > 21,
        final_outcome(t) == DealerOutcome::Natural <==> best(t) == 21 && size(t) == 2,
        best(t) <= 21 && !(best(t) == 21 && size(t) == 2) ==> final_outcome(t)
            == DealerOutcome::Total(best(t) as u8),
{
    crate::shoe::law_natural_is_two_card_21(t);
}

/// In an exact arithmetic a hand that stands and is neither over 21 nor a natural wins as often
/// as the dealer goes over 21 or ends lower, and loses as often as the dealer ends higher or has
/// a natural. The seven chances are those of going over 21, of 17 to 21 and of a natural.
pub proof fn law_standing_wins_by_the_total<N: Scalar>(
    val: spec_fn(N) -> real,
    dist: Seq<N>,
    t: Tally,
    pays: N,
)
    requires
        exact(val),
        dist.len() == 7,
        t.len() == 10,
        hard(t) <= 21,
        !is_natural(t),
    ensures
        ({
            let own = best(t) as int;
            let against = |d: int, p: real|
                if own > d {
                    p
                } else if own == d {
                    0real
                } else {
                    -p
                };
            val(stand_value(dist, state_of(t), pays)) == val(dist[0]) + against(17, val(dist[1]))
                + against(18, val(dist[2])) + against(19, val(dist[3])) + against(
                20,
                val(dist[4]),
            ) + against(21, val(dist[5])) - val(dist[6])
        }),
{
    exact_whole::<N>(val, 0);
    exact_whole::<N>(val, 1);
    exact_whole::<N>(val, (-1) as i64);
    reveal_with_fuel(stand_upto, 8);
    let own = best(t) as int;
    assert(own <= 21);
    times_units(val(dist[0]));
    times_units(val(dist[1]));
    times_units(val(dist[2]));
    times_units(val(dist[3]));
    times_units(val(dist[4]));
    times_units(val(dist[5]));
    times_units(val(dist[6]));
}

proof fn times_units(p: real)
    ensures
        p * 1real == p,
        p * 0real == 0real,
        p * -1real == -p,
{
    assert(p * 1real == p && p * 0real == 0real && p * -1real == -p) by (nonlinear_arith);
}

/// In an exact arithmetic a natural wins what it is paid as often as the dealer has none, and
/// nothing else: three halves of the bet or six fifths, as the rules say.
pub proof fn law_naturals_win_the_payout<N: Scalar>(
    val: spec_fn(N) -> real,
    dist: Seq<N>,
    pays: BjPayout,
)
    requires
        exact(val),
        dist.len() == 7,
    ensures
        val(stand_value(dist, HandState::Natural, pays.multiplier_spec::<N>())) == (val(dist[0])
            + val(dist[1]) + val(dist[2]) + val(dist[3]) + val(dist[4]) + val(dist[5])) * match pays {
            BjPayout::ThreeToTwo => 3real / 2real,
            BjPayout::SixToFive => 6real / 5real,
        },
{
    exact_whole::<N>(val, 0);
    reveal_with_fuel(stand_upto, 8);
    let m = val(pays.multiplier_spec::<N>());
    assert(val(N::ratio_spec(3, 2)) == 3real / 2real);
    assert(val(N::ratio_spec(6, 5)) == 6real / 5real);
    let (a, b, c, d, e, f) = (
        val(dist[0]),
        val(dist[1]),
        val(dist[2]),
        val(dist[3]),
        val(dist[4]),
        val(dist[5]),
    );
    times_units(val(dist[6]));
    shared_factor(a, b, m);
    shared_factor(a + b, c, m);
    shared_factor(a + b + c, d, m);
    shared_factor(a + b + c + d, e, m);
    shared_factor(a + b + c + d + e, f, m);
}

proof fn shared_factor(a: real, b: real, m: real)
    ensures
        a * m + b * m == (a + b) * m,
{
    assert(a * m + b * m == (a + b) * m) by (nonlinear_arith);
}

/// The average over the first `k` cards that can come to a hand of what the hand is then worth,
/// where one over 21 has lost its bet.
pub open spec fn next_average<N: Scalar, S: Shoe<N>>(
    val: spec_fn(N) -> real,
    b: Basis,
    s: S::State,
    t: Tally,
    worth: spec_fn(Tally) -> real,
    k: int,
) -> real
    decreases k,
{
    if k <= 0 {
        0real
    } else {
        let (card, p) = basis_draws::<N, S>(b, S::without(s, t))[k - 1];
        next_average::<N, S>(val, b, s, t, worth, k - 1) + val(p) * if hard(with_card(t, card))
            > 21 {
            -1real
        } else {
            worth(with_card(t, card))
        }
    }
}

/// In an exact arithmetic a card is worth the average of the best that the hand can then do, and
/// doubling is worth twice the average of standing then.
pub proof fn law_cards_lead_to_hands<N: Scalar, S: Shoe<N>>(
    val: spec_fn(N) -> real,
    b: Basis,
    rules: Ruleset,
    s: S::State,
    splits: Map<Tally, N>,
    t: Tally,
)
    requires
        exact(val),
        S::sane(s),
        t.len() == 10,
        hard(t) <= 21,
        !is_natural(t),
    ensures
        ({
            let evs = hand_ev::<N, S>(b, rules, s, splits, t);
            let n = basis_draws::<N, S>(b, S::without(s, t)).len() as int;
            let best_then = |u: Tally| val(best_value(hand_ev::<N, S>(b, rules, s, splits, u)));
            let stand_then = |u: Tally| val(hand_ev::<N, S>(b, rules, s, splits, u).stand->0);
            &&& evs.hit is Some && val(evs.hit->0) == next_average::<N, S>(
                val,
                b,
                s,
                t,
                best_then,
                n,
            )
            &&& evs.double is Some <==> size(t) == 2
            &&& evs.double matches Some(d) ==> val(d) == 2real * next_average::<N, S>(
                val,
                b,
                s,
                t,
                stand_then,
                n,
            )
            &&& evs.stand == Some(
                stand_value(
                    basis_dist::<N, S>(b, S::without(s, t)),
                    state_of(t),
                    rules.bj_payout.multiplier_spec::<N>(),
                ),
            )
        }),
{
    S::without_supply(s, t);
    let n = basis_draws::<N, S>(b, S::without(s, t)).len() as int;
    hits_lead::<N, S>(val, b, rules, s, splits, t, n);
    doubles_lead::<N, S>(val, b, rules, s, splits, t, n);
}

proof fn hits_lead<N: Scalar, S: Shoe<N>>(
    val: spec_fn(N) -> real,
    b: Basis,
    rules: Ruleset,
    s: S::State,
    splits: Map<Tally, N>,
    t: Tally,
    k: int,
)
    requires
        exact(val),
        S::sane(s),
        t.len() == 10,
        hard(t) <= 21,
        0 <= k <= basis_draws::<N, S>(b, S::without(s, t)).len(),
    ensures
        val(hit_upto::<N, S>(b, rules, s, splits, t, k)) == next_average::<N, S>(
            val,
            b,
            s,
            t,
            |u: Tally| val(best_value(hand_ev::<N, S>(b, rules, s, splits, u))),
            k,
        ),
    decreases k,
{
    exact_whole::<N>(val, 0);
    exact_whole::<N>(val, (-1) as i64);
    if k > 0 {
        hits_lead::<N, S>(val, b, rules, s, splits, t, k - 1);
        child_total::<N, S>(b, s, t, k - 1);
    }
}

proof fn doubles_lead<N: Scalar, S: Shoe<N>>(
    val: spec_fn(N) -> real,
    b: Basis,
    rules: Ruleset,
    s: S::State,
    splits: Map<Tally, N>,
    t: Tally,
    k: int,
)
    requires
        exact(val),
        S::sane(s),
        t.len() == 10,
        hard(t) <= 21,
        0 <= k <= basis_draws::<N, S>(b, S::without(s, t)).len(),
    ensures
        val(double_upto::<N, S>(b, rules, s, splits, t, k)) == 2real * next_average::<N, S>(
            val,
            b,
            s,
            t,
            |u: Tally| val(hand_ev::<N, S>(b, rules, s, splits, u).stand->0),
            k,
        ),
    decreases k,
{
    exact_whole::<N>(val, 0);
    exact_whole::<N>(val, 2);
    exact_whole::<N>(val, (-1) as i64);
    if k > 0 {
        doubles_lead::<N, S>(val, b, rules, s, splits, t, k - 1);
        child_total::<N, S>(b, s, t, k - 1);
        let (card, p) = basis_draws::<N, S>(b, S::without(s, t))[k - 1];
        let child = with_card(t, card);
        let x = val(p);
        let y = if hard(child) > 21 {
            -1real
        } else {
            val(hand_ev::<N, S>(b, rules, s, splits, child).stand->0)
        };
        let z = next_average::<N, S>(
            val,
            b,
            s,
            t,
            |u: Tally| val(hand_ev::<N, S>(b, rules, s, splits, u).stand->0),
            k - 1,
        );
        assert(2real * z + (x * 2real) * y == 2real * (z + x * y)) by (nonlinear_arith);
    }
}

/// Whether the dealer looks makes no difference under a card that no natural begins with; under
/// an ace or a ten the hand is played knowing that there is none exactly under the rules by which
/// the dealer looks.
pub proof fn law_look_matters_under_ace_or_ten(up: Card, rules: Ruleset, other: Ruleset)
    requires
        rules.hs17 == other.hs17,
    ensures
        up != Card::Ace && up != Card::Ten ==> basis_of(up, rules) == basis_of(up, other)
            && !basis_of(up, rules).conditional,
        up == Card::Ace || up == Card::Ten ==> basis_of(up, rules).conditional
            == rules.peek.peeks_spec(),
        up == Card::Ace ==> basis_of(up, rules).bj_rank == Some(Card::Ten),
        up == Card::Ten ==> basis_of(up, rules).bj_rank == Some(Card::Ace),
        basis_of(up, rules).hs17 == rules.hs17,
        basis_of(up, rules).up_card == up,
{
}

/// A natural of the player's is held against a dealer who may have one, whether the dealer looks
/// or not.
pub proof fn law_naturals_meet_an_unlooked_dealer<N: Scalar, S: Shoe<N>>(
    b: Basis,
    c: Basis,
    rules: Ruleset,
    s: S::State,
    splits: Map<Tally, N>,
    t: Tally,
)
    requires
        S::sane(s),
        t.len() == 10,
        is_natural(t),
        b.up_card == c.up_card,
        b.up_card.valid(),
    ensures
        hand_ev::<N, S>(b, rules, s, splits, t) == hand_ev::<N, S>(c, rules, s, splits, t),
        hand_ev::<N, S>(b, rules, s, splits, t).stand == Some(
            stand_value(
                crate::dealer::dealer_dist::<N, S>(
                    S::without(s, t),
                    single(b.up_card),
                    rules.hs17,
                ),
                HandState::Natural,
                rules.bj_payout.multiplier_spec::<N>(),
            ),
        ),
{
    crate::shoe::law_natural_is_two_card_21(t);
}

/// A pair is split from the finite shoe without the up-card and its own two cards.
pub proof fn law_pairs_are_split_from_what_is_left<N: Scalar>(
    deck: Tally,
    up: Card,
    rules: Ruleset,
    rank: Card,
)
    requires
        deck.len() == 10,
        up.valid(),
        rank.valid(),
    ensures
        pair_value::<N, CardCol>(deck, up, rules, rank) == split_value::<N, CardCol>(
            rank,
            taken(taken(taken(deck, single(up)), single(rank)), single(rank)),
            basis_of(up, rules),
            rules,
        ),
{
    let after = taken(deck, single(up));
    crate::shoe::law_taken_twice(after, single(rank), single(rank));
    assert(crate::shoe::joined(single(rank), single(rank)) =~= pair_tally(rank)) by {
        crate::card::law_rank_round_trip(rank, 0);
    }
}

/// In an exact arithmetic the edge counts every round that a dealer's natural has ended as a bet
/// lost: the rounds that are played, of share `weight`, bring what they bring.
pub proof fn law_edge_counts_lost_rounds<N: Scalar>(val: spec_fn(N) -> real, edge: EdgeTerm<N>)
    requires
        exact(val),
    ensures
        val(edge.value_spec()) == val(edge.weighted_ev) + (1real - val(edge.weight)) * -1real,
{
    exact_whole::<N>(val, 1);
    let x = 1real - val(edge.weight);
    assert(x * -1real == -x) by (nonlinear_arith);
}

/// What splitting other hands is worth makes no difference to a hand.
proof fn splits_of_others<N: Scalar, S: Shoe<N>>(
    b: Basis,
    rules: Ruleset,
    s: S::State,
    a: Map<Tally, N>,
    c: Map<Tally, N>,
    t: Tally,
)
    requires
        S::sane(s),
        t.len() == 10,
        hard(t) <= 21,
        size(t) == 2 ==> a.contains_key(t) == c.contains_key(t) && (a.contains_key(t) ==> a[t]
            == c[t]),
        size(t) >= 2,
    ensures
        hand_ev::<N, S>(b, rules, s, a, t) == hand_ev::<N, S>(b, rules, s, c, t),
    decreases 32 - hard(t), 20int,
{
    S::without_supply(s, t);
    crate::simulation::basis_draws_are_there::<N, S>(b, S::without(s, t));
    S::draws_are_there(S::without(s, t));
    let n = basis_draws::<N, S>(b, S::without(s, t)).len() as int;
    hits_without_splits::<N, S>(b, rules, s, a, c, t, n);
}

proof fn hits_without_splits<N: Scalar, S: Shoe<N>>(
    b: Basis,
    rules: Ruleset,
    s: S::State,
    a: Map<Tally, N>,
    c: Map<Tally, N>,
    t: Tally,
    k: int,
)
    requires
        S::sane(s),
        t.len() == 10,
        hard(t) <= 21,
        size(t) >= 2,
        0 <= k <= basis_draws::<N, S>(b, S::without(s, t)).len(),
    ensures
        hit_upto::<N, S>(b, rules, s, a, t, k) == hit_upto::<N, S>(b, rules, s, c, t, k),
        double_upto::<N, S>(b, rules, s, a, t, k) == double_upto::<N, S>(b, rules, s, c, t, k),
    decreases 32 - hard(t), k,
{
    if k > 0 {
        hits_without_splits::<N, S>(b, rules, s, a, c, t, k - 1);
        child_total::<N, S>(b, s, t, k - 1);
        let child = with_card(t, basis_draws::<N, S>(b, S::without(s, t))[k - 1].0);
        if hard(child) <= 21 {
            splits_of_others::<N, S>(b, rules, s, a, c, child);
        }
    }
}

/// The place of the rank of a pair.
proof fn pair_found(t: Tally) -> (i: int)
    requires
        t.len() == 10,
        pair_of(t) is Some,
    ensures
        0 <= i < 10,
        is_pair_of(t, i),
        pair_of(t) == Some(card_at(i)),
        size(t) == 2,
{
    let i = choose|i: int| 0 <= i < 10 && #[trigger] is_pair_of(t, i);
    i
}

/// A decision on a shoe is graded by the very values that the tree of that shoe has for the hand:
/// the chart and the trainer solve alike.
pub proof fn law_grading_agrees_with_the_tree<N: Scalar>(
    shoe: Tally,
    t: Tally,
    up: Card,
    rules: Ruleset,
)
    requires
        <CardCol as Shoe<N>>::sane(shoe),
        up.valid(),
        dealable::<N, CardCol>(taken(shoe, single(up)), t),
    ensures
        finite_evs::<N>(shoe, t, up, rules) == Some(
            tree_map::<N, CardCol>(
                basis_of(up, rules),
                rules,
                taken(shoe, single(up)),
                pair_values::<N, CardCol>(shoe, up, rules),
            )[t].1,
        ),
{
    let after = taken(shoe, single(up));
    let own = own_split::<N>(shoe, t, up, rules);
    let all = pair_values::<N, CardCol>(shoe, up, rules);
    <CardCol as Shoe<N>>::without_supply(shoe, single(up));
    assert(all.contains_key(t) == own.contains_key(t) && (all.contains_key(t) ==> all[t]
        == own[t])) by {
        match pair_of(t) {
            Some(rank) => {
                let i = pair_found(t);
                crate::card::law_rank_round_trip(rank, i);
                crate::round::pair_tally_is_pair(i);
                crate::hand::pair_is_unique(t, i);
                crate::hand::pair_is_unique(pair_tally(rank), i);
                assert(t =~= pair_tally(rank));
                assert forall|j: int| 0 <= j < 10 implies #[trigger] t[j] <= after[j] by {
                    assert(<CardCol as Shoe<N>>::supply(after, j) == Some(after[j]));
                }
                assert(crate::shoe::within(t, after));
            },
            None => {
                if all.contains_key(t) {
                    let rank = choose|rank: int|
                        0 <= rank < 10 && t == #[trigger] pair_tally(card_at(rank))
                            && <CardCol as Shoe<N>>::holds(after, t);
                    crate::round::pair_tally_is_pair(rank);
                }
            },
        }
    }
    splits_of_others::<N, CardCol>(basis_of(up, rules), rules, after, own, all, t);
}

/// A pair that can be dealt may be split exactly where the rules allow two hands, and nothing
/// else may.
pub proof fn law_pairs_may_be_split<N: Scalar>(
    deck: Tally,
    up: Card,
    rules: Ruleset,
    t: Tally,
)
    requires
        <CardCol as Shoe<N>>::sane(deck),
        up.valid(),
        dealable::<N, CardCol>(taken(deck, single(up)), t),
    ensures
        ({
            let evs = tree_map::<N, CardCol>(
                basis_of(up, rules),
                rules,
                taken(deck, single(up)),
                pair_values::<N, CardCol>(deck, up, rules),
            )[t].1;
            &&& evs.split is Some <==> rules.max_split_hands >= 2 && pair_of(t) is Some
            &&& evs.split is Some ==> evs.split == Some(
                pair_value::<N, CardCol>(deck, up, rules, pair_of(t)->0),
            )
        }),
{
    law_grading_agrees_with_the_tree::<N>(deck, t, up, rules);
    let after = taken(deck, single(up));
    <CardCol as Shoe<N>>::without_supply(deck, single(up));
    if pair_of(t) is Some {
        let i = pair_found(t);
        if is_natural(t) {
            assert(t[0] == 1 && t[9] == 1 && t[1] == 0 && t[2] == 0 && t[3] == 0 && t[4] == 0
                && t[5] == 0 && t[6] == 0 && t[7] == 0 && t[8] == 0);
        }
    }
}

/// A hand of more than two cards can only be hit or stood on. One of two cards that is no natural
/// may be given up wherever the rules allow it, for half the bet.
pub proof fn law_longer_hands_hit_or_stand<N: Scalar, S: Shoe<N>>(
    val: spec_fn(N) -> real,
    b: Basis,
    rules: Ruleset,
    s: S::State,
    splits: Map<Tally, N>,
    t: Tally,
    mv: Move,
)
    requires
        exact(val),
        S::sane(s),
        t.len() == 10,
        hard(t) <= 21,
        size(t) >= 2,
    ensures
        ({
            let evs = hand_ev::<N, S>(b, rules, s, splits, t);
            &&& size(t) > 2 ==> (evs.at(mv) is Some <==> mv == Move::Hit || mv == Move::Stand)
            &&& size(t) == 2 && !is_natural(t) ==> (evs.surrender is Some
                <==> rules.peek.surrender_spec() != crate::rules::SurrenderRule::Never)
            &&& evs.surrender matches Some(x) ==> 2real * val(x) == -1real
        }),
{
    assert(val(N::ratio_spec((-1) as i64, 2)) == (-1int) as real / 2real);
    assert(is_natural(t) ==> size(t) == 2);
}

} // verus!
