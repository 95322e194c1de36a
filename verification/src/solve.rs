//! The tree of a round: every hand that can be dealt against one up-card, with
//! the value of each of its moves.
use crate::card::Card;
use crate::dealer::{dealer_dist, dealer_outcome_probs};
use crate::drawing::{chance, fits, hand_prob, uses_up, Shoe};
use crate::hand::{best_entry, state_of, HandState, Move, MoveEvs};
use crate::num::{from_whole, minus_one, one, whole, zero, Scalar};
use crate::partitions::{
    hard_with_n, law_partitions_are_complete, law_partitions_are_distinct,
    law_partitions_are_hands, partitions, scan_weight, WeightedPartitions,
};
use crate::rules::{Ruleset, SurrenderRule};
use crate::shoe::{
    hard, is_natural, single, size, tally_bounds, with_card, CardCol, Tally, N_RANKS,
};
use crate::simulation::{
    basis_dist, basis_draws, basis_draws_are_there, basis_of, dealer_natural_prob, natural_chance,
    stand_ev, stand_value, Basis,
};
use crate::table::HandTable;
use vstd::prelude::*;

verus! {

broadcast use tally_bounds;

/// The hands of a tree with their weights and the values of their moves.
pub type EvTree<N> = HandTable<(N, MoveEvs<N>)>;

/// The value of the best move.
pub open spec fn best_value<N: Scalar>(evs: MoveEvs<N>) -> N {
    match best_entry(evs) {
        Some((_, ev)) => ev,
        None => minus_one::<N>(),
    }
}

/// The value of each move of the hand `t` on the basis `b`, where the shoe was
/// in the state `s` before the player's cards were dealt and `splits` gives the
/// value of splitting each pair.
///
/// A natural only stands, and it is resolved against the dealer who has not
/// looked yet. Every other hand can stand and hit, and a hand that is hit is
/// played on with its best move. A hand of two cards can also double, which is
/// to draw one card and stand for twice the bet, surrender for half the bet
/// where the rules offer it, and split where a value of splitting is known.
pub open spec fn hand_ev<N: Scalar, S: Shoe<N>>(
    b: Basis,
    rules: Ruleset,
    s: S::State,
    splits: Map<Tally, N>,
    t: Tally,
) -> MoveEvs<N>
    decreases 32 - hard(t), 20int,
    when S::sane(s) && t.len() == 10 && hard(t) <= 21
    via hand_ev_ends::<N, S>
{
    let left = S::without(s, t);
    let payout = rules.bj_payout.multiplier_spec::<N>();
    if is_natural(t) {
        MoveEvs {
            hit: None,
            stand: Some(
                stand_value(
                    dealer_dist::<N, S>(left, single(b.up_card), rules.hs17),
                    HandState::Natural,
                    payout,
                ),
            ),
            double: None,
            split: None,
            surrender: None,
        }
    } else {
        let draws = basis_draws::<N, S>(b, left).len() as int;
        let two = size(t) == 2;
        MoveEvs {
            hit: Some(hit_upto::<N, S>(b, rules, s, splits, t, draws)),
            stand: Some(stand_value(basis_dist::<N, S>(b, left), state_of(t), payout)),
            double: if two {
                Some(double_upto::<N, S>(b, rules, s, splits, t, draws))
            } else {
                None
            },
            split: if two && splits.contains_key(t) {
                Some(splits[t])
            } else {
                None
            },
            surrender: if two && rules.peek.surrender_spec() != SurrenderRule::Never {
                Some(N::ratio_spec((-1) as i64, 2))
            } else {
                None
            },
        }
    }
}

/// The part of the value of hitting over the first `k` cards that can come.
pub open spec fn hit_upto<N: Scalar, S: Shoe<N>>(
    b: Basis,
    rules: Ruleset,
    s: S::State,
    splits: Map<Tally, N>,
    t: Tally,
    k: int,
) -> N
    decreases 32 - hard(t), k,
    when S::sane(s) && t.len() == 10 && hard(t) <= 21 && k <= basis_draws::<N, S>(
        b,
        S::without(s, t),
    ).len()
    via hit_upto_ends::<N, S>
{
    if k <= 0 {
        zero::<N>()
    } else {
        let (card, p) = basis_draws::<N, S>(b, S::without(s, t))[k - 1];
        let child = with_card(t, card);
        hit_upto::<N, S>(b, rules, s, splits, t, k - 1).plus_spec(
            p.times_spec(
                if hard(child) > 21 {
                    minus_one::<N>()
                } else {
                    best_value(hand_ev::<N, S>(b, rules, s, splits, child))
                },
            ),
        )
    }
}

/// The part of the value of doubling over the first `k` cards that can come.
pub open spec fn double_upto<N: Scalar, S: Shoe<N>>(
    b: Basis,
    rules: Ruleset,
    s: S::State,
    splits: Map<Tally, N>,
    t: Tally,
    k: int,
) -> N
    decreases 32 - hard(t), k,
    when S::sane(s) && t.len() == 10 && hard(t) <= 21 && k <= basis_draws::<N, S>(
        b,
        S::without(s, t),
    ).len()
    via double_upto_ends::<N, S>
{
    if k <= 0 {
        zero::<N>()
    } else {
        let (card, p) = basis_draws::<N, S>(b, S::without(s, t))[k - 1];
        let child = with_card(t, card);
        double_upto::<N, S>(b, rules, s, splits, t, k - 1).plus_spec(
            p.times_spec(whole::<N>(2)).times_spec(
                if hard(child) > 21 {
                    minus_one::<N>()
                } else {
                    hand_ev::<N, S>(b, rules, s, splits, child).stand->0
                },
            ),
        )
    }
}

#[via_fn]
proof fn hand_ev_ends<N: Scalar, S: Shoe<N>>(
    b: Basis,
    rules: Ruleset,
    s: S::State,
    splits: Map<Tally, N>,
    t: Tally,
) {
    S::without_supply(s, t);
    basis_draws_are_there::<N, S>(b, S::without(s, t));
    S::draws_are_there(S::without(s, t));
}

#[via_fn]
proof fn hit_upto_ends<N: Scalar, S: Shoe<N>>(
    b: Basis,
    rules: Ruleset,
    s: S::State,
    splits: Map<Tally, N>,
    t: Tally,
    k: int,
) {
    if k > 0 {
        child_total::<N, S>(b, s, t, k - 1);
    }
}

#[via_fn]
proof fn double_upto_ends<N: Scalar, S: Shoe<N>>(
    b: Basis,
    rules: Ruleset,
    s: S::State,
    splits: Map<Tally, N>,
    t: Tally,
    k: int,
) {
    if k > 0 {
        child_total::<N, S>(b, s, t, k - 1);
    }
}

/// The total of a hand that was hit with the card at place `i`.
pub proof fn child_total<N: Scalar, S: Shoe<N>>(b: Basis, s: S::State, t: Tally, i: int)
    requires
        S::sane(s),
        t.len() == 10,
        0 <= i < basis_draws::<N, S>(b, S::without(s, t)).len(),
    ensures
        ({
            let card = basis_draws::<N, S>(b, S::without(s, t))[i].0;
            &&& card.valid()
            &&& S::supply(S::without(s, t), card.rank()) != Some(0nat)
            &&& hard(with_card(t, card)) == hard(t) + card.value()
            &&& size(with_card(t, card)) == size(t) + 1
            &&& 1 <= card.value() <= 10
        }),
{
    S::without_supply(s, t);
    let left = S::without(s, t);
    basis_draws_are_there::<N, S>(b, left);
    let card = basis_draws::<N, S>(b, left)[i].0;
    assert(card == S::draws(left)[i].0);
    hard_with_n(t, card.rank(), 1);
    crate::card::law_rank_round_trip(card, 0);
}

/// Whether a hand can be dealt and is not over 21.
pub open spec fn dealable<N: Scalar, S: Shoe<N>>(s: S::State, t: Tally) -> bool {
    &&& t.len() == 10
    &&& size(t) >= 2
    &&& hard(t) <= 21
    &&& fits::<N, S>(s, t)
}

/// A hand that was dealt and hit can be dealt.
pub proof fn child_fits<N: Scalar, S: Shoe<N>>(s: S::State, t: Tally, card: Card)
    requires
        S::sane(s),
        t.len() == 10,
        fits::<N, S>(s, t),
        card.valid(),
        S::supply(S::without(s, t), card.rank()) != Some(0nat),
    ensures
        fits::<N, S>(s, with_card(t, card)),
{
    S::without_supply(s, t);
    let child = with_card(t, card);
    assert forall|i: int| 0 <= i < 10 implies (#[trigger] S::supply(s, i) matches Some(n)
        ==> child[i] <= n) by {
        assert(uses_up(S::supply(s, i), S::supply(S::without(s, t), i), t[i]));
    }
}

/// Whether a tree holds exactly the hands that can be dealt with a total above
/// `above`, with the values of their moves.
pub open spec fn holds_above<N: Scalar, S: Shoe<N>>(
    tree: Map<Tally, (N, MoveEvs<N>)>,
    b: Basis,
    rules: Ruleset,
    s: S::State,
    splits: Map<Tally, N>,
    above: int,
) -> bool {
    &&& forall|t: Tally|
        dealable::<N, S>(s, t) && hard(t) > above ==> #[trigger] tree.contains_key(t)
    &&& forall|t: Tally| #[trigger]
        tree.contains_key(t) ==> dealable::<N, S>(s, t) && tree[t].1 == hand_ev::<N, S>(
            b,
            rules,
            s,
            splits,
            t,
        )
}

/// Whether a tree holds what the moves of a hand are read off: each hand that one card
/// more makes of it, with the values of its moves, and none that is over 21.
pub open spec fn holds_hits<N: Scalar, S: Shoe<N>>(
    tree: Map<Tally, (N, MoveEvs<N>)>,
    b: Basis,
    rules: Ruleset,
    s: S::State,
    splits: Map<Tally, N>,
    t: Tally,
) -> bool {
    let draws = basis_draws::<N, S>(b, S::without(s, t));
    forall|i: int|
        0 <= i < draws.len() ==> ({
            let child = with_card(t, (#[trigger] draws[i]).0);
            if hard(child) <= 21 {
                tree.contains_key(child) && tree[child].1 == hand_ev::<N, S>(
                    b,
                    rules,
                    s,
                    splits,
                    child,
                )
            } else {
                !tree.contains_key(child)
            }
        })
}

/// A tree of all hands with higher totals holds what the moves of a hand are read off.
proof fn higher_hands_suffice<N: Scalar, S: Shoe<N>>(
    tree: Map<Tally, (N, MoveEvs<N>)>,
    b: Basis,
    rules: Ruleset,
    s: S::State,
    splits: Map<Tally, N>,
    t: Tally,
)
    requires
        S::sane(s),
        dealable::<N, S>(s, t),
        holds_above::<N, S>(tree, b, rules, s, splits, hard(t) as int),
    ensures
        holds_hits::<N, S>(tree, b, rules, s, splits, t),
{
    let draws = basis_draws::<N, S>(b, S::without(s, t));
    assert forall|i: int| 0 <= i < draws.len() implies ({
        let child = with_card(t, (#[trigger] draws[i]).0);
        if hard(child) <= 21 {
            tree.contains_key(child) && tree[child].1 == hand_ev::<N, S>(
                b,
                rules,
                s,
                splits,
                child,
            )
        } else {
            !tree.contains_key(child)
        }
    }) by {
        let child = with_card(t, draws[i].0);
        child_total::<N, S>(b, s, t, i);
        child_fits::<N, S>(s, t, draws[i].0);
        if hard(child) <= 21 {
            assert(dealable::<N, S>(s, child));
        }
    }
}

/// The weight that a hand is stored with. A starting hand has its chance, a
/// longer one its scan weight. Where the dealer has looked, the hand is only
/// played if there was no natural; a player's natural is resolved before that.
pub open spec fn stored_weight<N: Scalar, S: Shoe<N>>(b: Basis, s: S::State, t: Tally, scan: N) -> N {
    let occurrence = if size(t) == 2 {
        chance::<N, S>(s, t)
    } else {
        scan
    };
    if is_natural(t) {
        chance::<N, S>(s, t)
    } else if b.conditional {
        occurrence.times_spec(
            one::<N>().minus_spec(natural_chance::<N, S>(S::without(s, t), b.up_card)),
        )
    } else {
        occurrence
    }
}

/// Every hand can stand.
pub proof fn every_hand_stands<N: Scalar, S: Shoe<N>>(
    b: Basis,
    rules: Ruleset,
    s: S::State,
    splits: Map<Tally, N>,
    t: Tally,
)
    requires
        S::sane(s),
        t.len() == 10,
        hard(t) <= 21,
    ensures
        hand_ev::<N, S>(b, rules, s, splits, t).stand is Some,
        hand_ev::<N, S>(b, rules, s, splits, t).offers_any(),
{
}

/// The weight of one hand and the value of each of its moves, read off the hands
/// that one card more makes of it. A natural only stands: it needs none of them.
pub fn solve_hand<N: Scalar, S: Shoe<N>>(
    weight: N,
    hand: CardCol,
    shoe: &S,
    tree: &EvTree<N>,
    basis: Basis,
    rules: &Ruleset,
    split_evs: &HandTable<N>,
) -> (r: (N, MoveEvs<N>))
    requires
        basis.wf(),
        tree.wf(),
        split_evs.wf(),
        hard(hand@) <= 21,
        !is_natural(hand@) ==> holds_hits::<N, S>(
            tree.map(),
            basis,
            *rules,
            shoe.state(),
            split_evs.map(),
            hand@,
        ),
    ensures
        r.0 == stored_weight::<N, S>(basis, shoe.state(), hand@, weight),
        r.1 == hand_ev::<N, S>(basis, *rules, shoe.state(), split_evs.map(), hand@),
{
    let ghost s = shoe.state();
    let ghost splits = split_evs.map();
    let ghost t = hand@;
    shoe.is_sane();
    let left = shoe.remove_hand(&hand);
    let payout: N = rules.bj_payout.multiplier();
    if hand.is_nat21() {
        let up = CardCol::new().with(basis.up_card);
        let dist: [N; 7] = dealer_outcome_probs(up, &left, rules.hs17);
        let mut evs: MoveEvs<N> = MoveEvs::none();
        evs.set(Move::Stand, stand_ev(&dist, HandState::Natural, payout));
        return (hand_prob(shoe, &hand), evs);
    }
    let dist: [N; 7] = basis.dealer_dist(&left);
    let stand: N = stand_ev(&dist, HandState::of(&hand), payout);
    let draws: Vec<(Card, N)> = basis.draw_probs(&left);
    let two: bool = hand.len() == 2;
    let minus: N = from_whole(-1);
    let two_n: N = from_whole(2);
    let mut hit: N = from_whole(0);
    let mut double: N = from_whole(0);
    let mut k: usize = 0;
    while k < draws.len()
        invariant
            k <= draws@.len(),
            S::sane(s),
            s == shoe.state(),
            t == hand@,
            splits == split_evs.map(),
            draws@ == basis_draws::<N, S>(basis, S::without(s, t)),
            tree.wf(),
            hard(t) <= 21,
            holds_hits::<N, S>(tree.map(), basis, *rules, s, splits, t),
            minus == minus_one::<N>(),
            two_n == whole::<N>(2),
            two == (size(t) == 2),
            hit == hit_upto::<N, S>(basis, *rules, s, splits, t, k as int),
            two ==> double == double_upto::<N, S>(basis, *rules, s, splits, t, k as int),
        decreases draws@.len() - k,
    {
        let (card, p) = draws[k];
        proof {
            child_total::<N, S>(basis, s, t, k as int);
            crate::dealer::hand_rank_below(t, card.rank());
        }
        let child = hand.with(card);
        let (best_child, stand_child) = match tree.get(&child) {
            Some(entry) => {
                proof {
                    every_hand_stands::<N, S>(basis, *rules, s, splits, child@);
                }
                let best_child: N = match entry.1.best() {
                    Some((_, ev)) => ev,
                    None => minus,
                };
                let stand_child: N = match entry.1.stand {
                    Some(ev) => ev,
                    None => minus,
                };
                (best_child, stand_child)
            },
            None => (minus, minus),
        };
        hit = hit.plus(p.times(best_child));
        if two {
            double = double.plus(p.times(two_n).times(stand_child));
        }
        k += 1;
    }
    let mut evs: MoveEvs<N> = MoveEvs::none();
    evs.set(Move::Stand, stand);
    evs.set(Move::Hit, hit);
    if two {
        evs.set(Move::Double, double);
        if rules.peek.surrender_offered() {
            evs.set(Move::Surrender, N::ratio(-1, 2));
        }
        match split_evs.get(&hand) {
            Some(ev) => {
                evs.set(Move::Split, *ev);
            },
            None => {},
        }
    }
    let occurrence: N = if two {
        hand_prob(shoe, &hand)
    } else {
        weight
    };
    let stored: N = if basis.conditional {
        let one_n: N = from_whole(1);
        occurrence.times(one_n.minus(dealer_natural_prob(basis.up_card, &left)))
    } else {
        occurrence
    };
    (stored, evs)
}

/// The hands of two cards or more among the first `k` of an enumeration.
pub open spec fn long_hands<N>(parts: Seq<(N, Tally)>, k: int) -> Seq<Tally>
    decreases k,
{
    if k <= 0 {
        Seq::empty()
    } else if size(parts[k - 1].1) >= 2 {
        long_hands(parts, k - 1).push(parts[k - 1].1)
    } else {
        long_hands(parts, k - 1)
    }
}

/// The hands of two cards or more with totals from 21 down to `least`, in the
/// order in which they are solved.
pub open spec fn solve_order<N: Scalar, S: Shoe<N>>(s: S::State, least: int) -> Seq<Tally>
    decreases 22 - least,
{
    if least > 21 {
        Seq::empty()
    } else {
        let parts = partitions::<N, S>(s, least as nat);
        solve_order::<N, S>(s, least + 1) + long_hands(parts, parts.len() as int)
    }
}

/// The whole tree: every hand that can be dealt, with its weight and the values
/// of its moves.
pub open spec fn is_tree<N: Scalar, S: Shoe<N>>(
    tree: Map<Tally, (N, MoveEvs<N>)>,
    b: Basis,
    rules: Ruleset,
    s: S::State,
    splits: Map<Tally, N>,
) -> bool {
    &&& forall|t: Tally| #[trigger] tree.contains_key(t) <==> dealable::<N, S>(s, t)
    &&& forall|t: Tally| #[trigger]
        tree.contains_key(t) ==> tree[t] == (
            stored_weight::<N, S>(b, s, t, scan_weight::<N, S>(s, t)),
            hand_ev::<N, S>(b, rules, s, splits, t),
        )
}

/// Solve every hand against one up-card, given the values of splitting pairs.
/// The shoe still holds the up-card.
pub fn build_evs_with_splits<N: Scalar, S: Shoe<N>>(
    shoe: &S,
    up_card: Card,
    rules: &Ruleset,
    split_evs: &HandTable<N>,
) -> (r: EvTree<N>)
    requires
        up_card.valid(),
        S::supply(shoe.state(), up_card.rank()) != Some(0nat),
        split_evs.wf(),
    ensures
        r.wf(),
        is_tree::<N, S>(
            r.map(),
            basis_of(up_card, *rules),
            *rules,
            S::without(shoe.state(), single(up_card)),
            split_evs.map(),
        ),
        r.order() == solve_order::<N, S>(S::without(shoe.state(), single(up_card)), 2),
{
    let mut after_up = shoe.duplicate();
    after_up.draw(&up_card);
    let basis = Basis::new(up_card, rules);
    let ghost s = after_up.state();
    let ghost splits = split_evs.map();
    let mut tree: EvTree<N> = HandTable::new();
    let mut tot: u8 = 22;
    while tot > 2
        invariant
            2 <= tot <= 22,
            basis.wf(),
            s == after_up.state(),
            splits == split_evs.map(),
            split_evs.wf(),
            tree.wf(),
            holds_above::<N, S>(tree.map(), basis, *rules, s, splits, tot - 1),
            forall|t: Tally| #[trigger] tree.map().contains_key(t) ==> hard(t) >= tot,
            forall|t: Tally| #[trigger]
                tree.map().contains_key(t) ==> tree.map()[t].0 == stored_weight::<N, S>(
                    basis,
                    s,
                    t,
                    scan_weight::<N, S>(s, t),
                ),
            tree.order() == solve_order::<N, S>(s, tot as int),
        decreases tot,
    {
        tot -= 1;
        let ghost before = tree.order();
        let ghost all = partitions::<N, S>(s, tot as nat);
        let ghost mut done: int = 0;
        let mut parts: WeightedPartitions<N, S> = WeightedPartitions::new(&after_up, tot);
        let mut going: bool = true;
        assert(all.skip(0) =~= all);
        assert(before + long_hands(all, 0) =~= before);
        while going
            invariant
                2 <= tot <= 21,
                basis.wf(),
                s == after_up.state(),
                splits == split_evs.map(),
                split_evs.wf(),
                tree.wf(),
                parts.wf(),
                all == partitions::<N, S>(s, tot as nat),
                0 <= done <= all.len(),
                parts.pending() == all.skip(done),
                !going ==> done == all.len(),
                holds_above::<N, S>(tree.map(), basis, *rules, s, splits, tot as int),
                forall|t: Tally| #[trigger] tree.map().contains_key(t) ==> hard(t) >= tot,
                forall|t: Tally| #[trigger]
                    tree.map().contains_key(t) ==> tree.map()[t].0 == stored_weight::<N, S>(
                        basis,
                        s,
                        t,
                        scan_weight::<N, S>(s, t),
                    ),
                forall|i: int|
                    0 <= i < done && size((#[trigger] all[i]).1) >= 2
                        ==> tree.map().contains_key(all[i].1),
                forall|t: Tally| #[trigger]
                    tree.map().contains_key(t) && hard(t) == tot ==> exists|i: int|
                        0 <= i < done && (#[trigger] all[i]).1 == t,
                tree.order() == before + long_hands(all, done),
            decreases all.len() - done + if going {
                1int
            } else {
                0int
            },
        {
            match parts.next() {
                None => {
                    going = false;
                    assert(done == all.len());
                },
                Some((weight, hand)) => {
                    let ghost pending = all.skip(done);
                    proof {
                        assert(pending[0] == all[done]);
                        law_partitions_are_hands::<N, S>(s, tot as nat, done);
                        assert(pending.drop_first() =~= all.skip(done + 1));
                    }
                    if hand.len() >= 2 {
                        proof {
                            assert(dealable::<N, S>(s, hand@));
                            if tree.map().contains_key(hand@) {
                                let i = choose|i: int|
                                    0 <= i < done && (#[trigger] all[i]).1 == hand@;
                                law_partitions_are_distinct::<N, S>(s, tot as nat, i, done);
                            }
                        }
                        after_up.is_sane();
                        proof {
                            higher_hands_suffice::<N, S>(
                                tree.map(),
                                basis,
                                *rules,
                                s,
                                split_evs.map(),
                                hand@,
                            );
                        }
                        let entry = solve_hand(
                            weight,
                            hand,
                            &after_up,
                            &tree,
                            basis,
                            rules,
                            split_evs,
                        );
                        let ghost was = tree.map();
                        tree.insert(hand, entry);
                        proof {
                            assert(all[done].1 == hand@);
                            assert forall|t: Tally|
                                dealable::<N, S>(s, t) && hard(t) > tot implies #[trigger] tree.map().contains_key(
                            t) by {
                                assert(was.contains_key(t));
                            }
                            assert(tree.order() =~= before + long_hands(all, done + 1));
                        }
                    }
                    proof {
                        done = done + 1;
                    }
                },
            }
        }
        proof {
            assert forall|t: Tally|
                dealable::<N, S>(s, t) && hard(t) > tot - 1 implies #[trigger] tree.map().contains_key(
            t) by {
                if hard(t) == tot {
                    let at = law_partitions_are_complete::<N, S>(s, tot as nat, t);
                    assert(all[at].1 == t);
                }
            }
        }
    }
    after_up.is_sane();
    proof {
        assert forall|t: Tally| #[trigger] tree.map().contains_key(t) <==> dealable::<N, S>(
            s,
            t,
        ) by {
            if dealable::<N, S>(s, t) {
                two_cards_total_two(t);
            }
        }
    }
    tree
}

/// Two cards make a total of two at least.
proof fn two_cards_total_two(t: Tally)
    requires
        t.len() == 10,
        size(t) >= 2,
    ensures
        hard(t) >= 2,
{
}

/// What one up-card contributes to the player's edge: the value of the starting
/// hands by weight, and their weight. Where the dealer looks for a natural, the
/// weights fall short of one by the chance that there is one.
#[derive(Clone, Copy)]
pub struct EdgeTerm<N> {
    pub weighted_ev: N,
    pub weight: N,
}

impl<N: Scalar> EdgeTerm<N> {
    /// What [`EdgeTerm::value`] returns.
    pub open spec fn value_spec(self) -> N {
        self.weighted_ev.minus_spec(one::<N>().minus_spec(self.weight))
    }

    /// The edge with the rounds that a dealer's natural ends counted as lost.
    pub fn value(&self) -> (r: N)
        ensures
            r == self.value_spec(),
    {
        let one_n: N = from_whole(1);
        self.weighted_ev.minus(one_n.minus(self.weight))
    }
}

/// The edge over the starting hands among the first `k` hands, each with a value
/// of its own.
pub open spec fn edge_upto<N: Scalar>(
    order: Seq<Tally>,
    weight: spec_fn(Tally) -> N,
    value: spec_fn(Tally) -> N,
    k: int,
) -> EdgeTerm<N>
    decreases k,
{
    if k <= 0 {
        EdgeTerm { weighted_ev: zero::<N>(), weight: zero::<N>() }
    } else {
        let acc = edge_upto(order, weight, value, k - 1);
        let t = order[k - 1];
        if size(t) == 2 {
            EdgeTerm {
                weighted_ev: acc.weighted_ev.plus_spec(weight(t).times_spec(value(t))),
                weight: acc.weight.plus_spec(weight(t)),
            }
        } else {
            acc
        }
    }
}

/// The edge of a tree when every starting hand is played with its best move.
pub open spec fn best_edge<N: Scalar>(
    order: Seq<Tally>,
    tree: Map<Tally, (N, MoveEvs<N>)>,
) -> EdgeTerm<N> {
    edge_upto(
        order,
        |t: Tally| tree[t].0,
        |t: Tally| best_value(tree[t].1),
        order.len() as int,
    )
}

/// The edge of a tree when every starting hand is played with its best move.
pub fn edge_term<N: Scalar>(tree: &EvTree<N>) -> (r: EdgeTerm<N>)
    requires
        tree.wf(),
    ensures
        r == best_edge(tree.order(), tree.map()),
{
    let ghost order = tree.order();
    let ghost map = tree.map();
    let ghost weight = |t: Tally| map[t].0;
    let ghost value = |t: Tally| best_value(map[t].1);
    let mut weighted_ev: N = from_whole(0);
    let mut sum: N = from_whole(0);
    let mut k: usize = 0;
    while k < tree.len()
        invariant
            k <= order.len(),
            tree.wf(),
            order == tree.order(),
            map == tree.map(),
            weight == (|t: Tally| map[t].0),
            value == (|t: Tally| best_value(map[t].1)),
            (EdgeTerm { weighted_ev, weight: sum }) == edge_upto(order, weight, value, k as int),
        decreases order.len() - k,
    {
        let hand = tree.hand(k);
        if hand.len() == 2 {
            let entry = tree.value(k);
            let best: N = match entry.1.best() {
                Some((_, ev)) => ev,
                None => from_whole(-1),
            };
            sum = sum.plus(entry.0);
            weighted_ev = weighted_ev.plus(entry.0.times(best));
        }
        k += 1;
    }
    EdgeTerm { weighted_ev, weight: sum }
}

/// The pairs that a shoe can deal, in rank order.
pub open spec fn pairs_upto<N: Scalar, S: Shoe<N>>(s: S::State, k: int) -> Seq<Tally>
    decreases k,
{
    if k <= 0 {
        Seq::empty()
    } else {
        let card = crate::card::card_at(k - 1);
        let pair = with_card(single(card), card);
        if S::holds(s, pair) {
            pairs_upto::<N, S>(s, k - 1).push(pair)
        } else {
            pairs_upto::<N, S>(s, k - 1)
        }
    }
}

/// The pairs that a shoe can deal, in rank order. The up-card is already out of
/// the shoe.
pub fn splittable_pairs<N: Scalar, S: Shoe<N>>(shoe: &S) -> (r: Vec<CardCol>)
    ensures
        r@.map_values(|c: CardCol| c@) == pairs_upto::<N, S>(shoe.state(), 10),
{
    let mut out: Vec<CardCol> = Vec::new();
    let mut i: usize = 0;
    assert(out@.map_values(|c: CardCol| c@) =~= pairs_upto::<N, S>(shoe.state(), 0));
    while i < N_RANKS
        invariant
            i <= 10,
            out@.map_values(|c: CardCol| c@) == pairs_upto::<N, S>(shoe.state(), i as int),
        decreases 10 - i,
    {
        let card = Card::from_rank_index(i);
        let pair = CardCol::new().with(card).with(card);
        let ghost before = out@;
        if shoe.contains_hand(&pair) {
            out.push(pair);
            assert(out@.map_values(|c: CardCol| c@) =~= before.map_values(|c: CardCol| c@).push(
                pair@,
            ));
        }
        i += 1;
    }
    out
}

} // verus!
