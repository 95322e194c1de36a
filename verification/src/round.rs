//! One round against one up-card: the pairs are split first, then every hand is
//! solved.
use crate::card::{card_at, Card};
use crate::drawing::Shoe;
use crate::hand::{is_pair_of, pair_is_unique, pair_of};
use crate::num::Scalar;
use crate::rules::Ruleset;
use crate::shoe::{no_cards, single, size, tally_bounds, with_card, CardCol, Tally};
use crate::simulation::{basis_of, Basis};
use crate::solve::{
    build_evs_with_splits, is_tree, pairs_upto, solve_order, splittable_pairs, EvTree,
};
use crate::split::{split_move_ev, split_value};
use crate::table::HandTable;
use vstd::prelude::*;

verus! {

broadcast use tally_bounds;

/// The hand of two cards of one rank.
pub open spec fn pair_tally(card: Card) -> Tally {
    with_card(single(card), card)
}

/// The value of splitting a pair of this rank, where the shoe still holds the
/// up-card and the pair.
pub open spec fn pair_value<N: Scalar, S: Shoe<N>>(
    s: S::State,
    up: Card,
    rules: Ruleset,
    card: Card,
) -> N {
    split_value::<N, S>(
        card,
        S::split_state(S::without(S::without(s, single(up)), pair_tally(card))),
        basis_of(up, rules),
        rules,
    )
}

/// The value of splitting each pair that can be dealt, where the rules allow a
/// split.
pub open spec fn pair_values<N: Scalar, S: Shoe<N>>(
    s: S::State,
    up: Card,
    rules: Ruleset,
) -> Map<Tally, N> {
    Map::new(
        |t: Tally|
            rules.max_split_hands >= 2 && exists|rank: int|
                0 <= rank < 10 && t == #[trigger] pair_tally(card_at(rank)) && S::holds(
                    S::without(s, single(up)),
                    t,
                ),
        |t: Tally| pair_value::<N, S>(s, up, rules, pair_of(t)->0),
    )
}

/// A pair is a pair of its rank.
pub proof fn pair_tally_is_pair(rank: int)
    requires
        0 <= rank < 10,
    ensures
        is_pair_of(pair_tally(card_at(rank)), rank),
        pair_of(pair_tally(card_at(rank))) == Some(card_at(rank)),
        pair_tally(card_at(rank)).len() == 10,
        size(pair_tally(card_at(rank))) == 2,
{
    let t = pair_tally(card_at(rank));
    crate::partitions::hard_with_n(no_cards(), rank, 1);
    crate::partitions::hard_with_n(single(card_at(rank)), rank, 1);
    assert(is_pair_of(t, rank));
    pair_is_unique(t, rank);
}

/// The value of splitting one pair. The shoe still holds the up-card and the
/// pair.
pub fn pair_split_ev<N: Scalar, S: Shoe<N>>(
    pair: &CardCol,
    shoe: &S,
    up_card: Card,
    rules: &Ruleset,
) -> (r: N)
    requires
        up_card.valid(),
        S::supply(shoe.state(), up_card.rank()) != Some(0nat),
        pair_of(pair@) is Some,
        pair@ == pair_tally(pair_of(pair@)->0),
    ensures
        r == pair_value::<N, S>(shoe.state(), up_card, *rules, pair_of(pair@)->0),
{
    let mut after_up = shoe.duplicate();
    after_up.draw(&up_card);
    let left = after_up.remove_hand(pair).for_split();
    split_move_ev(pair, &left, Basis::new(up_card, rules), rules)
}

/// The values of splitting among the first `k` pairs.
spec fn values_upto<N: Scalar, S: Shoe<N>>(
    pairs: Seq<Tally>,
    s: S::State,
    up: Card,
    rules: Ruleset,
    k: int,
) -> Map<Tally, N>
    decreases k,
{
    if k <= 0 {
        Map::empty()
    } else {
        values_upto::<N, S>(pairs, s, up, rules, k - 1).insert(
            pairs[k - 1],
            pair_value::<N, S>(s, up, rules, pair_of(pairs[k - 1])->0),
        )
    }
}

proof fn pairs_upto_are_pairs<N: Scalar, S: Shoe<N>>(s: S::State, k: int)
    requires
        0 <= k <= 10,
    ensures
        forall|i: int|
            0 <= i < pairs_upto::<N, S>(s, k).len() ==> exists|rank: int|
                0 <= rank < k && (#[trigger] pairs_upto::<N, S>(s, k)[i]) == #[trigger] pair_tally(
                    card_at(rank),
                ) && S::holds(s, pairs_upto::<N, S>(s, k)[i]),
        forall|rank: int|
            0 <= rank < k && S::holds(s, #[trigger] pair_tally(card_at(rank)))
                ==> pairs_upto::<N, S>(s, k).contains(pair_tally(card_at(rank))),
    decreases k,
{
    if k > 0 {
        pairs_upto_are_pairs::<N, S>(s, k - 1);
        let shorter = pairs_upto::<N, S>(s, k - 1);
        let all = pairs_upto::<N, S>(s, k);
        let pair = pair_tally(card_at(k - 1));
        assert forall|i: int| 0 <= i < all.len() implies exists|rank: int|
            0 <= rank < k && (#[trigger] all[i]) == #[trigger] pair_tally(card_at(rank)) && S::holds(s, all[i]) by {
            if i < shorter.len() {
                assert(all[i] == shorter[i]);
                let rank = choose|rank: int|
                    0 <= rank < k - 1 && shorter[i] == #[trigger] pair_tally(card_at(rank))
                        && S::holds(s, shorter[i]);
                assert(all[i] == pair_tally(card_at(rank)));
            } else {
                assert(all[i] == pair);
                assert(all[i] == pair_tally(card_at(k - 1)));
            }
        }
        assert forall|rank: int|
            0 <= rank < k && S::holds(s, #[trigger] pair_tally(card_at(rank))) implies all.contains(
        pair_tally(card_at(rank))) by {
            if rank < k - 1 {
                let at = shorter.index_of(pair_tally(card_at(rank)));
                assert(all[at] == shorter[at]);
            } else {
                assert(all[shorter.len() as int] == pair);
            }
        }
    }
}

proof fn values_are_pair_values<N: Scalar, S: Shoe<N>>(
    pairs: Seq<Tally>,
    s: S::State,
    up: Card,
    rules: Ruleset,
    k: int,
)
    requires
        0 <= k <= pairs.len(),
    ensures
        forall|t: Tally| #[trigger]
            values_upto::<N, S>(pairs, s, up, rules, k).contains_key(t) <==> pairs.take(
                k,
            ).contains(t),
        forall|t: Tally| #[trigger]
            values_upto::<N, S>(pairs, s, up, rules, k).contains_key(t) ==> values_upto::<N, S>(
                pairs,
                s,
                up,
                rules,
                k,
            )[t] == pair_value::<N, S>(s, up, rules, pair_of(t)->0),
    decreases k,
{
    if k > 0 {
        values_are_pair_values::<N, S>(pairs, s, up, rules, k - 1);
        let shorter = pairs.take(k - 1);
        let longer = pairs.take(k);
        assert(longer =~= shorter.push(pairs[k - 1]));
        assert forall|t: Tally| longer.contains(t) <==> (shorter.contains(t) || t == pairs[k
            - 1]) by {
            if shorter.contains(t) {
                let i = shorter.index_of(t);
                assert(longer[i] == t);
            }
            if t == pairs[k - 1] {
                assert(longer[k - 1] == t);
            }
            if longer.contains(t) {
                let i = longer.index_of(t);
                if i < k - 1 {
                    assert(shorter[i] == t);
                }
            }
        }
        let fewer = values_upto::<N, S>(pairs, s, up, rules, k - 1);
        let more = values_upto::<N, S>(pairs, s, up, rules, k);
        assert(more == fewer.insert(
            pairs[k - 1],
            pair_value::<N, S>(s, up, rules, pair_of(pairs[k - 1])->0),
        ));
        assert forall|t: Tally| #[trigger] more.contains_key(t) <==> longer.contains(t) by {
            assert(fewer.contains_key(t) <==> shorter.contains(t));
        }
        assert forall|t: Tally| #[trigger] more.contains_key(t) implies more[t] == pair_value::<
            N,
            S,
        >(s, up, rules, pair_of(t)->0) by {
            if t != pairs[k - 1] {
                assert(fewer.contains_key(t));
            }
        }
    }
}

/// The value of splitting each pair that can be dealt. The shoe still holds the
/// up-card.
pub fn pair_split_evs<N: Scalar, S: Shoe<N>>(shoe: &S, up_card: Card, rules: &Ruleset) -> (r:
    HandTable<N>)
    requires
        up_card.valid(),
        S::supply(shoe.state(), up_card.rank()) != Some(0nat),
    ensures
        r.wf(),
        r.map() == pair_values::<N, S>(shoe.state(), up_card, *rules),
{
    let mut out: HandTable<N> = HandTable::new();
    let ghost s = shoe.state();
    if rules.max_split_hands < 2 {
        assert(out.map() =~= pair_values::<N, S>(s, up_card, *rules));
        return out;
    }
    let mut after_up = shoe.duplicate();
    after_up.draw(&up_card);
    let pairs = splittable_pairs(&after_up);
    let ghost tallies = pairs@.map_values(|c: CardCol| c@);
    let mut k: usize = 0;
    while k < pairs.len()
        invariant
            k <= pairs@.len(),
            s == shoe.state(),
            up_card.valid(),
            S::supply(s, up_card.rank()) != Some(0nat),
            tallies == pairs@.map_values(|c: CardCol| c@),
            tallies == pairs_upto::<N, S>(S::without(s, single(up_card)), 10),
            out.wf(),
            out.map() == values_upto::<N, S>(tallies, s, up_card, *rules, k as int),
        decreases pairs@.len() - k,
    {
        let pair = pairs[k];
        proof {
            let after = S::without(s, single(up_card));
            pairs_upto_are_pairs::<N, S>(after, 10);
            assert(tallies[k as int] == pair@);
            let rank = choose|rank: int|
                0 <= rank < 10 && tallies[k as int] == #[trigger] pair_tally(card_at(rank))
                    && S::holds(after, tallies[k as int]);
            pair_tally_is_pair(rank);
        }
        let ev: N = pair_split_ev(&pair, shoe, up_card, rules);
        out.insert(pair, ev);
        k += 1;
    }
    proof {
        let after = S::without(s, single(up_card));
        let goal = pair_values::<N, S>(s, up_card, *rules);
        pairs_upto_are_pairs::<N, S>(after, 10);
        values_are_pair_values::<N, S>(tallies, s, up_card, *rules, k as int);
        assert(tallies.take(k as int) =~= tallies);
        assert forall|t: Tally| #[trigger] out.map().contains_key(t) <==> goal.contains_key(t) by {
            if out.map().contains_key(t) {
                let i = tallies.index_of(t);
                assert(tallies[i] == t);
            }
        }
        assert(out.map() =~= goal);
    }
    out
}

/// Solve every hand against one up-card, with the values of splitting. The shoe
/// still holds the up-card.
pub fn build_evs<N: Scalar, S: Shoe<N>>(shoe: &S, up_card: Card, rules: &Ruleset) -> (r: EvTree<N>)
    requires
        up_card.valid(),
        S::supply(shoe.state(), up_card.rank()) != Some(0nat),
    ensures
        r.wf(),
        is_tree::<N, S>(
            r.map(),
            basis_of(up_card, *rules),
            *rules,
            S::without(shoe.state(), single(up_card)),
            pair_values::<N, S>(shoe.state(), up_card, *rules),
        ),
        r.order() == solve_order::<N, S>(S::without(shoe.state(), single(up_card)), 2),
{
    let split_evs = pair_split_evs(shoe, up_card, rules);
    build_evs_with_splits(shoe, up_card, rules, &split_evs)
}

} // verus!
