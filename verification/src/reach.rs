//! How often a player is at a hand with a decision to make.
//!
//! The mass of a hand is the chance that it is dealt, plus what flows into it
//! from the hands that are hit on the way. Doubling, standing and surrendering
//! end a hand, so nothing flows on from them. Splitting makes new hands: the
//! arms of a pair that is split are seeded like dealt hands.
use crate::card::Card;
use crate::drawing::Shoe;
use crate::hand::{best_move, best_move_spec, pair_of, pair_rank, Move, MoveEvs};
use crate::num::{from_whole, is_nil, is_zero, zero, Scalar};
use crate::rules::Ruleset;
use crate::shoe::{hard, single, size, tally_bounds, with_card, CardCol, Tally};
use crate::simulation::{basis_draws, basis_draws_are_there, basis_of, Basis};
use crate::solve::{every_hand_stands, is_tree, EvTree};
use crate::table::HandTable;
use vstd::prelude::*;

verus! {

broadcast use tally_bounds;

/// The mass of a hand, zero where there is none.
pub open spec fn mass_of<N: Scalar>(m: Map<Tally, N>, t: Tally) -> N {
    if m.contains_key(t) {
        m[t]
    } else {
        zero::<N>()
    }
}

/// The masses with more mass for one hand.
pub open spec fn more_mass<N: Scalar>(m: Map<Tally, N>, t: Tally, w: N) -> Map<Tally, N> {
    m.insert(t, mass_of(m, t).plus_spec(w))
}

/// A tree to play by: no hand is over 21, and each offers a move.
pub open spec fn playable<N: Scalar>(tree: Map<Tally, (N, MoveEvs<N>)>) -> bool {
    forall|t: Tally| #[trigger]
        tree.contains_key(t) ==> t.len() == 10 && hard(t) <= 21 && tree[t].1.offers_any()
}

/// A solved tree is one to play by.
pub proof fn trees_are_playable<N: Scalar, S: Shoe<N>>(
    tree: Map<Tally, (N, MoveEvs<N>)>,
    b: Basis,
    rules: Ruleset,
    s: S::State,
    splits: Map<Tally, N>,
)
    requires
        S::sane(s),
        is_tree::<N, S>(tree, b, rules, s, splits),
    ensures
        playable(tree),
{
    assert forall|t: Tally| #[trigger] tree.contains_key(t) implies t.len() == 10 && hard(t) <= 21
        && tree[t].1.offers_any() by {
        every_hand_stands::<N, S>(b, rules, s, splits, t);
    }
}

/// The masses of the starting hands among the first `k` hands: their weights.
pub open spec fn dealt_mass<N: Scalar>(
    order: Seq<Tally>,
    tree: Map<Tally, (N, MoveEvs<N>)>,
    k: int,
) -> Map<Tally, N>
    decreases k,
{
    if k <= 0 {
        Map::empty()
    } else if size(order[k - 1]) == 2 {
        dealt_mass(order, tree, k - 1).insert(order[k - 1], tree[order[k - 1]].0)
    } else {
        dealt_mass(order, tree, k - 1)
    }
}

/// The masses after an arm with one card of rank `r` and mass `w` has got one of
/// the first `k` cards as its second. An arm that is a pair again is split again
/// while `splits` lasts.
pub open spec fn arm_mass<N: Scalar>(
    m: Map<Tally, N>,
    r: Card,
    draws: Seq<(Card, N)>,
    splits: nat,
    w: N,
    k: int,
) -> Map<Tally, N>
    decreases splits, k,
{
    if k <= 0 {
        m
    } else {
        let before = arm_mass(m, r, draws, splits, w, k - 1);
        let (c, p) = draws[k - 1];
        let part = w.times_spec(p);
        if is_nil(p) {
            before
        } else if c != r {
            more_mass(before, with_card(single(r), c), part)
        } else if splits > 0 {
            let left = (splits - 1) as nat;
            let once = arm_mass(before, r, draws, left, part, draws.len() as int);
            arm_mass(once, r, draws, left, part, draws.len() as int)
        } else {
            before
        }
    }
}

/// Whether the best play of a hand is to split it and go on playing: aces get one
/// card each and are not played on.
pub open spec fn splits_on<N: Scalar>(tree: Map<Tally, (N, MoveEvs<N>)>, t: Tally) -> bool {
    &&& size(t) == 2
    &&& pair_of(t) is Some
    &&& pair_of(t) != Some(Card::Ace)
    &&& best_move_spec(tree[t].1) == Move::Split
}

/// How many splits are left after the first one.
pub open spec fn further_splits(rules: Ruleset) -> nat {
    if rules.max_split_hands < 2 {
        0
    } else {
        (rules.max_split_hands - 2) as nat
    }
}

/// The masses with the arms of the pairs that are split among the first `k`
/// hands.
pub open spec fn split_mass<N: Scalar, S: Shoe<N>>(
    m: Map<Tally, N>,
    order: Seq<Tally>,
    tree: Map<Tally, (N, MoveEvs<N>)>,
    b: Basis,
    rules: Ruleset,
    s: S::State,
    k: int,
) -> Map<Tally, N>
    decreases k,
{
    if k <= 0 {
        m
    } else {
        let before = split_mass::<N, S>(m, order, tree, b, rules, s, k - 1);
        let t = order[k - 1];
        let entry = mass_of(before, t);
        if splits_on(tree, t) && !is_nil(entry) {
            let draws = basis_draws::<N, S>(b, S::without(s, t));
            let r = pair_of(t)->0;
            let n = further_splits(rules);
            let once = arm_mass(before, r, draws, n, entry, draws.len() as int);
            arm_mass(once, r, draws, n, entry, draws.len() as int)
        } else {
            before
        }
    }
}

/// The masses after mass `here` has flowed on with one of the first `k` cards.
/// Hands over 21 are not in the tree and take nothing.
pub open spec fn flow<N: Scalar>(
    m: Map<Tally, N>,
    tree: Map<Tally, (N, MoveEvs<N>)>,
    t: Tally,
    here: N,
    draws: Seq<(Card, N)>,
    k: int,
) -> Map<Tally, N>
    decreases k,
{
    if k <= 0 {
        m
    } else {
        let before = flow(m, tree, t, here, draws, k - 1);
        let (c, p) = draws[k - 1];
        if !is_nil(p) && tree.contains_key(with_card(t, c)) {
            more_mass(before, with_card(t, c), here.times_spec(p))
        } else {
            before
        }
    }
}

/// The masses after the hands of `n` cards among the first `k` hands were played:
/// those whose best move is to hit pass their mass on.
pub open spec fn play_size<N: Scalar, S: Shoe<N>>(
    m: Map<Tally, N>,
    order: Seq<Tally>,
    tree: Map<Tally, (N, MoveEvs<N>)>,
    b: Basis,
    s: S::State,
    n: nat,
    k: int,
) -> Map<Tally, N>
    decreases k,
{
    if k <= 0 {
        m
    } else {
        let before = play_size::<N, S>(m, order, tree, b, s, n, k - 1);
        let t = order[k - 1];
        let here = mass_of(before, t);
        if size(t) == n && !is_nil(here) && best_move_spec(tree[t].1) == Move::Hit {
            let draws = basis_draws::<N, S>(b, S::without(s, t));
            flow(before, tree, t, here, draws, draws.len() as int)
        } else {
            before
        }
    }
}

/// The masses after all hands of up to `n` cards were played, smaller hands
/// first.
pub open spec fn play_upto<N: Scalar, S: Shoe<N>>(
    m: Map<Tally, N>,
    order: Seq<Tally>,
    tree: Map<Tally, (N, MoveEvs<N>)>,
    b: Basis,
    s: S::State,
    n: nat,
) -> Map<Tally, N>
    decreases n,
{
    if n < 2 {
        m
    } else {
        play_size::<N, S>(
            play_upto::<N, S>(m, order, tree, b, s, (n - 1) as nat),
            order,
            tree,
            b,
            s,
            n,
            order.len() as int,
        )
    }
}

/// The mass of every hand over a round of best play.
pub open spec fn reach_map<N: Scalar, S: Shoe<N>>(
    order: Seq<Tally>,
    tree: Map<Tally, (N, MoveEvs<N>)>,
    b: Basis,
    rules: Ruleset,
    s: S::State,
    include_split_arms: bool,
) -> Map<Tally, N> {
    let dealt = dealt_mass(order, tree, order.len() as int);
    let seeded = if include_split_arms {
        split_mass::<N, S>(dealt, order, tree, b, rules, s, order.len() as int)
    } else {
        dealt
    };
    play_upto::<N, S>(seeded, order, tree, b, s, 21)
}

/// The mass of a hand, zero where there is none.
pub fn mass_at<N: Scalar>(m: &HandTable<N>, hand: &CardCol) -> (r: N)
    requires
        m.wf(),
    ensures
        r == mass_of(m.map(), hand@),
{
    match m.get(hand) {
        Some(w) => *w,
        None => from_whole(0),
    }
}

fn add_mass<N: Scalar>(m: &mut HandTable<N>, hand: CardCol, w: N)
    requires
        old(m).wf(),
    ensures
        final(m).wf(),
        final(m).map() == more_mass(old(m).map(), hand@, w),
{
    let now: N = mass_at(m, &hand).plus(w);
    m.insert(hand, now);
}

/// Seed the hands that an arm with one card of rank `r` can become.
fn seed_arm<N: Scalar>(
    r: Card,
    draws: &Vec<(Card, N)>,
    splits_left: u8,
    w: N,
    reach: &mut HandTable<N>,
)
    requires
        old(reach).wf(),
        r.valid(),
        forall|i: int| 0 <= i < draws@.len() ==> (#[trigger] draws@[i]).0.valid(),
    ensures
        final(reach).wf(),
        final(reach).map() == arm_mass(
            old(reach).map(),
            r,
            draws@,
            splits_left as nat,
            w,
            draws@.len() as int,
        ),
    decreases splits_left,
{
    let mut k: usize = 0;
    while k < draws.len()
        invariant
            k <= draws@.len(),
            reach.wf(),
            r.valid(),
            forall|i: int| 0 <= i < draws@.len() ==> (#[trigger] draws@[i]).0.valid(),
            reach.map() == arm_mass(old(reach).map(), r, draws@, splits_left as nat, w, k as int),
        decreases draws@.len() - k,
    {
        let (c, p) = draws[k];
        assert(draws@[k as int].0.valid());
        if !is_zero(p) {
            let part: N = w.times(p);
            if c != r {
                let hand = CardCol::new().with(r).with(c);
                add_mass(reach, hand, part);
            } else if splits_left > 0 {
                seed_arm(r, draws, splits_left - 1, part, reach);
                seed_arm(r, draws, splits_left - 1, part, reach);
            }
        }
        k += 1;
    }
}

/// Seed the hands that the arms of split pairs become.
fn inject_split_arms<N: Scalar, S: Shoe<N>>(
    shoe_minus_up: &S,
    basis: &Basis,
    rules: &Ruleset,
    tree: &EvTree<N>,
    reach: &mut HandTable<N>,
)
    requires
        basis.wf(),
        tree.wf(),
        playable(tree.map()),
        old(reach).wf(),
    ensures
        final(reach).wf(),
        final(reach).map() == split_mass::<N, S>(
            old(reach).map(),
            tree.order(),
            tree.map(),
            *basis,
            *rules,
            shoe_minus_up.state(),
            tree.order().len() as int,
        ),
{
    let splits_left: u8 = if rules.max_split_hands < 2 {
        0
    } else {
        rules.max_split_hands - 2
    };
    let mut k: usize = 0;
    while k < tree.len()
        invariant
            k <= tree.order().len(),
            basis.wf(),
            tree.wf(),
            playable(tree.map()),
            reach.wf(),
            splits_left == further_splits(*rules),
            reach.map() == split_mass::<N, S>(
                old(reach).map(),
                tree.order(),
                tree.map(),
                *basis,
                *rules,
                shoe_minus_up.state(),
                k as int,
            ),
        decreases tree.order().len() - k,
    {
        proof {
            tree.order_names_hands();
        }
        let pair = tree.hand(k);
        if pair.len() == 2 {
            let entry_evs = &tree.value(k).1;
            if let Some(r) = pair_rank(&pair) {
                if r != Card::Ace && best_move(entry_evs) == Move::Split {
                    let entry: N = mass_at(reach, &pair);
                    if !is_zero(entry) {
                        let shoe0 = shoe_minus_up.remove_hand(&pair);
                        let draws: Vec<(Card, N)> = basis.draw_probs(&shoe0);
                        shoe0.is_sane();
                        proof {
                            basis_draws_are_there::<N, S>(*basis, shoe0.state());
                        }
                        seed_arm(r, &draws, splits_left, entry, reach);
                        seed_arm(r, &draws, splits_left, entry, reach);
                    }
                }
            }
        }
        k += 1;
    }
}

/// Let the mass of one hand flow on.
fn flow_on<N: Scalar>(
    hand: CardCol,
    here: N,
    draws: &Vec<(Card, N)>,
    tree: &EvTree<N>,
    reach: &mut HandTable<N>,
)
    requires
        tree.wf(),
        old(reach).wf(),
        hard(hand@) <= 21,
        forall|i: int| 0 <= i < draws@.len() ==> (#[trigger] draws@[i]).0.valid(),
    ensures
        final(reach).wf(),
        final(reach).map() == flow(
            old(reach).map(),
            tree.map(),
            hand@,
            here,
            draws@,
            draws@.len() as int,
        ),
{
    let mut k: usize = 0;
    while k < draws.len()
        invariant
            k <= draws@.len(),
            tree.wf(),
            reach.wf(),
            hard(hand@) <= 21,
            forall|i: int| 0 <= i < draws@.len() ==> (#[trigger] draws@[i]).0.valid(),
            reach.map() == flow(old(reach).map(), tree.map(), hand@, here, draws@, k as int),
        decreases draws@.len() - k,
    {
        let (c, p) = draws[k];
        assert(draws@[k as int].0.valid());
        if !is_zero(p) {
            proof {
                crate::dealer::hand_rank_below(hand@, c.rank());
            }
            let child = hand.with(c);
            if tree.get(&child).is_some() {
                add_mass(reach, child, here.times(p));
            }
        }
        k += 1;
    }
}

/// How often a player is at each hand with a decision to make, over a round of
/// best play. The shoe still holds the up-card, and the tree is the one that was
/// solved for it.
pub fn reach_weights<N: Scalar, S: Shoe<N>>(
    shoe: &S,
    up_card: Card,
    rules: &Ruleset,
    tree: &EvTree<N>,
    include_split_arms: bool,
) -> (r: HandTable<N>)
    requires
        up_card.valid(),
        S::supply(shoe.state(), up_card.rank()) != Some(0nat),
        tree.wf(),
        playable(tree.map()),
    ensures
        r.wf(),
        r.map() == reach_map::<N, S>(
            tree.order(),
            tree.map(),
            basis_of(up_card, *rules),
            *rules,
            S::without(shoe.state(), single(up_card)),
            include_split_arms,
        ),
{
    let mut after_up = shoe.duplicate();
    after_up.draw(&up_card);
    let basis = Basis::new(up_card, rules);
    let ghost s = after_up.state();
    let ghost order = tree.order();
    let mut reach: HandTable<N> = HandTable::new();
    let mut k: usize = 0;
    while k < tree.len()
        invariant
            k <= order.len(),
            order == tree.order(),
            tree.wf(),
            reach.wf(),
            reach.map() == dealt_mass(order, tree.map(), k as int),
        decreases order.len() - k,
    {
        let hand = tree.hand(k);
        if hand.len() == 2 {
            let w: N = tree.value(k).0;
            reach.insert(hand, w);
        }
        k += 1;
    }
    if include_split_arms {
        inject_split_arms(&after_up, &basis, rules, tree, &mut reach);
    }
    let ghost seeded = reach.map();
    let mut n: usize = 1;
    while n < 21
        invariant
            1 <= n <= 21,
            order == tree.order(),
            s == after_up.state(),
            basis.wf(),
            tree.wf(),
            playable(tree.map()),
            reach.wf(),
            reach.map() == play_upto::<N, S>(seeded, order, tree.map(), basis, s, n as nat),
        decreases 21 - n,
    {
        n += 1;
        let ghost before = reach.map();
        let mut k: usize = 0;
        while k < tree.len()
            invariant
                2 <= n <= 21,
                k <= order.len(),
                order == tree.order(),
                s == after_up.state(),
                basis.wf(),
                tree.wf(),
                playable(tree.map()),
                reach.wf(),
                reach.map() == play_size::<N, S>(
                    before,
                    order,
                    tree.map(),
                    basis,
                    s,
                    n as nat,
                    k as int,
                ),
            decreases order.len() - k,
        {
            proof {
                tree.order_names_hands();
            }
            let hand = tree.hand(k);
            if hand.len() == n {
                let here: N = mass_at(&reach, &hand);
                if !is_zero(here) && best_move(&tree.value(k).1) == Move::Hit {
                    let shoe_here = after_up.remove_hand(&hand);
                    let draws: Vec<(Card, N)> = basis.draw_probs(&shoe_here);
                    shoe_here.is_sane();
                    proof {
                        basis_draws_are_there::<N, S>(basis, shoe_here.state());
                    }
                    flow_on(hand, here, &draws, tree, &mut reach);
                }
            }
            k += 1;
        }
    }
    reach
}

/// The weights that the hands of a tree are stored with.
pub fn combinatoric_weights<N: Scalar>(tree: &EvTree<N>) -> (r: HandTable<N>)
    requires
        tree.wf(),
    ensures
        r.wf(),
        r.map() == tree.map().map_values(|e: (N, MoveEvs<N>)| e.0),
{
    let mut out: HandTable<N> = HandTable::new();
    let mut k: usize = 0;
    proof {
        tree.order_names_hands();
    }
    while k < tree.len()
        invariant
            k <= tree.order().len(),
            tree.wf(),
            out.wf(),
            tree.order().no_duplicates(),
            forall|t: Tally| #[trigger] out.map().contains_key(t) <==> tree.order().take(
                k as int,
            ).contains(t),
            forall|t: Tally| #[trigger]
                out.map().contains_key(t) ==> out.map()[t] == tree.map()[t].0,
        decreases tree.order().len() - k,
    {
        let ghost before = tree.order().take(k as int);
        let ghost after = tree.order().take(k as int + 1);
        let hand = tree.hand(k);
        let w: N = tree.value(k).0;
        out.insert(hand, w);
        proof {
            assert(after =~= before.push(hand@));
            assert forall|t: Tally| after.contains(t) <==> before.contains(t) || t == hand@ by {
                if before.contains(t) {
                    assert(after[before.index_of(t)] == t);
                }
                if t == hand@ {
                    assert(after[k as int] == t);
                }
                if after.contains(t) {
                    let i = after.index_of(t);
                    if i < k {
                        assert(before[i] == t);
                    }
                }
            }
        }
        k += 1;
    }
    proof {
        assert(tree.order().take(k as int) =~= tree.order());
        assert(out.map() =~= tree.map().map_values(|e: (N, MoveEvs<N>)| e.0));
    }
    out
}

} // verus!
