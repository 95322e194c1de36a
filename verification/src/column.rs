//! One column of the chart: everything that is solved against one up-card.
//!
//! Under a count, each hand is solved in the frame of its own count value: the
//! count that the player enters covers the up-card and the hand, so the count
//! before the round was lower by what those cards count.
use crate::card::{card_at, Card};
use crate::chart::{is_chart, summarize_cells, CellInfo, ChartTable};
use crate::count::{
    cond_for_frame, count_of, frame_of, frameable, CountCmp, CountFrame, CountSystemId, Penetration,
};
use crate::countshoe::{CountShoe, CountState};
use crate::countw::internal_count;
use crate::drawing::Shoe;
use crate::hand::{pair_of, MoveEvs};
use crate::num::Scalar;
use crate::partitions::scan_weight;
use crate::reach::{playable, reach_map, reach_weights, trees_are_playable};
use crate::round::{build_evs, pair_split_ev, pair_tally, pair_tally_is_pair, pair_value, pair_values};
use crate::rules::Ruleset;
use crate::shoe::{deck_tally, single, tally_bounds, CardCol, Tally};
use crate::simulation::{basis_of, Basis};
use crate::solve::{
    best_edge, build_evs_with_splits, dealable, edge_term, hand_ev, is_tree, solve_order,
    stored_weight, EdgeTerm, EvTree,
};
use crate::table::HandTable;
use vstd::prelude::*;

verus! {

broadcast use tally_bounds;

/// Casinos never deal a shoe out: every depth up to three quarters is as likely as
/// any other.
pub open spec fn count_penetration_spec() -> Penetration {
    Penetration::FlatPastPercent(25)
}

/// What is taken for granted of how deep a shoe has been dealt.
pub fn count_penetration() -> (r: Penetration)
    ensures
        r == count_penetration_spec(),
{
    Penetration::FlatPastPercent(25)
}

/// A solved column: the cells of the chart, the chance of the up-card and what the
/// column adds to the player's edge.
pub struct Column<N> {
    pub summary: ChartTable<CellInfo<N>>,
    pub p_up: N,
    pub edge: EdgeTerm<N>,
}

/// Every hand that can be dealt, with its weight and the values of its moves.
pub open spec fn tree_map<N: Scalar, S: Shoe<N>>(
    b: Basis,
    rules: Ruleset,
    s: S::State,
    splits: Map<Tally, N>,
) -> Map<Tally, (N, MoveEvs<N>)> {
    Map::new(
        |t: Tally| dealable::<N, S>(s, t),
        |t: Tally|
            (
                stored_weight::<N, S>(b, s, t, scan_weight::<N, S>(s, t)),
                hand_ev::<N, S>(b, rules, s, splits, t),
            ),
    )
}

pub proof fn tree_is_map<N: Scalar, S: Shoe<N>>(
    tree: Map<Tally, (N, MoveEvs<N>)>,
    b: Basis,
    rules: Ruleset,
    s: S::State,
    splits: Map<Tally, N>,
)
    requires
        is_tree::<N, S>(tree, b, rules, s, splits),
    ensures
        tree == tree_map::<N, S>(b, rules, s, splits),
{
    let m = tree_map::<N, S>(b, rules, s, splits);
    assert forall|t: Tally| tree.contains_key(t) == #[trigger] m.contains_key(t) by {
        assert(tree.contains_key(t) <==> dealable::<N, S>(s, t));
    }
    assert(tree =~= m);
}

/// Whether this is the column of a shoe that still holds the up-card.
pub open spec fn is_column<N: Scalar, S: Shoe<N>>(
    c: Column<N>,
    s: S::State,
    up: Card,
    rules: Ruleset,
) -> bool {
    let b = basis_of(up, rules);
    let after = S::without(s, single(up));
    let order = solve_order::<N, S>(after, 2);
    let tree = tree_map::<N, S>(b, rules, after, pair_values::<N, S>(s, up, rules));
    &&& is_chart(
        c.summary,
        order,
        tree,
        reach_map::<N, S>(order, tree, b, rules, after, true),
    )
    &&& c.p_up == S::prob(s, up)
    &&& c.edge == best_edge(order, tree)
}

/// Solve the column of a shoe that still holds the up-card.
pub fn solve_on<N: Scalar, S: Shoe<N>>(shoe: &S, up_card: Card, rules: &Ruleset) -> (r: Column<N>)
    requires
        up_card.valid(),
        S::supply(shoe.state(), up_card.rank()) != Some(0nat),
    ensures
        is_column::<N, S>(r, shoe.state(), up_card, *rules),
{
    let tree = build_evs(shoe, up_card, rules);
    shoe.is_sane();
    proof {
        let s = shoe.state();
        let b = basis_of(up_card, *rules);
        let after = S::without(s, single(up_card));
        let splits = pair_values::<N, S>(s, up_card, *rules);
        S::without_supply(s, single(up_card));
        tree_is_map::<N, S>(tree.map(), b, *rules, after, splits);
        trees_are_playable::<N, S>(tree.map(), b, *rules, after, splits);
    }
    let weights = reach_weights(shoe, up_card, rules, &tree, true);
    Column {
        summary: summarize_cells(&tree, &weights),
        p_up: shoe.draw_prob(&up_card),
        edge: edge_term(&tree),
    }
}

/// The count groups that hands are solved in, from the lowest on: two cards count
/// from minus two to two.
pub open spec fn clamp_group(count: int) -> int {
    if count < -2 {
        -2
    } else if count > 2 {
        2
    } else {
        count
    }
}

/// The place of the group of a hand: hands of more cards that count beyond two are
/// put into the outer groups.
pub open spec fn group_of(values: Seq<i16>, t: Tally) -> int {
    clamp_group(count_of(values, t)) + 2
}

/// The count value of a whole hand.
pub fn hand_count_value(system: CountSystemId, hand: &CardCol) -> (r: i64)
    ensures
        r == count_of(system.values(), hand@),
{
    internal_count(hand, &system.value_of_rank())
}

fn hand_group(system: CountSystemId, hand: &CardCol) -> (r: usize)
    ensures
        r == group_of(system.values(), hand@),
        r < 5,
{
    let k: i64 = hand_count_value(system, hand);
    if k < -2 {
        0
    } else if k > 2 {
        4
    } else {
        (k + 2) as usize
    }
}

/// The hands among the first `k` of the order that are in the tree of their group.
pub open spec fn merged_order<N>(
    order: Seq<Tally>,
    trees: Seq<Map<Tally, (N, MoveEvs<N>)>>,
    values: Seq<i16>,
    k: int,
) -> Seq<Tally>
    decreases k,
{
    if k <= 0 {
        Seq::empty()
    } else {
        let so_far = merged_order(order, trees, values, k - 1);
        let t = order[k - 1];
        if trees[group_of(values, t)].contains_key(t) {
            so_far.push(t)
        } else {
            so_far
        }
    }
}

/// Those hands, each with what the tree of its group has for it.
pub open spec fn merged_tree<N>(
    order: Seq<Tally>,
    trees: Seq<Map<Tally, (N, MoveEvs<N>)>>,
    values: Seq<i16>,
    k: int,
) -> Map<Tally, (N, MoveEvs<N>)>
    decreases k,
{
    if k <= 0 {
        Map::empty()
    } else {
        let so_far = merged_tree(order, trees, values, k - 1);
        let t = order[k - 1];
        let tree = trees[group_of(values, t)];
        if tree.contains_key(t) {
            so_far.insert(t, tree[t])
        } else {
            so_far
        }
    }
}

/// Their masses, each from the masses of its group.
pub open spec fn merged_reach<N>(
    order: Seq<Tally>,
    trees: Seq<Map<Tally, (N, MoveEvs<N>)>>,
    reaches: Seq<Map<Tally, N>>,
    values: Seq<i16>,
    k: int,
) -> Map<Tally, N>
    decreases k,
{
    if k <= 0 {
        Map::empty()
    } else {
        let so_far = merged_reach(order, trees, reaches, values, k - 1);
        let t = order[k - 1];
        let g = group_of(values, t);
        if trees[g].contains_key(t) && reaches[g].contains_key(t) {
            so_far.insert(t, reaches[g][t])
        } else {
            so_far
        }
    }
}

pub proof fn merged_keys<N>(
    order: Seq<Tally>,
    trees: Seq<Map<Tally, (N, MoveEvs<N>)>>,
    values: Seq<i16>,
    k: int,
)
    requires
        0 <= k <= order.len(),
    ensures
        forall|t: Tally| #[trigger]
            merged_tree(order, trees, values, k).contains_key(t) ==> (exists|i: int|
                0 <= i < k && #[trigger] order[i] == t) && trees[group_of(values, t)].contains_key(
                t,
            ) && merged_tree(order, trees, values, k)[t] == trees[group_of(values, t)][t],
    decreases k,
{
    if k > 0 {
        merged_keys(order, trees, values, k - 1);
        let m = merged_tree(order, trees, values, k);
        let before = merged_tree(order, trees, values, k - 1);
        assert forall|t: Tally| #[trigger] m.contains_key(t) implies (exists|i: int|
            0 <= i < k && #[trigger] order[i] == t) && trees[group_of(values, t)].contains_key(t)
            && m[t] == trees[group_of(values, t)][t] by {
            if t == order[k - 1] {
                assert(0 <= k - 1 < k && order[k - 1] == t);
            } else {
                assert(before.contains_key(t));
                let i = choose|i: int| 0 <= i < k - 1 && #[trigger] order[i] == t;
                assert(0 <= i < k && order[i] == t);
            }
        }
    }
}

/// The maps of tables.
pub open spec fn maps<V>(tables: Seq<&HandTable<V>>) -> Seq<Map<Tally, V>> {
    Seq::new(tables.len(), |i: int| tables[i].map())
}

/// Read each hand from the tree, and its mass from the masses, of its own count
/// group. The hands are those of the middle group, in its order.
pub fn merge_count_frames<N: Scalar>(
    system: CountSystemId,
    trees: &Vec<&EvTree<N>>,
    reaches: &Vec<&HandTable<N>>,
) -> (r: (EvTree<N>, HandTable<N>))
    requires
        trees.len() == 5,
        reaches.len() == 5,
        forall|i: int| 0 <= i < 5 ==> (#[trigger] trees@[i]).wf(),
        forall|i: int| 0 <= i < 5 ==> (#[trigger] reaches@[i]).wf(),
    ensures
        r.0.wf(),
        r.1.wf(),
        ({
            let order = trees@[2].order();
            let n = order.len() as int;
            &&& r.0.order() == merged_order(order, maps(trees@), system.values(), n)
            &&& r.0.map() == merged_tree(order, maps(trees@), system.values(), n)
            &&& r.1.map() == merged_reach(order, maps(trees@), maps(reaches@), system.values(), n)
        }),
{
    let mut tree: EvTree<N> = HandTable::new();
    let mut reach: HandTable<N> = HandTable::new();
    let ghost order = trees@[2].order();
    let ghost values = system.values();
    let ghost ts = maps(trees@);
    let ghost rs = maps(reaches@);
    assert(trees@[2].wf());
    proof {
        trees@[2].order_names_hands();
    }
    let n: usize = trees[2].len();
    let mut i: usize = 0;
    while i < n
        invariant
            trees.len() == 5,
            reaches.len() == 5,
            forall|j: int| 0 <= j < 5 ==> (#[trigger] trees@[j]).wf(),
            forall|j: int| 0 <= j < 5 ==> (#[trigger] reaches@[j]).wf(),
            order == trees@[2].order(),
            order.no_duplicates(),
            values == system.values(),
            ts == maps(trees@),
            rs == maps(reaches@),
            n == order.len(),
            i <= n,
            tree.wf(),
            reach.wf(),
            tree.order() == merged_order(order, ts, values, i as int),
            tree.map() == merged_tree(order, ts, values, i as int),
            reach.map() == merged_reach(order, ts, rs, values, i as int),
        decreases n - i,
    {
        let hand: CardCol = trees[2].hand(i);
        assert(hand@ == order[i as int]);
        let g: usize = hand_group(system, &hand);
        assert(ts[g as int] == trees@[g as int].map());
        assert(rs[g as int] == reaches@[g as int].map());
        assert(trees@[g as int].wf());
        assert(reaches@[g as int].wf());
        if let Some(entry) = trees[g].get(&hand) {
            proof {
                merged_keys(order, ts, values, i as int);
                if tree.map().contains_key(hand@) {
                    let j = choose|j: int| 0 <= j < i && #[trigger] order[j] == hand@;
                    assert(order[j] == order[i as int]);
                }
            }
            tree.insert(hand, *entry);
            if let Some(w) = reaches[g].get(&hand) {
                reach.insert(hand, *w);
            }
        }
        i += 1;
    }
    (tree, reach)
}

/// The full shoe as a player sees it who holds the count entered when the hand
/// counts `k`.
pub open spec fn counted_state(
    system: CountSystemId,
    n_decks: int,
    value: i16,
    how: CountCmp,
    up: Card,
    k: int,
) -> CountState {
    CountState::fresh(
        system.values(),
        deck_tally(n_decks as nat),
        frame_of(system, n_decks, value, how, up, k, 3),
        count_penetration_spec(),
    )
}

/// The shoes of the five count groups.
pub open spec fn counted_states(
    system: CountSystemId,
    n_decks: int,
    value: i16,
    how: CountCmp,
    up: Card,
) -> Seq<CountState> {
    Seq::new(5, |g: int| counted_state(system, n_decks, value, how, up, g - 2))
}

/// The values of splitting the pairs of one group, each on the shoe of the group.
pub open spec fn counted_splits<N: Scalar>(
    states: Seq<CountState>,
    values: Seq<i16>,
    up: Card,
    rules: Ruleset,
    g: int,
) -> Map<Tally, N> {
    Map::new(
        |t: Tally|
            rules.max_split_hands >= 2 && group_of(values, t) == g && exists|rank: int|
                0 <= rank < 10 && t == #[trigger] pair_tally(card_at(rank)) && states[2].without(
                    single(up),
                ).holds(t),
        |t: Tally| pair_value::<N, CountShoe<N>>(states[g], up, rules, pair_of(t)->0),
    )
}

/// The order in which the hands of a group are solved.
pub open spec fn group_order<N: Scalar>(states: Seq<CountState>, up: Card, g: int) -> Seq<Tally> {
    solve_order::<N, CountShoe<N>>(states[g].without(single(up)), 2)
}

/// The tree of a group.
pub open spec fn group_tree<N: Scalar>(
    states: Seq<CountState>,
    values: Seq<i16>,
    up: Card,
    rules: Ruleset,
    g: int,
) -> Map<Tally, (N, MoveEvs<N>)> {
    tree_map::<N, CountShoe<N>>(
        basis_of(up, rules),
        rules,
        states[g].without(single(up)),
        counted_splits::<N>(states, values, up, rules, g),
    )
}

/// The masses of a group.
pub open spec fn group_reach<N: Scalar>(
    states: Seq<CountState>,
    values: Seq<i16>,
    up: Card,
    rules: Ruleset,
    g: int,
) -> Map<Tally, N> {
    reach_map::<N, CountShoe<N>>(
        group_order::<N>(states, up, g),
        group_tree::<N>(states, values, up, rules, g),
        basis_of(up, rules),
        rules,
        states[g].without(single(up)),
        true,
    )
}

/// Whether this is the column of a counted shoe: the cells are those of the merged
/// groups; the chance of the up-card and the edge are those of the group in which
/// the count entered is the count before the round.
pub open spec fn is_counted_column<N: Scalar>(
    c: Column<N>,
    states: Seq<CountState>,
    values: Seq<i16>,
    up: Card,
    rules: Ruleset,
    before: int,
) -> bool {
    let trees = Seq::new(5, |g: int| group_tree::<N>(states, values, up, rules, g));
    let reaches = Seq::new(5, |g: int| group_reach::<N>(states, values, up, rules, g));
    let order = group_order::<N>(states, up, 2);
    let n = order.len() as int;
    &&& is_chart(
        c.summary,
        merged_order(order, trees, values, n),
        merged_tree(order, trees, values, n),
        merged_reach(order, trees, reaches, values, n),
    )
    &&& c.p_up == states[before].prob::<N>(up)
    &&& c.edge == best_edge(group_order::<N>(states, up, before), trees[before])
}

/// The values of splitting the pairs, each on the shoe of its group, in one table
/// for each group.
fn counted_split_evs<N: Scalar>(
    system: CountSystemId,
    shoes: &Vec<CountShoe<N>>,
    up_card: Card,
    rules: &Ruleset,
    Ghost(states): Ghost<Seq<CountState>>,
) -> (r: Vec<HandTable<N>>)
    requires
        up_card.valid(),
        shoes.len() == 5,
        states.len() == 5,
        forall|g: int|
            0 <= g < 5 ==> (#[trigger] shoes@[g]).count_state() == states[g] && states[g].supply(
                up_card.rank(),
            ) > 0,
    ensures
        r.len() == 5,
        forall|g: int|
            0 <= g < 5 ==> (#[trigger] r@[g]).wf() && r@[g].map() == counted_splits::<N>(
                states,
                system.values(),
                up_card,
                *rules,
                g,
            ),
{
    let ghost values = system.values();
    let ghost after = states[2].without(single(up_card));
    let mut out: Vec<HandTable<N>> = Vec::new();
    let mut g: usize = 0;
    while g < 5
        invariant
            g <= 5,
            out.len() == g,
            forall|h: int|
                0 <= h < g ==> (#[trigger] out@[h]).wf() && out@[h].map() == Map::<
                    Tally,
                    N,
                >::empty(),
        decreases 5 - g,
    {
        let table: HandTable<N> = HandTable::new();
        out.push(table);
        g += 1;
    }
    if rules.max_split_hands < 2 {
        assert forall|h: int| 0 <= h < 5 implies (#[trigger] out@[h]).wf() && out@[h].map()
            == counted_splits::<N>(states, values, up_card, *rules, h) by {
            assert(out@[h].map() =~= counted_splits::<N>(states, values, up_card, *rules, h));
        }
        return out;
    }
    assert(shoes@[2].count_state() == states[2]);
    let mut deck = shoes[2].duplicate();
    deck.draw(&up_card);
    let mut rank: usize = 0;
    while rank < 10
        invariant
            rank <= 10,
            rules.max_split_hands >= 2,
            up_card.valid(),
            shoes.len() == 5,
            states.len() == 5,
            forall|h: int|
                0 <= h < 5 ==> (#[trigger] shoes@[h]).count_state() == states[h]
                    && states[h].supply(up_card.rank()) > 0,
            values == system.values(),
            after == states[2].without(single(up_card)),
            deck.count_state() == after,
            out.len() == 5,
            forall|h: int|
                0 <= h < 5 ==> (#[trigger] out@[h]).wf() && splits_upto(
                    out@[h].map(),
                    states,
                    values,
                    up_card,
                    *rules,
                    h,
                    rank as int,
                ),
        decreases 10 - rank,
    {
        let card = Card::from_rank_index(rank);
        let pair = CardCol::new().with(card).with(card);
        let ghost before = out@;
        proof {
            pair_tally_is_pair(rank as int);
            assert(pair@ == pair_tally(card));
        }
        if deck.contains_hand(&pair) {
            let g: usize = hand_group(system, &pair);
            assert(shoes@[g as int].count_state() == states[g as int]);
            let ev: N = pair_split_ev(&pair, &shoes[g], up_card, rules);
            assert(out@[g as int].wf());
            out[g].insert(pair, ev);
            proof {
                assert forall|h: int| 0 <= h < 5 implies (#[trigger] out@[h]).wf() && splits_upto(
                    out@[h].map(),
                    states,
                    values,
                    up_card,
                    *rules,
                    h,
                    rank + 1,
                ) by {
                    assert(before[h].wf());
                    step_splits::<N>(
                        before[h].map(),
                        out@[h].map(),
                        states,
                        values,
                        up_card,
                        *rules,
                        h,
                        rank as int,
                    );
                }
            }
        } else {
            proof {
                assert forall|h: int| 0 <= h < 5 implies (#[trigger] out@[h]).wf() && splits_upto(
                    out@[h].map(),
                    states,
                    values,
                    up_card,
                    *rules,
                    h,
                    rank + 1,
                ) by {
                    assert(before[h].wf());
                    step_splits::<N>(
                        before[h].map(),
                        out@[h].map(),
                        states,
                        values,
                        up_card,
                        *rules,
                        h,
                        rank as int,
                    );
                }
            }
        }
        rank += 1;
    }
    assert forall|h: int| 0 <= h < 5 implies (#[trigger] out@[h]).wf() && out@[h].map()
        == counted_splits::<N>(states, values, up_card, *rules, h) by {
        let m = out@[h].map();
        let goal = counted_splits::<N>(states, values, up_card, *rules, h);
        assert(splits_upto(m, states, values, up_card, *rules, h, 10));
        assert forall|t: Tally| #[trigger] m.contains_key(t) == goal.contains_key(t) by {
            assert(m.contains_key(t) == split_here(states, values, up_card, h, 10, t));
        }
        assert(m =~= goal);
    }
    out
}

/// Whether a pair of one of the first `k` ranks is split in a group.
spec fn split_here(
    states: Seq<CountState>,
    values: Seq<i16>,
    up: Card,
    g: int,
    k: int,
    t: Tally,
) -> bool {
    group_of(values, t) == g && exists|rank: int|
        0 <= rank < k && t == #[trigger] pair_tally(card_at(rank)) && states[2].without(
            single(up),
        ).holds(t)
}

/// Whether a map has the values of splitting the pairs of the first `k` ranks that
/// belong to a group.
spec fn splits_upto<N: Scalar>(
    m: Map<Tally, N>,
    states: Seq<CountState>,
    values: Seq<i16>,
    up: Card,
    rules: Ruleset,
    g: int,
    k: int,
) -> bool {
    &&& forall|t: Tally| #[trigger]
        m.contains_key(t) == split_here(states, values, up, g, k, t)
    &&& forall|t: Tally| #[trigger]
        m.contains_key(t) ==> m[t] == pair_value::<N, CountShoe<N>>(
            states[g],
            up,
            rules,
            pair_of(t)->0,
        )
}

proof fn step_splits<N: Scalar>(
    m: Map<Tally, N>,
    after: Map<Tally, N>,
    states: Seq<CountState>,
    values: Seq<i16>,
    up: Card,
    rules: Ruleset,
    g: int,
    k: int,
)
    requires
        0 <= k < 10,
        splits_upto(m, states, values, up, rules, g, k),
        ({
            let t = pair_tally(card_at(k));
            if states[2].without(single(up)).holds(t) && group_of(values, t) == g {
                after == m.insert(
                    t,
                    pair_value::<N, CountShoe<N>>(states[g], up, rules, pair_of(t)->0),
                )
            } else {
                after == m
            }
        }),
    ensures
        splits_upto(after, states, values, up, rules, g, k + 1),
{
    let p = pair_tally(card_at(k));
    assert forall|t: Tally| #[trigger] after.contains_key(t) == split_here(
        states,
        values,
        up,
        g,
        k + 1,
        t,
    ) by {
        assert(m.contains_key(t) == split_here(states, values, up, g, k, t));
        if split_here(states, values, up, g, k, t) {
            let r = choose|r: int|
                0 <= r < k && t == #[trigger] pair_tally(card_at(r)) && states[2].without(
                    single(up),
                ).holds(t);
            assert(0 <= r < k + 1 && t == pair_tally(card_at(r)));
        } else if split_here(states, values, up, g, k + 1, t) {
            let r = choose|r: int|
                0 <= r < k + 1 && t == #[trigger] pair_tally(card_at(r)) && states[2].without(
                    single(up),
                ).holds(t);
            assert(r == k);
        }
        if t == p && states[2].without(single(up)).holds(t) && group_of(values, t) == g {
            assert(0 <= k < k + 1 && t == pair_tally(card_at(k)));
        }
    }
    assert forall|t: Tally| #[trigger] after.contains_key(t) implies after[t] == pair_value::<
        N,
        CountShoe<N>,
    >(states[g], up, rules, pair_of(t)->0) by {
        if t != p {
            assert(m.contains_key(t));
        } else if !(states[2].without(single(up)).holds(p) && group_of(values, p) == g) {
            assert(m.contains_key(t));
        }
    }
}

/// Whether a count can be entered against an up-card: the frames of all five groups
/// can be made.
pub open spec fn enterable(
    system: CountSystemId,
    n_decks: int,
    value: int,
    how: CountCmp,
    up: Card,
) -> bool {
    forall|k: int| -2 <= k <= 2 ==> frameable(system, n_decks, value, how, up, k)
}

/// Solve the column of a shoe of which the player holds this count, with the
/// up-card and the hand counted: a running count in units, a true count in halves.
pub fn solve_counted<N: Scalar>(
    system: CountSystemId,
    n_decks: u8,
    value: i16,
    how: CountCmp,
    up_card: Card,
    rules: &Ruleset,
) -> (r: Column<N>)
    requires
        up_card.valid(),
        n_decks > 0,
        enterable(system, n_decks as int, value as int, how, up_card),
    ensures
        is_counted_column::<N>(
            r,
            counted_states(system, n_decks as int, value, how, up_card),
            system.values(),
            up_card,
            *rules,
            2 - system.value(up_card),
        ),
{
    let ghost states = counted_states(system, n_decks as int, value, how, up_card);
    let ghost values = system.values();
    let mut frames: Vec<CountFrame> = Vec::new();
    let mut k: i16 = -2;
    while k <= 2
        invariant
            -2 <= k <= 3,
            enterable(system, n_decks as int, value as int, how, up_card),
            frames.len() == k + 2,
            forall|g: int|
                0 <= g < frames.len() ==> #[trigger] frames@[g] == frame_of(
                    system,
                    n_decks as int,
                    value,
                    how,
                    up_card,
                    g - 2,
                    3,
                ),
        decreases 3 - k,
    {
        assert(frameable(system, n_decks as int, value as int, how, up_card, k as int));
        frames.push(cond_for_frame(system, n_decks, value, how, up_card, k, 3));
        k += 1;
    }
    let shoes: Vec<CountShoe<N>> = CountShoe::band(system, n_decks, &frames, count_penetration());
    assert forall|g: int| 0 <= g < 5 implies (#[trigger] shoes@[g]).count_state() == states[g]
        && states[g].supply(up_card.rank()) > 0 by {
        assert(frames@[g] == frame_of(system, n_decks as int, value, how, up_card, g - 2, 3));
    }
    let splits = counted_split_evs(system, &shoes, up_card, rules, Ghost(states));
    solve_groups(system, &shoes, &splits, up_card, rules, Ghost(states))
}

pub fn references<V>(items: &Vec<V>) -> (r: Vec<&V>)
    ensures
        r.len() == items.len(),
        forall|i: int| 0 <= i < r.len() ==> *(#[trigger] r@[i]) == items@[i],
{
    let mut r: Vec<&V> = Vec::new();
    let mut i: usize = 0;
    while i < items.len()
        invariant
            i <= items.len(),
            r.len() == i,
            forall|j: int| 0 <= j < i ==> *(#[trigger] r@[j]) == items@[j],
        decreases items.len() - i,
    {
        r.push(&items[i]);
        i += 1;
    }
    r
}

/// Solve the groups and merge them.
fn solve_groups<N: Scalar>(
    system: CountSystemId,
    shoes: &Vec<CountShoe<N>>,
    splits: &Vec<HandTable<N>>,
    up_card: Card,
    rules: &Ruleset,
    Ghost(states): Ghost<Seq<CountState>>,
) -> (r: Column<N>)
    requires
        up_card.valid(),
        shoes.len() == 5,
        splits.len() == 5,
        states.len() == 5,
        forall|g: int|
            0 <= g < 5 ==> (#[trigger] shoes@[g]).count_state() == states[g] && states[g].supply(
                up_card.rank(),
            ) > 0,
        forall|g: int|
            0 <= g < 5 ==> (#[trigger] splits@[g]).wf() && splits@[g].map() == counted_splits::<N>(
                states,
                system.values(),
                up_card,
                *rules,
                g,
            ),
    ensures
        is_counted_column::<N>(
            r,
            states,
            system.values(),
            up_card,
            *rules,
            2 - system.value(up_card),
        ),
{
    let ghost values = system.values();
    let ghost b = basis_of(up_card, *rules);
    let mut trees: Vec<EvTree<N>> = Vec::new();
    let mut reaches: Vec<HandTable<N>> = Vec::new();
    let mut g: usize = 0;
    while g < 5
        invariant
            up_card.valid(),
            shoes.len() == 5,
            splits.len() == 5,
            states.len() == 5,
            values == system.values(),
            b == basis_of(up_card, *rules),
            forall|h: int|
                0 <= h < 5 ==> (#[trigger] shoes@[h]).count_state() == states[h]
                    && states[h].supply(up_card.rank()) > 0,
            forall|h: int|
                0 <= h < 5 ==> (#[trigger] splits@[h]).wf() && splits@[h].map()
                    == counted_splits::<N>(states, values, up_card, *rules, h),
            g <= 5,
            trees.len() == g,
            reaches.len() == g,
            forall|h: int|
                0 <= h < g ==> {
                    &&& (#[trigger] trees@[h]).wf()
                    &&& trees@[h].order() == group_order::<N>(states, up_card, h)
                    &&& trees@[h].map() == group_tree::<N>(states, values, up_card, *rules, h)
                    &&& playable(trees@[h].map())
                },
            forall|h: int|
                0 <= h < g ==> (#[trigger] reaches@[h]).wf() && reaches@[h].map() == group_reach::<
                    N,
                >(states, values, up_card, *rules, h),
        decreases 5 - g,
    {
        assert(shoes@[g as int].count_state() == states[g as int]);
        assert(splits@[g as int].wf());
        let tree = build_evs_with_splits(&shoes[g], up_card, rules, &splits[g]);
        shoes[g].is_sane();
        proof {
            let s = states[g as int];
            let after = s.without(single(up_card));
            let sp = splits@[g as int].map();
            <CountShoe<N> as Shoe<N>>::without_supply(s, single(up_card));
            tree_is_map::<N, CountShoe<N>>(tree.map(), b, *rules, after, sp);
            trees_are_playable::<N, CountShoe<N>>(tree.map(), b, *rules, after, sp);
        }
        let reach = reach_weights(&shoes[g], up_card, rules, &tree, true);
        trees.push(tree);
        reaches.push(reach);
        g += 1;
    }
    let tree_refs: Vec<&EvTree<N>> = references(&trees);
    let reach_refs: Vec<&HandTable<N>> = references(&reaches);
    assert forall|h: int| 0 <= h < 5 implies (#[trigger] tree_refs@[h]).wf() by {
        assert(trees@[h].wf());
    }
    assert forall|h: int| 0 <= h < 5 implies (#[trigger] reach_refs@[h]).wf() by {
        assert(reaches@[h].wf());
    }
    let (tree, reach) = merge_count_frames(system, &tree_refs, &reach_refs);
    let ghost ts = Seq::new(5, |h: int| group_tree::<N>(states, values, up_card, *rules, h));
    let ghost rs = Seq::new(5, |h: int| group_reach::<N>(states, values, up_card, *rules, h));
    let ghost order = group_order::<N>(states, up_card, 2);
    proof {
        assert(trees@[2].wf());
        assert(maps(tree_refs@) =~= ts) by {
            assert forall|h: int| 0 <= h < 5 implies #[trigger] maps(tree_refs@)[h] == ts[h] by {
                assert(trees@[h].wf());
            }
        }
        assert(maps(reach_refs@) =~= rs) by {
            assert forall|h: int| 0 <= h < 5 implies #[trigger] maps(reach_refs@)[h] == rs[h] by {
                assert(reaches@[h].wf());
            }
        }
        merged_keys(order, ts, values, order.len() as int);
        assert forall|t: Tally| #[trigger] tree.map().contains_key(t) implies t.len() == 10
            && crate::shoe::hard(t) <= 21 && tree.map()[t].1.offers_any() by {
            let h = group_of(values, t);
            assert(trees@[h].wf());
            assert(ts[h] == trees@[h].map());
        }
    }
    let summary = summarize_cells(&tree, &reach);
    let mu: i16 = system.map(&up_card);
    let pre: usize = (2 - mu) as usize;
    assert(shoes@[pre as int].count_state() == states[pre as int]);
    assert(trees@[pre as int].wf());
    Column { summary, p_up: shoes[pre].draw_prob(&up_card), edge: edge_term(&trees[pre]) }
}

} // verus!
