//! What holds of the masses of hands over a round of best play.
use crate::card::Card;
use crate::drawing::Shoe;
use crate::exact::{exact, exact_whole};
use crate::hand::{best_move_spec, Move, MoveEvs};
use crate::num::{is_nil, Scalar};
use crate::reach::{
    arm_mass, dealt_mass, flow, further_splits, mass_of, more_mass, play_size, play_upto, reach_map,
    split_mass, splits_on,
};
use crate::rules::Ruleset;
use crate::shoe::{single, size, with_card, Tally};
use crate::simulation::{basis_draws, Basis};
use vstd::prelude::*;

verus! {

/// Whether no hand has more mass in the first map than in the second, and none has less than
/// nothing.
pub open spec fn no_more<N: Scalar>(
    val: spec_fn(N) -> real,
    m1: Map<Tally, N>,
    m2: Map<Tally, N>,
) -> bool {
    forall|t: Tally|
        0real <= val(#[trigger] mass_of(m1, t)) && val(mass_of(m1, t)) <= val(mass_of(m2, t))
}

/// Whether no chance is negative.
pub open spec fn are_chances<N: Scalar>(val: spec_fn(N) -> real, draws: Seq<(Card, N)>) -> bool {
    forall|i: int| 0 <= i < draws.len() ==> val((#[trigger] draws[i]).1) >= 0real
}

/// Whether no weight of a hand of the tree is negative, and no chance of a card that can come
/// to a hand.
pub open spec fn are_weights<N: Scalar, S: Shoe<N>>(
    val: spec_fn(N) -> real,
    order: Seq<Tally>,
    tree: Map<Tally, (N, MoveEvs<N>)>,
    b: Basis,
    s: S::State,
) -> bool {
    forall|i: int|
        0 <= i < order.len() ==> val(tree[#[trigger] order[i]].0) >= 0real && are_chances(
            val,
            basis_draws::<N, S>(b, S::without(s, order[i])),
        )
}

/// More mass for one hand, in both maps.
proof fn more_in_both<N: Scalar>(
    val: spec_fn(N) -> real,
    m1: Map<Tally, N>,
    m2: Map<Tally, N>,
    t: Tally,
    w1: N,
    w2: N,
)
    requires
        exact(val),
        no_more(val, m1, m2),
        0real <= val(w1) && val(w1) <= val(w2),
    ensures
        no_more(val, more_mass(m1, t, w1), more_mass(m2, t, w2)),
{
    let a = more_mass(m1, t, w1);
    let c = more_mass(m2, t, w2);
    assert forall|u: Tally|
        0real <= val(#[trigger] mass_of(a, u)) && val(mass_of(a, u)) <= val(mass_of(c, u)) by {
        assert(0real <= val(mass_of(m1, u)) && val(mass_of(m1, u)) <= val(mass_of(m2, u)));
        assert(0real <= val(mass_of(m1, t)) && val(mass_of(m1, t)) <= val(mass_of(m2, t)));
    }
}

/// More mass for one hand in the second map.
proof fn more_in_second<N: Scalar>(
    val: spec_fn(N) -> real,
    m1: Map<Tally, N>,
    m2: Map<Tally, N>,
    t: Tally,
    w: N,
)
    requires
        exact(val),
        no_more(val, m1, m2),
        0real <= val(w),
    ensures
        no_more(val, m1, more_mass(m2, t, w)),
{
    let c = more_mass(m2, t, w);
    assert forall|u: Tally|
        0real <= val(#[trigger] mass_of(m1, u)) && val(mass_of(m1, u)) <= val(mass_of(c, u)) by {
        assert(0real <= val(mass_of(m1, t)) && val(mass_of(m1, t)) <= val(mass_of(m2, t)));
    }
}

proof fn flows_in_both<N: Scalar>(
    val: spec_fn(N) -> real,
    m1: Map<Tally, N>,
    m2: Map<Tally, N>,
    tree: Map<Tally, (N, MoveEvs<N>)>,
    t: Tally,
    h1: N,
    h2: N,
    draws: Seq<(Card, N)>,
    k: int,
)
    requires
        exact(val),
        no_more(val, m1, m2),
        0real <= val(h1) && val(h1) <= val(h2),
        are_chances(val, draws),
        0 <= k <= draws.len(),
    ensures
        no_more(val, flow(m1, tree, t, h1, draws, k), flow(m2, tree, t, h2, draws, k)),
    decreases k,
{
    if k > 0 {
        flows_in_both(val, m1, m2, tree, t, h1, h2, draws, k - 1);
        let (c, p) = draws[k - 1];
        let x = val(p);
        let y1 = val(h1);
        let y2 = val(h2);
        assert(val(draws[k - 1].1) >= 0real);
        assert(0real <= y1 * x && y1 * x <= y2 * x) by (nonlinear_arith)
            requires
                0real <= y1,
                y1 <= y2,
                x >= 0real,
        ;
        if !is_nil(p) && tree.contains_key(with_card(t, c)) {
            more_in_both(
                val,
                flow(m1, tree, t, h1, draws, k - 1),
                flow(m2, tree, t, h2, draws, k - 1),
                with_card(t, c),
                h1.times_spec(p),
                h2.times_spec(p),
            );
        }
    }
}

proof fn flows_in_second<N: Scalar>(
    val: spec_fn(N) -> real,
    m1: Map<Tally, N>,
    m2: Map<Tally, N>,
    tree: Map<Tally, (N, MoveEvs<N>)>,
    t: Tally,
    h: N,
    draws: Seq<(Card, N)>,
    k: int,
)
    requires
        exact(val),
        no_more(val, m1, m2),
        0real <= val(h),
        are_chances(val, draws),
        0 <= k <= draws.len(),
    ensures
        no_more(val, m1, flow(m2, tree, t, h, draws, k)),
    decreases k,
{
    if k > 0 {
        flows_in_second(val, m1, m2, tree, t, h, draws, k - 1);
        let (c, p) = draws[k - 1];
        let x = val(p);
        let y = val(h);
        assert(val(draws[k - 1].1) >= 0real);
        assert(0real <= y * x) by (nonlinear_arith)
            requires
                0real <= y,
                x >= 0real,
        ;
        if !is_nil(p) && tree.contains_key(with_card(t, c)) {
            more_in_second(
                val,
                m1,
                flow(m2, tree, t, h, draws, k - 1),
                with_card(t, c),
                h.times_spec(p),
            );
        }
    }
}

proof fn plays_in_both<N: Scalar, S: Shoe<N>>(
    val: spec_fn(N) -> real,
    m1: Map<Tally, N>,
    m2: Map<Tally, N>,
    order: Seq<Tally>,
    tree: Map<Tally, (N, MoveEvs<N>)>,
    b: Basis,
    s: S::State,
    n: nat,
    k: int,
)
    requires
        exact(val),
        no_more(val, m1, m2),
        are_weights::<N, S>(val, order, tree, b, s),
        0 <= k <= order.len(),
    ensures
        no_more(
            val,
            play_size::<N, S>(m1, order, tree, b, s, n, k),
            play_size::<N, S>(m2, order, tree, b, s, n, k),
        ),
    decreases k,
{
    exact_whole::<N>(val, 0);
    if k > 0 {
        plays_in_both::<N, S>(val, m1, m2, order, tree, b, s, n, k - 1);
        let a = play_size::<N, S>(m1, order, tree, b, s, n, k - 1);
        let c = play_size::<N, S>(m2, order, tree, b, s, n, k - 1);
        let t = order[k - 1];
        let draws = basis_draws::<N, S>(b, S::without(s, t));
        let h1 = mass_of(a, t);
        let h2 = mass_of(c, t);
        assert(0real <= val(mass_of(a, t)) && val(mass_of(a, t)) <= val(mass_of(c, t)));
        assert(val(tree[order[k - 1]].0) >= 0real && are_chances(val, draws));
        if size(t) == n && best_move_spec(tree[t].1) == Move::Hit {
            if !is_nil(h1) {
                flows_in_both(val, a, c, tree, t, h1, h2, draws, draws.len() as int);
            } else if !is_nil(h2) {
                flows_in_second(val, a, c, tree, t, h2, draws, draws.len() as int);
            }
        }
    }
}

proof fn rounds_in_both<N: Scalar, S: Shoe<N>>(
    val: spec_fn(N) -> real,
    m1: Map<Tally, N>,
    m2: Map<Tally, N>,
    order: Seq<Tally>,
    tree: Map<Tally, (N, MoveEvs<N>)>,
    b: Basis,
    s: S::State,
    n: nat,
)
    requires
        exact(val),
        no_more(val, m1, m2),
        are_weights::<N, S>(val, order, tree, b, s),
    ensures
        no_more(
            val,
            play_upto::<N, S>(m1, order, tree, b, s, n),
            play_upto::<N, S>(m2, order, tree, b, s, n),
        ),
    decreases n,
{
    if n >= 2 {
        rounds_in_both::<N, S>(val, m1, m2, order, tree, b, s, (n - 1) as nat);
        plays_in_both::<N, S>(
            val,
            play_upto::<N, S>(m1, order, tree, b, s, (n - 1) as nat),
            play_upto::<N, S>(m2, order, tree, b, s, (n - 1) as nat),
            order,
            tree,
            b,
            s,
            n,
            order.len() as int,
        );
    }
}

proof fn arms_add<N: Scalar>(
    val: spec_fn(N) -> real,
    m1: Map<Tally, N>,
    m2: Map<Tally, N>,
    r: Card,
    draws: Seq<(Card, N)>,
    splits: nat,
    w: N,
    k: int,
)
    requires
        exact(val),
        no_more(val, m1, m2),
        are_chances(val, draws),
        0real <= val(w),
        0 <= k <= draws.len(),
    ensures
        no_more(val, m1, arm_mass(m2, r, draws, splits, w, k)),
    decreases splits, k,
{
    if k > 0 {
        arms_add(val, m1, m2, r, draws, splits, w, k - 1);
        let before = arm_mass(m2, r, draws, splits, w, k - 1);
        let (c, p) = draws[k - 1];
        let part = w.times_spec(p);
        let x = val(p);
        let y = val(w);
        assert(val(draws[k - 1].1) >= 0real);
        assert(0real <= y * x) by (nonlinear_arith)
            requires
                0real <= y,
                x >= 0real,
        ;
        if !is_nil(p) {
            if c != r {
                more_in_second(val, m1, before, with_card(single(r), c), part);
            } else if splits > 0 {
                let left = (splits - 1) as nat;
                let n = draws.len() as int;
                arms_add(val, m1, before, r, draws, left, part, n);
                arms_add(
                    val,
                    m1,
                    arm_mass(before, r, draws, left, part, n),
                    r,
                    draws,
                    left,
                    part,
                    n,
                );
            }
        }
    }
}

proof fn splits_add<N: Scalar, S: Shoe<N>>(
    val: spec_fn(N) -> real,
    m: Map<Tally, N>,
    order: Seq<Tally>,
    tree: Map<Tally, (N, MoveEvs<N>)>,
    b: Basis,
    rules: Ruleset,
    s: S::State,
    k: int,
)
    requires
        exact(val),
        no_more(val, m, m),
        are_weights::<N, S>(val, order, tree, b, s),
        0 <= k <= order.len(),
    ensures
        no_more(val, m, split_mass::<N, S>(m, order, tree, b, rules, s, k)),
    decreases k,
{
    if k > 0 {
        splits_add::<N, S>(val, m, order, tree, b, rules, s, k - 1);
        let before = split_mass::<N, S>(m, order, tree, b, rules, s, k - 1);
        let t = order[k - 1];
        let entry = mass_of(before, t);
        let draws = basis_draws::<N, S>(b, S::without(s, t));
        assert(0real <= val(mass_of(m, t)) && val(mass_of(m, t)) <= val(mass_of(before, t)));
        assert(val(tree[order[k - 1]].0) >= 0real && are_chances(val, draws));
        if splits_on(tree, t) && !is_nil(entry) {
            let r = crate::hand::pair_of(t)->0;
            let n = further_splits(rules);
            arms_add(val, m, before, r, draws, n, entry, draws.len() as int);
            arms_add(
                val,
                m,
                arm_mass(before, r, draws, n, entry, draws.len() as int),
                r,
                draws,
                n,
                entry,
                draws.len() as int,
            );
        }
    }
}

proof fn dealt_is_there<N: Scalar, S: Shoe<N>>(
    val: spec_fn(N) -> real,
    order: Seq<Tally>,
    tree: Map<Tally, (N, MoveEvs<N>)>,
    b: Basis,
    s: S::State,
    k: int,
)
    requires
        exact(val),
        are_weights::<N, S>(val, order, tree, b, s),
        0 <= k <= order.len(),
    ensures
        no_more(val, dealt_mass(order, tree, k), dealt_mass(order, tree, k)),
    decreases k,
{
    exact_whole::<N>(val, 0);
    if k > 0 {
        dealt_is_there::<N, S>(val, order, tree, b, s, k - 1);
        let before = dealt_mass(order, tree, k - 1);
        let m = dealt_mass(order, tree, k);
        assert(val(tree[order[k - 1]].0) >= 0real);
        assert forall|u: Tally| 0real <= val(#[trigger] mass_of(m, u)) by {
            assert(0real <= val(mass_of(before, u)));
        }
    }
}

/// In an exact arithmetic no hand has less than no mass, and counting the arms of split pairs
/// takes mass from no hand.
pub proof fn law_split_arms_only_add_mass<N: Scalar, S: Shoe<N>>(
    val: spec_fn(N) -> real,
    order: Seq<Tally>,
    tree: Map<Tally, (N, MoveEvs<N>)>,
    b: Basis,
    rules: Ruleset,
    s: S::State,
    t: Tally,
)
    requires
        exact(val),
        are_weights::<N, S>(val, order, tree, b, s),
    ensures
        0real <= val(mass_of(reach_map::<N, S>(order, tree, b, rules, s, false), t)),
        val(mass_of(reach_map::<N, S>(order, tree, b, rules, s, false), t)) <= val(
            mass_of(reach_map::<N, S>(order, tree, b, rules, s, true), t),
        ),
{
    let n = order.len() as int;
    let dealt = dealt_mass(order, tree, n);
    dealt_is_there::<N, S>(val, order, tree, b, s, n);
    splits_add::<N, S>(val, dealt, order, tree, b, rules, s, n);
    let seeded = split_mass::<N, S>(dealt, order, tree, b, rules, s, n);
    rounds_in_both::<N, S>(val, dealt, seeded, order, tree, b, s, 21);
    assert(0real <= val(mass_of(play_upto::<N, S>(dealt, order, tree, b, s, 21), t)));
}

/// Mass that flows on with a card comes to hands of one card more.
proof fn flow_keeps<N: Scalar>(
    m: Map<Tally, N>,
    tree: Map<Tally, (N, MoveEvs<N>)>,
    t: Tally,
    here: N,
    draws: Seq<(Card, N)>,
    k: int,
    u: Tally,
)
    requires
        t.len() == 10,
        0 <= k <= draws.len(),
        forall|i: int| 0 <= i < draws.len() ==> (#[trigger] draws[i]).0.valid(),
        size(u) != size(t) + 1,
    ensures
        mass_of(flow(m, tree, t, here, draws, k), u) == mass_of(m, u),
    decreases k,
{
    if k > 0 {
        flow_keeps(m, tree, t, here, draws, k - 1, u);
        let c = draws[k - 1].0;
        crate::partitions::hard_with_n(t, c.rank(), 1);
        crate::card::law_rank_round_trip(c, 0);
        assert(size(with_card(t, c)) == size(t) + 1);
    }
}

proof fn plays_keep<N: Scalar, S: Shoe<N>>(
    m: Map<Tally, N>,
    order: Seq<Tally>,
    tree: Map<Tally, (N, MoveEvs<N>)>,
    b: Basis,
    s: S::State,
    n: nat,
    k: int,
    u: Tally,
)
    requires
        S::sane(s),
        forall|i: int| 0 <= i < order.len() ==> (#[trigger] order[i]).len() == 10,
        0 <= k <= order.len(),
        size(u) != n + 1,
    ensures
        mass_of(play_size::<N, S>(m, order, tree, b, s, n, k), u) == mass_of(m, u),
    decreases k,
{
    if k > 0 {
        plays_keep::<N, S>(m, order, tree, b, s, n, k - 1, u);
        let before = play_size::<N, S>(m, order, tree, b, s, n, k - 1);
        let t = order[k - 1];
        let here = mass_of(before, t);
        if size(t) == n && !is_nil(here) && best_move_spec(tree[t].1) == Move::Hit {
            S::without_supply(s, t);
            let left = S::without(s, t);
            let draws = basis_draws::<N, S>(b, left);
            crate::simulation::basis_draws_are_there::<N, S>(b, left);
            S::draws_are_there(left);
            assert forall|i: int| 0 <= i < draws.len() implies (#[trigger] draws[i]).0.valid() by {
                assert(draws[i].0 == S::draws(left)[i].0);
            }
            flow_keeps(before, tree, t, here, draws, draws.len() as int, u);
        }
    }
}

proof fn all_plays_keep<N: Scalar, S: Shoe<N>>(
    m: Map<Tally, N>,
    order: Seq<Tally>,
    tree: Map<Tally, (N, MoveEvs<N>)>,
    b: Basis,
    s: S::State,
    n: nat,
    u: Tally,
)
    requires
        S::sane(s),
        forall|i: int| 0 <= i < order.len() ==> (#[trigger] order[i]).len() == 10,
        size(u) == 2,
    ensures
        mass_of(play_upto::<N, S>(m, order, tree, b, s, n), u) == mass_of(m, u),
    decreases n,
{
    if n >= 2 {
        all_plays_keep::<N, S>(m, order, tree, b, s, (n - 1) as nat, u);
        plays_keep::<N, S>(
            play_upto::<N, S>(m, order, tree, b, s, (n - 1) as nat),
            order,
            tree,
            b,
            s,
            n,
            order.len() as int,
            u,
        );
    }
}

proof fn dealt_is_weight<N: Scalar>(
    order: Seq<Tally>,
    tree: Map<Tally, (N, MoveEvs<N>)>,
    k: int,
    i: int,
)
    requires
        0 <= i < k <= order.len(),
        size(order[i]) == 2,
    ensures
        mass_of(dealt_mass(order, tree, k), order[i]) == tree[order[i]].0,
    decreases k,
{
    if i < k - 1 {
        dealt_is_weight(order, tree, k - 1, i);
    }
}

/// Without the arms of splits, the mass of a starting hand is the weight that it is stored with:
/// no play comes back to two cards.
pub proof fn law_starting_hands_have_their_weight<N: Scalar, S: Shoe<N>>(
    order: Seq<Tally>,
    tree: Map<Tally, (N, MoveEvs<N>)>,
    b: Basis,
    rules: Ruleset,
    s: S::State,
    i: int,
)
    requires
        S::sane(s),
        forall|j: int| 0 <= j < order.len() ==> (#[trigger] order[j]).len() == 10,
        0 <= i < order.len(),
        size(order[i]) == 2,
    ensures
        mass_of(reach_map::<N, S>(order, tree, b, rules, s, false), order[i]) == tree[order[i]].0,
{
    dealt_is_weight(order, tree, order.len() as int, i);
    all_plays_keep::<N, S>(
        dealt_mass(order, tree, order.len() as int),
        order,
        tree,
        b,
        s,
        21,
        order[i],
    );
}

/// Whether each of the cards that can come is of another rank.
pub open spec fn all_differ<N>(draws: Seq<(Card, N)>) -> bool {
    &&& forall|i: int| 0 <= i < draws.len() ==> (#[trigger] draws[i]).0.valid()
    &&& forall|i: int, j: int|
        0 <= i < j < draws.len() ==> (#[trigger] draws[i]).0 != (#[trigger] draws[j]).0
}

/// Different cards make different hands.
proof fn cards_tell_hands(t: Tally, c: Card, d: Card)
    requires
        t.len() == 10,
        c.valid(),
        d.valid(),
        c != d,
    ensures
        with_card(t, c) != with_card(t, d),
{
    crate::card::law_rank_round_trip(c, 0);
    crate::card::law_rank_round_trip(d, 0);
    if with_card(t, c) == with_card(t, d) {
        assert(with_card(t, c)[c.rank()] == t[c.rank()] + 1);
        assert(with_card(t, d)[c.rank()] == t[c.rank()] + if c.rank() == d.rank() {
            1nat
        } else {
            0
        });
    }
}

/// In an exact arithmetic a hand that is hit passes its mass on to the hands that the next card
/// makes of it, to each as often as its card comes, where the hand is not over 21.
pub proof fn law_hits_pass_their_mass_on<N: Scalar>(
    val: spec_fn(N) -> real,
    m: Map<Tally, N>,
    tree: Map<Tally, (N, MoveEvs<N>)>,
    t: Tally,
    here: N,
    draws: Seq<(Card, N)>,
    k: int,
    i: int,
)
    requires
        exact(val),
        t.len() == 10,
        all_differ(draws),
        0 <= k <= draws.len(),
        0 <= i < draws.len(),
        tree.contains_key(with_card(t, draws[i].0)),
    ensures
        val(mass_of(flow(m, tree, t, here, draws, k), with_card(t, draws[i].0))) == val(
            mass_of(m, with_card(t, draws[i].0)),
        ) + if i < k {
            val(here) * val(draws[i].1)
        } else {
            0real
        },
    decreases k,
{
    exact_whole::<N>(val, 0);
    if k > 0 {
        law_hits_pass_their_mass_on(val, m, tree, t, here, draws, k - 1, i);
        let (c, p) = draws[k - 1];
        if k - 1 == i {
            let x = val(here);
            assert(x * 0real == 0real) by (nonlinear_arith);
        } else {
            assert(draws[k - 1].0 != draws[i].0);
            cards_tell_hands(t, c, draws[i].0);
        }
    }
}

/// How many arms of a rank a mass of split arms leads to for each that gets another second card,
/// where a second card that makes a pair again, which comes with the chance `p`, is split again
/// while `splits` lasts: every such arm becomes two.
pub open spec fn arms_for_each(p: real, splits: nat) -> real
    decreases splits,
{
    if splits == 0 {
        1real
    } else {
        1real + 2real * p * arms_for_each(p, (splits - 1) as nat)
    }
}

/// What an arm adds to the hand of its rank and another, over the first `k` second cards.
proof fn arm_adds<N: Scalar>(
    val: spec_fn(N) -> real,
    m: Map<Tally, N>,
    r: Card,
    draws: Seq<(Card, N)>,
    splits: nat,
    w: N,
    k: int,
    i: int,
    q: int,
)
    requires
        exact(val),
        r.valid(),
        all_differ(draws),
        0 <= k <= draws.len(),
        0 <= i < draws.len(),
        0 <= q < draws.len(),
        draws[i].0 != r,
        draws[q].0 == r,
    ensures
        ({
            let u = with_card(single(r), draws[i].0);
            val(mass_of(arm_mass(m, r, draws, splits, w, k), u)) == val(mass_of(m, u)) + (if i < k {
                val(w) * val(draws[i].1)
            } else {
                0real
            }) + (if q < k && splits > 0 {
                2real * ((val(w) * val(draws[q].1)) * val(draws[i].1) * arms_for_each(
                    val(draws[q].1),
                    (splits - 1) as nat,
                ))
            } else {
                0real
            })
        }),
    decreases splits, k,
{
    exact_whole::<N>(val, 0);
    let u = with_card(single(r), draws[i].0);
    crate::split::single_card_total(r);
    if k > 0 {
        arm_adds(val, m, r, draws, splits, w, k - 1, i, q);
        let before = arm_mass(m, r, draws, splits, w, k - 1);
        let (c, p) = draws[k - 1];
        let part = w.times_spec(p);
        let x = val(w);
        if k - 1 == q {
            if is_nil(p) {
                let y = val(draws[i].1);
                let z = arms_for_each(val(p), (splits - 1) as nat);
                assert(2real * ((x * 0real) * y * z) == 0real) by (nonlinear_arith);
            } else if splits > 0 {
                let left = (splits - 1) as nat;
                let n = draws.len() as int;
                let once = arm_mass(before, r, draws, left, part, n);
                arm_adds(val, before, r, draws, left, part, n, i, q);
                arm_adds(val, once, r, draws, left, part, n, i, q);
                whole_gain(val(part), val(draws[i].1), val(draws[q].1), left);
            }
        } else {
            assert(draws[k - 1].0 != r) by {
                if k - 1 < q {
                    assert(draws[k - 1].0 != draws[q].0);
                } else {
                    assert(draws[q].0 != draws[k - 1].0);
                }
            }
            if k - 1 == i {
                assert(x * 0real == 0real) by (nonlinear_arith);
            } else {
                assert(draws[k - 1].0 != draws[i].0);
                cards_tell_hands(single(r), c, draws[i].0);
            }
        }
    }
}

/// What one arm adds in all.
proof fn whole_gain(w: real, y: real, p: real, splits: nat)
    ensures
        w * y * arms_for_each(p, splits) == w * y + if splits > 0 {
            2real * ((w * p) * y * arms_for_each(p, (splits - 1) as nat))
        } else {
            0real
        },
{
    let a = w * y;
    if splits > 0 {
        let z = arms_for_each(p, (splits - 1) as nat);
        assert(a * (1real + 2real * p * z) == a + 2real * ((w * p) * y * z)) by (nonlinear_arith)
            requires
                a == w * y,
        ;
    } else {
        assert(a * 1real == a) by (nonlinear_arith);
    }
}

/// In an exact arithmetic a pair that is split brings two arms to every hand that its rank and a
/// second card make, each as often as the card comes; and a second card that makes a pair again
/// is split again, and brings two arms more in its place, up to as many hands as the rules allow.
pub proof fn law_splits_bring_two_arms<N: Scalar, S: Shoe<N>>(
    val: spec_fn(N) -> real,
    m: Map<Tally, N>,
    order: Seq<Tally>,
    tree: Map<Tally, (N, MoveEvs<N>)>,
    b: Basis,
    rules: Ruleset,
    s: S::State,
    k: int,
    i: int,
    q: int,
)
    requires
        exact(val),
        0 < k <= order.len(),
        splits_on(tree, order[k - 1]),
        rules.max_split_hands >= 2,
        ({
            let draws = basis_draws::<N, S>(b, S::without(s, order[k - 1]));
            let r = crate::hand::pair_of(order[k - 1])->0;
            &&& r.valid()
            &&& all_differ(draws)
            &&& 0 <= i < draws.len()
            &&& 0 <= q < draws.len()
            &&& draws[i].0 != r
            &&& draws[q].0 == r
        }),
    ensures
        ({
            let t = order[k - 1];
            let draws = basis_draws::<N, S>(b, S::without(s, t));
            let r = crate::hand::pair_of(t)->0;
            let u = with_card(single(r), draws[i].0);
            let before = split_mass::<N, S>(m, order, tree, b, rules, s, k - 1);
            let after = split_mass::<N, S>(m, order, tree, b, rules, s, k);
            val(mass_of(after, u)) == val(mass_of(before, u)) + 2real * (val(mass_of(before, t))
                * val(draws[i].1) * arms_for_each(
                val(draws[q].1),
                (rules.max_split_hands - 2) as nat,
            ))
        }),
{
    exact_whole::<N>(val, 0);
    let t = order[k - 1];
    let draws = basis_draws::<N, S>(b, S::without(s, t));
    let r = crate::hand::pair_of(t)->0;
    let before = split_mass::<N, S>(m, order, tree, b, rules, s, k - 1);
    let entry = mass_of(before, t);
    let n = further_splits(rules);
    let y = val(draws[i].1);
    let p = val(draws[q].1);
    if is_nil(entry) {
        let z = arms_for_each(p, n);
        assert(2real * (0real * y * z) == 0real) by (nonlinear_arith);
    } else {
        let once = arm_mass(before, r, draws, n, entry, draws.len() as int);
        arm_adds(val, before, r, draws, n, entry, draws.len() as int, i, q);
        arm_adds(val, once, r, draws, n, entry, draws.len() as int, i, q);
        whole_gain(val(entry), y, p, n);
    }
}

/// Split aces are not played on: they bring no arms to any hand.
pub proof fn law_split_aces_bring_no_arms<N: Scalar, S: Shoe<N>>(
    m: Map<Tally, N>,
    order: Seq<Tally>,
    tree: Map<Tally, (N, MoveEvs<N>)>,
    b: Basis,
    rules: Ruleset,
    s: S::State,
    k: int,
)
    requires
        0 < k <= order.len(),
        crate::hand::pair_of(order[k - 1]) == Some(Card::Ace) || best_move_spec(
            tree[order[k - 1]].1,
        ) != Move::Split,
    ensures
        split_mass::<N, S>(m, order, tree, b, rules, s, k) == split_mass::<N, S>(
            m,
            order,
            tree,
            b,
            rules,
            s,
            k - 1,
        ),
{
}

/// A hand whose best move is not to hit passes nothing on.
pub proof fn law_hands_that_stand_pass_nothing_on<N: Scalar, S: Shoe<N>>(
    m: Map<Tally, N>,
    order: Seq<Tally>,
    tree: Map<Tally, (N, MoveEvs<N>)>,
    b: Basis,
    s: S::State,
    n: nat,
    k: int,
)
    requires
        0 < k <= order.len(),
        best_move_spec(tree[order[k - 1]].1) != Move::Hit || size(order[k - 1]) != n,
    ensures
        play_size::<N, S>(m, order, tree, b, s, n, k) == play_size::<N, S>(
            m,
            order,
            tree,
            b,
            s,
            n,
            k - 1,
        ),
{
}

/// A hand whose best move is to hit passes its whole mass on, when the hands of its number of
/// cards are played.
pub proof fn law_hands_that_hit_pass_all_on<N: Scalar, S: Shoe<N>>(
    m: Map<Tally, N>,
    order: Seq<Tally>,
    tree: Map<Tally, (N, MoveEvs<N>)>,
    b: Basis,
    s: S::State,
    n: nat,
    k: int,
)
    requires
        0 < k <= order.len(),
        best_move_spec(tree[order[k - 1]].1) == Move::Hit,
        size(order[k - 1]) == n,
        !is_nil(
            mass_of(play_size::<N, S>(m, order, tree, b, s, n, k - 1), order[k - 1]),
        ),
    ensures
        ({
            let before = play_size::<N, S>(m, order, tree, b, s, n, k - 1);
            let t = order[k - 1];
            let draws = basis_draws::<N, S>(b, S::without(s, t));
            play_size::<N, S>(m, order, tree, b, s, n, k) == flow(
                before,
                tree,
                t,
                mass_of(before, t),
                draws,
                draws.len() as int,
            )
        }),
{
}

} // verus!
