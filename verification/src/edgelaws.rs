//! What the weights behind an edge come to, as numbers.
use crate::card::card_at;
use crate::deallaws::{
    adds_up, chance_of_two, in_turn, law_finite_chances_add_up, law_infinite_chances_add_up,
    law_starting_hands_add_up, sum_of_both, sum_upto, tally_of_one, tally_of_two, triangle_sum,
    two_cards, two_cards_are_two,
};
use crate::drawing::{chance, fits, InfiniteDeck, Shoe};
use crate::exact::{exact, exact_whole};
use crate::hand::MoveEvs;
use crate::num::Scalar;
use crate::partitions::{hard_with_n, scan_weight};
use crate::rules::Ruleset;
use crate::shoe::{hard, is_natural, no_cards, single, size, taken, with_card, CardCol, Tally};
use crate::simulation::{natural_chance, Basis};
use crate::solve::{best_edge, best_value, edge_upto, is_tree, stored_weight};
use vstd::prelude::*;

verus! {

/// Every hand of two cards is that of two ranks, the lower one first.
pub proof fn ranks_of_two(t: Tally) -> (r: (int, int))
    requires
        t.len() == 10,
        size(t) == 2,
    ensures
        0 <= r.0 <= r.1 < 10,
        t == two_cards(r.0, r.1),
{
    let a = some_rank(t);
    tally_of_one(a);
    let u = taken(t, single(card_at(a)));
    assert(t =~= with_card(u, card_at(a))) by {
        crate::card::law_rank_round_trip(card_at(a), a);
    }
    hard_with_n(u, a, 1);
    let b = some_rank(u);
    tally_of_one(b);
    let v = taken(u, single(card_at(b)));
    assert(u =~= with_card(v, card_at(b))) by {
        crate::card::law_rank_round_trip(card_at(b), b);
    }
    hard_with_n(v, b, 1);
    assert(v =~= no_cards()) by {
        assert(v[0] == 0 && v[1] == 0 && v[2] == 0 && v[3] == 0 && v[4] == 0 && v[5] == 0 && v[6]
            == 0 && v[7] == 0 && v[8] == 0 && v[9] == 0);
    }
    assert(t == two_cards(b, a));
    tally_of_two(a, b);
    tally_of_two(b, a);
    assert(two_cards(b, a) =~= two_cards(a, b));
    if a <= b {
        (a, b)
    } else {
        (b, a)
    }
}

/// A rank of which a hand holds a card.
proof fn some_rank(t: Tally) -> (r: int)
    requires
        t.len() == 10,
        size(t) > 0,
    ensures
        0 <= r < 10,
        t[r] > 0,
{
    if t[0] > 0 {
        0
    } else if t[1] > 0 {
        1
    } else if t[2] > 0 {
        2
    } else if t[3] > 0 {
        3
    } else if t[4] > 0 {
        4
    } else if t[5] > 0 {
        5
    } else if t[6] > 0 {
        6
    } else if t[7] > 0 {
        7
    } else if t[8] > 0 {
        8
    } else {
        9
    }
}

/// A hand of two cards has its two ranks and no others.
proof fn ranks_are_unique(a: int, b: int, i: int, j: int)
    requires
        0 <= a <= b < 10,
        0 <= i <= j < 10,
        two_cards(a, b) == two_cards(i, j),
    ensures
        a == i,
        b == j,
{
    tally_of_two(a, b);
    tally_of_two(i, j);
    assert(two_cards(i, j)[a] > 0 && two_cards(i, j)[b] > 0);
    assert(two_cards(a, b)[i] > 0 && two_cards(a, b)[j] > 0);
}

pub proof fn sum_with_change(
    f: spec_fn(int) -> real,
    g: spec_fn(int) -> real,
    a: int,
    x: real,
    k: int,
)
    requires
        0 <= a,
        forall|i: int| 0 <= i < k ==> #[trigger] g(i) == f(i) + if i == a {
            x
        } else {
            0real
        },
    ensures
        sum_upto(g, k) == sum_upto(f, k) + if a < k {
            x
        } else {
            0real
        },
    decreases k,
{
    if k > 0 {
        sum_with_change(f, g, a, x, k - 1);
        assert(g(k - 1) == f(k - 1) + if k - 1 == a {
            x
        } else {
            0real
        });
    }
}

proof fn triangle_with_change(
    f: spec_fn(int, int) -> real,
    g: spec_fn(int, int) -> real,
    a: int,
    b: int,
    x: real,
    k: int,
)
    requires
        0 <= a <= b,
        forall|i: int, j: int|
            0 <= i <= j < k ==> #[trigger] g(i, j) == f(i, j) + if i == a && j == b {
                x
            } else {
                0real
            },
    ensures
        triangle_sum(g, k) == triangle_sum(f, k) + if b < k {
            x
        } else {
            0real
        },
    decreases k,
{
    if k > 0 {
        triangle_with_change(f, g, a, b, x, k - 1);
        let f1 = |i: int| f(i, k - 1);
        let g1 = |i: int| g(i, k - 1);
        let y = if b == k - 1 {
            x
        } else {
            0real
        };
        assert forall|i: int| 0 <= i < k implies #[trigger] g1(i) == f1(i) + if i == a {
            y
        } else {
            0real
        } by {
            assert(g(i, k - 1) == f(i, k - 1) + if i == a && k - 1 == b {
                x
            } else {
                0real
            });
        }
        sum_with_change(f1, g1, a, y, k);
    }
}

proof fn same_triangles(f: spec_fn(int, int) -> real, g: spec_fn(int, int) -> real, k: int)
    requires
        k >= 0,
        forall|i: int, j: int| 0 <= i <= j < k ==> #[trigger] g(i, j) == f(i, j),
    ensures
        triangle_sum(g, k) == triangle_sum(f, k),
{
    triangle_with_change(f, g, 0, k + 1, 0real, k);
}

/// The share of a hand of two ranks, where it is among the first `k` hands.
spec fn seen_share(
    share: spec_fn(Tally) -> real,
    order: Seq<Tally>,
    k: int,
    i: int,
    j: int,
) -> real {
    if order.take(k).contains(two_cards(i, j)) {
        share(two_cards(i, j))
    } else {
        0real
    }
}

proof fn weights_upto<N: Scalar>(
    val: spec_fn(N) -> real,
    share: spec_fn(Tally) -> real,
    order: Seq<Tally>,
    weight: spec_fn(Tally) -> N,
    value: spec_fn(Tally) -> N,
    k: int,
)
    requires
        exact(val),
        order.no_duplicates(),
        forall|i: int| 0 <= i < order.len() ==> (#[trigger] order[i]).len() == 10,
        forall|i: int|
            0 <= i < order.len() && size(#[trigger] order[i]) == 2 ==> val(weight(order[i]))
                == share(order[i]),
        0 <= k <= order.len(),
    ensures
        val(edge_upto(order, weight, value, k).weight) == triangle_sum(
            |i: int, j: int| seen_share(share, order, k, i, j),
            10,
        ),
    decreases k,
{
    exact_whole::<N>(val, 0);
    let now = |i: int, j: int| seen_share(share, order, k, i, j);
    if k <= 0 {
        let none = |i: int, j: int| 0real;
        nothing_adds_up(10);
        same_triangles(none, now, 10);
    } else {
        weights_upto::<N>(val, share, order, weight, value, k - 1);
        let before = |i: int, j: int| seen_share(share, order, k - 1, i, j);
        let t = order[k - 1];
        assert(order.take(k) =~= order.take(k - 1).push(t));
        if size(t) == 2 {
            let (a, b) = ranks_of_two(t);
            let x = share(t);
            assert forall|i: int, j: int| 0 <= i <= j < 10 implies #[trigger] now(i, j) == before(
                i,
                j,
            ) + if i == a && j == b {
                x
            } else {
                0real
            } by {
                if i == a && j == b {
                    assert(!order.take(k - 1).contains(t)) by {
                        if order.take(k - 1).contains(t) {
                            let m = choose|m: int|
                                0 <= m < k - 1 && #[trigger] order.take(k - 1)[m] == t;
                            assert(order[m] == order[k - 1]);
                        }
                    }
                    assert(order.take(k)[k - 1] == t);
                } else {
                    if two_cards(i, j) == t {
                        ranks_are_unique(a, b, i, j);
                    }
                    pushed_contains(order.take(k - 1), t, two_cards(i, j));
                }
            }
            triangle_with_change(before, now, a, b, x, 10);
        } else {
            assert forall|i: int, j: int| 0 <= i <= j < 10 implies #[trigger] now(i, j) == before(
                i,
                j,
            ) by {
                two_cards_are_two(i, j);
                pushed_contains(order.take(k - 1), t, two_cards(i, j));
            }
            same_triangles(before, now, 10);
        }
    }
}

/// One more hand adds no other hand.
proof fn pushed_contains(hands: Seq<Tally>, t: Tally, u: Tally)
    requires
        u != t,
    ensures
        hands.push(t).contains(u) == hands.contains(u),
{
    if hands.contains(u) {
        let m = choose|m: int| 0 <= m < hands.len() && #[trigger] hands[m] == u;
        assert(hands.push(t)[m] == u);
    }
    if hands.push(t).contains(u) {
        let m = choose|m: int| 0 <= m < hands.push(t).len() && #[trigger] hands.push(t)[m] == u;
        assert(hands[m] == u);
    }
}

proof fn nothing_adds_up(k: int)
    ensures
        triangle_sum(|i: int, j: int| 0real, k) == 0real,
    decreases k,
{
    if k > 0 {
        nothing_adds_up(k - 1);
        let row = |i: int| 0real;
        no_sum(row, k);
        let f = |i: int, j: int| 0real;
        assert((|i: int| f(i, k - 1)) =~= row);
    }
}

proof fn no_sum(f: spec_fn(int) -> real, k: int)
    requires
        forall|i: int| #[trigger] f(i) == 0real,
    ensures
        sum_upto(f, k) == 0real,
    decreases k,
{
    if k > 0 {
        no_sum(f, k - 1);
        assert(f(k - 1) == 0real);
    }
}

/// Whether hands of two cards that do not fit have no chance.
pub open spec fn only_fitting<N: Scalar, S: Shoe<N>>(val: spec_fn(N) -> real, s: S::State) -> bool {
    forall|i: int, j: int|
        0 <= i <= j < 10 && !fits::<N, S>(s, #[trigger] two_cards(i, j)) ==> val(
            chance::<N, S>(s, two_cards(i, j)),
        ) == 0real
}

/// What a hand of two ranks loses of its chance where the dealer looks: it is not played if
/// the dealer has a natural. A natural of the player's is.
pub open spec fn lost_to_naturals<N: Scalar, S: Shoe<N>>(
    val: spec_fn(N) -> real,
    b: Basis,
    s: S::State,
    i: int,
    j: int,
) -> real {
    let t = two_cards(i, j);
    if b.conditional && !is_natural(t) {
        val(chance::<N, S>(s, t)) * val(natural_chance::<N, S>(S::without(s, t), b.up_card))
    } else {
        0real
    }
}

/// In an exact arithmetic the weights of the starting hands behind an edge fall short of one by
/// exactly the chance of a dealer's natural against a hand that is none: each hand stands in the
/// tree once, with the chance of being dealt it and, where the dealer looks, of playing it.
pub proof fn law_edge_falls_short_by_naturals<N: Scalar, S: Shoe<N>>(
    val: spec_fn(N) -> real,
    order: Seq<Tally>,
    tree: Map<Tally, (N, MoveEvs<N>)>,
    b: Basis,
    rules: Ruleset,
    s: S::State,
    splits: Map<Tally, N>,
)
    requires
        exact(val),
        is_tree::<N, S>(tree, b, rules, s, splits),
        order.no_duplicates(),
        forall|t: Tally| #[trigger] tree.contains_key(t) == order.contains(t),
        adds_up::<N, S>(val, s),
        forall|i: int|
            0 <= i < 10 && val(#[trigger] S::prob(s, card_at(i))) != 0real ==> adds_up::<N, S>(
                val,
                S::without(s, single(card_at(i))),
            ),
        only_fitting::<N, S>(val, s),
    ensures
        val(best_edge(order, tree).weight) == 1real - triangle_sum(
            |i: int, j: int| lost_to_naturals::<N, S>(val, b, s, i, j),
            10,
        ),
{
    exact_whole::<N>(val, 1);
    let n = order.len() as int;
    let weight = |t: Tally| tree[t].0;
    let value = |t: Tally| best_value(tree[t].1);
    let share = |t: Tally| val(stored_weight::<N, S>(b, s, t, scan_weight::<N, S>(s, t)));
    assert forall|i: int| 0 <= i < order.len() implies (#[trigger] order[i]).len() == 10
        && tree.contains_key(order[i]) by {
        assert(order.contains(order[i]));
        assert(tree.contains_key(order[i]));
    }
    weights_upto::<N>(val, share, order, weight, value, n);
    law_starting_hands_add_up::<N, S>(val, s);
    let all = |i: int, j: int| val(chance::<N, S>(s, two_cards(i, j)));
    let lost = |i: int, j: int| lost_to_naturals::<N, S>(val, b, s, i, j);
    let seen = |i: int, j: int| seen_share(share, order, n, i, j);
    assert(order.take(n) =~= order);
    assert forall|i: int, j: int| 0 <= i <= j < 10 implies #[trigger] all(i, j) == seen(i, j) + lost(
        i,
        j,
    ) by {
        let t = two_cards(i, j);
        tally_of_two(i, j);
        two_cards_are_two(i, j);
        two_cards_are_small(i, j);
        assert(tree.contains_key(t) == order.contains(t));
        assert(fits::<N, S>(s, two_cards(i, j)) || val(chance::<N, S>(s, t)) == 0real);
        let c = val(chance::<N, S>(s, t));
        let p = val(natural_chance::<N, S>(S::without(s, t), b.up_card));
        assert(c * (1real - p) == c - c * p) by (nonlinear_arith);
        assert(0real * p == 0real) by (nonlinear_arith);
    }
    triangle_of_both(seen, lost, all, 10);
}

proof fn triangle_of_both(
    f: spec_fn(int, int) -> real,
    g: spec_fn(int, int) -> real,
    h: spec_fn(int, int) -> real,
    k: int,
)
    requires
        forall|i: int, j: int| 0 <= i <= j < k ==> #[trigger] h(i, j) == f(i, j) + g(i, j),
    ensures
        triangle_sum(h, k) == triangle_sum(f, k) + triangle_sum(g, k),
    decreases k,
{
    if k > 0 {
        triangle_of_both(f, g, h, k - 1);
        let f1 = |i: int| f(i, k - 1);
        let g1 = |i: int| g(i, k - 1);
        let h1 = |i: int| h(i, k - 1);
        assert forall|i: int| 0 <= i < k implies #[trigger] h1(i) == f1(i) + g1(i) by {
            assert(h(i, k - 1) == f(i, k - 1) + g(i, k - 1));
        }
        sum_of_both(f1, g1, h1, k);
    }
}

/// In an exact arithmetic the weights of the starting hands behind an edge add up to one where
/// the dealer does not look: each hand stands in the tree once, with the chance of being dealt it.
pub proof fn law_edge_weighs_every_hand<N: Scalar, S: Shoe<N>>(
    val: spec_fn(N) -> real,
    order: Seq<Tally>,
    tree: Map<Tally, (N, MoveEvs<N>)>,
    b: Basis,
    rules: Ruleset,
    s: S::State,
    splits: Map<Tally, N>,
)
    requires
        exact(val),
        is_tree::<N, S>(tree, b, rules, s, splits),
        !b.conditional,
        order.no_duplicates(),
        forall|t: Tally| #[trigger] tree.contains_key(t) == order.contains(t),
        adds_up::<N, S>(val, s),
        forall|i: int|
            0 <= i < 10 && val(#[trigger] S::prob(s, card_at(i))) != 0real ==> adds_up::<N, S>(
                val,
                S::without(s, single(card_at(i))),
            ),
        only_fitting::<N, S>(val, s),
    ensures
        val(best_edge(order, tree).weight) == 1real,
{
    law_edge_falls_short_by_naturals::<N, S>(val, order, tree, b, rules, s, splits);
    let none = |i: int, j: int| 0real;
    let lost = |i: int, j: int| lost_to_naturals::<N, S>(val, b, s, i, j);
    nothing_adds_up(10);
    assert forall|i: int, j: int| 0 <= i <= j < 10 implies #[trigger] lost(i, j) == none(
        i,
        j,
    ) by {}
    same_triangles(none, lost, 10);
}

proof fn two_cards_are_small(i: int, j: int)
    requires
        0 <= i < 10,
        0 <= j < 10,
    ensures
        hard(two_cards(i, j)) <= 21,
{
    assert(hard(no_cards()) == 0);
    hard_with_n(no_cards(), i, 1);
    hard_with_n(single(card_at(i)), j, 1);
}

/// On the infinite deck the weights of the starting hands fall short of one by exactly the chance
/// of a dealer's natural against a hand that is none, and add up to one where the dealer does not
/// look.
pub proof fn law_infinite_edge_weighs_every_hand<N: Scalar>(
    val: spec_fn(N) -> real,
    order: Seq<Tally>,
    tree: Map<Tally, (N, MoveEvs<N>)>,
    b: Basis,
    rules: Ruleset,
    splits: Map<Tally, N>,
)
    requires
        exact(val),
        is_tree::<N, InfiniteDeck>(tree, b, rules, (), splits),
        order.no_duplicates(),
        forall|t: Tally| #[trigger] tree.contains_key(t) == order.contains(t),
    ensures
        val(best_edge(order, tree).weight) == 1real - triangle_sum(
            |i: int, j: int| lost_to_naturals::<N, InfiniteDeck>(val, b, (), i, j),
            10,
        ),
        !b.conditional ==> val(best_edge(order, tree).weight) == 1real,
{
    law_infinite_chances_add_up::<N>(val);
    law_edge_falls_short_by_naturals::<N, InfiniteDeck>(val, order, tree, b, rules, (), splits);
    if !b.conditional {
        law_edge_weighs_every_hand::<N, InfiniteDeck>(val, order, tree, b, rules, (), splits);
    }
}

/// On a finite shoe, as long as there are two cards to deal, the weights of the starting hands
/// fall short of one by exactly the chance of a dealer's natural against a hand that is none, and
/// add up to one where the dealer does not look.
pub proof fn law_finite_edge_weighs_every_hand<N: Scalar>(
    val: spec_fn(N) -> real,
    order: Seq<Tally>,
    tree: Map<Tally, (N, MoveEvs<N>)>,
    b: Basis,
    rules: Ruleset,
    deck: Tally,
    splits: Map<Tally, N>,
)
    requires
        exact(val),
        <CardCol as Shoe<N>>::sane(deck),
        size(deck) >= 2,
        is_tree::<N, CardCol>(tree, b, rules, deck, splits),
        order.no_duplicates(),
        forall|t: Tally| #[trigger] tree.contains_key(t) == order.contains(t),
    ensures
        val(best_edge(order, tree).weight) == 1real - triangle_sum(
            |i: int, j: int| lost_to_naturals::<N, CardCol>(val, b, deck, i, j),
            10,
        ),
        !b.conditional ==> val(best_edge(order, tree).weight) == 1real,
{
    law_finite_chances_add_up::<N>(val, deck);
    assert forall|i: int|
        0 <= i < 10 && val(#[trigger] <CardCol as Shoe<N>>::prob(deck, card_at(i)))
            != 0real implies adds_up::<N, CardCol>(
        val,
        <CardCol as Shoe<N>>::without(deck, single(card_at(i))),
    ) by {
        one_card_less::<N>(deck, i);
        law_finite_chances_add_up::<N>(val, taken(deck, single(card_at(i))));
    }
    assert forall|i: int, j: int|
        0 <= i <= j < 10 && !fits::<N, CardCol>(deck, #[trigger] two_cards(i, j)) implies val(
        chance::<N, CardCol>(deck, two_cards(i, j)),
    ) == 0real by {
        no_such_hand::<N>(val, deck, i, j);
    }
    law_edge_falls_short_by_naturals::<N, CardCol>(val, order, tree, b, rules, deck, splits);
    if !b.conditional {
        law_edge_weighs_every_hand::<N, CardCol>(val, order, tree, b, rules, deck, splits);
    }
}

/// A deck with a card less.
proof fn one_card_less<N: Scalar>(deck: Tally, i: int)
    requires
        <CardCol as Shoe<N>>::sane(deck),
        size(deck) >= 2,
        0 <= i < 10,
    ensures
        <CardCol as Shoe<N>>::sane(taken(deck, single(card_at(i)))),
        size(taken(deck, single(card_at(i)))) > 0,
{
    tally_of_one(i);
    let d = taken(deck, single(card_at(i)));
    if deck[i] > 0 {
        assert(deck =~= with_card(d, card_at(i))) by {
            crate::card::law_rank_round_trip(card_at(i), i);
        }
        hard_with_n(d, i, 1);
    } else {
        assert(deck =~= d);
    }
}

/// A card that is not there has no chance.
proof fn absent_card<N: Scalar>(val: spec_fn(N) -> real, deck: Tally, i: int)
    requires
        exact(val),
        <CardCol as Shoe<N>>::sane(deck),
        size(deck) > 0,
        0 <= i < 10,
        deck[i] == 0,
    ensures
        val(<CardCol as Shoe<N>>::prob(deck, card_at(i))) == 0real,
{
    crate::card::law_rank_round_trip(card_at(i), i);
    assert(size(deck) <= 10 * u16::MAX);
    let den = size(deck) as i64;
    let d = (den as int) as real;
    assert(val(N::ratio_spec(0, den)) == (0i64 as int) as real / d);
    assert(0real / d == 0real) by (nonlinear_arith)
        requires
            d > 0real,
    ;
}

/// Two cards that a deck does not hold have no chance.
proof fn no_such_hand<N: Scalar>(val: spec_fn(N) -> real, deck: Tally, i: int, j: int)
    requires
        exact(val),
        <CardCol as Shoe<N>>::sane(deck),
        size(deck) >= 2,
        0 <= i <= j < 10,
        !fits::<N, CardCol>(deck, two_cards(i, j)),
    ensures
        val(chance::<N, CardCol>(deck, two_cards(i, j))) == 0real,
{
    chance_of_two::<N, CardCol>(val, deck, i, j);
    tally_of_two(i, j);
    no_turn::<N>(val, deck, i, j);
    no_turn::<N>(val, deck, j, i);
}

proof fn no_turn<N: Scalar>(val: spec_fn(N) -> real, deck: Tally, i: int, j: int)
    requires
        exact(val),
        <CardCol as Shoe<N>>::sane(deck),
        size(deck) >= 2,
        0 <= i < 10,
        0 <= j < 10,
        deck[i] == 0 || deck[j] < if i == j {
            2int
        } else {
            1
        },
    ensures
        in_turn::<N, CardCol>(val, deck, i, j) == 0real,
{
    one_card_less::<N>(deck, i);
    tally_of_one(i);
    let d = taken(deck, single(card_at(i)));
    let x = val(<CardCol as Shoe<N>>::prob(deck, card_at(i)));
    let y = val(<CardCol as Shoe<N>>::prob(d, card_at(j)));
    if deck[i] == 0 {
        absent_card::<N>(val, deck, i);
        assert(0real * y == 0real) by (nonlinear_arith);
    } else {
        assert(d[j] == 0);
        absent_card::<N>(val, d, j);
        assert(x * 0real == 0real) by (nonlinear_arith);
    }
}

} // verus!
