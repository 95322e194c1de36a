//! What the chances of hands come to, as numbers.
use crate::card::card_at;
use crate::combinat::{hand_picks, hand_picks_upto, law_picks_absorb, picks};
use crate::drawing::{chance, chance_upto, InfiniteDeck, Shoe};
use crate::exact::{exact, exact_whole};
use crate::handlaws::{orders, real_product};
use crate::num::{is_nil, Scalar};
use crate::partitions::hard_monotone;
use crate::shoe::{no_cards, single, size, taken, with_card, within, CardCol, Tally};
use vstd::prelude::*;

verus! {

/// The sum of the first `k` values of a function.
pub open spec fn sum_upto(f: spec_fn(int) -> real, k: int) -> real
    decreases k,
{
    if k <= 0 {
        0real
    } else {
        sum_upto(f, k - 1) + f(k - 1)
    }
}

/// The sum over the places of a triangle: those whose row is not behind their column.
pub open spec fn triangle_sum(f: spec_fn(int, int) -> real, k: int) -> real
    decreases k,
{
    if k <= 0 {
        0real
    } else {
        triangle_sum(f, k - 1) + sum_upto(|i: int| f(i, k - 1), k)
    }
}

/// The hand of two cards by their ranks.
pub open spec fn two_cards(i: int, j: int) -> Tally {
    with_card(single(card_at(i)), card_at(j))
}

/// The chance that one card comes and then another.
pub open spec fn in_turn<N: Scalar, S: Shoe<N>>(val: spec_fn(N) -> real, s: S::State, i: int, j: int) -> real {
    val(S::prob(s, card_at(i))) * val(S::prob(S::without(s, single(card_at(i))), card_at(j)))
}

/// Whether the chances of the next card add up to one.
pub open spec fn adds_up<N: Scalar, S: Shoe<N>>(val: spec_fn(N) -> real, s: S::State) -> bool {
    sum_upto(|i: int| val(S::prob(s, card_at(i))), 10) == 1real
}

/// The tally of one card.
pub proof fn tally_of_one(j: int)
    requires
        0 <= j < 10,
    ensures
        single(card_at(j)).len() == 10,
        forall|k: int|
            0 <= k < 10 ==> #[trigger] single(card_at(j))[k] == if k == j {
                1nat
            } else {
                0
            },
        taken(single(card_at(j)), single(card_at(j))) == no_cards(),
        size(no_cards()) == 0,
{
    crate::card::law_rank_round_trip(card_at(j), j);
    assert(taken(single(card_at(j)), single(card_at(j))) =~= no_cards());
}

pub proof fn one_card_is_one(j: int)
    requires
        0 <= j < 10,
    ensures
        size(single(card_at(j))) == 1,
{
    assert(size(no_cards()) == 0);
    crate::partitions::hard_with_n(no_cards(), j, 1);
}

/// The tally of two cards.
pub proof fn tally_of_two(i: int, j: int)
    requires
        0 <= i < 10,
        0 <= j < 10,
    ensures
        two_cards(i, j).len() == 10,
        forall|k: int|
            0 <= k < 10 ==> #[trigger] two_cards(i, j)[k] == (if k == i {
                1nat
            } else {
                0
            }) + (if k == j {
                1nat
            } else {
                0
            }),
        taken(two_cards(i, j), single(card_at(i))) == single(card_at(j)),
        taken(two_cards(i, j), single(card_at(j))) == single(card_at(i)),
{
    tally_of_one(i);
    tally_of_one(j);
    crate::card::law_rank_round_trip(card_at(j), j);
    assert(taken(two_cards(i, j), single(card_at(i))) =~= single(card_at(j)));
    assert(taken(two_cards(i, j), single(card_at(j))) =~= single(card_at(i)));
}

pub proof fn two_cards_are_two(i: int, j: int)
    requires
        0 <= i < 10,
        0 <= j < 10,
    ensures
        size(two_cards(i, j)) == 2,
{
    one_card_is_one(i);
    crate::partitions::hard_with_n(single(card_at(i)), j, 1);
}

/// The chance of one card.
proof fn one_card_upto<N: Scalar, S: Shoe<N>>(val: spec_fn(N) -> real, s: S::State, j: int, k: int)
    requires
        exact(val),
        0 <= j < 10,
        0 <= k <= 10,
    ensures
        val(chance_upto::<N, S>(s, single(card_at(j)), k)) == if j < k {
            val(S::prob(s, card_at(j)))
        } else {
            0real
        },
    decreases k,
{
    exact_whole::<N>(val, 0);
    exact_whole::<N>(val, 1);
    tally_of_one(j);
    if k > 0 {
        one_card_upto::<N, S>(val, s, j, k - 1);
        let p = S::prob(s, card_at(k - 1));
        if k - 1 == j {
            assert(single(card_at(j))[k - 1] == 1);
            if is_nil(p) {
                assert(val(p) == 0real);
            } else {
                let x = val(p);
                let next = S::without(s, single(card_at(j)));
                assert(chance::<N, S>(next, no_cards()) == crate::num::one::<N>());
                assert(x * 1real == x) by (nonlinear_arith);
            }
        } else {
            assert(single(card_at(j))[k - 1] == 0);
        }
    }
}

proof fn two_cards_upto<N: Scalar, S: Shoe<N>>(
    val: spec_fn(N) -> real,
    s: S::State,
    i: int,
    j: int,
    k: int,
)
    requires
        exact(val),
        0 <= i < 10,
        0 <= j < 10,
        0 <= k <= 10,
    ensures
        val(chance_upto::<N, S>(s, two_cards(i, j), k)) == (if i < k {
            in_turn::<N, S>(val, s, i, j)
        } else {
            0real
        }) + (if j < k && i != j {
            in_turn::<N, S>(val, s, j, i)
        } else {
            0real
        }),
    decreases k,
{
    exact_whole::<N>(val, 0);
    tally_of_two(i, j);
    if k > 0 {
        two_cards_upto::<N, S>(val, s, i, j, k - 1);
        let p = S::prob(s, card_at(k - 1));
        let next = S::without(s, single(card_at(k - 1)));
        if k - 1 == i || k - 1 == j {
            let other = if k - 1 == i {
                j
            } else {
                i
            };
            assert(two_cards(i, j)[k - 1] > 0);
            one_card_upto::<N, S>(val, next, other, 10);
            one_card_is_one(other);
            assert(chance::<N, S>(next, single(card_at(other))) == chance_upto::<N, S>(
                next,
                single(card_at(other)),
                10,
            ));
            let y = val(S::prob(next, card_at(other)));
            if is_nil(p) {
                assert(val(p) == 0real);
                assert(0real * y == 0real) by (nonlinear_arith);
            }
        } else {
            assert(two_cards(i, j)[k - 1] == 0);
        }
    }
}

/// The chance of two cards: one and then the other, in either order.
pub proof fn chance_of_two<N: Scalar, S: Shoe<N>>(val: spec_fn(N) -> real, s: S::State, i: int, j: int)
    requires
        exact(val),
        0 <= i < 10,
        0 <= j < 10,
    ensures
        val(chance::<N, S>(s, two_cards(i, j))) == in_turn::<N, S>(val, s, i, j) + if i == j {
            0real
        } else {
            in_turn::<N, S>(val, s, j, i)
        },
{
    tally_of_two(i, j);
    two_cards_are_two(i, j);
    two_cards_upto::<N, S>(val, s, i, j, 10);
}

/// Sums of two functions.
pub proof fn sum_of_both(
    f: spec_fn(int) -> real,
    g: spec_fn(int) -> real,
    h: spec_fn(int) -> real,
    k: int,
)
    requires
        forall|i: int| 0 <= i < k ==> #[trigger] h(i) == f(i) + g(i),
    ensures
        sum_upto(h, k) == sum_upto(f, k) + sum_upto(g, k),
    decreases k,
{
    if k > 0 {
        sum_of_both(f, g, h, k - 1);
        assert(h(k - 1) == f(k - 1) + g(k - 1));
    }
}

pub proof fn sum_of_same(f: spec_fn(int) -> real, g: spec_fn(int) -> real, k: int)
    requires
        forall|i: int| 0 <= i < k ==> #[trigger] f(i) == g(i),
    ensures
        sum_upto(f, k) == sum_upto(g, k),
    decreases k,
{
    if k > 0 {
        sum_of_same(f, g, k - 1);
        assert(f(k - 1) == g(k - 1));
    }
}

/// The sum over the places of a square.
spec fn square_sum(f: spec_fn(int, int) -> real, k: int) -> real {
    sum_upto(|i: int| sum_upto(|j: int| f(i, j), k), k)
}

/// A square is the triangle of its places and their mirror images.
proof fn square_is_triangle(f: spec_fn(int, int) -> real, g: spec_fn(int, int) -> real, k: int)
    requires
        0 <= k,
        forall|i: int, j: int|
            0 <= i <= j < k ==> #[trigger] g(i, j) == f(i, j) + if i == j {
                0real
            } else {
                f(j, i)
            },
    ensures
        square_sum(f, k) == triangle_sum(g, k),
    decreases k,
{
    if k > 0 {
        let m = k - 1;
        square_is_triangle(f, g, m);
        let rows = |i: int| sum_upto(|j: int| f(i, j), k);
        let short = |i: int| sum_upto(|j: int| f(i, j), m);
        let column = |i: int| f(i, m);
        let last = |j: int| f(m, j);
        assert forall|i: int| 0 <= i < m implies #[trigger] rows(i) == short(i) + column(i) by {
            let row = |j: int| f(i, j);
            assert(sum_upto(row, k) == sum_upto(row, m) + row(m));
        }
        sum_of_both(short, column, rows, m);
        assert(sum_upto(rows, k) == sum_upto(rows, m) + rows(m));
        assert(rows(m) == sum_upto(last, m) + last(m)) by {
            let row = |j: int| f(m, j);
            assert(row =~= last);
            assert(sum_upto(row, k) == sum_upto(row, m) + row(m));
        }
        let edge = |i: int| g(i, m);
        sum_of_both(column, last, edge, m);
        assert(edge(m) == f(m, m));
        assert(sum_upto(edge, k) == sum_upto(edge, m) + edge(m));
        assert(triangle_sum(g, k) == triangle_sum(g, m) + sum_upto(|i: int| g(i, k - 1), k));
        assert((|i: int| g(i, k - 1)) =~= edge);
        assert(square_sum(f, k) == sum_upto(rows, k));
        assert(square_sum(f, m) == sum_upto(short, m));
    }
}

proof fn scaled_sum(f: spec_fn(int) -> real, x: real, h: spec_fn(int) -> real, k: int)
    requires
        forall|i: int| 0 <= i < k ==> #[trigger] h(i) == x * f(i),
    ensures
        sum_upto(h, k) == x * sum_upto(f, k),
    decreases k,
{
    if k > 0 {
        scaled_sum(f, x, h, k - 1);
        assert(h(k - 1) == x * f(k - 1));
        let a = sum_upto(f, k - 1);
        let b = f(k - 1);
        assert(x * (a + b) == x * a + x * b) by (nonlinear_arith);
    } else {
        assert(x * 0real == 0real) by (nonlinear_arith);
    }
}

/// In an exact arithmetic the chances of all hands of two cards add up to one, where those of
/// the first card do and, whatever it was, those of the second.
pub proof fn law_starting_hands_add_up<N: Scalar, S: Shoe<N>>(val: spec_fn(N) -> real, s: S::State)
    requires
        exact(val),
        adds_up::<N, S>(val, s),
        forall|i: int|
            0 <= i < 10 && val(#[trigger] S::prob(s, card_at(i))) != 0real ==> adds_up::<N, S>(
                val,
                S::without(s, single(card_at(i))),
            ),
    ensures
        triangle_sum(|i: int, j: int| val(chance::<N, S>(s, two_cards(i, j))), 10) == 1real,
{
    let f = |i: int, j: int| in_turn::<N, S>(val, s, i, j);
    let g = |i: int, j: int| val(chance::<N, S>(s, two_cards(i, j)));
    assert forall|i: int, j: int| 0 <= i <= j < 10 implies #[trigger] g(i, j) == f(i, j) + if i == j {
        0real
    } else {
        f(j, i)
    } by {
        chance_of_two::<N, S>(val, s, i, j);
    }
    square_is_triangle(f, g, 10);
    let rows = |i: int| sum_upto(|j: int| f(i, j), 10);
    let first = |i: int| val(S::prob(s, card_at(i)));
    assert forall|i: int| 0 <= i < 10 implies #[trigger] rows(i) == first(i) by {
        let next = S::without(s, single(card_at(i)));
        let second = |j: int| val(S::prob(next, card_at(j)));
        let row = |j: int| f(i, j);
        let x = val(S::prob(s, card_at(i)));
        scaled_sum(second, x, row, 10);
        if x == 0real {
            let y = sum_upto(second, 10);
            assert(0real * y == 0real) by (nonlinear_arith);
        } else {
            assert(adds_up::<N, S>(val, next));
            assert(x * 1real == x) by (nonlinear_arith);
        }
    }
    sum_of_same(rows, first, 10);
}

/// One card of a rank taken from a hand and from the deck.
proof fn picks_without(hand: Tally, deck: Tally, r: int, k: int)
    requires
        hand.len() == 10,
        deck.len() == 10,
        0 <= r < 10,
        0 <= k <= 10,
        hand[r] > 0,
        deck[r] > 0,
    ensures
        ({
            let h = taken(hand, single(card_at(r)));
            let d = taken(deck, single(card_at(r)));
            (if r < k {
                deck[r] as int
            } else {
                1
            }) * hand_picks_upto(h, d, k) == (if r < k {
                hand[r] as int
            } else {
                1
            }) * hand_picks_upto(hand, deck, k)
        }),
    decreases k,
{
    let h = taken(hand, single(card_at(r)));
    let d = taken(deck, single(card_at(r)));
    tally_of_one(r);
    if k > 0 {
        picks_without(hand, deck, r, k - 1);
        let a = hand_picks_upto(h, d, k - 1) as int;
        let b = hand_picks_upto(hand, deck, k - 1) as int;
        let p = picks(d[k - 1] as int, h[k - 1] as int) as int;
        let q = picks(deck[k - 1] as int, hand[k - 1] as int) as int;
        if k - 1 == r {
            law_picks_absorb(deck[r] as int, hand[r] as int);
            let n = deck[r] as int;
            let m = hand[r] as int;
            assert(d[r] == n - 1 && h[r] == m - 1);
            assert(m * q == n * p);
            assert(n * (a * p) == m * (a * q)) by (nonlinear_arith)
                requires
                    m * q == n * p,
            ;
            assert(a == b);
        } else {
            assert(d[k - 1] == deck[k - 1] && h[k - 1] == hand[k - 1]);
            if r < k - 1 {
                let n = deck[r] as int;
                let m = hand[r] as int;
                assert(n * (a * q) == m * (b * q)) by (nonlinear_arith)
                    requires
                        n * a == m * b,
                ;
            }
        }
    }
}

/// The cards of the first `k` ranks of a hand.
spec fn cards_upto(hand: Tally, k: int) -> nat
    decreases k,
{
    if k <= 0 {
        0
    } else {
        cards_upto(hand, k - 1) + hand[k - 1]
    }
}

/// In an exact arithmetic the chance that the next cards of a finite shoe are those of a hand is
/// that of the hypergeometric distribution: the ways to pick the hand over the ways to pick as
/// many cards.
pub proof fn law_chance_is_hypergeometric<N: Scalar>(
    val: spec_fn(N) -> real,
    deck: Tally,
    hand: Tally,
)
    requires
        exact(val),
        <CardCol as Shoe<N>>::sane(deck),
        hand.len() == 10,
        within(hand, deck),
    ensures
        val(chance::<N, CardCol>(deck, hand)) * (picks(
            size(deck) as int,
            size(hand) as int,
        ) as int) as real == (hand_picks(hand, deck) as int) as real,
    decreases size(hand), 11int,
{
    exact_whole::<N>(val, 1);
    hard_monotone(hand, deck);
    if size(hand) == 0 {
        assert(hand =~= no_cards()) by {
            assert(hand[0] == 0 && hand[1] == 0 && hand[2] == 0 && hand[3] == 0 && hand[4] == 0
                && hand[5] == 0 && hand[6] == 0 && hand[7] == 0 && hand[8] == 0 && hand[9] == 0);
        }
        nothing_to_pick(deck, 10);
        assert(picks(size(deck) as int, 0) == 1);
        assert(1real * 1real == 1real) by (nonlinear_arith);
    } else {
        chance_value_upto::<N>(val, deck, hand, 10);
        assert(cards_upto(hand, 10) == size(hand)) by {
            reveal_with_fuel(cards_upto, 11);
        }
        let n = size(deck) as int;
        let h = size(hand) as int;
        law_picks_absorb(n, h);
        let x = val(chance::<N, CardCol>(deck, hand));
        let c = (picks(n, h) as int) as real;
        let c1 = (picks(n - 1, h - 1) as int) as real;
        let q = (hand_picks(hand, deck) as int) as real;
        real_product(h, picks(n, h) as int);
        real_product(n, picks(n - 1, h - 1) as int);
        real_product(h, hand_picks(hand, deck) as int);
        let hr = h as real;
        let nr = n as real;
        assert(hr * c == nr * c1);
        assert(x * (nr * c1) == hr * q);
        assert(x * c == q) by (nonlinear_arith)
            requires
                x * (hr * c) == hr * q,
                hr > 0real,
        ;
    }
}

proof fn nothing_to_pick(deck: Tally, k: int)
    requires
        0 <= k <= 10,
    ensures
        hand_picks_upto(no_cards(), deck, k) == 1,
    decreases k,
{
    if k > 0 {
        nothing_to_pick(deck, k - 1);
        assert(no_cards()[k - 1] == 0);
        assert(picks(deck[k - 1] as int, no_cards()[k - 1] as int) == 1);
        assert(1nat * 1 == 1);
    }
}

proof fn chance_value_upto<N: Scalar>(val: spec_fn(N) -> real, deck: Tally, hand: Tally, k: int)
    requires
        exact(val),
        <CardCol as Shoe<N>>::sane(deck),
        hand.len() == 10,
        within(hand, deck),
        size(hand) > 0,
        0 <= k <= 10,
    ensures
        val(chance_upto::<N, CardCol>(deck, hand, k)) * ((size(deck) as int) as real * (picks(
            size(deck) - 1,
            size(hand) - 1,
        ) as int) as real) == (cards_upto(hand, k) as int) as real * (hand_picks(
            hand,
            deck,
        ) as int) as real,
    decreases size(hand), k,
{
    exact_whole::<N>(val, 0);
    hard_monotone(hand, deck);
    let n = size(deck) as int;
    let c = (picks(n - 1, size(hand) - 1) as int) as real;
    let nr = n as real;
    let q = (hand_picks(hand, deck) as int) as real;
    if k <= 0 {
        assert(0real * (nr * c) == 0real && 0real * q == 0real) by (nonlinear_arith);
    } else {
        chance_value_upto::<N>(val, deck, hand, k - 1);
        let r = k - 1;
        let before = val(chance_upto::<N, CardCol>(deck, hand, r));
        let s = (cards_upto(hand, r) as int) as real;
        assert(hand[r] <= deck[r]);
        if hand[r] > 0 {
            let p = <CardCol as Shoe<N>>::prob(deck, card_at(r));
            let dr = (deck[r] as int) as real;
            crate::card::law_rank_round_trip(card_at(r), r);
            assert(size(deck) <= 10 * u16::MAX);
            assert(val(N::ratio_spec(deck[r] as i64, n as i64)) == ((deck[r] as i64) as int) as real
                / ((n as i64) as int) as real);
            assert(val(p) == dr / nr);
            assert(dr / nr != 0real) by (nonlinear_arith)
                requires
                    dr > 0real,
                    nr > 0real,
            ;
            taken_within::<N>(hand, deck, r);
            let h1 = taken(hand, single(card_at(r)));
            let d1 = taken(deck, single(card_at(r)));
            law_chance_is_hypergeometric::<N>(val, d1, h1);
            picks_without(hand, deck, r, 10);
            let x = val(chance::<N, CardCol>(d1, h1));
            let q1 = (hand_picks(h1, d1) as int) as real;
            let m = (hand[r] as int) as real;
            real_product(deck[r] as int, hand_picks(h1, d1) as int);
            real_product(hand[r] as int, hand_picks(hand, deck) as int);
            assert(dr * q1 == m * q);
            assert(x * c == q1);
            let y = dr / nr;
            assert(y * nr == dr) by (nonlinear_arith)
                requires
                    y == dr / nr,
                    nr > 0real,
            ;
            assert((y * x) * (nr * c) == (y * nr) * (x * c)) by (nonlinear_arith);
            let z = y * x;
            let w = nr * c;
            assert((before + z) * w == before * w + z * w) by (nonlinear_arith);
            assert((s + m) * q == s * q + m * q) by (nonlinear_arith);
        }
    }
}

/// A hand and a deck with one card less each.
proof fn taken_within<N: Scalar>(hand: Tally, deck: Tally, r: int)
    requires
        <CardCol as Shoe<N>>::sane(deck),
        hand.len() == 10,
        within(hand, deck),
        0 <= r < 10,
        hand[r] > 0,
    ensures
        ({
            let h = taken(hand, single(card_at(r)));
            let d = taken(deck, single(card_at(r)));
            &&& h.len() == 10
            &&& <CardCol as Shoe<N>>::sane(d)
            &&& within(h, d)
            &&& size(h) == size(hand) - 1
            &&& size(d) == size(deck) - 1
        }),
{
    let h = taken(hand, single(card_at(r)));
    let d = taken(deck, single(card_at(r)));
    tally_of_one(r);
    assert(hand[r] <= deck[r]);
    assert forall|i: int| 0 <= i < 10 implies #[trigger] h[i] <= d[i] by {
        assert(hand[i] <= deck[i]);
    }
    assert(hand =~= with_card(h, card_at(r))) by {
        crate::card::law_rank_round_trip(card_at(r), r);
    }
    assert(deck =~= with_card(d, card_at(r))) by {
        crate::card::law_rank_round_trip(card_at(r), r);
    }
    crate::partitions::hard_with_n(h, r, 1);
    crate::partitions::hard_with_n(d, r, 1);
}

/// A number to a power.
pub open spec fn power(x: real, n: nat) -> real
    decreases n,
{
    if n == 0 {
        1real
    } else {
        power(x, (n - 1) as nat) * x
    }
}

/// The product of the chances of the cards of the first `k` ranks of a hand.
pub open spec fn chances_upto<N: Scalar>(val: spec_fn(N) -> real, hand: Tally, k: int) -> real
    decreases k,
{
    if k <= 0 {
        1real
    } else {
        chances_upto(val, hand, k - 1) * power(
            val(<InfiniteDeck as Shoe<N>>::prob((), card_at(k - 1))),
            hand[k - 1],
        )
    }
}

/// In how many orders the cards of each of the first `k` ranks of a hand can come among
/// themselves.
pub open spec fn orders_upto(hand: Tally, k: int) -> nat
    decreases k,
{
    if k <= 0 {
        1
    } else {
        orders_upto(hand, k - 1) * orders(hand[k - 1])
    }
}

/// One card less in both products.
proof fn products_without<N: Scalar>(val: spec_fn(N) -> real, hand: Tally, r: int, k: int)
    requires
        hand.len() == 10,
        0 <= r < 10,
        0 <= k <= 10,
        hand[r] > 0,
    ensures
        ({
            let h = taken(hand, single(card_at(r)));
            let p = val(<InfiniteDeck as Shoe<N>>::prob((), card_at(r)));
            &&& chances_upto(val, hand, k) == chances_upto(val, h, k) * if r < k {
                p
            } else {
                1real
            }
            &&& orders_upto(hand, k) == orders_upto(h, k) * if r < k {
                hand[r] as int
            } else {
                1
            }
        }),
    decreases k,
{
    let h = taken(hand, single(card_at(r)));
    tally_of_one(r);
    if k > 0 {
        products_without(val, hand, r, k - 1);
        let a = chances_upto(val, h, k - 1);
        let c = orders_upto(h, k - 1) as int;
        let p = val(<InfiniteDeck as Shoe<N>>::prob((), card_at(r)));
        let u = power(val(<InfiniteDeck as Shoe<N>>::prob((), card_at(k - 1))), h[k - 1]);
        let v = orders(h[k - 1]) as int;
        let m = hand[r] as int;
        if k - 1 == r {
            assert(h[r] == hand[r] - 1);
            assert((a * 1real) * (u * p) == (a * u) * p) by (nonlinear_arith);
            assert((c * 1) * (v * m) == (c * v) * m) by (nonlinear_arith);
        } else {
            assert(h[k - 1] == hand[k - 1]);
            if r < k - 1 {
                assert((a * p) * u == (a * u) * p) by (nonlinear_arith);
                assert((c * m) * v == (c * v) * m) by (nonlinear_arith);
            } else {
                assert((a * 1real) * u == (a * u) * 1real) by (nonlinear_arith);
                assert((c * 1) * v == (c * v) * 1) by (nonlinear_arith);
            }
        }
    } else {
        assert(1real * 1real == 1real) by (nonlinear_arith);
    }
}

/// In an exact arithmetic the chance that the next cards of the infinite deck are those of a hand
/// is that of the multinomial distribution: the product of their chances, times the orders in
/// which they can come, over those in which the cards of each rank can among themselves.
pub proof fn law_chance_is_multinomial<N: Scalar>(val: spec_fn(N) -> real, hand: Tally)
    requires
        exact(val),
        hand.len() == 10,
        size(hand) <= i64::MAX,
    ensures
        val(chance::<N, InfiniteDeck>((), hand)) * (orders_upto(hand, 10) as int) as real == (orders(
            size(hand),
        ) as int) as real * chances_upto(val, hand, 10),
    decreases size(hand), 11int,
{
    exact_whole::<N>(val, 1);
    if size(hand) == 0 {
        assert(hand =~= no_cards()) by {
            assert(hand[0] == 0 && hand[1] == 0 && hand[2] == 0 && hand[3] == 0 && hand[4] == 0
                && hand[5] == 0 && hand[6] == 0 && hand[7] == 0 && hand[8] == 0 && hand[9] == 0);
        }
        nothing_to_draw(val, 10);
        assert(1real * 1real == 1real) by (nonlinear_arith);
    } else {
        multinomial_upto::<N>(val, hand, 10);
        assert(cards_upto(hand, 10) == size(hand)) by {
            reveal_with_fuel(cards_upto, 11);
        }
        let h = size(hand);
        real_product(orders((h - 1) as nat) as int, h as int);
        let o = (orders((h - 1) as nat) as int) as real;
        let hr = (h as int) as real;
        assert(hr * o == o * hr) by (nonlinear_arith);
    }
}

proof fn nothing_to_draw<N: Scalar>(val: spec_fn(N) -> real, k: int)
    requires
        0 <= k <= 10,
    ensures
        chances_upto(val, no_cards(), k) == 1real,
        orders_upto(no_cards(), k) == 1,
    decreases k,
{
    if k > 0 {
        nothing_to_draw(val, k - 1);
        assert(no_cards()[k - 1] == 0);
        assert(1real * 1real == 1real) by (nonlinear_arith);
        assert(1nat * 1 == 1);
    }
}

proof fn multinomial_upto<N: Scalar>(val: spec_fn(N) -> real, hand: Tally, k: int)
    requires
        exact(val),
        hand.len() == 10,
        0 < size(hand) <= i64::MAX,
        0 <= k <= 10,
    ensures
        val(chance_upto::<N, InfiniteDeck>((), hand, k)) * (orders_upto(hand, 10) as int) as real
            == ((cards_upto(hand, k) as int) as real * (orders((size(hand) - 1) as nat) as int) as real)
            * chances_upto(val, hand, 10),
    decreases size(hand), k,
{
    exact_whole::<N>(val, 0);
    let all = (orders_upto(hand, 10) as int) as real;
    let o = (orders((size(hand) - 1) as nat) as int) as real;
    let q = chances_upto(val, hand, 10);
    if k <= 0 {
        assert(0real * all == 0real && (0real * o) * q == 0real) by (nonlinear_arith);
    } else {
        multinomial_upto::<N>(val, hand, k - 1);
        let r = k - 1;
        let before = val(chance_upto::<N, InfiniteDeck>((), hand, r));
        let s = (cards_upto(hand, r) as int) as real;
        if hand[r] > 0 {
            let p = val(<InfiniteDeck as Shoe<N>>::prob((), card_at(r)));
            let h1 = taken(hand, single(card_at(r)));
            tally_of_one(r);
            assert(hand =~= with_card(h1, card_at(r))) by {
                crate::card::law_rank_round_trip(card_at(r), r);
            }
            crate::partitions::hard_with_n(h1, r, 1);
            law_chance_is_multinomial::<N>(val, h1);
            products_without(val, hand, r, 10);
            let x = val(chance::<N, InfiniteDeck>((), h1));
            let o1 = (orders_upto(h1, 10) as int) as real;
            let q1 = chances_upto(val, h1, 10);
            let m = (hand[r] as int) as real;
            real_product(orders_upto(h1, 10) as int, hand[r] as int);
            assert(all == o1 * m);
            assert(q == q1 * p);
            assert(x * o1 == o * q1);
            one_more_draw(p, x, o1, m, o, q1);
            let z = p * x;
            assert((before + z) * all == before * all + z * all) by (nonlinear_arith);
            assert((s + m) * o == s * o + m * o) by (nonlinear_arith);
            let a = s * o;
            let b = m * o;
            assert((a + b) * q == a * q + b * q) by (nonlinear_arith);
            if is_nil(<InfiniteDeck as Shoe<N>>::prob((), card_at(r))) {
                assert(p == 0real);
                assert(0real * x == 0real) by (nonlinear_arith);
                assert(0real * all == 0real) by (nonlinear_arith);
            }
        }
    }
}

proof fn one_more_draw(p: real, x: real, o1: real, m: real, o: real, q1: real)
    requires
        x * o1 == o * q1,
    ensures
        (p * x) * (o1 * m) == (m * o) * (q1 * p),
{
    assert((p * x) * (o1 * m) == (x * o1) * (p * m)) by (nonlinear_arith);
    assert((o * q1) * (p * m) == (m * o) * (q1 * p)) by (nonlinear_arith);
}

/// In an exact arithmetic the chances of the next card of a finite shoe add up to one, as long as
/// there is one.
pub proof fn law_finite_chances_add_up<N: Scalar>(val: spec_fn(N) -> real, deck: Tally)
    requires
        exact(val),
        <CardCol as Shoe<N>>::sane(deck),
        size(deck) > 0,
    ensures
        adds_up::<N, CardCol>(val, deck),
{
    shares_upto::<N>(val, deck, 10);
    assert(cards_upto(deck, 10) == size(deck)) by {
        reveal_with_fuel(cards_upto, 11);
    }
    let x = sum_upto(|i: int| val(<CardCol as Shoe<N>>::prob(deck, card_at(i))), 10);
    let n = (size(deck) as int) as real;
    assert(x == 1real) by (nonlinear_arith)
        requires
            x * n == n,
            n > 0real,
    ;
}

proof fn shares_upto<N: Scalar>(val: spec_fn(N) -> real, deck: Tally, k: int)
    requires
        exact(val),
        <CardCol as Shoe<N>>::sane(deck),
        size(deck) > 0,
        0 <= k <= 10,
    ensures
        sum_upto(|i: int| val(<CardCol as Shoe<N>>::prob(deck, card_at(i))), k) * (size(
            deck,
        ) as int) as real == (cards_upto(deck, k) as int) as real,
    decreases k,
{
    let f = |i: int| val(<CardCol as Shoe<N>>::prob(deck, card_at(i)));
    let n = (size(deck) as int) as real;
    if k > 0 {
        shares_upto::<N>(val, deck, k - 1);
        let r = k - 1;
        crate::card::law_rank_round_trip(card_at(r), r);
        assert(size(deck) <= 10 * u16::MAX);
        assert(deck[r] <= u16::MAX);
        let d = (deck[r] as int) as real;
        let num = deck[r] as i64;
        let den = size(deck) as i64;
        assert(val(N::ratio_spec(num, den)) == (num as int) as real / (den as int) as real);
        assert(f(r) == d / n);
        let x = sum_upto(f, r);
        let y = d / n;
        assert(y * n == d) by (nonlinear_arith)
            requires
                y == d / n,
                n > 0real,
        ;
        assert((x + y) * n == x * n + y * n) by (nonlinear_arith);
    } else {
        assert(0real * n == 0real) by (nonlinear_arith);
    }
}

/// In an exact arithmetic the chances of the next card of the infinite deck add up to one.
pub proof fn law_infinite_chances_add_up<N: Scalar>(val: spec_fn(N) -> real)
    requires
        exact(val),
    ensures
        adds_up::<N, InfiniteDeck>(val, ()),
{
    let f = |i: int| val(<InfiniteDeck as Shoe<N>>::prob((), card_at(i)));
    assert(val(N::ratio_spec(1, 13)) == (1i64 as int) as real / (13i64 as int) as real);
    assert(val(N::ratio_spec(4, 13)) == (4i64 as int) as real / (13i64 as int) as real);
    assert forall|i: int| 0 <= i < 9 implies #[trigger] f(i) == 1real / 13real by {
        crate::card::law_rank_round_trip(card_at(i), i);
    }
    assert(f(9) == 4real / 13real);
    reveal_with_fuel(sum_upto, 11);
    assert(sum_upto(f, 10) == f(0) + f(1) + f(2) + f(3) + f(4) + f(5) + f(6) + f(7) + f(8) + f(9));
}

} // verus!
