//! What the weights of hands come to, as numbers: the chances of the hypergeometric
//! distribution.
use crate::combinat::{
    hand_picks, hand_picks_upto, law_picks_absorb, picks,
};
use crate::drawing::Shoe;
use crate::exact::{exact, exact_whole};
use crate::num::Scalar;
use crate::partitions::{
    factorial, finite_level, finite_supply, left_at, lowest_from, scan_path, scan_weight,
};
use crate::shoe::{size, within, CardCol, Tally};
use vstd::prelude::*;

verus! {

/// In how many ways `k` of `n` things can be drawn one after the other.
pub open spec fn falling(n: int, k: nat) -> nat
    decreases k,
{
    if k == 0 {
        1
    } else {
        falling(n, (k - 1) as nat) * ((n - k + 1) as nat)
    }
}

/// In how many orders `n` things can come.
pub open spec fn orders(n: nat) -> nat
    decreases n,
{
    if n == 0 {
        1
    } else {
        orders((n - 1) as nat) * n
    }
}

/// Drawing `k` of `n` things is picking them and bringing them into an order.
pub proof fn law_draws_are_picks_in_order(n: int, k: nat)
    requires
        k <= n,
    ensures
        falling(n, k) == orders(k) * picks(n, k as int),
    decreases k,
{
    if k > 0 {
        let j = (k - 1) as nat;
        law_draws_are_picks_in_order(n, j);
        law_next_pick(n, k as int);
        let o = orders(j) as int;
        let p = picks(n, j as int) as int;
        let q = picks(n, k as int) as int;
        let m = n - j;
        let kk = k as int;
        assert((o * p) * m == (o * kk) * q) by (nonlinear_arith)
            requires
                kk * q == m * p,
        ;
    } else {
        assert(picks(n, 0) == 1);
    }
}

/// One more pick: `k` times the picks of `k` are the picks of `k - 1` times what is left.
pub proof fn law_next_pick(n: int, k: int)
    requires
        1 <= k <= n,
    ensures
        k * picks(n, k) == (n - k + 1) * picks(n, k - 1),
{
    law_picks_absorb(n, k);
    law_picks_absorb(n, k - 1);
}

/// Drawing some and then more is drawing all of them.
pub proof fn falling_in_steps(n: int, a: nat, b: nat)
    requires
        a + b <= n,
    ensures
        falling(n, a) * falling(n - a, b) == falling(n, a + b),
    decreases b,
{
    if b > 0 {
        let c = (b - 1) as nat;
        falling_in_steps(n, a, c);
        let x = falling(n, a) as int;
        let y = falling(n - a, c) as int;
        let m = n - a - b + 1;
        assert(x * (y * m) == (x * y) * m) by (nonlinear_arith);
        assert((a + b - 1) as nat == a + c);
    } else {
        assert(falling(n, a) * 1 == falling(n, a));
    }
}

pub proof fn real_product(a: int, b: int)
    ensures
        (a * b) as real == a as real * b as real,
{
    assert((a * b) as real == a as real * b as real) by (nonlinear_arith);
}

/// The factor of a rank: the ways to pick its cards over the ways to draw as many of those
/// that are left.
pub proof fn level_value<N: Scalar>(val: spec_fn(N) -> real, n: nat, rem: nat, k: nat)
    requires
        exact(val),
        k <= n,
        n <= rem,
        rem <= i64::MAX,
    ensures
        val(finite_level::<N>(n, rem, k)) * (falling(rem as int, k) as int) as real == (picks(
            n as int,
            k as int,
        ) as int) as real,
    decreases k,
{
    exact_whole::<N>(val, 1);
    if k == 0 {
        assert(val(finite_level::<N>(n, rem, 0)) * 1real == 1real) by (nonlinear_arith)
            requires
                val(finite_level::<N>(n, rem, 0)) == 1real,
        ;
        assert(picks(n as int, 0) == 1);
    } else {
        let j = (k - 1) as nat;
        level_value::<N>(val, n, rem, j);
        exact_whole::<N>(val, (n - j) as i64);
        exact_whole::<N>(val, k as i64);
        exact_whole::<N>(val, (rem - j) as i64);
        law_next_pick(n as int, k as int);
        let x = val(finite_level::<N>(n, rem, j));
        let f = (falling(rem as int, j) as int) as real;
        let p = (picks(n as int, j as int) as int) as real;
        let q = (picks(n as int, k as int) as int) as real;
        let m = (n - j) as real;
        let kk = k as int as real;
        let r = (rem - j) as real;
        let y = x * m / kk / r;
        assert(val(finite_level::<N>(n, rem, k)) == y);
        real_product(falling(rem as int, j) as int, rem - j);
        assert((falling(rem as int, k) as int) as real == f * r);
        real_product(k as int, picks(n as int, k as int) as int);
        real_product(n - j, picks(n as int, j as int) as int);
        assert(kk * q == m * p);
        assert(y * (f * r) == q) by {
            assert(y * r == x * m / kk) by (nonlinear_arith)
                requires
                    y == x * m / kk / r,
                    r > 0real,
            ;
            assert(y * (f * r) == (y * r) * f) by (nonlinear_arith);
            assert((x * m / kk) * f == (x * f) * m / kk) by (nonlinear_arith)
                requires
                    kk > 0real,
            ;
            assert(p * m / kk == q) by (nonlinear_arith)
                requires
                    kk * q == m * p,
                    kk > 0real,
            ;
        }
    }
}

/// The cards of a hand from a rank on.
spec fn used_from(hand: Tally, from: int) -> nat
    decreases 10 - from,
{
    if from >= 10 {
        0
    } else {
        hand[from] + used_from(hand, from + 1)
    }
}

/// In how many ways the cards of a hand from a rank on can be picked.
spec fn picks_from(hand: Tally, deck: Tally, from: int) -> nat
    decreases 10 - from,
{
    if from >= 10 {
        1
    } else {
        picks_from(hand, deck, from + 1) * picks(deck[from] as int, hand[from] as int)
    }
}

proof fn path_value<N: Scalar>(val: spec_fn(N) -> real, deck: Tally, hand: Tally, from: int)
    requires
        exact(val),
        <CardCol as Shoe<N>>::sane(deck),
        hand.len() == 10,
        within(hand, deck),
        0 <= from <= 10,
    ensures
        left_at::<N, CardCol>(deck, hand, from) == size(deck) - used_from(hand, from),
        used_from(hand, from) <= supply_from(deck, from) <= size(deck),
        val(scan_path::<N, CardCol>(deck, hand, from)) * (falling(
            size(deck) as int,
            used_from(hand, from),
        ) as int) as real == (picks_from(hand, deck, from) as int) as real,
    decreases 10 - from,
{
    exact_whole::<N>(val, 1);
    supply_is_size::<N>(deck);
    supply_within(deck, from);
    if from == 10 {
        assert(val(scan_path::<N, CardCol>(deck, hand, from)) * 1real == 1real) by (nonlinear_arith)
            requires
                val(scan_path::<N, CardCol>(deck, hand, from)) == 1real,
        ;
    } else {
        path_value::<N>(val, deck, hand, from + 1);
        assert(hand[from] <= deck[from]);
        let used = used_from(hand, from + 1);
        let n = deck[from];
        let k = hand[from];
        let rem = left_at::<N, CardCol>(deck, hand, from + 1);
        supply_within(deck, from + 1);
        assert(rem >= n);
        level_value::<N>(val, n, rem, k);
        falling_in_steps(size(deck) as int, used, k);
        let x = val(scan_path::<N, CardCol>(deck, hand, from + 1));
        let y = val(finite_level::<N>(n, rem, k));
        let a = (falling(size(deck) as int, used) as int) as real;
        let b = (falling(rem as int, k) as int) as real;
        let p = (picks_from(hand, deck, from + 1) as int) as real;
        let q = (picks(n as int, k as int) as int) as real;
        real_product(falling(size(deck) as int, used) as int, falling(rem as int, k) as int);
        real_product(picks_from(hand, deck, from + 1) as int, picks(n as int, k as int) as int);
        assert(used_from(hand, from) == used + k);
        assert((x * y) * (a * b) == (x * a) * (y * b)) by (nonlinear_arith);
    }
}

/// The cards of a deck from a rank on.
spec fn supply_from(deck: Tally, from: int) -> nat
    decreases 10 - from,
{
    if from >= 10 {
        0
    } else {
        deck[from] + supply_from(deck, from + 1)
    }
}

proof fn supply_within(deck: Tally, from: int)
    requires
        deck.len() == 10,
        0 <= from <= 10,
    ensures
        supply_from(deck, from) <= size(deck),
        from < 10 ==> supply_from(deck, from + 1) + deck[from] <= size(deck),
{
    reveal_with_fuel(supply_from, 11);
}

proof fn supply_is_size<N: Scalar>(deck: Tally)
    requires
        deck.len() == 10,
    ensures
        finite_supply::<N, CardCol>(deck, 10) == size(deck),
{
    reveal_with_fuel(finite_supply, 11);
}

pub proof fn factorial_value<N: Scalar>(val: spec_fn(N) -> real, n: nat)
    requires
        exact(val),
        n <= i64::MAX,
    ensures
        val(factorial::<N>(n)) == (orders(n) as int) as real,
    decreases n,
{
    exact_whole::<N>(val, 1);
    if n > 0 {
        factorial_value::<N>(val, (n - 1) as nat);
        exact_whole::<N>(val, n as i64);
        real_product(orders((n - 1) as nat) as int, n as int);
    }
}

proof fn picks_below(hand: Tally, deck: Tally, from: int, to: int)
    requires
        0 <= from <= to <= 10,
        forall|i: int| from <= i < to ==> #[trigger] hand[i] == 0,
    ensures
        picks_from(hand, deck, from) == picks_from(hand, deck, to),
        used_from(hand, from) == used_from(hand, to),
    decreases to - from,
{
    if from < to {
        picks_below(hand, deck, from + 1, to);
        assert(hand[from] == 0);
        assert(picks(deck[from] as int, 0) == 1);
        assert(picks_from(hand, deck, from + 1) * 1 == picks_from(hand, deck, from + 1));
    }
}

pub proof fn lowest_is_lowest(hand: Tally, from: int)
    requires
        0 <= from <= 10,
    ensures
        from <= lowest_from(hand, from) <= 10,
        forall|i: int| from <= i < lowest_from(hand, from) ==> #[trigger] hand[i] == 0,
    decreases 10 - from,
{
    if from < 10 && hand[from] == 0 {
        lowest_is_lowest(hand, from + 1);
    }
}

/// In an exact arithmetic the weight of a hand on a finite shoe is the chance of the
/// hypergeometric distribution: the ways to pick the hand over the ways to pick as many
/// cards.
pub proof fn law_weights_are_hypergeometric<N: Scalar>(
    val: spec_fn(N) -> real,
    deck: Tally,
    hand: Tally,
)
    requires
        exact(val),
        <CardCol as Shoe<N>>::sane(deck),
        hand.len() == 10,
        within(hand, deck),
    ensures
        val(scan_weight::<N, CardCol>(deck, hand)) * (picks(
            size(deck) as int,
            size(hand) as int,
        ) as int) as real == (hand_picks(hand, deck) as int) as real,
{
    let low = lowest_from(hand, 0);
    lowest_is_lowest(hand, 0);
    picks_below(hand, deck, 0, low);
    path_value::<N>(val, deck, hand, low);
    path_value::<N>(val, deck, hand, 0);
    let h = size(hand);
    assert(used_from(hand, 0) == h) by {
        reveal_with_fuel(used_from, 11);
    }
    assert(hand_picks(hand, deck) == picks_from(hand, deck, 0)) by {
        picks_both_ways(hand, deck, 10);
        assert(picks_from(hand, deck, 10) == 1);
        assert(hand_picks(hand, deck) * 1 == hand_picks(hand, deck));
    }
    factorial_value::<N>(val, h);
    law_draws_are_picks_in_order(size(deck) as int, h);
    let x = val(scan_path::<N, CardCol>(deck, hand, low));
    let o = (orders(h) as int) as real;
    let c = (picks(size(deck) as int, h as int) as int) as real;
    real_product(orders(h) as int, picks(size(deck) as int, h as int) as int);
    assert((x * o) * c == x * (o * c)) by (nonlinear_arith);
}

/// The product from the first rank on is the product down from the last one.
proof fn picks_both_ways(hand: Tally, deck: Tally, k: int)
    requires
        0 <= k <= 10,
    ensures
        hand_picks_upto(hand, deck, k) * picks_from(hand, deck, k) == picks_from(hand, deck, 0),
    decreases k,
{
    if k > 0 {
        picks_both_ways(hand, deck, k - 1);
        let a = hand_picks_upto(hand, deck, k - 1) as int;
        let b = picks_from(hand, deck, k) as int;
        let c = picks(deck[k - 1] as int, hand[k - 1] as int) as int;
        assert((a * c) * b == a * (b * c)) by (nonlinear_arith);
    } else {
        assert(1 * picks_from(hand, deck, 0) == picks_from(hand, deck, 0));
    }
}

} // verus!
