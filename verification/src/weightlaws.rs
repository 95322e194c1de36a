//! The weight that a hand is listed with is the chance of being dealt it, on a finite shoe and
//! on the infinite deck.
use crate::card::card_at;
use crate::combinat::picks_are_there;
use crate::deallaws::{
    chances_upto, law_chance_is_hypergeometric, law_chance_is_multinomial, orders_upto, power,
};
use crate::drawing::{chance, InfiniteDeck, Shoe};
use crate::exact::{exact, exact_whole};
use crate::handlaws::{
    factorial_value, law_weights_are_hypergeometric, lowest_is_lowest, orders, real_product,
};
use crate::listing::orders_are_there;
use crate::num::Scalar;
use crate::partitions::{
    endless_level, hard_monotone, left_at, level, lowest_from, scan_path, scan_weight,
};
use crate::shoe::{size, within, CardCol, Tally};
use vstd::prelude::*;

verus! {

proof fn same_product(x: real, y: real, p: real)
    requires
        x * p == y * p,
        p > 0real,
    ensures
        x == y,
{
    assert(x == y) by (nonlinear_arith)
        requires
            x * p == y * p,
            p > 0real,
    ;
}

/// In an exact arithmetic the weight of a hand on a finite shoe is the chance of being dealt
/// it.
pub proof fn law_finite_weights_are_chances<N: Scalar>(
    val: spec_fn(N) -> real,
    deck: Tally,
    hand: Tally,
)
    requires
        exact(val),
        <CardCol as Shoe<N>>::sane(deck),
        hand.len() == 10,
        within(hand, deck),
    ensures
        val(scan_weight::<N, CardCol>(deck, hand)) == val(chance::<N, CardCol>(deck, hand)),
{
    law_weights_are_hypergeometric::<N>(val, deck, hand);
    law_chance_is_hypergeometric::<N>(val, deck, hand);
    hard_monotone(hand, deck);
    picks_are_there(size(deck) as int, size(hand) as int);
    same_product(
        val(scan_weight::<N, CardCol>(deck, hand)),
        val(chance::<N, CardCol>(deck, hand)),
        (crate::combinat::picks(size(deck) as int, size(hand) as int) as int) as real,
    );
}

/// The factor of a rank is the product of the chances of its cards, over their orders.
proof fn endless_value<N: Scalar>(val: spec_fn(N) -> real, p: N, k: nat)
    requires
        exact(val),
        k <= i64::MAX,
    ensures
        val(endless_level::<N>(p, k)) * (orders(k) as int) as real == power(val(p), k),
    decreases k,
{
    exact_whole::<N>(val, 1);
    if k == 0 {
        assert(1real * 1real == 1real) by (nonlinear_arith);
    } else {
        let j = (k - 1) as nat;
        endless_value(val, p, j);
        exact_whole::<N>(val, k as i64);
        real_product(orders(j) as int, k as int);
        let l = val(endless_level::<N>(p, j));
        let o = (orders(j) as int) as real;
        let c = (k as int) as real;
        let x = val(p);
        assert(val(endless_level::<N>(p, k)) == l * x / c);
        factor_step(l, x, c, o);
    }
}

proof fn factor_step(l: real, x: real, c: real, o: real)
    requires
        c >= 1real,
    ensures
        (l * x / c) * (o * c) == (l * o) * x,
{
    let y = l * x / c;
    assert(y * c == l * x) by (nonlinear_arith)
        requires
            y == l * x / c,
            c >= 1real,
    ;
    assert(y * (o * c) == (y * c) * o) by (nonlinear_arith);
    assert((l * x) * o == (l * o) * x) by (nonlinear_arith);
}

/// The factors of the ranks from a place on, next to those of all ranks and those before.
proof fn endless_path<N: Scalar>(val: spec_fn(N) -> real, hand: Tally, from: int)
    requires
        exact(val),
        hand.len() == 10,
        size(hand) <= i64::MAX,
        0 <= from <= 10,
    ensures
        val(scan_path::<N, InfiniteDeck>((), hand, from)) * ((orders_upto(hand, 10) as int) as real
            * chances_upto(val, hand, from)) == chances_upto(val, hand, 10) * (orders_upto(
            hand,
            from,
        ) as int) as real,
    decreases 10 - from,
{
    exact_whole::<N>(val, 1);
    let all_o = (orders_upto(hand, 10) as int) as real;
    let all_c = chances_upto(val, hand, 10);
    if from == 10 {
        assert(1real * (all_o * all_c) == all_c * all_o) by (nonlinear_arith);
    } else {
        endless_path(val, hand, from + 1);
        let k = hand[from];
        crate::shoe::rank_at_most_size(hand, from);
        let p = <InfiniteDeck as Shoe<N>>::prob((), card_at(from));
        endless_value(val, p, k);
        orders_are_there(k);
        real_product(orders_upto(hand, from) as int, orders(k) as int);
        let next = val(scan_path::<N, InfiniteDeck>((), hand, from + 1));
        let l = val(endless_level::<N>(p, k));
        let lv = level::<N, InfiniteDeck>(
            (),
            from,
            left_at::<N, InfiniteDeck>((), hand, from + 1),
            k,
        );
        assert(lv == endless_level::<N>(p, k));
        assert(val(scan_path::<N, InfiniteDeck>((), hand, from)) == next * l);
        path_step(
            next,
            l,
            (orders(k) as int) as real,
            power(val(p), k),
            all_o,
            all_c,
            chances_upto(val, hand, from),
            (orders_upto(hand, from) as int) as real,
        );
    }
}

proof fn path_step(
    next: real,
    l: real,
    ok: real,
    pk: real,
    all_o: real,
    all_c: real,
    c: real,
    o: real,
)
    requires
        l * ok == pk,
        ok >= 1real,
        next * (all_o * (c * pk)) == all_c * (o * ok),
    ensures
        (next * l) * (all_o * c) == all_c * o,
{
    let d = all_o * c;
    assert(all_o * (c * pk) == d * pk) by (nonlinear_arith)
        requires
            d == all_o * c,
    ;
    assert(d * pk == (d * l) * ok) by (nonlinear_arith)
        requires
            l * ok == pk,
    ;
    let e = d * l;
    assert(next * (e * ok) == (next * e) * ok) by (nonlinear_arith);
    assert(all_c * (o * ok) == (all_c * o) * ok) by (nonlinear_arith);
    same_product(next * e, all_c * o, ok);
    assert((next * l) * d == next * (d * l)) by (nonlinear_arith);
}

/// Ranks that are not in the hand bring nothing.
proof fn nothing_below<N: Scalar>(val: spec_fn(N) -> real, hand: Tally, k: int)
    requires
        0 <= k <= 10,
        forall|i: int| 0 <= i < k ==> #[trigger] hand[i] == 0,
    ensures
        chances_upto(val, hand, k) == 1real,
        orders_upto(hand, k) == 1,
    decreases k,
{
    if k > 0 {
        nothing_below(val, hand, k - 1);
        assert(hand[k - 1] == 0);
        assert(1real * 1real == 1real) by (nonlinear_arith);
        assert(1nat * 1 == 1);
    }
}

proof fn all_orders_are_there(hand: Tally, k: int)
    requires
        0 <= k <= 10,
    ensures
        orders_upto(hand, k) > 0,
    decreases k,
{
    if k > 0 {
        all_orders_are_there(hand, k - 1);
        orders_are_there(hand[k - 1]);
        let a = orders_upto(hand, k - 1);
        let b = orders(hand[k - 1]);
        assert(a * b > 0) by (nonlinear_arith)
            requires
                a > 0,
                b > 0,
        ;
    }
}

/// In an exact arithmetic the weight of a hand on the infinite deck is the chance of being
/// dealt it.
pub proof fn law_infinite_weights_are_chances<N: Scalar>(val: spec_fn(N) -> real, hand: Tally)
    requires
        exact(val),
        hand.len() == 10,
        size(hand) <= i64::MAX,
    ensures
        val(scan_weight::<N, InfiniteDeck>((), hand)) == val(chance::<N, InfiniteDeck>((), hand)),
{
    let low = lowest_from(hand, 0);
    lowest_is_lowest(hand, 0);
    nothing_below(val, hand, low);
    endless_path(val, hand, low);
    factorial_value::<N>(val, size(hand));
    law_chance_is_multinomial::<N>(val, hand);
    all_orders_are_there(hand, 10);
    let path = val(scan_path::<N, InfiniteDeck>((), hand, low));
    let o = (orders_upto(hand, 10) as int) as real;
    let c = chances_upto(val, hand, 10);
    let f = (orders(size(hand)) as int) as real;
    assert(path * (o * 1real) == c * 1real);
    assert(path * o == c) by (nonlinear_arith)
        requires
            path * (o * 1real) == c * 1real,
    ;
    assert((path * f) * o == f * (path * o)) by (nonlinear_arith);
    same_product(path * f, val(chance::<N, InfiniteDeck>((), hand)), o);
}

} // verus!
