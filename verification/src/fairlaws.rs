//! Where the chances of the next card are chances, those of the dealer's outcomes are, and no
//! stand wins or loses more than it may.
use crate::armlaws::chance_sum;
use crate::card::Card;
use crate::dealer::{
    dealer_average, dealer_dist, final_outcome, law_dealer_stops_at_17_or_more, mixed, must_hit,
    outcome_at, outcome_place, sure,
};
use crate::dealerlaws::{draw_vals, lasts, law_finite_shoe_lasts, sum_of_mix, sum_of_sure};
use crate::drawing::{shares_from, Shoe};
use crate::exact::{exact, exact_whole, real_sum, vals};
use crate::hand::HandState;
use crate::num::{is_nil, zero, Scalar};
use crate::partitions::hard_with_n;
use crate::peeklaws::{law_finite_shoe_tells_once, listed, tells_once};
use crate::shoe::{best, hard, single, size, taken, with_card, CardCol, Tally};
use crate::simulation::{
    basis_dist, basis_draws, no_natural, payoff, peeked_chance_upto, stand_upto, Basis,
};
use crate::split::{arm_payoff, arm_state};
use crate::splitlaws::fair;
use vstd::prelude::*;

verus! {

/// Whether the chances of the next card are chances, whatever the shoe.
pub open spec fn fair_draws<N: Scalar, S: Shoe<N>>(val: spec_fn(N) -> real) -> bool {
    &&& forall|s: S::State, i: int|
        S::sane(s) && 0 <= i < S::draws(s).len() ==> val((#[trigger] S::draws(s)[i]).1) >= 0real
    &&& forall|s: S::State|
        S::sane(s) ==> chance_sum(val, #[trigger] S::draws(s), S::draws(s).len() as int) <= 1real
}

/// Whether numbers are the chances of outcomes: none is negative, and together they are no more
/// than one.
pub open spec fn are_chances<N: Scalar>(val: spec_fn(N) -> real, dist: Seq<N>, most: real) -> bool {
    &&& dist.len() == 7
    &&& forall|i: int| 0 <= i < 7 ==> val(#[trigger] dist[i]) >= 0real
    &&& real_sum(vals(val, dist)) <= most
}

/// In an exact arithmetic the outcomes of a dealer have chances that add up to no more than one,
/// also where the shoe runs out.
pub proof fn law_dealer_outcomes_are_chances<N: Scalar, S: Shoe<N>>(
    val: spec_fn(N) -> real,
    s: S::State,
    t: Tally,
    hs17: bool,
)
    requires
        exact(val),
        fair_draws::<N, S>(val),
        S::sane(s),
        t.len() == 10,
        hard(t) <= 26,
    ensures
        are_chances(val, dealer_dist::<N, S>(s, t, hs17), 1real),
    decreases 27 - hard(t), 12int,
{
    exact_whole::<N>(val, 0);
    exact_whole::<N>(val, 1);
    S::draws_are_there(s);
    if must_hit(t, hs17) {
        let n = S::draws(s).len() as int;
        average_is_fair::<N, S>(val, s, t, hs17, n);
        assert(chance_sum(val, S::draws(s), S::draws(s).len() as int) <= 1real);
    } else {
        law_dealer_stops_at_17_or_more(t, hs17);
        let p = outcome_place(final_outcome(t));
        let d = sure::<N>(p);
        sum_of_sure(vals(val, d), p);
    }
}

proof fn average_is_fair<N: Scalar, S: Shoe<N>>(
    val: spec_fn(N) -> real,
    s: S::State,
    t: Tally,
    hs17: bool,
    k: int,
)
    requires
        exact(val),
        fair_draws::<N, S>(val),
        S::sane(s),
        t.len() == 10,
        hard(t) < 17,
        0 <= k <= S::draws(s).len(),
    ensures
        are_chances(
            val,
            dealer_average::<N, S>(s, t, hs17, k),
            chance_sum(val, S::draws(s), k),
        ),
    decreases 27 - hard(t), k,
{
    exact_whole::<N>(val, 0);
    S::draws_are_there(s);
    if k <= 0 {
        let none = dealer_average::<N, S>(s, t, hs17, k);
        zeros_add_up(vals(val, none));
    } else {
        average_is_fair::<N, S>(val, s, t, hs17, k - 1);
        let acc = dealer_average::<N, S>(s, t, hs17, k - 1);
        let (card, p) = S::draws(s)[k - 1];
        assert(val(S::draws(s)[k - 1].1) >= 0real);
        if !is_nil(p) {
            let next = S::without(s, single(card));
            let hand = with_card(t, card);
            S::without_supply(s, single(card));
            hard_with_n(t, card.rank(), 1);
            crate::card::law_rank_round_trip(card, 0);
            law_dealer_outcomes_are_chances::<N, S>(val, next, hand, hs17);
            let sub = dealer_dist::<N, S>(next, hand, hs17);
            let m = mixed(acc, p, sub);
            let x = val(p);
            sum_of_mix(vals(val, acc), vals(val, sub), x, vals(val, m));
            let r = real_sum(vals(val, sub));
            assert(x * r <= x) by (nonlinear_arith)
                requires
                    x >= 0real,
                    r <= 1real,
            ;
            assert forall|i: int| 0 <= i < 7 implies val(#[trigger] m[i]) >= 0real by {
                let y = val(sub[i]);
                assert(val(acc[i]) >= 0real);
                assert(x * y >= 0real) by (nonlinear_arith)
                    requires
                        x >= 0real,
                        y >= 0real,
                ;
            }
        }
    }
}

proof fn zeros_add_up(s: Seq<real>)
    requires
        forall|i: int| 0 <= i < s.len() ==> #[trigger] s[i] == 0real,
    ensures
        real_sum(s) == 0real,
    decreases s.len(),
{
    if s.len() > 0 {
        zeros_add_up(s.drop_last());
        assert(s.last() == 0real);
    }
}

/// A stand wins or loses no more than the bet where no payoff does.
proof fn stand_is_small<N: Scalar>(
    val: spec_fn(N) -> real,
    dist: Seq<N>,
    state: HandState,
    pays: N,
    k: int,
)
    requires
        exact(val),
        are_chances(val, dist, 1real),
        state != HandState::Natural,
        0 <= k <= 7,
    ensures
        -real_sum(vals(val, dist.take(k))) <= val(stand_upto(dist, state, pays, k)) <= real_sum(
            vals(val, dist.take(k)),
        ),
    decreases k,
{
    exact_whole::<N>(val, 0);
    exact_whole::<N>(val, 1);
    exact_whole::<N>(val, (-1) as i64);
    let now = vals(val, dist.take(k));
    if k > 0 {
        stand_is_small(val, dist, state, pays, k - 1);
        assert(now.drop_last() =~= vals(val, dist.take(k - 1)));
        assert(now.last() == val(dist[k - 1]));
        let x = val(dist[k - 1]);
        let y = val(payoff(state, outcome_at(k - 1), pays));
        assert(-1real <= y <= 1real);
        assert(-x <= x * y <= x) by (nonlinear_arith)
            requires
                x >= 0real,
                -1real <= y <= 1real,
        ;
    }
}

/// In an exact arithmetic, where the chances of the next card are chances and the dealer has not
/// looked, split arms are played on fair terms.
pub proof fn law_unlooked_arms_are_fair<N: Scalar, S: Shoe<N>>(val: spec_fn(N) -> real, b: Basis)
    requires
        exact(val),
        fair_draws::<N, S>(val),
        b.wf(),
        !b.conditional,
    ensures
        fair::<N, S>(val, b),
{
    assert forall|s: S::State, i: int|
        S::sane(s) && 0 <= i < basis_draws::<N, S>(b, s).len() implies val(
        (#[trigger] basis_draws::<N, S>(b, s)[i]).1,
    ) >= 0real by {
        assert(val(S::draws(s)[i].1) >= 0real);
    }
    assert forall|s: S::State, t: Tally| S::sane(s) implies -1real <= val(
        #[trigger] arm_payoff::<N, S>(b, t, s),
    ) <= 1real by {
        crate::split::single_card_total(b.up_card);
        let dist = basis_dist::<N, S>(b, s);
        law_dealer_outcomes_are_chances::<N, S>(val, s, single(b.up_card), b.hs17);
        stand_is_small(val, dist, arm_state(best(t)), zero::<N>(), 7);
        assert(dist.take(7) =~= dist);
    }
}

proof fn sums_agree<N: Scalar, S: Shoe<N>>(val: spec_fn(N) -> real, s: S::State, k: int)
    requires
        0 <= k <= S::draws(s).len(),
    ensures
        chance_sum(val, S::draws(s), k) == real_sum(draw_vals::<N, S>(val, s).take(k)),
    decreases k,
{
    let all = draw_vals::<N, S>(val, s);
    if k > 0 {
        sums_agree::<N, S>(val, s, k - 1);
        assert(all.take(k).drop_last() =~= all.take(k - 1));
        assert(all.take(k).last() == val(S::draws(s)[k - 1].1));
    } else {
        assert(all.take(0) =~= Seq::<real>::empty());
    }
}

/// In an exact arithmetic the chances of the next card of a finite shoe are chances.
pub proof fn law_finite_shoe_is_fair<N: Scalar>(val: spec_fn(N) -> real)
    requires
        exact(val),
    ensures
        fair_draws::<N, CardCol>(val),
{
    assert forall|t: Tally, i: int|
        <CardCol as Shoe<N>>::sane(t) && 0 <= i < <CardCol as Shoe<N>>::draws(
            t,
        ).len() implies val((#[trigger] <CardCol as Shoe<N>>::draws(t)[i]).1) >= 0real by {
        finite_draws::<N>(val, t);
    }
    assert forall|t: Tally| <CardCol as Shoe<N>>::sane(t) implies chance_sum(
        val,
        #[trigger] <CardCol as Shoe<N>>::draws(t),
        <CardCol as Shoe<N>>::draws(t).len() as int,
    ) <= 1real by {
        finite_draws::<N>(val, t);
    }
}

proof fn finite_draws<N: Scalar>(val: spec_fn(N) -> real, t: Tally)
    requires
        exact(val),
        <CardCol as Shoe<N>>::sane(t),
    ensures
        ({
            let draws = <CardCol as Shoe<N>>::draws(t);
            &&& forall|i: int| 0 <= i < draws.len() ==> val((#[trigger] draws[i]).1) >= 0real
            &&& chance_sum(val, draws, draws.len() as int) <= 1real
        }),
{
    let draws = <CardCol as Shoe<N>>::draws(t);
    if size(t) > 0 {
        law_finite_shoe_lasts::<N>(val, t, 1);
        assert(lasts::<N, CardCol>(val, t, 1));
        sums_agree::<N, CardCol>(val, t, draws.len() as int);
        let all = draw_vals::<N, CardCol>(val, t);
        assert(all.take(draws.len() as int) =~= all);
    } else {
        assert(t[0] == 0 && t[1] == 0 && t[2] == 0 && t[3] == 0 && t[4] == 0 && t[5] == 0 && t[6]
            == 0 && t[7] == 0 && t[8] == 0 && t[9] == 0);
        reveal_with_fuel(shares_from, 11);
        assert(draws.len() == 0);
    }
}

/// In an exact arithmetic the card that would make the dealer's natural comes from a finite shoe
/// as often as it is among the cards left but one: once the dealer has looked, the hole card is
/// known to be another, and is out of the shoe.
pub proof fn law_look_leaves_the_naturals_card<N: Scalar>(
    val: spec_fn(N) -> real,
    t: Tally,
    wanted: Card,
)
    requires
        exact(val),
        <CardCol as Shoe<N>>::sane(t),
        wanted.valid(),
        t[wanted.rank()] < size(t),
        size(t) >= 2,
    ensures
        val(
            peeked_chance_upto::<N, CardCol>(
                t,
                wanted,
                wanted,
                <CardCol as Shoe<N>>::draws(t).len() as int,
            ),
        ) * ((size(t) - 1) as real) == (t[wanted.rank()] as int) as real,
{
    let draws = <CardCol as Shoe<N>>::draws(t);
    let n = draws.len() as int;
    let a = val(peeked_chance_upto::<N, CardCol>(t, wanted, wanted, n));
    let q = val(<CardCol as Shoe<N>>::prob(t, wanted));
    let m = (size(t) - 1) as real;
    let c = (t[wanted.rank()] as int) as real;
    law_finite_shoe_lasts::<N>(val, t, 1);
    assert(lasts::<N, CardCol>(val, t, 1));
    sums_agree::<N, CardCol>(val, t, n);
    let all = draw_vals::<N, CardCol>(val, t);
    assert(all.take(n) =~= all);
    law_finite_shoe_tells_once::<N>(val, t, wanted);
    share_is_part::<N>(val, t, wanted);
    looked_chances::<N>(val, t, wanted, n);
    if exists|i: int| 0 <= i < draws.len() && (#[trigger] draws[i]).0 == wanted {
        assert(listed::<N, CardCol>(t, wanted, n));
    }
    balance_ends(a, m, 1real - q, c);
}

/// A share of a finite shoe, in numbers.
proof fn share_is_part<N: Scalar>(val: spec_fn(N) -> real, t: Tally, card: Card)
    requires
        exact(val),
        <CardCol as Shoe<N>>::sane(t),
        card.valid(),
        size(t) > 0,
    ensures
        val(<CardCol as Shoe<N>>::prob(t, card)) * (size(t) as real) == (t[card.rank()] as int) as real,
        t[card.rank()] < size(t) ==> val(<CardCol as Shoe<N>>::prob(t, card)) < 1real,
{
    crate::card::law_rank_round_trip(card, 0);
    crate::shoe::rank_at_most_size(t, card.rank());
    assert(size(t) <= 10 * u16::MAX);
    let num = t[card.rank()] as i64;
    let den = size(t) as i64;
    let (x, y) = ((num as int) as real, (den as int) as real);
    assert(val(<CardCol as Shoe<N>>::prob(t, card)) == x / y);
    assert((x / y) * y == x) by (nonlinear_arith)
        requires
            y > 0real,
    ;
    if t[card.rank()] < size(t) {
        assert(x / y < 1real) by (nonlinear_arith)
            requires
                y > 0real,
                x < y,
        ;
    }
}

proof fn looked_chances<N: Scalar>(val: spec_fn(N) -> real, t: Tally, wanted: Card, k: int)
    requires
        exact(val),
        <CardCol as Shoe<N>>::sane(t),
        wanted.valid(),
        t[wanted.rank()] < size(t),
        size(t) >= 2,
        tells_once::<N, CardCol>(val, t, wanted),
        0 <= k <= <CardCol as Shoe<N>>::draws(t).len(),
    ensures
        ({
            let a = val(peeked_chance_upto::<N, CardCol>(t, wanted, wanted, k));
            let q = val(<CardCol as Shoe<N>>::prob(t, wanted));
            let m = (size(t) - 1) as real;
            let c = (t[wanted.rank()] as int) as real;
            let sum = chance_sum(val, <CardCol as Shoe<N>>::draws(t), k);
            let others = if listed::<N, CardCol>(t, wanted, k) {
                sum - q
            } else {
                sum
            };
            balances(a, m, 1real - q, others, c)
        }),
    decreases k,
{
    exact_whole::<N>(val, 0);
    exact_whole::<N>(val, 1);
    let draws = <CardCol as Shoe<N>>::draws(t);
    let q = val(<CardCol as Shoe<N>>::prob(t, wanted));
    let m = (size(t) - 1) as real;
    let c = (t[wanted.rank()] as int) as real;
    if k <= 0 {
        nothing_balances(m, 1real - q, c);
    } else {
        looked_chances::<N>(val, t, wanted, k - 1);
        share_is_part::<N>(val, t, wanted);
        <CardCol as Shoe<N>>::draws_are_there(t);
        let (hole, p) = draws[k - 1];
        let a = val(peeked_chance_upto::<N, CardCol>(t, wanted, wanted, k - 1));
        let sum = chance_sum(val, draws, k - 1);
        let x = val(p);
        if hole == wanted {
            assert(!listed::<N, CardCol>(t, wanted, k - 1));
            assert(draws[k - 1].0 == wanted);
            assert(listed::<N, CardCol>(t, wanted, k));
            assert(x == q);
            assert(chance_sum(val, draws, k) - q == sum);
        } else {
            assert(listed::<N, CardCol>(t, wanted, k) == listed::<N, CardCol>(t, wanted, k - 1)) by {
                if listed::<N, CardCol>(t, wanted, k) {
                    let j = choose|j: int| 0 <= j < k && (#[trigger] draws[j]).0 == wanted;
                    assert(j < k - 1);
                }
            }
            let left = taken(t, single(hole));
            <CardCol as Shoe<N>>::without_supply(t, single(hole));
            crate::card::law_rank_round_trip(hole, 0);
            crate::card::law_rank_round_trip(wanted, 0);
            assert(<CardCol as Shoe<N>>::supply(t, hole.rank()) == Some(t[hole.rank()]));
            assert(left[wanted.rank()] == t[wanted.rank()]);
            assert(with_card(left, hole) =~= t);
            hard_with_n(left, hole.rank(), 1);
            assert(size(t) == size(left) + 1);
            share_is_part::<N>(val, left, wanted);
            let z = val(<CardCol as Shoe<N>>::prob(left, wanted));
            let part = val(no_natural::<N, CardCol>(t, wanted));
            assert(part == 1real - q);
            let before = if listed::<N, CardCol>(t, wanted, k - 1) {
                sum - q
            } else {
                sum
            };
            one_more_hole(a, x, part, z, m, before, c);
        }
    }
}

/// Whether a chance, times the cards left but one, is the same part of what is left of one as the
/// sum is of the number of the card.
#[verifier::opaque]
spec fn balances(a: real, m: real, part: real, sum: real, c: real) -> bool {
    (a * m) * part == sum * c
}

proof fn nothing_balances(m: real, part: real, c: real)
    ensures
        balances(0real, m, part, 0real, c),
{
    reveal(balances);
    assert((0real * m) * part == 0real * c) by (nonlinear_arith);
}

proof fn one_more_hole(a: real, x: real, part: real, z: real, m: real, before: real, c: real)
    requires
        balances(a, m, part, before, c),
        z * m == c,
        part > 0real,
    ensures
        balances(a + (x / part) * z, m, part, before + x, c),
{
    reveal(balances);
    let w = x / part;
    assert(w * part == x) by (nonlinear_arith)
        requires
            w == x / part,
            part > 0real,
    ;
    let zm = z * m;
    let am = a * m;
    assert((a + w * z) * m == am + w * zm) by (nonlinear_arith)
        requires
            am == a * m,
            zm == z * m,
    ;
    assert((am + w * zm) * part == am * part + (w * part) * zm) by (nonlinear_arith);
    assert((before + x) * c == before * c + x * c) by (nonlinear_arith);
}

proof fn balance_ends(a: real, m: real, part: real, c: real)
    requires
        balances(a, m, part, part, c),
        part > 0real,
    ensures
        a * m == c,
{
    reveal(balances);
    let x = a * m;
    assert(x == c) by (nonlinear_arith)
        requires
            x * part == part * c,
            part > 0real,
    ;
}

} // verus!
