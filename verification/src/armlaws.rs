//! What the value of a split comes to, as a number.
use crate::card::Card;
use crate::drawing::{InfiniteDeck, Shoe};
use crate::exact::{exact, exact_whole};
use crate::num::{larger, minus_one, Scalar};
use crate::playlaws::{arm_grows, one_card_is_small};
use crate::rules::Ruleset;
use crate::shoe::{best, hard, single, size, with_card, Tally};
use crate::simulation::{
    basis_draws, basis_draws_are_there, no_natural, peeked_chance_upto, Basis,
};
use crate::split::{
    arm_double_upto, arm_hit_upto, arm_payoff, arm_value, rest_value, second_upto, split_value,
    SplitGame,
};
use vstd::prelude::*;

verus! {

/// What the chances of the first `k` cards add up to.
pub open spec fn chance_sum<N: Scalar>(val: spec_fn(N) -> real, draws: Seq<(Card, N)>, k: int) -> real
    decreases k,
{
    if k <= 0 {
        0real
    } else {
        chance_sum(val, draws, k - 1) + val(draws[k - 1].1)
    }
}

/// Whether the chances of the next card of the infinite deck add up to one on a basis.
pub open spec fn endless_adds_up<N: Scalar>(val: spec_fn(N) -> real, b: Basis) -> bool {
    let draws = basis_draws::<N, InfiniteDeck>(b, ());
    chance_sum(val, draws, draws.len() as int) == 1real
}

proof fn larger_of_sums<N: Scalar>(val: spec_fn(N) -> real, a: N, b: N, c: N, d: N, r: real)
    requires
        exact(val),
        val(c) == val(a) + r,
        val(d) == val(b) + r,
    ensures
        val(larger(c, d)) == val(larger(a, b)) + r,
{
}

/// In an exact arithmetic, where nothing is split again, an arm of a split on the infinite deck and
/// the arms after it are worth the arm alone and the others.
pub proof fn law_arms_add_up<N: Scalar>(
    val: spec_fn(N) -> real,
    g: SplitGame<()>,
    t: Tally,
    first: bool,
    pending: nat,
)
    requires
        exact(val),
        endless_adds_up::<N>(val, g.basis),
        t.len() == 10,
        hard(t) <= 21,
        g.card.valid(),
    ensures
        val(arm_value::<N, InfiniteDeck>(g, t, first, pending, 0, (), 0)) == val(
            arm_value::<N, InfiniteDeck>(g, t, first, 0, 0, (), 0),
        ) + val(rest_value::<N, InfiniteDeck>(g, pending, 0, (), 0)),
    decreases 33 - hard(t), 20int,
{
    exact_whole::<N>(val, 0);
    basis_draws_are_there::<N, InfiniteDeck>(g.basis, ());
    <InfiniteDeck as Shoe<N>>::draws_are_there(());
    let n = basis_draws::<N, InfiniteDeck>(g.basis, ()).len() as int;
    let rest = rest_value::<N, InfiniteDeck>(g, pending, 0, (), 0);
    let r = val(rest);
    assert(1real * r == r) by (nonlinear_arith);
    assert(rest_value::<N, InfiniteDeck>(g, 0, 0, (), 0) == crate::num::zero::<N>());
    if size(t) == 1 {
        seconds_add_up::<N>(val, g, t, pending, n);
    } else {
        hits_add_up::<N>(val, g, t, pending, n);
        doubles_add_up::<N>(val, g, t, pending, n);
        let none = rest_value::<N, InfiniteDeck>(g, 0, 0, (), 0);
        let pay = arm_payoff::<N, InfiniteDeck>(g.basis, t, ());
        let stand0 = pay.plus_spec(none);
        let stand1 = pay.plus_spec(rest);
        let hit0 = arm_hit_upto::<N, InfiniteDeck>(g, t, 0, 0, (), 0, n);
        let hit1 = arm_hit_upto::<N, InfiniteDeck>(g, t, pending, 0, (), 0, n);
        let double0 = arm_double_upto::<N, InfiniteDeck>(g, t, 0, 0, (), 0, n);
        let double1 = arm_double_upto::<N, InfiniteDeck>(g, t, pending, 0, (), 0, n);
        larger_of_sums(val, stand0, hit0, stand1, hit1, r);
        let with0 = if best(t) < 21 {
            larger(stand0, hit0)
        } else {
            stand0
        };
        let with1 = if best(t) < 21 {
            larger(stand1, hit1)
        } else {
            stand1
        };
        larger_of_sums(val, with0, double0, with1, double1, r);
    }
}

/// One more term of a sum.
proof fn one_more(p: real, a: real, r: real, before: real, sum: real)
    ensures
        before + sum * r + p * (a + r) == (before + p * a) + (sum + p) * r,
{
    assert(p * (a + r) == p * a + p * r) by (nonlinear_arith);
    assert((sum + p) * r == sum * r + p * r) by (nonlinear_arith);
}

proof fn seconds_add_up<N: Scalar>(
    val: spec_fn(N) -> real,
    g: SplitGame<()>,
    t: Tally,
    pending: nat,
    k: int,
)
    requires
        exact(val),
        endless_adds_up::<N>(val, g.basis),
        t.len() == 10,
        hard(t) <= 21,
        size(t) == 1,
        g.card.valid(),
        0 <= k <= basis_draws::<N, InfiniteDeck>(g.basis, ()).len(),
    ensures
        val(second_upto::<N, InfiniteDeck>(g, t, pending, 0, (), 0, k)) == val(
            second_upto::<N, InfiniteDeck>(g, t, 0, 0, (), 0, k),
        ) + chance_sum(val, basis_draws::<N, InfiniteDeck>(g.basis, ()), k) * val(
            rest_value::<N, InfiniteDeck>(g, pending, 0, (), 0),
        ),
    decreases 33 - hard(t), k,
{
    exact_whole::<N>(val, 0);
    let r = val(rest_value::<N, InfiniteDeck>(g, pending, 0, (), 0));
    let draws = basis_draws::<N, InfiniteDeck>(g.basis, ());
    if k <= 0 {
        assert(0real * r == 0real) by (nonlinear_arith);
    } else {
        seconds_add_up::<N>(val, g, t, pending, k - 1);
        arm_grows::<N>(g.basis, t, k - 1);
        one_card_is_small(t);
        let (card, p) = draws[k - 1];
        let child = with_card(t, card);
        let before = val(second_upto::<N, InfiniteDeck>(g, t, 0, 0, (), 0, k - 1));
        let sum = chance_sum(val, draws, k - 1);
        if g.card == Card::Ace {
            let a = val(arm_payoff::<N, InfiniteDeck>(g.basis, child, ()));
            assert(rest_value::<N, InfiniteDeck>(g, 0, 0, (), 0) == crate::num::zero::<N>());
            one_more(val(p), a, r, before, sum);
        } else {
            law_arms_add_up::<N>(val, g, child, true, pending);
            let a = val(arm_value::<N, InfiniteDeck>(g, child, true, 0, 0, (), 0));
            one_more(val(p), a, r, before, sum);
        }
    }
}

proof fn hits_add_up<N: Scalar>(
    val: spec_fn(N) -> real,
    g: SplitGame<()>,
    t: Tally,
    pending: nat,
    k: int,
)
    requires
        exact(val),
        endless_adds_up::<N>(val, g.basis),
        t.len() == 10,
        hard(t) <= 21,
        g.card.valid(),
        0 <= k <= basis_draws::<N, InfiniteDeck>(g.basis, ()).len(),
    ensures
        val(arm_hit_upto::<N, InfiniteDeck>(g, t, pending, 0, (), 0, k)) == val(
            arm_hit_upto::<N, InfiniteDeck>(g, t, 0, 0, (), 0, k),
        ) + chance_sum(val, basis_draws::<N, InfiniteDeck>(g.basis, ()), k) * val(
            rest_value::<N, InfiniteDeck>(g, pending, 0, (), 0),
        ),
    decreases 33 - hard(t), k,
{
    exact_whole::<N>(val, 0);
    let r = val(rest_value::<N, InfiniteDeck>(g, pending, 0, (), 0));
    let draws = basis_draws::<N, InfiniteDeck>(g.basis, ());
    if k <= 0 {
        assert(0real * r == 0real) by (nonlinear_arith);
    } else {
        hits_add_up::<N>(val, g, t, pending, k - 1);
        arm_grows::<N>(g.basis, t, k - 1);
        let (card, p) = draws[k - 1];
        let child = with_card(t, card);
        let before = val(arm_hit_upto::<N, InfiniteDeck>(g, t, 0, 0, (), 0, k - 1));
        let sum = chance_sum(val, draws, k - 1);
        assert(rest_value::<N, InfiniteDeck>(g, 0, 0, (), 0) == crate::num::zero::<N>());
        if hard(child) > 21 {
            one_more(val(p), val(minus_one::<N>()), r, before, sum);
        } else {
            law_arms_add_up::<N>(val, g, child, false, pending);
            let a = val(arm_value::<N, InfiniteDeck>(g, child, false, 0, 0, (), 0));
            one_more(val(p), a, r, before, sum);
        }
    }
}

proof fn doubles_add_up<N: Scalar>(
    val: spec_fn(N) -> real,
    g: SplitGame<()>,
    t: Tally,
    pending: nat,
    k: int,
)
    requires
        exact(val),
        t.len() == 10,
        hard(t) <= 21,
        g.card.valid(),
        0 <= k <= basis_draws::<N, InfiniteDeck>(g.basis, ()).len(),
    ensures
        val(arm_double_upto::<N, InfiniteDeck>(g, t, pending, 0, (), 0, k)) == val(
            arm_double_upto::<N, InfiniteDeck>(g, t, 0, 0, (), 0, k),
        ) + chance_sum(val, basis_draws::<N, InfiniteDeck>(g.basis, ()), k) * val(
            rest_value::<N, InfiniteDeck>(g, pending, 0, (), 0),
        ),
    decreases k,
{
    exact_whole::<N>(val, 0);
    exact_whole::<N>(val, 2);
    let r = val(rest_value::<N, InfiniteDeck>(g, pending, 0, (), 0));
    let draws = basis_draws::<N, InfiniteDeck>(g.basis, ());
    if k <= 0 {
        assert(0real * r == 0real) by (nonlinear_arith);
    } else {
        doubles_add_up::<N>(val, g, t, pending, k - 1);
        let (card, p) = draws[k - 1];
        let child = with_card(t, card);
        let before = val(arm_double_upto::<N, InfiniteDeck>(g, t, 0, 0, (), 0, k - 1));
        let sum = chance_sum(val, draws, k - 1);
        let a = 2real * val(arm_payoff::<N, InfiniteDeck>(g.basis, child, ()));
        assert(rest_value::<N, InfiniteDeck>(g, 0, 0, (), 0) == crate::num::zero::<N>());
        one_more(val(p), a, r, before, sum);
    }
}

/// In an exact arithmetic a split on the infinite deck that is not split again is worth twice one
/// of its arms, however many drawn cards are followed from one arm to the next.
pub proof fn law_split_is_two_arms<N: Scalar>(
    val: spec_fn(N) -> real,
    card: Card,
    b: Basis,
    rules: Ruleset,
)
    requires
        exact(val),
        endless_adds_up::<N>(val, b),
        card.valid(),
        rules.max_split_hands <= 2,
    ensures
        val(split_value::<N, InfiniteDeck>(card, (), b, rules)) == 2real * val(
            arm_value::<N, InfiniteDeck>(
                SplitGame { shoe0: (), basis: b, card, das: rules.das },
                single(card),
                false,
                0,
                0,
                (),
                0,
            ),
        ),
{
    let g = SplitGame { shoe0: (), basis: b, card, das: rules.das };
    crate::split::single_card_total(card);
    crate::playlaws::law_budget_is_irrelevant_on_infinite_deck::<N>(
        g,
        single(card),
        false,
        1,
        0,
        rules.split_cards as nat,
        0,
    );
    law_arms_add_up::<N>(val, g, single(card), false, 1);
    assert(rest_value::<N, InfiniteDeck>(g, 1, 0, (), 0) == arm_value::<N, InfiniteDeck>(
        g,
        single(card),
        false,
        0,
        0,
        (),
        0,
    ));
}

/// What the chances of the first `k` cards other than one add up to.
spec fn others_sum<N: Scalar>(
    val: spec_fn(N) -> real,
    draws: Seq<(Card, N)>,
    but: Card,
    k: int,
) -> real
    decreases k,
{
    if k <= 0 {
        0real
    } else {
        others_sum(val, draws, but, k - 1) + if draws[k - 1].0 == but {
            0real
        } else {
            val(draws[k - 1].1)
        }
    }
}

proof fn looked_chance_upto<N: Scalar>(val: spec_fn(N) -> real, bj: Card, card: Card, k: int)
    requires
        exact(val),
        0 <= k <= 10,
        val(no_natural::<N, InfiniteDeck>((), bj)) != 0real,
    ensures
        val(peeked_chance_upto::<N, InfiniteDeck>((), bj, card, k)) == others_sum(
            val,
            <InfiniteDeck as Shoe<N>>::draws(()),
            bj,
            k,
        ) / val(no_natural::<N, InfiniteDeck>((), bj)) * val(
            <InfiniteDeck as Shoe<N>>::prob((), card),
        ),
    decreases k,
{
    exact_whole::<N>(val, 0);
    let left = val(no_natural::<N, InfiniteDeck>((), bj));
    let x = val(<InfiniteDeck as Shoe<N>>::prob((), card));
    if k <= 0 {
        assert(0real / left == 0real) by (nonlinear_arith)
            requires
                left != 0real,
        ;
        assert(0real * x == 0real) by (nonlinear_arith);
    } else {
        looked_chance_upto::<N>(val, bj, card, k - 1);
        let draws = <InfiniteDeck as Shoe<N>>::draws(());
        let a = others_sum(val, draws, bj, k - 1);
        let p = val(draws[k - 1].1);
        assert((a + p) / left == a / left + p / left) by (nonlinear_arith)
            requires
                left != 0real,
        ;
        let u = a / left;
        let v = p / left;
        assert((u + v) * x == u * x + v * x) by (nonlinear_arith);
        if draws[k - 1].0 == bj {
            assert(a + 0real == a);
        }
    }
}

/// In an exact arithmetic the chances of the next card of the infinite deck add up to one, whether
/// the dealer has looked or not.
pub proof fn law_infinite_deck_adds_up<N: Scalar>(val: spec_fn(N) -> real, b: Basis)
    requires
        exact(val),
        b.wf(),
    ensures
        endless_adds_up::<N>(val, b),
{
    let draws = <InfiniteDeck as Shoe<N>>::draws(());
    assert(val(N::ratio_spec(1, 13)) == (1i64 as int) as real / (13i64 as int) as real);
    assert(val(N::ratio_spec(4, 13)) == (4i64 as int) as real / (13i64 as int) as real);
    exact_whole::<N>(val, 1);
    let p = |i: int| val(draws[i].1);
    assert(p(0) == 1real / 13real && p(1) == 1real / 13real && p(2) == 1real / 13real && p(3)
        == 1real / 13real && p(4) == 1real / 13real && p(5) == 1real / 13real && p(6) == 1real
        / 13real && p(7) == 1real / 13real && p(8) == 4real / 13real && p(9) == 1real / 13real);
    let on = basis_draws::<N, InfiniteDeck>(b, ());
    assert(on.len() == 10);
    if on != draws {
        let bj = b.bj_rank->0;
        let left = val(no_natural::<N, InfiniteDeck>((), bj));
        reveal_with_fuel(others_sum, 11);
        assert(others_sum(val, draws, bj, 10) == left);
        assert(left / left == 1real) by (nonlinear_arith)
            requires
                left != 0real,
        ;
        assert forall|i: int| 0 <= i < 10 implies val((#[trigger] on[i]).1) == p(i) by {
            looked_chance_upto::<N>(val, bj, draws[i].0, 10);
            let x = val(<InfiniteDeck as Shoe<N>>::prob((), draws[i].0));
            assert(1real * x == x) by (nonlinear_arith);
        }
    }
    assert(val(on[0].1) == p(0) && val(on[1].1) == p(1) && val(on[2].1) == p(2) && val(on[3].1)
        == p(3) && val(on[4].1) == p(4) && val(on[5].1) == p(5) && val(on[6].1) == p(6) && val(
        on[7].1,
    ) == p(7) && val(on[8].1) == p(8) && val(on[9].1) == p(9));
    reveal_with_fuel(chance_sum, 11);
}

} // verus!
