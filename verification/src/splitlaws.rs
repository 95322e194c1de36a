//! What the value of a split owes to the rules: whether arms may double, how many hands there
//! may be, what becomes of aces, and which cards an arm knows of.
use crate::armlaws::chance_sum;
use crate::card::Card;
use crate::drawing::Shoe;
use crate::exact::{exact, exact_whole};
use crate::hand::ranks;
use crate::num::{larger, zero, Scalar};
use crate::rules::Ruleset;
use crate::shoe::{best, hard, single, size, with_card, Tally};
use crate::simulation::{basis_draws, basis_draws_are_there, Basis};
use crate::split::{
    arm_child, arm_double_upto, arm_hit_upto, arm_payoff, arm_value, next_arm, rest_value,
    second_upto, single_card_total, spent, split_value, SplitGame,
};
use vstd::prelude::*;

verus! {

/// Where arms may not double, it is worth nothing that an arm has just got its second card,
/// unless it can be split again: such an arm has the value of one that has taken more cards.
pub proof fn law_no_double_after_split<N: Scalar, S: Shoe<N>>(
    g: SplitGame<S::State>,
    t: Tally,
    pending: nat,
    splits: nat,
    s: S::State,
    budget: nat,
)
    requires
        S::sane(s),
        t.len() == 10,
        hard(t) <= 21,
        !g.das,
        splits == 0 || t[g.card.rank()] != 2,
    ensures
        arm_value::<N, S>(g, t, true, pending, splits, s, budget) == arm_value::<N, S>(
            g,
            t,
            false,
            pending,
            splits,
            s,
            budget,
        ),
{
}

/// Where arms may not double, a pair among the arms is worth the larger of what it is worth when
/// it is played on and of what it is worth split again.
pub proof fn law_pair_is_played_or_split_again<N: Scalar, S: Shoe<N>>(
    g: SplitGame<S::State>,
    t: Tally,
    pending: nat,
    splits: nat,
    s: S::State,
    budget: nat,
)
    requires
        S::sane(s),
        S::sane(g.shoe0),
        g.card.valid(),
        t.len() == 10,
        hard(t) <= 21,
        size(t) == 2,
        !g.das,
        t[g.card.rank()] == 2,
    ensures
        arm_value::<N, S>(g, t, true, pending, splits + 1, s, budget) == larger(
            arm_value::<N, S>(g, t, false, pending, splits + 1, s, budget),
            arm_value::<N, S>(
                g,
                single(g.card),
                false,
                pending + 1,
                splits,
                next_arm(g, s, budget),
                budget,
            ),
        ),
{
    single_card_total(g.card);
}

/// An arm is worth no less than it is worth split again, wherever a split is left and it is a
/// pair.
pub proof fn law_pairs_may_be_split_again<N: Scalar, S: Shoe<N>>(
    g: SplitGame<S::State>,
    t: Tally,
    pending: nat,
    splits: nat,
    s: S::State,
    budget: nat,
)
    requires
        ranks::<N>(),
        S::sane(s),
        S::sane(g.shoe0),
        g.card.valid(),
        t.len() == 10,
        hard(t) <= 21,
        size(t) == 2,
        t[g.card.rank()] == 2,
    ensures
        !arm_value::<N, S>(g, t, true, pending, splits + 1, s, budget).less_spec(
            arm_value::<N, S>(
                g,
                single(g.card),
                false,
                pending + 1,
                splits,
                next_arm(g, s, budget),
                budget,
            ),
        ),
{
    single_card_total(g.card);
    let v = arm_value::<N, S>(g, t, true, pending, splits + 1, s, budget);
    let again = arm_value::<N, S>(
        g,
        single(g.card),
        false,
        pending + 1,
        splits,
        next_arm(g, s, budget),
        budget,
    );
    assert(((splits + 1) - 1) as nat == splits);
    assert(exists|x: N| v == #[trigger] larger(x, again));
    assert(!again.less_spec(again));
}

/// An arm is worth no less than standing, and below 21 no less than taking a card, and right
/// after the split no less than doubling where the rules allow it and it is no ace. Where it is
/// neither doubled nor split again it is worth one of the first two.
pub proof fn law_arm_takes_the_better_play<N: Scalar, S: Shoe<N>>(
    g: SplitGame<S::State>,
    t: Tally,
    first: bool,
    pending: nat,
    s: S::State,
    budget: nat,
)
    requires
        ranks::<N>(),
        S::sane(s),
        t.len() == 10,
        hard(t) <= 21,
        size(t) != 1,
    ensures
        ({
            let n = basis_draws::<N, S>(g.basis, s).len() as int;
            let v = arm_value::<N, S>(g, t, first, pending, 0, s, budget);
            let stand = arm_payoff::<N, S>(g.basis, t, s).plus_spec(
                rest_value::<N, S>(g, pending, 0, s, budget),
            );
            let hit = arm_hit_upto::<N, S>(g, t, pending, 0, s, budget, n);
            let double = arm_double_upto::<N, S>(g, t, pending, 0, s, budget, n);
            &&& !v.less_spec(stand)
            &&& best(t) < 21 ==> !v.less_spec(hit)
            &&& first && g.das && g.card != Card::Ace ==> !v.less_spec(double)
            &&& !first || !g.das || g.card == Card::Ace ==> v == stand || best(t) < 21 && v == hit
            &&& v == stand || v == hit || v == double
        }),
{
}

/// What an arm wins that stands depends on its total alone: a 21 of two cards is no natural.
pub proof fn law_arms_are_paid_by_their_total<N: Scalar, S: Shoe<N>>(
    b: Basis,
    t: Tally,
    u: Tally,
    s: S::State,
)
    requires
        best(t) == best(u),
    ensures
        arm_payoff::<N, S>(b, t, s) == arm_payoff::<N, S>(b, u, s),
{
}

/// Split aces get one card each: neither that arms may double nor how many splits are left makes
/// a difference to them.
pub proof fn law_split_aces_get_one_card<N: Scalar, S: Shoe<N>>(
    g: SplitGame<S::State>,
    das: bool,
    pending: nat,
    a: nat,
    b: nat,
    s: S::State,
    budget: nat,
)
    requires
        S::sane(s),
        S::sane(g.shoe0),
        g.card == Card::Ace,
    ensures
        arm_value::<N, S>(g, single(Card::Ace), false, pending, a, s, budget) == arm_value::<N, S>(
            SplitGame { das, ..g },
            single(Card::Ace),
            false,
            pending,
            b,
            s,
            budget,
        ),
    decreases pending, basis_draws::<N, S>(g.basis, s).len() + 1,
{
    single_card_total(Card::Ace);
    let n = basis_draws::<N, S>(g.basis, s).len() as int;
    aces_upto::<N, S>(g, das, pending, a, b, s, budget, n);
}

proof fn aces_upto<N: Scalar, S: Shoe<N>>(
    g: SplitGame<S::State>,
    das: bool,
    pending: nat,
    a: nat,
    b: nat,
    s: S::State,
    budget: nat,
    k: int,
)
    requires
        S::sane(s),
        S::sane(g.shoe0),
        g.card == Card::Ace,
        0 <= k <= basis_draws::<N, S>(g.basis, s).len(),
    ensures
        second_upto::<N, S>(g, single(Card::Ace), pending, a, s, budget, k) == second_upto::<N, S>(
            SplitGame { das, ..g },
            single(Card::Ace),
            pending,
            b,
            s,
            budget,
            k,
        ),
    decreases pending, k,
{
    single_card_total(Card::Ace);
    if k > 0 {
        aces_upto::<N, S>(g, das, pending, a, b, s, budget, k - 1);
        arm_child::<N, S>(g.basis, single(Card::Ace), s, k - 1);
        let card = basis_draws::<N, S>(g.basis, s)[k - 1].0;
        let left = S::without(s, single(card));
        if pending > 0 {
            law_split_aces_get_one_card::<N, S>(
                g,
                das,
                (pending - 1) as nat,
                a,
                b,
                next_arm(g, left, spent(budget)),
                spent(budget),
            );
        }
        let h = SplitGame { das, ..g };
        assert(next_arm(h, left, spent(budget)) == next_arm(g, left, spent(budget)));
        assert(rest_value::<N, S>(g, pending, a, left, spent(budget)) == rest_value::<N, S>(
            h,
            pending,
            b,
            left,
            spent(budget),
        ));
    }
}

/// The part of what one more card and no other wins, over the first `k` cards that can come, as
/// a number.
pub open spec fn one_card_average<N: Scalar, S: Shoe<N>>(
    val: spec_fn(N) -> real,
    b: Basis,
    t: Tally,
    s: S::State,
    k: int,
) -> real
    decreases k,
{
    if k <= 0 {
        0real
    } else {
        let (card, p) = basis_draws::<N, S>(b, s)[k - 1];
        one_card_average::<N, S>(val, b, t, s, k - 1) + val(p) * val(
            arm_payoff::<N, S>(b, with_card(t, card), S::without(s, single(card))),
        )
    }
}

/// In an exact arithmetic the last of the split aces is worth what standing on its second card
/// wins on average.
pub proof fn law_last_ace_stands<N: Scalar, S: Shoe<N>>(
    val: spec_fn(N) -> real,
    g: SplitGame<S::State>,
    splits: nat,
    s: S::State,
    budget: nat,
)
    requires
        exact(val),
        S::sane(s),
        g.card == Card::Ace,
    ensures
        val(arm_value::<N, S>(g, single(Card::Ace), false, 0, splits, s, budget))
            == one_card_average::<N, S>(
            val,
            g.basis,
            single(Card::Ace),
            s,
            basis_draws::<N, S>(g.basis, s).len() as int,
        ),
{
    single_card_total(Card::Ace);
    last_ace_upto::<N, S>(
        val,
        g,
        splits,
        s,
        budget,
        basis_draws::<N, S>(g.basis, s).len() as int,
    );
}

proof fn last_ace_upto<N: Scalar, S: Shoe<N>>(
    val: spec_fn(N) -> real,
    g: SplitGame<S::State>,
    splits: nat,
    s: S::State,
    budget: nat,
    k: int,
)
    requires
        exact(val),
        S::sane(s),
        g.card == Card::Ace,
        0 <= k <= basis_draws::<N, S>(g.basis, s).len(),
    ensures
        val(second_upto::<N, S>(g, single(Card::Ace), 0, splits, s, budget, k))
            == one_card_average::<N, S>(val, g.basis, single(Card::Ace), s, k),
    decreases k,
{
    exact_whole::<N>(val, 0);
    single_card_total(Card::Ace);
    if k > 0 {
        last_ace_upto::<N, S>(val, g, splits, s, budget, k - 1);
        arm_child::<N, S>(g.basis, single(Card::Ace), s, k - 1);
        let card = basis_draws::<N, S>(g.basis, s)[k - 1].0;
        let left = S::without(s, single(card));
        assert(rest_value::<N, S>(g, 0, splits, left, spent(budget)) == zero::<N>());
    }
}

/// In an exact arithmetic an arm that doubles takes one card and wins or loses twice what it
/// would then win or lose.
pub proof fn law_doubled_arms_win_twice<N: Scalar, S: Shoe<N>>(
    val: spec_fn(N) -> real,
    g: SplitGame<S::State>,
    t: Tally,
    splits: nat,
    s: S::State,
    budget: nat,
    k: int,
)
    requires
        exact(val),
        S::sane(s),
        t.len() == 10,
        hard(t) <= 21,
        0 <= k <= basis_draws::<N, S>(g.basis, s).len(),
    ensures
        val(arm_double_upto::<N, S>(g, t, 0, splits, s, budget, k)) == 2real * one_card_average::<
            N,
            S,
        >(val, g.basis, t, s, k),
    decreases k,
{
    exact_whole::<N>(val, 0);
    exact_whole::<N>(val, 2);
    if k > 0 {
        law_doubled_arms_win_twice::<N, S>(val, g, t, splits, s, budget, k - 1);
        let (card, p) = basis_draws::<N, S>(g.basis, s)[k - 1];
        let x = val(p);
        let left = S::without(s, single(card));
        assert(rest_value::<N, S>(g, 0, splits, left, spent(budget)) == zero::<N>());
        let y = val(arm_payoff::<N, S>(g.basis, with_card(t, card), left));
        let z = one_card_average::<N, S>(val, g.basis, t, s, k - 1);
        assert(2real * z + x * (2real * y) == 2real * (z + x * y)) by (nonlinear_arith);
    }
}

/// The second card of the arm in play uses up a budget of one: it is then as good as none.
pub proof fn law_a_card_uses_the_budget<N: Scalar, S: Shoe<N>>(
    g: SplitGame<S::State>,
    t: Tally,
    pending: nat,
    splits: nat,
    s: S::State,
)
    requires
        S::sane(s),
        t.len() == 10,
        hard(t) <= 21,
        size(t) == 1,
    ensures
        arm_value::<N, S>(g, t, false, pending, splits, s, 1) == arm_value::<N, S>(
            g,
            t,
            false,
            pending,
            splits,
            s,
            0,
        ),
{
    budget_of_one::<N, S>(
        g,
        t,
        pending,
        splits,
        s,
        basis_draws::<N, S>(g.basis, s).len() as int,
    );
}

proof fn budget_of_one<N: Scalar, S: Shoe<N>>(
    g: SplitGame<S::State>,
    t: Tally,
    pending: nat,
    splits: nat,
    s: S::State,
    k: int,
)
    requires
        S::sane(s),
        t.len() == 10,
        hard(t) <= 21,
        0 <= k <= basis_draws::<N, S>(g.basis, s).len(),
    ensures
        second_upto::<N, S>(g, t, pending, splits, s, 1, k) == second_upto::<N, S>(
            g,
            t,
            pending,
            splits,
            s,
            0,
            k,
        ),
    decreases k,
{
    if k > 0 {
        budget_of_one::<N, S>(g, t, pending, splits, s, k - 1);
    }
}

/// While cards are followed, the next arm is played from the very shoe that the arms before it
/// have left, and it does not matter what the shoe was after the split; once they are not, it is
/// played from that shoe, and it does not matter what is left.
pub proof fn law_next_arm_knows_followed_cards<N: Scalar, S: Shoe<N>>(
    g: SplitGame<S::State>,
    pending: nat,
    splits: nat,
    s: S::State,
    other: S::State,
    budget: nat,
)
    requires
        S::sane(s),
        S::sane(other),
        S::sane(g.shoe0),
        g.card.valid(),
        pending > 0,
    ensures
        budget > 0 ==> rest_value::<N, S>(g, pending, splits, s, budget) == arm_value::<N, S>(
            g,
            single(g.card),
            false,
            (pending - 1) as nat,
            splits,
            s,
            budget,
        ),
        rest_value::<N, S>(g, pending, splits, s, 0) == rest_value::<N, S>(
            g,
            pending,
            splits,
            other,
            0,
        ),
{
    single_card_total(g.card);
    reveal_with_fuel(rest_value, 2);
    assert(next_arm(g, s, budget) == if budget > 0 {
        s
    } else {
        g.shoe0
    });
    assert(next_arm(g, s, 0) == next_arm(g, other, 0));
}

/// Whether the chances on a basis are chances, whatever the shoe: none is negative, those of the
/// next card add up to no more than one, and standing wins or loses no more than the bet.
pub open spec fn fair<N: Scalar, S: Shoe<N>>(val: spec_fn(N) -> real, b: Basis) -> bool {
    &&& forall|s: S::State, i: int|
        S::sane(s) && 0 <= i < basis_draws::<N, S>(b, s).len() ==> val(
            (#[trigger] basis_draws::<N, S>(b, s)[i]).1,
        ) >= 0real
    &&& forall|s: S::State|
        S::sane(s) ==> chance_sum(
            val,
            #[trigger] basis_draws::<N, S>(b, s),
            basis_draws::<N, S>(b, s).len() as int,
        ) <= 1real
    &&& forall|s: S::State, t: Tally|
        S::sane(s) ==> -1real <= val(#[trigger] arm_payoff::<N, S>(b, t, s)) <= 1real
}

/// The most that arms can win or lose: the bet of each, and twice that where they may double.
pub open spec fn stake(das: bool, arms: nat) -> real {
    if das {
        2real * (arms as int) as real
    } else {
        (arms as int) as real
    }
}

/// In an exact arithmetic an arm, the arms after it and those that further splits may bring win
/// or lose no more than a bet for each, and no more than two where arms may double.
pub proof fn law_arms_win_or_lose_their_bets<N: Scalar, S: Shoe<N>>(
    val: spec_fn(N) -> real,
    g: SplitGame<S::State>,
    t: Tally,
    first: bool,
    pending: nat,
    splits: nat,
    s: S::State,
    budget: nat,
)
    requires
        exact(val),
        fair::<N, S>(val, g.basis),
        S::sane(s),
        S::sane(g.shoe0),
        g.card.valid(),
        t.len() == 10,
        hard(t) <= 21,
    ensures
        ({
            let v = val(arm_value::<N, S>(g, t, first, pending, splits, s, budget));
            let most = stake(g.das, pending + 1 + splits);
            -most <= v <= most
        }),
    decreases splits, pending, 33 - hard(t), 20int,
{
    basis_draws_are_there::<N, S>(g.basis, s);
    S::draws_are_there(s);
    let most = stake(g.das, pending + 1 + splits);
    let draws = basis_draws::<N, S>(g.basis, s);
    let n = draws.len() as int;
    let c = chance_sum(val, draws, n);
    chances_are_small(val, draws, n);
    assert(c * most <= most && -most <= -(c * most)) by (nonlinear_arith)
        requires
            0real <= c <= 1real,
            most >= 0real,
    ;
    if size(t) == 1 {
        second_bound::<N, S>(val, g, t, pending, splits, s, budget, n);
    } else {
        rest_bound::<N, S>(val, g, pending, splits, s, budget);
        hit_bound::<N, S>(val, g, t, pending, splits, s, budget, n);
        if g.das {
            double_bound::<N, S>(val, g, t, pending, splits, s, budget, n);
        }
        if splits > 0 {
            single_card_total(g.card);
            law_arms_win_or_lose_their_bets::<N, S>(
                val,
                g,
                single(g.card),
                false,
                pending + 1,
                (splits - 1) as nat,
                next_arm(g, s, budget),
                budget,
            );
        }
    }
}

proof fn chances_are_small<N: Scalar>(val: spec_fn(N) -> real, draws: Seq<(Card, N)>, k: int)
    requires
        0 <= k <= draws.len(),
        forall|i: int| 0 <= i < draws.len() ==> val((#[trigger] draws[i]).1) >= 0real,
    ensures
        chance_sum(val, draws, k) >= 0real,
    decreases k,
{
    if k > 0 {
        chances_are_small(val, draws, k - 1);
    }
}

proof fn rest_bound<N: Scalar, S: Shoe<N>>(
    val: spec_fn(N) -> real,
    g: SplitGame<S::State>,
    pending: nat,
    splits: nat,
    s: S::State,
    budget: nat,
)
    requires
        exact(val),
        fair::<N, S>(val, g.basis),
        S::sane(s),
        S::sane(g.shoe0),
        g.card.valid(),
    ensures
        ({
            let v = val(rest_value::<N, S>(g, pending, splits, s, budget));
            let most = stake(g.das, pending + splits);
            -most <= v <= most
        }),
    decreases splits, pending, 0int, 0int,
{
    exact_whole::<N>(val, 0);
    if pending > 0 {
        single_card_total(g.card);
        law_arms_win_or_lose_their_bets::<N, S>(
            val,
            g,
            single(g.card),
            false,
            (pending - 1) as nat,
            splits,
            next_arm(g, s, budget),
            budget,
        );
    }
}

/// One term more of a sum that stays within bounds.
proof fn term_bound(before: real, sum: real, p: real, x: real, most: real)
    requires
        -(sum * most) <= before <= sum * most,
        p >= 0real,
        -most <= x <= most,
    ensures
        -((sum + p) * most) <= before + p * x <= (sum + p) * most,
{
    assert(-(p * most) <= p * x <= p * most) by (nonlinear_arith)
        requires
            p >= 0real,
            -most <= x <= most,
    ;
    assert((sum + p) * most == sum * most + p * most) by (nonlinear_arith);
}

proof fn second_bound<N: Scalar, S: Shoe<N>>(
    val: spec_fn(N) -> real,
    g: SplitGame<S::State>,
    t: Tally,
    pending: nat,
    splits: nat,
    s: S::State,
    budget: nat,
    k: int,
)
    requires
        exact(val),
        fair::<N, S>(val, g.basis),
        S::sane(s),
        S::sane(g.shoe0),
        g.card.valid(),
        t.len() == 10,
        hard(t) <= 10,
        0 <= k <= basis_draws::<N, S>(g.basis, s).len(),
    ensures
        ({
            let v = val(second_upto::<N, S>(g, t, pending, splits, s, budget, k));
            let most = stake(g.das, pending + 1 + splits);
            let c = chance_sum(val, basis_draws::<N, S>(g.basis, s), k);
            -(c * most) <= v <= c * most
        }),
    decreases splits, pending, 33 - hard(t), k,
{
    exact_whole::<N>(val, 0);
    let most = stake(g.das, pending + 1 + splits);
    if k > 0 {
        second_bound::<N, S>(val, g, t, pending, splits, s, budget, k - 1);
        arm_child::<N, S>(g.basis, t, s, k - 1);
        let draws = basis_draws::<N, S>(g.basis, s);
        let (card, p) = draws[k - 1];
        let child = with_card(t, card);
        let left = S::without(s, single(card));
        assert(val(draws[k - 1].1) >= 0real);
        rest_bound::<N, S>(val, g, pending, splits, left, spent(budget));
        let x = if g.card == Card::Ace {
            arm_payoff::<N, S>(g.basis, child, left).plus_spec(
                rest_value::<N, S>(g, pending, splits, left, spent(budget)),
            )
        } else {
            arm_value::<N, S>(g, child, true, pending, splits, left, spent(budget))
        };
        law_arms_win_or_lose_their_bets::<N, S>(
            val,
            g,
            child,
            true,
            pending,
            splits,
            left,
            spent(budget),
        );
        term_bound(
            val(second_upto::<N, S>(g, t, pending, splits, s, budget, k - 1)),
            chance_sum(val, draws, k - 1),
            val(p),
            val(x),
            most,
        );
    } else {
        assert(0real * most == 0real) by (nonlinear_arith);
    }
}

proof fn hit_bound<N: Scalar, S: Shoe<N>>(
    val: spec_fn(N) -> real,
    g: SplitGame<S::State>,
    t: Tally,
    pending: nat,
    splits: nat,
    s: S::State,
    budget: nat,
    k: int,
)
    requires
        exact(val),
        fair::<N, S>(val, g.basis),
        S::sane(s),
        S::sane(g.shoe0),
        g.card.valid(),
        t.len() == 10,
        hard(t) <= 21,
        0 <= k <= basis_draws::<N, S>(g.basis, s).len(),
    ensures
        ({
            let v = val(arm_hit_upto::<N, S>(g, t, pending, splits, s, budget, k));
            let most = stake(g.das, pending + 1 + splits);
            let c = chance_sum(val, basis_draws::<N, S>(g.basis, s), k);
            -(c * most) <= v <= c * most
        }),
    decreases splits, pending, 33 - hard(t), k,
{
    exact_whole::<N>(val, 0);
    exact_whole::<N>(val, (-1) as i64);
    let most = stake(g.das, pending + 1 + splits);
    if k > 0 {
        hit_bound::<N, S>(val, g, t, pending, splits, s, budget, k - 1);
        arm_child::<N, S>(g.basis, t, s, k - 1);
        let draws = basis_draws::<N, S>(g.basis, s);
        let (card, p) = draws[k - 1];
        let child = with_card(t, card);
        let left = S::without(s, single(card));
        assert(val(draws[k - 1].1) >= 0real);
        rest_bound::<N, S>(val, g, pending, splits, left, spent(budget));
        let x = if hard(child) > 21 {
            crate::num::minus_one::<N>().plus_spec(
                rest_value::<N, S>(g, pending, splits, left, spent(budget)),
            )
        } else {
            arm_value::<N, S>(g, child, false, pending, splits, left, spent(budget))
        };
        if hard(child) <= 21 {
            law_arms_win_or_lose_their_bets::<N, S>(
                val,
                g,
                child,
                false,
                pending,
                splits,
                left,
                spent(budget),
            );
        }
        term_bound(
            val(arm_hit_upto::<N, S>(g, t, pending, splits, s, budget, k - 1)),
            chance_sum(val, draws, k - 1),
            val(p),
            val(x),
            most,
        );
    } else {
        assert(0real * most == 0real) by (nonlinear_arith);
    }
}

proof fn double_bound<N: Scalar, S: Shoe<N>>(
    val: spec_fn(N) -> real,
    g: SplitGame<S::State>,
    t: Tally,
    pending: nat,
    splits: nat,
    s: S::State,
    budget: nat,
    k: int,
)
    requires
        exact(val),
        fair::<N, S>(val, g.basis),
        S::sane(s),
        S::sane(g.shoe0),
        g.card.valid(),
        g.das,
        t.len() == 10,
        hard(t) <= 21,
        0 <= k <= basis_draws::<N, S>(g.basis, s).len(),
    ensures
        ({
            let v = val(arm_double_upto::<N, S>(g, t, pending, splits, s, budget, k));
            let most = stake(g.das, pending + 1 + splits);
            let c = chance_sum(val, basis_draws::<N, S>(g.basis, s), k);
            -(c * most) <= v <= c * most
        }),
    decreases splits, pending, 33 - hard(t), k,
{
    exact_whole::<N>(val, 0);
    exact_whole::<N>(val, 2);
    let most = stake(g.das, pending + 1 + splits);
    if k > 0 {
        double_bound::<N, S>(val, g, t, pending, splits, s, budget, k - 1);
        arm_child::<N, S>(g.basis, t, s, k - 1);
        let draws = basis_draws::<N, S>(g.basis, s);
        let (card, p) = draws[k - 1];
        let child = with_card(t, card);
        let left = S::without(s, single(card));
        assert(val(draws[k - 1].1) >= 0real);
        rest_bound::<N, S>(val, g, pending, splits, left, spent(budget));
        let y = val(arm_payoff::<N, S>(g.basis, child, left));
        let r = val(rest_value::<N, S>(g, pending, splits, left, spent(budget)));
        term_bound(
            val(arm_double_upto::<N, S>(g, t, pending, splits, s, budget, k - 1)),
            chance_sum(val, draws, k - 1),
            val(p),
            2real * y + r,
            most,
        );
    } else {
        assert(0real * most == 0real) by (nonlinear_arith);
    }
}

/// In an exact arithmetic a split wins or loses no more than a bet for each hand that the rules
/// allow, two at least, and no more than two bets for each where arms may double.
pub proof fn law_split_wins_or_loses_its_bets<N: Scalar, S: Shoe<N>>(
    val: spec_fn(N) -> real,
    card: Card,
    s: S::State,
    b: Basis,
    rules: Ruleset,
)
    requires
        exact(val),
        fair::<N, S>(val, b),
        S::sane(s),
        card.valid(),
    ensures
        ({
            let v = val(split_value::<N, S>(card, s, b, rules));
            let hands = if rules.max_split_hands < 2 {
                2
            } else {
                rules.max_split_hands as nat
            };
            -stake(rules.das, hands) <= v <= stake(rules.das, hands)
        }),
{
    single_card_total(card);
    law_arms_win_or_lose_their_bets::<N, S>(
        val,
        SplitGame { shoe0: s, basis: b, card, das: rules.das },
        single(card),
        false,
        1,
        if rules.max_split_hands < 2 {
            0
        } else {
            (rules.max_split_hands - 2) as nat
        },
        s,
        rules.split_cards as nat,
    );
}

/// Whether one game of split arms allows no more than another.
pub open spec fn no_more_liberal<T>(g: SplitGame<T>, h: SplitGame<T>) -> bool {
    g.shoe0 == h.shoe0 && g.basis == h.basis && g.card == h.card && (g.das ==> h.das)
}

/// In an exact arithmetic arms are worth no less where they may double, and where they may be
/// split more often.
pub proof fn law_liberal_arms_are_worth_no_less<N: Scalar, S: Shoe<N>>(
    val: spec_fn(N) -> real,
    g: SplitGame<S::State>,
    h: SplitGame<S::State>,
    t: Tally,
    first: bool,
    pending: nat,
    a: nat,
    b: nat,
    s: S::State,
    budget: nat,
)
    requires
        exact(val),
        fair::<N, S>(val, g.basis),
        no_more_liberal(g, h),
        a <= b,
        S::sane(s),
        S::sane(g.shoe0),
        g.card.valid(),
        t.len() == 10,
        hard(t) <= 21,
    ensures
        val(arm_value::<N, S>(g, t, first, pending, a, s, budget)) <= val(
            arm_value::<N, S>(h, t, first, pending, b, s, budget),
        ),
    decreases b, pending, 33 - hard(t), 20int,
{
    basis_draws_are_there::<N, S>(g.basis, s);
    S::draws_are_there(s);
    let n = basis_draws::<N, S>(g.basis, s).len() as int;
    if size(t) == 1 {
        second_grows::<N, S>(val, g, h, t, pending, a, b, s, budget, n);
    } else {
        rest_grows::<N, S>(val, g, h, pending, a, b, s, budget);
        hit_grows::<N, S>(val, g, h, t, pending, a, b, s, budget, n);
        double_grows::<N, S>(val, g, h, t, pending, a, b, s, budget, n);
        if a > 0 {
            single_card_total(g.card);
            law_liberal_arms_are_worth_no_less::<N, S>(
                val,
                g,
                h,
                single(g.card),
                false,
                pending + 1,
                (a - 1) as nat,
                (b - 1) as nat,
                next_arm(g, s, budget),
                budget,
            );
        }
        let x0 = arm_payoff::<N, S>(g.basis, t, s).plus_spec(
            rest_value::<N, S>(g, pending, a, s, budget),
        );
        let y0 = arm_payoff::<N, S>(h.basis, t, s).plus_spec(
            rest_value::<N, S>(h, pending, b, s, budget),
        );
        let x1 = if best(t) < 21 {
            larger(x0, arm_hit_upto::<N, S>(g, t, pending, a, s, budget, n))
        } else {
            x0
        };
        let y1 = if best(t) < 21 {
            larger(y0, arm_hit_upto::<N, S>(h, t, pending, b, s, budget, n))
        } else {
            y0
        };
        assert(val(x1) <= val(y1));
        let x2 = if first && g.das && g.card != Card::Ace {
            larger(x1, arm_double_upto::<N, S>(g, t, pending, a, s, budget, n))
        } else {
            x1
        };
        let y2 = if first && h.das && h.card != Card::Ace {
            larger(y1, arm_double_upto::<N, S>(h, t, pending, b, s, budget, n))
        } else {
            y1
        };
        assert(val(x2) <= val(y2));
    }
}

proof fn rest_grows<N: Scalar, S: Shoe<N>>(
    val: spec_fn(N) -> real,
    g: SplitGame<S::State>,
    h: SplitGame<S::State>,
    pending: nat,
    a: nat,
    b: nat,
    s: S::State,
    budget: nat,
)
    requires
        exact(val),
        fair::<N, S>(val, g.basis),
        no_more_liberal(g, h),
        a <= b,
        S::sane(s),
        S::sane(g.shoe0),
        g.card.valid(),
    ensures
        val(rest_value::<N, S>(g, pending, a, s, budget)) <= val(
            rest_value::<N, S>(h, pending, b, s, budget),
        ),
    decreases b, pending, 0int, 0int,
{
    if pending > 0 {
        single_card_total(g.card);
        law_liberal_arms_are_worth_no_less::<N, S>(
            val,
            g,
            h,
            single(g.card),
            false,
            (pending - 1) as nat,
            a,
            b,
            next_arm(g, s, budget),
            budget,
        );
    }
}

proof fn term_grows(x0: real, y0: real, p: real, x: real, y: real)
    requires
        x0 <= y0,
        p >= 0real,
        x <= y,
    ensures
        x0 + p * x <= y0 + p * y,
{
    assert(p * x <= p * y) by (nonlinear_arith)
        requires
            p >= 0real,
            x <= y,
    ;
}

proof fn second_grows<N: Scalar, S: Shoe<N>>(
    val: spec_fn(N) -> real,
    g: SplitGame<S::State>,
    h: SplitGame<S::State>,
    t: Tally,
    pending: nat,
    a: nat,
    b: nat,
    s: S::State,
    budget: nat,
    k: int,
)
    requires
        exact(val),
        fair::<N, S>(val, g.basis),
        no_more_liberal(g, h),
        a <= b,
        S::sane(s),
        S::sane(g.shoe0),
        g.card.valid(),
        t.len() == 10,
        hard(t) <= 10,
        0 <= k <= basis_draws::<N, S>(g.basis, s).len(),
    ensures
        val(second_upto::<N, S>(g, t, pending, a, s, budget, k)) <= val(
            second_upto::<N, S>(h, t, pending, b, s, budget, k),
        ),
    decreases b, pending, 33 - hard(t), k,
{
    if k > 0 {
        second_grows::<N, S>(val, g, h, t, pending, a, b, s, budget, k - 1);
        arm_child::<N, S>(g.basis, t, s, k - 1);
        let draws = basis_draws::<N, S>(g.basis, s);
        let (card, p) = draws[k - 1];
        let child = with_card(t, card);
        let left = S::without(s, single(card));
        assert(val(draws[k - 1].1) >= 0real);
        rest_grows::<N, S>(val, g, h, pending, a, b, left, spent(budget));
        law_liberal_arms_are_worth_no_less::<N, S>(
            val,
            g,
            h,
            child,
            true,
            pending,
            a,
            b,
            left,
            spent(budget),
        );
        let x = if g.card == Card::Ace {
            arm_payoff::<N, S>(g.basis, child, left).plus_spec(
                rest_value::<N, S>(g, pending, a, left, spent(budget)),
            )
        } else {
            arm_value::<N, S>(g, child, true, pending, a, left, spent(budget))
        };
        let y = if h.card == Card::Ace {
            arm_payoff::<N, S>(h.basis, child, left).plus_spec(
                rest_value::<N, S>(h, pending, b, left, spent(budget)),
            )
        } else {
            arm_value::<N, S>(h, child, true, pending, b, left, spent(budget))
        };
        term_grows(
            val(second_upto::<N, S>(g, t, pending, a, s, budget, k - 1)),
            val(second_upto::<N, S>(h, t, pending, b, s, budget, k - 1)),
            val(p),
            val(x),
            val(y),
        );
    }
}

proof fn hit_grows<N: Scalar, S: Shoe<N>>(
    val: spec_fn(N) -> real,
    g: SplitGame<S::State>,
    h: SplitGame<S::State>,
    t: Tally,
    pending: nat,
    a: nat,
    b: nat,
    s: S::State,
    budget: nat,
    k: int,
)
    requires
        exact(val),
        fair::<N, S>(val, g.basis),
        no_more_liberal(g, h),
        a <= b,
        S::sane(s),
        S::sane(g.shoe0),
        g.card.valid(),
        t.len() == 10,
        hard(t) <= 21,
        0 <= k <= basis_draws::<N, S>(g.basis, s).len(),
    ensures
        val(arm_hit_upto::<N, S>(g, t, pending, a, s, budget, k)) <= val(
            arm_hit_upto::<N, S>(h, t, pending, b, s, budget, k),
        ),
    decreases b, pending, 33 - hard(t), k,
{
    if k > 0 {
        hit_grows::<N, S>(val, g, h, t, pending, a, b, s, budget, k - 1);
        arm_child::<N, S>(g.basis, t, s, k - 1);
        let draws = basis_draws::<N, S>(g.basis, s);
        let (card, p) = draws[k - 1];
        let child = with_card(t, card);
        let left = S::without(s, single(card));
        assert(val(draws[k - 1].1) >= 0real);
        rest_grows::<N, S>(val, g, h, pending, a, b, left, spent(budget));
        if hard(child) <= 21 {
            law_liberal_arms_are_worth_no_less::<N, S>(
                val,
                g,
                h,
                child,
                false,
                pending,
                a,
                b,
                left,
                spent(budget),
            );
        }
        let lost = crate::num::minus_one::<N>();
        let x = if hard(child) > 21 {
            lost.plus_spec(rest_value::<N, S>(g, pending, a, left, spent(budget)))
        } else {
            arm_value::<N, S>(g, child, false, pending, a, left, spent(budget))
        };
        let y = if hard(child) > 21 {
            lost.plus_spec(rest_value::<N, S>(h, pending, b, left, spent(budget)))
        } else {
            arm_value::<N, S>(h, child, false, pending, b, left, spent(budget))
        };
        term_grows(
            val(arm_hit_upto::<N, S>(g, t, pending, a, s, budget, k - 1)),
            val(arm_hit_upto::<N, S>(h, t, pending, b, s, budget, k - 1)),
            val(p),
            val(x),
            val(y),
        );
    }
}

proof fn double_grows<N: Scalar, S: Shoe<N>>(
    val: spec_fn(N) -> real,
    g: SplitGame<S::State>,
    h: SplitGame<S::State>,
    t: Tally,
    pending: nat,
    a: nat,
    b: nat,
    s: S::State,
    budget: nat,
    k: int,
)
    requires
        exact(val),
        fair::<N, S>(val, g.basis),
        no_more_liberal(g, h),
        a <= b,
        S::sane(s),
        S::sane(g.shoe0),
        g.card.valid(),
        t.len() == 10,
        hard(t) <= 21,
        0 <= k <= basis_draws::<N, S>(g.basis, s).len(),
    ensures
        val(arm_double_upto::<N, S>(g, t, pending, a, s, budget, k)) <= val(
            arm_double_upto::<N, S>(h, t, pending, b, s, budget, k),
        ),
    decreases b, pending, 33 - hard(t), k,
{
    if k > 0 {
        double_grows::<N, S>(val, g, h, t, pending, a, b, s, budget, k - 1);
        arm_child::<N, S>(g.basis, t, s, k - 1);
        let draws = basis_draws::<N, S>(g.basis, s);
        let (card, p) = draws[k - 1];
        let child = with_card(t, card);
        let left = S::without(s, single(card));
        assert(val(draws[k - 1].1) >= 0real);
        rest_grows::<N, S>(val, g, h, pending, a, b, left, spent(budget));
        let twice = crate::num::whole::<N>(2).times_spec(
            arm_payoff::<N, S>(g.basis, child, left),
        );
        term_grows(
            val(arm_double_upto::<N, S>(g, t, pending, a, s, budget, k - 1)),
            val(arm_double_upto::<N, S>(h, t, pending, b, s, budget, k - 1)),
            val(p),
            val(twice.plus_spec(rest_value::<N, S>(g, pending, a, left, spent(budget)))),
            val(twice.plus_spec(rest_value::<N, S>(h, pending, b, left, spent(budget)))),
        );
    }
}

/// In an exact arithmetic a split is worth no less under rules that let arms double, and under
/// rules that allow more hands.
pub proof fn law_liberal_splits_are_worth_no_less<N: Scalar, S: Shoe<N>>(
    val: spec_fn(N) -> real,
    card: Card,
    s: S::State,
    b: Basis,
    strict: Ruleset,
    liberal: Ruleset,
)
    requires
        exact(val),
        fair::<N, S>(val, b),
        S::sane(s),
        card.valid(),
        strict.das ==> liberal.das,
        strict.max_split_hands <= liberal.max_split_hands,
        strict.split_cards == liberal.split_cards,
    ensures
        val(split_value::<N, S>(card, s, b, strict)) <= val(
            split_value::<N, S>(card, s, b, liberal),
        ),
{
    single_card_total(card);
    law_liberal_arms_are_worth_no_less::<N, S>(
        val,
        SplitGame { shoe0: s, basis: b, card, das: strict.das },
        SplitGame { shoe0: s, basis: b, card, das: liberal.das },
        single(card),
        false,
        1,
        if strict.max_split_hands < 2 {
            0
        } else {
            (strict.max_split_hands - 2) as nat
        },
        if liberal.max_split_hands < 2 {
            0
        } else {
            (liberal.max_split_hands - 2) as nat
        },
        s,
        strict.split_cards as nat,
    );
}

/// A split begins with two arms, from the shoe that the pair has left, and as many more can come
/// as make up the hands that the rules allow: a second card that makes a pair again may be split
/// exactly where they allow more than two.
pub proof fn law_split_begins_with_two_arms<N: Scalar, S: Shoe<N>>(
    card: Card,
    s: S::State,
    b: Basis,
    rules: Ruleset,
    splits: nat,
)
    requires
        S::sane(s),
        card.valid(),
        2 + splits == if rules.max_split_hands < 2 {
            2
        } else {
            rules.max_split_hands as int
        },
    ensures
        split_value::<N, S>(card, s, b, rules) == arm_value::<N, S>(
            SplitGame { shoe0: s, basis: b, card, das: rules.das },
            single(card),
            false,
            1,
            splits,
            s,
            rules.split_cards as nat,
        ),
{
}

/// The budget that is left when one more card has been drawn.
pub open spec fn one_fewer(budget: nat) -> nat {
    if budget > 0 {
        (budget - 1) as nat
    } else {
        0
    }
}

/// The average over the first `k` cards that can come of what they lead to.
pub open spec fn over_the_cards<N: Scalar>(
    val: spec_fn(N) -> real,
    draws: Seq<(Card, N)>,
    worth: spec_fn(Card) -> real,
    k: int,
) -> real
    decreases k,
{
    if k <= 0 {
        0real
    } else {
        over_the_cards(val, draws, worth, k - 1) + val(draws[k - 1].1) * worth(draws[k - 1].0)
    }
}

/// In an exact arithmetic an arm of one card that is no ace is worth the average, over its second
/// card, of what it is then worth: that card is one more that has been drawn, and the arm may
/// then do whatever an arm may do right after a split.
pub proof fn law_arms_get_a_second_card<N: Scalar, S: Shoe<N>>(
    val: spec_fn(N) -> real,
    g: SplitGame<S::State>,
    pending: nat,
    splits: nat,
    s: S::State,
    budget: nat,
)
    requires
        exact(val),
        S::sane(s),
        g.card.valid(),
        g.card != Card::Ace,
    ensures
        ({
            let draws = basis_draws::<N, S>(g.basis, s);
            val(arm_value::<N, S>(g, single(g.card), false, pending, splits, s, budget))
                == over_the_cards(
                val,
                draws,
                |c: Card|
                    val(
                        arm_value::<N, S>(
                            g,
                            with_card(single(g.card), c),
                            true,
                            pending,
                            splits,
                            S::without(s, single(c)),
                            one_fewer(budget),
                        ),
                    ),
                draws.len() as int,
            )
        }),
{
    single_card_total(g.card);
    second_leads::<N, S>(
        val,
        g,
        pending,
        splits,
        s,
        budget,
        basis_draws::<N, S>(g.basis, s).len() as int,
    );
}

proof fn second_leads<N: Scalar, S: Shoe<N>>(
    val: spec_fn(N) -> real,
    g: SplitGame<S::State>,
    pending: nat,
    splits: nat,
    s: S::State,
    budget: nat,
    k: int,
)
    requires
        exact(val),
        S::sane(s),
        g.card.valid(),
        g.card != Card::Ace,
        0 <= k <= basis_draws::<N, S>(g.basis, s).len(),
    ensures
        val(second_upto::<N, S>(g, single(g.card), pending, splits, s, budget, k))
            == over_the_cards(
            val,
            basis_draws::<N, S>(g.basis, s),
            |c: Card|
                val(
                    arm_value::<N, S>(
                        g,
                        with_card(single(g.card), c),
                        true,
                        pending,
                        splits,
                        S::without(s, single(c)),
                        one_fewer(budget),
                    ),
                ),
            k,
        ),
    decreases k,
{
    exact_whole::<N>(val, 0);
    single_card_total(g.card);
    if k > 0 {
        second_leads::<N, S>(val, g, pending, splits, s, budget, k - 1);
        arm_child::<N, S>(g.basis, single(g.card), s, k - 1);
    }
}

/// In an exact arithmetic a card to an arm leads, on average, to what the arm is then worth with
/// the arms after it; an arm over 21 has lost its bet, and the arms after it are played from what
/// is left. An arm that doubles stands on its card for twice the bet, and the others follow.
pub proof fn law_cards_to_arms<N: Scalar, S: Shoe<N>>(
    val: spec_fn(N) -> real,
    g: SplitGame<S::State>,
    t: Tally,
    pending: nat,
    splits: nat,
    s: S::State,
    budget: nat,
    k: int,
)
    requires
        exact(val),
        S::sane(s),
        t.len() == 10,
        hard(t) <= 21,
        0 <= k <= basis_draws::<N, S>(g.basis, s).len(),
    ensures
        ({
            let draws = basis_draws::<N, S>(g.basis, s);
            let rest = |c: Card|
                val(
                    rest_value::<N, S>(
                        g,
                        pending,
                        splits,
                        S::without(s, single(c)),
                        one_fewer(budget),
                    ),
                );
            let played = |c: Card|
                if hard(with_card(t, c)) > 21 {
                    -1real + rest(c)
                } else {
                    val(
                        arm_value::<N, S>(
                            g,
                            with_card(t, c),
                            false,
                            pending,
                            splits,
                            S::without(s, single(c)),
                            one_fewer(budget),
                        ),
                    )
                };
            let stood = |c: Card|
                2real * val(
                    arm_payoff::<N, S>(g.basis, with_card(t, c), S::without(s, single(c))),
                ) + rest(c);
            &&& val(arm_hit_upto::<N, S>(g, t, pending, splits, s, budget, k)) == over_the_cards(
                val,
                draws,
                played,
                k,
            )
            &&& val(arm_double_upto::<N, S>(g, t, pending, splits, s, budget, k))
                == over_the_cards(val, draws, stood, k)
        }),
    decreases k,
{
    exact_whole::<N>(val, 0);
    exact_whole::<N>(val, 2);
    exact_whole::<N>(val, (-1) as i64);
    if k > 0 {
        law_cards_to_arms::<N, S>(val, g, t, pending, splits, s, budget, k - 1);
        arm_child::<N, S>(g.basis, t, s, k - 1);
    }
}

} // verus!
