//! What splitting a pair is worth.
//!
//! The arms of a split are played one after the other, each for its own best
//! value. While the budget of followed cards lasts, an arm is dealt from what
//! the arms before it left; after that each arm starts from the shoe as it was
//! when the pair was split.
use crate::card::Card;
use crate::drawing::Shoe;
use crate::hand::{pair_of, pair_rank, HandState};
use crate::num::{from_whole, larger, max_of, minus_one, whole, zero, Scalar};
use crate::partitions::hard_with_n;
use crate::rules::Ruleset;
use crate::shoe::{best, hard, single, size, tally_bounds, with_card, CardCol, Tally};
use crate::simulation::{
    basis_dist, basis_draws, basis_draws_are_there, stand_ev, stand_value, Basis,
};
use crate::table::{Memo, MemoKey};
use std::marker::PhantomData;
use vstd::prelude::*;

verus! {

broadcast use tally_bounds;

/// What does not change while a split is played: the shoe after the split, the
/// basis, the rank that is split, and whether arms may double.
pub struct SplitGame<T> {
    pub shoe0: T,
    pub basis: Basis,
    pub card: Card,
    pub das: bool,
}

/// What an arm is worth that stands on a total. It is an ordinary total, never a
/// natural: a 21 of two cards wins even money and loses to a dealer's natural.
pub open spec fn arm_state(total: nat) -> HandState {
    if total > 21 {
        HandState::Bust
    } else {
        HandState::Hard(total as u8)
    }
}

/// What an arm with these cards wins on average when it stands.
pub open spec fn arm_payoff<N: Scalar, S: Shoe<N>>(b: Basis, t: Tally, s: S::State) -> N {
    stand_value(basis_dist::<N, S>(b, s), arm_state(best(t)), zero::<N>())
}

/// The shoe that a new arm is dealt from.
pub open spec fn next_arm<T>(g: SplitGame<T>, s: T, budget: nat) -> T {
    if budget == 0 {
        g.shoe0
    } else {
        s
    }
}

/// The budget after one more card.
pub open spec fn spent(budget: nat) -> nat {
    if budget == 0 {
        0
    } else {
        (budget - 1) as nat
    }
}

/// The value of the arm `t` and of the `pending` arms after it, where `splits`
/// more splits are allowed, the shoe is in the state `s` and `budget` more drawn
/// cards are followed. `first` tells whether the arm has just got its second
/// card.
///
/// An arm of one card draws its second one; an ace then stands. Other arms
/// choose the best of standing, hitting below 21, doubling right after the
/// second card where that is allowed, and splitting again right after the second
/// card where it makes a pair.
pub open spec fn arm_value<N: Scalar, S: Shoe<N>>(
    g: SplitGame<S::State>,
    t: Tally,
    first: bool,
    pending: nat,
    splits: nat,
    s: S::State,
    budget: nat,
) -> N
    decreases splits, pending, 33 - hard(t), 20int,
    when S::sane(s) && t.len() == 10 && hard(t) <= 21
    via arm_value_ends::<N, S>
{
    let draws = basis_draws::<N, S>(g.basis, s).len() as int;
    if size(t) == 1 {
        second_upto::<N, S>(g, t, pending, splits, s, budget, draws)
    } else {
        let stand = arm_payoff::<N, S>(g.basis, t, s).plus_spec(
            rest_value::<N, S>(g, pending, splits, s, budget),
        );
        let with_hit = if best(t) < 21 {
            larger(stand, arm_hit_upto::<N, S>(g, t, pending, splits, s, budget, draws))
        } else {
            stand
        };
        let with_double = if first && g.das && g.card != Card::Ace {
            larger(with_hit, arm_double_upto::<N, S>(g, t, pending, splits, s, budget, draws))
        } else {
            with_hit
        };
        if first && splits > 0 && t[g.card.rank()] == 2 {
            larger(
                with_double,
                arm_value::<N, S>(
                    g,
                    single(g.card),
                    false,
                    pending + 1,
                    (splits - 1) as nat,
                    next_arm(g, s, budget),
                    budget,
                ),
            )
        } else {
            with_double
        }
    }
}

/// The value of the arms that are still to be played.
pub open spec fn rest_value<N: Scalar, S: Shoe<N>>(
    g: SplitGame<S::State>,
    pending: nat,
    splits: nat,
    s: S::State,
    budget: nat,
) -> N
    decreases splits, pending, 0int, 0int,
{
    if pending == 0 {
        zero::<N>()
    } else {
        arm_value::<N, S>(
            g,
            single(g.card),
            false,
            (pending - 1) as nat,
            splits,
            next_arm(g, s, budget),
            budget,
        )
    }
}

/// The part of the value of drawing the second card over the first `k` cards
/// that can come.
pub open spec fn second_upto<N: Scalar, S: Shoe<N>>(
    g: SplitGame<S::State>,
    t: Tally,
    pending: nat,
    splits: nat,
    s: S::State,
    budget: nat,
    k: int,
) -> N
    decreases splits, pending, 33 - hard(t), k,
    when S::sane(s) && t.len() == 10 && hard(t) <= 21 && k <= basis_draws::<N, S>(g.basis, s).len()
    via second_upto_ends::<N, S>
{
    if k <= 0 {
        zero::<N>()
    } else {
        let (card, p) = basis_draws::<N, S>(g.basis, s)[k - 1];
        let child = with_card(t, card);
        let left = S::without(s, single(card));
        second_upto::<N, S>(g, t, pending, splits, s, budget, k - 1).plus_spec(
            p.times_spec(
                if g.card == Card::Ace {
                    arm_payoff::<N, S>(g.basis, child, left).plus_spec(
                        rest_value::<N, S>(g, pending, splits, left, spent(budget)),
                    )
                } else {
                    arm_value::<N, S>(g, child, true, pending, splits, left, spent(budget))
                },
            ),
        )
    }
}

/// The part of the value of hitting over the first `k` cards that can come. An
/// arm over 21 is lost, the others are still played.
pub open spec fn arm_hit_upto<N: Scalar, S: Shoe<N>>(
    g: SplitGame<S::State>,
    t: Tally,
    pending: nat,
    splits: nat,
    s: S::State,
    budget: nat,
    k: int,
) -> N
    decreases splits, pending, 33 - hard(t), k,
    when S::sane(s) && t.len() == 10 && hard(t) <= 21 && k <= basis_draws::<N, S>(g.basis, s).len()
    via arm_hit_upto_ends::<N, S>
{
    if k <= 0 {
        zero::<N>()
    } else {
        let (card, p) = basis_draws::<N, S>(g.basis, s)[k - 1];
        let child = with_card(t, card);
        let left = S::without(s, single(card));
        arm_hit_upto::<N, S>(g, t, pending, splits, s, budget, k - 1).plus_spec(
            p.times_spec(
                if hard(child) > 21 {
                    minus_one::<N>().plus_spec(
                        rest_value::<N, S>(g, pending, splits, left, spent(budget)),
                    )
                } else {
                    arm_value::<N, S>(g, child, false, pending, splits, left, spent(budget))
                },
            ),
        )
    }
}

/// The part of the value of doubling over the first `k` cards that can come.
pub open spec fn arm_double_upto<N: Scalar, S: Shoe<N>>(
    g: SplitGame<S::State>,
    t: Tally,
    pending: nat,
    splits: nat,
    s: S::State,
    budget: nat,
    k: int,
) -> N
    decreases splits, pending, 33 - hard(t), k,
    when S::sane(s) && t.len() == 10 && hard(t) <= 21 && k <= basis_draws::<N, S>(g.basis, s).len()
    via arm_double_upto_ends::<N, S>
{
    if k <= 0 {
        zero::<N>()
    } else {
        let (card, p) = basis_draws::<N, S>(g.basis, s)[k - 1];
        let child = with_card(t, card);
        let left = S::without(s, single(card));
        arm_double_upto::<N, S>(g, t, pending, splits, s, budget, k - 1).plus_spec(
            p.times_spec(
                whole::<N>(2).times_spec(arm_payoff::<N, S>(g.basis, child, left)).plus_spec(
                    rest_value::<N, S>(g, pending, splits, left, spent(budget)),
                ),
            ),
        )
    }
}

#[via_fn]
proof fn arm_value_ends<N: Scalar, S: Shoe<N>>(
    g: SplitGame<S::State>,
    t: Tally,
    first: bool,
    pending: nat,
    splits: nat,
    s: S::State,
    budget: nat,
) {
    basis_draws_are_there::<N, S>(g.basis, s);
    S::draws_are_there(s);
}

#[via_fn]
proof fn second_upto_ends<N: Scalar, S: Shoe<N>>(
    g: SplitGame<S::State>,
    t: Tally,
    pending: nat,
    splits: nat,
    s: S::State,
    budget: nat,
    k: int,
) {
    if k > 0 {
        arm_child::<N, S>(g.basis, t, s, k - 1);
    }
}

#[via_fn]
proof fn arm_hit_upto_ends<N: Scalar, S: Shoe<N>>(
    g: SplitGame<S::State>,
    t: Tally,
    pending: nat,
    splits: nat,
    s: S::State,
    budget: nat,
    k: int,
) {
    if k > 0 {
        arm_child::<N, S>(g.basis, t, s, k - 1);
    }
}

#[via_fn]
proof fn arm_double_upto_ends<N: Scalar, S: Shoe<N>>(
    g: SplitGame<S::State>,
    t: Tally,
    pending: nat,
    splits: nat,
    s: S::State,
    budget: nat,
    k: int,
) {
    if k > 0 {
        arm_child::<N, S>(g.basis, t, s, k - 1);
    }
}

/// The total of an arm that drew the card at place `i`.
pub proof fn arm_child<N: Scalar, S: Shoe<N>>(b: Basis, t: Tally, s: S::State, i: int)
    requires
        S::sane(s),
        t.len() == 10,
        0 <= i < basis_draws::<N, S>(b, s).len(),
    ensures
        ({
            let card = basis_draws::<N, S>(b, s)[i].0;
            &&& card.valid()
            &&& hard(with_card(t, card)) == hard(t) + card.value()
            &&& size(with_card(t, card)) == size(t) + 1
            &&& 1 <= card.value() <= 10
            &&& S::sane(S::without(s, single(card)))
        }),
{
    basis_draws_are_there::<N, S>(b, s);
    let card = basis_draws::<N, S>(b, s)[i].0;
    assert(card == S::draws(s)[i].0);
    hard_with_n(t, card.rank(), 1);
    crate::card::law_rank_round_trip(card, 0);
    S::without_supply(s, single(card));
}

/// A shoe to file values under.
pub struct ShoeKey<N: Scalar, S: Shoe<N>> {
    shoe: S,
    of: PhantomData<N>,
}

impl<N: Scalar, S: Shoe<N>> MemoKey for ShoeKey<N, S> {
    type Id = S::State;

    closed spec fn id(&self) -> S::State {
        self.shoe.state()
    }

    open spec fn slot_of(id: S::State) -> usize {
        S::slot_of(id)
    }

    fn same_key(&self, other: &Self) -> (r: bool) {
        self.shoe.same(&other.shoe)
    }

    fn key_slot(&self) -> (r: usize) {
        self.shoe.slot()
    }
}

/// The state of a split in play, to file values under.
pub struct ArmKey<N: Scalar, S: Shoe<N>> {
    current: CardCol,
    first: bool,
    pending: u8,
    splits: u8,
    shoe: S,
    budget: u8,
    of: PhantomData<N>,
}

/// What tells two states of a split in play apart.
pub struct ArmId<T> {
    pub current: Tally,
    pub first: bool,
    pub pending: nat,
    pub splits: nat,
    pub shoe: T,
    pub budget: nat,
}

impl<N: Scalar, S: Shoe<N>> MemoKey for ArmKey<N, S> {
    type Id = ArmId<S::State>;

    closed spec fn id(&self) -> ArmId<S::State> {
        ArmId {
            current: self.current@,
            first: self.first,
            pending: self.pending as nat,
            splits: self.splits as nat,
            shoe: self.shoe.state(),
            budget: self.budget as nat,
        }
    }

    open spec fn slot_of(id: ArmId<S::State>) -> usize {
        S::slot_of(id.shoe).wrapping_mul(31).wrapping_add(
            <CardCol as MemoKey>::slot_of(id.current),
        ).wrapping_mul(31).wrapping_add(id.pending as usize).wrapping_mul(31).wrapping_add(
            id.splits as usize,
        ).wrapping_mul(31).wrapping_add(id.budget as usize)
    }

    fn same_key(&self, other: &Self) -> (r: bool) {
        self.first == other.first && self.pending == other.pending && self.splits == other.splits
            && self.budget == other.budget && self.current.same_cards(&other.current)
            && self.shoe.same(&other.shoe)
    }

    fn key_slot(&self) -> (r: usize) {
        let mut h: usize = self.shoe.slot();
        h = h.wrapping_mul(31).wrapping_add(self.current.key_slot());
        h = h.wrapping_mul(31).wrapping_add(self.pending as usize);
        h = h.wrapping_mul(31).wrapping_add(self.splits as usize);
        h.wrapping_mul(31).wrapping_add(self.budget as usize)
    }
}

/// Plays the arms of one split, and remembers what it has worked out.
pub struct SplitSolver<N: Scalar, S: Shoe<N>> {
    shoe0: S,
    basis: Basis,
    split_card: Card,
    das: bool,
    dealer_cache: Memo<ShoeKey<N, S>, [N; 7]>,
    draw_cache: Memo<ShoeKey<N, S>, Vec<(Card, N)>>,
    memo: Memo<ArmKey<N, S>, N>,
}

fn copy_draws<N: Scalar>(v: &Vec<(Card, N)>) -> (r: Vec<(Card, N)>)
    ensures
        r@ == v@,
{
    let mut out: Vec<(Card, N)> = Vec::new();
    let mut i: usize = 0;
    while i < v.len()
        invariant
            i <= v@.len(),
            out@ == v@.take(i as int),
        decreases v@.len() - i,
    {
        out.push(v[i]);
        assert(out@ =~= v@.take(i as int + 1));
        i += 1;
    }
    assert(v@.take(i as int) =~= v@);
    out
}

impl<N: Scalar, S: Shoe<N>> SplitSolver<N, S> {
    /// What does not change while the split is played.
    pub closed spec fn game(&self) -> SplitGame<S::State> {
        SplitGame {
            shoe0: self.shoe0.state(),
            basis: self.basis,
            card: self.split_card,
            das: self.das,
        }
    }

    /// Everything that is remembered is right.
    pub closed spec fn wf(&self) -> bool {
        &&& self.basis.wf()
        &&& self.split_card.valid()
        &&& self.dealer_cache.wf()
        &&& self.draw_cache.wf()
        &&& self.memo.wf()
        &&& forall|s: S::State, d: [N; 7]| #[trigger]
            self.dealer_cache.has(s, d) ==> d@ == basis_dist::<N, S>(self.basis, s)
        &&& forall|s: S::State, v: Vec<(Card, N)>| #[trigger]
            self.draw_cache.has(s, v) ==> v@ == basis_draws::<N, S>(self.basis, s)
        &&& forall|id: ArmId<S::State>, v: N| #[trigger]
            self.memo.has(id, v) ==> v == arm_value::<N, S>(
                self.game(),
                id.current,
                id.first,
                id.pending,
                id.splits,
                id.shoe,
                id.budget,
            )
    }

    /// A solver that has worked out nothing yet.
    pub fn new(shoe0: &S, basis: Basis, split_card: Card, das: bool) -> (r: Self)
        requires
            basis.wf(),
            split_card.valid(),
        ensures
            r.wf(),
            r.game() == (SplitGame { shoe0: shoe0.state(), basis, card: split_card, das }),
    {
        SplitSolver {
            shoe0: shoe0.duplicate(),
            basis,
            split_card,
            das,
            dealer_cache: Memo::new(4093),
            draw_cache: Memo::new(4093),
            memo: Memo::new(65521),
        }
    }

    /// The shoe that a new arm is dealt from.
    fn advance_arm(&self, shoe: &S, budget: u8) -> (r: S)
        ensures
            r.state() == next_arm(self.game(), shoe.state(), budget as nat),
    {
        if budget == 0 {
            self.shoe0.duplicate()
        } else {
            shoe.duplicate()
        }
    }

    /// The shoe and the budget after a card was drawn.
    fn draw(&self, shoe: &S, card: Card, budget: u8) -> (r: (S, u8))
        requires
            card.valid(),
        ensures
            r.0.state() == S::without(shoe.state(), single(card)),
            r.1 == spent(budget as nat),
    {
        let one_card = CardCol::new().with(card);
        let left: u8 = if budget == 0 {
            0
        } else {
            budget - 1
        };
        (shoe.remove_hand(&one_card), left)
    }

    /// The chance of each dealer outcome.
    fn dealer(&mut self, shoe: &S) -> (r: [N; 7])
        requires
            old(self).wf(),
        ensures
            final(self).wf(),
            final(self).game() == old(self).game(),
            r@ == basis_dist::<N, S>(old(self).game().basis, shoe.state()),
    {
        let key = ShoeKey { shoe: shoe.duplicate(), of: PhantomData };
        match self.dealer_cache.get(&key) {
            Some(dist) => {
                return *dist;
            },
            None => {},
        }
        let dist: [N; 7] = self.basis.dealer_dist(shoe);
        self.dealer_cache.insert(key, dist);
        dist
    }

    /// The chance of each card that can come next.
    fn draws(&mut self, shoe: &S) -> (r: Vec<(Card, N)>)
        requires
            old(self).wf(),
        ensures
            final(self).wf(),
            final(self).game() == old(self).game(),
            r@ == basis_draws::<N, S>(old(self).game().basis, shoe.state()),
    {
        let key = ShoeKey { shoe: shoe.duplicate(), of: PhantomData };
        match self.draw_cache.get(&key) {
            Some(v) => {
                return copy_draws(v);
            },
            None => {},
        }
        let v: Vec<(Card, N)> = self.basis.draw_probs(shoe);
        let kept = copy_draws(&v);
        self.draw_cache.insert(key, kept);
        v
    }

    /// What an arm with these cards wins on average when it stands.
    fn stand_payoff(&mut self, hand: &CardCol, shoe: &S) -> (r: N)
        requires
            old(self).wf(),
            hard(hand@) <= u8::MAX,
        ensures
            final(self).wf(),
            final(self).game() == old(self).game(),
            r == arm_payoff::<N, S>(old(self).game().basis, hand@, shoe.state()),
    {
        let dist: [N; 7] = self.dealer(shoe);
        arm_stand_ev(hand.best_count(), &dist)
    }

    /// The value of the arms that are still to be played.
    fn start_pending(&mut self, pending: u8, splits: u8, shoe: &S, budget: u8) -> (r: N)
        requires
            old(self).wf(),
            pending + splits <= 255,
        ensures
            final(self).wf(),
            final(self).game() == old(self).game(),
            r == rest_value::<N, S>(
                old(self).game(),
                pending as nat,
                splits as nat,
                shoe.state(),
                budget as nat,
            ),
        decreases splits, pending, 0int, 0int,
    {
        if pending == 0 {
            return from_whole(0);
        }
        let seed = CardCol::new().with(self.split_card);
        let next = self.advance_arm(shoe, budget);
        next.is_sane();
        proof {
            single_card_total(self.split_card);
        }
        self.value(seed, false, pending - 1, splits, &next, budget)
    }

    /// The value of standing now and of the arms that are still to be played.
    fn stand_and_rest(
        &mut self,
        hand: CardCol,
        pending: u8,
        splits: u8,
        shoe: &S,
        budget: u8,
    ) -> (r: N)
        requires
            old(self).wf(),
            pending + splits <= 255,
            hard(hand@) <= u8::MAX,
        ensures
            final(self).wf(),
            final(self).game() == old(self).game(),
            r == arm_payoff::<N, S>(old(self).game().basis, hand@, shoe.state()).plus_spec(
                rest_value::<N, S>(
                    old(self).game(),
                    pending as nat,
                    splits as nat,
                    shoe.state(),
                    budget as nat,
                ),
            ),
        decreases splits, pending, 0int, 1int,
    {
        let payoff: N = self.stand_payoff(&hand, shoe);
        let rest: N = self.start_pending(pending, splits, shoe, budget);
        payoff.plus(rest)
    }

    /// The value of an arm and of the arms after it, worked out once.
    fn value(
        &mut self,
        current: CardCol,
        first: bool,
        pending: u8,
        splits: u8,
        shoe: &S,
        budget: u8,
    ) -> (r: N)
        requires
            old(self).wf(),
            pending + splits <= 255,
            1 <= hard(current@) <= 21,
        ensures
            final(self).wf(),
            final(self).game() == old(self).game(),
            r == arm_value::<N, S>(
                old(self).game(),
                current@,
                first,
                pending as nat,
                splits as nat,
                shoe.state(),
                budget as nat,
            ),
        decreases splits, pending, 33 - hard(current@), 21int,
    {
        let key = ArmKey {
            current,
            first,
            pending,
            splits,
            shoe: shoe.duplicate(),
            budget,
            of: PhantomData,
        };
        match self.memo.get(&key) {
            Some(v) => {
                return *v;
            },
            None => {},
        }
        let v: N = self.compute(current, first, pending, splits, shoe, budget);
        self.memo.insert(key, v);
        v
    }

    /// The value of an arm and of the arms after it.
    #[verifier::rlimit(40)]
    fn compute(
        &mut self,
        current: CardCol,
        first: bool,
        pending: u8,
        splits: u8,
        shoe: &S,
        budget: u8,
    ) -> (r: N)
        requires
            old(self).wf(),
            pending + splits <= 255,
            1 <= hard(current@) <= 21,
        ensures
            final(self).wf(),
            final(self).game() == old(self).game(),
            r == arm_value::<N, S>(
                old(self).game(),
                current@,
                first,
                pending as nat,
                splits as nat,
                shoe.state(),
                budget as nat,
            ),
        decreases splits, pending, 33 - hard(current@), 20int,
    {
        let ghost g = self.game();
        let ghost s = shoe.state();
        let ghost t = current@;
        shoe.is_sane();
        let draws: Vec<(Card, N)> = self.draws(shoe);
        let minus: N = from_whole(-1);
        let two: N = from_whole(2);
        if current.len() == 1 {
            let mut sum: N = from_whole(0);
            let mut k: usize = 0;
            while k < draws.len()
                invariant
                    k <= draws@.len(),
                    self.wf(),
                    self.game() == g,
                    S::sane(s),
                    s == shoe.state(),
                    t == current@,
                    size(t) == 1,
                    1 <= hard(t) <= 21,
                    pending + splits <= 255,
                    draws@ == basis_draws::<N, S>(g.basis, s),
                    sum == second_upto::<N, S>(
                        g,
                        t,
                        pending as nat,
                        splits as nat,
                        s,
                        budget as nat,
                        k as int,
                    ),
                decreases draws@.len() - k,
            {
                let (card, p) = draws[k];
                proof {
                    arm_child::<N, S>(g.basis, t, s, k as int);
                    crate::dealer::hand_rank_below(t, card.rank());
                    one_card_total(t);
                }
                let (next, left) = self.draw(shoe, card, budget);
                let hand = current.with(card);
                let v: N = if self.split_card == Card::Ace {
                    self.stand_and_rest(hand, pending, splits, &next, left)
                } else {
                    self.value(hand, true, pending, splits, &next, left)
                };
                sum = sum.plus(p.times(v));
                k += 1;
            }
            return sum;
        }
        let mut best_v: N = self.stand_and_rest(current, pending, splits, shoe, budget);
        if current.best_count() < 21 {
            let mut sum: N = from_whole(0);
            let mut k: usize = 0;
            while k < draws.len()
                invariant
                    k <= draws@.len(),
                    self.wf(),
                    self.game() == g,
                    S::sane(s),
                    s == shoe.state(),
                    t == current@,
                    1 <= hard(t) <= 21,
                    minus == minus_one::<N>(),
                    pending + splits <= 255,
                    draws@ == basis_draws::<N, S>(g.basis, s),
                    sum == arm_hit_upto::<N, S>(
                        g,
                        t,
                        pending as nat,
                        splits as nat,
                        s,
                        budget as nat,
                        k as int,
                    ),
                decreases draws@.len() - k,
            {
                let (card, p) = draws[k];
                proof {
                    arm_child::<N, S>(g.basis, t, s, k as int);
                    crate::dealer::hand_rank_below(t, card.rank());
                }
                let (next, left) = self.draw(shoe, card, budget);
                let hand = current.with(card);
                let v: N = if hand.hard_count() > 21 {
                    let rest: N = self.start_pending(pending, splits, &next, left);
                    minus.plus(rest)
                } else {
                    self.value(hand, false, pending, splits, &next, left)
                };
                sum = sum.plus(p.times(v));
                k += 1;
            }
            best_v = max_of(best_v, sum);
        }
        if first && self.das && self.split_card != Card::Ace {
            let mut sum: N = from_whole(0);
            let mut k: usize = 0;
            while k < draws.len()
                invariant
                    k <= draws@.len(),
                    self.wf(),
                    self.game() == g,
                    S::sane(s),
                    s == shoe.state(),
                    t == current@,
                    1 <= hard(t) <= 21,
                    two == whole::<N>(2),
                    pending + splits <= 255,
                    draws@ == basis_draws::<N, S>(g.basis, s),
                    sum == arm_double_upto::<N, S>(
                        g,
                        t,
                        pending as nat,
                        splits as nat,
                        s,
                        budget as nat,
                        k as int,
                    ),
                decreases draws@.len() - k,
            {
                let (card, p) = draws[k];
                proof {
                    arm_child::<N, S>(g.basis, t, s, k as int);
                    crate::dealer::hand_rank_below(t, card.rank());
                }
                let (next, left) = self.draw(shoe, card, budget);
                let hand = current.with(card);
                let payoff: N = self.stand_payoff(&hand, &next);
                let rest: N = self.start_pending(pending, splits, &next, left);
                sum = sum.plus(p.times(two.times(payoff).plus(rest)));
                k += 1;
            }
            best_v = max_of(best_v, sum);
        }
        if first && splits > 0 && current.get_count(&self.split_card) == 2 {
            let seed = CardCol::new().with(self.split_card);
            let next = self.advance_arm(shoe, budget);
            next.is_sane();
            proof {
                single_card_total(self.split_card);
            }
            let again: N = self.value(seed, false, pending + 1, splits - 1, &next, budget);
            best_v = max_of(best_v, again);
        }
        best_v
    }
}

/// One card makes a total of at most ten.
pub proof fn single_card_total(card: Card)
    requires
        card.valid(),
    ensures
        hard(single(card)) == card.value(),
        1 <= hard(single(card)) <= 10,
        size(single(card)) == 1,
{
    hard_with_n(crate::shoe::no_cards(), card.rank(), 1);
    crate::card::law_rank_round_trip(card, 0);
}

/// A hand of one card has a total of at most ten.
proof fn one_card_total(t: Tally)
    requires
        t.len() == 10,
        size(t) == 1,
    ensures
        hard(t) <= 10,
{
}

/// What an arm wins on average that stands on this total.
pub fn arm_stand_ev<N: Scalar>(total: u8, dist: &[N; 7]) -> (r: N)
    ensures
        r == stand_value(dist@, arm_state(total as nat), zero::<N>()),
{
    let state = if total > 21 {
        HandState::Bust
    } else {
        HandState::Hard(total)
    };
    stand_ev(dist, state, from_whole(0))
}

/// The value of splitting a pair: two arms, and as many more splits as the rules
/// leave. The pair is already out of the shoe.
pub open spec fn split_value<N: Scalar, S: Shoe<N>>(
    card: Card,
    s: S::State,
    b: Basis,
    rules: Ruleset,
) -> N {
    arm_value::<N, S>(
        SplitGame { shoe0: s, basis: b, card, das: rules.das },
        single(card),
        false,
        1,
        if rules.max_split_hands < 2 {
            0
        } else {
            (rules.max_split_hands - 2) as nat
        },
        s,
        rules.split_cards as nat,
    )
}

/// The value of splitting a pair. The pair is already out of the shoe.
pub fn split_move_ev<N: Scalar, S: Shoe<N>>(
    pair_hand: &CardCol,
    shoe_minus_hand: &S,
    basis: Basis,
    rules: &Ruleset,
) -> (r: N)
    requires
        basis.wf(),
        pair_of(pair_hand@) is Some,
    ensures
        r == split_value::<N, S>(
            pair_of(pair_hand@)->0,
            shoe_minus_hand.state(),
            basis,
            *rules,
        ),
{
    let split_card = match pair_rank(pair_hand) {
        Some(card) => card,
        None => Card::Ace,
    };
    let splits: u8 = if rules.max_split_hands < 2 {
        0
    } else {
        rules.max_split_hands - 2
    };
    let mut solver: SplitSolver<N, S> = SplitSolver::new(
        shoe_minus_hand,
        basis,
        split_card,
        rules.das,
    );
    let seed = CardCol::new().with(split_card);
    shoe_minus_hand.is_sane();
    proof {
        single_card_total(split_card);
    }
    solver.value(seed, false, 1, splits, shoe_minus_hand, rules.split_cards)
}

} // verus!
