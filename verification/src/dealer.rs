//! The dealer's hand: when it stops, and how it ends.
use crate::card::{card_at, Card};
use crate::drawing::Shoe;
use crate::num::{from_whole, is_nil, is_zero, one, total, zero, Scalar};
use crate::partitions::hard_with_n;
use crate::shoe::{
    best, hard, is_natural, is_soft, joined, no_cards, single, size, taken, tally_bounds, tally_of,
    with_card, within, CardCol, Tally,
};
use crate::table::Memo;
use crate::text::{decimal, push_decimal, push_text};
use vstd::prelude::*;

verus! {

broadcast use tally_bounds;

/// How the dealer's hand ends.
#[derive(Clone, Copy, Debug, PartialEq, Eq, PartialOrd, Ord, Hash, Structural)]
pub enum DealerOutcome {
    Bust,
    Total(u8),
    Natural,
}

impl DealerOutcome {
    /// What [`DealerOutcome::to_text`] writes.
    pub open spec fn written(self) -> Seq<char> {
        match self {
            DealerOutcome::Bust => "Bust"@,
            DealerOutcome::Total(n) => decimal(n as int),
            DealerOutcome::Natural => "Nat"@,
        }
    }

    /// The outcome as it is written in tables.
    pub fn to_text(&self) -> (r: String)
        ensures
            r@ == self.written(),
    {
        let mut out = String::new();
        match self {
            DealerOutcome::Bust => push_text(&mut out, "Bust"),
            DealerOutcome::Total(n) => push_decimal(&mut out, *n as i64),
            DealerOutcome::Natural => push_text(&mut out, "Nat"),
        }
        assert(out@ =~= self.written());
        out
    }
}

/// Whether the dealer takes another card: below hard 17, unless a soft total
/// has been reached that the dealer stands on, 17 or where soft 17 is hit 18.
pub open spec fn must_hit(t: Tally, hs17: bool) -> bool {
    hard(t) < 17 && !(is_soft(t) && hard(t) + 10 >= if hs17 {
        18int
    } else {
        17int
    })
}

/// How a hand ends that takes no more cards.
pub open spec fn final_outcome(t: Tally) -> DealerOutcome {
    if best(t) > 21 {
        DealerOutcome::Bust
    } else if is_natural(t) {
        DealerOutcome::Natural
    } else {
        DealerOutcome::Total(best(t) as u8)
    }
}

/// Whether the dealer takes another card.
pub fn dealer_hit(hand: &CardCol, hs17: bool) -> (r: bool)
    requires
        hard(hand@) <= u8::MAX,
    ensures
        r == must_hit(hand@, hs17),
{
    let hard_count: u8 = hand.hard_count();
    if hard_count >= 17 {
        return false;
    }
    if hand.has_ace() && hard_count <= 11 {
        let soft_target: u8 = if hs17 {
            18
        } else {
            17
        };
        if hard_count + 10 >= soft_target {
            return false;
        }
    }
    true
}

/// Number of distinct dealer outcomes: bust, the totals 17 to 21, natural.
pub const N_DEALER_OUTCOMES: usize = 7;

/// The place of an outcome in a distribution: bust first, then the totals 17 to
/// 21, natural last.
pub open spec fn outcome_place(outcome: DealerOutcome) -> int {
    match outcome {
        DealerOutcome::Bust => 0,
        DealerOutcome::Total(n) => n - 16,
        DealerOutcome::Natural => 6,
    }
}

/// The outcome at a place of a distribution.
pub open spec fn outcome_at(i: int) -> DealerOutcome {
    if i <= 0 {
        DealerOutcome::Bust
    } else if i >= 6 {
        DealerOutcome::Natural
    } else {
        DealerOutcome::Total((i + 16) as u8)
    }
}

/// The place of an outcome in a distribution.
pub fn dealer_outcome_index(outcome: &DealerOutcome) -> (r: usize)
    requires
        *outcome matches DealerOutcome::Total(n) ==> n >= 16,
    ensures
        r == outcome_place(*outcome),
        (*outcome matches DealerOutcome::Total(n) ==> 17 <= n <= 21) ==> r < N_DEALER_OUTCOMES
            && outcome_at(r as int) == *outcome,
{
    match outcome {
        DealerOutcome::Bust => 0,
        DealerOutcome::Total(n) => (*n - 16) as usize,
        DealerOutcome::Natural => 6,
    }
}

/// The outcome at a place of a distribution.
pub fn dealer_outcome(i: usize) -> (r: DealerOutcome)
    requires
        i < N_DEALER_OUTCOMES,
    ensures
        r == outcome_at(i as int),
        outcome_place(r) == i,
{
    if i == 0 {
        DealerOutcome::Bust
    } else if i == 6 {
        DealerOutcome::Natural
    } else {
        DealerOutcome::Total((i + 16) as u8)
    }
}

/// The cards of the dealer. Every decision and the outcome follow from their
/// tally, the order in which they came does not matter.
#[derive(Clone, Copy, Debug)]
pub struct DealerHand {
    cards: CardCol,
}

impl View for DealerHand {
    type V = Tally;

    closed spec fn view(&self) -> Tally {
        self.cards@
    }
}

impl DealerHand {
    /// The hand with these cards.
    pub fn from_cards(cards: &CardCol) -> (r: Self)
        ensures
            r@ == cards@,
    {
        DealerHand { cards: *cards }
    }

    /// The hand with these cards, in the order in which they came.
    pub fn from_card_vec(cards: &Vec<Card>) -> (r: Self)
        requires
            forall|i: int| 0 <= i < cards@.len() ==> (#[trigger] cards@[i]).valid(),
            forall|r: int| 0 <= r < 10 ==> #[trigger] tally_of(cards@)[r] <= u16::MAX,
        ensures
            r@ == tally_of(cards@),
    {
        DealerHand { cards: CardCol::from_hand(cards.as_slice()) }
    }

    /// The hand with one more card, of the rank at place `index`.
    pub fn with_card(self, index: usize) -> (r: Self)
        requires
            index < 10,
            self@[index as int] < u16::MAX,
        ensures
            r@ == with_card(self@, card_at(index as int)),
    {
        DealerHand { cards: self.cards.with(Card::from_rank_index(index)) }
    }

    /// How many cards the hand holds.
    pub fn num_cards(&self) -> (r: u32)
        ensures
            r == size(self@),
    {
        self.cards.len() as u32
    }

    /// Whether the hand holds an ace.
    pub fn has_ace(&self) -> (r: bool)
        ensures
            r == (self@[0] > 0),
    {
        self.cards.has_ace()
    }

    /// The total with every ace counted as one.
    pub fn hard_total(&self) -> (r: u32)
        ensures
            r == hard(self@),
    {
        let c = &self.cards;
        c.get_count_i(0) as u32 + 2 * (c.get_count_i(1) as u32) + 3 * (c.get_count_i(2) as u32) + 4
            * (c.get_count_i(3) as u32) + 5 * (c.get_count_i(4) as u32) + 6 * (c.get_count_i(
            5,
        ) as u32) + 7 * (c.get_count_i(6) as u32) + 8 * (c.get_count_i(7) as u32) + 9 * (
        c.get_count_i(8) as u32) + 10 * (c.get_count_i(9) as u32)
    }

    /// The total with one ace counted as eleven where that does not go over 21.
    pub fn best_total(&self) -> (r: u32)
        ensures
            r == best(self@),
    {
        let hard_total: u32 = self.hard_total();
        if self.has_ace() && hard_total <= 11 {
            hard_total + 10
        } else {
            hard_total
        }
    }

    /// Whether the hand is a natural, the only 21 of two cards.
    pub fn is_natural(&self) -> (r: bool)
        ensures
            r == is_natural(self@),
    {
        proof {
            crate::shoe::law_natural_is_two_card_21(self@);
        }
        self.num_cards() == 2 && self.best_total() == 21
    }

    /// Whether the dealer takes another card.
    pub fn must_hit(&self, hs17: bool) -> (r: bool)
        ensures
            r == must_hit(self@, hs17),
    {
        let hard_total: u32 = self.hard_total();
        if hard_total >= 17 {
            return false;
        }
        let soft_stand_total: u32 = if hs17 {
            18
        } else {
            17
        };
        let stands_soft = self.has_ace() && hard_total <= 11 && hard_total + 10 >= soft_stand_total;
        !stands_soft
    }

    /// How the hand ends when it takes no more cards.
    pub fn terminal_outcome(&self) -> (r: DealerOutcome)
        ensures
            r == final_outcome(self@),
    {
        let best_total: u32 = self.best_total();
        if best_total > 21 {
            DealerOutcome::Bust
        } else if self.is_natural() {
            DealerOutcome::Natural
        } else {
            DealerOutcome::Total(best_total as u8)
        }
    }
}

/// A hand on which the dealer stops is bust, a natural, or a total from 17 to
/// 21, and it is soft 17 only where the dealer stands on that.
pub proof fn law_dealer_stops_at_17_or_more(t: Tally, hs17: bool)
    requires
        t.len() == 10,
        !must_hit(t, hs17),
    ensures
        final_outcome(t) matches DealerOutcome::Total(n) ==> 17 <= n <= 21,
        best(t) >= 17,
        hs17 && best(t) == 17 ==> !is_soft(t),
        0 <= outcome_place(final_outcome(t)) < 7,
        outcome_at(outcome_place(final_outcome(t))) == final_outcome(t),
{
}

/// The dealer only ever draws to 16 or, where soft 17 is hit, to soft 17: a
/// natural and every total of 18 and more is stood on.
pub proof fn law_dealer_hits_below_18(t: Tally, hs17: bool)
    requires
        t.len() == 10,
        must_hit(t, hs17),
    ensures
        best(t) <= 17,
        best(t) == 17 ==> hs17 && is_soft(t),
        !is_natural(t),
{
    crate::shoe::law_natural_is_two_card_21(t);
}

/// The distribution that gives one outcome the chance one.
pub open spec fn sure<N: Scalar>(place: int) -> Seq<N> {
    Seq::new(
        7,
        |i: int|
            if i == place {
                one::<N>()
            } else {
                zero::<N>()
            },
    )
}

/// A distribution with another one added that is weighted with `p`.
pub open spec fn mixed<N: Scalar>(acc: Seq<N>, p: N, sub: Seq<N>) -> Seq<N> {
    Seq::new(7, |i: int| acc[i].plus_spec(p.times_spec(sub[i])))
}

/// The chance of each outcome of a dealer who holds the cards `t` and draws from
/// a shoe in the state `s`: where the dealer stops it is sure, otherwise it is
/// the average over the next card.
pub open spec fn dealer_dist<N: Scalar, S: Shoe<N>>(s: S::State, t: Tally, hs17: bool) -> Seq<N>
    decreases 27 - hard(t), 12int,
    when S::sane(s) && t.len() == 10
    via dealer_dist_ends::<N, S>
{
    if must_hit(t, hs17) {
        dealer_average::<N, S>(s, t, hs17, S::draws(s).len() as int)
    } else {
        sure::<N>(outcome_place(final_outcome(t)))
    }
}

/// The part of the average in [`dealer_dist`] over the first `k` cards that can
/// come next.
pub open spec fn dealer_average<N: Scalar, S: Shoe<N>>(
    s: S::State,
    t: Tally,
    hs17: bool,
    k: int,
) -> Seq<N>
    decreases 27 - hard(t), k,
    when S::sane(s) && t.len() == 10 && k <= S::draws(s).len() && hard(t) < 17
    via dealer_average_ends::<N, S>
{
    if k <= 0 {
        Seq::new(7, |i: int| zero::<N>())
    } else {
        let acc = dealer_average::<N, S>(s, t, hs17, k - 1);
        let (card, p) = S::draws(s)[k - 1];
        if is_nil(p) {
            acc
        } else {
            mixed(acc, p, dealer_dist::<N, S>(S::without(s, single(card)), with_card(t, card), hs17))
        }
    }
}

#[via_fn]
proof fn dealer_dist_ends<N: Scalar, S: Shoe<N>>(s: S::State, t: Tally, hs17: bool) {
    S::draws_are_there(s);
}

#[via_fn]
proof fn dealer_average_ends<N: Scalar, S: Shoe<N>>(s: S::State, t: Tally, hs17: bool, k: int) {
    S::draws_are_there(s);
    if k > 0 {
        let card = S::draws(s)[k - 1].0;
        hard_with_n(t, card.rank(), 1);
    }
}

/// What a memo of dealer distributions may hold: for a hand that came of the
/// first one by drawing from the first shoe, its distribution.
spec fn memo_ok<N: Scalar, S: Shoe<N>>(
    memo: Memo<CardCol, [N; 7]>,
    s0: S::State,
    t0: Tally,
    hs17: bool,
) -> bool {
    &&& memo.wf()
    &&& forall|t: Tally, dist: [N; 7]| #[trigger]
        memo.has(t, dist) ==> dist@ == dealer_dist::<N, S>(
            S::without(s0, taken(t, t0)),
            t,
            hs17,
        )
}

/// Drawing one more card takes it out of the first shoe together with the cards
/// drawn before.
proof fn drawn_once_more<N: Scalar, S: Shoe<N>>(s0: S::State, t0: Tally, t: Tally, card: Card)
    requires
        S::sane(s0),
        t0.len() == 10,
        t.len() == 10,
        within(t0, t),
        card.valid(),
    ensures
        S::without(S::without(s0, taken(t, t0)), single(card)) == S::without(
            s0,
            taken(with_card(t, card), t0),
        ),
        within(t0, with_card(t, card)),
{
    S::without_twice(s0, taken(t, t0), single(card));
    assert forall|j: int| 0 <= j < 10 implies joined(taken(t, t0), single(card))[j] == taken(
        with_card(t, card),
        t0,
    )[j] by {
        assert(t0[j] <= t[j]);
    }
    assert(joined(taken(t, t0), single(card)) =~= taken(with_card(t, card), t0));
    assert forall|j: int| 0 <= j < 10 implies #[trigger] t0[j] <= with_card(t, card)[j] by {
        assert(t0[j] <= t[j]);
    }
}

fn dealer_rec<N: Scalar, S: Shoe<N>>(
    hand: CardCol,
    shoe: &S,
    hs17: bool,
    memo: &mut Memo<CardCol, [N; 7]>,
    Ghost(s0): Ghost<S::State>,
    Ghost(t0): Ghost<Tally>,
) -> (r: [N; 7])
    requires
        S::sane(s0),
        t0.len() == 10,
        within(t0, hand@),
        shoe.state() == S::without(s0, taken(hand@, t0)),
        memo_ok::<N, S>(*old(memo), s0, t0, hs17),
    ensures
        r@ == dealer_dist::<N, S>(shoe.state(), hand@, hs17),
        memo_ok::<N, S>(*final(memo), s0, t0, hs17),
    decreases 27 - hard(hand@),
{
    let zero_n: N = from_whole(0);
    let mut dist: [N; 7] = [zero_n; 7];
    shoe.is_sane();
    let dealer = DealerHand::from_cards(&hand);
    if !dealer.must_hit(hs17) {
        proof {
            law_dealer_stops_at_17_or_more(hand@, hs17);
        }
        let outcome = dealer.terminal_outcome();
        dist[dealer_outcome_index(&outcome)] = from_whole(1);
        assert(dist@ =~= sure::<N>(outcome_place(final_outcome(hand@))));
        return dist;
    }
    match memo.get(&hand) {
        Some(known) => {
            return *known;
        },
        None => {},
    }
    let draws = shoe.all_draw_probs();
    let mut k: usize = 0;
    assert(dist@ =~= dealer_average::<N, S>(shoe.state(), hand@, hs17, 0));
    while k < draws.len()
        invariant
            k <= draws@.len(),
            draws@ == S::draws(shoe.state()),
            S::sane(s0),
            S::sane(shoe.state()),
            t0.len() == 10,
            within(t0, hand@),
            shoe.state() == S::without(s0, taken(hand@, t0)),
            must_hit(hand@, hs17),
            memo_ok::<N, S>(*memo, s0, t0, hs17),
            dist@ == dealer_average::<N, S>(shoe.state(), hand@, hs17, k as int),
        decreases draws@.len() - k,
    {
        let (card, p) = draws[k];
        proof {
            S::draws_are_there(shoe.state());
            assert(S::draws(shoe.state())[k as int].0.valid());
            hard_with_n(hand@, card.rank(), 1);
        }
        if !is_zero(p) {
            proof {
                drawn_once_more::<N, S>(s0, t0, hand@, card);
                hand_rank_below(hand@, card.rank());
                S::without_supply(shoe.state(), single(card));
            }
            let one_card = CardCol::new().with(card);
            let next_hand = hand.with(card);
            let next_shoe = shoe.remove_hand(&one_card);
            let sub: [N; 7] = dealer_rec(next_hand, &next_shoe, hs17, memo, Ghost(s0), Ghost(t0));
            let ghost before = dist@;
            let mut i: usize = 0;
            while i < N_DEALER_OUTCOMES
                invariant
                    i <= 7,
                    before.len() == 7,
                    dist@.len() == 7,
                    forall|j: int|
                        0 <= j < i ==> #[trigger] dist@[j] == before[j].plus_spec(
                            p.times_spec(sub@[j]),
                        ),
                    forall|j: int| i <= j < 7 ==> #[trigger] dist@[j] == before[j],
                decreases 7 - i,
            {
                let added: N = dist[i].plus(p.times(sub[i]));
                dist[i] = added;
                i += 1;
            }
            assert(dist@ =~= mixed(before, p, sub@));
        }
        k += 1;
    }
    memo.insert(hand, dist);
    dist
}

/// No rank of a hand below 17 is full.
pub proof fn hand_rank_below(t: Tally, rank: int)
    requires
        t.len() == 10,
        0 <= rank < 10,
        hard(t) < 65535,
    ensures
        t[rank] < u16::MAX,
{
}

/// The chance of each outcome of a dealer who holds these cards and draws from
/// this shoe.
pub fn dealer_outcome_probs<N: Scalar, S: Shoe<N>>(
    hand: CardCol,
    shoe: &S,
    hs17: bool,
) -> (r: [N; 7])
    ensures
        r@ == dealer_dist::<N, S>(shoe.state(), hand@, hs17),
{
    let mut memo: Memo<CardCol, [N; 7]> = Memo::new(61);
    shoe.is_sane();
    proof {
        S::without_none(shoe.state());
        assert(taken(hand@, hand@) =~= no_cards());
    }
    dealer_rec(hand, shoe, hs17, &mut memo, Ghost(shoe.state()), Ghost(hand@))
}

/// A distribution with the natural left out and the other chances scaled up in
/// its place.
pub open spec fn without_natural<N: Scalar>(dist: Seq<N>) -> Seq<N> {
    let scale = one::<N>().over_spec(one::<N>().minus_spec(dist[6]));
    Seq::new(
        7,
        |i: int|
            if i == 6 {
                zero::<N>()
            } else {
                dist[i].times_spec(scale)
            },
    )
}

/// How far off a sum of chances may be: `1e-12`, or `1e-6` where the numbers are not as
/// fine as that.
pub open spec fn tolerance<N: Scalar>() -> N {
    if is_nil(N::ratio_spec(1, 1_000_000_000_000)) {
        N::ratio_spec(1, 1_000_000)
    } else {
        N::ratio_spec(1, 1_000_000_000_000)
    }
}

/// Whether a number is one, but for the tolerance.
pub open spec fn is_near_one<N: Scalar>(x: N) -> bool {
    let off = x.minus_spec(one::<N>());
    let eps = tolerance::<N>();
    off.less_spec(eps) && zero::<N>().minus_spec(off).less_spec(eps)
}

/// The distribution with the natural left out, where the rest adds up to one.
pub fn remove_nat21<N: Scalar>(dist: &[N; 7]) -> (r: Option<[N; 7]>)
    ensures
        match r {
            Some(d) => d@ == without_natural(dist@) && is_near_one(total(without_natural(dist@))),
            None => !is_near_one(total(without_natural(dist@))),
        },
{
    let one_n: N = from_whole(1);
    let zero_n: N = from_whole(0);
    let scale: N = one_n.over(one_n.minus(dist[6]));
    let mut out: [N; 7] = [zero_n; 7];
    let mut sum: N = from_whole(0);
    let mut i: usize = 0;
    let ghost goal = without_natural(dist@);
    proof {
        assert(goal.take(0) =~= Seq::empty());
    }
    while i < N_DEALER_OUTCOMES
        invariant
            i <= 7,
            scale == one::<N>().over_spec(one::<N>().minus_spec(dist@[6])),
            goal == without_natural(dist@),
            out@.len() == 7,
            forall|j: int| 0 <= j < i ==> #[trigger] out@[j] == goal[j],
            forall|j: int| i <= j < 7 ==> #[trigger] out@[j] == zero::<N>(),
            sum == total(goal.take(i as int)),
        decreases 7 - i,
    {
        if i < 6 {
            let scaled: N = dist[i].times(scale);
            out[i] = scaled;
        }
        sum = sum.plus(out[i]);
        proof {
            assert(goal.take(i as int + 1).drop_last() =~= goal.take(i as int));
        }
        i += 1;
    }
    assert(out@ =~= goal);
    assert(goal.take(7) =~= goal);
    let off: N = sum.minus(one_n);
    let fine: N = N::ratio(1, 1_000_000_000_000);
    let eps: N = if is_zero(fine) {
        N::ratio(1, 1_000_000)
    } else {
        fine
    };
    if off.less(eps) && zero_n.minus(off).less(eps) {
        Some(out)
    } else {
        None
    }
}

} // verus!
