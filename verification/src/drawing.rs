//! Drawing cards: what a shoe is to the solver.
//!
//! A [`Shoe`] tells with which chance each card comes next and what is left
//! when cards have been taken out. Finite shoes deplete, the infinite deck
//! never does.
use crate::card::{card_at, Card};
use crate::num::{from_whole, is_nil, is_zero, one, zero, Scalar};
use crate::shoe::{
    deck_tally, joined, law_taken_twice, no_cards, single, size, taken, tally_bounds, within,
    CardCol, Tally, N_RANKS,
};
use rand::distr::weighted::WeightedIndex;
use rand::distr::Distribution;
use rand::rngs::SmallRng;
use vstd::prelude::*;

verus! {

broadcast use tally_bounds;

/// A source of cards. Contracts speak of its `state`: whatever the chances of
/// the next cards depend on.
pub trait Shoe<N: Scalar>: Sized {
    type State;

    spec fn state(&self) -> Self::State;

    /// The states that a shoe can be in.
    spec fn sane(s: Self::State) -> bool;

    /// The chance that the next card is this one.
    spec fn prob(s: Self::State, card: Card) -> N;

    /// The cards that can come next, each with its chance.
    spec fn draws(s: Self::State) -> Seq<(Card, N)>;

    /// What is left without these cards.
    spec fn without(s: Self::State, cards: Tally) -> Self::State;

    /// How many cards of the rank at this place can still be drawn, or `None`
    /// where there is no end of them. A shoe whose cards come in shares counts the
    /// shares.
    spec fn supply(s: Self::State, rank: int) -> Option<nat>;

    /// Whether these cards can be taken out all together.
    spec fn holds(s: Self::State, hand: Tally) -> bool;

    /// The shoe that the arms of a split are played from.
    spec fn split_state(s: Self::State) -> Self::State;

    /// The number that a shoe in this state is filed under.
    spec fn slot_of(s: Self::State) -> usize;

    /// What is left of a shoe is a shoe, and each rank has lost as much as was taken
    /// out at least, as far as it was there.
    proof fn without_supply(s: Self::State, cards: Tally)
        requires
            Self::sane(s),
            cards.len() == 10,
        ensures
            Self::sane(Self::without(s, cards)),
            forall|i: int|
                0 <= i < 10 ==> uses_up(
                    Self::supply(s, i),
                    #[trigger] Self::supply(Self::without(s, cards), i),
                    cards[i],
                ),
    ;

    /// Taking no cards out changes nothing.
    proof fn without_none(s: Self::State)
        requires
            Self::sane(s),
        ensures
            Self::without(s, no_cards()) == s,
    ;

    /// It does not matter in how many steps cards are taken out.
    proof fn without_twice(s: Self::State, a: Tally, b: Tally)
        requires
            Self::sane(s),
            a.len() == 10,
            b.len() == 10,
        ensures
            Self::without(Self::without(s, a), b) == Self::without(s, joined(a, b)),
    ;

    /// The cards that can come next are ten ranks at most, and each is there.
    proof fn draws_are_there(s: Self::State)
        requires
            Self::sane(s),
        ensures
            Self::draws(s).len() <= 10,
            forall|i: int|
                0 <= i < Self::draws(s).len() ==> (#[trigger] Self::draws(s)[i]).0.valid()
                    && Self::supply(s, Self::draws(s)[i].0.rank()) != Some(0nat),
    ;

    /// Cards that can be taken out together can be drawn.
    proof fn holds_no_more(s: Self::State, hand: Tally)
        requires
            Self::sane(s),
            Self::holds(s, hand),
        ensures
            forall|i: int|
                0 <= i < 10 ==> (#[trigger] Self::supply(s, i) matches Some(n) ==> hand[i] <= n),
    ;

    /// What the arms of a split are played from is a shoe.
    proof fn split_is_sane(s: Self::State)
        requires
            Self::sane(s),
        ensures
            Self::sane(Self::split_state(s)),
    ;

    /// A finite supply is a number of at most sixteen bits.
    proof fn supply_bound(s: Self::State)
        requires
            Self::sane(s),
        ensures
            forall|i: int|
                0 <= i < 10 ==> ((#[trigger] Self::supply(s, i)) matches Some(n) ==> n <= u16::MAX),
    ;

    /// A shoe is always in a state that a shoe can be in.
    fn is_sane(&self)
        ensures
            Self::sane(self.state()),
    ;

    /// Take one card out.
    fn draw(&mut self, card: &Card)
        requires
            card.valid(),
            Self::supply(old(self).state(), card.rank()) != Some(0nat),
        ensures
            final(self).state() == Self::without(old(self).state(), single(*card)),
    ;

    /// The chance that the next card is this one.
    fn draw_prob(&self, card: &Card) -> (r: N)
        requires
            card.valid(),
        ensures
            r == Self::prob(self.state(), *card),
    ;

    /// The cards that can come next, each with its chance.
    fn all_draw_probs(&self) -> (r: Vec<(Card, N)>)
        ensures
            r@ == Self::draws(self.state()),
    ;

    /// What is left without the cards of a hand.
    fn remove_hand(&self, hand: &CardCol) -> (r: Self)
        ensures
            r.state() == Self::without(self.state(), hand@),
    ;

    /// Whether the hand can be drawn from this shoe.
    fn contains_hand(&self, hand: &CardCol) -> (r: bool)
        ensures
            r == Self::holds(self.state(), hand@),
    ;

    /// How many cards of this rank can still be drawn, or `None` where there is
    /// no end of them. A shoe whose cards come in shares counts the shares.
    fn rank_count(&self, rank: &Card) -> (r: Option<u16>)
        requires
            rank.valid(),
        ensures
            match r {
                Some(n) => Self::supply(self.state(), rank.rank()) == Some(n as nat),
                None => Self::supply(self.state(), rank.rank()) is None,
            },
    ;

    /// The shoe that the arms of a split are played from.
    fn for_split(&self) -> (r: Self)
        ensures
            r.state() == Self::split_state(self.state()),
    ;

    /// The same shoe once more.
    fn duplicate(&self) -> (r: Self)
        ensures
            r.state() == self.state(),
    ;

    /// Whether two shoes are in the same state.
    fn same(&self, other: &Self) -> (r: bool)
        ensures
            r == (self.state() == other.state()),
    ;

    /// The number to file the shoe under.
    fn slot(&self) -> (r: usize)
        ensures
            r == Self::slot_of(self.state()),
    ;
}

/// Whether cards taken out use a supply up: nothing is left, or each of them has taken
/// one off at least. An endless supply stays so.
pub open spec fn uses_up(had: Option<nat>, left: Option<nat>, used: nat) -> bool {
    match (had, left) {
        (Some(n), Some(m)) => m == 0 || m + used <= n,
        (None, None) => true,
        _ => false,
    }
}

/// Whether a hand can be drawn from a shoe in this state.
pub open spec fn fits<N: Scalar, S: Shoe<N>>(s: S::State, hand: Tally) -> bool {
    forall|i: int|
        0 <= i < 10 ==> (#[trigger] S::supply(s, i) matches Some(n) ==> hand[i] <= n)
}

/// The chance that the next cards are these, in any order: the sum, over the
/// card that comes first, of its chance times the chance of the others after
/// it.
pub open spec fn chance<N: Scalar, S: Shoe<N>>(s: S::State, hand: Tally) -> N
    decreases size(hand), 11int,
{
    if size(hand) == 0 {
        one::<N>()
    } else {
        chance_upto::<N, S>(s, hand, 10)
    }
}

/// The part of [`chance`] in which one of the first `k` ranks comes first.
pub open spec fn chance_upto<N: Scalar, S: Shoe<N>>(s: S::State, hand: Tally, k: int) -> N
    decreases size(hand), k,
    when hand.len() == 10 && k <= 10
{
    if k <= 0 {
        zero::<N>()
    } else {
        let card = card_at(k - 1);
        let so_far = chance_upto::<N, S>(s, hand, k - 1);
        let p = S::prob(s, card);
        if hand[k - 1] == 0 || is_nil(p) {
            so_far
        } else {
            so_far.plus_spec(
                p.times_spec(chance::<N, S>(S::without(s, single(card)), taken(hand, single(card)))),
            )
        }
    }
}

/// The chance that the next cards are these, in any order.
pub fn hand_prob<N: Scalar, S: Shoe<N>>(shoe: &S, hand: &CardCol) -> (r: N)
    ensures
        r == chance::<N, S>(shoe.state(), hand@),
    decreases size(hand@),
{
    if hand.is_empty() {
        return from_whole(1);
    }
    let mut p: N = from_whole(0);
    let mut k: usize = 0;
    while k < N_RANKS
        invariant
            k <= 10,
            p == chance_upto::<N, S>(shoe.state(), hand@, k as int),
        decreases 10 - k,
    {
        let card = Card::from_rank_index(k);
        if hand.get_count_i(k) > 0 {
            let p_c: N = shoe.draw_prob(&card);
            if !is_zero(p_c) {
                let one_card = CardCol::new().with(card);
                let rest = *hand - one_card;
                assert(rest@[k as int] < hand@[k as int]);
                assert(forall|j: int| 0 <= j < 10 ==> #[trigger] rest@[j] <= hand@[j]);
                let after = shoe.remove_hand(&one_card);
                let p_rest: N = hand_prob(&after, &rest);
                p = p.plus(p_c.times(p_rest));
            }
        }
        k += 1;
    }
    p
}

/// A finite supply of one rank in a tally.
pub open spec fn finite(t: Tally, rank: int) -> Option<nat> {
    Some(t[rank])
}

/// The chance of a card from a finite shoe: its share of the cards.
pub open spec fn share<N: Scalar>(t: Tally, card: Card) -> N {
    N::ratio_spec(t[card.rank()] as i64, size(t) as i64)
}

/// The ranks from place `from` on that are there, each with its share.
pub open spec fn shares_from<N: Scalar>(t: Tally, from: int) -> Seq<(Card, N)>
    decreases 10 - from,
{
    if from >= 10 {
        Seq::empty()
    } else if t[from] > 0 {
        seq![(card_at(from), share::<N>(t, card_at(from)))] + shares_from::<N>(t, from + 1)
    } else {
        shares_from::<N>(t, from + 1)
    }
}

proof fn shares_are_there<N: Scalar>(t: Tally, from: int)
    requires
        t.len() == 10,
        0 <= from <= 10,
    ensures
        shares_from::<N>(t, from).len() <= 10 - from,
        forall|i: int|
            0 <= i < shares_from::<N>(t, from).len() ==> (#[trigger] shares_from::<N>(
                t,
                from,
            )[i]).0.valid() && t[shares_from::<N>(t, from)[i].0.rank()] > 0,
    decreases 10 - from,
{
    if from < 10 {
        shares_are_there::<N>(t, from + 1);
    }
}

/// A finite shoe: cards are drawn without being put back.
impl<N: Scalar> Shoe<N> for CardCol {
    type State = Tally;

    open spec fn state(&self) -> Tally {
        self@
    }

    open spec fn sane(s: Tally) -> bool {
        s.len() == 10 && forall|i: int| 0 <= i < 10 ==> #[trigger] s[i] <= u16::MAX
    }

    open spec fn prob(s: Tally, card: Card) -> N {
        share::<N>(s, card)
    }

    open spec fn draws(s: Tally) -> Seq<(Card, N)> {
        shares_from::<N>(s, 0)
    }

    open spec fn without(s: Tally, cards: Tally) -> Tally {
        taken(s, cards)
    }

    open spec fn supply(s: Tally, rank: int) -> Option<nat> {
        finite(s, rank)
    }

    open spec fn holds(s: Tally, hand: Tally) -> bool {
        within(hand, s)
    }

    open spec fn split_state(s: Tally) -> Tally {
        s
    }

    open spec fn slot_of(s: Tally) -> usize {
        tally_number(s)
    }

    proof fn without_supply(s: Tally, cards: Tally) {
    }

    proof fn without_none(s: Tally) {
        assert(taken(s, no_cards()) =~= s);
    }

    proof fn without_twice(s: Tally, a: Tally, b: Tally) {
        law_taken_twice(s, a, b);
    }

    proof fn draws_are_there(s: Tally) {
        shares_are_there::<N>(s, 0);
    }

    proof fn holds_no_more(s: Tally, hand: Tally) {
        assert forall|i: int| 0 <= i < 10 implies (#[trigger] <CardCol as Shoe<N>>::supply(s, i)
            matches Some(n) ==> hand[i] <= n) by {
            assert(hand[i] <= s[i]);
        }
    }

    proof fn split_is_sane(s: Tally) {
    }

    proof fn supply_bound(s: Tally) {
    }

    fn is_sane(&self) {
    }

    fn draw(&mut self, card: &Card) {
        let one_card = CardCol::new().with(*card);
        *self = *self - one_card;
    }

    fn draw_prob(&self, card: &Card) -> (r: N) {
        N::ratio(self.get_count(card) as i64, self.len() as i64)
    }

    fn all_draw_probs(&self) -> (r: Vec<(Card, N)>) {
        let denom: usize = self.len();
        let mut out: Vec<(Card, N)> = Vec::new();
        let mut i: usize = 0;
        while i < N_RANKS
            invariant
                i <= 10,
                denom == size(self@),
                out@ + shares_from::<N>(self@, i as int) =~= shares_from::<N>(self@, 0),
            decreases 10 - i,
        {
            let n: u16 = self.get_count_i(i);
            let ghost before = out@;
            if n > 0 {
                let card = Card::from_rank_index(i);
                out.push((card, N::ratio(n as i64, denom as i64)));
                assert(out@ =~= before + seq![(card, share::<N>(self@, card))]);
            }
            i += 1;
        }
        out
    }

    fn remove_hand(&self, hand: &CardCol) -> (r: Self) {
        *self - *hand
    }

    fn contains_hand(&self, hand: &CardCol) -> (r: bool) {
        hand.is_submultiset(self)
    }

    fn rank_count(&self, rank: &Card) -> (r: Option<u16>) {
        Some(self.get_count(rank))
    }

    fn for_split(&self) -> (r: Self) {
        *self
    }

    fn duplicate(&self) -> (r: Self) {
        *self
    }

    fn same(&self, other: &Self) -> (r: bool) {
        self.same_cards(other)
    }

    fn slot(&self) -> (r: usize) {
        tally_slot(self)
    }
}

/// The numbers of the first `k` ranks of a tally as the digits of one number, to the base
/// 31 and without what does not fit.
pub open spec fn digits_of(t: Tally, k: int) -> u64
    decreases k,
{
    if k <= 0 {
        0
    } else {
        digits_of(t, k - 1).wrapping_mul(31).wrapping_add(t[k - 1] as u64)
    }
}

/// The number that a tally is filed under.
pub open spec fn tally_number(t: Tally) -> usize {
    digits_of(t, 10) as usize
}

/// The number that a tally is filed under.
pub(crate) fn tally_slot(cards: &CardCol) -> (r: usize)
    ensures
        r == tally_number(cards@),
{
    let mut h: u64 = 0;
    let mut i: usize = 0;
    while i < N_RANKS
        invariant
            i <= 10,
            h == digits_of(cards@, i as int),
        decreases 10 - i,
    {
        h = h.wrapping_mul(31).wrapping_add(cards.get_count_i(i) as u64);
        i += 1;
    }
    h as usize
}

/// The deck that never runs out: every rank comes with the chance that it has
/// in a full deck.
#[derive(Clone, Copy, Debug, PartialEq, Eq, Hash, Structural)]
pub struct InfiniteDeck {}

/// The chance of a card in a full deck.
pub open spec fn full_deck_chance<N: Scalar>(card: Card) -> N {
    match card {
        Card::Ten => N::ratio_spec(4, 13),
        _ => N::ratio_spec(1, 13),
    }
}

/// The cards of the infinite deck: the numeral cards, the ten, the ace.
pub open spec fn full_deck_card(i: int) -> Card {
    if i < 9 {
        card_at(i + 1)
    } else {
        Card::Ace
    }
}

impl<N: Scalar> Shoe<N> for InfiniteDeck {
    type State = ();

    open spec fn state(&self) -> () {
        ()
    }

    open spec fn sane(s: ()) -> bool {
        true
    }

    open spec fn prob(s: (), card: Card) -> N {
        full_deck_chance::<N>(card)
    }

    open spec fn draws(s: ()) -> Seq<(Card, N)> {
        Seq::new(
            10,
            |i: int| (full_deck_card(i), full_deck_chance::<N>(full_deck_card(i))),
        )
    }

    open spec fn without(s: (), cards: Tally) -> () {
        ()
    }

    open spec fn supply(s: (), rank: int) -> Option<nat> {
        None
    }

    open spec fn holds(s: (), hand: Tally) -> bool {
        true
    }

    open spec fn split_state(s: ()) -> () {
        s
    }

    open spec fn slot_of(s: ()) -> usize {
        0
    }

    proof fn without_supply(s: (), cards: Tally) {
    }

    proof fn without_none(s: ()) {
    }

    proof fn without_twice(s: (), a: Tally, b: Tally) {
    }

    proof fn draws_are_there(s: ()) {
    }

    proof fn holds_no_more(s: (), hand: Tally) {
    }

    proof fn split_is_sane(s: ()) {
    }

    proof fn supply_bound(s: ()) {
    }

    fn is_sane(&self) {
    }

    fn draw(&mut self, card: &Card) {
    }

    fn draw_prob(&self, card: &Card) -> (r: N) {
        match card {
            Card::Ten => N::ratio(4, 13),
            _ => N::ratio(1, 13),
        }
    }

    fn all_draw_probs(&self) -> (r: Vec<(Card, N)>) {
        let mut out: Vec<(Card, N)> = Vec::new();
        let mut i: usize = 0;
        while i < N_RANKS
            invariant
                i <= 10,
                out.len() == i,
                forall|j: int|
                    0 <= j < i ==> #[trigger] out[j] == (
                        full_deck_card(j),
                        full_deck_chance::<N>(full_deck_card(j)),
                    ),
            decreases 10 - i,
        {
            let card = if i < 9 {
                Card::from_rank_index(i + 1)
            } else {
                Card::Ace
            };
            let p: N = match card {
                Card::Ten => N::ratio(4, 13),
                _ => N::ratio(1, 13),
            };
            out.push((card, p));
            i += 1;
        }
        assert(out@ =~= <InfiniteDeck as Shoe<N>>::draws(()));
        out
    }

    fn remove_hand(&self, hand: &CardCol) -> (r: Self) {
        *self
    }

    fn contains_hand(&self, hand: &CardCol) -> (r: bool) {
        true
    }

    fn rank_count(&self, rank: &Card) -> (r: Option<u16>) {
        None
    }

    fn for_split(&self) -> (r: Self) {
        *self
    }

    fn duplicate(&self) -> (r: Self) {
        *self
    }

    fn same(&self, other: &Self) -> (r: bool) {
        true
    }

    fn slot(&self) -> (r: usize) {
        0
    }
}

/// The generator that random cards are drawn with.
#[verifier::external_type_specification]
#[verifier::external_body]
pub struct ExSmallRng(SmallRng);

/// The sum of a list of weights.
pub open spec fn weight_sum(weights: Seq<u32>) -> nat
    decreases weights.len(),
{
    if weights.len() == 0 {
        0
    } else {
        weight_sum(weights.drop_last()) + weights.last() as nat
    }
}

/// `rand`'s `WeightedIndex::new` and its `sample`: a place in the list of
/// weights, drawn with a chance in proportion to its weight, and so never one
/// whose weight is zero. The construction fails, and the call would panic, only
/// where all weights are zero or their sum does not fit.
#[verifier::external_body]
fn sample_weighted(weights: &Vec<u32>, rng: &mut SmallRng) -> (r: usize)
    requires
        0 < weight_sum(weights@) <= u32::MAX,
    ensures
        r < weights@.len(),
        weights@[r as int] > 0,
{
    WeightedIndex::new(weights).unwrap().sample(rng)
}

impl CardCol {
    /// Take out the card at a place of the rank order and return it.
    pub fn take_rank(&mut self, rank: usize) -> (r: Card)
        requires
            rank < N_RANKS,
            old(self)@[rank as int] > 0,
        ensures
            r == card_at(rank as int),
            final(self)@ == taken(old(self)@, single(r)),
    {
        let card = Card::from_rank_index(rank);
        let one_card = CardCol::new().with(card);
        *self = *self - one_card;
        card
    }

    /// Draw a random card, each rank with a chance in proportion to its number
    /// of cards, and take it out. Which card comes is chance: the contract says
    /// that it was there and that it is taken out.
    pub fn draw_rand(&mut self, rng: &mut SmallRng) -> (r: Card)
        requires
            size(old(self)@) > 0,
        ensures
            r.valid(),
            old(self)@[r.rank()] > 0,
            final(self)@ == taken(old(self)@, single(r)),
    {
        let weights = self.rank_weights();
        proof {
            weights_sum_to_size(weights@, self@, 10);
            assert(weights@.take(10) =~= weights@);
        }
        let rank: usize = sample_weighted(&weights, rng);
        self.take_rank(rank)
    }

    /// The numbers of cards by rank, as weights to draw by.
    pub fn rank_weights(&self) -> (r: Vec<u32>)
        ensures
            r@.len() == 10,
            forall|i: int| 0 <= i < 10 ==> #[trigger] r@[i] == self@[i],
    {
        let mut out: Vec<u32> = Vec::new();
        let mut i: usize = 0;
        while i < N_RANKS
            invariant
                i <= 10,
                out@.len() == i,
                forall|j: int| 0 <= j < i ==> #[trigger] out@[j] == self@[j],
            decreases 10 - i,
        {
            out.push(self.get_count_i(i) as u32);
            i += 1;
        }
        out
    }
}

/// The number of cards in the ranks before place `k`.
spec fn size_upto(t: Tally, k: int) -> nat
    decreases k,
{
    if k <= 0 {
        0
    } else {
        size_upto(t, k - 1) + t[k - 1]
    }
}

proof fn weights_sum_to_size(weights: Seq<u32>, t: Tally, k: int)
    requires
        weights.len() == 10,
        t.len() == 10,
        0 <= k <= 10,
        forall|i: int| 0 <= i < 10 ==> #[trigger] weights[i] == t[i],
    ensures
        weight_sum(weights.take(k)) == size_upto(t, k),
        k == 10 ==> weight_sum(weights.take(k)) == size(t),
    decreases k,
{
    if k > 0 {
        weights_sum_to_size(weights, t, k - 1);
        assert(weights.take(k).drop_last() =~= weights.take(k - 1));
        assert(weights[k - 1] == t[k - 1]);
    } else {
        assert(weights.take(0) =~= Seq::empty());
    }
    reveal_with_fuel(size_upto, 11);
}

impl InfiniteDeck {
    /// The numbers of cards by rank of a full deck, as weights to draw by.
    pub fn rank_weights(&self) -> (r: Vec<u32>)
        ensures
            r@.len() == 10,
            forall|i: int| 0 <= i < 10 ==> #[trigger] r@[i] == deck_tally(1)[i],
    {
        CardCol::from_decks(1).rank_weights()
    }

    /// Draw a random card by [`InfiniteDeck::rank_weights`], each rank with the
    /// chance that it has in a full deck. Which card comes is chance: the
    /// contract says that it is one of the ten ranks.
    pub fn draw_rand(&mut self, rng: &mut SmallRng) -> (r: Card)
        ensures
            r.valid(),
            *final(self) == *old(self),
    {
        let weights = self.rank_weights();
        proof {
            weights_sum_to_size(weights@, deck_tally(1), 10);
            assert(weights@.take(10) =~= weights@);
        }
        let rank: usize = sample_weighted(&weights, rng);
        Card::from_rank_index(rank)
    }
}

/// The shares of a finite shoe are the numbers of its cards over their sum: for
/// each rank that is there one, in rank order.
pub proof fn law_draws_are_shares<N: Scalar>(t: Tally, i: int)
    requires
        t.len() == 10,
        0 <= i < shares_from::<N>(t, 0).len(),
    ensures
        ({
            let (card, p) = shares_from::<N>(t, 0)[i];
            card.valid() && t[card.rank()] > 0 && p == share::<N>(t, card)
        }),
{
    shares_from_are_shares::<N>(t, 0);
}

proof fn shares_from_are_shares<N: Scalar>(t: Tally, from: int)
    requires
        t.len() == 10,
        0 <= from <= 10,
    ensures
        forall|i: int|
            0 <= i < shares_from::<N>(t, from).len() ==> {
                let e = #[trigger] shares_from::<N>(t, from)[i];
                e.0.valid() && t[e.0.rank()] > 0 && e.1 == share::<N>(t, e.0)
            },
    decreases 10 - from,
{
    if from < 10 {
        shares_from_are_shares::<N>(t, from + 1);
        let rest = shares_from::<N>(t, from + 1);
        let all = shares_from::<N>(t, from);
        if t[from] > 0 {
            assert(all[0] == (card_at(from), share::<N>(t, card_at(from))));
            assert forall|i: int| 0 < i < all.len() implies all[i] == rest[i - 1] by {}
        }
    }
}

/// The infinite deck is the same before and after any card, so a hand is drawn
/// from it as if each card were put back.
pub proof fn law_infinite_deck_never_depletes<N: Scalar>(cards: Tally, card: Card)
    ensures
        <InfiniteDeck as Shoe<N>>::prob(<InfiniteDeck as Shoe<N>>::without((), cards), card)
            == full_deck_chance::<N>(card),
        fits::<N, InfiniteDeck>((), cards),
{
}

} // verus!
