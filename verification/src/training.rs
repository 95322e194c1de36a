//! The training table: rounds played card by card against a live shoe, with the running
//! count of the cards that the player has seen.
use crate::card::Card;
use crate::config::ShoeChoice;
use crate::count::{count_of, law_counts_are_additive, law_full_shoe_counts, CountSystemId};
use crate::dealer::{final_outcome, must_hit, DealerHand, DealerOutcome};
use crate::drawing::InfiniteDeck;
use crate::hand::{state_of, HandState, Move};
use crate::num::{from_whole, one, whole, zero, Scalar};
use crate::rules::{Ruleset, SurrenderRule};
use crate::shoe::{
    best, deck_tally, hard, is_natural, joined, no_cards, single, size, taken, tally_bounds,
    tally_of, with_card, within, CardCol, Tally,
};
use crate::simulation::{payoff, resolve_ev};
use rand::rngs::SmallRng;
use vstd::prelude::*;

verus! {

broadcast use tally_bounds;

/// Where a round stands.
#[derive(Clone, Copy, Debug, PartialEq, Eq, Structural)]
pub enum Phase {
    /// Between rounds.
    Ready,
    /// The first four cards are being laid out one at a time.
    Dealing,
    /// The player is acting.
    Player,
    /// The dealer is turning cards one at a time.
    Dealer,
    /// The round is settled.
    Settled,
}

/// What happens at the next step of a paced turn.
#[derive(Clone, Copy, Debug, PartialEq, Eq, Structural)]
pub enum Pace {
    /// The next of the first four cards is laid out.
    Deal,
    /// The dealer turns the next card.
    Dealer,
}

/// How a hand ended.
#[derive(Clone, Copy, Debug, PartialEq, Eq, Structural)]
pub enum HandResult {
    Blackjack,
    Win,
    Push,
    Lose,
    Bust,
    Surrender,
}

impl HandResult {
    pub open spec fn label_spec(self) -> Seq<char> {
        match self {
            HandResult::Blackjack => "blackjack"@,
            HandResult::Win => "win"@,
            HandResult::Push => "push"@,
            HandResult::Lose => "lose"@,
            HandResult::Bust => "bust"@,
            HandResult::Surrender => "surrender"@,
        }
    }

    /// The result in a word.
    pub fn label(self) -> (r: &'static str)
        ensures
            r@ == self.label_spec(),
    {
        match self {
            HandResult::Blackjack => "blackjack",
            HandResult::Win => "win",
            HandResult::Push => "push",
            HandResult::Lose => "lose",
            HandResult::Bust => "bust",
            HandResult::Surrender => "surrender",
        }
    }
}

/// A hand of the player's as contracts see it.
pub struct HandView<N> {
    pub cards: Seq<Card>,
    pub bet: N,
    pub doubled: bool,
    pub from_split: bool,
    pub surrendered: bool,
    pub done: bool,
    pub result: Option<HandResult>,
    pub net: N,
}

impl<N: Scalar> HandView<N> {
    /// A hand without cards.
    pub open spec fn fresh(bet: N) -> HandView<N> {
        HandView {
            cards: Seq::empty(),
            bet,
            doubled: false,
            from_split: false,
            surrendered: false,
            done: false,
            result: None,
            net: zero::<N>(),
        }
    }

    pub open spec fn tally(self) -> Tally {
        tally_of(self.cards)
    }

    /// What the hand counts as for play and payout: the 21 of two cards after a split
    /// is no natural.
    pub open spec fn state(self) -> HandState {
        if self.from_split && state_of(self.tally()) == HandState::Natural {
            HandState::Soft(21)
        } else {
            state_of(self.tally())
        }
    }

    /// Whether the player has nothing left to decide on the hand.
    pub open spec fn finished(self) -> bool {
        self.done || self.surrendered || best(self.tally()) >= 21
    }

    pub open spec fn with_card(self, card: Card) -> HandView<N> {
        HandView { cards: self.cards.push(card), ..self }
    }

    /// Cards of the ten ranks that do not go far beyond 21.
    pub open spec fn valid(self) -> bool {
        all_valid(self.cards) && hard(self.tally()) <= 31
    }

    /// The hand with its result against the dealer's. A surrendered hand loses half its
    /// bet; the others win or lose what the payoff gives for each unit bet.
    pub open spec fn settled(self, outcome: DealerOutcome, bj_payout: N) -> HandView<N> {
        let ev = payoff(self.state(), outcome, bj_payout);
        if self.surrendered {
            HandView {
                result: Some(HandResult::Surrender),
                net: half_lost::<N>().times_spec(self.bet),
                ..self
            }
        } else {
            HandView {
                result: Some(result_of(self.state(), ev)),
                net: ev.times_spec(self.bet),
                ..self
            }
        }
    }
}

/// What surrender costs for each unit bet.
pub open spec fn half_lost<N: Scalar>() -> N {
    N::ratio_spec((-1) as i64, 2)
}

/// A billionth, below which a value counts as zero.
pub open spec fn hair<N: Scalar>() -> N {
    N::ratio_spec(1, 1_000_000_000)
}

pub open spec fn minus_hair<N: Scalar>() -> N {
    N::ratio_spec((-1) as i64, 1_000_000_000)
}

/// The result of a hand in this state that wins `ev`.
pub open spec fn result_of<N: Scalar>(state: HandState, ev: N) -> HandResult {
    if state == HandState::Bust {
        HandResult::Bust
    } else if hair::<N>().less_spec(ev) {
        if state == HandState::Natural {
            HandResult::Blackjack
        } else {
            HandResult::Win
        }
    } else if ev.less_spec(minus_hair::<N>()) {
        HandResult::Lose
    } else {
        HandResult::Push
    }
}

/// Whether all cards are of the ten ranks.
pub open spec fn all_valid(cards: Seq<Card>) -> bool {
    forall|i: int| 0 <= i < cards.len() ==> (#[trigger] cards[i]).valid()
}

/// The live shoe as contracts see it.
pub enum ShoeView {
    Finite { cards: Tally, n_decks: int },
    Infinite,
}

impl ShoeView {
    /// Whether these cards can be drawn.
    pub open spec fn has(self, cards: Seq<Card>) -> bool {
        match self {
            ShoeView::Finite { cards: pool, n_decks } => within(tally_of(cards), pool),
            ShoeView::Infinite => true,
        }
    }

    /// The shoe without these cards.
    pub open spec fn less(self, cards: Seq<Card>) -> ShoeView {
        match self {
            ShoeView::Finite { cards: pool, n_decks } => ShoeView::Finite {
                cards: taken(pool, tally_of(cards)),
                n_decks,
            },
            ShoeView::Infinite => self,
        }
    }

    /// The shoe with all its cards.
    pub open spec fn full(self) -> ShoeView {
        match self {
            ShoeView::Finite { cards, n_decks } => ShoeView::Finite {
                cards: deck_tally(n_decks as nat),
                n_decks,
            },
            ShoeView::Infinite => self,
        }
    }

    /// The full shoe of a choice.
    pub open spec fn of(choice: ShoeChoice) -> ShoeView {
        match choice {
            ShoeChoice::Infinite => ShoeView::Infinite,
            ShoeChoice::Decks(n) => ShoeView::Finite {
                cards: deck_tally(n as nat),
                n_decks: n as int,
            },
        }
    }

    /// The choice that the shoe was made for.
    pub open spec fn choice(self) -> ShoeChoice {
        match self {
            ShoeView::Infinite => ShoeChoice::Infinite,
            ShoeView::Finite { cards, n_decks } => ShoeChoice::Decks(n_decks as u8),
        }
    }

    /// What the count of a fresh shoe is.
    pub open spec fn initial_count(self) -> int {
        match self {
            ShoeView::Finite { cards, n_decks } => CountSystemId::Ko.start(n_decks),
            ShoeView::Infinite => 0,
        }
    }

    /// Whether the shoe has been dealt so deep that it is shuffled before the next round.
    pub open spec fn needs_shuffle(self) -> bool {
        match self {
            ShoeView::Finite { cards, n_decks } => size(cards) * 4 < n_decks * 52,
            ShoeView::Infinite => false,
        }
    }
}

/// The live shoe: a finite one that depletes, or the infinite deck.
#[derive(Clone, Copy)]
pub enum TrainShoe {
    Finite { cards: CardCol, n_decks: u8 },
    Infinite,
}

impl TrainShoe {
    pub open spec fn view(&self) -> ShoeView {
        match self {
            TrainShoe::Finite { cards, n_decks } => ShoeView::Finite {
                cards: cards@,
                n_decks: *n_decks as int,
            },
            TrainShoe::Infinite => ShoeView::Infinite,
        }
    }

    /// The full shoe of a choice.
    pub fn from_choice(choice: ShoeChoice) -> (r: Self)
        ensures
            r.view() == ShoeView::of(choice),
    {
        match choice {
            ShoeChoice::Infinite => TrainShoe::Infinite,
            ShoeChoice::Decks(n) => TrainShoe::Finite { cards: CardCol::from_decks(n), n_decks: n },
        }
    }

    pub open spec fn choice_spec(self) -> ShoeChoice {
        match self {
            TrainShoe::Infinite => ShoeChoice::Infinite,
            TrainShoe::Finite { cards, n_decks } => ShoeChoice::Decks(n_decks),
        }
    }

    /// The choice that the shoe was made for.
    pub fn choice(&self) -> (r: ShoeChoice)
        ensures
            r == self.choice_spec(),
    {
        match self {
            TrainShoe::Infinite => ShoeChoice::Infinite,
            TrainShoe::Finite { n_decks, .. } => ShoeChoice::Decks(*n_decks),
        }
    }

    /// Whether the shoe depletes.
    pub fn is_finite(&self) -> (r: bool)
        ensures
            r == (self.view() is Finite),
    {
        match self {
            TrainShoe::Finite { .. } => true,
            TrainShoe::Infinite => false,
        }
    }

    /// Put all the cards back.
    pub fn reset(&mut self)
        ensures
            final(self).view() == old(self).view().full(),
    {
        match *self {
            TrainShoe::Finite { n_decks, .. } => {
                *self = TrainShoe::Finite { cards: CardCol::from_decks(n_decks), n_decks };
            },
            TrainShoe::Infinite => {},
        }
    }

    /// Whether less than a quarter of the cards is left.
    pub fn needs_shuffle(&self) -> (r: bool)
        ensures
            r == self.view().needs_shuffle(),
    {
        match self {
            TrainShoe::Finite { cards, n_decks } => cards.len() * 4 < *n_decks as usize * 52,
            TrainShoe::Infinite => false,
        }
    }

    /// How many cards are left, if they can run out.
    pub fn cards_left(&self) -> (r: Option<usize>)
        ensures
            r == match self.view() {
                ShoeView::Finite { cards, n_decks } => Some(size(cards) as usize),
                ShoeView::Infinite => None,
            },
    {
        match self {
            TrainShoe::Finite { cards, .. } => Some(cards.len()),
            TrainShoe::Infinite => None,
        }
    }

    /// How many decks are left, if they can run out.
    pub fn decks_remaining<N: Scalar>(&self) -> (r: Option<N>)
        ensures
            r == match self.view() {
                ShoeView::Finite { cards, n_decks } => Some(N::ratio_spec(size(cards) as i64, 52)),
                ShoeView::Infinite => None,
            },
    {
        match self {
            TrainShoe::Finite { cards, .. } => Some(N::ratio(cards.len() as i64, 52)),
            TrainShoe::Infinite => None,
        }
    }

    /// Draw a random card. Which one comes is chance: it is one that was there.
    pub fn draw(&mut self, rng: &mut SmallRng) -> (r: Card)
        requires
            old(self).view() matches ShoeView::Finite { cards, n_decks } ==> size(cards) > 0,
        ensures
            r.valid(),
            old(self).view().has(seq![r]),
            final(self).view() == old(self).view().less(seq![r]),
    {
        match *self {
            TrainShoe::Finite { cards, n_decks } => {
                let mut pool = cards;
                let card = pool.draw_rand(rng);
                *self = TrainShoe::Finite { cards: pool, n_decks };
                proof {
                    one_card_tally(card);
                    assert(within(single(card), cards@));
                }
                card
            },
            TrainShoe::Infinite => {
                let mut deck = InfiniteDeck {};
                deck.draw_rand(rng)
            },
        }
    }

    /// Take one card out of the shoe.
    fn take(&mut self, card: Card)
        requires
            card.valid(),
            old(self).view().has(seq![card]),
        ensures
            final(self).view() == old(self).view().less(seq![card]),
            final(self).choice_spec() == old(self).choice_spec(),
    {
        proof {
            one_card_tally(card);
        }
        match *self {
            TrainShoe::Finite { cards, n_decks } => {
                let one_card = CardCol::new().with(card);
                *self = TrainShoe::Finite { cards: cards - one_card, n_decks };
            },
            TrainShoe::Infinite => {},
        }
    }
}

/// The tally of one card.
proof fn one_card_tally(card: Card)
    requires
        card.valid(),
    ensures
        tally_of(seq![card]) == single(card),
{
    let s = seq![card];
    assert(s.drop_last() =~= Seq::<Card>::empty());
    assert(tally_of(s.drop_last()) == no_cards());
    assert(with_card(no_cards(), card) =~= single(card));
}

/// What the count of a fresh shoe is.
pub fn initial_count(shoe: &TrainShoe) -> (r: i16)
    ensures
        r == shoe.view().initial_count(),
{
    match shoe {
        TrainShoe::Finite { n_decks, .. } => CountSystemId::Ko.starting_count(*n_decks),
        TrainShoe::Infinite => 0,
    }
}

/// The table as contracts see it.
pub struct TableView<N> {
    pub shoe: ShoeView,
    pub running_count: int,
    pub phase: Phase,
    /// The up-card, the hole card and the cards drawn.
    pub dealer: Seq<Card>,
    pub hands: Seq<HandView<N>>,
    pub active: int,
    pub hole_down: bool,
    /// The first four cards, in the order in which they are laid out.
    pub opening: Seq<Card>,
    pub dealt: int,
    pub pace: Option<Pace>,
}

/// How the layout of the first four cards ends.
#[derive(Clone, Copy, Debug, PartialEq, Eq, Structural)]
pub enum OpeningEnd {
    /// The dealer has looked and shown a natural.
    DealerNatural,
    /// The player has a natural, and nothing to decide.
    PlayerNatural,
    /// It is the player's turn.
    Play,
}

/// Whether a card can be one of a natural under which the dealer may look.
pub open spec fn may_look(up: Card) -> bool {
    up == Card::Ace || up == Card::Ten
}

impl<N: Scalar> TableView<N> {
    /// The table before the first round.
    pub open spec fn fresh(shoe: ShoeView) -> TableView<N> {
        TableView {
            shoe,
            running_count: shoe.initial_count(),
            phase: Phase::Ready,
            dealer: Seq::empty(),
            hands: Seq::empty(),
            active: 0,
            hole_down: false,
            opening: Seq::empty(),
            dealt: 0,
            pace: None,
        }
    }

    /// A card is seen and counted. The infinite deck has no count.
    pub open spec fn seen(self, card: Card) -> TableView<N> {
        match self.shoe {
            ShoeView::Finite { cards, n_decks } => TableView {
                running_count: self.running_count + CountSystemId::Ko.value(card),
                ..self
            },
            ShoeView::Infinite => self,
        }
    }

    /// A card is drawn face up.
    pub open spec fn drawn(self, card: Card) -> TableView<N> {
        TableView { shoe: self.shoe.less(seq![card]), ..self }.seen(card)
    }

    /// The cards that have been drawn and not been seen.
    pub open spec fn hidden(self) -> Seq<Card> {
        (if self.phase == Phase::Dealing {
            self.opening.subrange(self.dealt, 4)
        } else {
            Seq::empty()
        }) + (if self.hole_down {
            seq![self.dealer[1]]
        } else {
            Seq::empty()
        })
    }

    /// The cards of the shoe that the player has not seen.
    pub open spec fn unseen(self) -> Tally {
        match self.shoe {
            ShoeView::Finite { cards, n_decks } => joined(cards, tally_of(self.hidden())),
            ShoeView::Infinite => no_cards(),
        }
    }

    /// The count is that of exactly the cards that the player has seen: it and the count
    /// of the unseen cards add up to the pivot.
    pub open spec fn counted(self) -> bool {
        match self.shoe {
            ShoeView::Finite { cards, n_decks } => {
                &&& 0 < n_decks <= 255
                &&& cards.len() == 10
                &&& within(self.unseen(), deck_tally(n_decks as nat))
                &&& self.running_count == CountSystemId::Ko.pivot_spec(n_decks) - count_of(
                    CountSystemId::Ko.values(),
                    self.unseen(),
                )
            },
            ShoeView::Infinite => self.running_count == 0,
        }
    }

    /// Whether all hands are of valid cards.
    pub open spec fn hands_valid(self) -> bool {
        forall|i: int| 0 <= i < self.hands.len() ==> (#[trigger] self.hands[i]).valid()
    }

    /// The tables that play leads to.
    pub open spec fn valid(self) -> bool {
        &&& self.counted()
        &&& all_valid(self.dealer)
        &&& all_valid(self.opening)
        &&& self.hands_valid()
        &&& self.hands.len() <= 255
        &&& hard(tally_of(self.dealer)) <= 31
        &&& match self.phase {
            Phase::Ready => !self.hole_down && self.pace is None,
            Phase::Dealing => {
                &&& self.opening.len() == 4
                &&& 0 <= self.dealt < 4
                &&& self.hands.len() == 1
                &&& self.active == 0
                &&& !self.hole_down
                &&& self.hands[0].cards.len() == (self.dealt + 1) / 2
                &&& self.dealer.len() == self.dealt / 2
                &&& !self.hands[0].done && !self.hands[0].surrendered && !self.hands[0].doubled
                    && !self.hands[0].from_split
                &&& self.pace is None || self.pace == Some(Pace::Deal)
            },
            Phase::Player => {
                &&& 0 <= self.active < self.hands.len()
                &&& self.dealer.len() == 2
                &&& self.hole_down
                &&& !self.hands[self.active].finished()
                &&& forall|i: int|
                    0 <= i < self.hands.len() ==> (#[trigger] self.hands[i]).cards.len() >= 2
                &&& self.pace is None
            },
            Phase::Dealer => {
                &&& self.dealer.len() >= 2
                &&& self.hands.len() > 0
                &&& self.pace == Some(Pace::Dealer)
                &&& self.hole_down ==> self.dealer.len() == 2
                &&& !self.hole_down ==> hard(tally_of(self.dealer)) < 17
            },
            Phase::Settled => !self.hole_down && self.pace is None,
        }
    }

    /// A new round: the shoe is shuffled where that is due, and the first four cards
    /// have been drawn.
    pub open spec fn shuffled(self) -> TableView<N> {
        if self.shoe.needs_shuffle() {
            TableView {
                shoe: self.shoe.full(),
                running_count: self.shoe.initial_count(),
                ..self
            }
        } else {
            self
        }
    }

    /// A round with the first four cards drawn and none laid out.
    pub open spec fn started(self, cards: Seq<Card>) -> TableView<N> {
        TableView {
            shoe: self.shuffled().shoe.less(cards),
            running_count: self.shuffled().running_count,
            phase: Phase::Dealing,
            dealer: Seq::empty(),
            hands: seq![HandView::fresh(one::<N>())],
            active: 0,
            hole_down: false,
            opening: cards,
            dealt: 0,
            pace: None,
        }
    }

    /// A card is added to a hand.
    pub open spec fn to_hand(self, i: int, card: Card) -> TableView<N> {
        TableView { hands: self.hands.update(i, self.hands[i].with_card(card)), ..self }
    }

    /// The next of the first four cards is laid out: to the player, to the dealer, to
    /// the player, to the dealer face down. Every card but the last is seen.
    pub open spec fn laid(self) -> TableView<N> {
        let card = self.opening[self.dealt];
        let down = if self.dealt == 0 || self.dealt == 2 {
            self.seen(card).to_hand(0, card)
        } else if self.dealt == 1 {
            TableView { dealer: self.dealer.push(card), ..self.seen(card) }
        } else {
            TableView { dealer: self.dealer.push(card), hole_down: true, ..self }
        };
        TableView {
            dealt: self.dealt + 1,
            pace: if self.dealt < 3 {
                Some(Pace::Deal)
            } else {
                None
            },
            ..down
        }
    }

    /// How the layout ends: a dealer who looks shows a natural; a natural of the player's
    /// stands; else the player is to act.
    pub open spec fn opening_end(self, rules: Ruleset) -> OpeningEnd {
        let looks = rules.peek.peeks_spec() && may_look(self.dealer[0]);
        if looks && is_natural(tally_of(self.dealer)) {
            OpeningEnd::DealerNatural
        } else if is_natural(self.hands[0].tally()) {
            OpeningEnd::PlayerNatural
        } else {
            OpeningEnd::Play
        }
    }

    /// The dealer's turn begins.
    pub open spec fn to_dealer(self) -> TableView<N> {
        TableView { phase: Phase::Dealer, pace: Some(Pace::Dealer), ..self }
    }

    /// The table when the layout has ended.
    pub open spec fn opened(self, rules: Ruleset) -> TableView<N> {
        match self.opening_end(rules) {
            OpeningEnd::DealerNatural => self.to_dealer(),
            OpeningEnd::PlayerNatural => TableView {
                hands: self.hands.update(0, HandView { done: true, ..self.hands[0] }),
                ..self
            }.to_dealer(),
            OpeningEnd::Play => TableView { phase: Phase::Player, ..self },
        }
    }

    /// Whether a move is allowed on the active hand.
    pub open spec fn allows(self, mv: Move, rules: Ruleset) -> bool {
        let hand = self.hands[self.active];
        match mv {
            Move::Hit => !hand.doubled && best(hand.tally()) < 21,
            Move::Stand => true,
            Move::Double => hand.cards.len() == 2 && (rules.das || self.hands.len() == 1),
            Move::Split => hand.cards.len() == 2 && hand.cards[0] == hand.cards[1]
                && self.hands.len() < rules.max_split_hands,
            Move::Surrender => rules.peek.surrender_spec() != SurrenderRule::Never
                && self.hands.len() == 1 && hand.cards.len() == 2 && !hand.from_split,
        }
    }

    /// How many cards a move draws.
    pub open spec fn draws(mv: Move) -> int {
        match mv {
            Move::Hit => 1,
            Move::Double => 1,
            Move::Split => 2,
            _ => 0,
        }
    }

    /// The active hand is changed.
    pub open spec fn with_active(self, hand: HandView<N>) -> TableView<N> {
        TableView { hands: self.hands.update(self.active, hand), ..self }
    }

    /// The active pair is split: each card becomes a hand of its own and is dealt another
    /// card, the first to the hand that stays. Split aces stand.
    pub open spec fn split(self, c1: Card, c2: Card) -> TableView<N> {
        let hand = self.hands[self.active];
        let rank = hand.cards[0];
        let ace = rank == Card::Ace;
        let first = HandView {
            cards: hand.cards.drop_last().push(c1),
            from_split: true,
            done: hand.done || ace,
            ..hand
        };
        let second = HandView {
            cards: seq![rank, c2],
            from_split: true,
            done: ace,
            ..HandView::fresh(hand.bet)
        };
        let after = self.drawn(c1).drawn(c2);
        TableView {
            hands: after.hands.update(self.active, first).insert(self.active + 1, second),
            ..after
        }
    }

    /// A move is made with the cards drawn for it.
    pub open spec fn played(self, mv: Move, cards: Seq<Card>) -> TableView<N> {
        let hand = self.hands[self.active];
        match mv {
            Move::Hit => self.drawn(cards[0]).to_hand(self.active, cards[0]),
            Move::Stand => self.with_active(HandView { done: true, ..hand }),
            Move::Double => self.drawn(cards[0]).with_active(
                HandView {
                    bet: hand.bet.times_spec(whole::<N>(2)),
                    doubled: true,
                    done: true,
                    ..hand.with_card(cards[0])
                },
            ),
            Move::Split => self.split(cards[0], cards[1]),
            Move::Surrender => self.with_active(
                HandView { surrendered: true, done: true, ..hand },
            ),
        }
    }

    /// The place of the first hand from `i` on that is not finished, or the number of
    /// hands.
    pub open spec fn next_hand(self, i: int) -> int
        decreases self.hands.len() - i,
    {
        if 0 <= i < self.hands.len() && self.hands[i].finished() {
            self.next_hand(i + 1)
        } else {
            i
        }
    }

    /// The turn passes to the next hand that is not finished, or to the dealer.
    pub open spec fn advanced(self) -> TableView<N> {
        let next = TableView { active: self.next_hand(self.active), ..self };
        if next.active >= self.hands.len() {
            next.to_dealer()
        } else {
            next
        }
    }

    /// Whether a hand still depends on the dealer's.
    pub open spec fn is_live(hand: HandView<N>) -> bool {
        !hand.surrendered && hand.state() != HandState::Bust && hand.state() != HandState::Natural
    }

    /// Whether the dealer takes another card: only where a hand depends on it.
    pub open spec fn dealer_wants(self, rules: Ruleset) -> bool {
        (exists|i: int| 0 <= i < self.hands.len() && Self::is_live(#[trigger] self.hands[i]))
            && must_hit(tally_of(self.dealer), rules.hs17)
    }

    /// The dealer turns a card: the hole card first, then one drawn.
    pub open spec fn turned(self, card: Card) -> TableView<N> {
        if self.hole_down {
            TableView { hole_down: false, ..self }.seen(self.dealer[1])
        } else {
            TableView { dealer: self.dealer.push(card), ..self.drawn(card) }
        }
    }

    /// The hands with their results.
    pub open spec fn settled_hands(self, rules: Ruleset) -> Seq<HandView<N>> {
        Seq::new(
            self.hands.len(),
            |i: int|
                self.hands[i].settled(
                    final_outcome(tally_of(self.dealer)),
                    rules.bj_payout.multiplier_spec::<N>(),
                ),
        )
    }

    /// The table when the dealer has no more card to turn.
    pub open spec fn settled(self, rules: Ruleset) -> TableView<N> {
        TableView {
            hands: self.settled_hands(rules),
            phase: Phase::Settled,
            pace: None,
            ..self
        }
    }

    /// A step of the dealer's turn.
    pub open spec fn stepped(self, card: Card, rules: Ruleset) -> TableView<N> {
        let next = self.turned(card);
        if next.dealer_wants(rules) {
            next
        } else {
            next.settled(rules)
        }
    }
}

/// The tally of two lists, one after the other.
pub proof fn tally_of_both(a: Seq<Card>, b: Seq<Card>)
    requires
        all_valid(a),
        all_valid(b),
    ensures
        tally_of(a + b) == joined(tally_of(a), tally_of(b)),
    decreases b.len(),
{
    tally_has_ten(a);
    tally_has_ten(b);
    if b.len() == 0 {
        assert(a + b =~= a);
        assert(joined(tally_of(a), no_cards()) =~= tally_of(a));
    } else {
        let c = b.drop_last();
        assert forall|i: int| 0 <= i < c.len() implies (#[trigger] c[i]).valid() by {
            assert(b[i].valid());
        }
        assert(b[b.len() - 1].valid());
        tally_of_both(a, c);
        tally_has_ten(c);
        assert((a + b).drop_last() =~= a + c);
        assert((a + b).last() == b.last());
        assert(with_card(joined(tally_of(a), tally_of(c)), b.last()) =~= joined(
            tally_of(a),
            with_card(tally_of(c), b.last()),
        ));
    }
}

/// A tally has a number for each rank.
pub proof fn tally_has_ten(a: Seq<Card>)
    requires
        all_valid(a),
    ensures
        tally_of(a).len() == 10,
    decreases a.len(),
{
    if a.len() > 0 {
        let c = a.drop_last();
        assert forall|i: int| 0 <= i < c.len() implies (#[trigger] c[i]).valid() by {
            assert(a[i].valid());
        }
        assert(a[a.len() - 1].valid());
        tally_has_ten(c);
    }
}

/// One more card: the tally, the total and the number of cards.
pub proof fn tally_with_card(cards: Seq<Card>, card: Card)
    requires
        all_valid(cards),
        card.valid(),
    ensures
        all_valid(cards.push(card)),
        tally_of(cards.push(card)) == with_card(tally_of(cards), card),
        tally_of(cards).len() == 10,
        hard(tally_of(cards.push(card))) == hard(tally_of(cards)) + card.value(),
        1 <= card.value() <= 10,
{
    assert(cards.push(card).drop_last() =~= cards);
    tally_has_ten(cards);
    crate::partitions::hard_with_n(tally_of(cards), card.rank(), 1);
    crate::card::law_rank_round_trip(card, 0);
}

/// A list has no more cards than points.
pub proof fn few_cards(cards: Seq<Card>)
    requires
        all_valid(cards),
    ensures
        cards.len() <= hard(tally_of(cards)),
        size(tally_of(cards)) == cards.len(),
    decreases cards.len(),
{
    if cards.len() > 0 {
        let c = cards.drop_last();
        assert forall|i: int| 0 <= i < c.len() implies (#[trigger] c[i]).valid() by {
            assert(cards[i].valid());
        }
        assert(cards[cards.len() - 1].valid());
        few_cards(c);
        assert(c.push(cards.last()) =~= cards);
        tally_with_card(c, cards.last());
        crate::partitions::hard_with_n(tally_of(c), cards.last().rank(), 1);
    }
}

/// Cards that can be drawn together can be drawn one after the other.
pub proof fn has_in_turn(shoe: ShoeView, c1: Card, c2: Card)
    requires
        c1.valid(),
        c2.valid(),
        shoe matches ShoeView::Finite { cards, n_decks } ==> cards.len() == 10,
        shoe.has(seq![c1, c2]),
    ensures
        shoe.has(seq![c1]),
        shoe.less(seq![c1]).has(seq![c2]),
        shoe.less(seq![c1]).less(seq![c2]) == shoe.less(seq![c1, c2]),
{
    let both = seq![c1, c2];
    assert(both =~= seq![c1] + seq![c2]);
    tally_of_both(seq![c1], seq![c2]);
    one_card_tally(c1);
    one_card_tally(c2);
    if let ShoeView::Finite { cards, n_decks } = shoe {
        crate::shoe::law_taken_twice(cards, single(c1), single(c2));
        let t = joined(single(c1), single(c2));
        assert forall|i: int| 0 <= i < 10 implies #[trigger] single(c1)[i] <= cards[i] by {
            assert(t[i] <= cards[i]);
        }
        assert forall|i: int| 0 <= i < 10 implies #[trigger] single(c2)[i] <= taken(
            cards,
            single(c1),
        )[i] by {
            assert(t[i] <= cards[i]);
        }
    }
}

impl<N: Scalar> TableView<N> {
    /// Seeing a card that is drawn keeps the count right.
    proof fn drawn_is_counted(self, card: Card)
        requires
            self.counted(),
            card.valid(),
            self.shoe.has(seq![card]),
            all_valid(self.hidden()),
        ensures
            self.drawn(card).counted(),
    {
        if let ShoeView::Finite { cards, n_decks } = self.shoe {
            let values = CountSystemId::Ko.values();
            let next = self.drawn(card);
            let h = tally_of(self.hidden());
            tally_has_ten(self.hidden());
            one_card_tally(card);
            let one_card = single(card);
            assert(next.hidden() =~= self.hidden());
            assert(one_card[card.rank()] <= cards[card.rank()]);
            assert(joined(next.unseen(), one_card) =~= self.unseen()) by {
                assert forall|i: int| 0 <= i < 10 implies #[trigger] joined(
                    next.unseen(),
                    one_card,
                )[i] == self.unseen()[i] by {
                    assert(one_card[i] <= cards[i]);
                }
            }
            law_counts_are_additive(values, next.unseen(), one_card, 10);
            crate::countw::count_of_single(values, card, 10);
            crate::card::law_rank_round_trip(card, 0);
            assert(values[card.rank()] == CountSystemId::Ko.value(card));
            assert forall|i: int| 0 <= i < 10 implies #[trigger] next.unseen()[i] <= deck_tally(
                n_decks as nat,
            )[i] by {
                assert(self.unseen()[i] <= deck_tally(n_decks as nat)[i]);
            }
        }
    }

    /// The count is near zero.
    proof fn count_is_near(self)
        requires
            self.counted(),
        ensures
            -20_000 <= self.running_count <= 20_000,
    {
        if let ShoeView::Finite { cards, n_decks } = self.shoe {
            let values = CountSystemId::Ko.values();
            let root = deck_tally(n_decks as nat);
            law_full_shoe_counts(CountSystemId::Ko, n_decks);
            crate::countw::counts_are_bounded(values, self.unseen(), root, 10);
            crate::countshoe::span_at_most_size(values, root, 10);
            crate::countshoe::ranks_are_size(root);
        }
    }

    /// A card leaves the hidden ones and is seen: the count stays right.
    proof fn seen_is_counted(self, next: TableView<N>, card: Card)
        requires
            self.counted(),
            card.valid(),
            all_valid(next.hidden()),
            self.hidden() == next.hidden().push(card) || self.hidden() == seq![card]
                + next.hidden(),
            next.shoe == self.shoe,
            next.running_count == self.seen(card).running_count,
        ensures
            next.counted(),
    {
        if let ShoeView::Finite { cards, n_decks } = self.shoe {
            let values = CountSystemId::Ko.values();
            let h = next.hidden();
            tally_has_ten(h);
            one_card_tally(card);
            tally_of_both(seq![card], h);
            tally_with_card(h, card);
            let one_card = single(card);
            assert(tally_of(self.hidden()) =~= joined(one_card, tally_of(h)));
            assert(joined(next.unseen(), one_card) =~= self.unseen());
            law_counts_are_additive(values, next.unseen(), one_card, 10);
            crate::countw::count_of_single(values, card, 10);
            crate::card::law_rank_round_trip(card, 0);
            assert(values[card.rank()] == CountSystemId::Ko.value(card));
            assert forall|i: int| 0 <= i < 10 implies #[trigger] next.unseen()[i] <= deck_tally(
                n_decks as nat,
            )[i] by {
                assert(self.unseen()[i] <= deck_tally(n_decks as nat)[i]);
            }
        }
    }
}

/// A hand of the player's.
pub struct TrainHand<N> {
    pub cards: Vec<Card>,
    pub bet: N,
    pub doubled: bool,
    pub from_split: bool,
    pub surrendered: bool,
    pub done: bool,
    pub result: Option<HandResult>,
    pub net: N,
}

impl<N: Scalar> TrainHand<N> {
    pub open spec fn view(&self) -> HandView<N> {
        HandView {
            cards: self.cards@,
            bet: self.bet,
            doubled: self.doubled,
            from_split: self.from_split,
            surrendered: self.surrendered,
            done: self.done,
            result: self.result,
            net: self.net,
        }
    }

    /// A hand without cards.
    pub fn new(bet: N) -> (r: Self)
        ensures
            r.view() == HandView::fresh(bet),
    {
        let r = TrainHand {
            cards: Vec::new(),
            bet,
            doubled: false,
            from_split: false,
            surrendered: false,
            done: false,
            result: None,
            net: from_whole(0),
        };
        assert(r.cards@ =~= Seq::<Card>::empty());
        r
    }

    /// The cards of the hand without their order.
    pub fn col(&self) -> (r: CardCol)
        requires
            self.view().valid(),
        ensures
            r@ == self.view().tally(),
            size(r@) == self.cards@.len(),
    {
        proof {
            few_cards(self.cards@);
        }
        CardCol::from_hand(self.cards.as_slice())
    }

    /// What the hand counts as for play and payout.
    pub fn state(&self) -> (r: HandState)
        requires
            self.view().valid(),
        ensures
            r == self.view().state(),
    {
        let raw = HandState::of(&self.col());
        if self.from_split && raw == HandState::Natural {
            HandState::Soft(21)
        } else {
            raw
        }
    }

    /// Whether the player has nothing left to decide on the hand.
    pub fn finished(&self) -> (r: bool)
        requires
            self.view().valid(),
        ensures
            r == self.view().finished(),
    {
        self.done || self.surrendered || self.col().best_count() >= 21
    }

    /// Fill in the result.
    fn settle(&mut self, outcome: DealerOutcome, bj_payout: N)
        requires
            old(self).view().valid(),
        ensures
            final(self).view() == old(self).view().settled(outcome, bj_payout),
    {
        if self.surrendered {
            let half: N = N::ratio(-1, 2);
            self.result = Some(HandResult::Surrender);
            self.net = half.times(self.bet);
        } else {
            let state = self.state();
            let ev: N = resolve_ev(state, outcome, bj_payout);
            let eps: N = N::ratio(1, 1_000_000_000);
            let neg: N = N::ratio(-1, 1_000_000_000);
            let result = if state == HandState::Bust {
                HandResult::Bust
            } else if eps.less(ev) {
                if state == HandState::Natural {
                    HandResult::Blackjack
                } else {
                    HandResult::Win
                }
            } else if ev.less(neg) {
                HandResult::Lose
            } else {
                HandResult::Push
            };
            self.result = Some(result);
            self.net = ev.times(self.bet);
        }
    }
}

/// The table.
pub struct Table<N> {
    shoe: TrainShoe,
    running_count: i16,
    phase: Phase,
    dealer: Vec<Card>,
    hands: Vec<TrainHand<N>>,
    active: usize,
    hole_down: bool,
    opening: Vec<Card>,
    dealt: usize,
    pace: Option<Pace>,
}

impl<N: Scalar> Table<N> {
    pub closed spec fn view(&self) -> TableView<N> {
        TableView {
            shoe: self.shoe.view(),
            running_count: self.running_count as int,
            phase: self.phase,
            dealer: self.dealer@,
            hands: Seq::new(self.hands@.len(), |i: int| self.hands@[i].view()),
            active: self.active as int,
            hole_down: self.hole_down,
            opening: self.opening@,
            dealt: self.dealt as int,
            pace: self.pace,
        }
    }

    /// The choice that the shoe was made for.
    pub open spec fn choice_spec(&self) -> ShoeChoice {
        self.view().shoe.choice()
    }

    /// The table before the first round.
    pub fn new(choice: ShoeChoice) -> (r: Self)
        requires
            choice matches ShoeChoice::Decks(n) ==> n > 0,
        ensures
            r.choice_spec() == choice,
            r.view() == TableView::<N>::fresh(ShoeView::of(choice)),
            r.view().valid(),
            r.view().phase == Phase::Ready,
    {
        let shoe = TrainShoe::from_choice(choice);
        let running_count: i16 = initial_count(&shoe);
        let r = Table {
            shoe,
            running_count,
            phase: Phase::Ready,
            dealer: Vec::new(),
            hands: Vec::new(),
            active: 0,
            hole_down: false,
            opening: Vec::new(),
            dealt: 0,
            pace: None,
        };
        proof {
            assert(r.view().hands =~= Seq::<HandView<N>>::empty());
            assert(r.view().dealer =~= Seq::<Card>::empty());
            assert(r.view().opening =~= Seq::<Card>::empty());
            assert(r.view() == TableView::<N>::fresh(shoe.view()));
            fresh_is_counted::<N>(r.view());
        }
        r
    }

    pub fn shoe(&self) -> (r: &TrainShoe)
        ensures
            r.view() == self.view().shoe,
            r.choice_spec() == self.choice_spec(),
    {
        &self.shoe
    }

    pub fn running_count(&self) -> (r: i16)
        ensures
            r == self.view().running_count,
    {
        self.running_count
    }

    pub fn phase(&self) -> (r: Phase)
        ensures
            r == self.view().phase,
    {
        self.phase
    }

    pub fn dealer(&self) -> (r: &Vec<Card>)
        ensures
            r@ == self.view().dealer,
    {
        &self.dealer
    }

    pub fn hands(&self) -> (r: &Vec<TrainHand<N>>)
        ensures
            r@.len() == self.view().hands.len(),
            forall|i: int| 0 <= i < r@.len() ==> (#[trigger] r@[i]).view() == self.view().hands[i],
    {
        &self.hands
    }

    pub fn active(&self) -> (r: usize)
        ensures
            r == self.view().active,
    {
        self.active
    }

    pub fn hole_down(&self) -> (r: bool)
        ensures
            r == self.view().hole_down,
    {
        self.hole_down
    }

    pub fn pace(&self) -> (r: Option<Pace>)
        ensures
            r == self.view().pace,
    {
        self.pace
    }

    /// Count a card that has become visible.
    fn show(&mut self, card: Card)
        requires
            -20_000 <= old(self).running_count <= 20_000,
        ensures
            final(self).view() == old(self).view().seen(card),
            final(self).shoe == old(self).shoe,
            final(self).hands == old(self).hands,
            final(self).active == old(self).active,
    {
        if self.shoe.is_finite() {
            self.running_count = self.running_count + CountSystemId::Ko.map(&card);
        }
        assert(self.view().hands =~= old(self).view().hands);
    }
}

/// A fresh table is counted right.
proof fn fresh_is_counted<N: Scalar>(v: TableView<N>)
    requires
        v.hidden().len() == 0,
        v.shoe == v.shoe.full(),
        v.shoe matches ShoeView::Finite { cards, n_decks } ==> 0 < n_decks <= 255,
        v.running_count == v.shoe.initial_count(),
    ensures
        v.counted(),
{
    if let ShoeView::Finite { cards, n_decks } = v.shoe {
        law_full_shoe_counts(CountSystemId::Ko, n_decks);
        assert(v.hidden() =~= Seq::<Card>::empty());
        assert(v.unseen() =~= deck_tally(n_decks as nat));
    }
}

/// Shuffling leads to a table that is counted right.
proof fn shuffled_is_counted<N: Scalar>(v: TableView<N>)
    requires
        v.counted(),
        v.hidden().len() == 0,
    ensures
        v.shuffled().counted(),
        v.shuffled().hidden().len() == 0,
        v.shuffled().shoe matches ShoeView::Finite { cards, n_decks } ==> cards.len() == 10,
{
    assert(v.shuffled().hidden() =~= v.hidden());
    if v.shoe.needs_shuffle() {
        fresh_is_counted::<N>(v.shuffled());
    }
}

impl<N: Scalar> TableView<N> {
    /// Cards that are drawn and not seen leave the count right.
    proof fn started_is_valid(self, cards: Seq<Card>)
        requires
            self.counted(),
            self.hidden().len() == 0,
            cards.len() == 4,
            all_valid(cards),
            self.shuffled().shoe.has(cards),
        ensures
            self.started(cards).valid(),
    {
        let before = self.shuffled();
        let v = self.started(cards);
        shuffled_is_counted(self);
        assert(v.hidden() =~= cards);
        assert(before.hidden() =~= Seq::<Card>::empty());
        if let ShoeView::Finite { cards: pool, n_decks } = before.shoe {
            tally_has_ten(cards);
            assert(joined(pool, no_cards()) =~= pool);
            assert(v.unseen() =~= before.unseen()) by {
                assert forall|i: int| 0 <= i < 10 implies #[trigger] v.unseen()[i]
                    == before.unseen()[i] by {
                    assert(tally_of(cards)[i] <= pool[i]);
                }
            }
        }
        assert(v.hands[0].cards =~= Seq::<Card>::empty());
        assert(tally_of(Seq::<Card>::empty()) == no_cards());
    }

    /// Laying out a card keeps the table right.
    proof fn laid_is_valid(self)
        requires
            self.valid(),
            self.phase == Phase::Dealing,
        ensures
            self.laid().counted(),
            self.laid().hands_valid(),
            all_valid(self.laid().dealer),
            self.dealt < 3 ==> self.laid().valid(),
            hard(tally_of(self.laid().dealer)) <= 20,
            hard(self.laid().hands[0].tally()) <= 20,
            self.dealt == 3 ==> self.laid().dealer.len() == 2 && self.laid().hands[0].cards.len()
                == 2 && self.laid().hidden() == seq![self.laid().dealer[1]],
    {
        let card = self.opening[self.dealt];
        let next = self.laid();
        assert(card.valid());
        few_points(self.hands[0].cards);
        few_points(self.dealer);
        assert(self.hands[0].valid());
        assert(self.hidden() =~= seq![card] + self.opening.subrange(self.dealt + 1, 4));
        if self.dealt == 3 {
            tally_with_card(self.dealer, card);
            assert(next.dealer[1] == card);
            assert(self.opening.subrange(4, 4) =~= Seq::<Card>::empty());
            assert(next.opening.subrange(next.dealt, 4) =~= Seq::<Card>::empty());
            assert(next.hidden() =~= seq![card]);
            assert(self.hidden() =~= seq![card]);
            assert(next.hands =~= self.hands);
        } else {
            assert(next.hidden() =~= self.opening.subrange(self.dealt + 1, 4));
            assert forall|i: int| 0 <= i < next.hidden().len() implies (
            #[trigger] next.hidden()[i]).valid() by {
                assert(next.hidden()[i] == self.opening[self.dealt + 1 + i]);
            }
            self.seen_is_counted(next, card);
            if self.dealt == 1 {
                tally_with_card(self.dealer, card);
                assert(next.hands =~= self.hands);
            } else {
                tally_with_card(self.hands[0].cards, card);
                assert(next.hands[0].cards == self.hands[0].cards.push(card));
                assert(next.dealer == self.dealer);
            }
        }
    }
}

/// A list of a few cards has few points.
pub proof fn few_points(cards: Seq<Card>)
    requires
        all_valid(cards),
    ensures
        hard(tally_of(cards)) <= 10 * cards.len(),
    decreases cards.len(),
{
    if cards.len() > 0 {
        let c = cards.drop_last();
        assert forall|i: int| 0 <= i < c.len() implies (#[trigger] c[i]).valid() by {
            assert(cards[i].valid());
        }
        assert(cards[cards.len() - 1].valid());
        few_points(c);
        assert(c.push(cards.last()) =~= cards);
        tally_with_card(c, cards.last());
    }
}

impl<N: Scalar> Table<N> {
    /// Begin a round with the first four cards: to the player, the up-card, to the player,
    /// the hole card. The shoe is shuffled before where that is due. The first card is
    /// laid out at once.
    pub fn start_round(&mut self, cards: [Card; 4])
        requires
            old(self).view().valid(),
            old(self).view().phase == Phase::Ready || old(self).view().phase == Phase::Settled,
            all_valid(cards@),
            old(self).view().shuffled().shoe.has(cards@),
        ensures
            final(self).view() == old(self).view().started(cards@).laid(),
            final(self).view().valid(),
            final(self).choice_spec() == old(self).choice_spec(),
    {
        let ghost v0 = self.view();
        proof {
            assert(v0.hidden() =~= Seq::<Card>::empty());
            v0.started_is_valid(cards@);
        }
        if self.shoe.needs_shuffle() {
            self.shoe.reset();
            self.running_count = initial_count(&self.shoe);
        }
        self.take_cards(&cards);
        let hand: TrainHand<N> = TrainHand::new(from_whole(1));
        self.hands = vec![hand];
        self.dealer = Vec::new();
        self.hole_down = false;
        self.active = 0;
        self.opening = vec![cards[0], cards[1], cards[2], cards[3]];
        self.dealt = 0;
        self.phase = Phase::Dealing;
        self.pace = None;
        proof {
            assert(self.opening@ =~= cards@);
            assert(self.dealer@ =~= Seq::<Card>::empty());
            assert(self.view().hands =~= seq![HandView::fresh(one::<N>())]);
            assert(self.view() == v0.started(cards@));
        }
        self.lay_card();
    }

    /// Take the first four cards out of the shoe.
    fn take_cards(&mut self, cards: &[Card; 4])
        requires
            all_valid(cards@),
            old(self).shoe.view() matches ShoeView::Finite { cards: pool, n_decks } ==> pool.len()
                == 10,
            old(self).shoe.view().has(cards@),
        ensures
            final(self).shoe.view() == old(self).shoe.view().less(cards@),
            final(self).shoe.choice_spec() == old(self).shoe.choice_spec(),
            final(self).running_count == old(self).running_count,
    {
        match self.shoe {
            TrainShoe::Finite { cards: pool, n_decks } => {
                let hand = CardCol::from_hand(cards.as_slice());
                self.shoe = TrainShoe::Finite { cards: pool - hand, n_decks };
            },
            TrainShoe::Infinite => {},
        }
    }

    /// Lay out the next of the first four cards.
    fn lay_card(&mut self)
        requires
            old(self).view().valid(),
            old(self).view().phase == Phase::Dealing,
        ensures
            final(self).view() == old(self).view().laid(),
            old(self).view().dealt < 3 ==> final(self).view().valid(),
            final(self).choice_spec() == old(self).choice_spec(),
    {
        let ghost v0 = self.view();
        proof {
            v0.laid_is_valid();
            v0.count_is_near();
        }
        let card = self.opening[self.dealt];
        if self.dealt == 0 || self.dealt == 2 {
            self.show(card);
            self.hands[0].cards.push(card);
            assert(self.view().hands =~= v0.seen(card).to_hand(0, card).hands);
        } else if self.dealt == 1 {
            self.show(card);
            self.dealer.push(card);
            assert(self.view().hands =~= v0.hands);
        } else {
            self.dealer.push(card);
            self.hole_down = true;
            assert(self.view().hands =~= v0.hands);
        }
        self.dealt = self.dealt + 1;
        self.pace = if self.dealt < 4 {
            Some(Pace::Deal)
        } else {
            None
        };
        assert(self.view().hands =~= v0.laid().hands);
    }
}

impl<N: Scalar> TableView<N> {
    /// When the layout ends the table is right.
    proof fn opened_is_valid(self, rules: Ruleset)
        requires
            self.valid(),
            self.phase == Phase::Dealing,
            self.dealt == 3,
        ensures
            self.laid().opened(rules).valid(),
    {
        let laid = self.laid();
        let v = laid.opened(rules);
        self.laid_is_valid();
        assert(v.hidden() =~= laid.hidden());
        assert(v.unseen() == laid.unseen());
        few_cards(laid.hands[0].cards);
        tally_has_ten(laid.hands[0].cards);
        crate::shoe::law_natural_is_two_card_21(laid.hands[0].tally());
        assert(laid.hands[0].valid());
        assert(v.hands[0].cards == laid.hands[0].cards);
    }

    /// Whatever is hidden is a valid card.
    proof fn hidden_is_valid(self)
        requires
            self.valid(),
        ensures
            all_valid(self.hidden()),
    {
        let h = self.hidden();
        assert forall|i: int| 0 <= i < h.len() implies (#[trigger] h[i]).valid() by {
            if self.phase == Phase::Dealing {
                assert(h[i] == self.opening[self.dealt + i]);
            } else {
                assert(h[i] == self.dealer[1]);
            }
        }
    }
}

impl<N: Scalar> Table<N> {
    /// Whether four cards can be drawn, after a shuffle where that is due.
    pub fn can_deal(&self) -> (r: bool)
        ensures
            r == (self.view().shuffled().shoe matches ShoeView::Finite { cards, n_decks }
                ==> size(cards) >= 4),
    {
        match &self.shoe {
            TrainShoe::Finite { cards, n_decks } => {
                if self.shoe.needs_shuffle() {
                    *n_decks > 0
                } else {
                    cards.len() >= 4
                }
            },
            TrainShoe::Infinite => true,
        }
    }

    /// Begin a round with random cards: some four that the shoe had.
    pub fn deal(&mut self, rng: &mut SmallRng)
        requires
            old(self).view().valid(),
            old(self).view().phase == Phase::Ready || old(self).view().phase == Phase::Settled,
            old(self).view().shuffled().shoe matches ShoeView::Finite { cards, n_decks } ==> size(
                cards,
            ) >= 4,
        ensures
            exists|cards: Seq<Card>|
                cards.len() == 4 && all_valid(cards) && old(self).view().shuffled().shoe.has(cards)
                    && final(self).view() == #[trigger] old(self).view().started(cards).laid(),
            final(self).view().valid(),
            final(self).choice_spec() == old(self).choice_spec(),
    {
        let mut source = self.shoe;
        if source.needs_shuffle() {
            source.reset();
        }
        proof {
            shuffled_is_counted(self.view());
        }
        let drawn: Vec<Card> = random_cards(&source, 4, rng);
        let cards = [drawn[0], drawn[1], drawn[2], drawn[3]];
        assert(cards@ =~= drawn@);
        self.start_round(cards);
    }

    /// Lay out the next of the first four cards, and tell how the layout ends where it was
    /// the last.
    pub fn deal_step(&mut self, rules: &Ruleset) -> (r: Option<OpeningEnd>)
        requires
            old(self).view().valid(),
            old(self).view().phase == Phase::Dealing,
        ensures
            final(self).view().valid(),
            final(self).choice_spec() == old(self).choice_spec(),
            match r {
                None => old(self).view().dealt < 3 && final(self).view() == old(self).view().laid(),
                Some(end) => {
                    &&& old(self).view().dealt == 3
                    &&& end == old(self).view().laid().opening_end(*rules)
                    &&& final(self).view() == old(self).view().laid().opened(*rules)
                },
            },
    {
        let ghost v0 = self.view();
        proof {
            if v0.dealt == 3 {
                v0.opened_is_valid(*rules);
                v0.laid_is_valid();
            }
        }
        self.lay_card();
        if self.dealt < 4 {
            return None;
        }
        let ghost v1 = self.view();
        assert(v1.hands[0].valid());
        proof {
            few_cards(self.dealer@);
        }
        let up = self.dealer[0];
        let looks: bool = rules.peek.peeks() && (up == Card::Ace || up == Card::Ten);
        let dealer_natural: bool = DealerHand::from_card_vec(&self.dealer).is_natural();
        assert(self.hands@[0].view() == v1.hands[0]);
        let player_natural: bool = self.hands[0].col().is_nat21();
        if looks && dealer_natural {
            self.start_dealer();
            Some(OpeningEnd::DealerNatural)
        } else if player_natural {
            self.hands[0].done = true;
            assert(self.view().hands =~= v1.hands.update(
                0,
                HandView { done: true, ..v1.hands[0] },
            ));
            self.start_dealer();
            Some(OpeningEnd::PlayerNatural)
        } else {
            self.phase = Phase::Player;
            assert(self.view().hands =~= v1.hands);
            Some(OpeningEnd::Play)
        }
    }

    /// Begin the dealer's turn.
    fn start_dealer(&mut self)
        ensures
            final(self).view() == old(self).view().to_dealer(),
            final(self).choice_spec() == old(self).choice_spec(),
    {
        self.phase = Phase::Dealer;
        self.pace = Some(Pace::Dealer);
        assert(self.view().hands =~= old(self).view().hands);
    }

    /// Whether a move is allowed on the active hand.
    pub fn allowed_move(&self, mv: Move, rules: &Ruleset) -> (r: bool)
        requires
            self.view().valid(),
            0 <= self.view().active < self.view().hands.len(),
        ensures
            r == self.view().allows(mv, *rules),
    {
        let hand = &self.hands[self.active];
        assert(hand.view() == self.view().hands[self.active as int]);
        assert(self.view().hands[self.active as int].valid());
        let n_cards: usize = hand.cards.len();
        let n_hands: usize = self.hands.len();
        match mv {
            Move::Hit => !hand.doubled && hand.col().best_count() < 21,
            Move::Stand => true,
            Move::Double => n_cards == 2 && (rules.das || n_hands == 1),
            Move::Split => n_cards == 2 && hand.cards[0] == hand.cards[1] && n_hands
                < rules.max_split_hands as usize,
            Move::Surrender => rules.peek.surrender_offered() && n_hands == 1 && n_cards == 2
                && !hand.from_split,
        }
    }
}

/// One more card of a shoe from which some have been drawn.
proof fn has_one_more(pool: Tally, cards: Seq<Card>, card: Card)
    requires
        pool.len() == 10,
        all_valid(cards),
        card.valid(),
        within(tally_of(cards), pool),
        taken(pool, tally_of(cards))[card.rank()] > 0,
    ensures
        within(tally_of(cards.push(card)), pool),
        taken(taken(pool, tally_of(cards)), single(card)) == taken(pool, tally_of(cards.push(card))),
        size(taken(pool, tally_of(cards.push(card)))) == size(taken(pool, tally_of(cards))) - 1,
{
    tally_with_card(cards, card);
    let t = tally_of(cards);
    let left = taken(pool, t);
    crate::countw::count_without(CountSystemId::Ko.values(), left, card);
    assert(joined(t, single(card)) =~= with_card(t, card));
    crate::shoe::law_taken_twice(pool, t, single(card));
    assert forall|i: int| 0 <= i < 10 implies #[trigger] with_card(t, card)[i] <= pool[i] by {
        assert(t[i] <= pool[i]);
    }
}

/// Some random cards that a shoe has.
pub fn random_cards(shoe: &TrainShoe, n: usize, rng: &mut SmallRng) -> (r: Vec<Card>)
    requires
        shoe.view() matches ShoeView::Finite { cards, n_decks } ==> size(cards) >= n,
    ensures
        r.len() == n,
        all_valid(r@),
        shoe.view().has(r@),
{
    let mut out: Vec<Card> = Vec::new();
    match shoe {
        TrainShoe::Finite { cards, .. } => {
            let mut pool: CardCol = *cards;
            let ghost p0 = cards@;
            proof {
                assert(taken(p0, no_cards()) =~= p0);
            }
            let mut i: usize = 0;
            while i < n
                invariant
                    i <= n,
                    out.len() == i,
                    p0 == cards@,
                    size(p0) >= n,
                    all_valid(out@),
                    within(tally_of(out@), p0),
                    pool@ == taken(p0, tally_of(out@)),
                    size(pool@) == size(p0) - i,
                decreases n - i,
            {
                let card = pool.draw_rand(rng);
                proof {
                    has_one_more(p0, out@, card);
                }
                out.push(card);
                i += 1;
            }
        },
        TrainShoe::Infinite => {
            let mut deck = InfiniteDeck {};
            let mut i: usize = 0;
            while i < n
                invariant
                    i <= n,
                    out.len() == i,
                    all_valid(out@),
                decreases n - i,
            {
                let card = deck.draw_rand(rng);
                out.push(card);
                i += 1;
            }
        },
    }
    out
}

impl<N: Scalar> TableView<N> {
    /// The card that is drawn and seen changes nothing but the shoe and the count.
    proof fn drawn_keeps(self, card: Card)
        ensures
            self.drawn(card).phase == self.phase,
            self.drawn(card).hands == self.hands,
            self.drawn(card).dealer == self.dealer,
            self.drawn(card).active == self.active,
            self.drawn(card).hole_down == self.hole_down,
            self.drawn(card).opening == self.opening,
            self.drawn(card).dealt == self.dealt,
            self.drawn(card).pace == self.pace,
            self.drawn(card).hidden() == self.hidden(),
            self.drawn(card).shoe == self.shoe.less(seq![card]),
    {
    }

    /// A move keeps the table right, but for whose turn it is.
    proof fn played_is_valid(self, mv: Move, cards: Seq<Card>, rules: Ruleset)
        requires
            self.valid(),
            self.phase == Phase::Player,
            self.allows(mv, rules),
            cards.len() == Self::draws(mv),
            all_valid(cards),
            self.shoe.has(cards),
        ensures
            self.played(mv, cards).counted(),
            self.played(mv, cards).hands_valid(),
            self.played(mv, cards).hands.len() <= 255,
            self.played(mv, cards).hands.len() > 0,
            self.played(mv, cards).phase == Phase::Player,
            self.played(mv, cards).dealer == self.dealer,
            self.played(mv, cards).active == self.active,
            self.played(mv, cards).hole_down,
            self.played(mv, cards).opening == self.opening,
            self.played(mv, cards).pace is None,
            forall|i: int|
                0 <= i < self.played(mv, cards).hands.len() ==> (#[trigger] self.played(
                    mv,
                    cards,
                ).hands[i]).cards.len() >= 2,
    {
        let hand = self.hands[self.active];
        let next = self.played(mv, cards);
        self.hidden_is_valid();
        assert(hand.valid());
        assert(hand.cards.len() >= 2);
        tally_has_ten(hand.cards);
        match mv {
            Move::Hit | Move::Double => {
                let card = cards[0];
                assert(card.valid());
                assert(cards =~= seq![card]);
                self.drawn_is_counted(card);
                self.drawn_keeps(card);
                tally_with_card(hand.cards, card);
                assert(next.hidden() =~= self.hidden());
                assert(next.unseen() == self.drawn(card).unseen());
            },
            Move::Split => {
                let c1 = cards[0];
                let c2 = cards[1];
                assert(c1.valid() && c2.valid());
                assert(cards =~= seq![c1, c2]);
                has_in_turn(self.shoe, c1, c2);
                self.drawn_is_counted(c1);
                self.drawn_keeps(c1);
                self.drawn(c1).drawn_is_counted(c2);
                self.drawn(c1).drawn_keeps(c2);
                let rank = hand.cards[0];
                assert(rank.valid());
                assert(hand.cards.drop_last() =~= seq![rank]);
                let first = seq![rank].push(c1);
                let second = seq![rank, c2];
                assert(second =~= seq![rank].push(c2));
                one_card_tally(rank);
                few_points(seq![rank]);
                tally_with_card(seq![rank], c1);
                tally_with_card(seq![rank], c2);
                assert(next.hidden() =~= self.hidden());
                assert(next.unseen() == self.drawn(c1).drawn(c2).unseen());
                assert forall|i: int| 0 <= i < next.hands.len() implies (
                #[trigger] next.hands[i]).valid() && next.hands[i].cards.len() >= 2 by {
                    if i == self.active {
                        assert(next.hands[i].cards == first);
                    } else if i == self.active + 1 {
                        assert(next.hands[i].cards == second);
                    } else if i < self.active {
                        assert(next.hands[i] == self.hands[i]);
                    } else {
                        assert(next.hands[i] == self.hands[i - 1]);
                    }
                }
            },
            _ => {
                assert(next.hidden() =~= self.hidden());
                assert(next.unseen() == self.unseen());
            },
        }
        assert forall|i: int| 0 <= i < next.hands.len() implies (#[trigger] next.hands[i]).valid()
            && next.hands[i].cards.len() >= 2 by {
            if mv != Move::Split {
                if i == self.active {
                    assert(next.hands[i].cards == hand.cards || next.hands[i].cards
                        == hand.cards.push(cards[0]));
                } else {
                    assert(next.hands[i] == self.hands[i]);
                }
            }
        }
    }

    /// Passing the turn on.
    proof fn next_hand_is_next(self, i: int)
        requires
            0 <= i <= self.hands.len(),
        ensures
            i <= self.next_hand(i) <= self.hands.len(),
            self.next_hand(i) < self.hands.len() ==> !self.hands[self.next_hand(i)].finished(),
        decreases self.hands.len() - i,
    {
        if i < self.hands.len() && self.hands[i].finished() {
            self.next_hand_is_next(i + 1);
        }
    }
}

impl<N: Scalar> Table<N> {
    /// Make a move with the cards that are drawn for it: one to hit or double, two to
    /// split, the first of them for the hand that stays. Then the turn passes on.
    pub fn apply_move(&mut self, mv: Move, cards: &Vec<Card>, rules: &Ruleset)
        requires
            old(self).view().valid(),
            old(self).view().phase == Phase::Player,
            old(self).view().allows(mv, *rules),
            cards.len() == TableView::<N>::draws(mv),
            all_valid(cards@),
            old(self).view().shoe.has(cards@),
        ensures
            final(self).view() == old(self).view().played(mv, cards@).advanced(),
            final(self).view().valid(),
            final(self).choice_spec() == old(self).choice_spec(),
    {
        let ghost v0 = self.view();
        proof {
            v0.played_is_valid(mv, cards@, *rules);
            v0.next_is_valid(mv, cards@, *rules);
        }
        let i: usize = self.active;
        assert(self.hands@[i as int].view() == v0.hands[i as int]);
        match mv {
            Move::Hit => {
                let card = cards[0];
                assert(cards@ =~= seq![card]);
                self.draw_up(card);
                self.hands[i].cards.push(card);
                assert(self.view().hands =~= v0.played(mv, cards@).hands);
            },
            Move::Stand => {
                self.hands[i].done = true;
                assert(self.view().hands =~= v0.played(mv, cards@).hands);
            },
            Move::Double => {
                let card = cards[0];
                assert(cards@ =~= seq![card]);
                self.draw_up(card);
                let two: N = from_whole(2);
                self.hands[i].cards.push(card);
                self.hands[i].bet = self.hands[i].bet.times(two);
                self.hands[i].doubled = true;
                self.hands[i].done = true;
                assert(self.view().hands =~= v0.played(mv, cards@).hands);
            },
            Move::Split => {
                assert(cards@ =~= seq![cards@[0], cards@[1]]);
                self.split_active(cards[0], cards[1]);
            },
            Move::Surrender => {
                self.hands[i].surrendered = true;
                self.hands[i].done = true;
                assert(self.view().hands =~= v0.played(mv, cards@).hands);
            },
        }
        assert(self.view() == v0.played(mv, cards@));
        self.advance();
    }

    /// Draw a card face up.
    fn draw_up(&mut self, card: Card)
        requires
            card.valid(),
            old(self).view().counted(),
            old(self).view().shoe.has(seq![card]),
        ensures
            final(self).view() == old(self).view().drawn(card),
            final(self).choice_spec() == old(self).choice_spec(),
            final(self).hands == old(self).hands,
            final(self).active == old(self).active,
    {
        proof {
            self.view().count_is_near();
        }
        let ghost v0 = self.view();
        self.shoe.take(card);
        assert(self.view().hands =~= v0.hands);
        self.show(card);
        assert(self.view().hands =~= v0.hands);
    }
}

impl<N: Scalar> TableView<N> {
    /// After a move the table is right again when the turn has passed on.
    proof fn next_is_valid(self, mv: Move, cards: Seq<Card>, rules: Ruleset)
        requires
            self.valid(),
            self.phase == Phase::Player,
            self.allows(mv, rules),
            cards.len() == Self::draws(mv),
            all_valid(cards),
            self.shoe.has(cards),
        ensures
            self.played(mv, cards).advanced().valid(),
    {
        self.played_is_valid(mv, cards, rules);
        let played = self.played(mv, cards);
        let next = played.advanced();
        played.next_hand_is_next(played.active);
        assert(next.hidden() =~= played.hidden());
        assert(next.unseen() == played.unseen());
        assert(next.hands == played.hands);
    }
}

impl<N: Scalar> Table<N> {
    /// Split the active pair.
    fn split_active(&mut self, c1: Card, c2: Card)
        requires
            old(self).view().valid(),
            old(self).view().phase == Phase::Player,
            old(self).view().hands[old(self).view().active].cards.len() == 2,
            c1.valid(),
            c2.valid(),
            old(self).view().shoe.has(seq![c1, c2]),
        ensures
            final(self).view() == old(self).view().split(c1, c2),
            final(self).choice_spec() == old(self).choice_spec(),
    {
        let ghost v0 = self.view();
        let i: usize = self.active;
        assert(self.hands@[i as int].view() == v0.hands[i as int]);
        proof {
            v0.hidden_is_valid();
            has_in_turn(v0.shoe, c1, c2);
            v0.drawn_is_counted(c1);
            v0.drawn_keeps(c1);
        }
        let rank = self.hands[i].cards[0];
        let ace: bool = rank == Card::Ace;
        let bet: N = self.hands[i].bet;
        self.draw_up(c1);
        self.draw_up(c2);
        let mut second: TrainHand<N> = TrainHand::new(bet);
        second.from_split = true;
        second.cards.push(rank);
        second.cards.push(c2);
        second.done = ace;
        assert(second.cards@ =~= seq![rank, c2]);
        self.hands[i].cards.pop();
        self.hands[i].cards.push(c1);
        self.hands[i].from_split = true;
        if ace {
            self.hands[i].done = true;
        }
        self.hands.insert(i + 1, second);
        assert(self.view().hands =~= v0.split(c1, c2).hands);
    }

    /// Pass the turn to the next hand that is not finished, or to the dealer.
    fn advance(&mut self)
        requires
            old(self).view().hands_valid(),
            0 <= old(self).view().active <= old(self).view().hands.len(),
        ensures
            final(self).view() == old(self).view().advanced(),
            final(self).choice_spec() == old(self).choice_spec(),
    {
        let ghost v0 = self.view();
        let mut k: usize = self.active;
        if k < self.hands.len() {
            assert(self.hands@[k as int].view() == v0.hands[k as int]);
            assert(v0.hands[k as int].valid());
        }
        while k < self.hands.len() && self.hands[k].finished()
            invariant
                v0 == self.view(),
                v0.hands_valid(),
                k <= self.hands.len(),
                k < self.hands.len() ==> self.hands@[k as int].view().valid(),
                v0.next_hand(k as int) == v0.next_hand(v0.active),
            decreases self.hands.len() - k,
        {
            assert(self.hands@[k as int].view() == v0.hands[k as int]);
            k += 1;
            if k < self.hands.len() {
                assert(self.hands@[k as int].view() == v0.hands[k as int]);
                assert(v0.hands[k as int].valid());
            }
        }
        if k < self.hands.len() {
            assert(self.hands@[k as int].view() == v0.hands[k as int]);
        }
        self.active = k;
        assert(self.view().hands =~= v0.hands);
        if k >= self.hands.len() {
            self.start_dealer();
        }
    }
}

/// The sum of the nets of the first `k` hands.
pub open spec fn net_upto<N: Scalar>(hands: Seq<HandView<N>>, k: int) -> N
    decreases k,
{
    if k <= 0 {
        zero::<N>()
    } else {
        net_upto(hands, k - 1).plus_spec(hands[k - 1].net)
    }
}

/// Units with the bets of the first `k` hands added.
pub open spec fn bets_upto<N: Scalar>(units: N, hands: Seq<HandView<N>>, k: int) -> N
    decreases k,
{
    if k <= 0 {
        units
    } else {
        bets_upto(units, hands, k - 1).plus_spec(hands[k - 1].bet)
    }
}

impl<N: Scalar> TableView<N> {
    /// The dealer's turn keeps the table right.
    proof fn turned_is_valid(self, card: Card, rules: Ruleset)
        requires
            self.valid(),
            self.phase == Phase::Dealer,
            !self.hole_down ==> card.valid() && self.shoe.has(seq![card]),
        ensures
            self.turned(card).counted(),
            all_valid(self.turned(card).dealer),
            hard(tally_of(self.turned(card).dealer)) <= 31,
            self.stepped(card, rules).valid(),
            !self.turned(card).hole_down,
            self.turned(card).hands == self.hands,
    {
        let next = self.turned(card);
        self.hidden_is_valid();
        if self.hole_down {
            let hole = self.dealer[1];
            assert(hole.valid());
            assert(self.hidden() =~= seq![hole]);
            assert(next.hidden() =~= Seq::<Card>::empty());
            assert(seq![hole] + Seq::<Card>::empty() =~= seq![hole]);
            self.seen_is_counted(next, hole);
        } else {
            self.drawn_is_counted(card);
            self.drawn_keeps(card);
            tally_with_card(self.dealer, card);
            assert(next.hidden() =~= Seq::<Card>::empty());
            assert(self.hidden() =~= Seq::<Card>::empty());
            assert(next.unseen() == self.drawn(card).unseen());
        }
        let end = self.stepped(card, rules);
        if !next.dealer_wants(rules) {
            assert(end.hidden() =~= next.hidden());
            assert(end.unseen() == next.unseen());
            assert forall|i: int| 0 <= i < end.hands.len() implies (
            #[trigger] end.hands[i]).valid() by {
                assert(self.hands[i].valid());
                assert(end.hands[i].cards == self.hands[i].cards);
            }
        }
    }
}

impl<N: Scalar> Table<N> {
    /// Whether the dealer turns a card that has to be drawn, and not the hole card.
    pub fn dealer_draws(&self) -> (r: bool)
        ensures
            r == !self.view().hole_down,
    {
        !self.hole_down
    }

    /// Whether the dealer takes another card.
    fn dealer_wants_card(&self, rules: &Ruleset) -> (r: bool)
        requires
            self.view().hands_valid(),
            all_valid(self.view().dealer),
            hard(tally_of(self.view().dealer)) <= 31,
        ensures
            r == self.view().dealer_wants(*rules),
    {
        let ghost v = self.view();
        let mut live: bool = false;
        let mut i: usize = 0;
        while i < self.hands.len()
            invariant
                i <= self.hands.len(),
                v == self.view(),
                v.hands_valid(),
                live == exists|j: int|
                    0 <= j < i && TableView::<N>::is_live(#[trigger] v.hands[j]),
            decreases self.hands.len() - i,
        {
            assert(self.hands@[i as int].view() == v.hands[i as int]);
            assert(v.hands[i as int].valid());
            let state = self.hands[i].state();
            if !self.hands[i].surrendered && state != HandState::Bust && state
                != HandState::Natural {
                assert(TableView::<N>::is_live(v.hands[i as int]));
                live = true;
            }
            i += 1;
        }
        proof {
            few_cards(self.dealer@);
        }
        live && DealerHand::from_card_vec(&self.dealer).must_hit(rules.hs17)
    }

    /// Turn the dealer's next card: the hole card, or else the card that is given. Where
    /// the dealer then takes no more, the round is settled and its net is told.
    pub fn dealer_step(&mut self, card: Card, rules: &Ruleset) -> (r: Option<N>)
        requires
            old(self).view().valid(),
            old(self).view().phase == Phase::Dealer,
            !old(self).view().hole_down ==> card.valid() && old(self).view().shoe.has(seq![card]),
        ensures
            final(self).view() == old(self).view().stepped(card, *rules),
            final(self).view().valid(),
            final(self).choice_spec() == old(self).choice_spec(),
            r == if old(self).view().turned(card).dealer_wants(*rules) {
                None
            } else {
                Some(net_upto(final(self).view().hands, final(self).view().hands.len() as int))
            },
    {
        let ghost v0 = self.view();
        proof {
            v0.turned_is_valid(card, *rules);
            v0.count_is_near();
        }
        if self.hole_down {
            let hole = self.dealer[1];
            self.hole_down = false;
            assert(self.view().hands =~= v0.hands);
            self.show(hole);
        } else {
            self.draw_up(card);
            self.dealer.push(card);
            assert(self.view().hands =~= v0.hands);
        }
        assert(self.view() == v0.turned(card));
        if self.dealer_wants_card(rules) {
            return None;
        }
        Some(self.settle(rules))
    }

    /// Settle every hand.
    fn settle(&mut self, rules: &Ruleset) -> (r: N)
        requires
            old(self).view().hands_valid(),
            all_valid(old(self).view().dealer),
            hard(tally_of(old(self).view().dealer)) <= 31,
        ensures
            final(self).view() == old(self).view().settled(*rules),
            final(self).choice_spec() == old(self).choice_spec(),
            r == net_upto(final(self).view().hands, final(self).view().hands.len() as int),
    {
        let ghost v0 = self.view();
        let bj_payout: N = rules.bj_payout.multiplier();
        proof {
            few_cards(self.dealer@);
        }
        let outcome = DealerHand::from_card_vec(&self.dealer).terminal_outcome();
        let ghost done = v0.settled_hands(*rules);
        let mut net: N = from_whole(0);
        let mut i: usize = 0;
        while i < self.hands.len()
            invariant
                i <= self.hands.len(),
                v0.hands_valid(),
                self.hands@.len() == v0.hands.len(),
                done == v0.settled_hands(*rules),
                outcome == final_outcome(tally_of(v0.dealer)),
                bj_payout == rules.bj_payout.multiplier_spec::<N>(),
                forall|j: int|
                    0 <= j < self.hands@.len() ==> (#[trigger] self.hands@[j]).view() == if j < i {
                        done[j]
                    } else {
                        v0.hands[j]
                    },
                net == net_upto(done, i as int),
                self.shoe == old(self).shoe,
                self.running_count == old(self).running_count,
                self.dealer == old(self).dealer,
                self.active == old(self).active,
                self.hole_down == old(self).hole_down,
                self.opening == old(self).opening,
                self.dealt == old(self).dealt,
            decreases self.hands.len() - i,
        {
            assert(self.hands@[i as int].view() == v0.hands[i as int]);
            assert(v0.hands[i as int].valid());
            let ghost before = self.hands@;
            self.hands[i].settle(outcome, bj_payout);
            net = net.plus(self.hands[i].net);
            assert forall|j: int| 0 <= j < self.hands@.len() implies (
            #[trigger] self.hands@[j]).view() == (if j < i + 1 {
                done[j]
            } else {
                v0.hands[j]
            }) by {
                if j != i {
                    assert(self.hands@[j] == before[j]);
                    assert(before[j].view() == if j < i {
                        done[j]
                    } else {
                        v0.hands[j]
                    });
                }
            }
            i += 1;
        }
        self.phase = Phase::Settled;
        self.pace = None;
        assert(self.view().hands =~= done);
        net
    }
}

} // verus!
