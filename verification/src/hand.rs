//! Hands as the player sees them: their state, the moves, and the rows of a
//! strategy chart.
use crate::card::{card_at, Card};
use crate::num::Scalar;
use crate::shoe::{best, hard, is_natural, is_soft, size, tally_bounds, CardCol, Tally, N_RANKS};
use crate::text::{decimal, push_decimal, push_text};
use vstd::prelude::*;

verus! {

broadcast use tally_bounds;

/// What a hand is worth.
#[derive(Clone, Copy, Debug, PartialEq, Eq, PartialOrd, Ord, Hash, Structural)]
pub enum HandState {
    Bust,
    Soft(u8),
    Hard(u8),
    Natural,
}

/// What a hand is worth: a natural, a bust, a total with an ace that counts
/// eleven, or a hard total.
pub open spec fn state_of(t: Tally) -> HandState {
    if is_natural(t) {
        HandState::Natural
    } else if hard(t) > 21 {
        HandState::Bust
    } else if is_soft(t) {
        HandState::Soft((hard(t) + 10) as u8)
    } else {
        HandState::Hard(hard(t) as u8)
    }
}

impl HandState {
    /// What a hand is worth.
    pub fn of(hand: &CardCol) -> (r: Self)
        requires
            hard(hand@) <= u8::MAX,
        ensures
            r == state_of(hand@),
    {
        if hand.is_nat21() {
            return HandState::Natural;
        }
        let has_ace: bool = hand.has_ace();
        let hard_count: u8 = hand.hard_count();
        if hard_count > 21 {
            HandState::Bust
        } else if has_ace && hard_count <= 11 {
            HandState::Soft(hard_count + 10)
        } else {
            HandState::Hard(hard_count)
        }
    }

    /// What [`HandState::to_text`] writes.
    pub open spec fn written(self) -> Seq<char> {
        match self {
            HandState::Bust => "Bust"@,
            HandState::Soft(n) => "S"@ + decimal(n as int),
            HandState::Hard(n) => "H"@ + decimal(n as int),
            HandState::Natural => "Nat"@,
        }
    }

    /// The state as it is written in tables.
    pub fn to_text(&self) -> (r: String)
        ensures
            r@ == self.written(),
    {
        let mut out = String::new();
        match self {
            HandState::Bust => push_text(&mut out, "Bust"),
            HandState::Soft(n) => {
                push_text(&mut out, "S");
                push_decimal(&mut out, *n as i64);
            },
            HandState::Hard(n) => {
                push_text(&mut out, "H");
                push_decimal(&mut out, *n as i64);
            },
            HandState::Natural => push_text(&mut out, "Nat"),
        }
        assert(out@ =~= self.written());
        out
    }
}

/// What a player can do.
#[derive(Clone, Copy, Debug, PartialEq, Eq, Hash, Structural)]
pub enum Move {
    Hit,
    Stand,
    Double,
    Split,
    Surrender,
}

impl Move {
    /// The letter of the move in a chart.
    pub open spec fn letter_spec(self) -> Seq<char> {
        match self {
            Move::Hit => "H"@,
            Move::Stand => "S"@,
            Move::Double => "D"@,
            Move::Split => "P"@,
            Move::Surrender => "R"@,
        }
    }

    /// The letter of the move in a chart.
    pub fn letter(&self) -> (r: &'static str)
        ensures
            r@ == self.letter_spec(),
    {
        match self {
            Move::Hit => "H",
            Move::Stand => "S",
            Move::Double => "D",
            Move::Split => "P",
            Move::Surrender => "R",
        }
    }

    /// The name of the move.
    pub open spec fn name_spec(self) -> Seq<char> {
        match self {
            Move::Hit => "Hit"@,
            Move::Stand => "Stand"@,
            Move::Double => "Double"@,
            Move::Split => "Split"@,
            Move::Surrender => "Surrender"@,
        }
    }

    /// Whether the move is only offered on the first two cards.
    pub open spec fn start_only_spec(self) -> bool {
        self == Move::Double || self == Move::Split || self == Move::Surrender
    }
}

/// The name of a move.
pub fn move_name(mv: Move) -> (r: &'static str)
    ensures
        r@ == mv.name_spec(),
{
    match mv {
        Move::Hit => "Hit",
        Move::Stand => "Stand",
        Move::Double => "Double",
        Move::Split => "Split",
        Move::Surrender => "Surrender",
    }
}

/// Whether a move is only offered on the first two cards.
pub fn is_start_only(mv: Move) -> (r: bool)
    ensures
        r == mv.start_only_spec(),
{
    match mv {
        Move::Double | Move::Split | Move::Surrender => true,
        _ => false,
    }
}

/// The moves in the order in which they are listed.
pub open spec fn move_at(i: int) -> Move {
    if i <= 0 {
        Move::Stand
    } else if i == 1 {
        Move::Hit
    } else if i == 2 {
        Move::Double
    } else if i == 3 {
        Move::Split
    } else {
        Move::Surrender
    }
}

/// The place of a move in the order in which moves are listed.
pub open spec fn move_place(mv: Move) -> int {
    match mv {
        Move::Stand => 0,
        Move::Hit => 1,
        Move::Double => 2,
        Move::Split => 3,
        Move::Surrender => 4,
    }
}

/// The move at a place of the order in which moves are listed.
pub fn listed_move(i: usize) -> (r: Move)
    ensures
        r == move_at(i as int),
{
    if i == 0 {
        Move::Stand
    } else if i == 1 {
        Move::Hit
    } else if i == 2 {
        Move::Double
    } else if i == 3 {
        Move::Split
    } else {
        Move::Surrender
    }
}

/// The row of a strategy chart that a hand belongs to. A pair has a row of its
/// own, apart from the total that it makes.
#[derive(Clone, Copy, Debug, PartialEq, Eq, PartialOrd, Ord, Hash, Structural)]
pub enum HandCategory {
    Hard(u8),
    Soft(u8),
    Pair(Card),
    Natural,
}

impl HandCategory {
    /// What [`HandCategory::to_text`] writes.
    pub open spec fn written(self) -> Seq<char> {
        match self {
            HandCategory::Hard(n) => "H"@ + decimal(n as int),
            HandCategory::Soft(n) => "S"@ + decimal(n as int),
            HandCategory::Pair(c) => c.written() + ","@ + c.written(),
            HandCategory::Natural => "Nat"@,
        }
    }

    /// The row as it is written in charts.
    pub fn to_text(&self) -> (r: String)
        ensures
            r@ == self.written(),
    {
        let mut out = String::new();
        match self {
            HandCategory::Hard(n) => {
                push_text(&mut out, "H");
                push_decimal(&mut out, *n as i64);
            },
            HandCategory::Soft(n) => {
                push_text(&mut out, "S");
                push_decimal(&mut out, *n as i64);
            },
            HandCategory::Pair(c) => {
                let card = c.to_text();
                push_text(&mut out, card.as_str());
                push_text(&mut out, ",");
                push_text(&mut out, card.as_str());
            },
            HandCategory::Natural => push_text(&mut out, "Nat"),
        }
        assert(out@ =~= self.written());
        out
    }
}

/// Whether a hand is two cards of the rank at place `rank`.
pub open spec fn is_pair_of(t: Tally, rank: int) -> bool {
    size(t) == 2 && t[rank] == 2
}

/// The rank of a pair, if the hand is two cards of the same rank.
pub open spec fn pair_of(t: Tally) -> Option<Card> {
    if exists|rank: int| 0 <= rank < 10 && #[trigger] is_pair_of(t, rank) {
        Some(card_at(choose|rank: int| 0 <= rank < 10 && #[trigger] is_pair_of(t, rank)))
    } else {
        None
    }
}

/// A hand is a pair of one rank only.
pub proof fn pair_is_unique(t: Tally, rank: int)
    requires
        t.len() == 10,
        0 <= rank < 10,
        is_pair_of(t, rank),
    ensures
        pair_of(t) == Some(card_at(rank)),
        forall|i: int| 0 <= i < 10 && i != rank ==> #[trigger] t[i] == 0,
{
    let other = choose|r: int| 0 <= r < 10 && #[trigger] is_pair_of(t, r);
    assert(is_pair_of(t, other));
    assert(forall|i: int| 0 <= i < 10 && i != rank ==> #[trigger] t[i] == 0);
}

/// The rank of a pair, if the hand is two cards of the same rank.
pub fn pair_rank(hand: &CardCol) -> (r: Option<Card>)
    ensures
        r == pair_of(hand@),
        r matches Some(card) ==> card.valid() && is_pair_of(hand@, card.rank()),
        forall|i: int|
            0 <= i < 10 && #[trigger] hand@[i] == 2 && size(hand@) == 2 ==> r == Some(card_at(i)),
{
    proof {
        assert forall|i: int|
            0 <= i < 10 && #[trigger] hand@[i] == 2 && size(hand@) == 2 implies pair_of(hand@)
            == Some(card_at(i)) by {
            assert(is_pair_of(hand@, i));
            pair_is_unique(hand@, i);
        }
    }
    if hand.len() != 2 {
        return None;
    }
    let mut i: usize = 0;
    while i < N_RANKS
        invariant
            i <= 10,
            size(hand@) == 2,
            forall|j: int| 0 <= j < i ==> !(#[trigger] is_pair_of(hand@, j)),
        decreases 10 - i,
    {
        if hand.get_count_i(i) == 2 {
            proof {
                assert(is_pair_of(hand@, i as int));
                pair_is_unique(hand@, i as int);
            }
            return Some(Card::from_rank_index(i));
        }
        i += 1;
    }
    None
}

/// The row of a strategy chart that a hand belongs to: its pair if it is one,
/// otherwise its state.
pub open spec fn category_of(t: Tally) -> HandCategory {
    match pair_of(t) {
        Some(card) => HandCategory::Pair(card),
        None => match state_of(t) {
            HandState::Natural => HandCategory::Natural,
            HandState::Soft(n) => HandCategory::Soft(n),
            HandState::Hard(n) => HandCategory::Hard(n),
            HandState::Bust => HandCategory::Hard(0),
        },
    }
}

/// The row of a strategy chart that a hand of at most 21 belongs to.
pub fn categorize(hand: &CardCol) -> (r: HandCategory)
    requires
        hard(hand@) <= 21,
    ensures
        r == category_of(hand@),
        forall|i: int|
            0 <= i < 10 && #[trigger] hand@[i] == 2 && size(hand@) == 2 ==> r == HandCategory::Pair(
                card_at(i),
            ),
{
    match pair_rank(hand) {
        Some(card) => HandCategory::Pair(card),
        None => match HandState::of(hand) {
            HandState::Natural => HandCategory::Natural,
            HandState::Soft(n) => HandCategory::Soft(n),
            HandState::Hard(n) => HandCategory::Hard(n),
            HandState::Bust => HandCategory::Hard(0),
        },
    }
}

/// A pair is charted as a pair, whatever total it makes: two aces and two tens
/// are no exception.
pub proof fn law_pairs_come_first(t: Tally, rank: int)
    requires
        t.len() == 10,
        0 <= rank < 10,
        is_pair_of(t, rank),
    ensures
        category_of(t) == HandCategory::Pair(card_at(rank)),
{
    pair_is_unique(t, rank);
}

/// Hands of more than two cards are charted by their total alone.
pub proof fn law_long_hands_are_charted_by_total(a: Tally, b: Tally)
    requires
        a.len() == 10,
        b.len() == 10,
        size(a) != 2,
        size(b) != 2,
        hard(a) <= 21,
        best(a) == best(b),
        is_soft(a) == is_soft(b),
    ensures
        category_of(a) == category_of(b),
{
    crate::shoe::law_natural_is_two_card_21(a);
    crate::shoe::law_natural_is_two_card_21(b);
}

/// The expected value of each move that a hand offers.
#[derive(Clone, Copy)]
pub struct MoveEvs<N> {
    pub hit: Option<N>,
    pub stand: Option<N>,
    pub double: Option<N>,
    pub split: Option<N>,
    pub surrender: Option<N>,
}

/// The better of a move with its value and another one: the other one only where it is better.
pub open spec fn better_of<N: Scalar>(top: Option<(Move, N)>, mv: Move, ev: Option<N>) -> Option<
    (Move, N),
> {
    match (top, ev) {
        (_, None) => top,
        (None, Some(e)) => Some((mv, e)),
        (Some((_, t)), Some(e)) => if t.less_spec(e) {
            Some((mv, e))
        } else {
            top
        },
    }
}

/// The best of the first `k` moves in the order in which they are listed, with its value.
pub open spec fn best_upto<N: Scalar>(evs: MoveEvs<N>, k: int) -> Option<(Move, N)>
    decreases k,
{
    if k <= 0 {
        None
    } else {
        better_of(best_upto(evs, k - 1), move_at(k - 1), evs.at(move_at(k - 1)))
    }
}

/// The best move with its value: of moves with the same value the one that is listed first.
pub open spec fn best_entry<N: Scalar>(evs: MoveEvs<N>) -> Option<(Move, N)> {
    better_of(
        better_of(
            better_of(
                better_of(better_of(None, Move::Stand, evs.stand), Move::Hit, evs.hit),
                Move::Double,
                evs.double,
            ),
            Move::Split,
            evs.split,
        ),
        Move::Surrender,
        evs.surrender,
    )
}

/// The best move is the best of all five.
pub proof fn best_of_five<N: Scalar>(evs: MoveEvs<N>)
    ensures
        best_entry(evs) == best_upto(evs, 5),
{
    reveal_with_fuel(best_upto, 6);
}

impl<N> MoveEvs<N> {
    /// The value of a move, if the hand offers it.
    pub open spec fn at(self, mv: Move) -> Option<N> {
        match mv {
            Move::Hit => self.hit,
            Move::Stand => self.stand,
            Move::Double => self.double,
            Move::Split => self.split,
            Move::Surrender => self.surrender,
        }
    }

    /// The same values with another one for a move.
    pub open spec fn with_spec(self, mv: Move, ev: Option<N>) -> MoveEvs<N> {
        match mv {
            Move::Hit => MoveEvs { hit: ev, ..self },
            Move::Stand => MoveEvs { stand: ev, ..self },
            Move::Double => MoveEvs { double: ev, ..self },
            Move::Split => MoveEvs { split: ev, ..self },
            Move::Surrender => MoveEvs { surrender: ev, ..self },
        }
    }

    /// Whether any move is offered.
    pub open spec fn offers_any(self) -> bool {
        self.hit is Some || self.stand is Some || self.double is Some || self.split is Some
            || self.surrender is Some
    }

    /// No move at all.
    pub fn none() -> (r: Self)
        ensures
            r == (MoveEvs::<N> {
                hit: None,
                stand: None,
                double: None,
                split: None,
                surrender: None,
            }),
    {
        MoveEvs { hit: None, stand: None, double: None, split: None, surrender: None }
    }
}

impl<N: Scalar> MoveEvs<N> {
    /// The value of a move, if the hand offers it.
    pub fn get(&self, mv: Move) -> (r: Option<N>)
        ensures
            r == self.at(mv),
    {
        match mv {
            Move::Hit => self.hit,
            Move::Stand => self.stand,
            Move::Double => self.double,
            Move::Split => self.split,
            Move::Surrender => self.surrender,
        }
    }

    /// Give a move a value.
    pub fn set(&mut self, mv: Move, ev: N)
        ensures
            *final(self) == old(self).with_spec(mv, Some(ev)),
    {
        match mv {
            Move::Hit => self.hit = Some(ev),
            Move::Stand => self.stand = Some(ev),
            Move::Double => self.double = Some(ev),
            Move::Split => self.split = Some(ev),
            Move::Surrender => self.surrender = Some(ev),
        }
    }

    /// The best move with its value, if any move is offered.
    pub fn best(&self) -> (r: Option<(Move, N)>)
        ensures
            r == best_entry(*self),
            r is Some == self.offers_any(),
    {
        let mut top: Option<(Move, N)> = None;
        let mut k: usize = 0;
        while k < 5
            invariant
                k <= 5,
                top == best_upto(*self, k as int),
                top is None == (forall|j: int| 0 <= j < k ==> self.at(#[trigger] move_at(j)) is None),
            decreases 5 - k,
        {
            let mv = listed_move(k);
            let ev = self.get(mv);
            top =
            match (top, ev) {
                (_, None) => top,
                (None, Some(e)) => Some((mv, e)),
                (Some((m, t)), Some(e)) => if t.less(e) {
                    Some((mv, e))
                } else {
                    Some((m, t))
                },
            };
            k += 1;
        }
        proof {
            assert(move_at(0) == Move::Stand && move_at(1) == Move::Hit && move_at(2)
                == Move::Double && move_at(3) == Move::Split && move_at(4) == Move::Surrender);
            best_of_five(*self);
        }
        top
    }
}

/// The best move of those that are offered.
pub open spec fn best_move_spec<N: Scalar>(evs: MoveEvs<N>) -> Move {
    match best_entry(evs) {
        Some((mv, _)) => mv,
        None => Move::Stand,
    }
}

/// The best move of those that are offered. At least one is.
pub fn best_move<N: Scalar>(evs: &MoveEvs<N>) -> (r: Move)
    requires
        evs.offers_any(),
    ensures
        r == best_move_spec(*evs),
        evs.at(r) is Some,
{
    proof {
        best_is_offered(*evs, 5);
    }
    match evs.best() {
        Some((mv, _)) => mv,
        None => Move::Stand,
    }
}

/// The best of some moves is one of them.
pub proof fn best_is_offered<N: Scalar>(evs: MoveEvs<N>, k: int)
    ensures
        best_upto(evs, k) matches Some((mv, ev)) ==> evs.at(mv) == Some(ev),
    decreases k,
{
    if k > 0 {
        best_is_offered(evs, k - 1);
    }
}

/// Whether the comparison of numbers ranks them: nothing is below itself, and
/// what is not above something is not above anything that something is not
/// above.
pub open spec fn ranks<N: Scalar>() -> bool {
    &&& forall|a: N| !(#[trigger] a.less_spec(a))
    &&& forall|a: N, b: N, c: N|
        !(#[trigger] a.less_spec(b)) && !(#[trigger] b.less_spec(c)) ==> !a.less_spec(c)
    &&& forall|a: N, b: N| #[trigger] a.less_spec(b) ==> !b.less_spec(a)
}

/// Where the comparison of numbers ranks them, no move that is offered beats
/// the best move.
pub proof fn law_best_move_is_best<N: Scalar>(evs: MoveEvs<N>, mv: Move)
    requires
        ranks::<N>(),
        evs.at(mv) is Some,
    ensures
        best_entry(evs) matches Some((top, ev)) && evs.at(top) == Some(ev) && !ev.less_spec(
            evs.at(mv)->0,
        ),
{
    best_is_offered(evs, 5);
    assert(move_at(0) == Move::Stand && move_at(1) == Move::Hit && move_at(2) == Move::Double
        && move_at(3) == Move::Split && move_at(4) == Move::Surrender);
    let i: int = match mv {
        Move::Stand => 0,
        Move::Hit => 1,
        Move::Double => 2,
        Move::Split => 3,
        Move::Surrender => 4,
    };
    best_beats(evs, 5, i);
}

proof fn best_beats<N: Scalar>(evs: MoveEvs<N>, k: int, i: int)
    requires
        ranks::<N>(),
        0 <= i < k <= 5,
        evs.at(move_at(i)) is Some,
    ensures
        best_upto(evs, k) matches Some((_, ev)) && !ev.less_spec(evs.at(move_at(i))->0),
    decreases k,
{
    if i < k - 1 {
        best_beats(evs, k - 1, i);
    }
}

} // verus!
