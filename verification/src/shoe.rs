//! Collections of cards: hands and shoes.
//!
//! A collection is a tally, the number of cards of each rank. In contracts it is
//! the sequence of its ten numbers, in rank order.
use crate::card::{card_at, card_of_char, Card, CardError};
use crate::text::{decimal, push_decimal, push_text};
use vstd::prelude::*;

verus! {

/// Number of distinct card ranks: ace, 2 to 9, ten.
pub const N_RANKS: usize = 10;

/// How many cards of each rank, in rank order.
pub type Tally = Seq<nat>;

/// The tally of no cards.
pub open spec fn no_cards() -> Tally {
    Seq::new(10, |i: int| 0nat)
}

/// The tally with `n` more cards of one rank.
pub open spec fn with_n(t: Tally, card: Card, n: nat) -> Tally {
    t.update(card.rank(), t[card.rank()] + n)
}

/// The tally with one more card.
pub open spec fn with_card(t: Tally, card: Card) -> Tally {
    with_n(t, card, 1)
}

/// The tally of one card.
pub open spec fn single(card: Card) -> Tally {
    with_card(no_cards(), card)
}

/// The cards of both tallies together.
pub open spec fn joined(a: Tally, b: Tally) -> Tally {
    Seq::new(10, |i: int| a[i] + b[i])
}

/// What is left of `a` when `b` is taken out, as far as it is there.
pub open spec fn taken(a: Tally, b: Tally) -> Tally {
    Seq::new(
        10,
        |i: int|
            if a[i] > b[i] {
                (a[i] - b[i]) as nat
            } else {
                0
            },
    )
}

/// Whether every card of `a` is there in `b`.
pub open spec fn within(a: Tally, b: Tally) -> bool {
    forall|i: int| 0 <= i < 10 ==> #[trigger] a[i] <= b[i]
}

/// How many cards there are.
pub open spec fn size(t: Tally) -> nat {
    t[0] + t[1] + t[2] + t[3] + t[4] + t[5] + t[6] + t[7] + t[8] + t[9]
}

/// The total with every ace counted as one.
pub open spec fn hard(t: Tally) -> nat {
    t[0] + 2 * t[1] + 3 * t[2] + 4 * t[3] + 5 * t[4] + 6 * t[5] + 7 * t[6] + 8 * t[7] + 9 * t[8]
        + 10 * t[9]
}

/// Whether one ace can be counted as eleven.
pub open spec fn is_soft(t: Tally) -> bool {
    t[0] > 0 && hard(t) <= 11
}

/// The total with one ace counted as eleven where that does not go over 21.
pub open spec fn best(t: Tally) -> nat {
    if is_soft(t) {
        hard(t) + 10
    } else {
        hard(t)
    }
}

/// One ace and one ten and nothing else.
pub open spec fn is_natural(t: Tally) -> bool {
    t == with_card(single(Card::Ace), Card::Ten)
}

/// The tally of a list of cards.
pub open spec fn tally_of(cards: Seq<Card>) -> Tally
    decreases cards.len(),
{
    if cards.len() == 0 {
        no_cards()
    } else {
        with_card(tally_of(cards.drop_last()), cards.last())
    }
}

/// The ranks from place `from` on that are there, each with its number.
pub open spec fn ranks_from(t: Tally, from: int) -> Seq<(Card, nat)>
    decreases 10 - from,
{
    if from >= 10 {
        Seq::empty()
    } else if t[from] > 0 {
        seq![(card_at(from), t[from])] + ranks_from(t, from + 1)
    } else {
        ranks_from(t, from + 1)
    }
}

/// A tally of cards, for a hand as for a shoe.
#[derive(Clone, Copy, Debug, Hash)]
pub struct CardCol {
    counts: [u16; N_RANKS],
}

impl View for CardCol {
    type V = Tally;

    closed spec fn view(&self) -> Tally {
        Seq::new(10, |i: int| self.counts@[i] as nat)
    }
}

/// Two collections with the same tally are the same.
pub proof fn law_tally_tells_all(a: CardCol, b: CardCol)
    requires
        a.view() == b.view(),
    ensures
        a == b,
{
    assert forall|i: int| 0 <= i < 10 implies a.counts@[i] == b.counts@[i] by {
        assert(a@[i] == a.counts@[i] as nat);
        assert(b@[i] == b.counts@[i] as nat);
    }
    assert(a.counts@ =~= b.counts@);
    assert(a.counts =~= b.counts);
}

/// The tally of a collection holds ten numbers of at most sixteen bits.
pub broadcast proof fn tally_bounds(a: CardCol)
    ensures
        (#[trigger] a.view()).len() == 10,
        forall|i: int| 0 <= i < 10 ==> #[trigger] a.view()[i] <= u16::MAX,
{
}

impl PartialEq for CardCol {
    fn eq(&self, other: &Self) -> (r: bool) {
        self.same_cards(other)
    }
}

impl vstd::std_specs::cmp::PartialEqSpecImpl for CardCol {
    open spec fn obeys_eq_spec() -> bool {
        true
    }

    open spec fn eq_spec(&self, other: &Self) -> bool {
        self@ == other@
    }
}

impl Eq for CardCol {

}

impl CardCol {
    /// The empty collection.
    pub fn new() -> (r: Self)
        ensures
            r@ == no_cards(),
    {
        let r = CardCol { counts: [0, 0, 0, 0, 0, 0, 0, 0, 0, 0] };
        assert(r@ =~= no_cards());
        r
    }

    /// Whether both hold the same cards.
    pub fn same_cards(&self, other: &Self) -> (r: bool)
        ensures
            r == (self@ == other@),
    {
        let mut i: usize = 0;
        while i < N_RANKS
            invariant
                i <= 10,
                forall|j: int| 0 <= j < i ==> #[trigger] self@[j] == other@[j],
            decreases 10 - i,
        {
            if self.counts[i] != other.counts[i] {
                assert(self@[i as int] != other@[i as int]);
                return false;
            }
            assert(self@[i as int] == other@[i as int]);
            i += 1;
        }
        assert(self@ =~= other@);
        true
    }

    /// How many cards there are.
    pub fn len(&self) -> (r: usize)
        ensures
            r == size(self@),
    {
        self.counts[0] as usize + self.counts[1] as usize + self.counts[2] as usize
            + self.counts[3] as usize + self.counts[4] as usize + self.counts[5] as usize
            + self.counts[6] as usize + self.counts[7] as usize + self.counts[8] as usize
            + self.counts[9] as usize
    }

    /// Whether there are no cards.
    pub fn is_empty(&self) -> (r: bool)
        ensures
            r == (size(self@) == 0),
    {
        let mut i: usize = 0;
        while i < N_RANKS
            invariant
                i <= 10,
                forall|j: int| 0 <= j < i ==> #[trigger] self@[j] == 0,
            decreases 10 - i,
        {
            if self.counts[i] != 0 {
                assert(self@[i as int] > 0);
                return false;
            }
            assert(self@[i as int] == 0);
            i += 1;
        }
        true
    }

    /// How many cards of this rank there are.
    pub fn get_count(&self, card: &Card) -> (r: u16)
        requires
            card.valid(),
        ensures
            r == self@[card.rank()],
    {
        self.counts[card.rank_index()]
    }

    /// How many cards of the rank at place `i` of the rank order there are.
    pub fn get_count_i(&self, i: usize) -> (r: u16)
        requires
            i < N_RANKS,
        ensures
            r == self@[i as int],
    {
        self.counts[i]
    }

    /// Add one card.
    pub fn insert(&mut self, card: Card)
        requires
            card.valid(),
            old(self)@[card.rank()] < u16::MAX,
        ensures
            final(self)@ == with_card(old(self)@, card),
    {
        let i: usize = card.rank_index();
        self.counts[i] = self.counts[i] + 1;
        assert(self@ =~= with_card(old(self)@, card));
    }

    /// Add `n` cards of one rank.
    pub fn add_n(&mut self, card: Card, n: u16)
        requires
            card.valid(),
            old(self)@[card.rank()] + n <= u16::MAX,
        ensures
            final(self)@ == with_n(old(self)@, card, n as nat),
    {
        let i: usize = card.rank_index();
        self.counts[i] = self.counts[i] + n;
        assert(self@ =~= with_n(old(self)@, card, n as nat));
    }

    /// Remove every card of one rank and tell how many there were.
    pub fn remove_rank(&mut self, card: Card) -> (r: u16)
        requires
            card.valid(),
        ensures
            r == old(self)@[card.rank()],
            final(self)@ == old(self)@.update(card.rank(), 0),
    {
        let i: usize = card.rank_index();
        let n: u16 = self.counts[i];
        self.counts[i] = 0;
        assert(self@ =~= old(self)@.update(card.rank(), 0));
        n
    }

    /// The highest rank that is there, if any.
    pub fn highest_rank(&self) -> (r: Option<Card>)
        ensures
            match r {
                Some(card) => {
                    &&& card.valid()
                    &&& self@[card.rank()] > 0
                    &&& forall|j: int| card.rank() < j < 10 ==> #[trigger] self@[j] == 0
                },
                None => forall|j: int| 0 <= j < 10 ==> #[trigger] self@[j] == 0,
            },
    {
        let mut i: usize = N_RANKS;
        while i > 0
            invariant
                i <= 10,
                forall|j: int| i <= j < 10 ==> #[trigger] self@[j] == 0,
            decreases i,
        {
            i -= 1;
            if self.counts[i] > 0 {
                assert(self@[i as int] > 0);
                return Some(Card::from_rank_index(i));
            }
            assert(self@[i as int] == 0);
        }
        None
    }

    /// The ranks that are there, in rank order, each with its number of cards.
    pub fn iter(&self) -> (r: Vec<(Card, u16)>)
        ensures
            r@.map_values(|e: (Card, u16)| (e.0, e.1 as nat)) == ranks_from(self@, 0),
    {
        let mut out: Vec<(Card, u16)> = Vec::new();
        let mut i: usize = N_RANKS;
        while i > 0
            invariant
                i <= 10,
                out@.reverse().map_values(|e: (Card, u16)| (e.0, e.1 as nat)) =~= ranks_from(
                    self@,
                    i as int,
                ),
            decreases i,
        {
            i -= 1;
            let ghost before = out@;
            if self.counts[i] > 0 {
                out.push((Card::from_rank_index(i), self.counts[i]));
                assert(self@[i as int] > 0);
                assert(out@.reverse() =~= seq![(card_at(i as int), self.counts@[i as int])]
                    + before.reverse());
            } else {
                assert(self@[i as int] == 0);
            }
        }
        reverse_ranks(&mut out);
        out
    }

    /// Whether every card of this collection is there in the other one.
    pub fn is_submultiset(&self, other: &Self) -> (r: bool)
        ensures
            r == within(self@, other@),
    {
        let mut i: usize = 0;
        while i < N_RANKS
            invariant
                i <= 10,
                forall|j: int| 0 <= j < i ==> #[trigger] self@[j] <= other@[j],
            decreases 10 - i,
        {
            if self.counts[i] > other.counts[i] {
                assert(self@[i as int] > other@[i as int]);
                return false;
            }
            assert(self@[i as int] <= other@[i as int]);
            i += 1;
        }
        true
    }

    /// The cards of `n` decks: four of each rank and sixteen tens in each.
    pub fn from_decks(n: u8) -> (r: Self)
        ensures
            r@ == deck_tally(n as nat),
            size(r@) == 52 * n,
    {
        let per_rank: u16 = 4 * (n as u16);
        let mut counts: [u16; 10] = [per_rank; 10];
        counts[9] = 4 * per_rank;
        let r = CardCol { counts };
        assert(r@ =~= deck_tally(n as nat));
        r
    }

    /// Half of a deck: two of each rank and eight tens.
    pub fn half_deck() -> (r: Self)
        ensures
            r@ == half_deck_tally(),
            size(r@) == 26,
    {
        let mut counts: [u16; 10] = [2; 10];
        counts[9] = 8;
        let r = CardCol { counts };
        assert(r@ =~= half_deck_tally());
        r
    }

    /// The tally of a list of cards.
    pub fn from_hand(hand: &[Card]) -> (r: Self)
        requires
            forall|i: int| 0 <= i < hand@.len() ==> (#[trigger] hand@[i]).valid(),
            forall|r: int| 0 <= r < 10 ==> #[trigger] tally_of(hand@)[r] <= u16::MAX,
        ensures
            r@ == tally_of(hand@),
            size(r@) == hand@.len(),
    {
        let mut col = CardCol::new();
        let mut i: usize = 0;
        while i < hand.len()
            invariant
                i <= hand@.len(),
                forall|r: int| 0 <= r < 10 ==> #[trigger] tally_of(hand@)[r] <= u16::MAX,
                forall|i: int| 0 <= i < hand@.len() ==> (#[trigger] hand@[i]).valid(),
                col@ == tally_of(hand@.take(i as int)),
                size(col@) == i,
            decreases hand@.len() - i,
        {
            let ghost shorter = hand@.take(i as int);
            let ghost longer = hand@.take(i as int + 1);
            proof {
                assert(longer.drop_last() =~= shorter);
                assert(longer.last() == hand@[i as int]);
                part_of_tally(hand@, i as int + 1, hand@[i as int].rank());
                tally_len(shorter);
            }
            col.insert(hand[i]);
            i += 1;
        }
        assert(hand@.take(i as int) =~= hand@);
        col
    }

    /// The total with one ace counted as eleven where that does not go over 21.
    pub fn best_count(&self) -> (r: u8)
        requires
            hard(self@) <= u8::MAX,
        ensures
            r == best(self@),
    {
        let hard_count: u8 = self.hard_count();
        if hard_count <= 11 && self.has_ace() {
            hard_count + 10
        } else {
            hard_count
        }
    }

    /// The total with every ace counted as one.
    pub fn hard_count(&self) -> (r: u8)
        requires
            hard(self@) <= u8::MAX,
        ensures
            r == hard(self@),
    {
        let c = &self.counts;
        let t: u32 = c[0] as u32 + 2 * (c[1] as u32) + 3 * (c[2] as u32) + 4 * (c[3] as u32) + 5 * (
        c[4] as u32) + 6 * (c[5] as u32) + 7 * (c[6] as u32) + 8 * (c[7] as u32) + 9 * (c[8] as u32)
            + 10 * (c[9] as u32);
        t as u8
    }

    /// Whether there is an ace.
    pub fn has_ace(&self) -> (r: bool)
        ensures
            r == (self@[0] > 0),
    {
        self.counts[0] > 0
    }

    /// Whether this is a natural: one ace and one ten.
    pub fn is_nat21(&self) -> (r: bool)
        ensures
            r == is_natural(self@),
    {
        let r: bool = self.counts[0] == 1 && self.counts[9] == 1 && self.len() == 2;
        proof {
            let natural = with_card(single(Card::Ace), Card::Ten);
            assert(size(natural) == 2);
            if r {
                assert(self@ =~= natural);
            }
        }
        r
    }

    /// The cards with one of this rank added.
    pub fn with(self, card: Card) -> (r: Self)
        requires
            card.valid(),
            self@[card.rank()] < u16::MAX,
        ensures
            r@ == with_card(self@, card),
    {
        let mut out = self;
        out.insert(card);
        out
    }

    /// What [`CardCol::to_text`] writes.
    pub open spec fn written(ranks: Seq<(Card, nat)>) -> Seq<char>
        decreases ranks.len(),
    {
        if ranks.len() == 0 {
            Seq::empty()
        } else {
            let last = ranks.last();
            Self::written(ranks.drop_last()) + last.0.written() + ":"@ + decimal(last.1 as int)
                + " "@
        }
    }

    /// The collection as text: each rank that is there with its number.
    pub fn to_text(&self) -> (r: String)
        ensures
            r@ == Self::written(ranks_from(self@, 0)),
    {
        let ranks = self.iter();
        let ghost all = ranks@.map_values(|e: (Card, u16)| (e.0, e.1 as nat));
        let mut out = String::new();
        let mut i: usize = 0;
        while i < ranks.len()
            invariant
                i <= ranks.len(),
                all == ranks@.map_values(|e: (Card, u16)| (e.0, e.1 as nat)),
                out@ == Self::written(all.take(i as int)),
            decreases ranks.len() - i,
        {
            proof {
                assert(all.take(i as int + 1).drop_last() =~= all.take(i as int));
            }
            let card = ranks[i].0.to_text();
            push_text(&mut out, card.as_str());
            push_text(&mut out, ":");
            push_decimal(&mut out, ranks[i].1 as i64);
            push_text(&mut out, " ");
            i += 1;
        }
        assert(all.take(i as int) =~= all);
        out
    }
}

fn reverse_ranks(v: &mut Vec<(Card, u16)>)
    ensures
        final(v)@ == old(v)@.reverse(),
{
    let n: usize = v.len();
    let mut i: usize = 0;
    while i < n / 2
        invariant
            n == old(v)@.len(),
            v@.len() == n,
            i <= n / 2,
            forall|j: int| 0 <= j < i ==> #[trigger] v@[j] == old(v)@[n - 1 - j],
            forall|j: int| n - i <= j < n ==> #[trigger] v@[j] == old(v)@[n - 1 - j],
            forall|j: int| i <= j < n - i ==> #[trigger] v@[j] == old(v)@[j],
        decreases n / 2 - i,
    {
        let a = v[i];
        let b = v[n - 1 - i];
        v.set(i, b);
        v.set(n - 1 - i, a);
        i += 1;
    }
    assert(v@ =~= old(v)@.reverse());
}

/// The tally of `n` decks.
pub open spec fn deck_tally(n: nat) -> Tally {
    Seq::new(
        10,
        |i: int|
            if i == 9 {
                16 * n
            } else {
                4 * n
            },
    )
}

/// The tally of half a deck.
pub open spec fn half_deck_tally() -> Tally {
    Seq::new(
        10,
        |i: int|
            if i == 9 {
                8
            } else {
                2
            },
    )
}

/// No rank holds more cards than there are.
pub proof fn rank_at_most_size(t: Tally, i: int)
    requires
        t.len() == 10,
        0 <= i < 10,
    ensures
        t[i] <= size(t),
{
}

impl std::ops::Add for CardCol {
    type Output = Self;

    /// The cards of both together.
    fn add(self, rhs: Self) -> (r: Self)
        ensures
            r@ == joined(self@, rhs@),
    {
        let mut out = self;
        let mut i: usize = 0;
        while i < N_RANKS
            invariant
                i <= 10,
                forall|j: int| 0 <= j < 10 ==> #[trigger] self@[j] + rhs@[j] <= u16::MAX,
                forall|j: int| 0 <= j < i ==> #[trigger] out@[j] == self@[j] + rhs@[j],
                forall|j: int| i <= j < 10 ==> #[trigger] out@[j] == self@[j],
            decreases 10 - i,
        {
            let ghost before = out;
            assert(out@[i as int] == self@[i as int]);
            assert(self@[i as int] + rhs@[i as int] <= u16::MAX);
            out.counts[i] = out.counts[i] + rhs.counts[i];
            assert(out@ =~= before@.update(i as int, self@[i as int] + rhs@[i as int]));
            i += 1;
        }
        assert(out@ =~= joined(self@, rhs@));
        out
    }
}

impl vstd::std_specs::ops::AddSpecImpl for CardCol {
    open spec fn obeys_add_spec() -> bool {
        false
    }

    open spec fn add_req(self, rhs: Self) -> bool {
        forall|j: int| 0 <= j < 10 ==> #[trigger] self@[j] + rhs@[j] <= u16::MAX
    }

    open spec fn add_spec(self, rhs: Self) -> Self {
        self
    }
}

impl std::ops::Sub for CardCol {
    type Output = Self;

    /// What is left when the other cards are taken out, as far as they are
    /// there.
    fn sub(self, rhs: Self) -> (r: Self)
        ensures
            r@ == taken(self@, rhs@),
    {
        let mut out = self;
        let mut i: usize = 0;
        while i < N_RANKS
            invariant
                i <= 10,
                forall|j: int| 0 <= j < i ==> #[trigger] out@[j] == taken(self@, rhs@)[j],
                forall|j: int| i <= j < 10 ==> #[trigger] out@[j] == self@[j],
            decreases 10 - i,
        {
            let ghost before = out;
            assert(out@[i as int] == self@[i as int]);
            let mine: u16 = out.counts[i];
            let theirs: u16 = rhs.counts[i];
            out.counts[i] = if mine > theirs {
                mine - theirs
            } else {
                0
            };
            assert(out@ =~= before@.update(i as int, taken(self@, rhs@)[i as int]));
            i += 1;
        }
        assert(out@ =~= taken(self@, rhs@));
        out
    }
}

impl vstd::std_specs::ops::SubSpecImpl for CardCol {
    open spec fn obeys_sub_spec() -> bool {
        false
    }

    open spec fn sub_req(self, rhs: Self) -> bool {
        true
    }

    open spec fn sub_spec(self, rhs: Self) -> Self {
        self
    }
}

/// The tally that a line of card characters writes down, or the first
/// character that is no card.
pub open spec fn read_cards(line: Seq<char>) -> Result<Tally, CardError>
    decreases line.len(),
{
    if line.len() == 0 {
        Ok(no_cards())
    } else {
        match read_cards(line.drop_last()) {
            Err(e) => Err(e),
            Ok(t) => match card_of_char(line.last()) {
                Err(e) => Err(e),
                Ok(card) => Ok(with_card(t, card)),
            },
        }
    }
}

/// How many cards are read from a line.
proof fn read_cards_size(line: Seq<char>)
    ensures
        read_cards(line) matches Ok(t) ==> t.len() == 10 && size(t) == line.len(),
    decreases line.len(),
{
    if line.len() > 0 {
        read_cards_size(line.drop_last());
    }
}

/// A line that cannot be read up to some character cannot be read any further.
proof fn read_cards_stops(line: Seq<char>, upto: int)
    requires
        0 <= upto <= line.len(),
        read_cards(line.take(upto)) is Err,
    ensures
        read_cards(line) == read_cards(line.take(upto)),
    decreases line.len() - upto,
{
    if upto < line.len() {
        assert(line.take(upto + 1).drop_last() =~= line.take(upto));
        read_cards_stops(line, upto + 1);
    } else {
        assert(line.take(upto) =~= line);
    }
}

impl TryFrom<&str> for CardCol {
    type Error = CardError;

    /// Read a line of card characters, one for each card.
    fn try_from(value: &str) -> (r: Result<Self, CardError>)
        ensures
            value@.len() <= u16::MAX ==> match read_cards(value@) {
                Ok(t) => r matches Ok(col) && col@ == t,
                Err(e) => r == Err::<CardCol, CardError>(e),
            },
    {
        let mut col = CardCol::new();
        let n: usize = value.unicode_len();
        let mut i: usize = 0;
        while i < n
            invariant
                n == value@.len(),
                i <= n,
                n <= u16::MAX ==> read_cards(value@.take(i as int)) == Ok::<Tally, CardError>(col@),
            decreases n - i,
        {
            let ghost sofar = value@.take(i as int);
            let c: char = value.get_char(i);
            proof {
                assert(value@.take(i as int + 1).drop_last() =~= sofar);
                read_cards_size(sofar);
            }
            match Card::try_from(c) {
                Err(e) => {
                    proof {
                        if n <= u16::MAX {
                            read_cards_stops(value@, i as int + 1);
                        }
                    }
                    return Err(e);
                },
                Ok(card) => {
                    if col.get_count(&card) < u16::MAX {
                        proof {
                            if n <= u16::MAX {
                                rank_at_most_size(col@, card.rank());
                            }
                        }
                        col.insert(card);
                    } else {
                        proof {
                            if n <= u16::MAX {
                                rank_at_most_size(col@, card.rank());
                            }
                        }
                    }
                },
            }
            i += 1;
        }
        assert(value@.take(i as int) =~= value@);
        Ok(col)
    }
}

impl vstd::std_specs::convert::TryFromSpecImpl<&str> for CardCol {
    open spec fn obeys_try_from_spec() -> bool {
        false
    }

    open spec fn try_from_spec(v: &str) -> Result<Self, Self::Error> {
        Err(CardError::Value(0))
    }
}

/// Taking out what was put in gives back the first collection.
pub proof fn law_taken_after_joined(a: Tally, b: Tally)
    requires
        a.len() == 10,
        b.len() == 10,
    ensures
        taken(joined(a, b), b) == a,
{
    assert(taken(joined(a, b), b) =~= a);
}

/// A hand can be put back exactly when it was there: then putting it back
/// restores the collection that it was taken from.
pub proof fn law_within_iff_restored(hand: Tally, shoe: Tally)
    requires
        hand.len() == 10,
        shoe.len() == 10,
    ensures
        within(hand, shoe) == (joined(taken(shoe, hand), hand) == shoe),
{
    let back = joined(taken(shoe, hand), hand);
    if within(hand, shoe) {
        assert(back =~= shoe);
    } else {
        let i = choose|i: int| 0 <= i < 10 && #[trigger] hand[i] > shoe[i];
        assert(back[i] > shoe[i]);
    }
}

/// Taking two hands out one after the other leaves what taking both out at once
/// leaves, in either order.
pub proof fn law_taken_twice(shoe: Tally, a: Tally, b: Tally)
    requires
        shoe.len() == 10,
        a.len() == 10,
        b.len() == 10,
    ensures
        taken(taken(shoe, a), b) == taken(shoe, joined(a, b)),
        taken(taken(shoe, a), b) == taken(taken(shoe, b), a),
{
    assert(taken(taken(shoe, a), b) =~= taken(shoe, joined(a, b)));
    assert(taken(taken(shoe, a), b) =~= taken(taken(shoe, b), a));
}

/// The total of two hands together is the sum of their totals, and so is the
/// number of their cards.
pub proof fn law_totals_are_additive(a: Tally, b: Tally)
    requires
        a.len() == 10,
        b.len() == 10,
    ensures
        hard(joined(a, b)) == hard(a) + hard(b),
        size(joined(a, b)) == size(a) + size(b),
{
}

/// A natural is the only hand of two cards whose best total is 21.
pub proof fn law_natural_is_two_card_21(t: Tally)
    requires
        t.len() == 10,
    ensures
        is_natural(t) == (size(t) == 2 && best(t) == 21),
{
    let natural = with_card(single(Card::Ace), Card::Ten);
    assert(size(natural) == 2 && best(natural) == 21);
    if size(t) == 2 && best(t) == 21 {
        assert(t =~= natural);
    }
}

/// The order in which cards are dealt does not matter: a hand is its tally.
pub proof fn law_order_of_cards_is_forgotten(cards: Seq<Card>, i: int, j: int)
    requires
        forall|k: int| 0 <= k < cards.len() ==> (#[trigger] cards[k]).valid(),
        0 <= i < j < cards.len(),
    ensures
        tally_of(cards.update(i, cards[j]).update(j, cards[i])) == tally_of(cards),
{
    let swapped = cards.update(i, cards[j]).update(j, cards[i]);
    assert forall|r: int| 0 <= r < 10 implies tally_of(swapped)[r] == tally_of(cards)[r] by {
        tally_counts(swapped, r);
        tally_counts(cards, r);
        count_swapped(cards, i, j, r, cards.len() as int);
    }
    tally_len(cards);
    tally_len(swapped);
    assert(tally_of(swapped) =~= tally_of(cards));
}

/// How many of the first `upto` cards have the rank at place `r`.
spec fn count_rank(cards: Seq<Card>, r: int, upto: int) -> nat
    decreases upto,
{
    if upto <= 0 {
        0
    } else {
        count_rank(cards, r, upto - 1) + if cards[upto - 1].rank() == r {
            1nat
        } else {
            0nat
        }
    }
}

/// The first cards of a list are no more of a rank than all of them.
proof fn part_of_tally(cards: Seq<Card>, k: int, r: int)
    requires
        forall|i: int| 0 <= i < cards.len() ==> (#[trigger] cards[i]).valid(),
        0 <= k <= cards.len(),
        0 <= r < 10,
    ensures
        tally_of(cards.take(k))[r] <= tally_of(cards)[r],
    decreases cards.len() - k,
{
    if k < cards.len() {
        part_of_tally(cards, k + 1, r);
        assert(cards.take(k + 1).drop_last() =~= cards.take(k));
        tally_len(cards.take(k));
    } else {
        assert(cards.take(k) =~= cards);
    }
}

pub proof fn tally_len(cards: Seq<Card>)
    requires
        forall|k: int| 0 <= k < cards.len() ==> (#[trigger] cards[k]).valid(),
    ensures
        tally_of(cards).len() == 10,
    decreases cards.len(),
{
    if cards.len() > 0 {
        tally_len(cards.drop_last());
        assert(cards[cards.len() - 1].valid());
    }
}

proof fn count_rank_prefix(a: Seq<Card>, b: Seq<Card>, r: int, upto: int)
    requires
        upto <= a.len(),
        upto <= b.len(),
        forall|k: int| 0 <= k < upto ==> a[k] == b[k],
    ensures
        count_rank(a, r, upto) == count_rank(b, r, upto),
    decreases upto,
{
    if upto > 0 {
        count_rank_prefix(a, b, r, upto - 1);
    }
}

proof fn tally_counts(cards: Seq<Card>, r: int)
    requires
        forall|k: int| 0 <= k < cards.len() ==> (#[trigger] cards[k]).valid(),
        0 <= r < 10,
    ensures
        tally_of(cards)[r] == count_rank(cards, r, cards.len() as int),
    decreases cards.len(),
{
    if cards.len() > 0 {
        let shorter = cards.drop_last();
        tally_counts(shorter, r);
        tally_len(shorter);
        count_rank_prefix(cards, shorter, r, shorter.len() as int);
        assert(cards[cards.len() - 1].valid());
    }
}

proof fn count_swapped(cards: Seq<Card>, i: int, j: int, r: int, upto: int)
    requires
        0 <= i < j < cards.len(),
        0 <= upto <= cards.len(),
    ensures
        ({
            let swapped = cards.update(i, cards[j]).update(j, cards[i]);
            let at_i: int = if cards[i].rank() == r { 1 } else { 0 };
            let at_j: int = if cards[j].rank() == r { 1 } else { 0 };
            count_rank(swapped, r, upto) == count_rank(cards, r, upto) + if i < upto && upto <= j {
                at_j - at_i
            } else {
                0
            }
        }),
    decreases upto,
{
    if upto > 0 {
        count_swapped(cards, i, j, r, upto - 1);
    }
}

} // verus!
