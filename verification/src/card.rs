//! The ten ranks that blackjack tells apart.
use crate::text::{decimal, push_decimal, push_text};
use vstd::prelude::*;

verus! {

/// The rank of a card.
#[derive(Clone, Copy, Debug, PartialEq, Eq, PartialOrd, Ord, Hash, Structural)]
pub enum Card {
    Ace,
    /// A numeral card, 2 to 9.
    Pip(u8),
    /// Tens and face cards, which are all worth the same.
    Ten,
}

/// Why something is not a card.
#[derive(Clone, Copy, Debug, PartialEq, Eq, Structural)]
pub enum CardError {
    /// No rank has this value.
    Value(u8),
    /// No rank is written with this character.
    Character(char),
}

impl CardError {
    /// What [`CardError::message`] says.
    pub open spec fn message_spec(self) -> Seq<char> {
        match self {
            CardError::Value(v) => "Invald card value "@ + decimal(v as int),
            CardError::Character(c) => "Invalid card character "@.push(c),
        }
    }

    /// The reason in words.
    pub fn message(&self) -> (r: String)
        ensures
            r@ == self.message_spec(),
    {
        let mut out = String::new();
        match self {
            CardError::Value(v) => {
                push_text(&mut out, "Invald card value ");
                push_decimal(&mut out, *v as i64);
            },
            CardError::Character(c) => {
                push_text(&mut out, "Invalid card character ");
                out.push(*c);
            },
        }
        assert(out@ =~= self.message_spec());
        out
    }
}

/// The card with the value `v`, if there is one.
pub open spec fn card_of_value(v: u8) -> Result<Card, CardError> {
    if v == 1 {
        Ok(Card::Ace)
    } else if 2 <= v <= 9 {
        Ok(Card::Pip(v))
    } else if v == 10 {
        Ok(Card::Ten)
    } else {
        Err(CardError::Value(v))
    }
}

/// The card written with the character `c`, if there is one.
pub open spec fn card_of_char(c: char) -> Result<Card, CardError> {
    match c {
        'A' => Ok(Card::Ace),
        '2' => Ok(Card::Pip(2)),
        '3' => Ok(Card::Pip(3)),
        '4' => Ok(Card::Pip(4)),
        '5' => Ok(Card::Pip(5)),
        '6' => Ok(Card::Pip(6)),
        '7' => Ok(Card::Pip(7)),
        '8' => Ok(Card::Pip(8)),
        '9' => Ok(Card::Pip(9)),
        'T' => Ok(Card::Ten),
        _ => Err(CardError::Character(c)),
    }
}

impl TryFrom<u8> for Card {
    type Error = CardError;

    fn try_from(value: u8) -> (r: Result<Self, Self::Error>) {
        if value == 1 {
            Ok(Card::Ace)
        } else if 2 <= value && value <= 9 {
            Ok(Card::Pip(value))
        } else if value == 10 {
            Ok(Card::Ten)
        } else {
            Err(CardError::Value(value))
        }
    }
}

impl vstd::std_specs::convert::TryFromSpecImpl<u8> for Card {
    open spec fn obeys_try_from_spec() -> bool {
        true
    }

    open spec fn try_from_spec(v: u8) -> Result<Self, Self::Error> {
        card_of_value(v)
    }
}

impl TryFrom<char> for Card {
    type Error = CardError;

    fn try_from(value: char) -> (r: Result<Self, Self::Error>) {
        match value {
            'A' => Ok(Card::Ace),
            '2' => Ok(Card::Pip(2)),
            '3' => Ok(Card::Pip(3)),
            '4' => Ok(Card::Pip(4)),
            '5' => Ok(Card::Pip(5)),
            '6' => Ok(Card::Pip(6)),
            '7' => Ok(Card::Pip(7)),
            '8' => Ok(Card::Pip(8)),
            '9' => Ok(Card::Pip(9)),
            'T' => Ok(Card::Ten),
            _ => Err(CardError::Character(value)),
        }
    }
}

impl vstd::std_specs::convert::TryFromSpecImpl<char> for Card {
    open spec fn obeys_try_from_spec() -> bool {
        true
    }

    open spec fn try_from_spec(v: char) -> Result<Self, Self::Error> {
        card_of_char(v)
    }
}

/// The card at a place of the rank order: the ace at 0, the ten at 9.
pub open spec fn card_at(index: int) -> Card {
    if index <= 0 {
        Card::Ace
    } else if index >= 9 {
        Card::Ten
    } else {
        Card::Pip((index + 1) as u8)
    }
}

impl Card {
    /// Whether this is one of the ten ranks.
    pub open spec fn valid(self) -> bool {
        match self {
            Card::Pip(n) => 2 <= n <= 9,
            _ => true,
        }
    }

    /// What the card counts, the ace as one.
    pub open spec fn value(self) -> int {
        match self {
            Card::Ace => 1,
            Card::Pip(n) => n as int,
            Card::Ten => 10,
        }
    }

    /// The place of the rank in the rank order.
    pub open spec fn rank(self) -> int {
        self.value() - 1
    }

    /// What [`Card::to_text`] writes.
    pub open spec fn written(self) -> Seq<char> {
        match self {
            Card::Ace => "A"@,
            Card::Pip(n) => decimal(n as int),
            Card::Ten => "T"@,
        }
    }

    /// What the card counts, the ace as one.
    pub fn hard(&self) -> (r: u8)
        requires
            self.valid(),
        ensures
            r == self.value(),
            1 <= r <= 10,
    {
        match self {
            Card::Ace => 1,
            Card::Pip(n) => *n,
            Card::Ten => 10,
        }
    }

    /// The place of the rank in the rank order: the ace at 0, a numeral card
    /// `n` at `n - 1`, the ten at 9.
    pub fn rank_index(&self) -> (r: usize)
        requires
            self.valid(),
        ensures
            r == self.rank(),
            r < 10,
    {
        (self.hard() - 1) as usize
    }

    /// The card at a place of the rank order, the inverse of
    /// [`Card::rank_index`].
    pub fn from_rank_index(index: usize) -> (r: Self)
        requires
            index < 10,
        ensures
            r == card_at(index as int),
            r.valid(),
            r.rank() == index,
    {
        if index == 0 {
            Card::Ace
        } else if index == 9 {
            Card::Ten
        } else {
            Card::Pip((index + 1) as u8)
        }
    }

    /// All ten cards in rank order.
    pub fn all() -> (r: Vec<Card>)
        ensures
            r.len() == 10,
            forall|i: int| 0 <= i < 10 ==> #[trigger] r[i] == card_at(i),
    {
        let mut out: Vec<Card> = Vec::new();
        let mut i: usize = 0;
        while i < 10
            invariant
                i <= 10,
                out.len() == i,
                forall|j: int| 0 <= j < i ==> #[trigger] out[j] == card_at(j),
            decreases 10 - i,
        {
            out.push(Card::from_rank_index(i));
            i += 1;
        }
        out
    }

    /// The card as it is written in charts: `A`, `2` to `9` or `T`.
    pub fn to_text(&self) -> (r: String)
        ensures
            r@ == self.written(),
    {
        let mut out = String::new();
        match self {
            Card::Ace => push_text(&mut out, "A"),
            Card::Pip(n) => push_decimal(&mut out, *n as i64),
            Card::Ten => push_text(&mut out, "T"),
        }
        assert(out@ =~= self.written());
        out
    }
}

/// A card is found again at its place in the rank order, and every place holds
/// the card whose place it is.
pub proof fn law_rank_round_trip(card: Card, index: int)
    requires
        card.valid(),
        0 <= index < 10,
    ensures
        0 <= card.rank() < 10,
        card_at(card.rank()) == card,
        card_at(index).valid(),
        card_at(index).rank() == index,
{
}

/// What is written for a card reads back as that card: by its character and
/// by its value.
pub proof fn law_card_reads_back(card: Card)
    requires
        card.valid(),
    ensures
        card.written().len() == 1,
        card_of_char(card.written()[0]) == Ok::<Card, CardError>(card),
        card_of_value(card.value() as u8) == Ok::<Card, CardError>(card),
{
    reveal_strlit("A");
    reveal_strlit("T");
}

} // verus!
