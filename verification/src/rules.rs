//! The rules of the table that the solver takes as given.
use crate::num::Scalar;
use vstd::prelude::*;

verus! {

/// When, if ever, the player may give up half the bet instead of playing on.
#[derive(Clone, Copy, Debug, PartialEq, Eq, Hash, Structural)]
pub enum SurrenderRule {
    /// Surrender is not offered.
    Never,
    /// Before the dealer looks for a natural, which escapes a natural too.
    Early,
    /// After the dealer has looked and shown that there is none.
    Late,
}

/// When the player may surrender where the dealer looks for a natural.
#[derive(Clone, Copy, Debug, PartialEq, Eq, Hash, Structural)]
pub enum PeekSurrender {
    Never,
    Early,
    Late,
}

/// Whether the dealer looks for a natural under an ace or a ten, together with
/// the surrender rules that are possible in either case: late surrender comes
/// after the look, so a game without one cannot offer it.
#[derive(Clone, Copy, Debug, PartialEq, Eq, Hash, Structural)]
pub enum PeekRule {
    Peek(PeekSurrender),
    NoPeek { early_surrender: bool },
}

impl PeekRule {
    /// Whether the dealer looks.
    pub open spec fn peeks_spec(self) -> bool {
        self is Peek
    }

    /// The surrender rule.
    pub open spec fn surrender_spec(self) -> SurrenderRule {
        match self {
            PeekRule::Peek(PeekSurrender::Never) => SurrenderRule::Never,
            PeekRule::Peek(PeekSurrender::Early) => SurrenderRule::Early,
            PeekRule::Peek(PeekSurrender::Late) => SurrenderRule::Late,
            PeekRule::NoPeek { early_surrender } => if early_surrender {
                SurrenderRule::Early
            } else {
                SurrenderRule::Never
            },
        }
    }

    /// Whether the dealer looks for a natural.
    pub fn peeks(&self) -> (r: bool)
        ensures
            r == self.peeks_spec(),
    {
        match self {
            PeekRule::Peek(_) => true,
            PeekRule::NoPeek { .. } => false,
        }
    }

    /// The surrender rule.
    pub fn surrender(&self) -> (r: SurrenderRule)
        ensures
            r == self.surrender_spec(),
    {
        match self {
            PeekRule::Peek(PeekSurrender::Never) => SurrenderRule::Never,
            PeekRule::Peek(PeekSurrender::Early) => SurrenderRule::Early,
            PeekRule::Peek(PeekSurrender::Late) => SurrenderRule::Late,
            PeekRule::NoPeek { early_surrender } => if *early_surrender {
                SurrenderRule::Early
            } else {
                SurrenderRule::Never
            },
        }
    }

    /// Whether surrender is offered at all.
    pub fn surrender_offered(&self) -> (r: bool)
        ensures
            r == (self.surrender_spec() != SurrenderRule::Never),
    {
        match self.surrender() {
            SurrenderRule::Never => false,
            _ => true,
        }
    }

    /// The surrender rule in a word.
    pub fn surrender_label(&self) -> (r: &'static str)
        ensures
            r@ == match self.surrender_spec() {
                SurrenderRule::Never => "none"@,
                SurrenderRule::Early => "early"@,
                SurrenderRule::Late => "late"@,
            },
    {
        match self.surrender() {
            SurrenderRule::Never => "none",
            SurrenderRule::Early => "early",
            SurrenderRule::Late => "late",
        }
    }

    /// The rule from its two sides. Late surrender without a look at the hole
    /// card is no game, and there is no rule for it.
    pub fn from_axes(dealer_check: bool, surrender: SurrenderRule) -> (r: Option<PeekRule>)
        ensures
            r is None <==> !dealer_check && surrender == SurrenderRule::Late,
            r matches Some(rule) ==> rule.peeks_spec() == dealer_check && rule.surrender_spec()
                == surrender,
    {
        match (dealer_check, surrender) {
            (true, SurrenderRule::Never) => Some(PeekRule::Peek(PeekSurrender::Never)),
            (true, SurrenderRule::Early) => Some(PeekRule::Peek(PeekSurrender::Early)),
            (true, SurrenderRule::Late) => Some(PeekRule::Peek(PeekSurrender::Late)),
            (false, SurrenderRule::Never) => Some(PeekRule::NoPeek { early_surrender: false }),
            (false, SurrenderRule::Early) => Some(PeekRule::NoPeek { early_surrender: true }),
            (false, SurrenderRule::Late) => None,
        }
    }
}

/// No rule offers late surrender in a game whose dealer does not look.
pub proof fn law_late_surrender_needs_peek(rule: PeekRule)
    ensures
        rule.surrender_spec() == SurrenderRule::Late ==> rule.peeks_spec(),
{
}

/// What a player's natural pays.
#[derive(Clone, Copy, Debug, PartialEq, Eq, Hash, Structural)]
pub enum BjPayout {
    ThreeToTwo,
    SixToFive,
}

impl BjPayout {
    /// What [`BjPayout::multiplier`] returns.
    pub open spec fn multiplier_spec<N: Scalar>(self) -> N {
        match self {
            BjPayout::ThreeToTwo => N::ratio_spec(3, 2),
            BjPayout::SixToFive => N::ratio_spec(6, 5),
        }
    }

    /// The payout as a multiple of the bet.
    pub fn multiplier<N: Scalar>(&self) -> (r: N)
        ensures
            r == self.multiplier_spec::<N>(),
    {
        match self {
            BjPayout::ThreeToTwo => N::ratio(3, 2),
            BjPayout::SixToFive => N::ratio(6, 5),
        }
    }

    /// The payout as it is printed on the felt.
    pub fn label(&self) -> (r: &'static str)
        ensures
            r@ == match self {
                BjPayout::ThreeToTwo => "3:2"@,
                BjPayout::SixToFive => "6:5"@,
            },
    {
        match self {
            BjPayout::ThreeToTwo => "3:2",
            BjPayout::SixToFive => "6:5",
        }
    }
}

/// The rules of the table, but for the number of decks.
#[derive(Clone, Copy, Debug, PartialEq, Eq, Hash, Structural)]
pub struct Ruleset {
    /// Whether the dealer hits soft 17.
    pub hs17: bool,
    /// Whether a hand may be doubled after a split.
    pub das: bool,
    /// Whether the dealer looks for a natural, and the surrender rule.
    pub peek: PeekRule,
    /// What a natural pays. The 21 of a split arm is no natural.
    pub bj_payout: BjPayout,
    /// How many hands splitting may lead to; below two there is no splitting.
    pub max_split_hands: u8,
    /// How many drawn cards are followed from one split arm to the next; arms
    /// that start later are played from the shoe as it was after the split.
    pub split_cards: u8,
}

/// A split budget that no line of play uses up: every arm sees the cards that
/// the arms before it drew.
pub const EXACT_SPLIT: u8 = 255;

/// The rules that a table has unless something else is said.
pub open spec fn default_rules() -> Ruleset {
    Ruleset {
        hs17: true,
        das: true,
        peek: PeekRule::Peek(PeekSurrender::Late),
        bj_payout: BjPayout::ThreeToTwo,
        max_split_hands: 4,
        split_cards: 4,
    }
}

impl Default for Ruleset {
    fn default() -> (r: Self)
        ensures
            r == default_rules(),
    {
        Ruleset {
            hs17: true,
            das: true,
            peek: PeekRule::Peek(PeekSurrender::Late),
            bj_payout: BjPayout::ThreeToTwo,
            max_split_hands: 4,
            split_cards: 4,
        }
    }
}

} // verus!
