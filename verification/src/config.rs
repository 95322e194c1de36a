//! What the chart is solved for: the shoe, and the count where there is one.
use crate::card::Card;
use crate::column::{
    count_penetration, count_penetration_spec, counted_states, enterable, is_column,
    is_counted_column, solve_counted, solve_on, Column,
};
use crate::count::{
    cond_for_frame, frame_of, frameable, CountCmp, CountKind, CountSystemId, TC_HALF_UNITS,
};
use crate::countshoe::{CountShoe, CountState};
use crate::drawing::{InfiniteDeck, Shoe};
use crate::num::{one, whole, Scalar};
use crate::rules::Ruleset;
use crate::shoe::{deck_tally, single, tally_bounds, CardCol};
use crate::simulation::{insurance_ev, natural_chance};
use crate::text::{digits, push_decimal, push_signed, push_text, signed};
use vstd::prelude::*;
use vstd::string::*;

verus! {

broadcast use tally_bounds;

/// A count that the chart is solved under: the system, the value that the player's
/// count is compared with, and how. A true count is entered in halves.
#[derive(Clone, Copy, PartialEq, Eq, Structural, Debug)]
pub struct CountSetting {
    pub external: i16,
    pub how: CountCmp,
    pub system: CountSystemId,
}

/// A number of halves in decimal with its sign: `+1.5`.
pub open spec fn halves_text(n: int) -> Seq<char> {
    if n % 2 == 0 {
        signed(n / 2)
    } else if n < 0 {
        seq!['-'] + digits(((-n) / 2) as nat) + seq!['.', '5']
    } else {
        seq!['+'] + digits((n / 2) as nat) + seq!['.', '5']
    }
}

/// Append a number of halves.
fn push_halves(out: &mut String, n: i16)
    ensures
        final(out)@ == old(out)@ + halves_text(n as int),
{
    let m: i64 = n as i64;
    let size: i64 = if m < 0 {
        -m
    } else {
        m
    };
    let whole_part: i64 = size / 2;
    if size % 2 == 0 {
        let signed_part: i64 = if m < 0 {
            -whole_part
        } else {
            whole_part
        };
        assert(signed_part == n as int / 2);
        push_signed(out, signed_part);
    } else {
        let ghost before = out@;
        out.push(if m < 0 { '-' } else { '+' });
        push_decimal(out, whole_part);
        out.push('.');
        out.push('5');
        proof {
            assert(out@ =~= before + halves_text(n as int));
        }
    }
}

impl CountSetting {
    pub open spec fn comparison_spec(self) -> Seq<char> {
        match self.how {
            CountCmp::Eq => "=="@,
            CountCmp::Ge => ">="@,
            CountCmp::Le => "<="@,
        }
    }

    pub open spec fn axis_spec(self) -> Seq<char> {
        match self.system.kind_spec() {
            CountKind::Running => "RC"@,
            CountKind::TrueCount => "TC"@,
        }
    }

    pub open spec fn value_text(self) -> Seq<char> {
        match self.system.kind_spec() {
            CountKind::Running => signed(self.external as int),
            CountKind::TrueCount => halves_text(self.external as int),
        }
    }

    pub open spec fn label_spec(self) -> Seq<char> {
        self.system.label_spec() + " "@ + self.axis_spec() + self.comparison_spec()
            + self.value_text()
    }

    /// Where the player stands on the axis of the count index: a true count in
    /// between belongs to the whole one below it.
    pub open spec fn axis_value(self) -> int {
        match self.system.kind_spec() {
            CountKind::Running => self.external as int,
            CountKind::TrueCount => self.external as int / 2,
        }
    }

    /// How the count is compared.
    pub fn cmp_label(self) -> (r: &'static str)
        ensures
            r@ == self.comparison_spec(),
    {
        match self.how {
            CountCmp::Eq => "==",
            CountCmp::Ge => ">=",
            CountCmp::Le => "<=",
        }
    }

    /// The name of the system.
    pub fn system_label(self) -> (r: &'static str)
        ensures
            r@ == self.system.label_spec(),
    {
        self.system.label()
    }

    /// What is counted: the running count or the true count.
    pub fn axis_label(self) -> (r: &'static str)
        ensures
            r@ == self.axis_spec(),
    {
        match self.system.kind() {
            CountKind::Running => "RC",
            CountKind::TrueCount => "TC",
        }
    }

    /// The value with its sign.
    pub fn value_str(self) -> (r: String)
        ensures
            r@ == self.value_text(),
    {
        let mut out = String::new();
        match self.system.kind() {
            CountKind::Running => push_signed(&mut out, self.external as i64),
            CountKind::TrueCount => push_halves(&mut out, self.external),
        }
        assert(out@ =~= self.value_text());
        out
    }

    /// Where the player stands on the axis of the count index.
    pub fn index_axis_value(self) -> (r: i16)
        ensures
            r == self.axis_value(),
    {
        match self.system.kind() {
            CountKind::Running => self.external,
            CountKind::TrueCount => match self.external.checked_div_euclid(TC_HALF_UNITS) {
                Some(q) => q,
                None => 0,
            },
        }
    }

    /// The whole condition: `KO RC>=+4`.
    pub fn label(self) -> (r: String)
        ensures
            r@ == self.label_spec(),
    {
        let mut out = String::new();
        push_text(&mut out, self.system_label());
        push_text(&mut out, " ");
        push_text(&mut out, self.axis_label());
        push_text(&mut out, self.cmp_label());
        push_text(&mut out, self.value_str().as_str());
        proof {
            assert(out@ =~= self.label_spec());
        }
        out
    }
}

/// The shoe that the chart is solved for.
#[derive(Clone, Copy, PartialEq, Eq, Structural, Debug)]
pub enum ShoeChoice {
    Infinite,
    Decks(u8),
}

/// The value of the insurance bet once the up-card has been taken out.
pub open spec fn insured<N: Scalar, S: Shoe<N>>(s: S::State) -> N {
    whole::<N>(3).times_spec(
        natural_chance::<N, S>(S::without(s, single(Card::Ace)), Card::Ace),
    ).minus_spec(one::<N>())
}

/// Take the ace out of a shoe and value the insurance bet.
fn insurance_after_up<N: Scalar, S: Shoe<N>>(shoe: S) -> (r: N)
    requires
        S::supply(shoe.state(), 0) != Some(0nat),
    ensures
        r == insured::<N, S>(shoe.state()),
{
    let mut shoe = shoe;
    shoe.draw(&Card::Ace);
    insurance_ev(Card::Ace, &shoe)
}

impl ShoeChoice {
    pub open spec fn written(self) -> Seq<char> {
        match self {
            ShoeChoice::Infinite => seq!['\u{221e}'],
            ShoeChoice::Decks(n) => digits(n as nat),
        }
    }

    /// The number of decks.
    pub fn to_text(&self) -> (r: String)
        ensures
            r@ == self.written(),
    {
        let mut out = String::new();
        match self {
            ShoeChoice::Infinite => out.push('\u{221e}'),
            ShoeChoice::Decks(n) => push_decimal(&mut out, *n as i64),
        }
        assert(out@ =~= self.written());
        out
    }

    /// Whether a column is that of this shoe under this count. The infinite deck
    /// has no count.
    pub open spec fn is_solved<N: Scalar>(
        self,
        c: Column<N>,
        up: Card,
        rules: Ruleset,
        count: Option<CountSetting>,
    ) -> bool {
        match self {
            ShoeChoice::Infinite => is_column::<N, InfiniteDeck>(c, (), up, rules),
            ShoeChoice::Decks(n) => match count {
                Some(k) => is_counted_column::<N>(
                    c,
                    counted_states(k.system, n as int, k.external, k.how, up),
                    k.system.values(),
                    up,
                    rules,
                    2 - k.system.value(up),
                ),
                None => is_column::<N, CardCol>(c, deck_tally(n as nat), up, rules),
            },
        }
    }

    /// Solve the column of one up-card.
    pub fn solve<N: Scalar>(self, up_card: Card, rules: &Ruleset, count: Option<CountSetting>) -> (r:
        Column<N>)
        requires
            up_card.valid(),
            self matches ShoeChoice::Decks(n) ==> n > 0 && (count matches Some(c) ==> enterable(
                c.system,
                n as int,
                c.external as int,
                c.how,
                up_card,
            )),
        ensures
            self.is_solved(r, up_card, *rules, count),
    {
        match self {
            ShoeChoice::Infinite => solve_on(&InfiniteDeck {}, up_card, rules),
            ShoeChoice::Decks(n) => match count {
                Some(c) => solve_counted(c.system, n, c.external, c.how, up_card, rules),
                None => solve_on(&CardCol::from_decks(n), up_card, rules),
            },
        }
    }

    /// What the insurance bet is worth. The count entered covers the dealer's ace.
    pub open spec fn insurance_value<N: Scalar>(self, count: Option<CountSetting>) -> N {
        match self {
            ShoeChoice::Infinite => insured::<N, InfiniteDeck>(()),
            ShoeChoice::Decks(n) => match count {
                Some(c) => insured::<N, CountShoe<N>>(
                    CountState::fresh(
                        c.system.values(),
                        deck_tally(n as nat),
                        frame_of(c.system, n as int, c.external, c.how, Card::Ace, 0, 1),
                        count_penetration_spec(),
                    ),
                ),
                None => insured::<N, CardCol>(deck_tally(n as nat)),
            },
        }
    }

    /// What the insurance bet is worth.
    pub fn insurance<N: Scalar>(self, count: Option<CountSetting>) -> (r: N)
        requires
            self matches ShoeChoice::Decks(n) ==> n > 0 && (count matches Some(c) ==> frameable(
                c.system,
                n as int,
                c.external as int,
                c.how,
                Card::Ace,
                0,
            )),
        ensures
            r == self.insurance_value::<N>(count),
    {
        match self {
            ShoeChoice::Infinite => insurance_after_up(InfiniteDeck {}),
            ShoeChoice::Decks(n) => match count {
                Some(c) => {
                    let frame = cond_for_frame(c.system, n, c.external, c.how, Card::Ace, 0, 1);
                    let shoe: CountShoe<N> = CountShoe::framed(
                        c.system,
                        n,
                        frame,
                        count_penetration(),
                    );
                    insurance_after_up(shoe)
                },
                None => insurance_after_up(CardCol::from_decks(n)),
            },
        }
    }

    /// The shoes to choose from.
    pub fn options() -> (r: [ShoeChoice; 6])
        ensures
            r@ == seq![
                ShoeChoice::Infinite,
                ShoeChoice::Decks(1),
                ShoeChoice::Decks(2),
                ShoeChoice::Decks(4),
                ShoeChoice::Decks(6),
                ShoeChoice::Decks(8),
            ],
    {
        let r = [
            ShoeChoice::Infinite,
            ShoeChoice::Decks(1),
            ShoeChoice::Decks(2),
            ShoeChoice::Decks(4),
            ShoeChoice::Decks(6),
            ShoeChoice::Decks(8),
        ];
        assert(r@ =~= seq![
            ShoeChoice::Infinite,
            ShoeChoice::Decks(1),
            ShoeChoice::Decks(2),
            ShoeChoice::Decks(4),
            ShoeChoice::Decks(6),
            ShoeChoice::Decks(8),
        ]);
        r
    }
}

} // verus!
