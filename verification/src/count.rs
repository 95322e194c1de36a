//! Card counting: the systems, and the conditions that a count puts on the
//! cards still unseen.
//!
//! The player tallies the cards that are gone (the external count). The solver
//! needs the tally of the cards that are left (the internal count). The two
//! always add up to the system's pivot.
use crate::card::{card_at, Card};
use crate::num::{from_whole, one, zero, Scalar};
use crate::shoe::{deck_tally, tally_bounds, CardCol, Tally, N_RANKS};
use vstd::prelude::*;

verus! {

broadcast use tally_bounds;

/// What a count is acted on.
#[derive(Clone, Copy, PartialEq, Eq, Structural, Debug)]
pub enum CountKind {
    /// The running count itself.
    Running,
    /// The running count per deck that is left.
    TrueCount,
}

/// A counting system.
#[derive(Clone, Copy, PartialEq, Eq, Structural, Debug)]
pub enum CountSystemId {
    /// The unbalanced knock-out running count.
    Ko,
    /// The balanced Hi-Lo true count.
    HiLo,
    /// The balanced Ace-Five running count.
    AceFive,
}

/// How many systems there are.
pub const N_SYSTEMS: i32 = 3;

/// Cards in a deck.
pub const CARDS_PER_DECK: i16 = 52;

/// A true count is entered in units of one over this.
pub const TC_HALF_UNITS: i16 = 2;

/// The system at a place of the menu.
pub open spec fn system_at(place: int) -> CountSystemId {
    if place == 0 {
        CountSystemId::Ko
    } else if place == 1 {
        CountSystemId::HiLo
    } else {
        CountSystemId::AceFive
    }
}

/// The count value of the first `k` ranks of a tally, where a card of the rank
/// at place `i` counts `values[i]`.
pub open spec fn count_upto(values: Seq<i16>, t: Tally, k: int) -> int
    decreases k,
{
    if k <= 0 {
        0
    } else {
        count_upto(values, t, k - 1) + values[k - 1] * t[k - 1]
    }
}

/// The count value of a tally.
pub open spec fn count_of(values: Seq<i16>, t: Tally) -> int {
    count_upto(values, t, 10)
}

impl CountSystemId {
    /// The place of the system in the menu.
    pub open spec fn place(self) -> int {
        match self {
            CountSystemId::Ko => 0,
            CountSystemId::HiLo => 1,
            CountSystemId::AceFive => 2,
        }
    }

    pub open spec fn kind_spec(self) -> CountKind {
        match self {
            CountSystemId::HiLo => CountKind::TrueCount,
            _ => CountKind::Running,
        }
    }

    /// What a card counts.
    pub open spec fn value(self, card: Card) -> i16 {
        match self {
            CountSystemId::Ko => match card {
                Card::Pip(n) => if n <= 7 { 1 } else { 0 },
                _ => (-1) as i16,
            },
            CountSystemId::HiLo => match card {
                Card::Pip(n) => if n <= 6 { 1 } else { 0 },
                _ => (-1) as i16,
            },
            CountSystemId::AceFive => match card {
                Card::Ace => (-1) as i16,
                Card::Pip(n) => if n == 5 { 1 } else { 0 },
                Card::Ten => 0,
            },
        }
    }

    /// What a card of each rank counts.
    pub open spec fn values(self) -> Seq<i16> {
        Seq::new(10, |i: int| self.value(card_at(i)))
    }

    /// What the player starts counting from.
    pub open spec fn start(self, n_decks: int) -> int {
        match self {
            CountSystemId::Ko => 4 - 4 * n_decks,
            _ => 0,
        }
    }

    /// The count value of a full shoe.
    pub open spec fn full(self, n_decks: int) -> int {
        count_of(self.values(), deck_tally(n_decks as nat))
    }

    /// What the external and the internal count add up to.
    pub open spec fn pivot_spec(self, n_decks: int) -> int {
        match self {
            CountSystemId::Ko => 4,
            _ => 0,
        }
    }

    pub open spec fn label_spec(self) -> Seq<char> {
        match self {
            CountSystemId::Ko => "KO"@,
            CountSystemId::HiLo => "Hi-Lo"@,
            CountSystemId::AceFive => "Ace-Five"@,
        }
    }

    pub open spec fn notes_spec(self) -> Seq<&'static str> {
        match self {
            CountSystemId::Ko => seq![
                "Unbalanced: the IRC offsets by deck count so the pivot is a fixed +4.",
                "Act on the running count directly — no true-count division.",
            ],
            CountSystemId::HiLo => seq![
                "Balanced: divide the running count by decks remaining for the true count, and act\non that. Indices are quoted in true count.",
            ],
            CountSystemId::AceFive => seq![
                "Minimal training-wheels count - only Aces (-1) and 5s (+1).",
                "Balanced, but played as a raw running count (no true-count division).",
                "6-deck: edge is ~break-even at the key count even early",
                "8-deck warning: a fixed RC overrates the edge early in the shoe. At the key count\nthe first ~third of the shoe is still ~-0.14% EV. Be conservative early — only raise your bet past\nabout half the shoe.",
            ],
        }
    }

    /// The systems in the order of the menu.
    pub fn all() -> (r: [CountSystemId; 3])
        ensures
            forall|i: int| 0 <= i < 3 ==> #[trigger] r@[i] == system_at(i),
    {
        [CountSystemId::Ko, CountSystemId::HiLo, CountSystemId::AceFive]
    }

    /// The system that is `delta` places on in the menu, round and round.
    pub fn cycle(self, delta: i32) -> (r: CountSystemId)
        requires
            self.place() + delta <= i32::MAX,
        ensures
            r == system_at((self.place() + delta) % 3),
    {
        let cur: i32 = match self {
            CountSystemId::Ko => 0,
            CountSystemId::HiLo => 1,
            CountSystemId::AceFive => 2,
        };
        let at: i32 = match (cur + delta).checked_rem_euclid(N_SYSTEMS) {
            Some(p) => p,
            None => 0,
        };
        if at == 0 {
            CountSystemId::Ko
        } else if at == 1 {
            CountSystemId::HiLo
        } else {
            CountSystemId::AceFive
        }
    }

    /// What the count is acted on.
    pub fn kind(self) -> (r: CountKind)
        ensures
            r == self.kind_spec(),
    {
        match self {
            CountSystemId::HiLo => CountKind::TrueCount,
            _ => CountKind::Running,
        }
    }

    /// What a card counts.
    pub fn map(self, card: &Card) -> (r: i16)
        ensures
            r == self.value(*card),
            -1 <= r <= 1,
    {
        match self {
            CountSystemId::Ko => match card {
                Card::Pip(n) => if *n <= 7 { 1 } else { 0 },
                _ => -1,
            },
            CountSystemId::HiLo => match card {
                Card::Pip(n) => if *n <= 6 { 1 } else { 0 },
                _ => -1,
            },
            CountSystemId::AceFive => match card {
                Card::Ace => -1,
                Card::Pip(n) => if *n == 5 { 1 } else { 0 },
                Card::Ten => 0,
            },
        }
    }

    /// What a card of each rank counts.
    pub fn value_of_rank(self) -> (r: [i16; 10])
        ensures
            r@ == self.values(),
    {
        let mut values: [i16; 10] = [0; 10];
        let mut i: usize = 0;
        while i < N_RANKS
            invariant
                i <= 10,
                forall|j: int| 0 <= j < i ==> #[trigger] values@[j] == self.value(card_at(j)),
            decreases 10 - i,
        {
            values[i] = self.map(&Card::from_rank_index(i));
            i += 1;
        }
        assert(values@ =~= self.values());
        values
    }

    /// What the player starts counting from.
    pub fn starting_count(self, n_decks: u8) -> (r: i16)
        ensures
            r == self.start(n_decks as int),
    {
        match self {
            CountSystemId::Ko => 4 - 4 * (n_decks as i16),
            _ => 0,
        }
    }

    /// The count value of a full shoe.
    pub fn full_shoe_count(self, n_decks: u8) -> (r: i16)
        ensures
            r == self.full(n_decks as int),
            r == match self {
                CountSystemId::Ko => 4 * n_decks,
                _ => 0,
            },
    {
        proof {
            law_full_shoe_counts(self, n_decks as int);
        }
        let deck = CardCol::from_decks(n_decks);
        let mut sum: i16 = 0;
        let mut i: usize = 0;
        while i < N_RANKS
            invariant
                i <= 10,
                deck@ == deck_tally(n_decks as nat),
                sum == count_upto(self.values(), deck@, i as int),
                i <= 9 ==> -(4 * n_decks * i) <= sum <= 4 * n_decks * i,
            decreases 10 - i,
        {
            let v: i16 = self.map(&Card::from_rank_index(i));
            let quant: u16 = deck.get_count_i(i);
            assert(v == self.values()[i as int]);
            assert(quant <= 16 * n_decks);
            assert(i < 9 ==> quant == 4 * n_decks);
            assert(-16 * n_decks <= v * quant <= 16 * n_decks && (i < 9 ==> -4 * n_decks <= v
                * quant <= 4 * n_decks)) by {
                assert(v == -1 || v == 0 || v == 1);
                assert(v * quant == if v == -1 { -quant } else if v == 0 { 0 } else { quant as int })
                    by (nonlinear_arith)
                    requires
                        v == -1 || v == 0 || v == 1,
                ;
            }
            assert(4 * n_decks * (i + 1) == 4 * n_decks * i + 4 * n_decks) by (nonlinear_arith);
            assert(4 * n_decks * i <= 4 * n_decks * 9) by (nonlinear_arith)
                requires
                    i <= 9,
            ;
            sum = sum + v * (quant as i16);
            i += 1;
        }
        sum
    }

    /// What the external and the internal count add up to.
    pub fn pivot(self, n_decks: u8) -> (r: i16)
        ensures
            r == self.pivot_spec(n_decks as int),
    {
        proof {
            law_full_shoe_counts(self, n_decks as int);
        }
        self.starting_count(n_decks) + self.full_shoe_count(n_decks)
    }

    /// Whether a full shoe counts to zero.
    pub fn balanced(self, n_decks: u8) -> (r: bool)
        ensures
            r == (self.full(n_decks as int) == 0),
    {
        self.full_shoe_count(n_decks) == 0
    }

    /// The internal count that goes with an external one.
    pub fn external_to_internal(self, n_decks: u8, external: i16) -> (r: i16)
        requires
            i16::MIN <= self.pivot_spec(n_decks as int) - external <= i16::MAX,
        ensures
            r == self.pivot_spec(n_decks as int) - external,
    {
        self.pivot(n_decks) - external
    }

    /// The external count that goes with an internal one.
    pub fn internal_to_external(self, n_decks: u8, internal: i16) -> (r: i16)
        requires
            i16::MIN <= self.pivot_spec(n_decks as int) - internal <= i16::MAX,
        ensures
            r == self.pivot_spec(n_decks as int) - internal,
    {
        self.pivot(n_decks) - internal
    }

    /// The name of the system.
    pub fn label(self) -> (r: &'static str)
        ensures
            r@ == self.label_spec(),
    {
        match self {
            CountSystemId::Ko => "KO",
            CountSystemId::HiLo => "Hi-Lo",
            CountSystemId::AceFive => "Ace-Five",
        }
    }

    /// What is to be minded when the system is used.
    pub fn notes(self) -> (r: Vec<&'static str>)
        ensures
            r@ == self.notes_spec(),
    {
        let r: Vec<&'static str> = match self {
            CountSystemId::Ko => vec![
                "Unbalanced: the IRC offsets by deck count so the pivot is a fixed +4.",
                "Act on the running count directly — no true-count division.",
            ],
            CountSystemId::HiLo => vec![
                "Balanced: divide the running count by decks remaining for the true count, and act\non that. Indices are quoted in true count.",
            ],
            CountSystemId::AceFive => vec![
                "Minimal training-wheels count - only Aces (-1) and 5s (+1).",
                "Balanced, but played as a raw running count (no true-count division).",
                "6-deck: edge is ~break-even at the key count even early",
                "8-deck warning: a fixed RC overrates the edge early in the shoe. At the key count\nthe first ~third of the shoe is still ~-0.14% EV. Be conservative early — only raise your bet past\nabout half the shoe.",
            ],
        };
        assert(r@ =~= self.notes_spec());
        r
    }
}

/// What is asked of the internal count `s` and the number `n` of the cards left.
#[derive(Clone, Copy, PartialEq, Eq, Structural, Debug)]
pub enum CountCondition {
    /// The internal count is this.
    Eq(i16),
    /// The internal count is at least this.
    Ge(i16),
    /// The internal count is at most this.
    Le(i16),
    /// The true count is at least `cutoff` halves.
    TrueGe { cutoff: i16 },
    /// The true count is at most `cutoff` halves.
    TrueLe { cutoff: i16 },
}

impl CountCondition {
    /// Whether an internal count `s` over `n` cards meets the condition. The
    /// true count is `-52 * s / n`; it is compared with `cutoff / 2` by
    /// multiplying both out.
    pub open spec fn holds(self, s: int, n: int) -> bool {
        match self {
            CountCondition::Eq(c) => s == c,
            CountCondition::Ge(c) => s >= c,
            CountCondition::Le(c) => s <= c,
            CountCondition::TrueGe { cutoff } => n > 0 && -52 * s * 2 >= cutoff * n,
            CountCondition::TrueLe { cutoff } => n > 0 && -52 * s * 2 <= cutoff * n,
        }
    }
}

/// A condition and the cards on the table that the player has counted already:
/// their count value and their number.
#[derive(Clone, Copy, PartialEq, Eq, Structural, Debug)]
pub struct CountFrame {
    pub cond: CountCondition,
    pub vis_sum: i16,
    pub vis_cards: u16,
}

impl CountFrame {
    /// Whether the cards of a shoe before the round, with internal count
    /// `root_s` and number `root_n`, are admitted: the visible cards are taken
    /// off before the condition is asked.
    pub open spec fn accepts_spec(self, root_s: int, root_n: int) -> bool {
        self.cond.holds(root_s - self.vis_sum, root_n - self.vis_cards)
    }

    /// The frame in which no visible cards are counted.
    pub open spec fn before_round(cond: CountCondition) -> CountFrame {
        CountFrame { cond, vis_sum: 0, vis_cards: 0 }
    }

    /// The frame in which no visible cards are counted.
    pub fn pre_round(cond: CountCondition) -> (r: CountFrame)
        ensures
            r == CountFrame::before_round(cond),
    {
        CountFrame { cond, vis_sum: 0, vis_cards: 0 }
    }

    /// Whether a shoe with this internal count and this number of cards before
    /// the round is admitted.
    pub fn accepts(&self, root_s: i32, root_n: i32) -> (r: bool)
        ensures
            r == self.accepts_spec(root_s as int, root_n as int),
    {
        let s: i64 = root_s as i64 - self.vis_sum as i64;
        let n: i64 = root_n as i64 - self.vis_cards as i64;
        let per_deck: i64 = CARDS_PER_DECK as i64;
        let halves: i64 = TC_HALF_UNITS as i64;
        assert(per_deck == 52 && halves == 2);
        let f: i64 = per_deck * halves;
        assert(f == 104) by (nonlinear_arith)
            requires
                f == per_deck * halves,
                per_deck == 52,
                halves == 2,
        ;
        assert(-f * s == -52 * s * 2) by (nonlinear_arith)
            requires
                f == 104,
        ;
        match self.cond {
            CountCondition::Eq(c) => s == c as i64,
            CountCondition::Ge(c) => s >= c as i64,
            CountCondition::Le(c) => s <= c as i64,
            CountCondition::TrueGe { cutoff } => {
                assert(-0x1_0000_0000_0000 <= cutoff * n <= 0x1_0000_0000_0000) by (nonlinear_arith)
                    requires
                        -0x8000 <= cutoff <= 0x8000,
                        -0x1_0000_0000 <= n <= 0x1_0000_0000,
                ;
                n > 0 && -f * s >= cutoff as i64 * n
            },
            CountCondition::TrueLe { cutoff } => {
                assert(-0x1_0000_0000_0000 <= cutoff * n <= 0x1_0000_0000_0000) by (nonlinear_arith)
                    requires
                        -0x8000 <= cutoff <= 0x8000,
                        -0x1_0000_0000 <= n <= 0x1_0000_0000,
                ;
                n > 0 && -f * s <= cutoff as i64 * n
            },
        }
    }
}

/// What is known of how many cards are left.
#[derive(Clone, Copy, PartialEq, Eq, Structural, Debug)]
pub enum Penetration {
    /// Every number that is at least this percentage of the full pool is as likely
    /// as any other.
    FlatPastPercent(u8),
    /// This many.
    CardsRemaining(u16),
}

impl Penetration {
    /// Whether `n` of `big_n` cards may be left.
    pub open spec fn admits_spec(self, n: int, big_n: int) -> bool {
        match self {
            Penetration::FlatPastPercent(pct) => 100 * n >= big_n * pct,
            Penetration::CardsRemaining(k) => n == k,
        }
    }

    /// What is known after `k` cards have been drawn.
    pub open spec fn after(self, k: int) -> Penetration {
        match self {
            Penetration::FlatPastPercent(pct) => self,
            Penetration::CardsRemaining(left) => Penetration::CardsRemaining(
                if left > k { (left - k) as u16 } else { 0 },
            ),
        }
    }

    /// Whether `n` of `big_n` cards may be left.
    pub fn admits(&self, n: u16, big_n: u16) -> (r: bool)
        ensures
            r == self.admits_spec(n as int, big_n as int),
    {
        match self {
            Penetration::FlatPastPercent(pct) => {
                assert(big_n * *pct <= 65535 * 255) by (nonlinear_arith)
                    requires
                        big_n <= 65535,
                        *pct <= 255,
                ;
                100 * n as u32 >= big_n as u32 * *pct as u32
            },
            Penetration::CardsRemaining(k) => n == *k,
        }
    }

    /// The weight of `n` of `big_n` cards being left.
    pub fn weight<N: Scalar>(&self, n: u16, big_n: u16) -> (r: N)
        ensures
            r == if self.admits_spec(n as int, big_n as int) {
                one::<N>()
            } else {
                zero::<N>()
            },
    {
        if self.admits(n, big_n) {
            from_whole(1)
        } else {
            from_whole(0)
        }
    }

    /// What is known after `k` more cards have been drawn.
    pub fn after_draws(self, k: usize) -> (r: Penetration)
        ensures
            r == self.after(k as int),
    {
        match self {
            Penetration::FlatPastPercent(pct) => Penetration::FlatPastPercent(pct),
            Penetration::CardsRemaining(left) => Penetration::CardsRemaining(
                if left as usize > k { (left as usize - k) as u16 } else { 0 },
            ),
        }
    }

    /// What is known after one more card has been drawn.
    pub fn after_draw(self) -> (r: Penetration)
        ensures
            r == self.after(1),
    {
        match self {
            Penetration::FlatPastPercent(pct) => Penetration::FlatPastPercent(pct),
            Penetration::CardsRemaining(k) => Penetration::CardsRemaining(
                if k > 1 { k - 1 } else { 0 },
            ),
        }
    }
}

/// How the player's count is compared with the value entered.
#[derive(Clone, Copy, PartialEq, Eq, Structural, Debug)]
pub enum CountCmp {
    Eq,
    Ge,
    Le,
}

impl CountCmp {
    /// Whether a count compares so with the value entered.
    pub open spec fn compares(self, count: int, value: int) -> bool {
        match self {
            CountCmp::Eq => count == value,
            CountCmp::Ge => count >= value,
            CountCmp::Le => count <= value,
        }
    }
}

/// The condition on the internal count where the external count is compared
/// with `pivot - internal`: high counts of the player are low counts of the
/// cards that are left.
pub open spec fn running_condition(internal: i16, how: CountCmp) -> CountCondition {
    match how {
        CountCmp::Eq => CountCondition::Eq(internal),
        CountCmp::Ge => CountCondition::Le(internal),
        CountCmp::Le => CountCondition::Ge(internal),
    }
}

/// The condition on the true count. There is none for equality.
pub open spec fn true_condition(cutoff: i16, how: CountCmp) -> CountCondition {
    match how {
        CountCmp::Ge => CountCondition::TrueGe { cutoff },
        _ => CountCondition::TrueLe { cutoff },
    }
}

/// Whether a count of the player's can be turned into one of the cards left.
pub open spec fn convertible(system: CountSystemId, n_decks: int, external: int) -> bool {
    &&& i16::MIN <= external <= i16::MAX
    &&& i16::MIN <= system.pivot_spec(n_decks) - external <= i16::MAX
}

/// The condition of a running count that is compared with `external`.
pub open spec fn external_condition(
    system: CountSystemId,
    n_decks: int,
    external: int,
    how: CountCmp,
) -> CountCondition {
    running_condition(to_i16(system.pivot_spec(n_decks) - external), how)
}

/// A number in sixteen bits.
pub open spec fn to_i16(x: int) -> i16 {
    x as i16
}

/// The condition on the internal count for an external count compared so with
/// `external`.
pub fn cond_from_external(
    system: CountSystemId,
    n_decks: u8,
    external: i16,
    how: CountCmp,
) -> (r: CountCondition)
    requires
        convertible(system, n_decks as int, external as int),
    ensures
        r == external_condition(system, n_decks as int, external as int, how),
{
    let internal: i16 = system.external_to_internal(n_decks, external);
    match how {
        CountCmp::Eq => CountCondition::Eq(internal),
        CountCmp::Ge => CountCondition::Le(internal),
        CountCmp::Le => CountCondition::Ge(internal),
    }
}

/// The condition for the true count compared so with `cutoff` halves.
fn true_cond(how: CountCmp, cutoff: i16) -> (r: CountCondition)
    requires
        how != CountCmp::Eq,
    ensures
        r == true_condition(cutoff, how),
{
    match how {
        CountCmp::Ge => CountCondition::TrueGe { cutoff },
        _ => CountCondition::TrueLe { cutoff },
    }
}

/// The condition for the count that the system is played by, before the round:
/// a running count in units, a true count in halves. A true count is never
/// compared for equality.
pub fn cond_from_count(system: CountSystemId, n_decks: u8, value: i16, how: CountCmp) -> (r:
    CountCondition)
    requires
        match system.kind_spec() {
            CountKind::Running => convertible(system, n_decks as int, value as int),
            CountKind::TrueCount => how != CountCmp::Eq,
        },
    ensures
        r == match system.kind_spec() {
            CountKind::Running => external_condition(system, n_decks as int, value as int, how),
            CountKind::TrueCount => true_condition(value, how),
        },
{
    match system.kind() {
        CountKind::Running => cond_from_external(system, n_decks, value, how),
        CountKind::TrueCount => true_cond(how, value),
    }
}

/// Whether a frame can be made for this count.
pub open spec fn frameable(
    system: CountSystemId,
    n_decks: int,
    value: int,
    how: CountCmp,
    up: Card,
    k: int,
) -> bool {
    &&& i16::MIN <= system.value(up) + k <= i16::MAX
    &&& match system.kind_spec() {
        CountKind::Running => convertible(system, n_decks, value - system.value(up) - k),
        CountKind::TrueCount => how != CountCmp::Eq,
    }
}

/// The frame in which the count entered covers the up-card and a hand of count
/// value `k`, `vis_cards` cards in all. A running count is put back to what it
/// was before the round. A true count keeps its value and the frame takes the
/// visible cards off the shoe.
pub open spec fn frame_of(
    system: CountSystemId,
    n_decks: int,
    value: i16,
    how: CountCmp,
    up: Card,
    k: int,
    vis_cards: u16,
) -> CountFrame {
    match system.kind_spec() {
        CountKind::Running => CountFrame::before_round(
            external_condition(system, n_decks, value - system.value(up) - k, how),
        ),
        CountKind::TrueCount => CountFrame {
            cond: true_condition(value, how),
            vis_sum: to_i16(system.value(up) + k),
            vis_cards,
        },
    }
}

/// The frame in which the count entered covers the up-card and a hand of count
/// value `k`.
pub fn cond_for_frame(
    system: CountSystemId,
    n_decks: u8,
    value: i16,
    how: CountCmp,
    up: Card,
    k: i16,
    vis_cards: u16,
) -> (r: CountFrame)
    requires
        frameable(system, n_decks as int, value as int, how, up, k as int),
    ensures
        r == frame_of(system, n_decks as int, value, how, up, k as int, vis_cards),
{
    let vis_sum: i16 = system.map(&up) + k;
    match system.kind() {
        CountKind::Running => CountFrame::pre_round(
            cond_from_external(system, n_decks, value - vis_sum, how),
        ),
        CountKind::TrueCount => CountFrame { cond: true_cond(how, value), vis_sum, vis_cards },
    }
}

/// A full shoe counts to four for each deck in KO, and to zero in the balanced
/// systems; the pivot is four in KO and zero in the others, whatever the number
/// of decks.
pub proof fn law_full_shoe_counts(system: CountSystemId, n_decks: int)
    requires
        n_decks >= 0,
    ensures
        system.full(n_decks) == match system {
            CountSystemId::Ko => 4 * n_decks,
            _ => 0,
        },
        system.pivot_spec(n_decks) == system.start(n_decks) + system.full(n_decks),
{
    reveal_with_fuel(count_upto, 11);
    let t = deck_tally(n_decks as nat);
    let v = system.values();
    let d: int = 4 * n_decks;
    assert(t.len() == 10 && v.len() == 10);
    assert forall|i: int| 0 <= i < 10 implies #[trigger] v[i] * t[i] == if v[i] == 1 {
        t[i] as int
    } else if v[i] == 0 {
        0
    } else {
        -t[i]
    } by {
        let x = v[i];
        let y = t[i];
        assert(x == 1 || x == 0 || x == -1);
        assert(x * y == if x == 1 { y as int } else if x == 0 { 0 } else { -y })
            by (nonlinear_arith)
            requires
                x == 1 || x == 0 || x == -1,
        ;
    }
    assert(v[0] * t[0] == -d);
}

/// The true-count systems are balanced, as the condition on a true count takes
/// for granted.
pub proof fn law_true_counts_are_balanced(system: CountSystemId, n_decks: int)
    requires
        n_decks >= 0,
        system.kind_spec() == CountKind::TrueCount,
    ensures
        system.pivot_spec(n_decks) == 0,
{
    law_full_shoe_counts(system, n_decks);
}

/// The player's count compares with the value entered exactly where the cards
/// left meet the condition made from it: the comparison turns round.
pub proof fn law_external_condition_is_the_comparison(
    system: CountSystemId,
    n_decks: int,
    external: int,
    how: CountCmp,
    internal: int,
    n: int,
)
    requires
        convertible(system, n_decks, external),
    ensures
        external_condition(system, n_decks, external, how).holds(internal, n) == how.compares(
            system.pivot_spec(n_decks) - internal,
            external,
        ),
{
}

/// A true count is compared with `cutoff / 2`, where the true count of `n > 0`
/// cards is their external count times 52 over `n`, and nothing is admitted
/// where no card is left.
pub proof fn law_true_condition_is_the_comparison(cutoff: i16, how: CountCmp, s: int, n: int)
    requires
        how != CountCmp::Eq,
    ensures
        true_condition(cutoff, how).holds(s, n) == (n > 0 && how.compares(
            2 * (52 * (0 - s)),
            cutoff * n,
        )),
{
}

/// The cards on the table do not matter for what a running count asks: the
/// frame admits a shoe exactly where the count that the player then holds, with
/// the up-card and the hand counted, compares with the value entered.
pub proof fn law_running_frame_counts_the_table(
    system: CountSystemId,
    n_decks: int,
    value: i16,
    how: CountCmp,
    up: Card,
    k: int,
    vis_cards: u16,
    root_s: int,
    root_n: int,
)
    requires
        system.kind_spec() == CountKind::Running,
        frameable(system, n_decks, value as int, how, up, k),
    ensures
        frame_of(system, n_decks, value, how, up, k, vis_cards).accepts_spec(root_s, root_n)
            == how.compares(
            system.pivot_spec(n_decks) - root_s + system.value(up) + k,
            value as int,
        ),
{
}

/// The frame of a true count admits a shoe exactly where the cards left once
/// the visible ones are gone meet the condition.
pub proof fn law_true_frame_counts_the_table(
    system: CountSystemId,
    n_decks: int,
    value: i16,
    how: CountCmp,
    up: Card,
    k: int,
    vis_cards: u16,
    root_s: int,
    root_n: int,
)
    requires
        system.kind_spec() == CountKind::TrueCount,
        frameable(system, n_decks, value as int, how, up, k),
    ensures
        frame_of(system, n_decks, value, how, up, k, vis_cards).accepts_spec(root_s, root_n)
            == true_condition(value, how).holds(
            root_s - (system.value(up) + k),
            root_n - vis_cards,
        ),
{
}

/// A step on in the menu and a step back lead to the same system, and so do
/// three steps on.
pub proof fn law_cycle_is_round(system: CountSystemId)
    ensures
        system_at((system_at((system.place() + 1) % 3).place() + -1) % 3) == system,
        system_at((system_at((system.place() + -1) % 3).place() + 1) % 3) == system,
        system_at((system.place() + 3) % 3) == system,
{
}

/// The count of two tallies together is the sum of their counts.
pub proof fn law_counts_are_additive(values: Seq<i16>, a: Tally, b: Tally, k: int)
    requires
        a.len() == 10,
        b.len() == 10,
        0 <= k <= 10,
    ensures
        count_upto(values, crate::shoe::joined(a, b), k) == count_upto(values, a, k) + count_upto(
            values,
            b,
            k,
        ),
    decreases k,
{
    if k > 0 {
        law_counts_are_additive(values, a, b, k - 1);
        let v = values[k - 1];
        assert(v * (a[k - 1] + b[k - 1]) == v * a[k - 1] + v * b[k - 1]) by (nonlinear_arith);
    }
}

} // verus!
