//! What the keys do: the cursor, the tabs, and the panels that edit the rules and the
//! count.
use crate::card::Card;
use crate::column::enterable;
use crate::config::{CountSetting, ShoeChoice};
use crate::count::{law_full_shoe_counts, system_at, CountCmp, CountKind, CountSystemId};
use crate::hand::{HandCategory, Move};
use crate::panes::{nth_pane, pane_at, up_card, up_card_at, Pane, N_COLUMNS, N_PANES};
use crate::rules::{default_rules, BjPayout, PeekRule, PeekSurrender, Ruleset};
use crate::training::Phase;
use vstd::prelude::*;

verus! {

/// A key.
#[derive(Clone, Copy, Debug, PartialEq, Eq, Structural)]
pub enum Key {
    Char(char),
    Enter,
    Esc,
    Tab,
    BackTab,
    Left,
    Right,
    Up,
    Down,
    Other,
}

/// The views.
#[derive(Clone, Copy, Debug, PartialEq, Eq, Structural)]
pub enum Tab {
    Strategy,
    Training,
}

/// What lies over the view.
#[derive(Clone, Copy, Debug, PartialEq, Eq, Structural)]
pub enum Mode {
    Normal,
    Popup,
    Rules,
    Count,
}

/// The cell that is selected.
#[derive(Clone, Copy, Debug, PartialEq, Eq, Structural)]
pub struct Cursor {
    pub pane: usize,
    pub row: usize,
    pub col: usize,
}

impl Cursor {
    /// Whether there is such a cell.
    pub open spec fn valid(self) -> bool {
        self.pane < N_PANES && self.row < pane_at(self.pane as int).row_count() && self.col
            < N_COLUMNS
    }
}

/// How many rules can be edited.
pub const RULES_FIELDS: usize = 8;

/// How many parts of the count can be edited: whether it is applied, the comparison, the value
/// and the system.
pub const COUNT_FIELDS: usize = 4;

/// What the keys work on.
#[derive(Clone, Copy, Debug, PartialEq, Eq, Structural)]
pub struct Ui {
    pub rules: Ruleset,
    pub shoe: ShoeChoice,
    pub count_on: bool,
    pub count: CountSetting,
    pub cursor: Cursor,
    pub mode: Mode,
    pub tab: Tab,
    pub rules_sel: usize,
    /// The rules and the shoe when the panel was opened.
    pub rules_before: Ruleset,
    pub shoe_before: ShoeChoice,
    pub count_sel: usize,
    /// The count when the panel was opened.
    pub count_on_before: bool,
    pub count_before: CountSetting,
}

/// What is to be done after a key.
#[derive(Clone, Copy, Debug, PartialEq, Eq, Structural)]
pub enum Action {
    Nothing,
    Quit,
    /// The chart is to be solved again.
    Recompute,
    /// The chart is to be solved again and the training begins at a fresh shoe.
    RulesChanged,
    /// The training tab is entered.
    EnterTraining,
    /// The training session is to do something.
    Train(TrainAction),
}

/// What the training session is to do.
#[derive(Clone, Copy, Debug, PartialEq, Eq, Structural)]
pub enum TrainAction {
    GuessLower,
    GuessHigher,
    SubmitCount,
    CancelCount,
    OpenCount,
    Deal,
    Play(Move),
}

/// Where the training session stands, as far as keys depend on it.
#[derive(Clone, Copy, Debug, PartialEq, Eq, Structural)]
pub struct TrainState {
    pub phase: Phase,
    pub entering_count: bool,
    pub finite: bool,
}

/// The shoe at a place of the menu.
pub open spec fn deck_option(i: int) -> ShoeChoice {
    if i == 0 {
        ShoeChoice::Infinite
    } else if i == 1 {
        ShoeChoice::Decks(1)
    } else if i == 2 {
        ShoeChoice::Decks(2)
    } else if i == 3 {
        ShoeChoice::Decks(4)
    } else if i == 4 {
        ShoeChoice::Decks(6)
    } else {
        ShoeChoice::Decks(8)
    }
}

/// The place of a shoe in the menu, the first where it is not there.
pub open spec fn deck_place(shoe: ShoeChoice) -> int {
    match shoe {
        ShoeChoice::Infinite => 0,
        ShoeChoice::Decks(n) => if n == 1 {
            1
        } else if n == 2 {
            2
        } else if n == 4 {
            3
        } else if n == 6 {
            4
        } else if n == 8 {
            5
        } else {
            0
        },
    }
}

/// The split budget at a place of the menu.
pub open spec fn split_option(i: int) -> u8 {
    if i == 0 {
        0
    } else if i == 1 {
        1
    } else if i == 2 {
        2
    } else if i == 3 {
        3
    } else if i == 4 {
        4
    } else if i == 5 {
        6
    } else {
        8
    }
}

/// The place of a split budget in the menu, the third where it is not there.
pub open spec fn split_place(budget: u8) -> int {
    if budget <= 4 {
        budget as int
    } else if budget == 6 {
        5
    } else if budget == 8 {
        6
    } else {
        2
    }
}

/// The place of a surrender rule in the menu.
pub open spec fn surrender_place(s: PeekSurrender) -> int {
    match s {
        PeekSurrender::Never => 0,
        PeekSurrender::Early => 1,
        PeekSurrender::Late => 2,
    }
}

/// The surrender rule at a place of the menu.
pub open spec fn surrender_option(i: int) -> PeekSurrender {
    if i == 0 {
        PeekSurrender::Never
    } else if i == 1 {
        PeekSurrender::Early
    } else {
        PeekSurrender::Late
    }
}

/// The rule with the look at the hole card switched on or off. The surrender rule is
/// carried over as far as it goes: without a look there is no late surrender, so it
/// becomes early.
pub open spec fn peek_switched(peek: PeekRule) -> PeekRule {
    match peek {
        PeekRule::Peek(PeekSurrender::Never) => PeekRule::NoPeek { early_surrender: false },
        PeekRule::Peek(_) => PeekRule::NoPeek { early_surrender: true },
        PeekRule::NoPeek { early_surrender } => if early_surrender {
            PeekRule::Peek(PeekSurrender::Early)
        } else {
            PeekRule::Peek(PeekSurrender::Never)
        },
    }
}

/// The rule with the surrender rule moved on in its menu: without a look it is only
/// switched on and off.
pub open spec fn surrender_moved(peek: PeekRule, delta: int) -> PeekRule {
    match peek {
        PeekRule::Peek(s) => PeekRule::Peek(surrender_option((surrender_place(s) + delta) % 3)),
        PeekRule::NoPeek { early_surrender } => PeekRule::NoPeek {
            early_surrender: !early_surrender,
        },
    }
}

/// A number of hands moved on, from one to four.
pub open spec fn hands_moved(n: u8, delta: int) -> u8 {
    let v = n + delta;
    if v < 1 {
        1
    } else if v > 4 {
        4
    } else {
        v as u8
    }
}

/// The rules and the shoe with the rule at a place of the panel moved on.
pub open spec fn rule_edited(rules: Ruleset, shoe: ShoeChoice, sel: int, delta: int) -> (
    Ruleset,
    ShoeChoice,
) {
    if sel == 0 {
        (rules, deck_option((deck_place(shoe) + delta) % 6))
    } else if sel == 1 {
        (Ruleset { hs17: !rules.hs17, ..rules }, shoe)
    } else if sel == 2 {
        (Ruleset { das: !rules.das, ..rules }, shoe)
    } else if sel == 3 {
        (Ruleset { peek: peek_switched(rules.peek), ..rules }, shoe)
    } else if sel == 4 {
        (
            Ruleset {
                bj_payout: match rules.bj_payout {
                    BjPayout::ThreeToTwo => BjPayout::SixToFive,
                    BjPayout::SixToFive => BjPayout::ThreeToTwo,
                },
                ..rules
            },
            shoe,
        )
    } else if sel == 5 {
        (Ruleset { peek: surrender_moved(rules.peek, delta), ..rules }, shoe)
    } else if sel == 6 {
        (Ruleset { max_split_hands: hands_moved(rules.max_split_hands, delta), ..rules }, shoe)
    } else if sel == 7 {
        (
            Ruleset {
                split_cards: split_option((split_place(rules.split_cards) + delta) % 7),
                ..rules
            },
            shoe,
        )
    } else {
        (rules, shoe)
    }
}

/// The place of a comparison in the menu.
pub open spec fn comparison_place(how: CountCmp) -> int {
    match how {
        CountCmp::Le => 0,
        CountCmp::Eq => 1,
        CountCmp::Ge => 2,
    }
}

/// The comparison at a place of the menu.
pub open spec fn comparison_option(i: int) -> CountCmp {
    if i == 0 {
        CountCmp::Le
    } else if i == 1 {
        CountCmp::Eq
    } else {
        CountCmp::Ge
    }
}

/// The comparison moved on in the menu. A true count is not compared for equality.
pub open spec fn comparison_moved(how: CountCmp, kind: CountKind, delta: int) -> CountCmp {
    match kind {
        CountKind::Running => comparison_option((comparison_place(how) + delta) % 3),
        CountKind::TrueCount => if how == CountCmp::Ge {
            CountCmp::Le
        } else {
            CountCmp::Ge
        },
    }
}

/// The count under the system moved on in the menu. Where that leads to a true count, equality
/// becomes the lower bound.
pub open spec fn system_moved(count: CountSetting, delta: int) -> CountSetting {
    let system = system_at((count.system.place() + delta) % 3);
    CountSetting {
        system,
        how: if system.kind_spec() == CountKind::TrueCount && count.how == CountCmp::Eq {
            CountCmp::Ge
        } else {
            count.how
        },
        ..count
    }
}

/// A count moved on, from -60 to 60.
pub open spec fn count_moved(external: i16, delta: int) -> i16 {
    let v = external + delta;
    if v < -60 {
        -60i16
    } else if v > 60 {
        60
    } else {
        v as i16
    }
}

/// The count with the part at a place of the panel moved on.
pub open spec fn count_edited(on: bool, count: CountSetting, sel: int, delta: int) -> (
    bool,
    CountSetting,
) {
    if sel == 0 {
        (!on, count)
    } else if sel == 1 {
        (
            on,
            CountSetting {
                how: comparison_moved(count.how, count.system.kind_spec(), delta),
                ..count
            },
        )
    } else if sel == 2 {
        (on, CountSetting { external: count_moved(count.external, delta), ..count })
    } else if sel == 3 {
        (on, system_moved(count, delta))
    } else {
        (on, count)
    }
}

/// A place in a menu of `n`, moved on round and round.
fn moved_place(place: i32, delta: i32, n: i32) -> (r: i32)
    requires
        0 <= place < n <= 10,
        delta <= i32::MAX - 255,
    ensures
        r == (place + delta) % (n as int),
        0 <= r < n,
{
    match (place + delta).checked_rem_euclid(n) {
        Some(p) => p,
        None => 0,
    }
}

/// Move the rule at a place of the panel on.
pub fn edit_rule(rules: Ruleset, shoe: ShoeChoice, sel: usize, delta: i32) -> (r: (
    Ruleset,
    ShoeChoice,
))
    requires
        delta <= i32::MAX - 255,
    ensures
        r == rule_edited(rules, shoe, sel as int, delta as int),
{
    let mut rules = rules;
    let mut shoe = shoe;
    if sel == 0 {
        let place: i32 = match shoe {
            ShoeChoice::Infinite => 0,
            ShoeChoice::Decks(n) => if n == 1 {
                1
            } else if n == 2 {
                2
            } else if n == 4 {
                3
            } else if n == 6 {
                4
            } else if n == 8 {
                5
            } else {
                0
            },
        };
        let options = ShoeChoice::options();
        let next: i32 = moved_place(place, delta, 6);
        shoe = options[next as usize];
    } else if sel == 1 {
        rules.hs17 = !rules.hs17;
    } else if sel == 2 {
        rules.das = !rules.das;
    } else if sel == 3 {
        rules.peek = match rules.peek {
            PeekRule::Peek(PeekSurrender::Never) => PeekRule::NoPeek { early_surrender: false },
            PeekRule::Peek(_) => PeekRule::NoPeek { early_surrender: true },
            PeekRule::NoPeek { early_surrender } => if early_surrender {
                PeekRule::Peek(PeekSurrender::Early)
            } else {
                PeekRule::Peek(PeekSurrender::Never)
            },
        };
    } else if sel == 4 {
        rules.bj_payout = match rules.bj_payout {
            BjPayout::ThreeToTwo => BjPayout::SixToFive,
            BjPayout::SixToFive => BjPayout::ThreeToTwo,
        };
    } else if sel == 5 {
        rules.peek = match rules.peek {
            PeekRule::Peek(s) => {
                let place: i32 = match s {
                    PeekSurrender::Never => 0,
                    PeekSurrender::Early => 1,
                    PeekSurrender::Late => 2,
                };
                let next: i32 = moved_place(place, delta, 3);
                PeekRule::Peek(
                    if next == 0 {
                        PeekSurrender::Never
                    } else if next == 1 {
                        PeekSurrender::Early
                    } else {
                        PeekSurrender::Late
                    },
                )
            },
            PeekRule::NoPeek { early_surrender } => PeekRule::NoPeek {
                early_surrender: !early_surrender,
            },
        };
    } else if sel == 6 {
        let v: i32 = rules.max_split_hands as i32 + delta;
        rules.max_split_hands = if v < 1 {
            1
        } else if v > 4 {
            4
        } else {
            v as u8
        };
    } else if sel == 7 {
        let budget: u8 = rules.split_cards;
        let place: i32 = if budget <= 4 {
            budget as i32
        } else if budget == 6 {
            5
        } else if budget == 8 {
            6
        } else {
            2
        };
        let next: i32 = moved_place(place, delta, 7);
        rules.split_cards = if next <= 4 {
            next as u8
        } else if next == 5 {
            6
        } else {
            8
        };
    }
    (rules, shoe)
}

/// Move the part of the count at a place of the panel on.
pub fn edit_count(on: bool, count: CountSetting, sel: usize, delta: i32) -> (r: (
    bool,
    CountSetting,
))
    requires
        i32::MIN + 32_768 <= delta <= i32::MAX - 32_767,
    ensures
        r == count_edited(on, count, sel as int, delta as int),
{
    let mut count = count;
    if sel == 0 {
        return (!on, count);
    }
    if sel == 1 && count.system.kind() == CountKind::TrueCount {
        count.how = match count.how {
            CountCmp::Ge => CountCmp::Le,
            _ => CountCmp::Ge,
        };
    } else if sel == 1 {
        let place: i32 = match count.how {
            CountCmp::Le => 0,
            CountCmp::Eq => 1,
            CountCmp::Ge => 2,
        };
        let next: i32 = moved_place(place, delta, 3);
        count.how = if next == 0 {
            CountCmp::Le
        } else if next == 1 {
            CountCmp::Eq
        } else {
            CountCmp::Ge
        };
    } else if sel == 2 {
        let v: i32 = count.external as i32 + delta;
        count.external = if v < -60 {
            -60
        } else if v > 60 {
            60
        } else {
            v as i16
        };
    } else if sel == 3 {
        count.system = count.system.cycle(delta);
        if count.system.kind() == CountKind::TrueCount && count.how == CountCmp::Eq {
            count.how = CountCmp::Ge;
        }
    }
    (on, count)
}

/// A step on and a step back lead back to the same rules, for every rule that the menu
/// has in a circle.
pub proof fn law_rule_edits_go_back(rules: Ruleset, shoe: ShoeChoice, sel: int, delta: int)
    requires
        0 <= sel < 8,
        delta == 1 || delta == -1,
        sel == 0 ==> deck_option(deck_place(shoe)) == shoe,
        sel == 3 ==> rules.peek != PeekRule::Peek(PeekSurrender::Late),
        sel == 6 ==> 1 <= rules.max_split_hands + delta <= 4 && 1 <= rules.max_split_hands <= 4,
        sel == 7 ==> split_option(split_place(rules.split_cards)) == rules.split_cards,
    ensures
        ({
            let (r1, s1) = rule_edited(rules, shoe, sel, delta);
            rule_edited(r1, s1, sel, -delta) == (rules, shoe)
        }),
{
}

/// However a rule is edited, splitting leads to one to four hands where that was edited,
/// the other rules stay, and the shoe is one of the menu where it was edited.
pub proof fn law_rule_edits_stay_in_the_menu(rules: Ruleset, shoe: ShoeChoice, sel: int, delta: int)
    ensures
        ({
            let (r1, s1) = rule_edited(rules, shoe, sel, delta);
            &&& sel == 6 ==> 1 <= r1.max_split_hands <= 4
            &&& sel != 6 ==> r1.max_split_hands == rules.max_split_hands
            &&& sel == 0 ==> deck_option(deck_place(s1)) == s1
            &&& sel != 0 ==> s1 == shoe
            &&& sel == 7 ==> split_option(split_place(r1.split_cards)) == r1.split_cards
            &&& sel != 7 ==> r1.split_cards == rules.split_cards
            &&& sel != 3 && sel != 5 ==> r1.peek == rules.peek
            &&& sel != 1 ==> r1.hs17 == rules.hs17
            &&& sel != 2 ==> r1.das == rules.das
            &&& sel != 4 ==> r1.bj_payout == rules.bj_payout
        }),
{
}

/// The cursor after a key: the arrows and `hjkl` move by one cell and stop at the rim of
/// the pane; the tab keys go round the panes and keep the row as far as there is one.
pub open spec fn cursor_moved(c: Cursor, key: Key) -> Cursor {
    let rows = pane_at(c.pane as int).row_count();
    match key {
        Key::Char('h') | Key::Left => Cursor {
            col: if c.col > 0 {
                (c.col - 1) as usize
            } else {
                0
            },
            ..c
        },
        Key::Char('l') | Key::Right => Cursor {
            col: if c.col < 9 {
                (c.col + 1) as usize
            } else {
                9
            },
            ..c
        },
        Key::Char('k') | Key::Up => Cursor {
            row: if c.row > 0 {
                (c.row - 1) as usize
            } else {
                0
            },
            ..c
        },
        Key::Char('j') | Key::Down => Cursor {
            row: if c.row + 1 < rows {
                (c.row + 1) as usize
            } else {
                (rows - 1) as usize
            },
            ..c
        },
        Key::Tab => row_clamped(Cursor { pane: ((c.pane + 1) % 3) as usize, ..c }),
        Key::BackTab => row_clamped(Cursor { pane: ((c.pane + 2) % 3) as usize, ..c }),
        _ => c,
    }
}

/// The cursor with its row in the pane.
pub open spec fn row_clamped(c: Cursor) -> Cursor {
    let rows = pane_at(c.pane as int).row_count();
    if c.row >= rows {
        Cursor { row: (rows - 1) as usize, ..c }
    } else {
        c
    }
}

/// A place in a list of `n`, one on or one back, round and round.
pub open spec fn place_moved(at: int, key: Key, n: int) -> int {
    match key {
        Key::Char('j') | Key::Down => (at + 1) % n,
        Key::Char('k') | Key::Up => (at + n - 1) % n,
        _ => at,
    }
}

/// Which way a key changes what is selected.
pub open spec fn key_delta(key: Key) -> int {
    match key {
        Key::Char('l') | Key::Right | Key::Char(' ') => 1,
        Key::Char('h') | Key::Left => -1,
        _ => 0,
    }
}

impl Ui {
    /// The settings that the program starts with.
    pub open spec fn start() -> Ui {
        let count = CountSetting { external: 0, how: CountCmp::Eq, system: CountSystemId::Ko };
        Ui {
            rules: default_rules(),
            shoe: ShoeChoice::Infinite,
            count_on: false,
            count,
            cursor: Cursor { pane: 0, row: 0, col: 0 },
            mode: Mode::Normal,
            tab: Tab::Strategy,
            rules_sel: 0,
            rules_before: default_rules(),
            shoe_before: ShoeChoice::Infinite,
            count_sel: 0,
            count_on_before: false,
            count_before: count,
        }
    }

    /// The settings that keys lead to.
    pub open spec fn valid(self) -> bool {
        &&& self.cursor.valid()
        &&& self.rules_sel < RULES_FIELDS
        &&& self.count_sel < COUNT_FIELDS
        &&& -60 <= self.count.external <= 60
        &&& self.shoe matches ShoeChoice::Decks(n) ==> n > 0
        &&& self.count.system.kind_spec() == CountKind::TrueCount ==> self.count.how != CountCmp::Eq
    }

    /// The panel for the rules is opened.
    pub open spec fn rules_opened(self) -> Ui {
        Ui {
            rules_before: self.rules,
            shoe_before: self.shoe,
            rules_sel: 0,
            mode: Mode::Rules,
            ..self
        }
    }

    /// A key in the chart.
    pub open spec fn in_chart(self, key: Key) -> (Ui, Action) {
        match key {
            Key::Char('q') => (self, Action::Quit),
            Key::Char('2') => (Ui { tab: Tab::Training, ..self }, Action::EnterTraining),
            Key::Enter | Key::Char(' ') => (Ui { mode: Mode::Popup, ..self }, Action::Nothing),
            Key::Char('r') => (self.rules_opened(), Action::Nothing),
            Key::Char('c') => (
                Ui {
                    count_on_before: self.count_on,
                    count_before: self.count,
                    count_sel: 0,
                    mode: Mode::Count,
                    ..self
                },
                Action::Nothing,
            ),
            _ => (Ui { cursor: cursor_moved(self.cursor, key), ..self }, Action::Nothing),
        }
    }

    /// A key while the values of a cell are shown.
    pub open spec fn in_popup(self, key: Key) -> (Ui, Action) {
        match key {
            Key::Esc | Key::Enter | Key::Char('q') => (
                Ui { mode: Mode::Normal, ..self },
                Action::Nothing,
            ),
            _ => (Ui { cursor: cursor_moved(self.cursor, key), ..self }, Action::Nothing),
        }
    }

    /// A key in the panel for the rules. Closing it asks for a new solution exactly where
    /// something has changed.
    pub open spec fn in_rules(self, key: Key) -> (Ui, Action) {
        match key {
            Key::Esc | Key::Enter | Key::Char('r') | Key::Char('q') => (
                Ui { mode: Mode::Normal, ..self },
                if self.rules != self.rules_before || self.shoe != self.shoe_before {
                    Action::RulesChanged
                } else {
                    Action::Nothing
                },
            ),
            _ => {
                let (rules, shoe) = if key_delta(key) == 0 {
                    (self.rules, self.shoe)
                } else {
                    rule_edited(self.rules, self.shoe, self.rules_sel as int, key_delta(key))
                };
                (
                    Ui {
                        rules,
                        shoe,
                        rules_sel: place_moved(self.rules_sel as int, key, 8) as usize,
                        ..self
                    },
                    Action::Nothing,
                )
            },
        }
    }

    /// A key in the panel for the count.
    pub open spec fn in_count(self, key: Key) -> (Ui, Action) {
        match key {
            Key::Esc | Key::Enter | Key::Char('c') | Key::Char('q') => (
                Ui { mode: Mode::Normal, ..self },
                if self.count_on != self.count_on_before || self.count != self.count_before {
                    Action::Recompute
                } else {
                    Action::Nothing
                },
            ),
            _ => {
                let (on, count) = if key_delta(key) == 0 {
                    (self.count_on, self.count)
                } else {
                    count_edited(self.count_on, self.count, self.count_sel as int, key_delta(key))
                };
                (
                    Ui {
                        count_on: on,
                        count,
                        count_sel: place_moved(self.count_sel as int, key, 4) as usize,
                        ..self
                    },
                    Action::Nothing,
                )
            },
        }
    }

    /// A key in the training tab. While the count is asked the keys go to the answer. `r`
    /// is surrender in the player's turn and opens the panel for the rules otherwise.
    pub open spec fn in_training(self, key: Key, t: TrainState) -> (Ui, Action) {
        if t.entering_count {
            match key {
                Key::Char('h') | Key::Left => (self, Action::Train(TrainAction::GuessLower)),
                Key::Char('l') | Key::Right => (self, Action::Train(TrainAction::GuessHigher)),
                Key::Enter | Key::Char(' ') => (self, Action::Train(TrainAction::SubmitCount)),
                Key::Esc | Key::Char('n') => (self, Action::Train(TrainAction::CancelCount)),
                _ => (self, Action::Nothing),
            }
        } else if key == Key::Char('q') {
            (self, Action::Quit)
        } else if key == Key::Char('1') {
            (Ui { tab: Tab::Strategy, ..self }, Action::Nothing)
        } else if key == Key::Char('n') && t.finite {
            (self, Action::Train(TrainAction::OpenCount))
        } else if (key == Key::Enter || key == Key::Char('d')) && (t.phase == Phase::Ready
            || t.phase == Phase::Settled) {
            (self, Action::Train(TrainAction::Deal))
        } else if key == Key::Char('r') && t.phase != Phase::Player {
            (self.rules_opened(), Action::Nothing)
        } else if t.phase == Phase::Player {
            match training_key(key) {
                Some(mv) => (self, Action::Train(TrainAction::Play(mv))),
                None => (self, Action::Nothing),
            }
        } else {
            (self, Action::Nothing)
        }
    }

    /// A key. The panel for the rules lies over both tabs.
    pub open spec fn after(self, key: Key, t: TrainState) -> (Ui, Action) {
        if self.mode == Mode::Rules {
            self.in_rules(key)
        } else if self.tab == Tab::Training {
            self.in_training(key, t)
        } else {
            match self.mode {
                Mode::Normal => self.in_chart(key),
                Mode::Popup => self.in_popup(key),
                Mode::Count => self.in_count(key),
                Mode::Rules => (self, Action::Nothing),
            }
        }
    }

    /// The count that the chart is solved under: none on the infinite deck.
    pub open spec fn effective(self) -> Option<CountSetting> {
        match self.shoe {
            ShoeChoice::Decks(n) => if self.count_on {
                Some(self.count)
            } else {
                None
            },
            ShoeChoice::Infinite => None,
        }
    }
}

/// The move of a key.
pub open spec fn training_key(key: Key) -> Option<Move> {
    match key {
        Key::Char('h') => Some(Move::Hit),
        Key::Char('s') => Some(Move::Stand),
        Key::Char('d') => Some(Move::Double),
        Key::Char('p') => Some(Move::Split),
        Key::Char('r') => Some(Move::Surrender),
        _ => None,
    }
}

/// The move of a key.
pub fn training_move(key: Key) -> (r: Option<Move>)
    ensures
        r == training_key(key),
{
    match key {
        Key::Char('h') => Some(Move::Hit),
        Key::Char('s') => Some(Move::Stand),
        Key::Char('d') => Some(Move::Double),
        Key::Char('p') => Some(Move::Split),
        Key::Char('r') => Some(Move::Surrender),
        _ => None,
    }
}

fn delta_of(key: Key) -> (r: i32)
    ensures
        r == key_delta(key),
{
    match key {
        Key::Char('l') | Key::Right | Key::Char(' ') => 1,
        Key::Char('h') | Key::Left => -1,
        _ => 0,
    }
}

fn next_place(at: usize, key: Key, n: usize) -> (r: usize)
    requires
        at < n <= 100,
    ensures
        r == place_moved(at as int, key, n as int),
{
    match key {
        Key::Char('j') | Key::Down => (at + 1) % n,
        Key::Char('k') | Key::Up => (at + n - 1) % n,
        _ => at,
    }
}

/// Move the cursor.
pub fn move_cursor(c: Cursor, key: Key) -> (r: Cursor)
    requires
        c.valid(),
    ensures
        r == cursor_moved(c, key),
        r.valid(),
{
    let mut c = c;
    match key {
        Key::Char('h') | Key::Left => {
            if c.col > 0 {
                c.col = c.col - 1;
            }
        },
        Key::Char('l') | Key::Right => {
            if c.col < N_COLUMNS - 1 {
                c.col = c.col + 1;
            }
        },
        Key::Char('k') | Key::Up => {
            if c.row > 0 {
                c.row = c.row - 1;
            }
        },
        Key::Char('j') | Key::Down => {
            let rows: usize = nth_pane(c.pane).n_rows();
            if c.row + 1 < rows {
                c.row = c.row + 1;
            }
        },
        Key::Tab => {
            c.pane = (c.pane + 1) % N_PANES;
            c = clamp_row(c);
        },
        Key::BackTab => {
            c.pane = (c.pane + N_PANES - 1) % N_PANES;
            c = clamp_row(c);
        },
        _ => {},
    }
    c
}

/// Bring the row into the pane.
fn clamp_row(c: Cursor) -> (r: Cursor)
    ensures
        r == row_clamped(c),
{
    let mut c = c;
    let rows: usize = nth_pane(c.pane).n_rows();
    if c.row >= rows {
        c.row = rows - 1;
    }
    c
}

impl Ui {
    /// The settings that the program starts with.
    pub fn new() -> (r: Self)
        ensures
            r == Ui::start(),
            r.valid(),
    {
        let count = CountSetting { external: 0, how: CountCmp::Eq, system: CountSystemId::Ko };
        Ui {
            rules: Ruleset::default(),
            shoe: ShoeChoice::Infinite,
            count_on: false,
            count,
            cursor: Cursor { pane: 0, row: 0, col: 0 },
            mode: Mode::Normal,
            tab: Tab::Strategy,
            rules_sel: 0,
            rules_before: Ruleset::default(),
            shoe_before: ShoeChoice::Infinite,
            count_sel: 0,
            count_on_before: false,
            count_before: count,
        }
    }

    fn open_rules(&mut self)
        ensures
            *final(self) == old(self).rules_opened(),
    {
        self.rules_before = self.rules;
        self.shoe_before = self.shoe;
        self.rules_sel = 0;
        self.mode = Mode::Rules;
    }

    fn handle_normal(&mut self, key: Key) -> (r: Action)
        requires
            old(self).valid(),
        ensures
            (*final(self), r) == old(self).in_chart(key),
            final(self).valid(),
    {
        match key {
            Key::Char('q') => Action::Quit,
            Key::Char('2') => {
                self.tab = Tab::Training;
                Action::EnterTraining
            },
            Key::Enter | Key::Char(' ') => {
                self.mode = Mode::Popup;
                Action::Nothing
            },
            Key::Char('r') => {
                self.open_rules();
                Action::Nothing
            },
            Key::Char('c') => {
                self.count_on_before = self.count_on;
                self.count_before = self.count;
                self.count_sel = 0;
                self.mode = Mode::Count;
                Action::Nothing
            },
            _ => {
                self.cursor = move_cursor(self.cursor, key);
                Action::Nothing
            },
        }
    }

    fn handle_popup(&mut self, key: Key) -> (r: Action)
        requires
            old(self).valid(),
        ensures
            (*final(self), r) == old(self).in_popup(key),
            final(self).valid(),
    {
        match key {
            Key::Esc | Key::Enter | Key::Char('q') => {
                self.mode = Mode::Normal;
            },
            _ => {
                self.cursor = move_cursor(self.cursor, key);
            },
        }
        Action::Nothing
    }

    fn handle_rules(&mut self, key: Key) -> (r: Action)
        requires
            old(self).valid(),
        ensures
            (*final(self), r) == old(self).in_rules(key),
            final(self).valid(),
    {
        match key {
            Key::Esc | Key::Enter | Key::Char('r') | Key::Char('q') => {
                self.mode = Mode::Normal;
                if self.rules != self.rules_before || self.shoe != self.shoe_before {
                    Action::RulesChanged
                } else {
                    Action::Nothing
                }
            },
            _ => {
                let delta: i32 = delta_of(key);
                if delta != 0 {
                    let (rules, shoe) = edit_rule(self.rules, self.shoe, self.rules_sel, delta);
                    proof {
                        law_rule_edits_stay_in_the_menu(
                            self.rules,
                            self.shoe,
                            self.rules_sel as int,
                            delta as int,
                        );
                    }
                    self.rules = rules;
                    self.shoe = shoe;
                }
                self.rules_sel = next_place(self.rules_sel, key, RULES_FIELDS);
                Action::Nothing
            },
        }
    }

    fn handle_count(&mut self, key: Key) -> (r: Action)
        requires
            old(self).valid(),
        ensures
            (*final(self), r) == old(self).in_count(key),
            final(self).valid(),
    {
        match key {
            Key::Esc | Key::Enter | Key::Char('c') | Key::Char('q') => {
                self.mode = Mode::Normal;
                if self.count_on != self.count_on_before || self.count != self.count_before {
                    Action::Recompute
                } else {
                    Action::Nothing
                }
            },
            _ => {
                let delta: i32 = delta_of(key);
                if delta != 0 {
                    let (on, count) = edit_count(self.count_on, self.count, self.count_sel, delta);
                    self.count_on = on;
                    self.count = count;
                }
                self.count_sel = next_place(self.count_sel, key, COUNT_FIELDS);
                Action::Nothing
            },
        }
    }

    fn handle_training(&mut self, key: Key, t: TrainState) -> (r: Action)
        requires
            old(self).valid(),
        ensures
            (*final(self), r) == old(self).in_training(key, t),
            final(self).valid(),
    {
        if t.entering_count {
            return match key {
                Key::Char('h') | Key::Left => Action::Train(TrainAction::GuessLower),
                Key::Char('l') | Key::Right => Action::Train(TrainAction::GuessHigher),
                Key::Enter | Key::Char(' ') => Action::Train(TrainAction::SubmitCount),
                Key::Esc | Key::Char('n') => Action::Train(TrainAction::CancelCount),
                _ => Action::Nothing,
            };
        }
        if key == Key::Char('q') {
            Action::Quit
        } else if key == Key::Char('1') {
            self.tab = Tab::Strategy;
            Action::Nothing
        } else if key == Key::Char('n') && t.finite {
            Action::Train(TrainAction::OpenCount)
        } else if (key == Key::Enter || key == Key::Char('d')) && (t.phase == Phase::Ready
            || t.phase == Phase::Settled) {
            Action::Train(TrainAction::Deal)
        } else if key == Key::Char('r') && t.phase != Phase::Player {
            self.open_rules();
            Action::Nothing
        } else if t.phase == Phase::Player {
            match training_move(key) {
                Some(mv) => Action::Train(TrainAction::Play(mv)),
                None => Action::Nothing,
            }
        } else {
            Action::Nothing
        }
    }

    /// Handle a key.
    pub fn handle_key(&mut self, key: Key, t: TrainState) -> (r: Action)
        requires
            old(self).valid(),
        ensures
            (*final(self), r) == old(self).after(key, t),
            final(self).valid(),
    {
        if self.mode == Mode::Rules {
            return self.handle_rules(key);
        }
        if self.tab == Tab::Training {
            return self.handle_training(key, t);
        }
        match self.mode {
            Mode::Normal => self.handle_normal(key),
            Mode::Popup => self.handle_popup(key),
            Mode::Count => self.handle_count(key),
            Mode::Rules => Action::Nothing,
        }
    }

    /// The count that the chart is solved under.
    pub fn effective_count(&self) -> (r: Option<CountSetting>)
        ensures
            r == self.effective(),
    {
        match self.shoe {
            ShoeChoice::Decks(_) => if self.count_on {
                Some(self.count)
            } else {
                None
            },
            ShoeChoice::Infinite => None,
        }
    }

    /// The pane that is selected.
    pub fn active_pane(&self) -> (r: Pane)
        ensures
            r == pane_at(self.cursor.pane as int),
    {
        nth_pane(self.cursor.pane)
    }

    /// The row and the up-card that are selected.
    pub fn selection(&self) -> (r: (HandCategory, Card))
        requires
            self.cursor.valid(),
        ensures
            r.0 == pane_at(self.cursor.pane as int).row_at(self.cursor.row as int),
            r.1 == up_card_at(self.cursor.col as int),
            r.1.valid(),
    {
        let (cat, _) = self.active_pane().row(self.cursor.row);
        (cat, up_card(self.cursor.col))
    }
}

/// Whatever count the panel leads to can be solved against every up-card.
pub proof fn law_entered_counts_can_be_solved(ui: Ui, n: u8, up: Card)
    requires
        ui.valid(),
        up.valid(),
    ensures
        enterable(ui.count.system, n as int, ui.count.external as int, ui.count.how, up),
{
    law_full_shoe_counts(ui.count.system, n as int);
}

/// Only closing a panel in which something has changed asks for the chart to be solved
/// again.
pub proof fn law_only_changes_are_solved(ui: Ui, key: Key, t: TrainState)
    ensures
        ui.after(key, t).1 == Action::RulesChanged ==> ui.mode == Mode::Rules && (ui.rules
            != ui.rules_before || ui.shoe != ui.shoe_before),
        ui.after(key, t).1 == Action::Recompute ==> ui.mode == Mode::Count && (ui.count_on
            != ui.count_on_before || ui.count != ui.count_before),
{
}

} // verus!
