//! What the keys lead to.
use crate::config::{CountSetting, ShoeChoice};
use crate::count::{CountCmp, CountKind};
use crate::hand::Move;
use crate::panes::pane_at;
use crate::rules::{Ruleset, SurrenderRule};
use crate::session::{
    count_edited, cursor_moved, deck_option, deck_place, rule_edited, split_option, split_place,
    Action, Cursor, Key, Mode, Tab, TrainAction, TrainState, Ui,
};
use crate::training::Phase;
use vstd::prelude::*;

verus! {

/// A step in the panel for the rules changes the rule that is selected: each is switched over, or
/// moved on by one in its menu, and every other rule stays.
pub proof fn law_rule_edits_change_the_rule(rules: Ruleset, shoe: ShoeChoice, delta: int)
    requires
        delta == 1 || delta == -1,
    ensures
        rule_edited(rules, shoe, 1, delta) == (Ruleset { hs17: !rules.hs17, ..rules }, shoe),
        rule_edited(rules, shoe, 2, delta) == (Ruleset { das: !rules.das, ..rules }, shoe),
        ({
            let (r, s) = rule_edited(rules, shoe, 3, delta);
            &&& r.peek.peeks_spec() == !rules.peek.peeks_spec()
            &&& r.peek.surrender_spec() == SurrenderRule::Never <==> rules.peek.surrender_spec()
                == SurrenderRule::Never
            &&& rules.peek.surrender_spec() == SurrenderRule::Early ==> r.peek.surrender_spec()
                == SurrenderRule::Early
            &&& r == (Ruleset { peek: r.peek, ..rules })
        }),
        ({
            let (r, s) = rule_edited(rules, shoe, 4, delta);
            r.bj_payout != rules.bj_payout && r == (Ruleset { bj_payout: r.bj_payout, ..rules })
        }),
        ({
            let (r, s) = rule_edited(rules, shoe, 5, delta);
            &&& r.peek.peeks_spec() == rules.peek.peeks_spec()
            &&& r.peek.surrender_spec() != rules.peek.surrender_spec()
            &&& r == (Ruleset { peek: r.peek, ..rules })
        }),
        1 <= rules.max_split_hands + delta <= 4 ==> rule_edited(rules, shoe, 6, delta) == (
            Ruleset { max_split_hands: (rules.max_split_hands + delta) as u8, ..rules },
            shoe,
        ),
{
}

/// Every shoe and every split budget of the menus is reached from every other by steps.
pub proof fn law_rule_edits_reach_the_menu(rules: Ruleset, shoe: ShoeChoice, i: int, j: int)
    requires
        0 <= i < 6,
        0 <= j < 7,
    ensures
        rule_edited(rules, shoe, 0, i - deck_place(shoe)).1 == deck_option(i),
        rule_edited(rules, shoe, 7, j - split_place(rules.split_cards)).0.split_cards
            == split_option(j),
{
}

/// Where the panel for the rules is closed, a new solution is asked for exactly where a rule or
/// the shoe is not what it was when it was opened; and so with the panel for the count.
pub proof fn law_closing_asks_for_what_changed(ui: Ui, t: TrainState)
    ensures
        ui.mode == Mode::Rules ==> ui.after(Key::Esc, t).0.mode == Mode::Normal && (ui.after(
            Key::Esc,
            t,
        ).1 == Action::RulesChanged <==> !(ui.rules == ui.rules_before && ui.shoe
            == ui.shoe_before)),
        ui.mode == Mode::Count && ui.tab == Tab::Strategy ==> ui.after(Key::Esc, t).0.mode
            == Mode::Normal && (ui.after(Key::Esc, t).1 == Action::Recompute <==> !(ui.count_on
            == ui.count_on_before && ui.count == ui.count_before)),
        ui.mode == Mode::Normal && ui.tab == Tab::Strategy ==> ({
            let opened = ui.after(Key::Char('r'), t).0;
            opened.mode == Mode::Rules && opened.rules_before == ui.rules && opened.shoe_before
                == ui.shoe && opened.rules == ui.rules && opened.shoe == ui.shoe
        }),
        ui.mode == Mode::Normal && ui.tab == Tab::Strategy ==> ({
            let opened = ui.after(Key::Char('c'), t).0;
            opened.mode == Mode::Count && opened.count_on_before == ui.count_on
                && opened.count_before == ui.count && opened.count == ui.count
        }),
{
}

/// In the player's turn each of the five keys makes its move; a round is dealt only between
/// rounds; and while the count is asked no key makes a move or deals.
pub proof fn law_moves_are_made_in_turn(ui: Ui, t: TrainState, key: Key, mv: Move)
    requires
        ui.tab == Tab::Training,
        ui.mode != Mode::Rules,
    ensures
        t.entering_count ==> ui.after(key, t).1 != Action::Train(TrainAction::Play(mv))
            && ui.after(key, t).1 != Action::Train(TrainAction::Deal),
        t.phase != Phase::Player ==> ui.after(key, t).1 != Action::Train(TrainAction::Play(mv)),
        t.phase != Phase::Ready && t.phase != Phase::Settled ==> ui.after(key, t).1
            != Action::Train(TrainAction::Deal),
        !t.entering_count && t.phase == Phase::Player ==> {
            &&& ui.after(Key::Char('h'), t).1 == Action::Train(TrainAction::Play(Move::Hit))
            &&& ui.after(Key::Char('s'), t).1 == Action::Train(TrainAction::Play(Move::Stand))
            &&& ui.after(Key::Char('d'), t).1 == Action::Train(TrainAction::Play(Move::Double))
            &&& ui.after(Key::Char('p'), t).1 == Action::Train(TrainAction::Play(Move::Split))
            &&& ui.after(Key::Char('r'), t).1 == Action::Train(TrainAction::Play(Move::Surrender))
        },
        !t.entering_count && (t.phase == Phase::Ready || t.phase == Phase::Settled) ==> ui.after(
            Key::Enter,
            t,
        ).1 == Action::Train(TrainAction::Deal),
        !t.finite ==> ui.after(key, t).1 != Action::Train(TrainAction::OpenCount),
        ui.after(key, t).0.rules == ui.rules && ui.after(key, t).0.shoe == ui.shoe
            && ui.after(key, t).0.count == ui.count,
{
}

/// Left undoes right and up undoes down, away from the rim; the tab keys undo each other as far
/// as the pane goes.
pub proof fn law_cursor_moves_go_back(c: Cursor)
    requires
        c.valid(),
    ensures
        c.col < 9 ==> cursor_moved(cursor_moved(c, Key::Right), Key::Left) == c && cursor_moved(
            c,
            Key::Right,
        ).col == c.col + 1,
        c.row + 1 < pane_at(c.pane as int).row_count() ==> cursor_moved(
            cursor_moved(c, Key::Down),
            Key::Up,
        ) == c && cursor_moved(c, Key::Down).row == c.row + 1,
        cursor_moved(cursor_moved(c, Key::Tab), Key::BackTab).pane == c.pane,
        cursor_moved(c, Key::Tab).pane != c.pane && cursor_moved(c, Key::BackTab).pane != c.pane,
        cursor_moved(c, Key::Tab) != cursor_moved(c, Key::BackTab),
{
}

/// A step in the panel for the count changes the part that is selected alone; the value moves by
/// one up to sixty either way, and a true count is never compared for equality.
pub proof fn law_count_edits_change_the_part(on: bool, count: CountSetting, delta: int)
    requires
        delta == 1 || delta == -1,
        -60 <= count.external <= 60,
    ensures
        count_edited(on, count, 0, delta) == (!on, count),
        ({
            let (o, c) = count_edited(on, count, 1, delta);
            &&& o == on && c.external == count.external && c.system == count.system
            &&& c.how != count.how
            &&& count.system.kind_spec() == CountKind::TrueCount ==> c.how != CountCmp::Eq
        }),
        ({
            let (o, c) = count_edited(on, count, 2, delta);
            &&& o == on && c.how == count.how && c.system == count.system
            &&& -60 <= count.external + delta <= 60 ==> c.external == count.external + delta
            &&& -60 <= c.external <= 60
        }),
        ({
            let (o, c) = count_edited(on, count, 3, delta);
            &&& o == on && c.external == count.external
            &&& c.system != count.system
            &&& c.system.kind_spec() == CountKind::TrueCount ==> c.how != CountCmp::Eq
            &&& count.how != CountCmp::Eq ==> c.how == count.how
        }),
{
}

/// The chart is solved under the count that was entered exactly where it is switched on and the
/// shoe is finite.
pub proof fn law_count_applies_to_finite_shoes(ui: Ui)
    ensures
        ui.effective() == Some(ui.count) <==> ui.count_on && ui.shoe != ShoeChoice::Infinite,
        ui.effective() is None <==> !ui.count_on || ui.shoe == ShoeChoice::Infinite,
{
}

} // verus!
