use blackjack::card::Card;
use blackjack::chart::{CellInfo, ChartTable};
use blackjack::chartview::{
    cell_show, compact_hand_label, fmt_rc_range, fmt_run_range, fmt_tc_range, index_dependent, pack_hand_labels, pane_height,
    pane_view, rc_run_line, tabs_line, CellShow,
};
use blackjack::column::Column;
use blackjack::config::{CountSetting, ShoeChoice};
use blackjack::count::{CountCmp, CountKind, CountSystemId};
use blackjack::hand::{HandCategory, Move, MoveEvs};
use blackjack::num::Fixed;
use blackjack::panels::{count_view, footer_view, popup_title, popup_view, rules_view};
use blackjack::panes::{index_categories, nth_pane, solve_order, up_card, Pane, N_COLUMNS};
use blackjack::rules::{BjPayout, PeekRule, PeekSurrender, Ruleset};
use blackjack::schedule::{total_edge, Refresh, Work};
use blackjack::session::{
    edit_count, edit_rule, move_cursor, training_move, Action, Cursor, Key, Mode, Tab,
    TrainAction, TrainState, Ui,
};
use blackjack::shoe::CardCol;
use blackjack::solve::EdgeTerm;
use blackjack::sweep::{CategoryIndex, IndexReport};
use blackjack::training::Phase;
use blackjack::view::{
    centered_rect, ev_color, move_color, yn, Area, Ink, Line, Page, Word,
};

fn cards(s: &str) -> CardCol {
    CardCol::try_from(s).unwrap()
}

fn fixed(raw: i64) -> Fixed {
    Fixed { raw }
}

fn line_text(line: &Line<Fixed>) -> String {
    let mut out = String::new();
    for piece in &line.pieces {
        match &piece.word {
            Word::Text(s) => out.push_str(s),
            Word::Number(v, d) => {
                let x = v.raw as f64 / 1e9;
                let places = d.places as usize;
                if d.signed {
                    out.push_str(&format!("{x:+.places$}"));
                } else {
                    out.push_str(&format!("{x:.places$}"));
                }
            }
            Word::Fill(n) => {
                while out.chars().count() < *n {
                    out.push(' ');
                }
            }
        }
    }
    out
}

fn page_text(page: &Page<Fixed>) -> Vec<String> {
    page.lines.iter().map(line_text).collect()
}

fn evs(hit: i64, stand: i64) -> MoveEvs<Fixed> {
    let mut e = MoveEvs::none();
    e.set(Move::Hit, fixed(hit));
    e.set(Move::Stand, fixed(stand));
    e
}

fn cell(headline: Move, star: bool, groups: Vec<(Move, Vec<CardCol>)>) -> CellInfo<Fixed> {
    CellInfo {
        headline,
        composition_dependent: star,
        move_evs: evs(-250_000_000, 125_000_000),
        breakdown: groups,
    }
}

fn column_with(cat: HandCategory, c: CellInfo<Fixed>) -> Column<Fixed> {
    let mut summary = ChartTable::new();
    summary.push(cat, c);
    Column {
        summary,
        p_up: fixed(500_000_000),
        edge: EdgeTerm {
            weighted_ev: fixed(20_000_000),
            weight: fixed(1_000_000_000),
        },
    }
}

fn report_with(cat: HandCategory, primary: Vec<(Move, i16, i16)>) -> IndexReport {
    let mut cats = ChartTable::new();
    let start_only = primary.iter().any(|r| r.0 == Move::Double);
    cats.push(
        cat,
        CategoryIndex {
            primary,
            fallback: if start_only {
                vec![(Move::Hit, -20, -1), (Move::Stand, 0, 20)]
            } else {
                vec![]
            },
            basic: None,
            basic_fallback: None,
        },
    );
    IndexReport {
        lo: -20,
        hi: 20,
        mark_lo: -5,
        mark_hi: 10,
        cats,
        complete: true,
    }
}

fn ready() -> TrainState {
    TrainState {
        phase: Phase::Ready,
        entering_count: false,
        finite: true,
    }
}

#[test]
fn count_settings_in_words() {
    let ko = CountSetting {
        external: 4,
        how: CountCmp::Ge,
        system: CountSystemId::Ko,
    };
    assert_eq!(ko.label(), "KO RC>=+4");
    assert_eq!(ko.index_axis_value(), 4);
    let hilo = CountSetting {
        external: -3,
        how: CountCmp::Le,
        system: CountSystemId::HiLo,
    };
    assert_eq!((hilo.axis_label(), hilo.cmp_label()), ("TC", "<="));
    assert_eq!(hilo.value_str(), "-1.5");
    assert_eq!(hilo.index_axis_value(), -2);
    let eq = CountSetting {
        external: 6,
        how: CountCmp::Eq,
        ..hilo
    };
    assert_eq!((eq.value_str().as_str(), eq.cmp_label()), ("+3", "=="));
}

#[test]
fn shoes_to_pick_from() {
    let names: Vec<String> = ShoeChoice::options().iter().map(|s| s.to_text()).collect();
    assert_eq!(names, vec!["\u{221e}", "1", "2", "4", "6", "8"]);
}

#[test]
fn panes_of_the_chart() {
    assert_eq!(nth_pane(0), Pane::Hard);
    assert_eq!(nth_pane(2).title(), "PAIRS");
    let labels = |p: Pane| -> Vec<String> { p.rows().into_iter().map(|r| r.1).collect() };
    assert_eq!(labels(Pane::Hard).len(), 17);
    assert_eq!(labels(Pane::Hard)[0], "5");
    assert_eq!(labels(Pane::Soft), vec!["A2", "A3", "A4", "A5", "A6", "A7", "A8", "A9", "AT"]);
    assert_eq!(labels(Pane::Pairs)[9], "AA");
    assert_eq!(Pane::Soft.row(8).0, HandCategory::Soft(21));
    assert_eq!(Pane::Pairs.row(8).0, HandCategory::Pair(Card::Ten));
    let mut order = solve_order().to_vec();
    assert_eq!(order[0], 9);
    order.sort();
    assert_eq!(order, (0..N_COLUMNS).collect::<Vec<_>>());
    assert_eq!((up_card(0), up_card(8), up_card(9)), (Card::Pip(2), Card::Ten, Card::Ace));
    let (light, heavy) = index_categories();
    let mut all = light.clone();
    all.extend(heavy.clone());
    assert_eq!(all.len(), 17 + 9 + 10);
    for (i, a) in all.iter().enumerate() {
        for b in &all[i + 1..] {
            assert_ne!(a, b);
        }
    }
    assert!(heavy.iter().all(|c| matches!(c, HandCategory::Pair(_))));
}

#[test]
fn rules_are_edited_in_circles() {
    let start = (Ruleset::default(), ShoeChoice::Decks(6));
    for sel in [0usize, 1, 2, 4, 5, 7] {
        for delta in [1, -1] {
            let on = edit_rule(start.0, start.1, sel, delta);
            let back = edit_rule(on.0, on.1, sel, -delta);
            assert_ne!(on, start, "field {sel}");
            assert_eq!(back, start, "field {sel}");
        }
    }
    assert_eq!(edit_rule(start.0, ShoeChoice::Decks(8), 0, 1).1, ShoeChoice::Infinite);
    assert_eq!(edit_rule(start.0, ShoeChoice::Infinite, 0, -1).1, ShoeChoice::Decks(8));
    // The number of hands stops at both ends.
    let four = Ruleset {
        max_split_hands: 4,
        ..start.0
    };
    assert_eq!(edit_rule(four, start.1, 6, 1).0.max_split_hands, 4);
    let one = Ruleset {
        max_split_hands: 1,
        ..start.0
    };
    assert_eq!(edit_rule(one, start.1, 6, -1).0.max_split_hands, 1);
    // Without a look at the hole card there is no late surrender.
    let late = Ruleset {
        peek: PeekRule::Peek(PeekSurrender::Late),
        ..start.0
    };
    let blind = edit_rule(late, start.1, 3, 1).0;
    assert_eq!(blind.peek, PeekRule::NoPeek { early_surrender: true });
    assert_eq!(edit_rule(blind, start.1, 3, 1).0.peek, PeekRule::Peek(PeekSurrender::Early));
    assert_eq!(
        edit_rule(blind, start.1, 5, 1).0.peek,
        PeekRule::NoPeek { early_surrender: false }
    );
    assert_eq!(edit_rule(start.0, start.1, 4, 1).0.bj_payout, BjPayout::SixToFive);
    // A budget that is not in the menu counts as the third one.
    let odd = Ruleset {
        split_cards: 5,
        ..start.0
    };
    assert_eq!(edit_rule(odd, start.1, 7, 1).0.split_cards, 3);
    assert_eq!(edit_rule(start.0, start.1, 8, 1), start);
}

#[test]
fn counts_are_edited() {
    let c = CountSetting {
        external: 60,
        how: CountCmp::Ge,
        system: CountSystemId::Ko,
    };
    assert_eq!(edit_count(false, c, 0, 1), (true, c));
    assert_eq!(edit_count(true, c, 1, 1).1.how, CountCmp::Le);
    assert_eq!(edit_count(true, c, 1, -1).1.how, CountCmp::Eq);
    assert_eq!(edit_count(true, c, 2, 1).1.external, 60);
    assert_eq!(edit_count(true, c, 2, -1).1.external, 59);
    assert_eq!(edit_count(true, c, 4, -1), (true, c));
    // The systems go round, and a true count is not compared for equality.
    assert_eq!(edit_count(true, c, 3, -1).1.system, CountSystemId::AceFive);
    let eq = CountSetting {
        how: CountCmp::Eq,
        ..c
    };
    let hilo = edit_count(true, eq, 3, 1).1;
    assert_eq!((hilo.system, hilo.how), (CountSystemId::HiLo, CountCmp::Ge));
    assert_eq!(edit_count(true, hilo, 1, 1).1.how, CountCmp::Le);
    assert_eq!(edit_count(true, hilo, 1, -1).1.how, CountCmp::Le);
}

/// A condition on the running count and one on the true count, entered by keys.
#[test]
fn counts_are_entered_by_keys() {
    let mut ui = Ui::new();
    ui.shoe = ShoeChoice::Decks(6);
    let press = |ui: &mut Ui, keys: &str| {
        let mut last = Action::Nothing;
        for c in keys.chars() {
            last = ui.handle_key(Key::Char(c), ready());
        }
        last
    };
    // Counting on, the comparison one on, the value two down.
    assert_eq!(press(&mut ui, "cljljhhc"), Action::Recompute);
    assert_eq!(ui.effective_count().unwrap().label(), "KO RC>=-2");
    // From -2 up to 2, and the next system, where that is two halves.
    assert_eq!(press(&mut ui, "cjjlllljlc"), Action::Recompute);
    assert_eq!(ui.effective_count().unwrap().label(), "Hi-Lo TC>=+1");
    assert_eq!(ui.index_key(Card::Ten).unwrap().kind, CountKind::TrueCount);
    assert_eq!(press(&mut ui, "cc"), Action::Nothing);
}

#[test]
fn cursor_stays_in_the_chart() {
    let mut c = Cursor {
        pane: 0,
        row: 16,
        col: 9,
    };
    assert_eq!(move_cursor(c, Key::Right), c);
    assert_eq!(move_cursor(c, Key::Down), c);
    c = move_cursor(c, Key::Tab);
    assert_eq!((c.pane, c.row), (1, 8));
    c = move_cursor(c, Key::BackTab);
    c = move_cursor(c, Key::BackTab);
    assert_eq!((c.pane, c.row), (2, 8));
    c = move_cursor(c, Key::Char('k'));
    c = move_cursor(c, Key::Char('h'));
    assert_eq!((c.row, c.col), (7, 8));
}

#[test]
fn keys_of_the_chart() {
    let mut ui = Ui::new();
    assert_eq!(ui.handle_key(Key::Char('j'), ready()), Action::Nothing);
    assert_eq!(ui.selection(), (HandCategory::Hard(6), Card::Pip(2)));
    ui.handle_key(Key::Enter, ready());
    assert_eq!(ui.mode, Mode::Popup);
    ui.handle_key(Key::Esc, ready());
    assert_eq!(ui.mode, Mode::Normal);
    assert_eq!(ui.handle_key(Key::Char('q'), ready()), Action::Quit);
    // Closing the panel for the rules asks for a new solution only after a change.
    ui.handle_key(Key::Char('r'), ready());
    assert_eq!(ui.mode, Mode::Rules);
    assert_eq!(ui.handle_key(Key::Esc, ready()), Action::Nothing);
    ui.handle_key(Key::Char('r'), ready());
    ui.handle_key(Key::Char('l'), ready());
    assert_eq!(ui.shoe, ShoeChoice::Decks(1));
    assert_eq!(ui.handle_key(Key::Enter, ready()), Action::RulesChanged);
    // The same for the count.
    ui.handle_key(Key::Char('c'), ready());
    ui.handle_key(Key::Char(' '), ready());
    assert!(ui.count_on);
    ui.handle_key(Key::Char(' '), ready());
    assert_eq!(ui.handle_key(Key::Enter, ready()), Action::Nothing);
    ui.handle_key(Key::Char('c'), ready());
    ui.handle_key(Key::Char(' '), ready());
    assert_eq!(ui.handle_key(Key::Char('c'), ready()), Action::Recompute);
    assert_eq!(ui.effective_count(), Some(ui.count));
    assert_eq!(ui.active_pane(), Pane::Hard);
}

#[test]
fn keys_of_the_training_tab() {
    let mut ui = Ui::new();
    assert_eq!(ui.handle_key(Key::Char('2'), ready()), Action::EnterTraining);
    assert_eq!(ui.tab, Tab::Training);
    assert_eq!(ui.handle_key(Key::Enter, ready()), Action::Train(TrainAction::Deal));
    assert_eq!(ui.handle_key(Key::Char('d'), ready()), Action::Train(TrainAction::Deal));
    let player = TrainState {
        phase: Phase::Player,
        ..ready()
    };
    let play = |ui: &mut Ui, c: char| ui.handle_key(Key::Char(c), player);
    assert_eq!(play(&mut ui, 'd'), Action::Train(TrainAction::Play(Move::Double)));
    assert_eq!(play(&mut ui, 'r'), Action::Train(TrainAction::Play(Move::Surrender)));
    assert_eq!(play(&mut ui, 'x'), Action::Nothing);
    assert_eq!(play(&mut ui, 'n'), Action::Train(TrainAction::OpenCount));
    let asked = TrainState {
        entering_count: true,
        ..player
    };
    assert_eq!(ui.handle_key(Key::Left, asked), Action::Train(TrainAction::GuessLower));
    assert_eq!(ui.handle_key(Key::Char('l'), asked), Action::Train(TrainAction::GuessHigher));
    assert_eq!(ui.handle_key(Key::Enter, asked), Action::Train(TrainAction::SubmitCount));
    assert_eq!(ui.handle_key(Key::Esc, asked), Action::Train(TrainAction::CancelCount));
    assert_eq!(ui.handle_key(Key::Char('q'), asked), Action::Nothing);
    // On the infinite deck there is no count to ask for.
    let endless = TrainState {
        finite: false,
        ..player
    };
    assert_eq!(ui.handle_key(Key::Char('n'), endless), Action::Nothing);
    ui.handle_key(Key::Char('r'), ready());
    assert_eq!(ui.mode, Mode::Rules);
    ui.handle_key(Key::Esc, ready());
    ui.handle_key(Key::Char('1'), ready());
    assert_eq!(ui.tab, Tab::Strategy);
    assert_eq!(training_move(Key::Char('p')), Some(Move::Split));
    assert_eq!(training_move(Key::Enter), None);
}

#[test]
fn charts_and_indices_are_scheduled() {
    let mut ui = Ui::new();
    ui.shoe = ShoeChoice::Decks(2);
    let mut work = Work::new(&ui);
    let Refresh { forget_indices, solve } = work.recompute(&ui, false);
    assert!(forget_indices && solve);
    assert_eq!(work.pending_columns(), 10);
    let epoch = work.epoch;
    assert!(work.take_column(epoch, 3));
    assert!(!work.take_column(epoch + 1, 4));
    assert_eq!(work.pending_columns(), 9);
    for col in 0..10 {
        work.take_column(epoch, col);
    }
    assert!(work.is_complete());
    // Only a few indices are worked on at a time.
    let first = work.schedule_index_fill(ui.shoe);
    assert_eq!(first.len(), 3);
    assert!(work.schedule_index_fill(ui.shoe).is_empty());
    let index_epoch = work.index_epoch;
    assert!(work.take_index(index_epoch, first[0], true));
    assert!(!work.take_index(index_epoch + 1, first[1], true));
    assert_eq!(work.schedule_index_fill(ui.shoe).len(), 1);
    // The count changes the chart and leaves the indices.
    ui.count_on = true;
    let Refresh { forget_indices, solve } = work.recompute(&ui, false);
    assert!(!forget_indices && solve);
    assert_eq!(work.index_epoch, index_epoch);
    // A chart that is at hand needs no work, another shoe makes the indices worthless.
    ui.shoe = ShoeChoice::Decks(4);
    let Refresh { forget_indices, solve } = work.recompute(&ui, true);
    assert!(forget_indices && !solve);
    assert_ne!(work.index_epoch, index_epoch);
    assert_eq!(ui.index_key(Card::Ten).unwrap().kind, CountKind::Running);
    ui.shoe = ShoeChoice::Infinite;
    assert!(ui.index_key(Card::Ten).is_none());
    assert_eq!(ui.chart_key().count, None);
}

#[test]
fn edge_of_a_whole_chart() {
    let mut columns: Vec<Option<Column<Fixed>>> = Vec::new();
    for _ in 0..9 {
        columns.push(Some(column_with(
            HandCategory::Hard(16),
            cell(Move::Hit, false, vec![]),
        )));
    }
    columns.push(None);
    assert!(total_edge(&columns).is_none());
    columns[9] = Some(column_with(HandCategory::Hard(16), cell(Move::Hit, false, vec![])));
    // Ten columns, each with an edge of 2% and a chance of one half: they are added up with
    // their chances.
    assert_eq!(total_edge(&columns).unwrap().raw, 100_000_000);
}

#[test]
fn colours_and_words() {
    assert_eq!((yn(true), yn(false)), ("\u{2713}", "\u{2717}"));
    assert_eq!(ev_color(fixed(2)), Ink::Green);
    assert_eq!(ev_color(fixed(-2)), Ink::Red);
    let inks: Vec<Ink> = [Move::Hit, Move::Stand, Move::Double, Move::Split, Move::Surrender]
        .iter()
        .map(|m| move_color(*m))
        .collect();
    for (i, a) in inks.iter().enumerate() {
        for b in &inks[i + 1..] {
            assert_ne!(a, b);
        }
    }
    let whole = Area {
        x: 10,
        y: 4,
        width: 100,
        height: 40,
    };
    let mid = centered_rect(40, 10, whole);
    assert_eq!((mid.x, mid.y, mid.width, mid.height), (40, 19, 40, 10));
    let all = centered_rect(400, 100, whole);
    assert_eq!((all.width, all.height), (100, 40));
}

#[test]
fn cells_and_panes() {
    let cat = HandCategory::Hard(16);
    let column = Some(column_with(cat, cell(Move::Stand, false, vec![])));
    let report = Some(report_with(cat, vec![(Move::Hit, -20, 0), (Move::Stand, 1, 20)]));
    assert_eq!(cell_show::<Fixed>(&None, &None, cat), CellShow::Pending);
    assert_eq!(cell_show(&column, &None, HandCategory::Hard(5)), CellShow::Blank);
    assert_eq!(
        cell_show(&column, &report, cat),
        CellShow::Plays {
            mv: Move::Stand,
            star: false,
            ring: true
        }
    );
    // A star takes the place of the ring.
    let starred = Some(column_with(cat, cell(Move::Stand, true, vec![])));
    assert_eq!(
        cell_show(&starred, &report, cat),
        CellShow::Plays {
            mv: Move::Stand,
            star: true,
            ring: false
        }
    );
    assert!(index_dependent(&report, cat) && !index_dependent(&None, cat));
    // A change outside the counts worth marking is not marked.
    let far = Some(report_with(cat, vec![(Move::Hit, -20, 15), (Move::Stand, 16, 20)]));
    assert!(!index_dependent(&far, cat));
    let mut columns: Vec<Option<Column<Fixed>>> = (0..10).map(|_| None).collect();
    let mut reports: Vec<Option<IndexReport>> = (0..10).map(|_| None).collect();
    columns[0] = column;
    reports[0] = report;
    let cursor = Cursor {
        pane: 0,
        row: 11,
        col: 0,
    };
    let page = pane_view(Pane::Hard, true, cursor, &columns, &reports);
    let text = page_text(&page);
    assert_eq!(text.len(), 18);
    assert_eq!(text[0], "     2  3  4  5  6  7  8  9  T  A ");
    assert_eq!(&text[12], " 16  S\u{00b0} \u{b7}  \u{b7}  \u{b7}  \u{b7}  \u{b7}  \u{b7}  \u{b7}  \u{b7}  \u{b7} ");
    assert!(page.lines[12].pieces[1].face.reversed);
    assert!(!page.lines[12].pieces[2].face.reversed);
    assert_eq!(pane_height(Pane::Hard), 20);
    let tabs: Line<Fixed> = tabs_line(Tab::Training);
    assert_eq!(line_text(&tabs), " 1 Strategy   2 Training ");
    assert!(tabs.pieces[2].face.marked && !tabs.pieces[0].face.marked);
}

#[test]
fn hands_and_counts_in_words() {
    assert_eq!(compact_hand_label(&cards("26AT")), "AT62");
    let hands = vec![cards("T6"), cards("97"), cards("A5T")];
    assert_eq!(pack_hand_labels(&hands, 41), ("T6 97 AT5".to_string(), 0));
    assert_eq!(pack_hand_labels(&hands, 5), ("T6 97".to_string(), 1));
    assert_eq!(pack_hand_labels(&hands, 0), ("T6".to_string(), 2));
    assert_eq!(pack_hand_labels(&vec![], 9), (String::new(), 0));
    assert_eq!(pack_hand_labels(&hands, usize::MAX), ("T6 97 AT5".to_string(), 0));
    assert_eq!(fmt_rc_range(-20, 20, -20, 20), "any RC");
    assert_eq!(fmt_rc_range(-20, 3, -20, 20), "RC \u{2264} +3");
    assert_eq!(fmt_rc_range(4, 20, -20, 20), "RC \u{2265} +4");
    assert_eq!(fmt_rc_range(-4, -4, -20, 20), "RC = -4");
    assert_eq!(fmt_rc_range(-4, 3, -20, 20), "RC -4..+3");
    let runs = vec![(Move::Hit, -20, 3), (Move::Stand, 4, 20)];
    let line: Line<Fixed> = rc_run_line(CountKind::Running, &runs, None, 1, -20, 20, Some(5), 2);
    assert_eq!(line_text(&line), " \u{203a}S  RC \u{2265} +4");
    assert!(line.pieces[0].face.bold);
    let line: Line<Fixed> = rc_run_line(CountKind::Running, &runs, None, 1, -20, 20, None, 4);
    assert_eq!(line_text(&line), "    S  RC \u{2265} +4");
    let line: Line<Fixed> = rc_run_line(CountKind::Running, &runs, None, 1, -20, 20, None, 0);
    assert_eq!(line_text(&line), " S  RC \u{2265} +4");
}

/// True counts lie between the whole ones: a move that deviates from the one without a count
/// owns the ends of its run.
#[test]
fn deviations_own_their_ends() {
    let runs = vec![(Move::Hit, -9, 0), (Move::Stand, 1, 4), (Move::Double, 5, 9)];
    let texts = |basic: Option<Move>| -> Vec<String> {
        (0..3)
            .map(|i| fmt_run_range(CountKind::TrueCount, &runs, basic, i, -9, 9))
            .collect()
    };
    assert_eq!(
        texts(Some(Move::Hit)),
        vec!["TC < +1", "TC \u{2265} +1, < +5", "TC \u{2265} +5"]
    );
    assert_eq!(
        texts(Some(Move::Double)),
        vec!["TC < +1", "TC \u{2265} +1, \u{2264} +4", "TC > +4"]
    );
    assert_eq!(
        texts(None),
        vec!["TC \u{2264} +0", "TC \u{2265} +1, \u{2264} +4", "TC \u{2265} +5"]
    );
    assert_eq!(fmt_tc_range(-9, 9, -9, 9, true, true), "any TC");
    assert_eq!(fmt_run_range(CountKind::Running, &runs, None, 1, -9, 9), "RC +1..+4");
}

#[test]
fn values_of_a_cell() {
    let cat = HandCategory::Soft(18);
    assert_eq!(popup_title(cat, Card::Ten), format!(" {} vs T ", cat.to_text()));
    let groups = vec![
        (Move::Stand, vec![cards("A7"), cards("A25")]),
        (Move::Hit, vec![cards("A34")]),
    ];
    let c = cell(Move::Stand, true, groups);
    let report = report_with(cat, vec![(Move::Stand, -20, 2), (Move::Double, 3, 20)]);
    let text = page_text(&popup_view(Some(&c), Some(CountKind::Running), Some(&report), cat, Some(0)));
    assert_eq!(text[0], "  Stand     +0.1250 *");
    assert_eq!(text[1], "  Hit       -0.2500");
    assert!(text[2].contains(" by hand ") && text[2].starts_with(" \u{2500}"));
    assert_eq!(text[3], "  S  A7 A52");
    assert_eq!(text[4], "  H  A43");
    assert!(text[5].contains(" count index (exact RC) "));
    assert_eq!(text[6], " \u{203a}S  RC \u{2264} +2");
    assert_eq!(text[7], "  D  RC \u{2265} +3");
    assert_eq!(text[8], "  if can't double:");
    assert_eq!(text[9], "    H  RC \u{2264} -1");
    assert_eq!(text[10], "   \u{203a}S  RC \u{2265} +0");
    assert_eq!(text[11], "");
    assert_eq!(text[12], "  hjkl move \u{00b7} Esc close");
    assert_eq!(text.len(), 13);
    let waiting = page_text(&popup_view::<Fixed>(None, None, None, cat, None));
    assert_eq!(waiting[0], "computing\u{2026}");
    assert_eq!(waiting.len(), 3);
}

#[test]
fn status_lines() {
    let mut ui = Ui::new();
    let c = cell(Move::Stand, true, vec![]);
    let text = page_text(&footer_view(&ui, Some(&c), Some(fixed(-5_000_000)), 0, fixed(-76_923_000)));
    assert_eq!(
        text[0],
        "decks \u{221e} | H17 | DAS \u{2713} | peek \u{2713} | BJ 3:2 | surr late | split\u{2264}4"
    );
    assert_eq!(text[1], "count off | edge -0.500% | insurance -0.077");
    assert_eq!(
        text[2],
        "H5 vs 2 \u{2192} Stand* +0.125    hjkl move \u{00b7} Enter EVs \u{00b7} r rules \u{00b7} c count \u{00b7} q quit"
    );
    ui.count_on = true;
    let text = page_text(&footer_view::<Fixed>(&ui, None, None, 4, fixed(0)));
    assert_eq!(text[1], "count n/a(\u{221e}) | edge \u{2026}  computing 6/10 | insurance +0.000");
    assert!(text[2].starts_with("H5 vs 2 \u{2192} \u{2026}    "));
    ui.shoe = ShoeChoice::Decks(6);
    let text = page_text(&footer_view::<Fixed>(&ui, None, None, 4, fixed(0)));
    assert!(text[1].starts_with("count KO RC==+0 | "));
}

#[test]
fn panels_of_rules_and_count() {
    let ui = Ui::new();
    let page: Page<Fixed> = rules_view(&ui.rules, ui.shoe, 2);
    let text = page_text(&page);
    assert_eq!(text[0], "  Decks         \u{221e}  ");
    assert_eq!(text[5], "  Surrender     late  ");
    assert_eq!(text[7], format!("  Split prec.   {}  ", ui.rules.split_cards));
    assert!(page.lines[2].pieces[0].face.reversed && !page.lines[1].pieces[0].face.reversed);
    assert_eq!(text[9], "  jk select \u{00b7} hl change \u{00b7} Esc apply");
    let text = page_text(&count_view::<Fixed>(&ui));
    assert_eq!(text[0], "  Counting      \u{2717}  ");
    assert_eq!(text[1], "  System        KO  ");
    assert_eq!(text[2], "  Condition     RC == 0  ");
    assert_eq!(text[4], "  (count applies to a finite shoe only)");
    assert_eq!(text.len(), 6);
    let mut ui = ui;
    ui.shoe = ShoeChoice::Decks(2);
    ui.count_sel = 2;
    ui.count = CountSetting {
        external: -3,
        how: CountCmp::Le,
        system: CountSystemId::HiLo,
    };
    let page: Page<Fixed> = count_view(&ui);
    let text = page_text(&page);
    assert_eq!(text[2], "  Condition     TC <= -1.5  ");
    assert_eq!(text.len(), 5);
    let picked: Vec<bool> = page.lines[2].pieces.iter().map(|p| p.face.reversed).collect();
    assert_eq!(picked, vec![false, false, false, true, false]);
}
