use blackjack::card::Card;
use blackjack::chart::{CellInfo, ChartTable};
use blackjack::column::{
    count_penetration, hand_count_value, merge_count_frames, references, solve_counted, solve_on,
};
use blackjack::config::{CountSetting, ShoeChoice};
use blackjack::count::{CountCmp, CountCondition, CountKind, CountSystemId, Penetration};
use blackjack::countshoe::CountShoe;
use blackjack::drawing::{InfiniteDeck, Shoe};
use blackjack::hand::{is_start_only, HandCategory, Move, MoveEvs};
use blackjack::num::Scalar;
use blackjack::reach::reach_weights;
use blackjack::round::build_evs;
use blackjack::rules::Ruleset;
use blackjack::shoe::CardCol;
use blackjack::solve::{edge_term, EvTree};
use blackjack::sweep::{
    basic_moves, flips_in_band, hit_or_stand, index_job, index_job_with, occurrence_window,
    tells_basic, CategoryIndex, ColumnEval,
};

/// Double precision, with the meaning of each operation being the operation.
#[derive(Clone, Copy, Debug)]
struct F(f64);

impl Scalar for F {
    fn plus_spec(self, rhs: F) -> F {
        F(self.0 + rhs.0)
    }
    fn minus_spec(self, rhs: F) -> F {
        F(self.0 - rhs.0)
    }
    fn times_spec(self, rhs: F) -> F {
        F(self.0 * rhs.0)
    }
    fn over_spec(self, rhs: F) -> F {
        F(self.0 / rhs.0)
    }
    fn less_spec(self, rhs: F) -> bool {
        self.0 < rhs.0
    }
    fn ratio_spec(num: i64, den: i64) -> F {
        F(num as f64 / den as f64)
    }
    fn floor_spec(self) -> i64 {
        self.0.floor() as i64
    }
    fn plus(self, rhs: F) -> F {
        F(self.0 + rhs.0)
    }
    fn minus(self, rhs: F) -> F {
        F(self.0 - rhs.0)
    }
    fn times(self, rhs: F) -> F {
        F(self.0 * rhs.0)
    }
    fn over(self, rhs: F) -> F {
        F(self.0 / rhs.0)
    }
    fn less(self, rhs: F) -> bool {
        self.0 < rhs.0
    }
    fn ratio(num: i64, den: i64) -> F {
        F(num as f64 / den as f64)
    }
    fn floor(self) -> i64 {
        self.0.floor() as i64
    }
}

fn cards(s: &str) -> CardCol {
    CardCol::try_from(s).unwrap()
}

/// Rules under which a column is solved in no time.
fn quick() -> Ruleset {
    Ruleset {
        max_split_hands: 1,
        split_cards: 0,
        ..Ruleset::default()
    }
}

#[test]
fn count_shoe_matches_finite_deck_when_fully_known() {
    let rules = Ruleset {
        max_split_hands: 1,
        ..Ruleset::default()
    };
    let full = CardCol::from_decks(1).len() as u16;
    for up in [Card::Pip(6), Card::Ten, Card::Ace] {
        let finite: EvTree<F> = build_evs(&CardCol::from_decks(1), up, &rules);
        let cshoe: CountShoe<F> = CountShoe::new(
            CountSystemId::Ko,
            1,
            CountCondition::Eq(CountSystemId::Ko.full_shoe_count(1)),
            Penetration::CardsRemaining(full),
        );
        let counted: EvTree<F> = build_evs(&cshoe, up, &rules);

        assert_eq!(finite.len(), counted.len(), "tree size differs");
        for i in 0..finite.len() {
            let (w_f, moves_f) = finite.value(i);
            let (w_c, moves_c) = counted
                .get(&finite.hand(i))
                .expect("count tree missing a hand");
            assert!((w_f.0 - w_c.0).abs() < 1e-9, "pooling weight differs");
            for mv in [Move::Hit, Move::Stand, Move::Double, Move::Split, Move::Surrender] {
                match (moves_f.get(mv), moves_c.get(mv)) {
                    (Some(ev_f), Some(ev_c)) => {
                        let off = ev_f.0 - ev_c.0;
                        assert!(off.abs() < 1e-9, "EV differs by {off}");
                    }
                    (None, None) => {}
                    _ => panic!("move set differs"),
                }
            }
        }
    }
}

#[test]
fn sixteen_against_ten_changes_with_the_count() {
    let eval: ColumnEval<F> =
        ColumnEval::new(CountKind::Running, 1, Card::Ten, &quick())
            .expect("usable window");
    let (_, ci) = eval.category_index(HandCategory::Hard(16));
    assert!(
        ci.primary.len() >= 2,
        "expected a count deviation for 16 vs T, got {:?}",
        ci.primary
    );
    assert_eq!(ci.primary.first().unwrap().0, Move::Hit, "low count should Hit");
    assert_ne!(
        ci.primary.last().unwrap().0,
        Move::Hit,
        "high count should deviate off Hit"
    );
    if ci.primary.iter().any(|&(m, _, _)| is_start_only(m)) {
        assert!(
            !ci.fallback.is_empty(),
            "a start-only headline move needs a Hit/Stand fallback ladder"
        );
    }
}

#[test]
fn soft_sixteen_against_three_is_marked() {
    let eval: ColumnEval<F> =
        ColumnEval::new(CountKind::Running, 1, Card::Pip(3), &quick())
            .expect("usable window");
    let (mlo, mhi) = eval.mark_band();
    let (_, ci) = eval.category_index(HandCategory::Soft(16));
    assert!(
        ci.primary.iter().any(|&(m, _, _)| m == Move::Double),
        "expected a Hit-to-Double deviation, got primary={:?}",
        ci.primary
    );
    assert!(
        ci.count_dependent_in_band(mlo, mhi),
        "soft 16 vs 3 must be marked; primary={:?} band=[{mlo},{mhi}]",
        ci.primary
    );
}

#[test]
fn sixteen_against_ten_changes_near_true_count_zero() {
    let eval: ColumnEval<F> =
        ColumnEval::new(CountKind::TrueCount, 1, Card::Ten, &quick())
            .expect("usable window");
    let (_, ci) = eval.category_index(HandCategory::Hard(16));
    assert!(
        ci.primary.len() >= 2,
        "expected a true-count deviation for 16 vs T, got {:?}",
        ci.primary
    );
    assert_eq!(ci.primary.first().unwrap().0, Move::Hit, "low TC should Hit");
    assert_ne!(
        ci.primary.last().unwrap().0,
        Move::Hit,
        "high TC should deviate off Hit"
    );
    let boundary = ci.primary.first().unwrap().2;
    assert!((-4..=4).contains(&boundary), "got Hit up to {boundary}");
}

#[test]
fn windows_of_counts() {
    let dist: Vec<(i16, F)> = vec![
        (-3, F(0.01)),
        (-2, F(0.04)),
        (-1, F(0.25)),
        (0, F(0.4)),
        (1, F(0.25)),
        (2, F(0.05)),
    ];
    assert_eq!(occurrence_window(&dist, F(0.0)), (-3, 2));
    assert_eq!(occurrence_window(&dist, F(0.02)), (-2, 2));
    assert_eq!(occurrence_window(&dist, F(0.06)), (-1, 1));
    let ko: Vec<(i16, F)> =
        CountShoe::external_count_distribution(CountSystemId::Ko, 1, count_penetration());
    let sum: f64 = ko.iter().map(|p| p.1 .0).sum();
    assert!((sum - 1.0).abs() < 1e-9);
    let (lo, hi) = occurrence_window(&ko, F(0.001));
    assert!(lo < 4 && 4 < hi, "the pivot is a common count: [{lo},{hi}]");
}

#[test]
fn runs_in_a_band() {
    let runs = vec![(Move::Hit, -20, 0), (Move::Stand, 1, 20)];
    assert!(flips_in_band(&runs, 0, 1));
    assert!(flips_in_band(&runs, -5, 5));
    assert!(!flips_in_band(&runs, 2, 5));
    let ci = CategoryIndex {
        primary: vec![(Move::Double, -20, 3), (Move::Hit, 4, 8), (Move::Double, 9, 20)],
        fallback: runs,
        basic: None,
        basic_fallback: None,
    };
    assert_eq!(ci.start_only_moves(), vec![Move::Double]);
    assert!(ci.count_dependent_in_band(0, 1) && !ci.count_dependent_in_band(-9, -3));
    let mut evs: MoveEvs<F> = MoveEvs::none();
    assert_eq!(hit_or_stand(&evs), None);
    evs.set(Move::Stand, F(-0.1));
    assert_eq!(hit_or_stand(&evs), Some(Move::Stand));
    evs.set(Move::Hit, F(0.1));
    assert_eq!(hit_or_stand(&evs), Some(Move::Hit));
}

#[test]
fn index_report_of_a_column() {
    let job = index_job::<F>(CountKind::Running, 1, Card::Ten, &quick()).expect("usable window");
    assert!(!job.report().complete);
    let report = job.light().finish();
    assert!(report.complete);
    assert_eq!(report.cats.len(), 36);
    let sixteen = report.cats.get(HandCategory::Hard(16)).unwrap();
    assert_eq!(sixteen.primary.first().unwrap().1, report.lo);
    assert_eq!(sixteen.primary.last().unwrap().2, report.hi);
    // The moves without a count are told for true counts only.
    assert!(sixteen.basic.is_none());
    assert!(report.mark_lo <= report.mark_hi);
}

#[test]
fn columns_of_shoes() {
    let rules = quick();
    let endless = ShoeChoice::Infinite.solve::<F>(Card::Pip(6), &rules, None);
    assert!((endless.p_up.0 - 1.0 / 13.0).abs() < 1e-12);
    let plain = solve_on::<F, InfiniteDeck>(&InfiniteDeck {}, Card::Pip(6), &rules);
    let twelve = |t: &ChartTable<CellInfo<F>>| t.get(HandCategory::Hard(12)).unwrap().headline;
    assert_eq!(twelve(&endless.summary), Move::Stand);
    assert_eq!(twelve(&plain.summary), Move::Stand);
    assert!((endless.edge.value().0 - plain.edge.value().0).abs() < 1e-12);
    let one = ShoeChoice::Decks(1).solve::<F>(Card::Pip(6), &rules, None);
    assert!((one.p_up.0 - 1.0 / 13.0).abs() < 1e-12);
    let ins = ShoeChoice::Infinite.insurance::<F>(None);
    assert!((ins.0 + 1.0 / 13.0).abs() < 1e-12);
    let ins = ShoeChoice::Decks(1).insurance::<F>(None);
    assert!((ins.0 - (3.0 * 16.0 / 51.0 - 1.0)).abs() < 1e-12, "{}", ins.0);
    // At a high count there are more tens among the unseen cards.
    let high = CountSetting {
        external: 8,
        how: CountCmp::Ge,
        system: CountSystemId::Ko,
    };
    let counted = ShoeChoice::Decks(1).insurance::<F>(Some(high));
    assert!(counted.0 > ins.0);
}

#[test]
fn counted_columns_lean_the_right_way() {
    let rules = quick();
    let edge = |value: i16, how: CountCmp| {
        solve_counted::<F>(CountSystemId::Ko, 1, value, how, Card::Ten, &rules)
            .edge
            .value()
            .0
    };
    assert!(edge(8, CountCmp::Ge) > edge(-4, CountCmp::Le));
}

#[test]
fn frames_are_merged_by_their_count() {
    assert_eq!(hand_count_value(CountSystemId::Ko, &cards("2T")), 0);
    assert_eq!(hand_count_value(CountSystemId::Ko, &cards("22")), 2);
    assert_eq!(hand_count_value(CountSystemId::Ko, &cards("AT")), -2);
    let rules = quick();
    let deck = InfiniteDeck {};
    let tree: EvTree<F> = build_evs(&deck, Card::Pip(9), &rules);
    let reach = reach_weights(&deck, Card::Pip(9), &rules, &tree, true);
    let trees = vec![tree];
    let reaches = vec![reach];
    // With one frame there is nothing to take from another.
    let five: Vec<&EvTree<F>> = (0..5).map(|_| &trees[0]).collect();
    let reach5: Vec<_> = (0..5).map(|_| &reaches[0]).collect();
    let (merged, merged_reach) = merge_count_frames(CountSystemId::Ko, &five, &reach5);
    assert_eq!(merged.len(), trees[0].len());
    for i in 0..merged.len() {
        let a = merged.value(i).1.stand.unwrap().0;
        let b = trees[0].get(&merged.hand(i)).unwrap().1.stand.unwrap().0;
        assert_eq!(a, b);
    }
    assert_eq!(merged_reach.len(), reaches[0].len());
    assert_eq!(references(&vec![1u8, 2]).len(), 2);
}

#[test]
fn moves_without_a_count() {
    let rules = quick();
    let column = solve_on::<F, InfiniteDeck>(&InfiniteDeck {}, Card::Ten, &rules);
    let (basic, fallback) = basic_moves(&column.summary, HandCategory::Hard(16));
    assert_eq!(basic, Some(Move::Surrender));
    assert_eq!(fallback, Some(Move::Hit));
    assert_eq!(basic_moves(&column.summary, HandCategory::Hard(3)), (None, None));
    let p: F = InfiniteDeck {}.draw_prob(&Card::Ten);
    assert!((p.0 - 4.0 / 13.0).abs() < 1e-12);
}

#[test]
fn count_edge_rises_with_running_count() {
    let rules = Ruleset {
        max_split_hands: 1,
        ..Ruleset::default()
    };
    let edge_at = |ext: i16| -> f64 {
        let shoe: CountShoe<F> = CountShoe::from_external(
            CountSystemId::Ko,
            1,
            ext,
            CountCmp::Eq,
            Penetration::FlatPastPercent(25),
        );
        shoe.all_draw_probs()
            .into_iter()
            .map(|(up, p_up)| {
                let tree: EvTree<F> = build_evs(&shoe, up, &rules);
                p_up.0 * edge_term(&tree).value().0
            })
            .sum()
    };
    let low = edge_at(-10);
    let mid = edge_at(0);
    let high = edge_at(10);
    assert!(
        low < mid && mid < high,
        "edge must rise with running count: RC-10 {low:+.4}, RC0 {mid:+.4}, RC+10 {high:+.4}"
    );
    assert!(
        high > 0.0,
        "a strongly positive count must give the player an edge, got {high:+.4}"
    );
}

/// A window drops no more than its tail off either end, and what may be marked lies in the
/// sweep.
#[test]
fn windows_drop_little() {
    let ko: Vec<(i16, F)> =
        CountShoe::external_count_distribution(CountSystemId::Ko, 1, count_penetration());
    for tail in [0.0, 0.01, 0.1, 0.3] {
        let (lo, hi) = occurrence_window(&ko, F(tail));
        let below: f64 = ko.iter().filter(|p| p.0 < lo).map(|p| p.1 .0).sum();
        let above: f64 = ko.iter().filter(|p| p.0 > hi).map(|p| p.1 .0).sum();
        assert!(below <= tail + 1e-12 && above <= tail + 1e-12, "[{lo},{hi}]");
    }
    for kind in [CountKind::Running, CountKind::TrueCount] {
        let eval: ColumnEval<F> = ColumnEval::new(kind, 1, Card::Ten, &quick()).unwrap();
        let (low, high) = eval.mark_band();
        assert!(eval.lo() <= low && low <= high && high <= eval.hi());
    }
    let empty: Option<ColumnEval<F>> = ColumnEval::build_running(1, Card::Ten, &quick(), 5, 4);
    assert!(empty.is_none());
    let far: Option<ColumnEval<F>> =
        ColumnEval::build_running(1, Card::Ten, &quick(), 32_760, i16::MAX);
    assert!(far.is_none());
}

/// A report for true counts begins from a chart without a count, solved or at hand.
#[test]
fn reports_begin_from_a_chart_at_hand() {
    assert!(tells_basic(CountKind::TrueCount) && !tells_basic(CountKind::Running));
    let rules = quick();
    let plain = solve_on::<F, CardCol>(&CardCol::from_decks(1), Card::Ten, &rules);
    let kind = CountKind::TrueCount;
    let given = index_job_with(kind, 1, Card::Ten, &rules, Some(plain.summary)).unwrap();
    let solved = index_job::<F>(kind, 1, Card::Ten, &rules).unwrap();
    let (a, b) = (given.report(), solved.report());
    assert_eq!((a.lo, a.hi, a.mark_lo, a.mark_hi), (b.lo, b.hi, b.mark_lo, b.mark_hi));
    assert!(a.cats.len() == 0 && !a.complete);
}
