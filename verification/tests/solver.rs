use blackjack::card::Card;
use blackjack::chart::{
    bs_edge_term, bs_value_tree, category_breakdown, summarize_cells, summarize_evs,
    summarize_with, table_move, CellInfo, ChartTable,
};
use blackjack::drawing::{InfiniteDeck, Shoe};
use blackjack::hand::{best_move, categorize, HandCategory, Move, MoveEvs};
use blackjack::num::Scalar;
use blackjack::reach::{combinatoric_weights, reach_weights};
use blackjack::round::build_evs;
use blackjack::rules::{BjPayout, PeekRule, PeekSurrender, Ruleset, EXACT_SPLIT};
use blackjack::shoe::CardCol;
use blackjack::simulation::Basis;
use blackjack::solve::{edge_term, EvTree};
use blackjack::split::split_move_ev;

/// Double precision, with the meaning of each operation being the operation.
#[derive(Clone, Copy, Debug)]
struct F(f64);

impl Scalar for F {
    fn plus_spec(self, rhs: F) -> F {
        F(self.0 + rhs.0)
    }
    fn minus_spec(self, rhs: F) -> F {
        F(self.0 - rhs.0)
    }
    fn times_spec(self, rhs: F) -> F {
        F(self.0 * rhs.0)
    }
    fn over_spec(self, rhs: F) -> F {
        F(self.0 / rhs.0)
    }
    fn less_spec(self, rhs: F) -> bool {
        self.0 < rhs.0
    }
    fn ratio_spec(num: i64, den: i64) -> F {
        F(num as f64 / den as f64)
    }
    fn floor_spec(self) -> i64 {
        self.0.floor() as i64
    }
    fn plus(self, rhs: F) -> F {
        F(self.0 + rhs.0)
    }
    fn minus(self, rhs: F) -> F {
        F(self.0 - rhs.0)
    }
    fn times(self, rhs: F) -> F {
        F(self.0 * rhs.0)
    }
    fn over(self, rhs: F) -> F {
        F(self.0 / rhs.0)
    }
    fn less(self, rhs: F) -> bool {
        self.0 < rhs.0
    }
    fn ratio(num: i64, den: i64) -> F {
        F(num as f64 / den as f64)
    }
    fn floor(self) -> i64 {
        self.0.floor() as i64
    }
}

fn ruleset_with(split_cards: u8) -> Ruleset {
    Ruleset {
        split_cards,
        ..Ruleset::default()
    }
}

fn ev_tree(up_card: Card) -> EvTree<F> {
    build_evs(&CardCol::from_decks(2), up_card, &ruleset_with(0))
}

fn cells_for(decks: u8, up_card: Card) -> ChartTable<CellInfo<F>> {
    let shoe = CardCol::from_decks(decks);
    let rules = ruleset_with(0);
    let tree: EvTree<F> = build_evs(&shoe, up_card, &rules);
    let reach = reach_weights(&shoe, up_card, &rules, &tree, true);
    summarize_cells(&tree, &reach)
}

fn strategy_for(up_card: Card) -> ChartTable<CellInfo<F>> {
    cells_for(2, up_card)
}

fn assert_close(actual: F, expected: f64, label: &str) {
    assert!(
        (actual.0 - expected).abs() < 1e-9,
        "{label}: got {}, expected {expected}",
        actual.0
    );
}

fn evs_of(tree: &EvTree<F>, hand: &str) -> MoveEvs<F> {
    tree.get(&CardCol::try_from(hand).unwrap()).unwrap().1
}

#[test]
fn soft20_vs_5_move_evs() {
    let tree = ev_tree(Card::Pip(5));
    let evs = evs_of(&tree, "9A");
    assert_close(evs.get(Move::Stand).unwrap(), 0.674_582_770_421_14, "stand");
    assert_close(evs.get(Move::Hit).unwrap(), 0.261_623_004_258_03, "hit");
    assert_close(evs.get(Move::Double).unwrap(), 0.523_246_008_516_06, "double");
    assert_close(evs.get(Move::Surrender).unwrap(), -0.5, "surrender");
}

#[test]
fn late_surrender_hard_cells() {
    let vs_ten = strategy_for(Card::Ten);
    let hard = |t: &ChartTable<CellInfo<F>>, n: u8| t.get(HandCategory::Hard(n)).unwrap().headline;
    assert_eq!(hard(&vs_ten, 15), Move::Surrender, "H15 vs T");
    assert_eq!(hard(&vs_ten, 16), Move::Surrender, "H16 vs T");

    let vs_ace = strategy_for(Card::Ace);
    assert_eq!(hard(&vs_ace, 15), Move::Surrender, "H15 vs A");
    assert_eq!(hard(&vs_ace, 16), Move::Surrender, "H16 vs A");
    assert_eq!(hard(&vs_ace, 17), Move::Surrender, "H17 vs A");
}
#[test]
fn basic_strategy_anchors_vs_5() {
    let strat = strategy_for(Card::Pip(5));
    let at = |cat: HandCategory| strat.get(cat).unwrap().headline;
    assert_eq!(at(HandCategory::Hard(16)), Move::Stand, "H16 vs 5");
    assert_eq!(at(HandCategory::Hard(11)), Move::Double, "H11 vs 5");
    assert_eq!(at(HandCategory::Hard(8)), Move::Hit, "H8 vs 5");
    assert_eq!(at(HandCategory::Soft(18)), Move::Double, "S18 vs 5");
}

#[test]
fn single_deck_h15_vs_ten_hits() {
    let cells = cells_for(1, Card::Ten);
    let h15 = cells.get(HandCategory::Hard(15)).unwrap();
    assert_eq!(h15.headline, Move::Hit, "single-deck H15 vs T should hit");
    assert!(h15.composition_dependent);
}

#[test]
fn two_deck_h15_vs_ten_surrenders_but_flagged() {
    let cells = cells_for(2, Card::Ten);
    let h15 = cells.get(HandCategory::Hard(15)).unwrap();
    assert_eq!(h15.headline, Move::Surrender, "2-deck H15 vs T still surrenders");
    assert!(h15.composition_dependent);
}

#[test]
fn uniform_cell_not_flagged() {
    let cells = cells_for(2, Card::Pip(6));
    let h20 = cells.get(HandCategory::Hard(20)).unwrap();
    assert_eq!(h20.headline, Move::Stand);
    assert!(!h20.composition_dependent, "hard 20 vs 6 is uniformly stand");
}

#[test]
fn split_decisions_under_peek() {
    let vs_ten = strategy_for(Card::Ten);
    let pair = |t: &ChartTable<CellInfo<F>>, c: Card| t.get(HandCategory::Pair(c)).unwrap().headline;
    assert_eq!(pair(&vs_ten, Card::Ace), Move::Split, "A,A vs T");
    assert_eq!(pair(&vs_ten, Card::Pip(8)), Move::Split, "8,8 vs T");
    assert_eq!(pair(&vs_ten, Card::Pip(9)), Move::Stand, "9,9 vs T");

    let vs_ace = strategy_for(Card::Ace);
    assert_eq!(pair(&vs_ace, Card::Ace), Move::Split, "A,A vs A");
    assert_eq!(pair(&vs_ace, Card::Pip(9)), Move::Stand, "9,9 vs A");
}

#[test]
fn split_decisions_vs_6() {
    let strat = strategy_for(Card::Pip(6));
    let pair = |c: Card| strat.get(HandCategory::Pair(c)).unwrap().headline;
    assert_eq!(pair(Card::Ace), Move::Split, "A,A vs 6");
    assert_eq!(pair(Card::Pip(8)), Move::Split, "8,8 vs 6");
    assert_eq!(pair(Card::Pip(9)), Move::Split, "9,9 vs 6");
    assert_eq!(pair(Card::Pip(2)), Move::Split, "2,2 vs 6");
    assert_eq!(pair(Card::Pip(5)), Move::Double, "5,5 vs 6");
    assert_eq!(pair(Card::Ten), Move::Stand, "T,T vs 6");
}

#[test]
fn bj_payout_rule_axis() {
    let tree_32: EvTree<F> = build_evs(&CardCol::from_decks(2), Card::Pip(5), &ruleset_with(0));
    assert_close(evs_of(&tree_32, "TA").stand.unwrap(), 1.5, "3:2 natural vs 5");

    let six_five = Ruleset {
        bj_payout: BjPayout::SixToFive,
        split_cards: 0,
        ..Ruleset::default()
    };
    let tree_65: EvTree<F> = build_evs(&CardCol::from_decks(2), Card::Pip(5), &six_five);
    assert_close(evs_of(&tree_65, "TA").stand.unwrap(), 1.2, "6:5 natural vs 5");
}

#[test]
fn bs_value_follows_table_at_every_node() {
    let up = Card::Ace;
    let shoe = CardCol::from_decks(2);
    let rules = ruleset_with(0);
    let tree: EvTree<F> = build_evs(&shoe, up, &rules);
    let reach = reach_weights(&shoe, up, &rules, &tree, true);
    let summary = summarize_cells(&tree, &reach);
    let mut table: ChartTable<MoveEvs<F>> = ChartTable::new();
    for i in 0..summary.len() {
        table.push(summary.row(i), summary.value(i).move_evs);
    }
    let bs = bs_value_tree(&shoe, up, &rules, &tree, &table);

    assert_eq!(
        summary.get(HandCategory::Hard(17)).unwrap().headline,
        Move::Surrender
    );

    let multi17 = CardCol::from_hand(&[Card::Ten, Card::Pip(4), Card::Pip(3)]);
    assert_eq!(categorize(&multi17), HandCategory::Hard(17));
    let stand = tree.get(&multi17).unwrap().1.stand.unwrap();
    assert_close(*bs.get(&multi17).unwrap(), stand.0, "multi-card H17 falls back to table Stand");

    for i in 0..tree.len() {
        let hand = tree.hand(i);
        if hand.len() != 2 || hand.is_nat21() {
            continue;
        }
        let mv = &tree.value(i).1;
        let charted = table_move(table.get(categorize(&hand)), mv);
        let value = *bs.get(&hand).unwrap();
        if charted != Move::Hit {
            assert_close(value, mv.get(charted).unwrap().0, "two-card root = charted move EV");
        }
        let opt = mv.best().unwrap().1;
        assert!(value.0 <= opt.0 + 1e-12, "BS value {} > optimal {}", value.0, opt.0);
    }

    assert!(
        bs_edge_term(&tree, &bs).value().0 <= edge_term(&tree).value().0 + 1e-12,
        "BS edge must not beat optimal edge"
    );
}

fn player_edge<S: Shoe<F>>(shoe: &S, rules: &Ruleset) -> f64 {
    let mut edge = 0.0;
    for (up, p_up) in shoe.all_draw_probs() {
        let tree: EvTree<F> = build_evs(shoe, up, rules);
        edge += p_up.0 * edge_term(&tree).value().0;
    }
    edge
}

#[test]
fn player_edge_band() {
    let edge = player_edge(&InfiniteDeck {}, &ruleset_with(0));
    assert_close(F(edge), -0.006_294_265_713_365_8, "infinite-deck edge");
}

#[test]
fn peek_dominates_no_peek() {
    let with_peek = |peek| Ruleset {
        peek,
        split_cards: 0,
        ..Ruleset::default()
    };
    let peek_edge = player_edge(
        &InfiniteDeck {},
        &with_peek(PeekRule::Peek(PeekSurrender::Never)),
    );
    let no_peek_edge = player_edge(
        &InfiniteDeck {},
        &with_peek(PeekRule::NoPeek {
            early_surrender: false,
        }),
    );
    assert!(
        no_peek_edge < peek_edge,
        "no-peek edge {no_peek_edge} should be below peek edge {peek_edge}"
    );
}

#[test]
fn summarize_evs_baseline_h20_vs_5() {
    let summary = summarize_evs(&ev_tree(Card::Pip(5)));
    let stand = summary.get(HandCategory::Hard(20)).unwrap().stand.unwrap();
    assert_close(stand, 0.675_691_276_588_821_4, "combinatoric H20 vs 5 stand");
}

#[test]
fn split_on_infinite_deck_terminates() {
    let tree: EvTree<F> = build_evs(&InfiniteDeck {}, Card::Pip(6), &Ruleset::default());
    let pair = CardCol::from_hand(&[Card::Ace, Card::Ace]);
    let evs = tree.get(&pair).unwrap().1;
    let split = evs.split.unwrap().0;
    assert!(split > evs.stand.unwrap().0, "A,A split beats standing on soft 12 vs 6");
    assert!(split > 0.0 && split < 1.0, "A,A vs 6 split EV in a sane range: {split}");
}

#[test]
fn exact_split_matches_independent_on_infinite_deck() {
    let indep = ruleset_with(0);
    let exact = ruleset_with(EXACT_SPLIT);
    let shoe = InfiniteDeck {};
    for r in [Card::Pip(8), Card::Pip(9), Card::Ace] {
        let pair = CardCol::from_hand(&[r, r]);
        let a: F = split_move_ev(&pair, &shoe, Basis::new(Card::Pip(6), &indep), &indep);
        let b: F = split_move_ev(&pair, &shoe, Basis::new(Card::Pip(6), &exact), &exact);
        assert_close(a, b.0, "exact vs independent (infinite deck)");
    }
}

fn half_deck_without(pair: &CardCol) -> CardCol {
    CardCol::half_deck() - *pair
}

#[test]
fn exact_split_runs_on_finite_shoe() {
    let indep = ruleset_with(0);
    let exact = ruleset_with(EXACT_SPLIT);
    let pair = CardCol::from_hand(&[Card::Pip(8), Card::Pip(8)]);
    let shoe = half_deck_without(&pair);
    let a: F = split_move_ev(&pair, &shoe, Basis::new(Card::Pip(6), &indep), &indep);
    let b: F = split_move_ev(&pair, &shoe, Basis::new(Card::Pip(6), &exact), &exact);
    assert!(b.0.is_finite(), "exact split EV is finite: {}", b.0);
    assert!(
        (a.0 - b.0).abs() < 0.1,
        "exact and independent stay close on a finite shoe: {} vs {}",
        a.0,
        b.0
    );
}

#[test]
fn limited_split_matches_extremes_on_infinite_deck() {
    let shoe = InfiniteDeck {};
    let exact = ruleset_with(EXACT_SPLIT);
    for cards in [0u8, 1, 2, 5, u8::MAX] {
        let lim = ruleset_with(cards);
        for r in [Card::Pip(8), Card::Pip(9), Card::Ace] {
            let pair = CardCol::from_hand(&[r, r]);
            let a: F = split_move_ev(&pair, &shoe, Basis::new(Card::Pip(6), &lim), &lim);
            let b: F = split_move_ev(&pair, &shoe, Basis::new(Card::Pip(6), &exact), &exact);
            assert_close(a, b.0, "limited equals exact (infinite deck)");
        }
    }
}

#[test]
fn limited_split_zero_budget_is_independent_on_finite_shoe() {
    let indep = ruleset_with(0);
    let lim0 = ruleset_with(0);
    let pair = CardCol::from_hand(&[Card::Pip(8), Card::Pip(8)]);
    let shoe = half_deck_without(&pair);
    let up = Card::Pip(6);
    let a: F = split_move_ev(&pair, &shoe, Basis::new(up, &indep), &indep);
    let b: F = split_move_ev(&pair, &shoe, Basis::new(up, &lim0), &lim0);
    assert_close(a, b.0, "zero budget is independent arms (finite shoe)");
}

#[test]
fn limited_split_approaches_exact_on_finite_shoe() {
    let indep = ruleset_with(0);
    let exact = ruleset_with(EXACT_SPLIT);
    let lim = ruleset_with(6);
    let pair = CardCol::from_hand(&[Card::Pip(8), Card::Pip(8)]);
    let shoe = half_deck_without(&pair);
    let up = Card::Pip(6);
    let independent: F = split_move_ev(&pair, &shoe, Basis::new(up, &indep), &indep);
    let exact_ev: F = split_move_ev(&pair, &shoe, Basis::new(up, &exact), &exact);
    let limited: F = split_move_ev(&pair, &shoe, Basis::new(up, &lim), &lim);
    assert!(limited.0.is_finite(), "limited split EV is finite: {}", limited.0);
    assert!(
        (limited.0 - exact_ev.0).abs() <= (independent.0 - exact_ev.0).abs() + 1e-9,
        "limited is no further from exact than independent arms"
    );
}

#[test]
fn reach_weights_on_infinite_deck() {
    let up = Card::Pip(6);
    let rules = ruleset_with(0);
    let tree: EvTree<F> = build_evs(&InfiniteDeck {}, up, &rules);
    let reach = reach_weights(&InfiniteDeck {}, up, &rules, &tree, true);
    for i in 0..reach.len() {
        let m = reach.value(i).0;
        assert!(m >= 0.0 && m.is_finite());
    }

    let combo = summarize_with(&tree, &combinatoric_weights(&tree));
    let game = summarize_with(&tree, &reach);
    let h16 = game.get(HandCategory::Hard(16)).unwrap();
    assert!(h16.stand.unwrap().0 > h16.hit.unwrap().0, "hard 16 vs 6 stands");

    for i in 0..combo.len() {
        let cat = combo.row(i);
        for mv in [Move::Hit, Move::Stand, Move::Double, Move::Split, Move::Surrender] {
            if let Some(cv) = combo.value(i).get(mv) {
                let gv = game.get(cat).unwrap().get(mv).unwrap();
                assert!(
                    (cv.0 - gv.0).abs() < 1e-12,
                    "{cat:?} {mv:?}: combinatoric {} vs game-time {} differ on the infinite deck",
                    cv.0,
                    gv.0
                );
            }
        }
    }
}

#[test]
fn reach_weight_hard16_breakdown() {
    let up = Card::Pip(6);
    let shoe = CardCol::from_decks(2);
    let rules = ruleset_with(0);
    let tree: EvTree<F> = build_evs(&shoe, up, &rules);
    let reach = reach_weights(&shoe, up, &rules, &tree, false);

    let mut two_card_mass = 0.0;
    for i in 0..tree.len() {
        if tree.hand(i).len() == 2 {
            two_card_mass += reach.get(&tree.hand(i)).unwrap().0;
        }
    }
    assert!((two_card_mass - 1.0).abs() < 1e-9, "two-card seed = {two_card_mass}");
    for i in 0..reach.len() {
        assert!(reach.value(i).0 >= 0.0);
    }

    let rows = category_breakdown(HandCategory::Hard(16), &tree, &reach);
    assert!(rows.iter().any(|r| r.hand.len() == 2));
    for pair in rows.windows(2) {
        let shift = |r: &blackjack::chart::ShareRow<F>| (r.reached.0 - r.stored.0).abs();
        assert!(shift(&pair[0]) >= shift(&pair[1]));
    }
}

fn argmax(m: &MoveEvs<F>) -> (Move, F) {
    m.best().unwrap()
}

#[test]
fn reweighting_decision_shift_vs_ten() {
    let up = Card::Ten;
    let shoe = CardCol::from_decks(2);
    let rules = ruleset_with(0);
    let tree: EvTree<F> = build_evs(&shoe, up, &rules);

    let combo = summarize_with(&tree, &combinatoric_weights(&tree));
    let game = summarize_with(&tree, &reach_weights(&shoe, up, &rules, &tree, true));

    for tot in 12..=16u8 {
        let cat = HandCategory::Hard(tot);
        let (cm, ce) = argmax(combo.get(cat).unwrap());
        let (gm, ge) = argmax(game.get(cat).unwrap());
        println!("  H{tot:<2}  {cm:?} ({:+.4})   {gm:?} ({:+.4})", ce.0, ge.0);
        let hs = |s: &MoveEvs<F>| s.hit.unwrap().0 - s.stand.unwrap().0;
        println!(
            "         Hit-Stand gap: combinatoric {:+.4}, game-time {:+.4}",
            hs(combo.get(cat).unwrap()),
            hs(game.get(cat).unwrap())
        );
    }
}

#[test]
fn split_arm_correction() {
    let rules = ruleset_with(0);
    for up in [Card::Pip(6), Card::Ten, Card::Ace, Card::Pip(2)] {
        let shoe = CardCol::from_decks(2);
        let tree: EvTree<F> = build_evs(&shoe, up, &rules);
        let no_split = reach_weights(&shoe, up, &rules, &tree, false);
        let with_split = reach_weights(&shoe, up, &rules, &tree, true);

        let mut entry = 0.0;
        for i in 0..tree.len() {
            let hand = tree.hand(i);
            let splits = best_move(&tree.value(i).1) == Move::Split;
            if splits && blackjack::hand::pair_rank(&hand) != Some(Card::Ace) {
                entry += no_split.get(&hand).map(|m| m.0).unwrap_or(0.0);
            }
        }
        let total = |t: &blackjack::table::HandTable<F>| {
            (0..t.len()).map(|i| t.value(i).0).sum::<f64>()
        };
        let t0 = total(&no_split);
        let t1 = total(&with_split);
        println!("  {up:?}  entry {entry:.5}   {t0:.5}   {t1:.5}   downstream {:.5}", t1 - t0);
        assert!(t1 >= t0);
    }
}

#[test]
fn split_arm_lands_on_pair_fed_cells() {
    let up = Card::Pip(6);
    let shoe = CardCol::from_decks(2);
    let rules = ruleset_with(0);
    let tree: EvTree<F> = build_evs(&shoe, up, &rules);
    let no_split = reach_weights(&shoe, up, &rules, &tree, false);
    let with_split = reach_weights(&shoe, up, &rules, &tree, true);
    let eight_six_two = CardCol::try_from("862").unwrap();
    assert_eq!(categorize(&eight_six_two), HandCategory::Hard(16));
    let ns = no_split.get(&eight_six_two).map(|m| m.0).unwrap_or(0.0);
    let ws = with_split.get(&eight_six_two).map(|m| m.0).unwrap_or(0.0);
    assert!(ws >= ns);
}

/// The hands of a cell go by the move that is best for each, in the order in which moves are
/// listed, and more frequent hands come first.
#[test]
fn groups_of_a_cell_are_in_order() {
    let up = Card::Ten;
    let shoe = CardCol::from_decks(1);
    let rules = ruleset_with(0);
    let tree: EvTree<F> = build_evs(&shoe, up, &rules);
    let reach = reach_weights(&shoe, up, &rules, &tree, true);
    let summary = summarize_cells(&tree, &reach);
    let listed = [Move::Stand, Move::Hit, Move::Double, Move::Split, Move::Surrender];
    let mut mixed = 0;
    for i in 0..summary.len() {
        let groups = &summary.value(i).breakdown;
        let places: Vec<usize> = groups
            .iter()
            .map(|(mv, _)| listed.iter().position(|m| m == mv).unwrap())
            .collect();
        assert!(places.windows(2).all(|w| w[0] < w[1]), "{places:?}");
        if groups.len() > 1 {
            mixed += 1;
        }
        for (mv, hands) in groups {
            assert!(hands.iter().all(|h| best_move(&tree.get(h).unwrap().1) == *mv));
            let mass: Vec<f64> = hands.iter().map(|h| reach.get(h).unwrap().0).collect();
            assert!(mass.windows(2).all(|w| w[0] >= w[1]), "{mass:?}");
        }
    }
    assert!(mixed > 0, "some row is played by the hand");
}
