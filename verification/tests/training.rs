use rand::rngs::SmallRng;
use rand::SeedableRng;

use blackjack::card::Card;
use blackjack::chart::ChartTable;
use blackjack::config::ShoeChoice;
use blackjack::count::CountSystemId;
use blackjack::drill::{MoveOutcome, Notice, Training};
use blackjack::grading::{
    best_allowed_move, coerce_available, finite_move_evs, grade_decision, run_eval, run_move,
    simple_move, EvalJob, EvalResult, Reference, TrainStats,
};
use blackjack::hand::{HandCategory, HandState, Move, MoveEvs};
use blackjack::num::Fixed;
use blackjack::rules::{BjPayout, PeekRule, Ruleset};
use blackjack::shoe::CardCol;
use blackjack::sweep::{CategoryIndex, IndexReport};
use blackjack::training::{HandResult, OpeningEnd, Pace, Phase, Table, TrainHand, TrainShoe};
use blackjack::trainview::{
    cards_total_label, count_panel_title, count_panel_view, count_quiz_view, feedback_view,
    felt_view, move_key_hint, stats_view, training_footer_view,
};
use blackjack::view::{Line, Page, Word};

const ONE: i64 = 1_000_000_000;

fn cards(s: &str) -> CardCol {
    CardCol::try_from(s).unwrap()
}

fn list(s: &str) -> Vec<Card> {
    s.chars().map(|c| Card::try_from(c).unwrap()).collect()
}

fn four(s: &str) -> [Card; 4] {
    let v = list(s);
    [v[0], v[1], v[2], v[3]]
}

fn fixed(raw: i64) -> Fixed {
    Fixed { raw }
}

fn line_text(line: &Line<Fixed>) -> String {
    let mut out = String::new();
    for piece in &line.pieces {
        match &piece.word {
            Word::Text(s) => out.push_str(s),
            Word::Number(v, d) => {
                let x = v.raw as f64 / 1e9;
                let places = d.places as usize;
                let s = if d.signed {
                    format!("{x:+.places$}")
                } else {
                    format!("{x:.places$}")
                };
                out.push_str(&s);
            }
            Word::Fill(n) => {
                while out.chars().count() < *n {
                    out.push(' ');
                }
            }
        }
    }
    out
}

fn page_text(page: &Page<Fixed>) -> Vec<String> {
    page.lines.iter().map(line_text).collect()
}

/// A round up to the end of the layout.
fn opened(decks: u8, opening: &str, rules: &Ruleset) -> (Table<Fixed>, OpeningEnd) {
    let mut t: Table<Fixed> = Table::new(ShoeChoice::Decks(decks));
    t.start_round(four(opening));
    assert_eq!(t.phase(), Phase::Dealing);
    assert!(t.deal_step(rules).is_none());
    assert!(t.deal_step(rules).is_none());
    let end = t.deal_step(rules).unwrap();
    (t, end)
}

/// The count that goes with the cards a player has seen.
fn count_after(decks: u8, seen: &str) -> i16 {
    let mut c = CountSystemId::Ko.starting_count(decks);
    for card in list(seen) {
        c += CountSystemId::Ko.map(&card);
    }
    c
}

#[test]
fn shoes_of_the_table() {
    let mut rng = SmallRng::seed_from_u64(3);
    let mut shoe = TrainShoe::from_choice(ShoeChoice::Decks(1));
    assert_eq!(shoe.choice(), ShoeChoice::Decks(1));
    assert!(shoe.is_finite());
    assert_eq!(shoe.cards_left(), Some(52));
    assert!(!shoe.needs_shuffle());
    let mut drawn = CardCol::new();
    while !shoe.needs_shuffle() {
        drawn.insert(shoe.draw(&mut rng));
    }
    // A quarter of the shoe is left when it is shuffled.
    assert_eq!(shoe.cards_left(), Some(52 - drawn.len()));
    assert!(drawn.is_submultiset(&CardCol::from_decks(1)));
    let decks: Fixed = shoe.decks_remaining().unwrap();
    assert_eq!(decks.raw, (52 - drawn.len()) as i64 * ONE / 52);
    shoe.reset();
    assert_eq!(shoe.cards_left(), Some(52));
    let endless = TrainShoe::from_choice(ShoeChoice::Infinite);
    assert!(!endless.is_finite() && !endless.needs_shuffle());
    assert_eq!(endless.cards_left(), None);
    assert!(endless.decks_remaining::<Fixed>().is_none());
}

#[test]
fn a_round_is_laid_out() {
    let rules = Ruleset::default();
    let mut t: Table<Fixed> = Table::new(ShoeChoice::Decks(6));
    assert_eq!(t.phase(), Phase::Ready);
    assert_eq!(t.running_count(), count_after(6, ""));
    t.start_round(four("T965"));
    assert_eq!(t.hands()[0].cards, list("T"));
    assert_eq!(t.pace(), Some(Pace::Deal));
    assert_eq!(t.running_count(), count_after(6, "T"));
    assert!(t.deal_step(&rules).is_none());
    assert_eq!(t.dealer(), &list("9"));
    assert!(t.deal_step(&rules).is_none());
    assert_eq!(t.running_count(), count_after(6, "T96"));
    assert_eq!(t.deal_step(&rules), Some(OpeningEnd::Play));
    // The hole card is not counted before it is shown.
    assert_eq!(t.running_count(), count_after(6, "T96"));
    assert!(t.hole_down());
    assert_eq!(t.phase(), Phase::Player);
    assert_eq!(t.hands()[0].cards, list("T6"));
    assert_eq!(t.dealer(), &list("95"));
    assert_eq!(t.shoe().cards_left(), Some(6 * 52 - 4));
}

#[test]
fn hitting_and_the_dealers_turn() {
    let rules = Ruleset::default();
    let (mut t, end) = opened(6, "T965", &rules);
    assert_eq!(end, OpeningEnd::Play);
    assert!(t.allowed_move(Move::Hit, &rules) && t.allowed_move(Move::Surrender, &rules));
    assert!(!t.allowed_move(Move::Split, &rules));
    t.apply_move(Move::Hit, &list("2"), &rules);
    assert_eq!(t.phase(), Phase::Player);
    assert_eq!(t.hands()[0].state(), HandState::Hard(18));
    assert!(!t.allowed_move(Move::Double, &rules) && !t.allowed_move(Move::Surrender, &rules));
    t.apply_move(Move::Stand, &vec![], &rules);
    assert_eq!(t.phase(), Phase::Dealer);
    assert_eq!(t.pace(), Some(Pace::Dealer));
    // The first card that the dealer turns is the hole card.
    assert!(!t.dealer_draws());
    assert!(t.dealer_step(Card::Ace, &rules).is_none());
    assert_eq!(t.running_count(), count_after(6, "T9625"));
    assert!(t.dealer_draws());
    // 14 takes a card, 24 is bust.
    let net = t.dealer_step(Card::Ten, &rules).unwrap();
    assert_eq!(net.raw, ONE);
    assert_eq!(t.phase(), Phase::Settled);
    assert_eq!(t.hands()[0].result, Some(HandResult::Win));
    assert_eq!(t.running_count(), count_after(6, "T9625T"));
}

#[test]
fn naturals_end_the_layout() {
    let rules = Ruleset::default();
    // A dealer who looks shows a natural; against one of the player's it is a push.
    let (mut t, end) = opened(6, "AATT", &rules);
    assert_eq!(end, OpeningEnd::DealerNatural);
    let net = t.dealer_step(Card::Ace, &rules).unwrap();
    assert_eq!(net.raw, 0);
    assert_eq!(t.hands()[0].result, Some(HandResult::Push));
    let (mut t, end) = opened(6, "9AT T".replace(' ', "").as_str(), &rules);
    assert_eq!(end, OpeningEnd::DealerNatural);
    assert_eq!(t.dealer_step(Card::Ace, &rules).unwrap().raw, -ONE);
    // A natural of the player's is paid, and the dealer draws no card for it.
    let (mut t, end) = opened(6, "A6T5", &rules);
    assert_eq!(end, OpeningEnd::PlayerNatural);
    assert_eq!(t.dealer_step(Card::Ace, &rules).unwrap().raw, 3 * ONE / 2);
    assert_eq!(t.hands()[0].result, Some(HandResult::Blackjack));
    assert_eq!(t.dealer(), &list("65"));
    let six_five = Ruleset {
        bj_payout: BjPayout::SixToFive,
        ..rules
    };
    let (mut t, _) = opened(6, "A6T5", &six_five);
    assert_eq!(t.dealer_step(Card::Ace, &six_five).unwrap().raw, 6 * ONE / 5);
    // Without a look the player acts before the natural is shown.
    let blind = Ruleset {
        peek: PeekRule::NoPeek { early_surrender: false },
        ..rules
    };
    let (_, end) = opened(6, "9ATT", &blind);
    assert_eq!(end, OpeningEnd::Play);
}

#[test]
fn splitting_doubling_surrendering() {
    let rules = Ruleset::default();
    let (mut t, _) = opened(6, "8686", &rules);
    assert!(t.allowed_move(Move::Split, &rules));
    t.apply_move(Move::Split, &list("38"), &rules);
    assert_eq!(t.hands().len(), 2);
    assert_eq!(t.hands()[0].cards, list("83"));
    assert_eq!(t.hands()[1].cards, list("88"));
    assert!(t.hands()[0].from_split && t.hands()[1].from_split);
    assert!(!t.allowed_move(Move::Surrender, &rules));
    t.apply_move(Move::Double, &list("T"), &rules);
    assert_eq!(t.active(), 1);
    assert_eq!(t.hands()[0].bet.raw, 2 * ONE);
    t.apply_move(Move::Stand, &vec![], &rules);
    assert!(t.dealer_step(Card::Ten, &rules).is_none());
    // 6, 6 and 7 make 19: the doubled 21 wins two, 16 loses one.
    let net = t.dealer_step(Card::Pip(7), &rules).unwrap();
    assert_eq!(net.raw, ONE);
    assert_eq!(t.hands()[0].result, Some(HandResult::Win));
    assert_eq!(t.hands()[1].result, Some(HandResult::Lose));
    // Split aces stand, and twenty-one on them is no natural.
    let (mut t, _) = opened(6, "A6A6", &rules);
    t.apply_move(Move::Split, &list("TT"), &rules);
    assert_eq!(t.phase(), Phase::Dealer);
    assert_eq!(t.hands()[0].state(), HandState::Soft(21));
    let no_das = Ruleset { das: false, ..rules };
    let (mut t, _) = opened(6, "8686", &no_das);
    t.apply_move(Move::Split, &list("38"), &no_das);
    assert!(!t.allowed_move(Move::Double, &no_das));
    // Surrender costs half the bet and ends the round.
    let (mut t, _) = opened(6, "T968", &rules);
    t.apply_move(Move::Surrender, &vec![], &rules);
    assert_eq!(t.phase(), Phase::Dealer);
    let net = t.dealer_step(Card::Ten, &rules).unwrap();
    assert_eq!(net.raw, -ONE / 2);
    assert_eq!(t.hands()[0].result, Some(HandResult::Surrender));
    // A bust hand loses, and the dealer draws no card for it.
    let (mut t, _) = opened(6, "T968", &rules);
    t.apply_move(Move::Hit, &list("T"), &rules);
    assert_eq!(t.phase(), Phase::Dealer);
    assert_eq!(t.dealer_step(Card::Ten, &rules).unwrap().raw, -ONE);
    assert_eq!(t.hands()[0].result, Some(HandResult::Bust));
    let labels: Vec<&str> = [
        HandResult::Blackjack,
        HandResult::Win,
        HandResult::Push,
        HandResult::Lose,
        HandResult::Bust,
        HandResult::Surrender,
    ]
    .iter()
    .map(|r| r.label())
    .collect();
    assert_eq!(labels.len(), 6);
    assert_eq!(labels[2].to_lowercase(), "push");
}

/// Whatever is dealt, the count is that of exactly the cards the player has seen.
#[test]
fn count_is_that_of_the_cards_seen() {
    let rules = Ruleset::default();
    let mut rng = SmallRng::seed_from_u64(11);
    let mut game: Training<Fixed> = Training::new(ShoeChoice::Decks(2));
    let mut seen = CardCol::new();
    for _ in 0..40 {
        let left = game.table.shoe().cards_left().unwrap();
        let shuffled = game.table.shoe().needs_shuffle();
        assert!(game.table.can_deal());
        game.deal(&mut rng);
        if shuffled {
            seen = CardCol::new();
        } else {
            assert_eq!(game.table.shoe().cards_left(), Some(left - 4));
        }
        while game.table.phase() != Phase::Settled {
            match game.table.phase() {
                Phase::Dealing => game.deal_step(&rules),
                Phase::Player => {
                    let moves = game.allowed_moves(&rules);
                    let mv = if moves.contains(&Move::Split) { Move::Split } else { moves[0] };
                    let r = game.player_move(mv, &mut rng, &rules, None);
                    assert!(matches!(r, MoveOutcome::Made { .. }));
                }
                _ => game.dealer_step(&mut rng, &rules),
            }
        }
        for hand in game.table.hands() {
            for c in &hand.cards {
                seen.insert(*c);
            }
        }
        for c in game.table.dealer() {
            seen.insert(*c);
        }
        let mut c = CountSystemId::Ko.starting_count(2);
        for (card, n) in seen.iter() {
            c += CountSystemId::Ko.map(&card) * n as i16;
        }
        assert_eq!(game.table.running_count(), c);
        assert_eq!(game.table.shoe().cards_left(), Some(104 - seen.len()));
    }
    assert_eq!(game.stats.rounds, 40);
}

#[test]
fn session_refuses_and_counts() {
    let rules = Ruleset::default();
    let mut game: Training<Fixed> = Training::new(ShoeChoice::Decks(6));
    assert!(matches!(game.notice, Notice::Welcome));
    assert!(game.basic_rules == Ruleset::default());
    assert!(matches!(
        game.player_move_with(Move::Hit, &vec![], &rules, None),
        MoveOutcome::Ignored
    ));
    game.deal_cards(four("T965"));
    assert!(matches!(game.notice, Notice::Dealing));
    for _ in 0..3 {
        game.deal_step(&rules);
    }
    assert!(matches!(game.notice, Notice::YourMove));
    assert_eq!(
        game.allowed_moves(&rules),
        vec![Move::Hit, Move::Stand, Move::Double, Move::Surrender]
    );
    assert!(matches!(
        game.player_move_with(Move::Split, &vec![], &rules, None),
        MoveOutcome::Refused
    ));
    assert!(matches!(game.notice, Notice::NotAllowed(Move::Split)));
    game.entering_count = true;
    game.count_entry = game.table.running_count();
    game.submit_count();
    assert!(matches!(game.notice, Notice::CountCorrect(_)));
    game.count_entry += 1;
    game.submit_count();
    assert!(matches!(game.notice, Notice::CountWas { .. }));
    assert_eq!((game.stats.count_quizzes, game.stats.count_correct), (2, 1));
    let job = match game.player_move_with(Move::Hit, &list("2"), &rules, Some(Move::Stand)) {
        MoveOutcome::Made { job, .. } => job,
        _ => panic!("the move is allowed"),
    };
    assert_eq!(job.up, Card::Pip(9));
    assert!(job.opening && job.chosen == Move::Hit && job.hand == cards("T6"));
    // The player knows all cards but the hole card's place: it counts as unseen.
    let known = job.finite_shoe.unwrap();
    assert!(known == CardCol::from_decks(6));
    assert!(game.grading());
    // A result of another session's decision is dropped.
    game.reset_to(ShoeChoice::Decks(2));
    assert!(game
        .take_eval(EvalResult {
            seq: job.seq,
            up: job.up,
            mark: None,
            basic_summary: None,
        })
        .is_none());
    assert!(!game.grading());
    game.sync_shoe(ShoeChoice::Infinite);
    assert_eq!(game.table.shoe().choice(), ShoeChoice::Infinite);
    assert_eq!(game.table.running_count(), 0);
    assert!(game.has_room());
}

#[test]
fn dealer_step_tells_the_net() {
    let rules = Ruleset::default();
    let mut game: Training<Fixed> = Training::new(ShoeChoice::Decks(6));
    game.deal_cards(four("T96T"));
    for _ in 0..3 {
        game.deal_step(&rules);
    }
    game.player_move_with(Move::Stand, &vec![], &rules, None);
    game.dealer_step_with(Card::Ten, &rules);
    assert!(matches!(game.notice, Notice::RoundNet(n) if n.raw == -ONE));
    assert_eq!(game.stats.realized.raw, -ONE);
    assert_eq!(game.stats.units_bet.raw, ONE);
    assert_eq!(Training::<Fixed>::cards_for(Move::Split), 2);
}

#[test]
fn index_of_the_table() {
    let rules = Ruleset::default();
    let mut game: Training<Fixed> = Training::new(ShoeChoice::Decks(6));
    game.deal_cards(four("T96T"));
    for _ in 0..3 {
        game.deal_step(&rules);
    }
    let count = game.table.running_count();
    let mut cats = ChartTable::new();
    cats.push(
        HandCategory::Hard(16),
        CategoryIndex {
            primary: vec![(Move::Split, count - 3, count), (Move::Stand, count + 1, count + 9)],
            fallback: vec![(Move::Hit, count - 3, count), (Move::Stand, count + 1, count + 9)],
            basic: None,
            basic_fallback: None,
        },
    );
    let report = IndexReport {
        lo: count - 3,
        hi: count + 9,
        mark_lo: 0,
        mark_hi: 0,
        cats,
        complete: true,
    };
    // The headline is not allowed on this hand, so the runs below it tell.
    assert_eq!(game.indexed_move(&rules, Some(&report)), Some(Move::Hit));
    assert_eq!(game.indexed_move(&rules, None), None);
    let runs = vec![(Move::Hit, -5, 0), (Move::Stand, 1, 5)];
    assert_eq!(run_move(&runs, 0), Some(Move::Hit));
    assert_eq!(run_move(&runs, 1), Some(Move::Stand));
    assert_eq!(run_move(&vec![], 1), None);
    // A count beyond the ends belongs to the run at the end.
    assert_eq!(run_move(&runs, i16::MIN), Some(Move::Hit));
    assert_eq!(run_move(&runs, i16::MAX), Some(Move::Stand));
}

#[test]
fn reference_plays() {
    // The simple reference: a few totals.
    assert_eq!(simple_move(&cards("T7"), Card::Ten), Move::Stand);
    assert_eq!(simple_move(&cards("T6"), Card::Ten), Move::Hit);
    assert_eq!(simple_move(&cards("T6"), Card::Pip(6)), Move::Stand);
    let mut evs: MoveEvs<Fixed> = MoveEvs::none();
    evs.set(Move::Hit, fixed(-3));
    evs.set(Move::Stand, fixed(-5));
    evs.set(Move::Split, fixed(7));
    assert_eq!(best_allowed_move(&evs, &vec![Move::Hit, Move::Stand]), Move::Hit);
    assert_eq!(best_allowed_move(&evs, &vec![Move::Split, Move::Stand]), Move::Split);
    assert_eq!(coerce_available(Move::Split, &evs), Move::Split);
    assert_eq!(coerce_available(Move::Double, &evs), Move::Hit);
}

#[test]
fn decisions_are_graded() {
    let rules = Ruleset {
        split_cards: 0,
        max_split_hands: 2,
        ..Ruleset::default()
    };
    let job = EvalJob {
        seq: 1,
        up: Card::Ten,
        hand: cards("T6"),
        rules,
        shoe: ShoeChoice::Infinite,
        chosen: Move::Stand,
        allowed: vec![Move::Hit, Move::Stand, Move::Double, Move::Surrender],
        indexed: None,
        finite_shoe: None,
        opening: true,
    };
    let result: EvalResult<Fixed> = run_eval(&job, None);
    let mark = result.mark.unwrap();
    assert_eq!(mark.optimal.mv, Move::Surrender);
    assert!((mark.optimal.ev.raw + ONE / 2).abs() < 100);
    assert_eq!(mark.basic.mv, Move::Surrender);
    assert!(mark.ev_chosen.raw < mark.optimal.ev.raw);
    assert!(mark.indexed.is_none());
    // The chart that was solved for it serves the next decision.
    let again: EvalResult<Fixed> = run_eval(&job, result.basic_summary.as_ref());
    assert_eq!(again.mark.unwrap().basic.ev.raw, mark.basic.ev.raw);
    let mut stats: TrainStats<Fixed> = TrainStats::new();
    assert!(stats.room());
    stats.fold_decision(&mark);
    assert_eq!(stats.decisions, 1);
    let by = |s: &TrainStats<Fixed>, which: Reference| {
        *s.refs.iter().find(|r| r.which == which).unwrap()
    };
    assert_eq!(by(&stats, Reference::Optimal).agree, 0);
    assert!(by(&stats, Reference::Optimal).gap().raw < 0);
    assert_eq!(by(&stats, Reference::Indexed).decisions, 0);
    assert!(!by(&stats, Reference::Indexed).shown());
    // A round without a decision counts the same for all.
    let before = stats.ev_player.raw;
    stats.fold_no_decision(fixed(-ONE));
    assert_eq!(stats.ev_player.raw, before - ONE);
    // Optimal play is not beaten.
    let evs = MoveEvs {
        hit: Some(fixed(-5)),
        stand: Some(fixed(-9)),
        double: None,
        split: None,
        surrender: None,
    };
    let plain = EvalJob {
        allowed: vec![Move::Hit, Move::Stand],
        indexed: Some(Move::Stand),
        ..job
    };
    let mark = grade_decision(&plain, &evs, None);
    assert_eq!(mark.optimal.mv, Move::Hit);
    assert_eq!(mark.indexed.unwrap().ev.raw, -9);
    assert!(mark.simple.ev.raw <= mark.optimal.ev.raw);
}

#[test]
fn values_on_a_known_shoe() {
    let rules = Ruleset {
        split_cards: 0,
        ..Ruleset::default()
    };
    let shoe = cards("TT68T555");
    // Against a ten with only fives left behind T, 6 and 8, hitting sixteen always makes 21
    // or busts on the rest.
    let evs: MoveEvs<Fixed> = finite_move_evs(&shoe, &cards("T6"), Card::Ten, &rules).unwrap();
    assert!(evs.hit.unwrap().raw > evs.stand.unwrap().raw);
    // A hand that the shoe does not hold has no values.
    assert!(finite_move_evs::<Fixed>(&shoe, &cards("99"), Card::Ten, &rules).is_none());
}

#[test]
fn hands_of_the_table() {
    let mut h: TrainHand<Fixed> = TrainHand::new(fixed(ONE));
    assert!(h.cards.is_empty() && !h.finished());
    h.cards = list("A5");
    assert!(h.col() == cards("A5"));
    assert_eq!(h.state(), HandState::Soft(16));
    h.cards = list("A55");
    assert!(h.finished());
    assert_eq!(cards_total_label(&list("A6")), "soft 17");
    assert_eq!(cards_total_label(&list("T6")), "16");
}

#[test]
fn training_panels() {
    let rules = Ruleset::default();
    let (t, _) = opened(6, "T965", &rules);
    let notice: Notice<Fixed> = Notice::YourMove;
    let felt = page_text(&felt_view(&t, &notice, &rules, 40));
    let all = felt.join("\n");
    assert!(all.contains("16"), "{all}");
    assert!(!all.contains("14"), "the hole card is down: {all}");
    let hints: Vec<&str> = [Move::Hit, Move::Stand, Move::Double, Move::Split, Move::Surrender]
        .iter()
        .map(|m| move_key_hint(*m))
        .collect();
    assert_eq!(hints, vec!["h hit", "s stand", "d double", "p split", "r surr"]);
    assert_ne!(count_panel_title(true), count_panel_title(false));
    let stats: TrainStats<Fixed> = TrainStats::new();
    let counted = page_text(&count_panel_view(Some(fixed(5 * ONE)), &stats)).join("\n");
    assert!(counted.contains("5"), "{counted}");
    let quiet = page_text(&feedback_view::<Fixed>(&None, false)).join("\n");
    let busy = page_text(&feedback_view::<Fixed>(&None, true)).join("\n");
    assert_ne!(quiet, busy);
    assert!(!page_text(&stats_view(&stats)).is_empty());
    let foot = page_text(&training_footer_view::<Fixed>(Phase::Player, true)).join("\n");
    let still = page_text(&training_footer_view::<Fixed>(Phase::Ready, true)).join("\n");
    assert_ne!(foot, still);
    let quiz = page_text(&count_quiz_view::<Fixed>(-3)).join("\n");
    assert!(quiz.contains("-3"), "{quiz}");
}

/// A move that is not made takes no card, so an empty shoe is no hindrance; and the guess of
/// the count moves by one.
#[test]
fn refused_moves_take_no_card() {
    let rules = Ruleset::default();
    let mut rng = SmallRng::seed_from_u64(5);
    let mut game: Training<Fixed> = Training::new(ShoeChoice::Decks(1));
    let mut other: Training<Fixed> = Training::new(ShoeChoice::Decks(1));
    assert!(matches!(
        game.player_move(Move::Hit, &mut rng, &rules, None),
        MoveOutcome::Ignored
    ));
    assert_eq!(game.table.shoe().cards_left(), Some(52));
    game.deal_cards(four("T965"));
    for _ in 0..3 {
        game.deal_step(&rules);
    }
    assert!(matches!(
        game.player_move(Move::Split, &mut rng, &rules, None),
        MoveOutcome::Refused
    ));
    assert_eq!(game.table.shoe().cards_left(), Some(48));
    // Nothing was drawn, so nothing was asked of the generator.
    other.deal(&mut rng);
    let mut fresh = SmallRng::seed_from_u64(5);
    let mut again: Training<Fixed> = Training::new(ShoeChoice::Decks(1));
    again.deal(&mut fresh);
    assert_eq!(other.table.dealer(), again.table.dealer());
    let was = game.count_entry;
    game.open_count();
    assert!(game.entering_count);
    game.move_guess(true);
    game.move_guess(true);
    game.move_guess(false);
    assert_eq!(game.count_entry, was + 1);
    game.cancel_count();
    assert!(!game.entering_count && game.count_entry == was + 1);
}
