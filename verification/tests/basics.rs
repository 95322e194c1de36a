use rand::rngs::SmallRng;
use rand::SeedableRng;

use blackjack::cache::{entry_name, open_entry, seal_entry};
use blackjack::card::{Card, CardError};
use blackjack::combinat::{binomial, check_hg_norm_weights, check_hg_weights};
use blackjack::dealer::{
    dealer_hit, dealer_outcome, dealer_outcome_index, dealer_outcome_probs, remove_nat21,
    DealerHand, DealerOutcome, N_DEALER_OUTCOMES,
};
use blackjack::drawing::{hand_prob, InfiniteDeck, Shoe};
use blackjack::hand::{
    best_move, categorize, is_start_only, listed_move, move_name, pair_rank, HandCategory,
    HandState, Move, MoveEvs,
};
use blackjack::index::{coalesce_runs, seed_points};
use blackjack::listing::listed_partitions;
use blackjack::num::{from_whole, is_zero, max_of, Fixed, Scalar};
use blackjack::partitions::WeightedPartitions;
use blackjack::round::{build_evs, pair_split_ev, pair_split_evs};
use blackjack::rules::{
    BjPayout, PeekRule, PeekSurrender, Ruleset, SurrenderRule, EXACT_SPLIT,
};
use blackjack::shoe::CardCol;
use blackjack::simulation::{
    conditional_dealer_dist, conditional_draw_probs, dealer_natural_prob, insurance_ev,
    natural_hole_rank, resolve_ev, stand_ev,
};
use blackjack::solve::{edge_term, solve_hand, splittable_pairs, EvTree};
use blackjack::split::split_move_ev;
use blackjack::table::{HandTable, Memo};
use blackjack::simulation::Basis;
use blackjack::text::{
    push_count, push_decimal, push_repeated, push_signed, push_text, set_left, set_middle,
    set_right, text_of,
};

/// Fractions in lowest terms: an exact arithmetic.
#[derive(Clone, Copy, Debug, PartialEq)]
struct Q(i128, i128);

fn q(num: i128, den: i128) -> Q {
    assert!(den != 0, "a fraction over zero");
    let (mut a, mut b) = (num.abs(), den.abs());
    while b != 0 {
        (a, b) = (b, a % b);
    }
    let s = if den < 0 { -1 } else { 1 };
    Q(s * num / a.max(1), s * den / a.max(1))
}

impl Scalar for Q {
    fn plus_spec(self, rhs: Q) -> Q {
        self.plus(rhs)
    }
    fn minus_spec(self, rhs: Q) -> Q {
        self.minus(rhs)
    }
    fn times_spec(self, rhs: Q) -> Q {
        self.times(rhs)
    }
    fn over_spec(self, rhs: Q) -> Q {
        self.over(rhs)
    }
    fn less_spec(self, rhs: Q) -> bool {
        self.less(rhs)
    }
    fn ratio_spec(num: i64, den: i64) -> Q {
        q(num as i128, den as i128)
    }
    fn floor_spec(self) -> i64 {
        self.floor()
    }
    fn plus(self, rhs: Q) -> Q {
        q(self.0 * rhs.1 + rhs.0 * self.1, self.1 * rhs.1)
    }
    fn minus(self, rhs: Q) -> Q {
        q(self.0 * rhs.1 - rhs.0 * self.1, self.1 * rhs.1)
    }
    fn times(self, rhs: Q) -> Q {
        q(self.0 * rhs.0, self.1 * rhs.1)
    }
    fn over(self, rhs: Q) -> Q {
        q(self.0 * rhs.1, self.1 * rhs.0)
    }
    fn less(self, rhs: Q) -> bool {
        self.0 * rhs.1 < rhs.0 * self.1
    }
    fn ratio(num: i64, den: i64) -> Q {
        q(num as i128, den as i128)
    }
    fn floor(self) -> i64 {
        self.0.div_euclid(self.1) as i64
    }
}

fn cards(s: &str) -> CardCol {
    CardCol::try_from(s).unwrap()
}

fn fixed(raw: i64) -> Fixed {
    Fixed { raw }
}

#[test]
fn fixed_arithmetic() {
    let third = Fixed::ratio(1, 3);
    assert_eq!(third.raw, 333_333_333);
    assert_eq!(Fixed::ratio(-1, 3).raw, -333_333_333);
    assert_eq!(Fixed::ratio(1, -3).raw, -333_333_333);
    assert_eq!(Fixed::ratio(7, 0).raw, 0);
    assert_eq!(third.plus(third).raw, 666_666_666);
    assert_eq!(third.minus(fixed(1_000_000_000)).raw, -666_666_667);
    assert_eq!(fixed(1_500_000_000).times(fixed(2_500_000_000)).raw, 3_750_000_000);
    assert_eq!(fixed(-1_000_000_000).over(fixed(8_000_000_000)).raw, -125_000_000);
    assert_eq!(fixed(1).over(fixed(0)).raw, 0);
    assert_eq!(fixed(i64::MAX).plus(fixed(1)).raw, i64::MAX);
    assert_eq!(fixed(i64::MIN).minus(fixed(1)).raw, i64::MIN);
    assert_eq!(fixed(i64::MAX).times(fixed(i64::MAX)).raw, i64::MAX);
    assert!(fixed(-1).less(fixed(0)) && !fixed(0).less(fixed(0)));
    assert_eq!(fixed(1_999_999_999).floor(), 1);
    assert_eq!(fixed(-1).floor(), -1);
    let three: Fixed = from_whole(3);
    assert_eq!(three.raw, 3_000_000_000);
    assert_eq!(max_of(fixed(2), fixed(5)).raw, 5);
    assert!(is_zero(fixed(0)) && !is_zero(fixed(-1)));
}

#[test]
fn cards_from_values_and_characters() {
    assert_eq!(Card::try_from(1u8), Ok(Card::Ace));
    assert_eq!(Card::try_from(9u8), Ok(Card::Pip(9)));
    assert_eq!(Card::try_from(10u8), Ok(Card::Ten));
    assert_eq!(Card::try_from(11u8), Err(CardError::Value(11)));
    assert_eq!(Card::try_from(0u8), Err(CardError::Value(0)));
    assert_eq!(Card::try_from('A'), Ok(Card::Ace));
    assert_eq!(Card::try_from('T'), Ok(Card::Ten));
    assert_eq!(Card::try_from('7'), Ok(Card::Pip(7)));
    assert_eq!(Card::try_from('x'), Err(CardError::Character('x')));
    assert_eq!(CardError::Value(11).message(), "Invald card value 11");
    assert_eq!(CardError::Character('x').message(), "Invalid card character x");
    assert_eq!(Card::all().len(), 10);
    for (i, card) in Card::all().into_iter().enumerate() {
        assert_eq!(card.rank_index(), i);
        assert_eq!(Card::from_rank_index(i), card);
        assert_eq!(card.hard() as usize, i + 1);
    }
}

#[test]
fn collections_of_cards() {
    let hand = cards("A2T");
    assert_eq!(hand.len(), 3);
    assert_eq!(hand.hard_count(), 13);
    assert_eq!(hand.best_count(), 13);
    assert_eq!(cards("A7").best_count(), 18);
    assert!(cards("AT").is_nat21() && !cards("A55").is_nat21());
    assert_eq!(hand.to_text(), "A:1 2:1 T:1 ");
    assert!(matches!(CardCol::try_from("A2Z"), Err(CardError::Character('Z'))));
    let deck = CardCol::from_decks(1);
    assert_eq!(deck.len(), 52);
    assert_eq!(deck.get_count(&Card::Ten), 16);
    assert_eq!(CardCol::half_deck().len(), 26);
    assert!(hand.is_submultiset(&deck) && !deck.is_submultiset(&hand));
    // Taking cards out and putting them back restores the deck; taking out more than there
    // are leaves none.
    assert!((deck - hand) + hand == deck);
    assert!((hand - deck).is_empty());
    assert_eq!(hand.highest_rank(), Some(Card::Ten));
    assert_eq!(CardCol::new().highest_rank(), None);
    let mut left = hand;
    assert_eq!(left.remove_rank(Card::Ten), 1);
    assert_eq!(left.highest_rank(), Some(Card::Pip(2)));
    assert_eq!(hand.iter(), vec![(Card::Ace, 1), (Card::Pip(2), 1), (Card::Ten, 1)]);
    assert!(CardCol::from_hand(&[Card::Ten, Card::Ace, Card::Pip(2)]) == hand);
}

#[test]
fn pieces_of_text() {
    let mut s = String::new();
    push_decimal(&mut s, -120);
    push_text(&mut s, " ");
    push_signed(&mut s, 7);
    push_text(&mut s, " ");
    push_signed(&mut s, 0);
    push_text(&mut s, " ");
    push_count(&mut s, 42);
    push_repeated(&mut s, '.', 3);
    assert_eq!(s, "-120 +7 +0 42...");
    assert_eq!(set_right("ab", 5), "   ab");
    assert_eq!(set_left("ab", 5), "ab   ");
    assert_eq!(set_middle("ab", '-', 5), "-ab--");
    assert_eq!(set_right("abcdef", 3), "abcdef");
    assert_eq!(text_of("piece"), "piece");
}

#[test]
fn cache_entries_read_back() {
    let key = vec![7u8, 8, 9];
    let value = vec![1u8, 2, 3, 4];
    let raw = seal_entry(&key, &value).unwrap();
    assert_eq!(raw, vec![3, 0, 0, 0, 0, 0, 0, 0, 7, 8, 9, 1, 2, 3, 4]);
    assert_eq!(open_entry(&raw, &key), Some(value));
    // Another key misses, and so does an entry that is cut off.
    assert_eq!(open_entry(&raw, &vec![7u8, 8]), None);
    assert_eq!(open_entry(&raw, &vec![7u8, 8, 8]), None);
    assert_eq!(open_entry(&raw[..10].to_vec(), &key), None);
    assert_eq!(open_entry(&vec![0u8; 4], &key), None);
    assert_eq!(open_entry(&seal_entry(&vec![], &vec![]).unwrap(), &vec![]), Some(vec![]));
    assert_eq!(entry_name("column", 0xab), "column-00000000000000ab.bin");
}

#[test]
fn random_draws_come_from_the_shoe() {
    let mut rng = SmallRng::seed_from_u64(7);
    let mut shoe = cards("A29T");
    let mut seen = CardCol::new();
    for left in (0..4).rev() {
        let card = shoe.draw_rand(&mut rng);
        seen.insert(card);
        assert_eq!(shoe.len(), left);
    }
    assert!(seen == cards("A29T"));
    // A rank that is not there never comes, however often one draws.
    for _ in 0..50 {
        let mut pair = cards("55");
        assert_eq!(pair.draw_rand(&mut rng), Card::Pip(5));
    }
    let mut deck = InfiniteDeck {};
    let mut tens = 0;
    for _ in 0..1300 {
        if deck.draw_rand(&mut rng) == Card::Ten {
            tens += 1;
        }
    }
    assert!((300..500).contains(&tens), "{tens} tens of 1300 cards");
}

#[test]
fn weights_of_a_shoe() {
    assert_eq!(cards("A2255T").rank_weights(), vec![1, 2, 0, 0, 2, 0, 0, 0, 0, 1]);
    assert_eq!(InfiniteDeck {}.rank_weights(), vec![4, 4, 4, 4, 4, 4, 4, 4, 4, 16]);
    let mut shoe = cards("A2255T");
    assert_eq!(shoe.take_rank(4), Card::Pip(5));
    assert!(shoe == cards("A225T"));
}

#[test]
fn ways_to_pick() {
    assert_eq!(binomial(52, 2), 1326);
    assert_eq!(binomial(5, 0), 1);
    assert_eq!(binomial(3, 4), 0);
    assert_eq!(binomial(4, 3), 4);
    let deck = CardCol::from_decks(1);
    assert_eq!(check_hg_weights(&cards("AT"), &deck), 64);
    let p: Q = check_hg_norm_weights(&cards("AT"), &deck);
    assert_eq!(p, q(32, 663));
}

/// The hands that are dealt, and those that are listed, are the same with the same weights:
/// those of the hypergeometric distribution.
#[test]
fn weights_are_hypergeometric() {
    let deck = cards("AA2233455TT");
    for total in 0..=21u8 {
        let mut dealt: Vec<(Q, CardCol)> = Vec::new();
        let mut walk: WeightedPartitions<Q, CardCol> = WeightedPartitions::new(&deck, total);
        while let Some(found) = walk.next() {
            dealt.push(found);
        }
        let listed: Vec<(Q, CardCol)> = listed_partitions(deck, total, 0);
        assert_eq!(dealt.len(), listed.len(), "total {total}");
        for (w, hand) in &dealt {
            assert_eq!(hand.hard_count(), total);
            let p: Q = check_hg_norm_weights(hand, &deck);
            assert_eq!(*w, p);
            let chance: Q = hand_prob(&deck, hand);
            assert_eq!(*w, chance);
            let twin: Vec<&(Q, CardCol)> = listed.iter().filter(|x| x.1 == *hand).collect();
            assert_eq!(twin.len(), 1);
            assert_eq!(twin[0].0, p);
        }
    }
}

#[test]
fn infinite_partitions_are_multinomial() {
    let deck = InfiniteDeck {};
    let mut walk: WeightedPartitions<Q, InfiniteDeck> = WeightedPartitions::new(&deck, 3);
    let mut seen = 0;
    while let Some((w, hand)) = walk.next() {
        seen += 1;
        let chance: Q = hand_prob(&deck, &hand);
        assert_eq!(w, chance);
        if hand == cards("A2") {
            assert_eq!(w, q(2, 169));
        } else if hand == cards("3") {
            assert_eq!(w, q(1, 13));
        } else {
            assert!(hand == cards("AAA"));
            assert_eq!(w, q(1, 2197));
        }
    }
    assert_eq!(seen, 3);
}

#[test]
fn chance_of_a_hand() {
    let shoe = cards("A2T");
    let p: Q = hand_prob(&shoe, &cards("AT"));
    assert_eq!(p, q(1, 3));
    let p: Q = hand_prob(&InfiniteDeck {}, &cards("TT"));
    assert_eq!(p, q(16, 169));
}

/// The chance of a hand is that of the hypergeometric distribution on a finite shoe, and of the
/// multinomial one on the infinite deck.
#[test]
fn chances_of_longer_hands() {
    let deck = cards("AA2233455TT");
    for hand in ["A", "AA", "A2", "A23", "AA5", "23TT", "A2345"] {
        let p: Q = hand_prob(&deck, &cards(hand));
        let q: Q = check_hg_norm_weights(&cards(hand), &deck);
        assert_eq!(p, q, "{hand}");
    }
    let p: Q = hand_prob(&InfiniteDeck {}, &cards("AA2T"));
    // Twelve orders, with the chances 1/13, 1/13, 1/13 and 4/13.
    assert_eq!(p, q(48, 28561));
}

/// The starting hands of a tree are weighed with the chance of being dealt them: together one.
#[test]
fn starting_hands_add_up() {
    let rules = Ruleset {
        max_split_hands: 1,
        ..Ruleset::default()
    };
    let deck = cards("A2355TTTTTTTTTT");
    let tree = build_evs::<Q, CardCol>(&deck, Card::Pip(5), &rules);
    assert_eq!(edge_term(&tree).weight, q(1, 1));
    // Under a ten that the dealer has looked under, a natural of the dealer's is missing: an ace
    // in the hole in one of fourteen deals.
    let peeked = build_evs::<Q, CardCol>(&deck, Card::Ten, &rules);
    let short = q(1, 1).minus(edge_term(&peeked).weight);
    assert_eq!(short, q(1, 14));
}

#[test]
fn dealer_plays_to_17() {
    assert!(dealer_hit(&cards("T6"), false) && !dealer_hit(&cards("T7"), true));
    assert!(dealer_hit(&cards("A6"), true) && !dealer_hit(&cards("A6"), false));
    let hand = DealerHand::from_cards(&cards("A6"));
    assert!(hand.must_hit(true) && !hand.must_hit(false));
    assert_eq!(hand.terminal_outcome(), DealerOutcome::Total(17));
    let natural = DealerHand::from_card_vec(&vec![Card::Ten, Card::Ace]);
    assert_eq!(natural.terminal_outcome(), DealerOutcome::Natural);
    let bust = DealerHand::from_cards(&cards("T6")).with_card(9);
    assert_eq!(bust.terminal_outcome(), DealerOutcome::Bust);
    assert_eq!((bust.num_cards(), bust.hard_total(), bust.best_total()), (3, 26, 26));
    for i in 0..N_DEALER_OUTCOMES {
        assert_eq!(dealer_outcome_index(&dealer_outcome(i)), i);
    }
    assert_eq!(dealer_outcome(5), DealerOutcome::Total(21));
    assert_eq!(DealerOutcome::Bust.to_text(), "Bust");
    assert_eq!(DealerOutcome::Total(18).to_text(), "18");
    assert_eq!(DealerOutcome::Natural.to_text(), "Nat");
}

/// The outcomes add up to one, the natural has the chance of its hole card, and looking at
/// the hole card is conditioning on there being none.
#[test]
fn looking_conditions_the_dealer() {
    let shoe = cards("AA66799TTT");
    let dist: [Q; 7] = dealer_outcome_probs(cards("A"), &shoe, true);
    let sum = dist.iter().fold(q(0, 1), |a, b| a.plus(*b));
    assert_eq!(sum, q(1, 1));
    assert_eq!(dist[6], q(3, 10));
    let natural: Q = dealer_natural_prob(Card::Ace, &shoe);
    assert_eq!(natural, q(3, 10));
    let looked: [Q; 7] = conditional_dealer_dist(Card::Ace, Card::Ten, &shoe, true);
    let renormed = remove_nat21(&dist).unwrap();
    assert_eq!(looked, renormed);
    assert_eq!(looked[6], q(0, 1));
    // A distribution that does not add up is not renormalised.
    assert!(remove_nat21(&[q(1, 2); 7]).is_none());
    let ins: Q = insurance_ev(Card::Ace, &shoe);
    assert_eq!(ins, q(-1, 10));
    assert_eq!(natural_hole_rank(Card::Ten), Some(Card::Ace));
    assert_eq!(natural_hole_rank(Card::Pip(9)), None);
}

#[test]
fn draws_under_a_peeked_ten_move_the_ace_into_the_hole() {
    let shoe = cards("AA22");
    let draws: Vec<(Card, Q)> = conditional_draw_probs(Card::Ace, &shoe);
    // The hole is a two, so one of the three other cards comes: two aces and a two.
    let sum = draws.iter().fold(q(0, 1), |a, b| a.plus(b.1));
    assert_eq!(sum, q(1, 1));
    let ace = draws.iter().find(|d| d.0 == Card::Ace).unwrap().1;
    assert_eq!(ace, q(2, 3));
}

#[test]
fn payoffs() {
    let three_two: Q = BjPayout::ThreeToTwo.multiplier();
    let six_five: Q = BjPayout::SixToFive.multiplier();
    assert_eq!((three_two, six_five), (q(3, 2), q(6, 5)));
    let pay = |p, d| resolve_ev(p, d, three_two);
    assert_eq!(pay(HandState::Natural, DealerOutcome::Natural), q(0, 1));
    assert_eq!(pay(HandState::Natural, DealerOutcome::Total(21)), q(3, 2));
    assert_eq!(pay(HandState::Hard(21), DealerOutcome::Natural), q(-1, 1));
    assert_eq!(pay(HandState::Bust, DealerOutcome::Bust), q(-1, 1));
    assert_eq!(pay(HandState::Soft(18), DealerOutcome::Total(17)), q(1, 1));
    assert_eq!(pay(HandState::Soft(18), DealerOutcome::Total(18)), q(0, 1));
    assert_eq!(pay(HandState::Soft(18), DealerOutcome::Total(19)), q(-1, 1));
    assert_eq!(pay(HandState::Hard(12), DealerOutcome::Bust), q(1, 1));
    let even = [q(1, 7); 7];
    assert_eq!(stand_ev(&even, HandState::Hard(20), three_two), q(2, 7));
}

#[test]
fn hands_and_moves() {
    assert_eq!(HandState::of(&cards("AT")), HandState::Natural);
    assert_eq!(HandState::of(&cards("A6")), HandState::Soft(17));
    assert_eq!(HandState::of(&cards("TT2")), HandState::Bust);
    assert_eq!(categorize(&cards("88")), HandCategory::Pair(Card::Pip(8)));
    assert_eq!(categorize(&cards("A55")), HandCategory::Soft(21));
    assert_eq!(categorize(&cards("T6")), HandCategory::Hard(16));
    assert_eq!(categorize(&cards("AT")), HandCategory::Natural);
    assert_eq!(pair_rank(&cards("88")), Some(Card::Pip(8)));
    assert_eq!(pair_rank(&cards("888")), None);
    assert!(is_start_only(Move::Double) && is_start_only(Move::Surrender));
    assert!(!is_start_only(Move::Hit) && !is_start_only(Move::Stand));
    let letters: Vec<&str> = (0..5).map(|i| listed_move(i).letter()).collect();
    let names: Vec<&str> = (0..5).map(|i| move_name(listed_move(i))).collect();
    for (l, n) in letters.iter().zip(&names) {
        if *n == "Split" {
            assert_eq!(*l, "P");
        } else if *n == "Surrender" {
            assert_eq!(*l, "R");
        } else {
            assert!(n.starts_with(l), "{l} for {n}");
        }
    }
    let mut evs: MoveEvs<Q> = MoveEvs::none();
    assert!(evs.best().is_none());
    evs.set(Move::Hit, q(-1, 2));
    evs.set(Move::Stand, q(-1, 3));
    assert_eq!(best_move(&evs), Move::Stand);
    assert_eq!(evs.best().unwrap().1, q(-1, 3));
    assert_eq!(evs.get(Move::Double), None);
}

#[test]
fn rules_of_the_table() {
    let d = Ruleset::default();
    assert!(d.peek.peeks());
    for dealer_check in [false, true] {
        for s in [SurrenderRule::Never, SurrenderRule::Early, SurrenderRule::Late] {
            match PeekRule::from_axes(dealer_check, s) {
                Some(rule) => {
                    assert_eq!(rule.peeks(), dealer_check);
                    assert_eq!(rule.surrender(), s);
                    assert_eq!(rule.surrender_offered(), s != SurrenderRule::Never);
                }
                None => assert!(!dealer_check && s == SurrenderRule::Late),
            }
        }
    }
    assert_eq!(BjPayout::ThreeToTwo.label(), "3:2");
    assert_eq!(BjPayout::SixToFive.label(), "6:5");
    assert_eq!(EXACT_SPLIT, u8::MAX);
}

/// Long hands hit or stand, naturals stand, two cards may also double and surrender.
#[test]
fn moves_by_the_length_of_the_hand() {
    let rules = Ruleset {
        max_split_hands: 1,
        ..Ruleset::default()
    };
    let shoe = cards("AA2255889TTTT");
    let tree = build_evs::<Fixed, CardCol>(&shoe, Card::Pip(9), &rules);
    for i in 0..tree.len() {
        let hand = tree.hand(i);
        let evs = tree.value(i).1;
        assert!(evs.stand.is_some());
        assert_eq!(evs.hit.is_some(), !hand.is_nat21());
        assert_eq!(evs.double.is_some(), hand.len() == 2 && !hand.is_nat21());
        assert_eq!(
            evs.surrender.map(|x| x.raw),
            if hand.len() == 2 && !hand.is_nat21() {
                Some(-500_000_000)
            } else {
                None
            }
        );
        // No splitting where one hand is the most.
        assert!(evs.split.is_none());
    }
}

#[test]
fn split_budget_does_not_matter_on_the_infinite_deck() {
    let shoe = InfiniteDeck {};
    let value = |split_cards: u8| {
        let rules = Ruleset {
            split_cards,
            max_split_hands: 3,
            ..Ruleset::default()
        };
        let basis = Basis::new(Card::Pip(6), &rules);
        let v: Fixed = split_move_ev(&cards("88"), &shoe, basis, &rules);
        v.raw
    };
    assert_eq!(value(0), value(2));
    assert_eq!(value(0), value(EXACT_SPLIT));
}

#[test]
fn pairs_that_can_be_split() {
    let shoe = cards("A2255T");
    let pairs = splittable_pairs::<Fixed, CardCol>(&shoe);
    assert_eq!(pairs.len(), 2);
    assert!(pairs[0] == cards("22") && pairs[1] == cards("55"));
    let rules = Ruleset {
        split_cards: 0,
        ..Ruleset::default()
    };
    let evs = pair_split_evs::<Fixed, CardCol>(&CardCol::from_decks(1), Card::Pip(6), &rules);
    assert_eq!(evs.len(), 10);
    let one: Fixed = pair_split_ev(&cards("88"), &CardCol::from_decks(1), Card::Pip(6), &rules);
    assert_eq!(evs.get(&cards("88")).unwrap().raw, one.raw);
    let none = Ruleset {
        max_split_hands: 1,
        ..rules
    };
    let empty = pair_split_evs::<Fixed, CardCol>(&CardCol::from_decks(1), Card::Pip(6), &none);
    assert_eq!(empty.len(), 0);
}

#[test]
fn finite_shoe_draws() {
    let shoe = cards("A2T");
    let draws: Vec<(Card, Q)> = shoe.all_draw_probs();
    assert_eq!(draws, vec![(Card::Ace, q(1, 3)), (Card::Pip(2), q(1, 3)), (Card::Ten, q(1, 3))]);
    let p: Q = shoe.draw_prob(&Card::Pip(9));
    assert_eq!(p, q(0, 1));
    let inf: Vec<(Card, Q)> = InfiniteDeck {}.all_draw_probs();
    assert_eq!(inf.len(), 10);
    assert_eq!(inf[8], (Card::Ten, q(4, 13)));
    assert_eq!(inf[9], (Card::Ace, q(1, 13)));
}

/// Between the counts that are looked at first the move changes once, so every count is in
/// a run with its own move.
#[test]
fn runs_give_every_count_its_move() {
    let f = |x: i16| {
        Some(if x < -7 {
            Move::Hit
        } else if x < 3 {
            Move::Stand
        } else if x < 12 {
            Move::Double
        } else {
            Move::Hit
        })
    };
    let runs = coalesce_runs(-20, 20, f);
    for x in -20..=20 {
        let run = runs.iter().find(|r| r.1 <= x && x <= r.2).unwrap();
        assert_eq!(Some(run.0), f(x));
    }
    for w in runs.windows(2) {
        assert_eq!(w[0].2 + 1, w[1].1);
        assert_ne!(w[0].0, w[1].0);
    }
    assert_eq!(seed_points(-20, 20), vec![-20, -10, 0, 10, 20]);
    assert_eq!(seed_points(3, 5), vec![3, 4, 5]);
    assert_eq!(seed_points(5, 3), vec![5]);
    // Where no count has a move there are no runs; a lone count makes one.
    assert!(coalesce_runs(-5, 5, |_| None).is_empty());
    assert_eq!(coalesce_runs(4, 4, |_| Some(Move::Hit)), vec![(Move::Hit, 4, 4)]);
    // A move that comes back between two of those counts is not found.
    assert_eq!(
        coalesce_runs(-20, 20, |x| Some(if x == 5 { Move::Stand } else { Move::Hit })),
        vec![(Move::Hit, -20, 20)]
    );
}

#[test]
fn surrender_rules_have_labels() {
    let rules = [
        PeekRule::Peek(PeekSurrender::Never),
        PeekRule::Peek(PeekSurrender::Early),
        PeekRule::Peek(PeekSurrender::Late),
        PeekRule::NoPeek { early_surrender: false },
        PeekRule::NoPeek { early_surrender: true },
    ];
    let labels: Vec<&str> = rules.iter().map(|r| r.surrender_label()).collect();
    assert_eq!(labels, vec!["none", "early", "late", "none", "early"]);
}

#[test]
fn memos_keep_what_is_put_in() {
    for buckets in [0, 1, 7] {
        let mut memo: Memo<CardCol, u8> = Memo::new(buckets);
        assert_eq!(memo.get(&cards("A2")), None);
        memo.insert(cards("A2"), 5);
        memo.insert(cards("T6"), 6);
        assert_eq!(memo.get(&cards("A2")), Some(&5));
        assert_eq!(memo.get(&cards("T6")), Some(&6));
        assert_eq!(memo.get(&cards("T7")), None);
        // A value takes the place of the one that was there.
        memo.insert(cards("A2"), 9);
        assert_eq!(memo.get(&cards("A2")), Some(&9));
        assert_eq!(memo.get(&cards("T6")), Some(&6));
    }
}

#[test]
fn shoes_are_filed_by_their_cards() {
    let number = |s: &str| Shoe::<Fixed>::slot(&cards(s));
    assert_eq!(number("T"), 1);
    assert_eq!(number("9T"), 32);
    assert!(Shoe::<Fixed>::same(&cards("9T"), &cards("T9")));
    assert!(!Shoe::<Fixed>::same(&cards("9T"), &cards("9TT")));
}

/// The chances of a dealer that are no finer than the arithmetic can still be renormalised.
#[test]
fn coarse_chances_are_renormalised() {
    let shoe = cards("AA66799TTT");
    let dist: [Fixed; 7] = dealer_outcome_probs(cards("A"), &shoe, true);
    let left = remove_nat21(&dist).unwrap();
    let exact: [Q; 7] = conditional_dealer_dist(Card::Ace, Card::Ten, &shoe, true);
    assert_eq!(left[6].raw, 0);
    for (x, y) in left.iter().zip(exact) {
        let want = (y.0 * 1_000_000_000 / y.1) as i64;
        assert!((x.raw - want).abs() <= 20, "{} is not {want}", x.raw);
    }
    assert!(remove_nat21(&[fixed(500_000_000); 7]).is_none());
}

/// A natural only stands, and needs no other hand to be known.
#[test]
fn natural_is_solved_alone() {
    let basis = Basis {
        up_card: Card::Ace,
        bj_rank: Some(Card::Ten),
        conditional: false,
        hs17: true,
    };
    let rules = Ruleset::default();
    let shoe = cards("TTA9");
    let (weight, evs) = solve_hand(
        q(1, 7),
        cards("TA"),
        &shoe,
        &EvTree::<Q>::new(),
        basis,
        &rules,
        &HandTable::<Q>::new(),
    );
    assert_eq!(weight, q(1, 3));
    assert_eq!(evs.stand, Some(q(3, 4)));
    assert!(evs.hit.is_none() && evs.double.is_none() && evs.split.is_none());
}

/// A move that changes once is looked for with few looks.
#[test]
fn one_change_takes_few_looks() {
    let looks = std::cell::RefCell::new(Vec::new());
    let runs = coalesce_runs(-512, 512, |x| {
        looks.borrow_mut().push(x);
        Some(if x < 77 { Move::Hit } else { Move::Stand })
    });
    assert_eq!(runs, vec![(Move::Hit, -512, 76), (Move::Stand, 77, 512)]);
    let looks = looks.into_inner();
    assert!(looks.len() <= 5 + 11, "{looks:?}");
    assert!([-512, -256, 0, 256, 512, 76, 77].iter().all(|x| looks.contains(x)));
    let same = std::cell::Cell::new(0);
    coalesce_runs(-512, 512, |_| {
        same.set(same.get() + 1);
        Some(Move::Stand)
    });
    assert_eq!(same.get(), 5);
}

/// Collections with the same cards are found under one key, whatever order they came in.
#[test]
fn collections_are_keys() {
    let mut seen = std::collections::HashSet::new();
    assert!(seen.insert(cards("AT5")));
    assert!(!seen.insert(cards("5TA")));
    assert!(seen.insert(cards("AT55")));
    assert!(seen.contains(&cards("T5A5")) && !seen.contains(&cards("T")));
}
