//! What holds of a training session: what its decisions are graded by, and what its scoreboard
//! adds up.
use crate::card::Card;
use crate::count::CountSystemId;
use crate::drill::{
    allowed_upto, any_move, dealer_natural_value, hole_chance, indexed_spec, is_opening,
    player_natural_value, MoveOutcome, Training,
};
use crate::exact::{exact, exact_whole};
use crate::grading::{run_move_spec, DecisionMark};
use crate::hand::{category_of, Move};
use crate::num::Scalar;
use crate::rules::{BjPayout, Ruleset};
use crate::shoe::{deck_tally, size, tally_of, with_card};
use crate::sweep::{CategoryIndex, IndexReport};
use crate::tablelaws::{law_turn_goes_to_the_next_open_hand, leads};
use crate::training::{bets_upto, net_upto, HandView, Phase, ShoeView, TableView};
use vstd::prelude::*;

verus! {

/// The moves that a decision is graded among are exactly those that the table allows, each once.
pub proof fn law_decisions_are_graded_among_allowed_moves<N: Scalar>(
    v: TableView<N>,
    rules: Ruleset,
    mv: Move,
)
    ensures
        allowed_upto(v, rules, 5).contains(mv) <==> v.allows(mv, rules),
        allowed_upto(v, rules, 5).no_duplicates(),
{
    listed_upto(v, rules, 5, mv);
    let place: int = match mv {
        Move::Hit => 0,
        Move::Stand => 1,
        Move::Double => 2,
        Move::Split => 3,
        Move::Surrender => 4,
    };
    assert(any_move(place) == mv);
}

proof fn listed_upto<N: Scalar>(v: TableView<N>, rules: Ruleset, k: int, mv: Move)
    requires
        0 <= k <= 5,
    ensures
        allowed_upto(v, rules, k).contains(mv) <==> v.allows(mv, rules) && exists|i: int|
            0 <= i < k && #[trigger] any_move(i) == mv,
        allowed_upto(v, rules, k).no_duplicates(),
        forall|j: int|
            0 <= j < allowed_upto(v, rules, k).len() ==> exists|i: int|
                0 <= i < k && #[trigger] any_move(i) == #[trigger] allowed_upto(v, rules, k)[j],
    decreases k,
{
    if k > 0 {
        listed_upto(v, rules, k - 1, mv);
        let before = allowed_upto(v, rules, k - 1);
        let now = allowed_upto(v, rules, k);
        let m = any_move(k - 1);
        assert(any_move(0) == Move::Hit && any_move(1) == Move::Stand && any_move(2)
            == Move::Double && any_move(3) == Move::Split && any_move(4) == Move::Surrender);
        if now.len() > before.len() {
            assert(now[before.len() as int] == m);
            if before.contains(mv) {
                let j = choose|j: int| 0 <= j < before.len() && before[j] == mv;
                assert(now[j] == mv);
            }
            if now.contains(mv) && mv != m {
                let j = choose|j: int| 0 <= j < now.len() && now[j] == mv;
                assert(before[j] == mv);
            }
            assert forall|j: int| 0 <= j < now.len() implies exists|i: int|
                0 <= i < k && #[trigger] any_move(i) == #[trigger] now[j] by {
                if j < before.len() {
                    assert(now[j] == before[j]);
                    let i = choose|i: int| 0 <= i < k - 1 && #[trigger] any_move(i) == before[j];
                    assert(any_move(i) == now[j]);
                } else {
                    assert(any_move(k - 1) == now[j]);
                }
            }
        } else {
            assert forall|j: int| 0 <= j < now.len() implies exists|i: int|
                0 <= i < k && #[trigger] any_move(i) == #[trigger] now[j] by {
                let i = choose|i: int| 0 <= i < k - 1 && #[trigger] any_move(i) == before[j];
                assert(any_move(i) == now[j]);
            }
        }
    }
}

/// The play of the indices is that of the row of the hand at the count that the player holds:
/// the headline where the table allows it, and hitting or standing where it does not. There is
/// none on the infinite deck.
pub proof fn law_indexed_play_is_of_the_count_held<N: Scalar>(
    v: TableView<N>,
    rules: Ruleset,
    rep: IndexReport,
    ci: CategoryIndex,
    mv: Move,
)
    requires
        v.valid(),
        v.phase == Phase::Player,
        rep.cats.at(category_of(v.hands[v.active].tally())) == Some(ci),
        run_move_spec(ci.primary@, v.running_count as i16) == Some(mv),
    ensures
        v.shoe is Infinite ==> indexed_spec(v, rules, Some(rep)) is None,
        v.shoe is Finite && v.allows(mv, rules) ==> indexed_spec(v, rules, Some(rep)) == Some(mv),
        v.shoe is Finite && !v.allows(mv, rules) ==> indexed_spec(v, rules, Some(rep))
            == run_move_spec(ci.fallback@, v.running_count as i16),
        indexed_spec(v, rules, None) is None,
{
}

/// In an exact arithmetic a natural of the player's is worth what it is paid where the dealer has
/// been looked at or can have none, and else what it is paid as often as the hole card, which is
/// one of the cards not seen, makes none.
pub proof fn law_naturals_are_worth_their_payout<N: Scalar>(
    val: spec_fn(N) -> real,
    v: TableView<N>,
    rules: Ruleset,
)
    requires
        exact(val),
        v.dealer.len() == 2,
    ensures
        ({
            let pays = match rules.bj_payout {
                BjPayout::ThreeToTwo => 3real / 2real,
                BjPayout::SixToFive => 6real / 5real,
            };
            let value = val(player_natural_value(v, rules));
            let up = v.dealer[0];
            &&& rules.peek.peeks_spec() || (up != Card::Ace && up != Card::Ten) ==> value == pays
            &&& !rules.peek.peeks_spec() && (up == Card::Ace || up == Card::Ten) ==> value == pays * (
            1real - val(hole_chance(v, up)))
            &&& val(dealer_natural_value::<N>(true)) == 0real
            &&& val(dealer_natural_value::<N>(false)) == -1real
        }),
{
    exact_whole::<N>(val, 0);
    exact_whole::<N>(val, 1);
    exact_whole::<N>(val, (-1) as i64);
    assert(val(N::ratio_spec(3, 2)) == 3real / 2real);
    assert(val(N::ratio_spec(6, 5)) == 6real / 5real);
}

/// The nets of the first `k` hands, added up as numbers.
pub open spec fn nets<N: Scalar>(val: spec_fn(N) -> real, hands: Seq<HandView<N>>, k: int) -> real
    decreases k,
{
    if k <= 0 {
        0real
    } else {
        nets(val, hands, k - 1) + val(hands[k - 1].net)
    }
}

/// The bets of the first `k` hands, added up as numbers.
pub open spec fn bets<N: Scalar>(val: spec_fn(N) -> real, hands: Seq<HandView<N>>, k: int) -> real
    decreases k,
{
    if k <= 0 {
        0real
    } else {
        bets(val, hands, k - 1) + val(hands[k - 1].bet)
    }
}

proof fn sums_of_hands<N: Scalar>(
    val: spec_fn(N) -> real,
    units: N,
    hands: Seq<HandView<N>>,
    k: int,
)
    requires
        exact(val),
        0 <= k <= hands.len(),
    ensures
        val(net_upto(hands, k)) == nets(val, hands, k),
        val(bets_upto(units, hands, k)) == val(units) + bets(val, hands, k),
    decreases k,
{
    exact_whole::<N>(val, 0);
    if k > 0 {
        sums_of_hands(val, units, hands, k - 1);
    }
}

/// In an exact arithmetic a round that is settled counts as one, and adds what its hands have won
/// or lost and what they bet to the scoreboard; a card that does not settle it adds nothing. No
/// decision is graded by it.
pub proof fn law_rounds_are_added_up<N: Scalar>(
    val: spec_fn(N) -> real,
    after: Training<N>,
    before: Training<N>,
    card: Card,
    rules: Ruleset,
)
    requires
        exact(val),
        before.valid(),
        before.table.view().phase == Phase::Dealer,
        after.is_turned(before, card, rules),
    ensures
        ({
            let w = after.table.view();
            let n = w.hands.len() as int;
            &&& w.phase == Phase::Settled ==> {
                &&& after.stats.rounds == before.stats.rounds + 1
                &&& val(after.stats.realized) == val(before.stats.realized) + nets(val, w.hands, n)
                &&& val(after.stats.units_bet) == val(before.stats.units_bet) + bets(
                    val,
                    w.hands,
                    n,
                )
            }
            &&& w.phase != Phase::Settled ==> after.stats == before.stats
            &&& after.stats.decisions == before.stats.decisions
            &&& after.stats.refs == before.stats.refs
            &&& after.stats.ev_player == before.stats.ev_player
        }),
{
    let w = after.table.view();
    sums_of_hands(val, before.stats.units_bet, w.hands, w.hands.len() as int);
}

/// A decision is the first of its round only before any move: none that comes after a move is.
pub proof fn law_only_the_first_decision_opens<N: Scalar>(
    v: TableView<N>,
    mv: Move,
    cards: Seq<Card>,
    rules: Ruleset,
)
    requires
        leads(v, mv, cards, rules),
        v.active == 0,
    ensures
        ({
            let w = v.played(mv, cards).advanced();
            w.phase == Phase::Player ==> !is_opening(w)
        }),
{
    let p = v.played(mv, cards);
    let w = p.advanced();
    assert(p.hands[0].cards.len() >= 2);
    law_turn_goes_to_the_next_open_hand(p, 0);
    if w.phase == Phase::Player {
        if w.active == 0 {
            assert(!p.hands[0].finished());
        }
    }
}

/// Every card that a move draws is counted as it is turned up, and nothing else is; the infinite
/// deck has no count.
pub proof fn law_moves_count_the_cards_drawn<N: Scalar>(
    v: TableView<N>,
    mv: Move,
    cards: Seq<Card>,
    rules: Ruleset,
)
    requires
        leads(v, mv, cards, rules),
    ensures
        ({
            let w = v.played(mv, cards).advanced();
            let value = |i: int| CountSystemId::Ko.value(cards[i]) as int;
            match v.shoe {
                ShoeView::Finite { cards: pool, n_decks } => w.running_count == v.running_count
                    + if cards.len() == 2 {
                    value(0) + value(1)
                } else if cards.len() == 1 {
                    value(0)
                } else {
                    0
                },
                ShoeView::Infinite => w.running_count == v.running_count,
            }
        }),
{
}

/// The player's count is always the start of the system and what every card that was turned up
/// counts: the count of the full shoe less that of the cards not seen.
pub proof fn law_count_is_of_the_cards_seen<N: Scalar>(v: TableView<N>)
    requires
        v.valid(),
    ensures
        match v.shoe {
            ShoeView::Finite { cards, n_decks } => {
                let values = CountSystemId::Ko.values();
                v.running_count == CountSystemId::Ko.start(n_decks) + crate::count::count_of(
                    values,
                    deck_tally(n_decks as nat),
                ) - crate::count::count_of(values, v.unseen())
            },
            ShoeView::Infinite => v.running_count == 0,
        },
{
    if let ShoeView::Finite { cards, n_decks } = v.shoe {
        crate::count::law_full_shoe_counts(CountSystemId::Ko, n_decks);
    }
}

/// After a change of the shoe no decision of before it changes the scoreboard or the panel, and
/// the scoreboard stays.
pub proof fn law_reset_drops_earlier_decisions<N: Scalar>(
    before: Training<N>,
    reset: Training<N>,
    after: Training<N>,
    choice: crate::config::ShoeChoice,
    seq: u64,
    mark: Option<DecisionMark<N>>,
)
    requires
        reset.is_reset(before, choice),
        seq < before.eval_seq,
        after.is_graded(reset, seq, mark),
    ensures
        after.stats == before.stats,
        after.last_mark is None,
        after.table == reset.table,
{
}

/// The panel shows the latest decision that has been graded, in whatever order the grades come:
/// one that is older than the one shown does not take its place.
pub proof fn law_latest_grade_is_shown<N: Scalar>(
    before: Training<N>,
    after: Training<N>,
    seq: u64,
    mark: DecisionMark<N>,
)
    requires
        after.is_graded(before, seq, Some(mark)),
        seq >= before.eval_valid_from,
    ensures
        seq >= before.last_mark_seq ==> after.last_mark == Some(mark) && after.last_mark_seq == seq,
        seq < before.last_mark_seq ==> after.last_mark == before.last_mark,
        after.last_mark_seq >= before.last_mark_seq,
        after.last_mark_seq >= seq,
        after.stats.decisions == before.stats.decisions + 1,
{
}

/// Every card that the dealer turns is counted as it is turned, the hole card when it is turned
/// over; the infinite deck has no count.
pub proof fn law_dealers_cards_are_counted<N: Scalar>(v: TableView<N>, card: Card, rules: Ruleset)
    requires
        v.valid(),
        v.phase == Phase::Dealer,
    ensures
        match v.shoe {
            ShoeView::Finite { cards, n_decks } => v.stepped(card, rules).running_count
                == v.running_count + CountSystemId::Ko.value(
                if v.hole_down {
                    v.dealer[1]
                } else {
                    card
                },
            ),
            ShoeView::Infinite => v.stepped(card, rules).running_count == v.running_count,
        },
        v.hole_down ==> v.stepped(card, rules).shoe == v.shoe,
{
}

/// In an exact arithmetic the chance of a dealer's natural is, as far as the player can tell, that
/// the hole card is any of the cards not seen: it is one of the live shoe's and the hole card.
pub proof fn law_hole_card_is_any_unseen_card<N: Scalar>(
    val: spec_fn(N) -> real,
    v: TableView<N>,
    up: Card,
)
    requires
        exact(val),
        v.valid(),
        v.phase == Phase::Player || v.phase == Phase::Dealer,
        v.hole_down,
        up == Card::Ace || up == Card::Ten,
    ensures
        ({
            let wanted = if up == Card::Ace {
                9int
            } else {
                0
            };
            match v.shoe {
                ShoeView::Finite { cards, n_decks } => val(hole_chance(v, up)) * ((size(cards)
                    + 1) as int) as real == ((cards[wanted] + if v.dealer[1].rank() == wanted {
                    1nat
                } else {
                    0
                }) as int) as real,
                ShoeView::Infinite => val(hole_chance(v, up)) == if up == Card::Ace {
                    4real / 13real
                } else {
                    1real / 13real
                },
            }
        }),
{
    assert(val(N::ratio_spec(4, 13)) == 4real / 13real);
    assert(val(N::ratio_spec(1, 13)) == 1real / 13real);
    if let ShoeView::Finite { cards, n_decks } = v.shoe {
        let hole = v.dealer[1];
        assert(hole.valid());
        crate::card::law_rank_round_trip(hole, 0);
        crate::partitions::hard_with_n(cards, hole.rank(), 1);
        let unseen = with_card(cards, hole);
        assert(size(unseen) == size(cards) + 1);
        let wanted = if up == Card::Ace {
            9int
        } else {
            0
        };
        assert(size(cards) <= 52 * 255) by {
            let root = deck_tally(n_decks as nat);
            assert forall|i: int| 0 <= i < 10 implies #[trigger] cards[i] <= root[i] by {
                assert(v.unseen()[i] <= root[i]);
            }
            assert(cards[0] <= root[0] && cards[1] <= root[1] && cards[2] <= root[2] && cards[3]
                <= root[3] && cards[4] <= root[4] && cards[5] <= root[5] && cards[6] <= root[6]
                && cards[7] <= root[7] && cards[8] <= root[8] && cards[9] <= root[9]);
        }
        crate::shoe::rank_at_most_size(unseen, wanted);
        let a = (unseen[wanted] as int) as real;
        let b = (size(unseen) as int) as real;
        assert(val(hole_chance(v, up)) == a / b);
        assert((a / b) * b == a) by (nonlinear_arith)
            requires
                b > 0real,
        ;
    }
}

/// What comes of a key for a move is told by the table before it: out of turn nothing happens; a
/// move that is not allowed leaves the table and the decisions as they were; and one that is
/// allowed is made, with one more decision to grade. That decision is of the table before the move:
/// the hand in play then, the dealer's up-card, the moves allowed then with the one made among
/// them, and, on a finite shoe, the cards not seen then with the up-card and the hand.
pub proof fn law_decisions_are_of_the_table_before<N: Scalar>(
    after: Training<N>,
    before: Training<N>,
    mv: Move,
    cards: Seq<Card>,
    rules: Ruleset,
    indexed: Option<Move>,
    r: MoveOutcome,
    rank: int,
)
    requires
        before.valid(),
        after.is_moved(before, mv, cards, rules, indexed, r),
        0 <= rank < 10,
    ensures
        ({
            let v = before.table.view();
            let asked = v.phase == Phase::Player;
            &&& r is Ignored <==> !asked
            &&& r is Refused <==> asked && !v.allows(mv, rules)
            &&& !(r is Made) ==> after.table == before.table && after.eval_seq == before.eval_seq
                && after.pending_evals == before.pending_evals
            &&& after.stats == before.stats
            &&& match r {
                MoveOutcome::Made { job, forget_basic } => {
                    let hand = v.hands[v.active].cards;
                    &&& job.seq == before.eval_seq && after.eval_seq == job.seq + 1
                    &&& after.pending_evals == before.pending_evals + 1
                    &&& job.chosen == mv && job.allowed@.contains(mv)
                    &&& job.up == v.dealer[0]
                    &&& job.rules == rules && after.basic_rules == rules
                    &&& job.hand@[rank] == tally_of(hand)[rank]
                    &&& job.opening <==> v.hands.len() == 1 && hand.len() == 2
                    &&& match v.shoe {
                        ShoeView::Finite { cards: left, n_decks } => job.finite_shoe matches Some(
                            shoe,
                        ) && shoe@[rank] == v.unseen()[rank] + tally_of(hand)[rank] + if v.dealer[0].rank()
                            == rank {
                            1nat
                        } else {
                            0
                        },
                        ShoeView::Infinite => job.finite_shoe is None,
                    }
                    &&& forget_basic ==> after.eval_valid_from == job.seq
                },
                _ => true,
            }
        }),
{
    let v = before.table.view();
    if let MoveOutcome::Made { job, forget_basic } = r {
        law_decisions_are_graded_among_allowed_moves(v, rules, mv);
        let hole = v.dealer[1];
        let hidden = v.hidden();
        assert(hidden =~= seq![hole]);
        reveal_with_fuel(tally_of, 2);
        assert(hidden.drop_last() =~= Seq::<Card>::empty());
        assert(hole.valid() && v.dealer[0].valid());
        crate::card::law_rank_round_trip(hole, 0);
        crate::card::law_rank_round_trip(v.dealer[0], 0);
        assert(v.hands[v.active].valid());
        crate::training::tally_has_ten(v.hands[v.active].cards);
    }
}

} // verus!
