//! What holds of the play at the training table, whatever cards come.
use crate::card::Card;
use crate::count::CountSystemId;
use crate::exact::{exact, exact_whole};
use crate::hand::{state_of, HandState, Move};
use crate::num::Scalar;
use crate::rules::{BjPayout, Ruleset, SurrenderRule};
use crate::shoe::{best, hard, is_natural, law_natural_is_two_card_21, size, tally_of};
use crate::training::{
    all_valid, few_cards, hair, minus_hair, tally_has_ten, HandResult, HandView, OpeningEnd, Phase,
    ShoeView, TableView,
};
use vstd::prelude::*;

verus! {

/// Whether a move leads from a table to another: it is allowed, and is made with the cards that
/// it draws.
pub open spec fn leads<N: Scalar>(v: TableView<N>, mv: Move, cards: Seq<Card>, rules: Ruleset) -> bool {
    &&& v.valid()
    &&& v.phase == Phase::Player
    &&& v.allows(mv, rules)
    &&& cards.len() == TableView::<N>::draws(mv)
    &&& all_valid(cards)
    &&& v.shoe.has(cards)
}

/// A pair may be split exactly as long as there are then no more hands than the rules allow,
/// whatever the number of hands: play can reach as many hands as the rules say, and no more.
pub proof fn law_pairs_are_split_up_to_the_limit<N: Scalar>(
    v: TableView<N>,
    cards: Seq<Card>,
    rules: Ruleset,
)
    requires
        v.valid(),
        v.phase == Phase::Player,
        v.hands[v.active].cards.len() == 2,
        v.hands[v.active].cards[0] == v.hands[v.active].cards[1],
        cards.len() == 2,
    ensures
        v.allows(Move::Split, rules) <==> v.played(Move::Split, cards).hands.len()
            <= rules.max_split_hands,
        v.played(Move::Split, cards).hands.len() == v.hands.len() + 1,
{
}

/// No move makes more hands than the rules allow, and none but a split makes a hand. What is no
/// pair is not split.
pub proof fn law_only_splits_make_hands<N: Scalar>(
    v: TableView<N>,
    mv: Move,
    cards: Seq<Card>,
    rules: Ruleset,
)
    requires
        leads(v, mv, cards, rules),
    ensures
        mv != Move::Split ==> v.played(mv, cards).hands.len() == v.hands.len(),
        mv == Move::Split ==> v.hands[v.active].cards.len() == 2 && v.hands[v.active].cards[0]
            == v.hands[v.active].cards[1],
        v.hands.len() <= rules.max_split_hands ==> v.played(mv, cards).hands.len()
            <= rules.max_split_hands,
{
}

/// A hand that is still played may stand, and may take a card unless it was doubled.
pub proof fn law_hands_in_play_may_hit_or_stand<N: Scalar>(v: TableView<N>, rules: Ruleset)
    requires
        v.valid(),
        v.phase == Phase::Player,
    ensures
        v.allows(Move::Stand, rules),
        v.allows(Move::Hit, rules) <==> !v.hands[v.active].doubled,
{
}

/// Two cards may be doubled before any split under all rules, and after one exactly under the
/// rules that allow it; a hand that has taken a card may not.
pub proof fn law_doubling_after_a_split_is_up_to_the_rules<N: Scalar>(
    v: TableView<N>,
    rules: Ruleset,
    other: Ruleset,
)
    requires
        v.valid(),
        v.phase == Phase::Player,
    ensures
        v.hands.len() == 1 ==> v.allows(Move::Double, rules) == v.allows(Move::Double, other),
        v.hands.len() == 1 && v.hands[0].cards.len() == 2 ==> v.allows(Move::Double, rules),
        v.hands.len() > 1 && !rules.das ==> !v.allows(Move::Double, rules),
        v.hands.len() > 1 && rules.das && v.hands[v.active].cards.len() == 2 ==> v.allows(
            Move::Double,
            rules,
        ),
        v.hands[v.active].cards.len() != 2 ==> !v.allows(Move::Double, rules),
{
}

/// Only the two cards that were dealt can be given up, and only under rules that offer it.
pub proof fn law_only_dealt_hands_are_given_up<N: Scalar>(v: TableView<N>, rules: Ruleset)
    requires
        v.valid(),
        v.phase == Phase::Player,
    ensures
        rules.peek.surrender_spec() == SurrenderRule::Never ==> !v.allows(Move::Surrender, rules),
        v.hands.len() > 1 ==> !v.allows(Move::Surrender, rules),
        v.hands[v.active].cards.len() > 2 ==> !v.allows(Move::Surrender, rules),
        rules.peek.surrender_spec() != SurrenderRule::Never && v.hands.len() == 1
            && v.hands[0].cards.len() == 2 && !v.hands[0].from_split ==> v.allows(
            Move::Surrender,
            rules,
        ),
{
}

/// The cards of all hands, counted.
pub open spec fn cards_in_hands<N: Scalar>(hands: Seq<HandView<N>>, k: int) -> nat
    decreases k,
{
    if k <= 0 {
        0
    } else {
        cards_in_hands(hands, k - 1) + hands[k - 1].cards.len()
    }
}

proof fn cards_with_change<N: Scalar>(
    a: Seq<HandView<N>>,
    b: Seq<HandView<N>>,
    at: int,
    k: int,
)
    requires
        0 <= at < a.len(),
        a.len() == b.len(),
        0 <= k <= a.len(),
        forall|i: int| 0 <= i < a.len() && i != at ==> #[trigger] b[i] == a[i],
    ensures
        cards_in_hands(b, k) == cards_in_hands(a, k) + if at < k {
            b[at].cards.len() - a[at].cards.len()
        } else {
            0
        },
    decreases k,
{
    if k > 0 {
        cards_with_change(a, b, at, k - 1);
    }
}

proof fn cards_with_one_more<N: Scalar>(
    a: Seq<HandView<N>>,
    b: Seq<HandView<N>>,
    at: int,
    k: int,
)
    requires
        0 <= at <= a.len(),
        b.len() == a.len() + 1,
        0 <= k <= a.len(),
        forall|i: int| 0 <= i < at ==> #[trigger] b[i] == a[i],
        forall|i: int| at < i < b.len() ==> #[trigger] b[i] == a[i - 1],
    ensures
        k <= at ==> cards_in_hands(b, k) == cards_in_hands(a, k),
        k >= at ==> cards_in_hands(b, k + 1) == cards_in_hands(a, k) + b[at].cards.len(),
    decreases k,
{
    assert(cards_in_hands(b, k + 1) == cards_in_hands(b, k) + b[k].cards.len());
    if k > 0 {
        cards_with_one_more(a, b, at, k - 1);
        if k > at {
            assert(b[k] == a[k - 1]);
        }
    }
}

/// Every card that a move brings to a hand comes out of the shoe, and every card that it takes
/// out of the shoe is brought to a hand.
pub proof fn law_cards_come_from_the_shoe<N: Scalar>(
    v: TableView<N>,
    mv: Move,
    cards: Seq<Card>,
    rules: Ruleset,
)
    requires
        leads(v, mv, cards, rules),
    ensures
        ({
            let w = v.played(mv, cards);
            &&& cards_in_hands(w.hands, w.hands.len() as int) == cards_in_hands(
                v.hands,
                v.hands.len() as int,
            ) + cards.len()
            &&& w.dealer == v.dealer
            &&& match (v.shoe, w.shoe) {
                (ShoeView::Finite { cards: before, n_decks: n }, ShoeView::Finite {
                    cards: after,
                    n_decks: m,
                }) => n == m && size(after) + cards.len() == size(before),
                (ShoeView::Infinite, ShoeView::Infinite) => true,
                _ => false,
            }
        }),
{
    let w = v.played(mv, cards);
    let n = v.hands.len() as int;
    if mv == Move::Split {
        let first = w.hands[v.active];
        let mid = v.hands.update(v.active, first);
        cards_with_change(v.hands, mid, v.active, n);
        assert forall|i: int| v.active + 1 < i < w.hands.len() implies #[trigger] w.hands[i]
            == mid[i - 1] by {}
        cards_with_one_more(mid, w.hands, v.active + 1, n);
        assert(first.cards.len() == 2);
        if let ShoeView::Finite { cards: pool, n_decks } = v.shoe {
            assert(cards =~= seq![cards[0], cards[1]]);
            crate::training::has_in_turn(v.shoe, cards[0], cards[1]);
            shoe_without(pool, cards);
        }
    } else {
        cards_with_change(v.hands, w.hands, v.active, n);
        if let ShoeView::Finite { cards: pool, n_decks } = v.shoe {
            if cards.len() == 1 {
                assert(cards =~= seq![cards[0]]);
                shoe_without(pool, cards);
            }
        }
    }
}

proof fn shoe_without(pool: crate::shoe::Tally, cards: Seq<Card>)
    requires
        pool.len() == 10,
        all_valid(cards),
        crate::shoe::within(tally_of(cards), pool),
    ensures
        size(crate::shoe::taken(pool, tally_of(cards))) + cards.len() == size(pool),
{
    tally_has_ten(cards);
    few_cards(cards);
    let t = tally_of(cards);
    let left = crate::shoe::taken(pool, t);
    assert forall|i: int| 0 <= i < 10 implies #[trigger] left[i] + t[i] == pool[i] by {
        assert(t[i] <= pool[i]);
    }
    assert(left[0] + t[0] == pool[0] && left[1] + t[1] == pool[1] && left[2] + t[2] == pool[2]
        && left[3] + t[3] == pool[3] && left[4] + t[4] == pool[4] && left[5] + t[5] == pool[5]
        && left[6] + t[6] == pool[6] && left[7] + t[7] == pool[7] && left[8] + t[8] == pool[8]
        && left[9] + t[9] == pool[9]);
}

/// A move changes no hand but the active one; a split puts the new hand right behind it.
pub proof fn law_other_hands_stay<N: Scalar>(
    v: TableView<N>,
    mv: Move,
    cards: Seq<Card>,
    rules: Ruleset,
    i: int,
)
    requires
        leads(v, mv, cards, rules),
        0 <= i < v.hands.len(),
        i != v.active,
    ensures
        v.played(mv, cards).hands[if i > v.active && mv == Move::Split {
            i + 1
        } else {
            i
        }] == v.hands[i],
{
}

/// A split makes two hands of two cards, each of one card of the pair and a new one, with the
/// bet of the pair on either. Aces are not played on; other cards are.
pub proof fn law_split_makes_two_equal_hands<N: Scalar>(
    v: TableView<N>,
    cards: Seq<Card>,
    rules: Ruleset,
)
    requires
        leads(v, Move::Split, cards, rules),
    ensures
        ({
            let pair = v.hands[v.active];
            let w = v.played(Move::Split, cards);
            let a = w.hands[v.active];
            let b = w.hands[v.active + 1];
            &&& a.cards == seq![pair.cards[0], cards[0]]
            &&& b.cards == seq![pair.cards[1], cards[1]]
            &&& a.bet == pair.bet && b.bet == pair.bet
            &&& a.from_split && b.from_split
            &&& a.finished() == (pair.cards[0] == Card::Ace || best(a.tally()) >= 21)
            &&& b.finished() == (pair.cards[0] == Card::Ace || best(b.tally()) >= 21)
            &&& a.state() != HandState::Natural && b.state() != HandState::Natural
        }),
{
    let pair = v.hands[v.active];
    let w = v.played(Move::Split, cards);
    assert(w.hands[v.active].cards =~= seq![pair.cards[0], cards[0]]);
}

/// Doubling bets as much again and takes exactly one card, with which the hand is over; giving
/// up takes none; standing changes neither bet nor cards.
pub proof fn law_doubling_takes_one_card<N: Scalar>(
    val: spec_fn(N) -> real,
    v: TableView<N>,
    mv: Move,
    cards: Seq<Card>,
    rules: Ruleset,
)
    requires
        exact(val),
        leads(v, mv, cards, rules),
    ensures
        ({
            let was = v.hands[v.active];
            let is = v.played(mv, cards).hands[v.active];
            &&& mv == Move::Double ==> val(is.bet) == 2real * val(was.bet) && is.finished()
            &&& mv != Move::Double ==> is.bet == was.bet
            &&& mv == Move::Double || mv == Move::Hit ==> is.cards == was.cards.push(cards[0])
            &&& mv == Move::Stand || mv == Move::Surrender ==> is.cards == was.cards
                && is.finished()
            &&& is.surrendered == (was.surrendered || mv == Move::Surrender)
        }),
{
    exact_whole::<N>(val, 2);
    let was = v.hands[v.active];
    let x = val(was.bet);
    assert(x * 2real == 2real * x) by (nonlinear_arith);
}

/// The turn goes to the first hand behind the active one that is not over, and to the dealer
/// where every hand is.
pub proof fn law_turn_goes_to_the_next_open_hand<N: Scalar>(v: TableView<N>, i: int)
    requires
        0 <= v.active <= v.hands.len(),
    ensures
        ({
            let w = v.advanced();
            &&& v.active <= w.active <= v.hands.len()
            &&& v.active <= i < w.active ==> v.hands[i].finished()
            &&& w.active < v.hands.len() ==> !v.hands[w.active].finished() && w.phase == v.phase
            &&& w.active == v.hands.len() ==> w.phase == Phase::Dealer
            &&& w.hands == v.hands
        }),
{
    next_open(v, v.active, i);
}

proof fn next_open<N: Scalar>(v: TableView<N>, from: int, i: int)
    requires
        0 <= from <= v.hands.len(),
    ensures
        from <= v.next_hand(from) <= v.hands.len(),
        from <= i < v.next_hand(from) ==> v.hands[i].finished(),
        v.next_hand(from) < v.hands.len() ==> !v.hands[v.next_hand(from)].finished(),
    decreases v.hands.len() - from,
{
    if from < v.hands.len() && v.hands[from].finished() {
        next_open(v, from + 1, i);
    }
}

/// The first four cards go to the player, to the dealer, to the player and face down to the
/// dealer; the player has then counted the first three.
pub proof fn law_first_cards_go_round<N: Scalar>(v: TableView<N>, cards: Seq<Card>)
    requires
        v.valid(),
        v.phase == Phase::Ready || v.phase == Phase::Settled,
        cards.len() == 4,
        all_valid(cards),
        v.shuffled().shoe.has(cards),
    ensures
        ({
            let w = v.started(cards).laid().laid().laid().laid();
            &&& w.hands.len() == 1
            &&& w.hands[0].cards == seq![cards[0], cards[2]]
            &&& w.dealer == seq![cards[1], cards[3]]
            &&& w.hole_down
            &&& w.running_count == v.shuffled().running_count + match v.shoe {
                ShoeView::Finite { cards: pool, n_decks } => CountSystemId::Ko.value(cards[0])
                    + CountSystemId::Ko.value(cards[1]) + CountSystemId::Ko.value(cards[2]),
                ShoeView::Infinite => 0,
            }
        }),
{
    let a = v.started(cards).laid();
    let b = a.laid();
    let c = b.laid();
    let d = c.laid();
    assert(a.hands[0].cards =~= seq![cards[0]]);
    assert(b.dealer =~= seq![cards[1]]);
    assert(c.hands[0].cards =~= seq![cards[0], cards[2]]);
    assert(d.dealer =~= seq![cards[1], cards[3]]);
}

/// A shoe is shuffled before a round exactly where less than a quarter of its cards is left. It
/// is full then, and the count begins anew.
pub proof fn law_shoe_is_shuffled_below_a_quarter<N: Scalar>(v: TableView<N>)
    requires
        v.valid(),
    ensures
        match (v.shoe, v.shuffled().shoe) {
            (ShoeView::Finite { cards, n_decks: n }, ShoeView::Finite {
                cards: after,
                n_decks: m,
            }) => {
                let all = size(crate::shoe::deck_tally(n as nat));
                &&& m == n
                &&& if 4 * size(cards) < all {
                    &&& size(after) == all
                    &&& v.shuffled().running_count == CountSystemId::Ko.start(n)
                } else {
                    &&& after == cards
                    &&& v.shuffled().running_count == v.running_count
                }
            },
            (ShoeView::Infinite, ShoeView::Infinite) => v.shuffled() == v,
            _ => false,
        },
{
    if let ShoeView::Finite { cards, n_decks } = v.shoe {
        assert(size(crate::shoe::deck_tally(n_decks as nat)) == 52 * n_decks);
    }
}

/// A dealer's natural ends the round before the player acts exactly where the dealer looks, and
/// a natural of the player's always ends it; else the player acts.
pub proof fn law_naturals_end_the_layout<N: Scalar>(v: TableView<N>, rules: Ruleset)
    requires
        v.dealer.len() == 2,
        v.hands.len() == 1,
    ensures
        ({
            let looks = rules.peek.peeks_spec() && (v.dealer[0] == Card::Ace || v.dealer[0]
                == Card::Ten);
            let theirs = is_natural(tally_of(v.dealer));
            let own = is_natural(v.hands[0].tally());
            &&& own || looks && theirs ==> v.opened(rules).phase == Phase::Dealer
            &&& !own && !(looks && theirs) ==> v.opened(rules).phase == Phase::Player
            &&& v.opening_end(rules) == OpeningEnd::DealerNatural <==> looks && theirs
        }),
{
}

/// The dealer turns the hole card first and draws only for a hand that can still be beaten: one
/// that was given up, is over 21 or is a natural needs no card, and neither does a dealer who
/// stands.
pub proof fn law_dealer_draws_only_for_live_hands<N: Scalar>(
    v: TableView<N>,
    card: Card,
    rules: Ruleset,
)
    ensures
        v.hole_down ==> v.stepped(card, rules).dealer == v.dealer && !v.stepped(
            card,
            rules,
        ).hole_down,
        !v.hole_down ==> v.stepped(card, rules).dealer == v.dealer.push(card),
        (forall|i: int|
            0 <= i < v.hands.len() ==> {
                let h = #[trigger] v.hands[i];
                h.surrendered || state_of(h.tally()) == HandState::Bust || (state_of(h.tally())
                    == HandState::Natural && !h.from_split)
            }) ==> v.stepped(card, rules).phase == Phase::Settled,
        (exists|i: int|
            0 <= i < v.hands.len() && !(#[trigger] v.hands[i]).surrendered && hard(
                v.hands[i].tally(),
            ) <= 21 && !is_natural(v.hands[i].tally())) && best(
            tally_of(v.stepped(card, rules).dealer),
        ) < 17 ==> v.stepped(card, rules).phase == v.phase,
        best(tally_of(v.stepped(card, rules).dealer)) > 17 ==> v.stepped(card, rules).phase
            == Phase::Settled,
{
    let next = v.turned(card);
    assert(next.hands == v.hands);
    if exists|i: int|
        0 <= i < v.hands.len() && !(#[trigger] v.hands[i]).surrendered && hard(v.hands[i].tally())
            <= 21 && !is_natural(v.hands[i].tally()) {
        let i = choose|i: int|
            0 <= i < v.hands.len() && !(#[trigger] v.hands[i]).surrendered && hard(
                v.hands[i].tally(),
            ) <= 21 && !is_natural(v.hands[i].tally());
        assert(TableView::is_live(next.hands[i]));
    }
}

/// What the money law calls the result of a hand: what it wins for each unit bet, from the
/// totals alone.
pub open spec fn paid(own: Seq<nat>, split: bool, theirs: Seq<nat>, pays: BjPayout) -> real {
    let natural = is_natural(own) && !split;
    if natural && is_natural(theirs) {
        0real
    } else if natural {
        match pays {
            BjPayout::ThreeToTwo => 3real / 2real,
            BjPayout::SixToFive => 6real / 5real,
        }
    } else if is_natural(theirs) || best(own) > 21 {
        -1real
    } else if best(theirs) > 21 || best(own) > best(theirs) {
        1real
    } else if best(own) == best(theirs) {
        0real
    } else {
        -1real
    }
}

/// In an exact arithmetic a hand that was given up loses half its bet, and every other hand wins
/// or loses its bet by the totals: the higher one wins, over 21 loses, a natural beats a 21 and
/// is paid by the rules, and only the two cards that were dealt are one.
pub proof fn law_hands_are_paid<N: Scalar>(
    val: spec_fn(N) -> real,
    v: TableView<N>,
    rules: Ruleset,
    i: int,
)
    requires
        exact(val),
        v.valid(),
        0 <= i < v.hands.len(),
    ensures
        ({
            let was = v.hands[i];
            let is = v.settled(rules).hands[i];
            &&& was.surrendered ==> val(is.net) == -val(was.bet) / 2real
            &&& !was.surrendered ==> val(is.net) == paid(
                was.tally(),
                was.from_split,
                tally_of(v.dealer),
                rules.bj_payout,
            ) * val(was.bet)
            &&& is.cards == was.cards && is.bet == was.bet
        }),
{
    exact_whole::<N>(val, 0);
    exact_whole::<N>(val, 1);
    exact_whole::<N>(val, (-1) as i64);
    let was = v.hands[i];
    assert(was.valid());
    tally_has_ten(was.cards);
    tally_has_ten(v.dealer);
    let x = val(was.bet);
    assert(val(N::ratio_spec((-1) as i64, 2)) == -1real / 2real);
    assert(val(N::ratio_spec(3, 2)) == 3real / 2real);
    assert(val(N::ratio_spec(6, 5)) == 6real / 5real);
    assert((-1real / 2real) * x == -x / 2real) by (nonlinear_arith);
    law_natural_is_two_card_21(was.tally());
    law_natural_is_two_card_21(tally_of(v.dealer));
    assert(best(was.tally()) <= 31 && best(tally_of(v.dealer)) <= 31);
}

/// The word for a result says what was won: a hand that wins its bet or more has won, one that
/// gets it back has pushed, and one that loses it has lost or is over 21.
pub proof fn law_results_tell_the_net<N: Scalar>(
    val: spec_fn(N) -> real,
    v: TableView<N>,
    rules: Ruleset,
    i: int,
)
    requires
        exact(val),
        v.valid(),
        0 <= i < v.hands.len(),
        val(v.hands[i].bet) > 0real,
    ensures
        ({
            let is = v.settled(rules).hands[i];
            &&& is.result is Some
            &&& match is.result->0 {
                HandResult::Blackjack => val(is.net) > val(is.bet),
                HandResult::Win => val(is.net) == val(is.bet),
                HandResult::Push => val(is.net) == 0real,
                HandResult::Lose => val(is.net) == -val(is.bet) && hard(is.tally()) <= 21,
                HandResult::Bust => val(is.net) == -val(is.bet) && hard(is.tally()) > 21,
                HandResult::Surrender => val(is.net) == -val(is.bet) / 2real,
            }
        }),
{
    law_hands_are_paid(val, v, rules, i);
    exact_whole::<N>(val, 0);
    exact_whole::<N>(val, 1);
    exact_whole::<N>(val, (-1) as i64);
    let was = v.hands[i];
    assert(was.valid());
    tally_has_ten(was.cards);
    tally_has_ten(v.dealer);
    let x = val(was.bet);
    let e = val(hair::<N>());
    assert(e == 1real / 1_000_000_000real);
    assert(val(minus_hair::<N>()) == -1real / 1_000_000_000real);
    assert(0real < 1real / 1_000_000_000real < 1real) by (nonlinear_arith);
    assert(-1real < -1real / 1_000_000_000real < 0real) by (nonlinear_arith);
    assert(val(N::ratio_spec(3, 2)) == 3real / 2real);
    assert(val(N::ratio_spec(6, 5)) == 6real / 5real);
    assert((3real / 2real) * x > x && (6real / 5real) * x > x) by (nonlinear_arith)
        requires
            x > 0real,
    ;
    assert(1real * x == x && -1real * x == -x && 0real * x == 0real) by (nonlinear_arith);
    law_natural_is_two_card_21(was.tally());
    law_natural_is_two_card_21(tally_of(v.dealer));
}

} // verus!
