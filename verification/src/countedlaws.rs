//! Which shoes a count asks for, in numbers: what is solved under a count is solved for the shoes
//! in which the player holds it.
use crate::card::{card_at, Card};
use crate::chart::cell_evs;
use crate::column::{
    counted_splits, counted_state, counted_states, enterable, group_of, group_order, group_reach,
    group_tree, is_column, is_counted_column, merged_keys, merged_order, merged_reach, merged_tree,
    tree_map, Column,
};
use crate::config::{CountSetting, ShoeChoice};
use crate::count::{
    count_of, frameable, law_full_shoe_counts, CountCmp, CountKind, CountSystemId, Penetration,
};
use crate::countshoe::{CountShoe, CountState};
use crate::drawing::{InfiniteDeck, Shoe};
use crate::exact::{exact, exact_whole};
use crate::hand::{pair_of, MoveEvs};
use crate::num::Scalar;
use crate::reach::reach_map;
use crate::round::{pair_tally, pair_value, pair_values};
use crate::rules::Ruleset;
use crate::shoe::{deck_tally, hard, single, size, CardCol, Tally};
use crate::simulation::basis_of;
use crate::solve::{best_edge, hand_ev, solve_order};
use crate::sweep::{
    plain_order, plain_reach, running_reaches, running_state, running_trees, Ladder, Parts, Sweep,
};
use crate::text::{digits, signed};
use vstd::prelude::*;

verus! {

/// What the player's count is when the cards left of a full shoe count `left`, and cards that
/// count `seen` have been turned up of those since: the player starts at the start and adds
/// what every card that is gone counts.
pub open spec fn held(system: CountSystemId, n_decks: int, left: int, seen: int) -> int {
    system.start(n_decks) + (count_of(system.values(), deck_tally(n_decks as nat)) - left) + seen
}

/// Whether a count meets what was asked of it. A running count is compared with the value; a
/// true count, which is the count for every 52 of the `n` cards left, with half of it.
pub open spec fn meets(
    system: CountSystemId,
    count: int,
    n: int,
    how: CountCmp,
    value: int,
) -> bool {
    match system.kind_spec() {
        CountKind::Running => match how {
            CountCmp::Eq => count == value,
            CountCmp::Ge => count >= value,
            CountCmp::Le => count <= value,
        },
        CountKind::TrueCount => n > 0 && match how {
            CountCmp::Eq => 2 * (52 * count) == value * n,
            CountCmp::Ge => 2 * (52 * count) >= value * n,
            CountCmp::Le => 2 * (52 * count) <= value * n,
        },
    }
}

/// Whether a shoe is that of a player who holds a count that meets what was asked once cards
/// that count `seen`, `cards` of them, have been turned up: the full shoe, of which at least a
/// quarter is left, admitted exactly where the count does.
pub open spec fn is_held_shoe(
    s: CountState,
    system: CountSystemId,
    n_decks: int,
    seen: int,
    cards: int,
    how: CountCmp,
    value: int,
) -> bool {
    &&& s.values == system.values()
    &&& s.root == deck_tally(n_decks as nat)
    &&& s.pool == s.root
    &&& s.tilted is None
    &&& s.pen == Penetration::FlatPastPercent(25)
    &&& forall|left: int, n: int| #[trigger]
        s.frame.accepts_spec(left, n) == meets(
            system,
            held(system, n_decks, left, seen),
            n - cards,
            how,
            value,
        )
}

/// The frame of an entered count admits exactly the shoes in which the player holds it.
proof fn frame_is_held(
    system: CountSystemId,
    n_decks: int,
    value: i16,
    how: CountCmp,
    up: Card,
    k: int,
    cards: u16,
    left: int,
    n: int,
)
    requires
        n_decks >= 0,
        up.valid(),
        frameable(system, n_decks, value as int, how, up, k),
    ensures
        crate::count::frame_of(system, n_decks, value, how, up, k, cards).accepts_spec(left, n)
            == meets(
            system,
            held(system, n_decks, left, system.value(up) + k),
            n - cards,
            how,
            value as int,
        ),
{
    law_full_shoe_counts(system, n_decks);
    let f = crate::count::frame_of(system, n_decks, value, how, up, k, cards);
    let e = held(system, n_decks, left, system.value(up) + k);
    match system.kind_spec() {
        CountKind::Running => {
            assert(e == system.pivot_spec(n_decks) - left + system.value(up) + k);
        },
        CountKind::TrueCount => {
            crate::count::law_true_counts_are_balanced(system, n_decks);
            let s = left - (system.value(up) + k);
            let m = n - cards;
            assert(e == -s);
            assert(-52 * s * 2 == 2 * (52 * e)) by (nonlinear_arith)
                requires
                    e == -s,
            ;
        },
    }
}

proof fn counted_state_is_held(
    system: CountSystemId,
    n_decks: int,
    value: i16,
    how: CountCmp,
    up: Card,
    k: int,
)
    requires
        n_decks >= 0,
        up.valid(),
        frameable(system, n_decks, value as int, how, up, k),
    ensures
        is_held_shoe(
            counted_state(system, n_decks, value, how, up, k),
            system,
            n_decks,
            system.value(up) + k,
            3,
            how,
            value as int,
        ),
{
    let s = counted_state(system, n_decks, value, how, up, k);
    assert forall|left: int, n: int| #[trigger]
        s.frame.accepts_spec(left, n) == meets(
            system,
            held(system, n_decks, left, system.value(up) + k),
            n - 3,
            how,
            value as int,
        ) by {
        frame_is_held(system, n_decks, value, how, up, k, 3, left, n);
    }
}

/// Whether five shoes are those of a player who holds a count that meets what was asked once
/// the up-card and a hand that counts from minus two to two have been turned up.
pub open spec fn are_held_shoes(
    states: Seq<CountState>,
    system: CountSystemId,
    n_decks: int,
    up: Card,
    how: CountCmp,
    value: int,
) -> bool {
    states.len() == 5 && forall|g: int|
        0 <= g < 5 ==> is_held_shoe(
            #[trigger] states[g],
            system,
            n_decks,
            system.value(up) + (g - 2),
            3,
            how,
            value,
        )
}

/// A column that is solved under a count is made of the shoes in which the player holds it,
/// compared as it was entered: not less than the value for `>=`, not more for `<=`. The chance of
/// the up-card and the edge are those of the shoe in which it is held before the round.
pub proof fn law_column_is_of_the_count_entered<N: Scalar>(
    c: Column<N>,
    n: u8,
    up: Card,
    rules: Ruleset,
    count: CountSetting,
)
    requires
        up.valid(),
        enterable(count.system, n as int, count.external as int, count.how, up),
        ShoeChoice::Decks(n).is_solved(c, up, rules, Some(count)),
    ensures
        exists|states: Seq<CountState>, before: int|
            are_held_shoes(
                states,
                count.system,
                n as int,
                up,
                count.how,
                count.external as int,
            ) && count.system.value(up) + (before - 2) == 0 && 0 <= before < 5
                && #[trigger] is_counted_column::<N>(
                c,
                states,
                count.system.values(),
                up,
                rules,
                before,
            ),
{
    let states = counted_states(count.system, n as int, count.external, count.how, up);
    let before = 2 - count.system.value(up);
    assert forall|g: int| 0 <= g < 5 implies is_held_shoe(
        #[trigger] states[g],
        count.system,
        n as int,
        count.system.value(up) + (g - 2),
        3,
        count.how,
        count.external as int,
    ) by {
        assert(frameable(
            count.system,
            n as int,
            count.external as int,
            count.how,
            up,
            g - 2,
        ));
        counted_state_is_held(
            count.system,
            n as int,
            count.external,
            count.how,
            up,
            g - 2,
        );
    }
    assert(is_counted_column::<N>(c, states, count.system.values(), up, rules, before));
}

/// The chart that the shoes of the five groups make together.
pub open spec fn chart_of<N: Scalar>(
    states: Seq<CountState>,
    values: Seq<i16>,
    up: Card,
    rules: Ruleset,
) -> Parts<N> {
    let trees = Seq::new(5, |g: int| group_tree::<N>(states, values, up, rules, g));
    let reaches = Seq::new(5, |g: int| group_reach::<N>(states, values, up, rules, g));
    let order = group_order::<N>(states, up, 2);
    let n = order.len() as int;
    Parts {
        order: merged_order(order, trees, values, n),
        tree: merged_tree(order, trees, values, n),
        reach: merged_reach(order, trees, reaches, values, n),
    }
}

/// Whether five shoes are those in which the true count, with the up-card and a hand turned up,
/// is at least the whole number `c` where that is not negative, and at most `c` where it is: the
/// count times 52 over the cards left, multiplied out.
pub open spec fn are_whole_true_shoes(
    states: Seq<CountState>,
    n_decks: int,
    up: Card,
    c: int,
) -> bool {
    states.len() == 5 && forall|g: int, left: int, n: int|
        0 <= g < 5 ==> #[trigger] states[g].frame.accepts_spec(left, n) == ({
            let count = held(
                CountSystemId::HiLo,
                n_decks,
                left,
                CountSystemId::HiLo.value(up) + (g - 2),
            );
            &&& n - 3 > 0
            &&& if c >= 0 {
                52 * count >= c * (n - 3)
            } else {
                52 * count <= c * (n - 3)
            }
        })
}

/// The chart that a sweep of true counts has at a whole count is made of the shoes in which the
/// true count is at least that, or at most that where it is negative.
pub proof fn law_true_sweep_is_of_whole_counts<N: Scalar>(sw: Sweep, ext: int)
    requires
        sw.valid(),
        sw.kind == CountKind::TrueCount,
        sw.lo <= ext <= sw.hi,
    ensures
        exists|states: Seq<CountState>|
            are_whole_true_shoes(states, sw.n as int, sw.up, ext) && sw.parts::<N>(ext)
                == #[trigger] chart_of::<N>(
                states,
                CountSystemId::HiLo.values(),
                sw.up,
                sw.rules,
            ),
{
    let how = if ext >= 0 {
        CountCmp::Ge
    } else {
        CountCmp::Le
    };
    let halves = (2 * ext) as i16;
    let states = counted_states(CountSystemId::HiLo, sw.n as int, halves, how, sw.up);
    assert forall|g: int, left: int, n: int| 0 <= g < 5 implies #[trigger] states[g].frame.accepts_spec(
        left,
        n,
    ) == ({
        let count = held(
            CountSystemId::HiLo,
            sw.n as int,
            left,
            CountSystemId::HiLo.value(sw.up) + (g - 2),
        );
        &&& n - 3 > 0
        &&& if ext >= 0 {
            52 * count >= ext * (n - 3)
        } else {
            52 * count <= ext * (n - 3)
        }
    }) by {
        counted_state_is_held(CountSystemId::HiLo, sw.n as int, halves, how, sw.up, g - 2);
        let m = n - 3;
        assert(halves == 2 * ext);
        assert(halves * m == 2 * (ext * m)) by (nonlinear_arith)
            requires
                halves == 2 * ext,
        ;
    }
    assert(sw.parts::<N>(ext) == chart_of::<N>(
        states,
        CountSystemId::HiLo.values(),
        sw.up,
        sw.rules,
    ));
}

/// The move that a sweep of true counts finds for a row at a whole count is the one that the chart
/// shows for the row under the same condition: at least that true count where it is not negative,
/// at most that where it is.
pub proof fn law_index_agrees_with_the_chart<N: Scalar>(
    sw: Sweep,
    ext: int,
    c: Column<N>,
    count: CountSetting,
    i: int,
)
    requires
        sw.valid(),
        sw.kind == CountKind::TrueCount,
        sw.lo <= ext <= sw.hi,
        count.system == CountSystemId::HiLo,
        count.external == ext + ext,
        ext >= 0 ==> count.how == CountCmp::Ge,
        ext < 0 ==> count.how == CountCmp::Le,
        ShoeChoice::Decks(sw.n).is_solved(c, sw.up, sw.rules, Some(count)),
        0 <= i < c.summary.entries().len(),
    ensures
        sw.move_spec::<N>(ext, c.summary.entries()[i].0, Ladder::Primary) == Some(
            c.summary.entries()[i].1.headline,
        ),
{
    assert(count.external == (2 * ext) as i16);
    let (cat, cell) = c.summary.entries()[i];
    assert(c.summary.has(cat));
    let parts = sw.parts::<N>(ext);
    assert(cell.move_evs == cell_evs(parts.order, parts.tree, parts.reach, cat));
}

/// Whether a shoe is that of a player who holds exactly a running count before the round.
pub open spec fn is_running_shoe(s: CountState, n_decks: int, c: int) -> bool {
    is_held_shoe(s, CountSystemId::Ko, n_decks, 0, 0, CountCmp::Eq, c)
}

/// The shoe that a running count is solved on is that of a player who holds exactly it.
pub proof fn law_running_sweep_is_of_exact_counts(n_decks: int, c: int)
    requires
        n_decks >= 0,
        crate::count::convertible(CountSystemId::Ko, n_decks, c),
    ensures
        is_running_shoe(running_state(n_decks, c), n_decks, c),
{
    law_full_shoe_counts(CountSystemId::Ko, n_decks);
    let s = running_state(n_decks, c);
    assert forall|left: int, n: int| #[trigger]
        s.frame.accepts_spec(left, n) == meets(
            CountSystemId::Ko,
            held(CountSystemId::Ko, n_decks, left, 0),
            n - 0,
            CountCmp::Eq,
            c,
        ) by {}
}

/// The running count before the round that a hand is solved at, with what the up-card and the
/// hand count, is the count that is asked about, wherever the sweep reaches it; else it is the
/// end of the sweep that is nearest.
pub proof fn law_running_frames_count_the_table(sw: Sweep, ext: int, g: int)
    requires
        sw.lo <= sw.hi,
        0 <= g < 5,
    ensures
        ({
            let before = sw.frame_count(ext, g);
            let asked = ext - CountSystemId::Ko.value(sw.up) - (g - 2);
            &&& sw.lo <= before <= sw.hi
            &&& sw.lo <= asked <= sw.hi ==> before + CountSystemId::Ko.value(sw.up) + (g - 2) == ext
            &&& asked < sw.lo ==> before == sw.lo
            &&& asked > sw.hi ==> before == sw.hi
        }),
{
}

/// A hand of two cards is read from the group whose shoe has just such a hand turned up, and no
/// hand from a group that is farther off its count than another.
pub proof fn law_hands_are_read_at_their_count(system: CountSystemId, t: Tally, g: int)
    requires
        t.len() == 10,
        0 <= g < 5,
    ensures
        0 <= group_of(system.values(), t) < 5,
        size(t) == 2 ==> group_of(system.values(), t) - 2 == count_of(system.values(), t),
        ({
            let count = count_of(system.values(), t);
            let far = |at: int|
                if at - 2 >= count {
                    at - 2 - count
                } else {
                    count - (at - 2)
                };
            far(group_of(system.values(), t)) <= far(g)
        }),
{
    if size(t) == 2 {
        let (i, j) = crate::edgelaws::ranks_of_two(t);
        two_cards_count(system, i, j);
    }
}

proof fn two_cards_count(system: CountSystemId, i: int, j: int)
    requires
        0 <= i <= j < 10,
    ensures
        -2 <= count_of(system.values(), crate::deallaws::two_cards(i, j)) <= 2,
{
    crate::deallaws::tally_of_two(i, j);
    let t = crate::deallaws::two_cards(i, j);
    let values = system.values();
    let a = single(crate::card::card_at(i));
    let b = single(crate::card::card_at(j));
    assert(t =~= crate::shoe::joined(a, b)) by {
        crate::deallaws::tally_of_one(i);
        crate::deallaws::tally_of_one(j);
    }
    crate::count::law_counts_are_additive(values, a, b, 10);
    crate::countw::count_of_single(values, crate::card::card_at(i), 10);
    crate::countw::count_of_single(values, crate::card::card_at(j), 10);
    crate::card::law_rank_round_trip(crate::card::card_at(i), i);
    crate::card::law_rank_round_trip(crate::card::card_at(j), j);
}

/// What a merged chart has for a hand is what the group of its count has for it.
pub proof fn law_merged_hands_are_of_their_group<N: Scalar>(
    states: Seq<CountState>,
    values: Seq<i16>,
    up: Card,
    rules: Ruleset,
    t: Tally,
)
    requires
        states.len() == 5,
        chart_of::<N>(states, values, up, rules).tree.contains_key(t),
        0 <= group_of(values, t) < 5,
    ensures
        ({
            let g = group_of(values, t);
            let tree = group_tree::<N>(states, values, up, rules, g);
            &&& tree.contains_key(t)
            &&& chart_of::<N>(states, values, up, rules).tree[t] == tree[t]
        }),
{
    let trees = Seq::new(5, |g: int| group_tree::<N>(states, values, up, rules, g));
    let order = group_order::<N>(states, up, 2);
    merged_keys(order, trees, values, order.len() as int);
}

/// In an exact arithmetic insurance wins two where the dealer's hole card is a ten and loses one
/// where it is not, on the shoe in which the player holds the count once the ace is turned up.
pub proof fn law_insurance_is_of_the_count_entered<N: Scalar>(
    val: spec_fn(N) -> real,
    n: u8,
    count: CountSetting,
)
    requires
        exact(val),
        frameable(count.system, n as int, count.external as int, count.how, Card::Ace, 0),
    ensures
        exists|s: CountState| #[trigger]
            is_held_shoe(
                s,
                count.system,
                n as int,
                count.system.value(Card::Ace) as int,
                1,
                count.how,
                count.external as int,
            ) && ({
                let p = val(s.without(single(Card::Ace)).prob::<N>(Card::Ten));
                val(ShoeChoice::Decks(n).insurance_value::<N>(Some(count))) == 2real * p - (1real
                    - p)
            }),
{
    exact_whole::<N>(val, 3);
    exact_whole::<N>(val, 1);
    let s = CountState::fresh(
        count.system.values(),
        deck_tally(n as nat),
        crate::count::frame_of(
            count.system,
            n as int,
            count.external,
            count.how,
            Card::Ace,
            0,
            1,
        ),
        Penetration::FlatPastPercent(25),
    );
    assert forall|left: int, m: int| #[trigger]
        s.frame.accepts_spec(left, m) == meets(
            count.system,
            held(count.system, n as int, left, count.system.value(Card::Ace) as int),
            m - 1,
            count.how,
            count.external as int,
        ) by {
        frame_is_held(
            count.system,
            n as int,
            count.external,
            count.how,
            Card::Ace,
            0,
            1,
            left,
            m,
        );
    }
    assert(is_held_shoe(
        s,
        count.system,
        n as int,
        count.system.value(Card::Ace) as int,
        1,
        count.how,
        count.external as int,
    ));
}

/// The infinite deck has no count: what is solved on it is the same whatever count is entered.
pub proof fn law_infinite_deck_ignores_the_count<N: Scalar>(
    c: Column<N>,
    up: Card,
    rules: Ruleset,
    a: Option<CountSetting>,
    b: Option<CountSetting>,
)
    ensures
        ShoeChoice::Infinite.is_solved(c, up, rules, a) == ShoeChoice::Infinite.is_solved(
            c,
            up,
            rules,
            b,
        ),
        ShoeChoice::Infinite.insurance_value::<N>(a) == ShoeChoice::Infinite.insurance_value::<N>(
            b,
        ),
{
}

/// In an exact arithmetic the up-card of a column without a count comes as often as there are
/// cards of its rank in the full shoe: four for each deck, or sixteen tens, of fifty-two.
pub proof fn law_up_card_comes_from_the_full_shoe<N: Scalar>(
    val: spec_fn(N) -> real,
    c: Column<N>,
    n: u8,
    up: Card,
    rules: Ruleset,
)
    requires
        exact(val),
        n > 0,
        up.valid(),
        ShoeChoice::Decks(n).is_solved(c, up, rules, None),
    ensures
        val(c.p_up) == (if up == Card::Ten {
            4real / 13real
        } else {
            1real / 13real
        }),
{
    full_share::<N>(val, n, up);
    assert(c.p_up == <CardCol as Shoe<N>>::prob(deck_tally(n as nat), up));
}

proof fn full_share<N: Scalar>(val: spec_fn(N) -> real, n: u8, up: Card)
    requires
        exact(val),
        n > 0,
        up.valid(),
    ensures
        val(<CardCol as Shoe<N>>::prob(deck_tally(n as nat), up)) == (if up == Card::Ten {
            4real / 13real
        } else {
            1real / 13real
        }),
{
    let deck = deck_tally(n as nat);
    crate::card::law_rank_round_trip(up, 0);
    let k = deck[up.rank()];
    assert(k == if up == Card::Ten {
        16 * n as nat
    } else {
        4 * n as nat
    });
    assert(size(deck) == 52 * n);
    let x = (n as int) as real;
    let a = (k as int) as real;
    let b = (size(deck) as int) as real;
    assert(val(<CardCol as Shoe<N>>::prob(deck, up)) == a / b);
    assert(b == 52real * x);
    if up == Card::Ten {
        assert(a == 16real * x);
        assert(a / b == 4real / 13real) by (nonlinear_arith)
            requires
                a == 16real * x,
                b == 52real * x,
                x > 0real,
        ;
    } else {
        assert(a == 4real * x);
        assert(a / b == 1real / 13real) by (nonlinear_arith)
            requires
                a == 4real * x,
                b == 52real * x,
                x > 0real,
        ;
    }
}

/// In an exact arithmetic insurance without a count wins two where the hole card is a ten and
/// loses one where it is not: of all cards but the ace on a finite shoe, and always alike on the
/// infinite deck.
pub proof fn law_plain_insurance<N: Scalar>(val: spec_fn(N) -> real, n: u8)
    requires
        exact(val),
        n > 0,
    ensures
        ({
            let p = (16 * n as int) as real / (52 * n as int - 1) as real;
            val(ShoeChoice::Decks(n).insurance_value::<N>(None)) == 2real * p - (1real - p)
        }),
        ({
            let p = 4real / 13real;
            val(ShoeChoice::Infinite.insurance_value::<N>(None)) == 2real * p - (1real - p)
        }),
{
    exact_whole::<N>(val, 3);
    exact_whole::<N>(val, 1);
    let deck = deck_tally(n as nat);
    let left = crate::shoe::taken(deck, single(Card::Ace));
    assert(left[9] == 16 * n as nat);
    assert(size(left) == 52 * n as nat - 1) by {
        assert(left[0] == 4 * n as nat - 1);
    }
    assert(val(N::ratio_spec(4, 13)) == 4real / 13real);
}

/// The arms of a split under a count are dealt from a deck that stands for the cards not seen: in
/// an exact arithmetic, where some shoe meets the condition, it has as many units as they have,
/// and each rank its share of them by its chance, but for a unit at most. A card then comes as
/// often as it has units.
pub proof fn law_split_deck_stands_for_the_unseen<N: Scalar>(
    val: spec_fn(N) -> real,
    s: CountState,
    r: int,
)
    requires
        exact(val),
        crate::tiltlaws::rounds_down(val),
        s.sane(),
        size(s.pool) > 0,
        crate::exact::real_sum(crate::exact::vals(val, s.dist::<N>())) == 1real,
        0 <= r < 10,
    ensures
        s.for_split::<N>().tilted is Some,
        ({
            let (deck, unit) = s.for_split::<N>().tilted->0;
            let share = val(s.dist::<N>()[r]) * (size(deck) as int) as real;
            &&& size(deck) == size(s.pool) * unit
            &&& share - 1real < (deck[r] as int) as real
            &&& (deck[r] as int) as real <= share + 1real
            &&& val(s.for_split::<N>().prob::<N>(crate::card::card_at(r))) == (
            deck[r] as int) as real / (size(deck) as int) as real
        }),
{
    crate::drawlaws::law_counted_chances_are_a_distribution::<N>(val, s);
    crate::countshoe::drawn_facts(s.values, s.root, s.pool);
    crate::tiltlaws::law_tilted_deck_is_in_proportion(val, s.dist::<N>(), size(s.pool), r);
    let (deck, unit) = s.for_split::<N>().tilted->0;
    crate::countshoe::tilted_is_sane(s.dist::<N>(), size(s.pool));
    crate::card::law_rank_round_trip(crate::card::card_at(r), r);
    let n = size(s.pool);
    assert(n * unit >= 1) by (nonlinear_arith)
        requires
            n >= 1,
            unit >= 1,
    ;
    crate::shoe::rank_at_most_size(deck, r);
    assert(n * unit <= 65535) by {
        let u = 50_000nat / n;
        assert(n * u <= 50_000) by (nonlinear_arith)
            requires
                u == 50_000nat / n,
                n >= 1,
        ;
        assert(n * 1 == n);
    }
}

/// Cards drawn take nothing off what is known of the share of the cards left, and as many off a
/// number of cards that is known.
pub proof fn law_cards_drawn_are_left_no_more(k: u16, pct: u8, m: int)
    requires
        0 <= m,
    ensures
        Penetration::FlatPastPercent(pct).after(m) == Penetration::FlatPastPercent(pct),
        m <= k ==> Penetration::CardsRemaining(k).after(m) == Penetration::CardsRemaining(
            (k - m) as u16,
        ),
{
}

/// Which numbers of cards may be left: those of at least a percentage of all, or exactly the one
/// that is known.
pub proof fn law_cards_that_may_be_left(k: u16, pct: u8, n: int, all: int)
    ensures
        Penetration::FlatPastPercent(pct).admits_spec(n, all) <==> n * 100 >= pct * all,
        Penetration::CardsRemaining(k).admits_spec(n, all) <==> n == k,
{
    assert(pct * all == all * pct) by (nonlinear_arith);
}

/// Whether the cells and the edge of a column are those of hands dealt from a shoe once the
/// up-card is out of it, each hand solved on it and pairs split from it.
pub open spec fn is_of_hands<N: Scalar, S: Shoe<N>>(
    c: Column<N>,
    s: S::State,
    up: Card,
    rules: Ruleset,
    order: Seq<Tally>,
    tree: Map<Tally, (N, MoveEvs<N>)>,
    reach: Map<Tally, N>,
) -> bool {
    let left = S::without(s, single(up));
    &&& forall|t: Tally| #[trigger]
        tree.contains_key(t) ==> {
            &&& hard(t) <= 21
            &&& tree[t].1 == hand_ev::<N, S>(
                basis_of(up, rules),
                rules,
                left,
                pair_values::<N, S>(s, up, rules),
                t,
            )
        }
    &&& forall|i: int|
        0 <= i < c.summary.entries().len() ==> (#[trigger] c.summary.entries()[i]).1.move_evs
            == cell_evs(order, tree, reach, c.summary.entries()[i].0)
    &&& c.edge == best_edge(order, tree)
}

/// A column without a count is that of hands dealt from the full finite shoe, or from the infinite
/// deck, once the up-card is out of it.
pub proof fn law_plain_column_is_of_what_is_left<N: Scalar>(
    c: Column<N>,
    n: u8,
    up: Card,
    rules: Ruleset,
)
    requires
        up.valid(),
    ensures
        ShoeChoice::Decks(n).is_solved(c, up, rules, None) ==> exists|
            order: Seq<Tally>,
            tree: Map<Tally, (N, MoveEvs<N>)>,
            reach: Map<Tally, N>,
        | #[trigger]
            is_of_hands::<N, CardCol>(c, deck_tally(n as nat), up, rules, order, tree, reach),
        ShoeChoice::Infinite.is_solved(c, up, rules, None) ==> exists|
            order: Seq<Tally>,
            tree: Map<Tally, (N, MoveEvs<N>)>,
            reach: Map<Tally, N>,
        | #[trigger]
            is_of_hands::<N, InfiniteDeck>(c, (), up, rules, order, tree, reach),
{
    if ShoeChoice::Decks(n).is_solved(c, up, rules, None) {
        column_is_of_hands::<N, CardCol>(c, deck_tally(n as nat), up, rules);
    }
    if ShoeChoice::Infinite.is_solved(c, up, rules, None) {
        column_is_of_hands::<N, InfiniteDeck>(c, (), up, rules);
    }
}

proof fn column_is_of_hands<N: Scalar, S: Shoe<N>>(
    c: Column<N>,
    s: S::State,
    up: Card,
    rules: Ruleset,
)
    requires
        is_column::<N, S>(c, s, up, rules),
    ensures
        exists|
            order: Seq<Tally>,
            tree: Map<Tally, (N, MoveEvs<N>)>,
            reach: Map<Tally, N>,
        | #[trigger]
            is_of_hands::<N, S>(c, s, up, rules, order, tree, reach),
{
    let b = basis_of(up, rules);
    let after = S::without(s, single(up));
    let order = solve_order::<N, S>(after, 2);
    let tree = tree_map::<N, S>(b, rules, after, pair_values::<N, S>(s, up, rules));
    let reach = reach_map::<N, S>(order, tree, b, rules, after, true);
    assert(is_of_hands::<N, S>(c, s, up, rules, order, tree, reach));
}

/// A hand of a count group is solved on the shoe of its group once the up-card is out of it, and
/// a pair of the group is split from that shoe.
pub proof fn law_groups_are_solved_on_their_shoe<N: Scalar>(
    states: Seq<CountState>,
    values: Seq<i16>,
    up: Card,
    rules: Ruleset,
    t: Tally,
    g: int,
)
    requires
        states.len() == 5,
        0 <= g < 5,
        states[g].sane(),
        group_of(values, t) == g,
        group_tree::<N>(states, values, up, rules, g).contains_key(t),
    ensures
        ({
            let evs = group_tree::<N>(states, values, up, rules, g)[t].1;
            exists|splits: Map<Tally, N>|
                evs == #[trigger] hand_ev::<N, CountShoe<N>>(
                    basis_of(up, rules),
                    rules,
                    states[g].without(single(up)),
                    splits,
                    t,
                ) && (splits.contains_key(t) ==> splits[t] == pair_value::<N, CountShoe<N>>(
                    states[g],
                    up,
                    rules,
                    pair_of(t)->0,
                ))
        }),
{
    let splits = counted_splits::<N>(states, values, up, rules, g);
    assert(group_tree::<N>(states, values, up, rules, g)[t].1 == hand_ev::<N, CountShoe<N>>(
        basis_of(up, rules),
        rules,
        states[g].without(single(up)),
        splits,
        t,
    ));
}

/// The chart at a running count has for each hand what a shoe has for it on which the player holds
/// exactly a running count before the round. For a hand of two cards that count, with what the
/// up-card and the hand count, is the count asked about, wherever the sweep reaches it.
pub proof fn law_running_chart_is_of_exact_counts<N: Scalar>(sw: Sweep, ext: int, t: Tally)
    requires
        sw.kind == CountKind::Running,
        sw.valid(),
        t.len() == 10,
        sw.parts::<N>(ext).tree.contains_key(t),
    ensures
        ({
            let system = CountSystemId::Ko;
            let c = sw.frame_count(ext, group_of(system.values(), t));
            let s = running_state(sw.n as int, c);
            let asked = ext - system.value(sw.up) - count_of(system.values(), t);
            &&& is_running_shoe(s, sw.n as int, c)
            &&& size(t) == 2 && sw.lo <= asked <= sw.hi ==> c + system.value(sw.up) + count_of(
                system.values(),
                t,
            ) == ext
            &&& sw.parts::<N>(ext).tree[t].1 == hand_ev::<N, CountShoe<N>>(
                basis_of(sw.up, sw.rules),
                sw.rules,
                s.without(single(sw.up)),
                pair_values::<N, CountShoe<N>>(s, sw.up, sw.rules),
                t,
            )
            &&& crate::reach::mass_of(sw.parts::<N>(ext).reach, t) == crate::reach::mass_of(
                plain_reach::<N>(s, sw.up, sw.rules),
                t,
            )
        }),
{
    let system = CountSystemId::Ko;
    let values = system.values();
    let trees = running_trees::<N>(sw, ext);
    let reaches = running_reaches::<N>(sw, ext);
    let order = plain_order::<N>(running_state(sw.n as int, sw.frame_count(ext, 2)), sw.up);
    let g = group_of(values, t);
    law_hands_are_read_at_their_count(system, t, g);
    law_running_frames_count_the_table(sw, ext, g);
    law_full_shoe_counts(system, sw.n as int);
    let c = sw.frame_count(ext, g);
    assert(crate::count::convertible(system, sw.n as int, c));
    law_running_sweep_is_of_exact_counts(sw.n as int, c);
    merged_keys(order, trees, values, order.len() as int);
    merged_masses(order, trees, reaches, values, t, order.len() as int);
    assert(trees[g].contains_key(t));
}

proof fn merged_masses<N>(
    order: Seq<Tally>,
    trees: Seq<Map<Tally, (N, MoveEvs<N>)>>,
    reaches: Seq<Map<Tally, N>>,
    values: Seq<i16>,
    t: Tally,
    k: int,
)
    requires
        0 <= k <= order.len(),
    ensures
        ({
            let g = group_of(values, t);
            let merged = merged_reach(order, trees, reaches, values, k);
            &&& merged.contains_key(t) <==> merged_tree(order, trees, values, k).contains_key(t)
                && reaches[g].contains_key(t)
            &&& merged.contains_key(t) ==> merged[t] == reaches[g][t]
            &&& merged_tree(order, trees, values, k).contains_key(t) <==> trees[g].contains_key(t)
                && exists|i: int| 0 <= i < k && #[trigger] order[i] == t
        }),
    decreases k,
{
    if k > 0 {
        merged_masses(order, trees, reaches, values, t, k - 1);
        if order[k - 1] == t {
            assert(0 <= k - 1 < k && order[k - 1] == t);
        } else if exists|i: int| 0 <= i < k && #[trigger] order[i] == t {
            let i = choose|i: int| 0 <= i < k && #[trigger] order[i] == t;
            assert(0 <= i < k - 1 && order[i] == t);
        }
    }
}

/// A hand is in the chart at a running count exactly where it can be dealt from the shoe at whose
/// count it is read, and can be dealt from the shoe of hands that count nothing.
pub proof fn law_running_chart_has_every_hand<N: Scalar>(sw: Sweep, ext: int, t: Tally)
    requires
        t.len() == 10,
    ensures
        sw.kind == CountKind::Running ==> ({
            let g = group_of(CountSystemId::Ko.values(), t);
            let own = running_state(sw.n as int, sw.frame_count(ext, g));
            let order = plain_order::<N>(running_state(sw.n as int, sw.frame_count(ext, 2)), sw.up);
            sw.parts::<N>(ext).tree.contains_key(t) <==> crate::solve::dealable::<N, CountShoe<N>>(
                own.without(single(sw.up)),
                t,
            ) && order.contains(t)
        }),
{
    if sw.kind == CountKind::Running {
        let values = CountSystemId::Ko.values();
        let trees = running_trees::<N>(sw, ext);
        let reaches = running_reaches::<N>(sw, ext);
        let order = plain_order::<N>(running_state(sw.n as int, sw.frame_count(ext, 2)), sw.up);
        law_hands_are_read_at_their_count(CountSystemId::Ko, t, 0);
        merged_masses(order, trees, reaches, values, t, order.len() as int);
        if order.contains(t) {
            let i = order.index_of(t);
            assert(0 <= i < order.len() && order[i] == t);
        }
    }
}

/// Under a count a pair may be split exactly where the rules allow two hands, and no other hand
/// may.
pub proof fn law_counted_pairs_may_be_split<N: Scalar>(
    states: Seq<CountState>,
    values: Seq<i16>,
    up: Card,
    rules: Ruleset,
    t: Tally,
    g: int,
)
    requires
        states.len() == 5,
        0 <= g < 5,
        up.valid(),
        states[g].sane(),
        group_of(values, t) == g,
        group_tree::<N>(states, values, up, rules, g).contains_key(t),
        states[2].without(single(up)).holds(t),
    ensures
        ({
            let split = group_tree::<N>(states, values, up, rules, g)[t].1.split;
            &&& split is Some ==> rules.max_split_hands >= 2 && exists|rank: int|
                0 <= rank < 10 && t == #[trigger] pair_tally(card_at(rank))
            &&& forall|rank: int|
                0 <= rank < 10 && t == #[trigger] pair_tally(card_at(rank))
                    && rules.max_split_hands >= 2 ==> split is Some
        }),
{
    let splits = counted_splits::<N>(states, values, up, rules, g);
    let s = states[g].without(single(up));
    <CountShoe<N> as Shoe<N>>::without_supply(states[g], single(up));
    assert(group_tree::<N>(states, values, up, rules, g)[t].1 == hand_ev::<N, CountShoe<N>>(
        basis_of(up, rules),
        rules,
        s,
        splits,
        t,
    ));
    assert forall|rank: int|
        0 <= rank < 10 && t == #[trigger] pair_tally(card_at(rank)) && rules.max_split_hands
            >= 2 implies group_tree::<N>(states, values, up, rules, g)[t].1.split is Some by {
        crate::round::pair_tally_is_pair(rank);
        assert(splits.contains_key(t));
        crate::hand::pair_is_unique(t, rank);
        crate::card::law_rank_round_trip(card_at(rank), rank);
        assert(size(t) == 2);
        assert(t[rank] == 2);
        assert(!crate::shoe::is_natural(t));
    }
}

/// Where the player stands on the axis of the index is their running count, or the greatest whole
/// true count that is not above theirs.
pub proof fn law_place_on_the_axis(count: CountSetting, c: int)
    ensures
        match count.system.kind_spec() {
            CountKind::Running => count.axis_value() == count.external,
            CountKind::TrueCount => {
                &&& 2 * count.axis_value() <= count.external
                &&& 2 * c <= count.external ==> c <= count.axis_value()
            },
        },
{
}

/// A true count is written as a whole number with its sign where it is whole, and else as the whole
/// number nearer to zero and a half; a count and its opposite differ in the sign alone.
pub proof fn law_true_counts_are_written(count: CountSetting, opposite: CountSetting)
    requires
        count.system.kind_spec() == CountKind::TrueCount,
        opposite.system == count.system,
        opposite.external == -count.external,
        count.external > 0,
    ensures
        count.external % 2 == 0 ==> 2 * (count.external / 2) == count.external
            && count.value_text() == signed(count.external as int / 2),
        count.external % 2 == 1 ==> count.value_text() == seq!['+'] + digits(
            ((count.external - 1) / 2) as nat,
        ) + seq!['.', '5'],
        count.value_text()[0] == '+',
        opposite.value_text() == seq!['-'] + count.value_text().drop_first(),
{
    let n = count.external as int;
    let text = count.value_text();
    if n % 2 == 0 {
        assert((-n) / 2 == -(n / 2));
        assert(text =~= seq!['+'] + digits((n / 2) as nat));
        assert(text.drop_first() =~= digits((n / 2) as nat));
        assert(opposite.value_text() =~= seq!['-'] + digits((n / 2) as nat));
    } else {
        assert((n - 1) / 2 == n / 2);
        assert(text.drop_first() =~= digits((n / 2) as nat) + seq!['.', '5']);
        assert(opposite.value_text() =~= seq!['-'] + (digits((n / 2) as nat) + seq!['.', '5']));
    }
}

/// Ace-Five counts the fives less the aces; Hi-Lo the cards from two to six less the tens and aces;
/// and KO what Hi-Lo counts with the sevens.
pub proof fn law_systems_count_cards(t: Tally)
    requires
        t.len() == 10,
    ensures
        ({
            let of = |card: Card| t[card.rank()] as int;
            let low = of(Card::Pip(2)) + of(Card::Pip(3)) + of(Card::Pip(4)) + of(Card::Pip(5)) + of(
                Card::Pip(6),
            );
            let hilo = count_of(CountSystemId::HiLo.values(), t);
            &&& count_of(CountSystemId::AceFive.values(), t) == of(Card::Pip(5)) - of(Card::Ace)
            &&& hilo == low - of(Card::Ten) - of(Card::Ace)
            &&& count_of(CountSystemId::Ko.values(), t) == hilo + of(Card::Pip(7))
        }),
{
    reveal_with_fuel(crate::count::count_upto, 11);
    assert forall|system: CountSystemId, i: int| 0 <= i < 10 implies (#[trigger] system.values()[i])
        * t[i] == if system.values()[i] == 1 {
        t[i] as int
    } else if system.values()[i] == 0 {
        0
    } else {
        -t[i]
    } by {
        let x = system.values()[i];
        let y = t[i];
        assert(x == 1 || x == 0 || x == -1);
        assert(x * y == if x == 1 {
            y as int
        } else if x == 0 {
            0
        } else {
            -y
        }) by (nonlinear_arith)
            requires
                x == 1 || x == 0 || x == -1,
        ;
    }
}

} // verus!
