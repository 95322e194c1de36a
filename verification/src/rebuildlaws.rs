//! A count table that cards were taken out of answers as one that was built without them.
use crate::card::Card;
use crate::combinat::{picks, picks_are_there};
use crate::count::count_of;
use crate::countlaws::{
    holds_shares, law_table_forgets_cards_taken_out, law_thinned_table_holds_shares, negatives,
    no_ways, pool_card_sums, positives, sums_in_any_order, ways,
};
use crate::countshoe::{gone_upto, scales_for, CountState};
use crate::countw::{
    class_counts, class_upto, grid_after, high, is_left, low, pool_cards, pool_cards_count, rank_chances,
    rank_weights, scale, scale_upto, thinned, value_sum, CountW, Grid, Question,
};
use crate::drawlaws::{
    bounds_grow, cards_count, is_counted, law_counted_shoe_weighs_unseen_cards, one_card_less,
    uncounted_class,
};
use crate::exact::{exact, exact_total, exact_whole, vals};
use crate::num::{total, Scalar};
use crate::shoe::{
    joined, law_taken_twice, single, size, taken, tally_len, tally_of, within, Tally,
};
use crate::training::all_valid;
use vstd::multiset::*;
use vstd::prelude::*;
use vstd::seq_lib::*;

verus! {

/// The share of the picks of `n` of the cards that have the count `s`.
pub open spec fn share(cards: Seq<i16>, s: int, n: int) -> real {
    (ways(cards, s, n) as int) as real / (picks(cards.len() as int, n) as int) as real
}

/// What a grid that holds the shares has is the share.
pub proof fn grid_share<N: Scalar>(
    val: spec_fn(N) -> real,
    grid: Grid<N>,
    cards: Seq<i16>,
    lo: int,
    hi: int,
    s: int,
    n: int,
)
    requires
        holds_shares(val, grid, cards, lo, hi),
        lo <= s <= hi,
        0 <= n <= cards.len(),
    ensures
        val(grid(s, n)) == share(cards, s, n),
{
    picks_are_there(cards.len() as int, n);
    let x = val(grid(s, n));
    let p = (picks(cards.len() as int, n) as int) as real;
    let w = (ways(cards, s, n) as int) as real;
    assert(x * p == w);
    assert(x == w / p) by (nonlinear_arith)
        requires
            x * p == w,
            p >= 1real,
    ;
}

/// A count that the cards cannot have has no share.
proof fn no_share(cards: Seq<i16>, s: int, n: int)
    requires
        s < negatives(cards) || s > positives(cards),
        0 <= n <= cards.len(),
    ensures
        share(cards, s, n) == 0real,
{
    no_ways(cards, s, n);
    picks_are_there(cards.len() as int, n);
    let p = (picks(cards.len() as int, n) as int) as real;
    assert(0real / p == 0real) by (nonlinear_arith)
        requires
            p >= 1real,
    ;
}

/// Which picks are asked for, by their count and their number of cards.
pub type Asked = spec_fn(int, int) -> bool;

/// The weight of the picks that are asked for, of up to `n` cards with the count `s`, that
/// begin with a card that counts `v`, where `rest` are the others.
pub open spec fn row_weight(rest: Seq<i16>, v: int, ok: Asked, s: int, n: int) -> real
    decreases n,
{
    if n <= 0 {
        0real
    } else {
        row_weight(rest, v, ok, s, n - 1) + if ok(s, n) {
            share(rest, s - v, n - 1)
        } else {
            0real
        }
    }
}

/// The weight of the picks that are asked for with counts from `lo` to `s`.
pub open spec fn band_weight(rest: Seq<i16>, v: int, ok: Asked, lo: int, s: int) -> real
    decreases s - lo + 1,
{
    if s < lo {
        0real
    } else {
        band_weight(rest, v, ok, lo, s - 1) + row_weight(rest, v, ok, s, rest.len() as int + 1)
    }
}

/// A count that the picks cannot have weighs nothing.
proof fn no_row_weight(rest: Seq<i16>, v: int, ok: Asked, s: int, n: int)
    requires
        s - v < negatives(rest) || s - v > positives(rest),
        n <= rest.len() + 1,
    ensures
        row_weight(rest, v, ok, s, n) == 0real,
    decreases n,
{
    if n > 0 {
        no_row_weight(rest, v, ok, s, n - 1);
        no_share(rest, s - v, n - 1);
    }
}

/// Counts below those that the picks can have add nothing.
proof fn band_from_below(rest: Seq<i16>, v: int, ok: Asked, lo: int, s: int)
    requires
        lo <= negatives(rest) + v,
    ensures
        band_weight(rest, v, ok, lo, s) == band_weight(rest, v, ok, negatives(rest) + v, s),
    decreases s - lo + 1,
{
    if s >= lo {
        band_from_below(rest, v, ok, lo, s - 1);
        if s < negatives(rest) + v {
            no_row_weight(rest, v, ok, s, rest.len() as int + 1);
        }
    }
}

/// Counts above those that the picks can have add nothing.
proof fn band_from_above(rest: Seq<i16>, v: int, ok: Asked, lo: int, s: int)
    requires
        lo <= positives(rest) + v + 1,
        positives(rest) + v <= s,
    ensures
        band_weight(rest, v, ok, lo, s) == band_weight(rest, v, ok, lo, positives(rest) + v),
    decreases s - positives(rest) - v,
{
    if s > positives(rest) + v {
        band_from_above(rest, v, ok, lo, s - 1);
        no_row_weight(rest, v, ok, s, rest.len() as int + 1);
    }
}

/// In an exact arithmetic a scale is the weight of the picks.
proof fn scale_weight<N: Scalar>(
    val: spec_fn(N) -> real,
    left: Grid<N>,
    rest: Seq<i16>,
    lo: int,
    hi: int,
    v: int,
    q: Question,
    ok: Asked,
    s: int,
    n: int,
)
    requires
        exact(val),
        forall|c: int, m: int| #[trigger] ok(c, m) == q.admits(c, m, rest.len() as int + 1),
        holds_shares(val, left, rest, lo, hi),
        lo <= negatives(rest),
        positives(rest) <= hi,
        lo <= s,
        0 <= n <= rest.len() + 1,
    ensures
        val(scale_upto::<N>(left, lo, hi, rest.len() as int + 1, v, q, s, n)) == band_weight(
            rest,
            v,
            ok,
            lo,
            s - 1,
        ) + row_weight(rest, v, ok, s, n),
    decreases s - lo, n,
{
    exact_whole::<N>(val, 0);
    let big_n = rest.len() as int + 1;
    if n == 0 {
        if s > lo {
            scale_weight(val, left, rest, lo, hi, v, q, ok, s - 1, big_n);
        }
    } else {
        scale_weight(val, left, rest, lo, hi, v, q, ok, s, n - 1);
        if lo <= s - v <= hi {
            grid_share(val, left, rest, lo, hi, s - v, n - 1);
        } else {
            no_share(rest, s - v, n - 1);
        }
    }
}

/// The cards of a full pool are the cards left and the cards gone.
proof fn all_cards(values: Seq<i16>, root: Tally, pool: Tally, gone: Seq<i16>)
    requires
        is_left(values, root, pool, gone),
    ensures
        pool_cards(values, root).to_multiset() == (pool_cards(values, pool) + gone).to_multiset(),
{
    broadcast use group_to_multiset_ensures;
    let left = pool_cards(values, pool);
    lemma_multiset_commutative(left, gone);
    assert forall|w: i16| pool_cards(values, root).to_multiset().count(w) == #[trigger] (left
        + gone).to_multiset().count(w) by {
        cards_count(values, root, w, 10);
        cards_count(values, pool, w, 10);
        assert(class_upto(values, root, w, 10) == class_upto(values, pool, w, 10)
            + gone.to_multiset().count(w));
    }
    assert(pool_cards(values, root).to_multiset() =~= (left + gone).to_multiset());
}

/// In an exact arithmetic a scale of a table is the weight of the picks from its pool.
proof fn table_scale<N: Scalar>(
    val: spec_fn(N) -> real,
    table: CountW<N>,
    q: Question,
    ok: Asked,
    v: i16,
    rest: Seq<i16>,
)
    requires
        exact(val),
        table.wf(),
        forall|c: int, m: int| #[trigger] ok(c, m) == q.admits(c, m, rest.len() as int + 1),
        pool_cards(table.values(), table.pool()).to_multiset() == rest.push(v).to_multiset(),
        rest.len() + 1 == pool_cards(table.values(), table.pool()).len(),
    ensures
        val(
            scale::<N>(
                table.grid(),
                low(table.values(), table.root()),
                high(table.values(), table.root()),
                size(table.pool()) as int,
                count_of(table.values(), table.pool()),
                v as int,
                q,
            ),
        ) == band_weight(rest, v as int, ok, negatives(rest) + v, positives(rest) + v),
{
    let values = table.values();
    let root = table.root();
    let pool = table.pool();
    let cards = pool_cards(values, pool);
    let lo = low(values, root);
    let hi = high(values, root);
    table.pool_facts();
    assert(within(pool, root));
    all_cards(values, root, pool, table.gone());
    law_table_forgets_cards_taken_out::<N>(val, values, root, table.gone(), cards);
    pool_cards_count(values, pool);
    pool_cards_count(values, root);
    pool_card_sums(values, pool, 10);
    bounds_grow(values, pool, root, 10);
    sums_in_any_order(cards, rest.push(v));
    assert(rest.push(v).drop_last() =~= rest);
    no_ways(rest, 0, 0);
    law_thinned_table_holds_shares::<N>(val, table.grid(), cards, rest, v, lo, hi);
    let left = thinned::<N>(table.grid(), lo, hi, cards.len() as int, value_sum(cards), v as int);
    scale_weight::<N>(val, left, rest, lo, hi, v as int, q, ok, hi, cards.len() as int);
    band_from_below(rest, v as int, ok, lo, hi);
    band_from_above(rest, v as int, ok, negatives(rest) + v, hi);
}

/// The cards left when the cards of a hand are taken out one after the other.
pub open spec fn left_in_turn(t: Tally, hand: Seq<Card>) -> Tally
    decreases hand.len(),
{
    if hand.len() == 0 {
        t
    } else {
        taken(left_in_turn(t, hand.drop_last()), single(hand.last()))
    }
}

/// Taking the cards of a hand out one after the other leaves what taking out the hand
/// leaves.
pub proof fn law_cards_leave_in_turn(t: Tally, hand: Seq<Card>)
    requires
        t.len() == 10,
        all_valid(hand),
    ensures
        left_in_turn(t, hand) == taken(t, tally_of(hand)),
    decreases hand.len(),
{
    if hand.len() == 0 {
        assert(taken(t, tally_of(hand)) =~= t);
    } else {
        let before = hand.drop_last();
        assert(all_valid(before));
        law_cards_leave_in_turn(t, before);
        tally_len(before);
        law_taken_twice(t, tally_of(before), single(hand.last()));
        assert(joined(tally_of(before), single(hand.last())) =~= tally_of(hand));
    }
}

/// In an exact arithmetic, two tables over the same cards give the same scales.
proof fn same_scales<N: Scalar>(
    val: spec_fn(N) -> real,
    a: CountW<N>,
    b: CountW<N>,
    q: Question,
    r: int,
)
    requires
        exact(val),
        a.wf(),
        b.wf(),
        a.values() == b.values(),
        a.pool() == b.pool(),
        0 <= r < 10,
    ensures
        val(a.scales_spec(q)[r]) == val(b.scales_spec(q)[r]),
{
    let values = a.values();
    let pool = a.pool();
    let classes = class_counts(values, pool);
    if classes[r] > 0 {
        let cards = pool_cards(values, pool);
        cards_count(values, pool, values[r], 10);
        let rest = one_card_less(cards, values[r]);
        let ok = |c: int, m: int| q.admits(c, m, rest.len() as int + 1);
        table_scale(val, a, q, ok, values[r], rest);
        table_scale(val, b, q, ok, values[r], rest);
    }
}

/// In an exact arithmetic, tables over the same cards give the same chances, whatever was
/// taken out of each before: one that cards were taken out of answers every question as
/// one that was built without them.
pub proof fn law_tables_over_the_same_cards_draw_alike<N: Scalar>(
    val: spec_fn(N) -> real,
    a: CountW<N>,
    b: CountW<N>,
    q: Question,
    r: int,
)
    requires
        exact(val),
        a.wf(),
        b.wf(),
        a.values() == b.values(),
        a.pool() == b.pool(),
        0 <= r < 10,
    ensures
        val(rank_chances(a.pool(), a.scales_spec(q))[r]) == val(
            rank_chances(b.pool(), b.scales_spec(q))[r],
        ),
{
    exact_whole::<N>(val, 0);
    let wa = rank_weights(a.pool(), a.scales_spec(q));
    let wb = rank_weights(b.pool(), b.scales_spec(q));
    assert forall|i: int| 0 <= i < 10 implies val(#[trigger] wa[i]) == val(wb[i]) by {
        same_scales(val, a, b, q, i);
    }
    exact_total(val, wa);
    exact_total(val, wb);
    assert(vals(val, wa) =~= vals(val, wb));
    assert(val(total(wa)) == val(total(wb)));
}

/// Pools that are alike in every class have cards that count alike.
proof fn same_classes(values: Seq<i16>, a: Tally, b: Tally)
    requires
        values.len() == 10,
        a.len() == 10,
        b.len() == 10,
        class_counts(values, a) == class_counts(values, b),
    ensures
        count_of(values, a) == count_of(values, b),
        size(a) == size(b),
{
    broadcast use group_to_multiset_ensures;
    let x = pool_cards(values, a);
    let y = pool_cards(values, b);
    assert forall|w: i16| x.to_multiset().count(w) == #[trigger] y.to_multiset().count(w) by {
        cards_count(values, a, w, 10);
        cards_count(values, b, w, 10);
        if is_counted(values, w, 10) {
            let q = choose|q: int| 0 <= q < 10 && #[trigger] values[q] == w;
            assert(class_counts(values, a)[q] == class_upto(values, a, w, 10));
            assert(class_counts(values, b)[q] == class_upto(values, b, w, 10));
        } else {
            uncounted_class(values, a, w, 10);
            uncounted_class(values, b, w, 10);
        }
    }
    assert(x.to_multiset() =~= y.to_multiset());
    assert(x.len() == x.to_multiset().len() && y.len() == y.to_multiset().len());
    sums_in_any_order(x, y);
    pool_card_sums(values, a, 10);
    pool_card_sums(values, b, 10);
    pool_cards_count(values, a);
    pool_cards_count(values, b);
}

/// The scales of a counted shoe depend on how many cards of each class are left, and not on
/// their ranks: shoes whose pools are alike in every class have the same scales.
pub proof fn law_scales_depend_on_the_classes<N: Scalar>(a: CountState, b: CountState)
    requires
        a.sane(),
        b.sane(),
        a.values == b.values,
        a.root == b.root,
        a.frame == b.frame,
        a.pen == b.pen,
        class_counts(a.values, a.pool) == class_counts(b.values, b.pool),
    ensures
        scales_for::<N>(a.values, a.root, a.scale_id()) == scales_for::<N>(
            b.values,
            b.root,
            b.scale_id(),
        ),
{
    same_classes(a.values, a.pool, b.pool);
}

/// Which picks of the cards not seen are asked for by a counted shoe: those whose number of cards
/// may be left of as many, and which, with the cards drawn since, make up a shoe that the frame
/// admits.
pub open spec fn asked_of(s: CountState) -> Asked {
    |c: int, n: int|
        s.pen.admits_spec(n, size(s.pool) as int) && s.frame.accepts_spec(
            c + (count_of(s.values, s.root) - count_of(s.values, s.pool)),
            n + (size(s.root) - size(s.pool)),
        )
}

/// In an exact arithmetic the scale of a rank of a counted shoe is the weight of the picks that
/// are asked for and begin with a card of its class: for every number of cards alike, the share
/// of the picks of the others that make up the count.
pub proof fn law_scales_weigh_the_picks_asked_for<N: Scalar>(
    val: spec_fn(N) -> real,
    s: CountState,
    r: int,
    rest: Seq<i16>,
)
    requires
        exact(val),
        s.sane(),
        0 <= r < 10,
        pool_cards(s.values, s.pool).to_multiset() == rest.push(s.values[r]).to_multiset(),
        rest.len() + 1 == pool_cards(s.values, s.pool).len(),
    ensures
        val(scales_for::<N>(s.values, s.root, s.scale_id())[r]) == band_weight(
            rest,
            s.values[r] as int,
            asked_of(s),
            negatives(rest) + s.values[r],
            positives(rest) + s.values[r],
        ),
{
    broadcast use group_to_multiset_ensures;
    let id = s.scale_id();
    let v = s.values[r];
    let lo = low(s.values, s.root);
    let hi = high(s.values, s.root);
    let cards = pool_cards(s.values, s.pool);
    let grid = grid_after::<N>(s.values, s.root, gone_upto(s.values, s.root, id.classes, 10));
    law_counted_shoe_weighs_unseen_cards::<N>(val, s);
    pool_cards_count(s.values, s.pool);
    pool_cards_count(s.values, s.root);
    pool_card_sums(s.values, s.pool, 10);
    pool_card_sums(s.values, s.root, 10);
    bounds_grow(s.values, s.pool, s.root, 10);
    crate::countshoe::drawn_facts(s.values, s.root, s.pool);
    sums_in_any_order(cards, rest.push(v));
    assert(rest.push(v).drop_last() =~= rest);
    no_ways(rest, 0, 0);
    cards_count(s.values, s.pool, v, 10);
    assert(rest.push(v)[rest.len() as int] == v);
    assert(rest.push(v).contains(v));
    assert(cards.to_multiset().count(v) > 0);
    assert(id.classes[r] > 0);
    law_thinned_table_holds_shares::<N>(val, grid, cards, rest, v, lo, hi);
    let left = thinned::<N>(grid, lo, hi, cards.len() as int, value_sum(cards), v as int);
    let q = Question {
        frame: id.frame,
        pen: id.pen,
        drawn_sum: id.drawn_sum,
        drawn_cards: id.drawn_cards,
    };
    let ok = asked_of(s);
    assert forall|c: int, m: int| #[trigger] ok(c, m) == q.admits(c, m, rest.len() as int + 1) by {}
    scale_weight::<N>(val, left, rest, lo, hi, v as int, q, ok, hi, cards.len() as int);
    band_from_below(rest, v as int, ok, lo, hi);
    band_from_above(rest, v as int, ok, negatives(rest) + v, hi);
}

/// In an exact arithmetic the chances of the next card of a counted shoe are to each other as the
/// numbers of the cards not seen, each times the scale of its rank.
pub proof fn law_chances_go_by_cards_and_scales<N: Scalar>(
    val: spec_fn(N) -> real,
    s: CountState,
    q: int,
    r: int,
)
    requires
        exact(val),
        s.sane(),
        0 <= q < 10,
        0 <= r < 10,
    ensures
        ({
            let scs = scales_for::<N>(s.values, s.root, s.scale_id());
            let a = (s.pool[q] as int) as real * val(scs[q]);
            let b = (s.pool[r] as int) as real * val(scs[r]);
            val(s.dist::<N>()[q]) * b == val(s.dist::<N>()[r]) * a
        }),
{
    exact_whole::<N>(val, 0);
    let scs = scales_for::<N>(s.values, s.root, s.scale_id());
    let weights = rank_weights(s.pool, scs);
    let sum = total(weights);
    assert(s.pool[q] <= s.root[q] && s.pool[r] <= s.root[r]);
    crate::shoe::rank_at_most_size(s.root, q);
    crate::shoe::rank_at_most_size(s.root, r);
    exact_whole::<N>(val, s.pool[q] as i64);
    exact_whole::<N>(val, s.pool[r] as i64);
    let a = val(weights[q]);
    let b = val(weights[r]);
    let t = val(sum);
    if t > 0real {
        assert((a / t) * b == (b / t) * a) by (nonlinear_arith)
            requires
                t > 0real,
        ;
    } else {
        assert(a * b == b * a) by (nonlinear_arith);
    }
}

} // verus!
