//! What the chances of the next card come to, as numbers.
use crate::combinat::{picks, picks_are_there};
use crate::count::{count_of, Penetration};
use crate::countlaws::{
    holds_shares, law_table_forgets_cards_taken_out, law_thinned_table_holds_shares, negatives,
    no_ways, pool_card_sums, positives, ways,
};
use crate::countshoe::{gone_upto, leads_class, scales_for, CountState};
use crate::countw::{
    cards_upto, class_counts, class_upto, grid_after, high, low, pool_cards, pool_cards_count,
    rank_weights, scale_upto, thinned, value_sum, Grid, Question,
};
use crate::exact::{exact, exact_total, exact_whole, real_sum, sum_is_large, sum_of_quotients, vals};
use crate::num::{total, Scalar};
use crate::shoe::{size, within, Tally};
use vstd::multiset::*;
use vstd::prelude::*;
use vstd::seq_lib::*;

verus! {

proof fn repeated_count(v: i16, n: nat, w: i16)
    ensures
        Seq::new(n, |i: int| v).to_multiset().count(w) == if w == v {
            n
        } else {
            0
        },
    decreases n,
{
    broadcast use group_to_multiset_ensures;
    if n > 0 {
        let m = (n - 1) as nat;
        repeated_count(v, m, w);
        assert(Seq::new(n, |i: int| v) =~= Seq::new(m, |i: int| v).push(v));
    } else {
        assert(Seq::new(n, |i: int| v) =~= Seq::<i16>::empty());
    }
}

/// A pool has as many cards of a value as its class counts tell.
pub proof fn cards_count(values: Seq<i16>, t: Tally, w: i16, k: int)
    requires
        0 <= k <= 10,
    ensures
        cards_upto(values, t, k).to_multiset().count(w) == class_upto(values, t, w, k),
    decreases k,
{
    broadcast use group_to_multiset_ensures;
    if k > 0 {
        cards_count(values, t, w, k - 1);
        let v = values[k - 1];
        repeated_count(v, t[k - 1], w);
        lemma_multiset_commutative(cards_upto(values, t, k - 1), Seq::new(t[k - 1], |i: int| v));
    }
}

/// Whether some of the first `k` ranks counts `w`.
pub open spec fn is_counted(values: Seq<i16>, w: i16, k: int) -> bool {
    exists|q: int| 0 <= q < k && #[trigger] values[q] == w
}

pub proof fn uncounted_class(values: Seq<i16>, t: Tally, w: i16, k: int)
    requires
        !is_counted(values, w, k),
        0 <= k,
    ensures
        class_upto(values, t, w, k) == 0,
    decreases k,
{
    if k > 0 {
        assert(values[k - 1] != w);
        assert forall|q: int| 0 <= q < k - 1 implies #[trigger] values[q] != w by {}
        uncounted_class(values, t, w, k - 1);
    }
}

proof fn class_at_most(values: Seq<i16>, pool: Tally, root: Tally, w: i16, k: int)
    requires
        0 <= k <= 10,
        within(pool, root),
    ensures
        class_upto(values, pool, w, k) <= class_upto(values, root, w, k),
    decreases k,
{
    if k > 0 {
        class_at_most(values, pool, root, w, k - 1);
        assert(pool[k - 1] <= root[k - 1]);
    }
}

proof fn gone_count(values: Seq<i16>, root: Tally, pool: Tally, w: i16, k: int)
    requires
        0 <= k <= 10,
        values.len() == 10,
        within(pool, root),
    ensures
        gone_upto(values, root, class_counts(values, pool), k).to_multiset().count(w) == (
        if is_counted(values, w, k) {
            class_upto(values, root, w, 10) - class_upto(values, pool, w, 10)
        } else {
            0
        }),
    decreases k,
{
    broadcast use group_to_multiset_ensures;
    let classes = class_counts(values, pool);
    class_at_most(values, pool, root, w, 10);
    if k > 0 {
        gone_count(values, root, pool, w, k - 1);
        let v = values[k - 1];
        class_at_most(values, pool, root, v, 10);
        if is_counted(values, w, k - 1) {
            let q = choose|q: int| 0 <= q < k - 1 && #[trigger] values[q] == w;
            assert(0 <= q < k && values[q] == w);
        }
        if leads_class(values, k - 1) {
            let m = (class_upto(values, root, v, 10) - classes[k - 1]) as nat;
            repeated_count(v, m, w);
            lemma_multiset_commutative(
                gone_upto(values, root, classes, k - 1),
                Seq::new(m, |i: int| v),
            );
            if w == v {
                assert(0 <= k - 1 < k && values[k - 1] == w);
                assert(!is_counted(values, w, k - 1));
            } else if !is_counted(values, w, k - 1) {
                assert(!is_counted(values, w, k));
            }
        } else {
            let q = choose|q: int| 0 <= q < k - 1 && #[trigger] values[q] == v;
            if w == v {
                assert(0 <= q < k - 1 && values[q] == w);
                assert(is_counted(values, w, k - 1));
            } else if !is_counted(values, w, k - 1) {
                assert(!is_counted(values, w, k));
            }
        }
    }
}

/// The cards left and the cards gone are the cards of the full shoe.
proof fn left_and_gone(values: Seq<i16>, root: Tally, pool: Tally)
    requires
        values.len() == 10,
        within(pool, root),
    ensures
        pool_cards(values, root).to_multiset() == (pool_cards(values, pool) + gone_upto(
            values,
            root,
            class_counts(values, pool),
            10,
        )).to_multiset(),
{
    broadcast use group_to_multiset_ensures;
    let gone = gone_upto(values, root, class_counts(values, pool), 10);
    let left = pool_cards(values, pool);
    lemma_multiset_commutative(left, gone);
    assert forall|w: i16| pool_cards(values, root).to_multiset().count(w) == #[trigger] (left
        + gone).to_multiset().count(w) by {
        cards_count(values, root, w, 10);
        cards_count(values, pool, w, 10);
        gone_count(values, root, pool, w, 10);
        class_at_most(values, pool, root, w, 10);
        if !is_counted(values, w, 10) {
            uncounted_class(values, root, w, 10);
            uncounted_class(values, pool, w, 10);
        }
    }
    assert(pool_cards(values, root).to_multiset() =~= (left + gone).to_multiset());
}

/// In an exact arithmetic, the table that the chances of a counted shoe are taken
/// from holds the shares of the picks of the cards not seen.
pub proof fn law_counted_shoe_weighs_unseen_cards<N: Scalar>(
    val: spec_fn(N) -> real,
    s: CountState,
)
    requires
        exact(val),
        s.sane(),
    ensures
        holds_shares(
            val,
            grid_after::<N>(s.values, s.root, gone_upto(s.values, s.root, s.scale_id().classes, 10)),
            pool_cards(s.values, s.pool),
            low(s.values, s.root),
            high(s.values, s.root),
        ),
{
    left_and_gone(s.values, s.root, s.pool);
    law_table_forgets_cards_taken_out::<N>(
        val,
        s.values,
        s.root,
        gone_upto(s.values, s.root, s.scale_id().classes, 10),
        pool_cards(s.values, s.pool),
    );
}

/// The list without one card of a value that is in it.
pub proof fn one_card_less(cards: Seq<i16>, v: i16) -> (rest: Seq<i16>)
    requires
        cards.to_multiset().count(v) > 0,
    ensures
        cards.to_multiset() == rest.push(v).to_multiset(),
        rest.len() + 1 == cards.len(),
{
    broadcast use group_to_multiset_ensures;
    assert(cards.to_multiset().contains(v));
    assert(cards.contains(v));
    let i = cards.index_of(v);
    let rest = cards.remove(i);
    assert(rest.push(v).to_multiset() =~= cards.to_multiset());
    rest
}

proof fn scale_is_not_negative<N: Scalar>(
    val: spec_fn(N) -> real,
    left: Grid<N>,
    rest: Seq<i16>,
    lo: int,
    hi: int,
    v: int,
    q: Question,
    s: int,
    n: int,
)
    requires
        exact(val),
        holds_shares(val, left, rest, lo, hi),
        n <= rest.len() + 1,
    ensures
        val(scale_upto::<N>(left, lo, hi, rest.len() as int + 1, v, q, s, n)) >= 0real,
    decreases s - lo, n,
{
    exact_whole::<N>(val, 0);
    let big_n = rest.len() as int + 1;
    if s < lo {
    } else if n <= 0 {
        if s > lo {
            scale_is_not_negative(val, left, rest, lo, hi, v, q, s - 1, big_n);
        }
    } else {
        scale_is_not_negative(val, left, rest, lo, hi, v, q, s, n - 1);
        if lo <= s - v <= hi {
            let x = val(left(s - v, n - 1));
            let p = (picks(rest.len() as int, n - 1) as int) as real;
            let w = (ways(rest, s - v, n - 1) as int) as real;
            assert(x * p == w);
            picks_are_there(rest.len() as int, n - 1);
            assert(x >= 0real) by (nonlinear_arith)
                requires
                    x * p == w,
                    p >= 1real,
                    w >= 0real,
            ;
        }
    }
}

/// In an exact arithmetic no scale is negative.
proof fn scales_are_not_negative<N: Scalar>(val: spec_fn(N) -> real, s: CountState, r: int)
    requires
        exact(val),
        s.sane(),
        0 <= r < 10,
    ensures
        val(scales_for::<N>(s.values, s.root, s.scale_id())[r]) >= 0real,
{
    broadcast use group_to_multiset_ensures;
    exact_whole::<N>(val, 0);
    let id = s.scale_id();
    let v = s.values[r];
    let lo = low(s.values, s.root);
    let hi = high(s.values, s.root);
    let cards = pool_cards(s.values, s.pool);
    let grid = grid_after::<N>(s.values, s.root, gone_upto(s.values, s.root, id.classes, 10));
    law_counted_shoe_weighs_unseen_cards::<N>(val, s);
    pool_cards_count(s.values, s.pool);
    pool_cards_count(s.values, s.root);
    pool_card_sums(s.values, s.pool, 10);
    pool_card_sums(s.values, s.root, 10);
    if id.classes[r] > 0 {
        cards_count(s.values, s.pool, v, 10);
        let rest = one_card_less(cards, v);
        left_and_gone(s.values, s.root, s.pool);
        pool_bounds(s);
        card_bounds(cards, rest, v);
        assert(size(s.pool) <= size(s.root)) by {
            crate::countshoe::drawn_facts(s.values, s.root, s.pool);
        }
        law_thinned_table_holds_shares::<N>(val, grid, cards, rest, v, lo, hi);
        let left = thinned::<N>(grid, lo, hi, cards.len() as int, value_sum(cards), v as int);
        let q = Question {
            frame: id.frame,
            pen: id.pen,
            drawn_sum: id.drawn_sum,
            drawn_cards: id.drawn_cards,
        };
        scale_is_not_negative::<N>(val, left, rest, lo, hi, v as int, q, hi, cards.len() as int);
    }
}

/// The bounds of the cards left lie within those of the full shoe.
proof fn pool_bounds(s: CountState)
    requires
        s.sane(),
    ensures
        low(s.values, s.root) <= negatives(pool_cards(s.values, s.pool)),
        positives(pool_cards(s.values, s.pool)) <= high(s.values, s.root),
{
    pool_card_sums(s.values, s.pool, 10);
    bounds_grow(s.values, s.pool, s.root, 10);
}

pub proof fn bounds_grow(values: Seq<i16>, t: Tally, root: Tally, k: int)
    requires
        within(t, root),
        0 <= k <= 10,
    ensures
        crate::countw::low_upto(values, root, k) <= crate::countw::low_upto(values, t, k),
        crate::countw::high_upto(values, t, k) <= crate::countw::high_upto(values, root, k),
    decreases k,
{
    if k > 0 {
        bounds_grow(values, t, root, k - 1);
        let v = values[k - 1] as int;
        assert(t[k - 1] <= root[k - 1]);
        let a = t[k - 1] as int;
        let b = root[k - 1] as int;
        assert(v >= 0 ==> 0 <= v * a <= v * b) by (nonlinear_arith)
            requires
                0 <= a <= b,
        ;
        assert(v <= 0 ==> v * b <= v * a <= 0) by (nonlinear_arith)
            requires
                0 <= a <= b,
        ;
    }
}

/// The bounds of a list do not grow when a card leaves it.
proof fn card_bounds(cards: Seq<i16>, rest: Seq<i16>, v: i16)
    requires
        cards.to_multiset() == rest.push(v).to_multiset(),
    ensures
        negatives(cards) <= negatives(rest),
        positives(rest) <= positives(cards),
{
    crate::countlaws::sums_in_any_order(cards, rest.push(v));
    assert(rest.push(v).drop_last() =~= rest);
}

/// In an exact arithmetic the chances of a counted shoe are a distribution: none is
/// negative, and they add up to one, unless no shoe meets the condition, in which
/// case each is zero.
pub proof fn law_counted_chances_are_a_distribution<N: Scalar>(
    val: spec_fn(N) -> real,
    s: CountState,
)
    requires
        exact(val),
        s.sane(),
    ensures
        s.dist::<N>().len() == 10,
        forall|r: int| 0 <= r < 10 ==> val(#[trigger] s.dist::<N>()[r]) >= 0real,
        real_sum(vals(val, s.dist::<N>())) == 1real || forall|r: int|
            0 <= r < 10 ==> val(#[trigger] s.dist::<N>()[r]) == 0real,
{
    exact_whole::<N>(val, 0);
    let scs = scales_for::<N>(s.values, s.root, s.scale_id());
    let weights = rank_weights(s.pool, scs);
    let sum = total(weights);
    let dist = s.dist::<N>();
    exact_total(val, weights);
    let ws = vals(val, weights);
    assert forall|r: int| 0 <= r < 10 implies #[trigger] ws[r] >= 0real by {
        scales_are_not_negative::<N>(val, s, r);
        let m = s.pool[r] as i64;
        assert(s.pool[r] <= s.root[r]);
        crate::shoe::rank_at_most_size(s.root, r);
        exact_whole::<N>(val, m);
        let x = (m as int) as real;
        let y = val(scs[r]);
        assert(x * y >= 0real) by (nonlinear_arith)
            requires
                x >= 0real,
                y >= 0real,
        ;
        assert(val(weights[r]) == x * y);
    }
    sum_is_large(ws);
    let t = real_sum(ws);
    assert(val(sum) == t);
    if t > 0real {
        assert forall|r: int| 0 <= r < 10 implies #[trigger] vals(val, dist)[r] == ws[r] / t by {
            assert(dist[r] == weights[r].over_spec(sum));
        }
        sum_of_quotients(ws, vals(val, dist), t);
        assert(t / t == 1real) by (nonlinear_arith)
            requires
                t > 0real,
        ;
        assert forall|r: int| 0 <= r < 10 implies val(#[trigger] dist[r]) >= 0real by {
            assert(vals(val, dist)[r] == ws[r] / t);
            let w = ws[r];
            assert(w / t >= 0real) by (nonlinear_arith)
                requires
                    w >= 0real,
                    t > 0real,
            ;
        }
    } else {
        assert forall|r: int| 0 <= r < 10 implies val(#[trigger] dist[r]) == 0real by {
            assert(ws[r] >= 0real && ws[r] <= t);
            assert(dist[r] == weights[r]);
        }
    }
}

/// All the cards can be picked in one way, and they have the count of them all.
proof fn ways_of_all(cards: Seq<i16>, s: int)
    ensures
        ways(cards, s, cards.len() as int) == if s == value_sum(cards) {
            1nat
        } else {
            0
        },
    decreases cards.len(),
{
    if cards.len() > 0 {
        ways_of_all(cards.drop_last(), s - cards.last());
        no_ways(cards.drop_last(), s, cards.len() as int);
    }
}

/// Where the number of cards left is known, a class is drawn in proportion to its
/// cards, if the condition admits them.
proof fn pinned_scale<N: Scalar>(
    val: spec_fn(N) -> real,
    left: Grid<N>,
    rest: Seq<i16>,
    lo: int,
    hi: int,
    v: int,
    q: Question,
    s: int,
    n: int,
)
    requires
        exact(val),
        holds_shares(val, left, rest, lo, hi),
        lo <= value_sum(rest) <= hi,
        q.pen == Penetration::CardsRemaining((rest.len() + 1) as u16),
        rest.len() < u16::MAX,
        0 <= n <= rest.len() + 1,
        lo - 1 <= s,
    ensures
        val(scale_upto::<N>(left, lo, hi, rest.len() as int + 1, v, q, s, n)) == (if q.frame.accepts_spec(
            value_sum(rest) + v + q.drawn_sum,
            rest.len() + 1 + q.drawn_cards,
        ) && value_sum(rest) + v >= lo && (s > value_sum(rest) + v || (s == value_sum(rest) + v && n == rest.len() + 1)) {
            1real
        } else {
            0real
        }),
    decreases s - lo, n,
{
    exact_whole::<N>(val, 0);
    let big_n = rest.len() as int + 1;
    let sum = value_sum(rest) + v;
    if s < lo {
    } else if n == 0 {
        if s > lo {
            pinned_scale(val, left, rest, lo, hi, v, q, s - 1, big_n);
        }
    } else {
        pinned_scale(val, left, rest, lo, hi, v, q, s, n - 1);
        if n == big_n && lo <= s - v <= hi {
            let x = val(left(s - v, n - 1));
            assert(x * (picks(rest.len() as int, n - 1) as int) as real == (ways(
                rest,
                s - v,
                n - 1,
            ) as int) as real);
            crate::combinat::picks_of_all(rest.len() as int);
            ways_of_all(rest, s - v);
            assert(x * 1real == x) by (nonlinear_arith);
        }
    }
}

/// In an exact arithmetic, where the number of cards left is known to be that of
/// the unseen cards, the counted shoe is the finite deck of those cards if the
/// full shoe meets the condition, and no card has a chance if it does not.
pub proof fn law_known_shoe_is_the_finite_deck<N: Scalar>(
    val: spec_fn(N) -> real,
    s: CountState,
    r: int,
)
    requires
        exact(val),
        s.sane(),
        s.pen == Penetration::CardsRemaining(size(s.pool) as u16),
        size(s.pool) > 0,
        0 <= r < 10,
    ensures
        val(s.dist::<N>()[r]) == if s.frame.accepts_spec(
            count_of(s.values, s.root),
            size(s.root) as int,
        ) {
            (s.pool[r] as int) as real / (size(s.pool) as int) as real
        } else {
            0real
        },
{
    exact_whole::<N>(val, 0);
    let scs = scales_for::<N>(s.values, s.root, s.scale_id());
    let weights = rank_weights(s.pool, scs);
    let ok = s.frame.accepts_spec(count_of(s.values, s.root), size(s.root) as int);
    let c = if ok {
        1real
    } else {
        0real
    };
    assert forall|i: int| 0 <= i < 10 implies val(#[trigger] weights[i]) == (s.pool[i] as int) as real
        * c by {
        let m = s.pool[i] as i64;
        assert(s.pool[i] <= s.root[i]);
        crate::shoe::rank_at_most_size(s.root, i);
        exact_whole::<N>(val, m);
        let x = (m as int) as real;
        let y = val(scs[i]);
        if s.pool[i] > 0 {
            known_scale::<N>(val, s, i);
        } else {
            assert(0real * y == 0real && 0real * c == 0real) by (nonlinear_arith);
        }
    }
    exact_total(val, weights);
    let ws = vals(val, weights);
    let ps = Seq::new(10, |i: int| (s.pool[i] as int) as real);
    let d = (size(s.pool) as int) as real;
    assert(real_sum(ps) == d) by {
        reveal_with_fuel(real_sum, 11);
    }
    if ok {
        assert(ws =~= ps) by {
            assert forall|i: int| 0 <= i < 10 implies #[trigger] ws[i] == ps[i] by {
                assert(val(weights[i]) == (s.pool[i] as int) as real * 1real);
            }
        }
        assert(s.dist::<N>()[r] == weights[r].over_spec(total(weights)));
        assert(val(weights[r]) == ps[r]);
    } else {
        assert forall|i: int| 0 <= i < 10 implies #[trigger] ws[i] == 0real by {
            let x = (s.pool[i] as int) as real;
            assert(val(weights[i]) == x * 0real);
            assert(x * 0real == 0real) by (nonlinear_arith);
        }
        crate::dealerlaws::sum_of_zeros(ws);
        assert(s.dist::<N>()[r] == weights[r]);
        assert(ws[r] == 0real);
    }
}

proof fn known_scale<N: Scalar>(val: spec_fn(N) -> real, s: CountState, r: int)
    requires
        exact(val),
        s.sane(),
        s.pen == Penetration::CardsRemaining(size(s.pool) as u16),
        0 <= r < 10,
        s.pool[r] > 0,
    ensures
        val(scales_for::<N>(s.values, s.root, s.scale_id())[r]) == if s.frame.accepts_spec(
            count_of(s.values, s.root),
            size(s.root) as int,
        ) {
            1real
        } else {
            0real
        },
{
    broadcast use group_to_multiset_ensures;
    let id = s.scale_id();
    let v = s.values[r];
    let lo = low(s.values, s.root);
    let hi = high(s.values, s.root);
    let cards = pool_cards(s.values, s.pool);
    let grid = grid_after::<N>(s.values, s.root, gone_upto(s.values, s.root, id.classes, 10));
    law_counted_shoe_weighs_unseen_cards::<N>(val, s);
    pool_cards_count(s.values, s.pool);
    pool_card_sums(s.values, s.pool, 10);
    crate::countshoe::drawn_facts(s.values, s.root, s.pool);
    class_has_rank(s.values, s.pool, r, 10);
    cards_count(s.values, s.pool, v, 10);
    let rest = one_card_less(cards, v);
    pool_bounds(s);
    card_bounds(cards, rest, v);
    crate::countlaws::sums_in_any_order(cards, rest.push(v));
    assert(rest.push(v).drop_last() =~= rest);
    law_thinned_table_holds_shares::<N>(val, grid, cards, rest, v, lo, hi);
    let left = thinned::<N>(grid, lo, hi, cards.len() as int, value_sum(cards), v as int);
    let q = Question {
        frame: id.frame,
        pen: id.pen,
        drawn_sum: id.drawn_sum,
        drawn_cards: id.drawn_cards,
    };
    sum_in_bounds(rest);
    crate::shoe::rank_at_most_size(s.pool, r);
    pinned_scale::<N>(val, left, rest, lo, hi, v as int, q, hi, cards.len() as int);
}

proof fn sum_in_bounds(cards: Seq<i16>)
    ensures
        negatives(cards) <= value_sum(cards) <= positives(cards),
    decreases cards.len(),
{
    if cards.len() > 0 {
        sum_in_bounds(cards.drop_last());
    }
}

pub proof fn class_has_rank(values: Seq<i16>, t: Tally, r: int, k: int)
    requires
        0 <= r < k <= 10,
    ensures
        class_upto(values, t, values[r], k) >= t[r],
    decreases k,
{
    if r < k - 1 {
        class_has_rank(values, t, r, k - 1);
    }
}

} // verus!
