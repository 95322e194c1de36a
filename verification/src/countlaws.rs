//! What the count table holds, as numbers: shares of the picks of cards.
use crate::combinat::{law_picks_absorb, picks, picks_of_all};
use crate::count::count_upto;
use crate::countw::{
    cards_upto, countable, grid_after, high, high_upto, low, low_upto, pick_chance, pick_grid,
    pool_cards, pool_cards_count, thinned, thinned_low, value_sum, Grid,
};
use crate::exact::{exact, exact_whole};
use crate::num::{zero, Scalar};
use crate::shoe::Tally;
use vstd::multiset::*;
use vstd::prelude::*;
use vstd::seq_lib::*;

verus! {

/// In how many ways `n` of the cards can be picked that have the count `s`.
pub open spec fn ways(cards: Seq<i16>, s: int, n: int) -> nat
    decreases cards.len(),
{
    if cards.len() == 0 {
        if s == 0 && n == 0 {
            1
        } else {
            0
        }
    } else {
        ways(cards.drop_last(), s, n) + ways(cards.drop_last(), s - cards.last(), n - 1)
    }
}

/// The sum of the negative values.
pub open spec fn negatives(cards: Seq<i16>) -> int
    decreases cards.len(),
{
    if cards.len() == 0 {
        0
    } else {
        negatives(cards.drop_last()) + if cards.last() < 0 {
            cards.last() as int
        } else {
            0
        }
    }
}

/// The sum of the positive values.
pub open spec fn positives(cards: Seq<i16>) -> int
    decreases cards.len(),
{
    if cards.len() == 0 {
        0
    } else {
        positives(cards.drop_last()) + if cards.last() > 0 {
            cards.last() as int
        } else {
            0
        }
    }
}

/// There is no way to pick fewer than no cards, more than there are, or a count
/// that the cards cannot have.
pub proof fn no_ways(cards: Seq<i16>, s: int, n: int)
    ensures
        (n < 0 || n > cards.len() || s < negatives(cards) || s > positives(cards)) ==> ways(
            cards,
            s,
            n,
        ) == 0,
        negatives(cards) <= 0 <= positives(cards),
    decreases cards.len(),
{
    if cards.len() > 0 {
        no_ways(cards.drop_last(), s, n);
        no_ways(cards.drop_last(), s - cards.last(), n - 1);
    }
}

proof fn ways_push(cards: Seq<i16>, v: i16, s: int, n: int)
    ensures
        ways(cards.push(v), s, n) == ways(cards, s, n) + ways(cards, s - v, n - 1),
{
    assert(cards.push(v).drop_last() =~= cards);
}

/// A card can be moved to the end of the list.
proof fn ways_moved(cards: Seq<i16>, i: int, s: int, n: int)
    requires
        0 <= i < cards.len(),
    ensures
        ways(cards, s, n) == ways(cards.remove(i).push(cards[i]), s, n),
    decreases cards.len(),
{
    let a = cards[i];
    if i == cards.len() - 1 {
        assert(cards.remove(i).push(a) =~= cards);
    } else {
        let m = cards.drop_last();
        let b = cards.last();
        let k = m.remove(i);
        ways_moved(m, i, s, n);
        ways_moved(m, i, s - b, n - 1);
        assert(k.push(b) =~= cards.remove(i));
        ways_push(k, a, s, n);
        ways_push(k, a, s - b, n - 1);
        ways_push(k, b, s, n);
        ways_push(k, b, s - a, n - 1);
        ways_push(k.push(b), a, s, n);
    }
}

/// The list without one card of value `v`.
proof fn cards_without(cards: Seq<i16>, v: i16) -> (i: int)
    requires
        cards.to_multiset().count(v) > 0,
    ensures
        0 <= i < cards.len(),
        cards[i] == v,
        cards.remove(i).to_multiset() == cards.to_multiset().remove(v),
{
    broadcast use group_to_multiset_ensures;
    assert(cards.to_multiset().contains(v));
    assert(cards.contains(v));
    let i = cards.index_of(v);
    assert(cards.remove(i).to_multiset() == cards.to_multiset().remove(v));
    i
}

/// The order of the cards does not matter for the picks.
pub proof fn ways_in_any_order(a: Seq<i16>, b: Seq<i16>, s: int, n: int)
    requires
        a.to_multiset() == b.to_multiset(),
    ensures
        ways(a, s, n) == ways(b, s, n),
    decreases a.len(),
{
    broadcast use group_to_multiset_ensures;
    assert(a.len() == a.to_multiset().len());
    assert(b.len() == b.to_multiset().len());
    if a.len() > 0 {
        let v = a.last();
        assert(a.drop_last().push(v) =~= a);
        assert(a.to_multiset() == a.drop_last().to_multiset().insert(v));
        let i = cards_without(b, v);
        let c = b.remove(i);
        assert(a.drop_last().to_multiset() =~= a.to_multiset().remove(v));
        ways_moved(b, i, s, n);
        ways_in_any_order(a.drop_last(), c, s, n);
        ways_in_any_order(a.drop_last(), c, s - v, n - 1);
        ways_push(c, v, s, n);
    }
}

/// Nor does it for their sums.
proof fn sums_moved(cards: Seq<i16>, i: int)
    requires
        0 <= i < cards.len(),
    ensures
        value_sum(cards) == value_sum(cards.remove(i)) + cards[i],
        negatives(cards) == negatives(cards.remove(i)) + if cards[i] < 0 {
            cards[i] as int
        } else {
            0
        },
        positives(cards) == positives(cards.remove(i)) + if cards[i] > 0 {
            cards[i] as int
        } else {
            0
        },
    decreases cards.len(),
{
    if i == cards.len() - 1 {
        assert(cards.remove(i) =~= cards.drop_last());
    } else {
        let m = cards.drop_last();
        sums_moved(m, i);
        assert(cards.remove(i).drop_last() =~= m.remove(i));
    }
}

pub proof fn sums_in_any_order(a: Seq<i16>, b: Seq<i16>)
    requires
        a.to_multiset() == b.to_multiset(),
    ensures
        value_sum(a) == value_sum(b),
        negatives(a) == negatives(b),
        positives(a) == positives(b),
    decreases a.len(),
{
    broadcast use group_to_multiset_ensures;
    assert(a.len() == a.to_multiset().len());
    assert(b.len() == b.to_multiset().len());
    if a.len() > 0 {
        let v = a.last();
        assert(a.drop_last().push(v) =~= a);
        let i = cards_without(b, v);
        assert(a.drop_last().to_multiset() =~= a.to_multiset().remove(v));
        sums_in_any_order(a.drop_last(), b.remove(i));
        sums_moved(b, i);
    }
}

/// A pick and the cards that it leaves: every way to pick `n` cards of count `s` is
/// a way to leave the others, with the rest of the count.
pub proof fn law_picks_leave_the_others(cards: Seq<i16>, s: int, n: int)
    ensures
        ways(cards, s, n) == ways(cards, value_sum(cards) - s, cards.len() - n),
    decreases cards.len(),
{
    if cards.len() > 0 {
        let m = cards.drop_last();
        let v = cards.last();
        law_picks_leave_the_others(m, s, n);
        law_picks_leave_the_others(m, s - v, n - 1);
    }
}

/// Whether a grid holds the shares of the picks of these cards, for every number of
/// cards and every count between `lo` and `hi`.
pub open spec fn holds_shares<N: Scalar>(
    val: spec_fn(N) -> real,
    grid: Grid<N>,
    cards: Seq<i16>,
    lo: int,
    hi: int,
) -> bool {
    forall|s: int, n: int|
        lo <= s <= hi && 0 <= n <= cards.len() ==> val(#[trigger] grid(s, n)) * (picks(
            cards.len() as int,
            n,
        ) as int) as real == (ways(cards, s, n) as int) as real
}

proof fn fold_algebra(p: real, q: real, big_n: int, n: int, w1: int, w2: int)
    requires
        1 <= n <= big_n,
        n < big_n ==> p * (picks(big_n - 1, n) as int) as real == w1 as real,
        n == big_n ==> p == 0real && w1 == 0,
        q * (picks(big_n - 1, n - 1) as int) as real == w2 as real,
    ensures
        (p * ((big_n - n) as real / big_n as real) + q * (n as real / big_n as real)) * (picks(
            big_n,
            n,
        ) as int) as real == (w1 + w2) as real,
{
    law_picks_absorb(big_n, n);
    let c = (picks(big_n, n) as int) as real;
    let a = (picks(big_n - 1, n) as int) as real;
    let b = (picks(big_n - 1, n - 1) as int) as real;
    let nn = big_n as real;
    let k = n as real;
    assert(k * c == nn * b) by {
        let x = picks(big_n, n) as int;
        let y = picks(big_n - 1, n - 1) as int;
        assert((n * x) as real == (n as real) * (x as real)) by (nonlinear_arith);
        assert((big_n * y) as real == (big_n as real) * (y as real)) by (nonlinear_arith);
    }
    assert((nn - k) * c == nn * a) by {
        let x = picks(big_n, n) as int;
        let y = picks(big_n - 1, n) as int;
        assert(((big_n - n) * x) as real == ((big_n - n) as real) * (x as real))
            by (nonlinear_arith);
        assert((big_n * y) as real == (big_n as real) * (y as real)) by (nonlinear_arith);
    }
    assert((p * ((nn - k) / nn)) * c == p * a) by (nonlinear_arith)
        requires
            nn > 0real,
            (nn - k) * c == nn * a,
    ;
    assert((q * (k / nn)) * c == q * b) by (nonlinear_arith)
        requires
            nn > 0real,
            k * c == nn * b,
    ;
    assert((p * ((nn - k) / nn) + q * (k / nn)) * c == (p * ((nn - k) / nn)) * c + (q * (k / nn))
        * c) by (nonlinear_arith);
    if n == big_n {
        assert(p * a == 0real) by (nonlinear_arith)
            requires
                p == 0real,
        ;
    }
}

/// In an exact arithmetic the table holds probabilities: what it has for `n` cards
/// and the count `s` is the number of picks of `n` cards with that count over the
/// number of all picks of `n` cards.
pub proof fn law_table_holds_shares<N: Scalar>(
    val: spec_fn(N) -> real,
    cards: Seq<i16>,
    lo: int,
    hi: int,
)
    requires
        exact(val),
        cards.len() <= u16::MAX,
        lo <= negatives(cards),
        positives(cards) <= hi,
    ensures
        holds_shares(val, pick_grid::<N>(cards, lo, hi), cards, lo, hi),
    decreases cards.len(),
{
    exact_whole::<N>(val, 0);
    exact_whole::<N>(val, 1);
    let grid = pick_grid::<N>(cards, lo, hi);
    if cards.len() == 0 {
        assert forall|s: int, n: int| lo <= s <= hi && 0 <= n <= cards.len() implies val(
            #[trigger] grid(s, n),
        ) * (picks(cards.len() as int, n) as int) as real == (ways(cards, s, n) as int) as real by {
            assert(picks(0, 0) == 1);
            assert(val(grid(s, n)) * 1real == val(grid(s, n))) by (nonlinear_arith);
        }
    } else {
        let rest = cards.drop_last();
        let v = cards.last();
        let big_n = cards.len() as int;
        no_ways(rest, 0, 0);
        law_table_holds_shares(val, rest, lo, hi);
        let inner = pick_grid::<N>(rest, lo, hi);
        assert forall|s: int, n: int| lo <= s <= hi && 0 <= n <= cards.len() implies val(
            #[trigger] grid(s, n),
        ) * (picks(big_n, n) as int) as real == (ways(cards, s, n) as int) as real by {
            no_ways(rest, s, n);
            no_ways(rest, s - v, n - 1);
            if n == 0 {
                assert(val(inner(s, 0)) * (picks(big_n - 1, 0) as int) as real == (ways(
                    rest,
                    s,
                    0,
                ) as int) as real);
                assert(picks(big_n, 0) == 1 && picks(big_n - 1, 0) == 1);
            } else {
                let p = val(pick_chance::<N>(rest, lo, hi, s, n));
                let q = val(pick_chance::<N>(rest, lo, hi, s - v, n - 1));
                if n < big_n {
                    assert(val(inner(s, n)) * (picks(big_n - 1, n) as int) as real == (ways(
                        rest,
                        s,
                        n,
                    ) as int) as real);
                }
                if lo <= s - v <= hi {
                    assert(val(inner(s - v, n - 1)) * (picks(big_n - 1, n - 1) as int) as real == (
                    ways(rest, s - v, n - 1) as int) as real);
                } else {
                    assert(q * (picks(big_n - 1, n - 1) as int) as real == 0real)
                        by (nonlinear_arith)
                        requires
                            q == 0real,
                    ;
                }
                fold_algebra(
                    p,
                    q,
                    big_n,
                    n,
                    ways(rest, s, n) as int,
                    ways(rest, s - v, n - 1) as int,
                );
                assert(val(N::ratio_spec((big_n - n) as i64, big_n as i64)) == (big_n - n) as real
                    / big_n as real);
                assert(val(N::ratio_spec(n as i64, big_n as i64)) == n as real / big_n as real);
            }
        }
    }
}

proof fn thin_algebra(g: real, low: real, big_n: int, n: int, w: int, w2: int)
    requires
        0 <= n < big_n,
        g * (picks(big_n, n) as int) as real == w as real,
        low * (picks(big_n - 1, n - 1) as int) as real == w2 as real,
        n == 0 ==> low == 0real,
    ensures
        (g * (big_n as real / (big_n - n) as real) - low * (n as real / (big_n - n) as real)) * (
        picks(big_n - 1, n) as int) as real == (w - w2) as real,
{
    law_picks_absorb(big_n, n);
    let c = (picks(big_n, n) as int) as real;
    let a = (picks(big_n - 1, n) as int) as real;
    let b = (picks(big_n - 1, n - 1) as int) as real;
    let nn = big_n as real;
    let k = n as real;
    let d = (big_n - n) as real;
    assert(k * c == nn * b) by {
        let x = picks(big_n, n) as int;
        let y = picks(big_n - 1, n - 1) as int;
        assert((n * x) as real == (n as real) * (x as real)) by (nonlinear_arith);
        assert((big_n * y) as real == (big_n as real) * (y as real)) by (nonlinear_arith);
    }
    assert(d * c == nn * a) by {
        let x = picks(big_n, n) as int;
        let y = picks(big_n - 1, n) as int;
        assert(((big_n - n) * x) as real == ((big_n - n) as real) * (x as real))
            by (nonlinear_arith);
        assert((big_n * y) as real == (big_n as real) * (y as real)) by (nonlinear_arith);
    }
    // Both products with `nn` are `k * d * c`.
    assert(k * a == d * b) by {
        assert(nn * (k * a) == k * (d * c)) by (nonlinear_arith)
            requires
                d * c == nn * a,
        ;
        assert(nn * (d * b) == d * (k * c)) by (nonlinear_arith)
            requires
                k * c == nn * b,
        ;
        assert(k * (d * c) == d * (k * c)) by (nonlinear_arith);
        assert(k * a == d * b) by (nonlinear_arith)
            requires
                nn * (k * a) == nn * (d * b),
                nn > 0real,
        ;
    }
    assert((g * (nn / d)) * a == g * c) by (nonlinear_arith)
        requires
            d > 0real,
            d * c == nn * a,
    ;
    assert((low * (k / d)) * a == low * b) by (nonlinear_arith)
        requires
            d > 0real,
            k * a == d * b,
    ;
    assert((g * (nn / d) - low * (k / d)) * a == (g * (nn / d)) * a - (low * (k / d)) * a)
        by (nonlinear_arith);
}

proof fn thinned_low_holds_shares<N: Scalar>(
    val: spec_fn(N) -> real,
    grid: Grid<N>,
    cards: Seq<i16>,
    rest: Seq<i16>,
    v: i16,
    lo: int,
    hi: int,
    s: int,
    n: int,
)
    requires
        exact(val),
        holds_shares(val, grid, cards, lo, hi),
        cards.to_multiset() == rest.push(v).to_multiset(),
        rest.len() < u16::MAX,
        lo <= negatives(rest),
        positives(rest) <= hi,
        0 <= n <= rest.len(),
    ensures
        val(thinned_low::<N>(grid, lo, hi, rest.len() as int + 1, v as int, s, n)) * (picks(
            rest.len() as int,
            n,
        ) as int) as real == (ways(rest, s, n) as int) as real,
    decreases n,
{
    broadcast use group_to_multiset_ensures;
    assert(cards.len() == cards.to_multiset().len());
    assert(rest.push(v).len() == rest.push(v).to_multiset().len());
    exact_whole::<N>(val, 0);
    no_ways(rest, s, n);
    no_ways(rest, s - v, n - 1);
    let big_n = rest.len() as int + 1;
    let x = thinned_low::<N>(grid, lo, hi, big_n, v as int, s, n);
    if s < lo || s > hi {
        assert(val(x) * (picks(rest.len() as int, n) as int) as real == 0real) by (nonlinear_arith)
            requires
                val(x) == 0real,
        ;
    } else {
        let took = if n == 0 {
            zero::<N>()
        } else {
            thinned_low::<N>(grid, lo, hi, big_n, v as int, s - v, n - 1)
        };
        if n > 0 {
            thinned_low_holds_shares(val, grid, cards, rest, v, lo, hi, s - v, n - 1);
        } else {
            assert(picks(big_n - 1, -1) == 0);
            assert(val(took) * 0real == 0real) by (nonlinear_arith);
        }
        ways_in_any_order(cards, rest.push(v), s, n);
        ways_push(rest, v, s, n);
        assert(val(grid(s, n)) * (picks(big_n, n) as int) as real == (ways(cards, s, n) as int) as real);
        thin_algebra(
            val(grid(s, n)),
            val(took),
            big_n,
            n,
            ways(cards, s, n) as int,
            ways(rest, s - v, n - 1) as int,
        );
        assert(val(N::ratio_spec(big_n as i64, (big_n - n) as i64)) == big_n as real / (big_n
            - n) as real);
        assert(val(N::ratio_spec(n as i64, (big_n - n) as i64)) == n as real / (big_n - n) as real);
    }
}

/// In an exact arithmetic, taking a card out of the table gives the table of the
/// other cards.
pub proof fn law_thinned_table_holds_shares<N: Scalar>(
    val: spec_fn(N) -> real,
    grid: Grid<N>,
    cards: Seq<i16>,
    rest: Seq<i16>,
    v: i16,
    lo: int,
    hi: int,
)
    requires
        exact(val),
        holds_shares(val, grid, cards, lo, hi),
        cards.to_multiset() == rest.push(v).to_multiset(),
        rest.len() < u16::MAX,
        lo <= negatives(rest),
        positives(rest) <= hi,
    ensures
        holds_shares(
            val,
            thinned::<N>(
                grid,
                lo,
                hi,
                cards.len() as int,
                value_sum(cards),
                v as int,
            ),
            rest,
            lo,
            hi,
        ),
{
    broadcast use group_to_multiset_ensures;
    assert(cards.len() == cards.to_multiset().len());
    assert(rest.push(v).len() == rest.push(v).to_multiset().len());
    sums_in_any_order(cards, rest.push(v));
    assert(rest.push(v).drop_last() =~= rest);
    let big_n = cards.len() as int;
    let sum = value_sum(cards);
    let m = rest.len() as int;
    let left = thinned::<N>(grid, lo, hi, big_n, sum, v as int);
    assert forall|s: int, n: int| lo <= s <= hi && 0 <= n <= rest.len() implies val(
        #[trigger] left(s, n),
    ) * (picks(m, n) as int) as real == (ways(rest, s, n) as int) as real by {
        if n <= (big_n - 1) / 2 {
            thinned_low_holds_shares(val, grid, cards, rest, v, lo, hi, s, n);
        } else {
            thinned_low_holds_shares(val, grid, cards, rest, v, lo, hi, sum - v - s, m - n);
            law_picks_leave_the_others(rest, s, n);
            law_picks_are_even(m, n);
        }
    }
}

/// There are as many ways to pick `k` things as to leave `k`.
pub proof fn law_picks_are_even(n: int, k: int)
    requires
        n >= 0,
    ensures
        picks(n, k) == picks(n, n - k),
    decreases n,
{
    if 0 < k < n {
        law_picks_are_even(n - 1, k);
        law_picks_are_even(n - 1, k - 1);
    } else if 0 <= k <= n {
        picks_of_all(n);
    }
}

/// In an exact arithmetic it does not matter in which order cards have been taken
/// out of a table, nor that they once were in it: it holds the shares of the picks
/// of the cards that are left.
pub proof fn law_table_forgets_cards_taken_out<N: Scalar>(
    val: spec_fn(N) -> real,
    values: Seq<i16>,
    root: Tally,
    gone: Seq<i16>,
    rest: Seq<i16>,
)
    requires
        exact(val),
        countable(values, root),
        pool_cards(values, root).to_multiset() == (rest + gone).to_multiset(),
    ensures
        holds_shares(
            val,
            grid_after::<N>(values, root, gone),
            rest,
            low(values, root),
            high(values, root),
        ),
    decreases gone.len(),
{
    broadcast use group_to_multiset_ensures;
    let all = pool_cards(values, root);
    let lo = low(values, root);
    let hi = high(values, root);
    pool_cards_count(values, root);
    pool_card_sums(values, root, 10);
    let both = rest + gone;
    assert(all.len() == all.to_multiset().len());
    assert(both.len() == both.to_multiset().len());
    sums_in_any_order(all, both);
    part_sums(rest, gone);
    if gone.len() == 0 {
        assert(both =~= rest);
        law_table_holds_shares(val, all, lo, hi);
        let grid = pick_grid::<N>(all, lo, hi);
        assert forall|s: int, n: int| lo <= s <= hi && 0 <= n <= rest.len() implies val(
            #[trigger] grid(s, n),
        ) * (picks(rest.len() as int, n) as int) as real == (ways(rest, s, n) as int) as real by {
            ways_in_any_order(all, rest, s, n);
        }
    } else {
        let before = gone.drop_last();
        let v = gone.last();
        let cards = rest.push(v);
        assert((rest + before).push(v) =~= both);
        assert((cards + before).to_multiset() =~= both.to_multiset()) by {
            lemma_multiset_commutative(cards, before);
            lemma_multiset_commutative(rest + before, seq![v]);
            lemma_multiset_commutative(rest, seq![v]);
            lemma_multiset_commutative(rest, before);
            assert(rest + seq![v] =~= cards);
            assert((rest + before) + seq![v] =~= both);
        }
        law_table_forgets_cards_taken_out::<N>(val, values, root, before, cards);
        part_sums(rest, before);
        part_sums(cards, before);
        assert(cards.drop_last() =~= rest);
        sums_in_any_order(all, cards + before);
        no_ways(before, 0, 0);
        no_ways(gone, 0, 0);
        law_thinned_table_holds_shares::<N>(
            val,
            grid_after::<N>(values, root, before),
            cards,
            rest,
            v,
            lo,
            hi,
        );
    }
}

/// The sums of two lists together.
pub proof fn part_sums(a: Seq<i16>, b: Seq<i16>)
    ensures
        value_sum(a + b) == value_sum(a) + value_sum(b),
        negatives(a + b) == negatives(a) + negatives(b),
        positives(a + b) == positives(a) + positives(b),
        negatives(b) <= 0 <= positives(b),
    decreases b.len(),
{
    if b.len() == 0 {
        assert(a + b =~= a);
    } else {
        part_sums(a, b.drop_last());
        assert((a + b).drop_last() =~= a + b.drop_last());
    }
}

proof fn repeated_sums(v: i16, n: nat)
    ensures
        value_sum(Seq::new(n, |i: int| v)) == v * n,
        negatives(Seq::new(n, |i: int| v)) == if v < 0 {
            v * n
        } else {
            0
        },
        positives(Seq::new(n, |i: int| v)) == if v > 0 {
            v * n
        } else {
            0
        },
    decreases n,
{
    if n > 0 {
        let m = (n - 1) as nat;
        repeated_sums(v, m);
        assert(Seq::new(n, |i: int| v).drop_last() =~= Seq::new(m, |i: int| v));
        assert(v * n == v * m + v) by (nonlinear_arith)
            requires
                n == m + 1,
        ;
    } else {
        assert(v * n == 0) by (nonlinear_arith)
            requires
                n == 0,
        ;
    }
}

/// The cards of a pool have the pool's count, and their bounds are the pool's.
pub proof fn pool_card_sums(values: Seq<i16>, t: Tally, k: int)
    requires
        0 <= k <= 10,
    ensures
        value_sum(cards_upto(values, t, k)) == count_upto(values, t, k),
        negatives(cards_upto(values, t, k)) == low_upto(values, t, k),
        positives(cards_upto(values, t, k)) == high_upto(values, t, k),
    decreases k,
{
    if k > 0 {
        pool_card_sums(values, t, k - 1);
        let v = values[k - 1];
        let n = t[k - 1];
        repeated_sums(v, n);
        part_sums(cards_upto(values, t, k - 1), Seq::new(n, |i: int| v));
        assert(v * n < 0 ==> v < 0) by (nonlinear_arith)
            requires
                n >= 0,
        ;
        assert(v * n > 0 ==> v > 0) by (nonlinear_arith)
            requires
                n >= 0,
        ;
        assert(v == 0 ==> v * n == 0) by (nonlinear_arith);
        assert(v < 0 ==> v * n <= 0) by (nonlinear_arith)
            requires
                n >= 0,
        ;
        assert(v > 0 ==> v * n >= 0) by (nonlinear_arith)
            requires
                n >= 0,
        ;
    }
}

} // verus!
