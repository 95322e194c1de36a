//! How often the counts occur, as numbers: the lists rise, and their shares add up.
use crate::combinat::{picks, picks_are_there};
use crate::count::{CountCondition, CountSystemId, Penetration};
use crate::countlaws::{holds_shares, law_table_holds_shares, no_ways, pool_card_sums, ways};
use crate::countshoe::{decks_are_countable, ranks_are_size, span_at_most_size};
use crate::countw::{counts_are_bounded, high, low, pool_cards, pool_cards_count, Grid};
use crate::deallaws::{sum_of_same, sum_upto};
use crate::edgelaws::sum_with_change;
use crate::exact::{exact, exact_whole};
use crate::num::{is_nil, zero, Scalar};
use crate::occurrence::{
    bucket_weight, count_weight, external_shares, running_occurrence, shoe_grid, true_bucket,
    true_occurrence, true_shares, weight_upto,
};
use crate::shoe::{deck_tally, size};
use crate::sweep::{
    edges_in_range, high_edge, high_edge_in_range, law_window_is_in_order, low_edge, window_of,
};
use vstd::prelude::*;

verus! {

/// Whether counts are in rising order.
pub open spec fn rises<N>(list: Seq<(i16, N)>) -> bool {
    forall|i: int, j: int|
        0 <= i < j < list.len() ==> (#[trigger] list[i]).0 < (#[trigger] list[j]).0
}

/// The shares of a list, added up.
pub open spec fn share_sum<N: Scalar>(val: spec_fn(N) -> real, list: Seq<(i16, N)>) -> real
    decreases list.len(),
{
    if list.len() == 0 {
        0real
    } else {
        share_sum(val, list.drop_last()) + val(list.last().1)
    }
}

/// The shares of the counts from `c` on, added up.
pub open spec fn tail_sum<N: Scalar>(
    val: spec_fn(N) -> real,
    list: Seq<(i16, N)>,
    c: int,
) -> real
    decreases list.len(),
{
    if list.len() == 0 {
        0real
    } else {
        tail_sum(val, list.drop_last(), c) + if list.last().0 >= c {
            val(list.last().1)
        } else {
            0real
        }
    }
}

/// Whether some number of cards from `first` on may be left.
pub open spec fn some_size(pen: Penetration, first: int, big_n: int) -> bool {
    exists|n: int| first <= n <= big_n && #[trigger] pen.admits_spec(n, big_n)
}

proof fn running_rises<N: Scalar>(
    grid: Grid<N>,
    pen: Penetration,
    lo: int,
    hi: int,
    big_n: int,
    pivot: int,
    s: int,
)
    requires
        -15_000 <= lo <= hi <= 15_000,
        0 <= pivot <= 4,
        lo - 1 <= s,
    ensures
        rises(external_shares::<N>(grid, pen, lo, hi, big_n, pivot, s)),
        forall|i: int|
            0 <= i < external_shares::<N>(grid, pen, lo, hi, big_n, pivot, s).len() ==> (
            #[trigger] external_shares::<N>(grid, pen, lo, hi, big_n, pivot, s)[i]).0 < pivot - s,
    decreases hi - s,
{
    if s < hi {
        running_rises::<N>(grid, pen, lo, hi, big_n, pivot, s + 1);
        let before = external_shares::<N>(grid, pen, lo, hi, big_n, pivot, s + 1);
        let all = external_shares::<N>(grid, pen, lo, hi, big_n, pivot, s);
        assert forall|i: int| 0 <= i < all.len() implies (#[trigger] all[i]).0 < pivot - s by {
            if i < before.len() {
                assert(all[i] == before[i]);
            }
        }
        assert forall|i: int, j: int| 0 <= i < j < all.len() implies (#[trigger] all[i]).0 < (
        #[trigger] all[j]).0 by {
            assert(all[i] == before[i]);
            if j < before.len() {
                assert(all[j] == before[j]);
            }
        }
    }
}

proof fn true_rises<N: Scalar>(
    grid: Grid<N>,
    pen: Penetration,
    lo: int,
    hi: int,
    big_n: int,
    t: int,
)
    requires
        t <= 0x8000,
    ensures
        rises(true_shares::<N>(grid, pen, lo, hi, big_n, t)),
        forall|i: int|
            0 <= i < true_shares::<N>(grid, pen, lo, hi, big_n, t).len() ==> (
            #[trigger] true_shares::<N>(grid, pen, lo, hi, big_n, t)[i]).0 < t,
    decreases t + 0x8000,
{
    if t > i16::MIN {
        true_rises::<N>(grid, pen, lo, hi, big_n, t - 1);
        let before = true_shares::<N>(grid, pen, lo, hi, big_n, t - 1);
        let all = true_shares::<N>(grid, pen, lo, hi, big_n, t);
        assert forall|i: int| 0 <= i < all.len() implies (#[trigger] all[i]).0 < t by {
            if i < before.len() {
                assert(all[i] == before[i]);
            }
        }
        assert forall|i: int, j: int| 0 <= i < j < all.len() implies (#[trigger] all[i]).0 < (
        #[trigger] all[j]).0 by {
            assert(all[i] == before[i]);
            if j < before.len() {
                assert(all[j] == before[j]);
            }
        }
    }
}

/// The counts of a shoe are few.
proof fn counts_are_near(system: CountSystemId, n_decks: nat)
    requires
        n_decks <= 255,
    ensures
        -15_000 <= low(system.values(), deck_tally(n_decks)) <= 0,
        0 <= high(system.values(), deck_tally(n_decks)) <= 15_000,
        0 <= system.pivot_spec(n_decks as int) <= 4,
{
    let values = system.values();
    let root = deck_tally(n_decks);
    decks_are_countable(system, n_decks);
    counts_are_bounded(values, root, root, 10);
    span_at_most_size(values, root, 10);
    ranks_are_size(root);
}

/// The running counts that occur are listed in rising order.
pub proof fn law_running_counts_rise<N: Scalar>(
    system: CountSystemId,
    n_decks: nat,
    pen: Penetration,
)
    requires
        n_decks <= 255,
    ensures
        rises(running_occurrence::<N>(system, n_decks, pen)),
{
    counts_are_near(system, n_decks);
    let root = deck_tally(n_decks);
    let lo = low(system.values(), root);
    running_rises::<N>(
        shoe_grid::<N>(system, n_decks),
        pen,
        lo,
        high(system.values(), root),
        size(root) as int,
        system.pivot_spec(n_decks as int),
        lo - 1,
    );
}

/// The whole true counts that occur are listed in rising order.
pub proof fn law_true_counts_rise<N: Scalar>(
    system: CountSystemId,
    n_decks: nat,
    pen: Penetration,
)
    ensures
        rises(true_occurrence::<N>(system, n_decks, pen)),
{
    let root = deck_tally(n_decks);
    true_rises::<N>(
        shoe_grid::<N>(system, n_decks),
        pen,
        low(system.values(), root),
        high(system.values(), root),
        size(root) as int,
        0x8000,
    );
}

/// What a size and a count weigh.
spec fn cell<N: Scalar>(
    val: spec_fn(N) -> real,
    grid: Grid<N>,
    pen: Penetration,
    big_n: int,
    s: int,
    n: int,
) -> real {
    if pen.admits_spec(n, big_n) {
        val(grid(s, n))
    } else {
        0real
    }
}

/// Whether no chance is negative.
spec fn no_negatives<N: Scalar>(
    val: spec_fn(N) -> real,
    grid: Grid<N>,
    lo: int,
    hi: int,
    big_n: int,
) -> bool {
    forall|s: int, n: int|
        lo <= s <= hi && 0 <= n <= big_n ==> val(#[trigger] grid(s, n)) >= 0real
}

/// The running weight of each count once the sizes below `n`, and the counts up to `s` at
/// the size `n`, have been weighed.
spec fn running_parts<N: Scalar>(
    val: spec_fn(N) -> real,
    grid: Grid<N>,
    pen: Penetration,
    lo: int,
    big_n: int,
    n: int,
    s: int,
) -> spec_fn(int) -> real {
    |i: int|
        val(
            count_weight::<N>(
                grid,
                pen,
                big_n,
                lo + i,
                if lo + i <= s {
                    n
                } else {
                    n - 1
                },
            ),
        )
}

proof fn sum_of_nothing(f: spec_fn(int) -> real, k: int)
    requires
        forall|i: int| 0 <= i < k ==> #[trigger] f(i) == 0real,
    ensures
        sum_upto(f, k) == 0real,
    decreases k,
{
    if k > 0 {
        sum_of_nothing(f, k - 1);
        assert(f(k - 1) == 0real);
    }
}

/// One step of the weight of a count.
proof fn count_weight_step<N: Scalar>(
    val: spec_fn(N) -> real,
    grid: Grid<N>,
    pen: Penetration,
    big_n: int,
    s: int,
    n: int,
)
    requires
        exact(val),
        n >= 0,
    ensures
        val(count_weight::<N>(grid, pen, big_n, s, n)) == val(
            count_weight::<N>(grid, pen, big_n, s, n - 1),
        ) + cell(val, grid, pen, big_n, s, n),
{
    exact_whole::<N>(val, 0);
}

/// One step of the weight of all counts.
proof fn weight_step<N: Scalar>(
    val: spec_fn(N) -> real,
    grid: Grid<N>,
    pen: Penetration,
    lo: int,
    hi: int,
    big_n: int,
    first: int,
    n: int,
    s: int,
)
    requires
        exact(val),
        first <= n,
        lo <= s,
    ensures
        val(weight_upto::<N>(grid, pen, lo, hi, big_n, first, n, s)) == val(
            weight_upto::<N>(grid, pen, lo, hi, big_n, first, n, s - 1),
        ) + cell(val, grid, pen, big_n, s, n),
{
    exact_whole::<N>(val, 0);
}

/// The weights of the counts add up to the weight of all.
proof fn running_sum<N: Scalar>(
    val: spec_fn(N) -> real,
    grid: Grid<N>,
    pen: Penetration,
    lo: int,
    hi: int,
    big_n: int,
    n: int,
    s: int,
)
    requires
        exact(val),
        lo <= hi,
        0 <= n,
        lo - 1 <= s <= hi,
    ensures
        sum_upto(running_parts(val, grid, pen, lo, big_n, n, s), hi - lo + 1) == val(
            weight_upto::<N>(grid, pen, lo, hi, big_n, 0, n, s),
        ),
    decreases n, s - lo + 1,
{
    exact_whole::<N>(val, 0);
    let k = hi - lo + 1;
    let now = running_parts(val, grid, pen, lo, big_n, n, s);
    if s < lo {
        if n == 0 {
            assert forall|i: int| 0 <= i < k implies #[trigger] now(i) == 0real by {}
            sum_of_nothing(now, k);
        } else {
            running_sum(val, grid, pen, lo, hi, big_n, n - 1, hi);
            let before = running_parts(val, grid, pen, lo, big_n, n - 1, hi);
            assert forall|i: int| 0 <= i < k implies #[trigger] now(i) == before(i) by {}
            sum_of_same(now, before, k);
        }
    } else {
        running_sum(val, grid, pen, lo, hi, big_n, n, s - 1);
        let before = running_parts(val, grid, pen, lo, big_n, n, s - 1);
        let x = cell(val, grid, pen, big_n, s, n);
        assert forall|i: int| 0 <= i < k implies #[trigger] now(i) == before(i) + (if i == s - lo {
            x
        } else {
            0real
        }) by {
            if i == s - lo {
                count_weight_step(val, grid, pen, big_n, s, n);
            }
        }
        sum_with_change(before, now, s - lo, x, k);
        weight_step(val, grid, pen, lo, hi, big_n, 0, n, s);
    }
}

/// The weight of a count is not negative, and is nothing where no size may be left.
proof fn count_weight_sign<N: Scalar>(
    val: spec_fn(N) -> real,
    grid: Grid<N>,
    pen: Penetration,
    lo: int,
    hi: int,
    big_n: int,
    s: int,
    n: int,
)
    requires
        exact(val),
        no_negatives(val, grid, lo, hi, big_n),
        lo <= s <= hi,
        n <= big_n,
    ensures
        val(count_weight::<N>(grid, pen, big_n, s, n)) >= 0real,
        !some_size(pen, 0, big_n) ==> val(count_weight::<N>(grid, pen, big_n, s, n)) == 0real,
    decreases n + 1,
{
    exact_whole::<N>(val, 0);
    if n >= 0 {
        count_weight_sign(val, grid, pen, lo, hi, big_n, s, n - 1);
        count_weight_step(val, grid, pen, big_n, s, n);
    }
}

/// The weight of all counts is at least that of any one cell of it.
proof fn weight_has<N: Scalar>(
    val: spec_fn(N) -> real,
    grid: Grid<N>,
    pen: Penetration,
    lo: int,
    hi: int,
    big_n: int,
    first: int,
    n: int,
    s: int,
    at_n: int,
    at_s: int,
)
    requires
        exact(val),
        no_negatives(val, grid, lo, hi, big_n),
        0 <= first <= n <= big_n,
        lo - 1 <= s <= hi,
    ensures
        val(weight_upto::<N>(grid, pen, lo, hi, big_n, first, n, s)) >= 0real,
        first <= at_n && lo <= at_s <= hi && (at_n < n || at_n == n && at_s <= s) ==> val(
            weight_upto::<N>(grid, pen, lo, hi, big_n, first, n, s),
        ) >= cell(val, grid, pen, big_n, at_s, at_n),
    decreases n, s - lo + 1,
{
    exact_whole::<N>(val, 0);
    if s < lo {
        if n > first {
            weight_has(val, grid, pen, lo, hi, big_n, first, n - 1, hi, at_n, at_s);
        }
    } else {
        weight_has(val, grid, pen, lo, hi, big_n, first, n, s - 1, at_n, at_s);
        weight_step(val, grid, pen, lo, hi, big_n, first, n, s);
        assert(cell(val, grid, pen, big_n, s, n) >= 0real);
    }
}

/// Any number of the cards can be picked.
proof fn some_way(cards: Seq<i16>, n: int) -> (s: int)
    requires
        0 <= n <= cards.len(),
    ensures
        ways(cards, s, n) >= 1,
    decreases cards.len(),
{
    if cards.len() == 0 {
        0
    } else if n == 0 {
        some_way(cards.drop_last(), 0)
    } else {
        some_way(cards.drop_last(), n - 1) + cards.last()
    }
}

/// The chances of a full shoe are those of the picks: none is negative, and where some
/// number of cards may be left, there is weight.
proof fn shoe_weight<N: Scalar>(
    val: spec_fn(N) -> real,
    system: CountSystemId,
    n_decks: nat,
    pen: Penetration,
    first: int,
)
    requires
        exact(val),
        n_decks <= 255,
        0 <= first,
    ensures
        ({
            let root = deck_tally(n_decks);
            let lo = low(system.values(), root);
            let hi = high(system.values(), root);
            let big_n = size(root) as int;
            let grid = shoe_grid::<N>(system, n_decks);
            &&& no_negatives(val, grid, lo, hi, big_n)
            &&& some_size(pen, first, big_n) ==> val(
                weight_upto::<N>(grid, pen, lo, hi, big_n, first, big_n, hi),
            ) > 0real
        }),
{
    let values = system.values();
    let root = deck_tally(n_decks);
    let lo = low(values, root);
    let hi = high(values, root);
    let big_n = size(root) as int;
    let grid = shoe_grid::<N>(system, n_decks);
    let cards = pool_cards(values, root);
    decks_are_countable(system, n_decks);
    pool_cards_count(values, root);
    pool_card_sums(values, root, 10);
    counts_are_near(system, n_decks);
    law_table_holds_shares::<N>(val, cards, lo, hi);
    assert forall|s: int, n: int| lo <= s <= hi && 0 <= n <= big_n implies val(
        #[trigger] grid(s, n),
    ) >= 0real by {
        cell_sign(val, grid, cards, lo, hi, s, n);
    }
    if some_size(pen, first, big_n) {
        let n = choose|n: int| first <= n <= big_n && #[trigger] pen.admits_spec(n, big_n);
        let s = some_way(cards, n);
        no_ways(cards, s, n);
        cell_sign(val, grid, cards, lo, hi, s, n);
        weight_has(val, grid, pen, lo, hi, big_n, first, big_n, hi, n, s);
    }
}

proof fn cell_sign<N: Scalar>(
    val: spec_fn(N) -> real,
    grid: Grid<N>,
    cards: Seq<i16>,
    lo: int,
    hi: int,
    s: int,
    n: int,
)
    requires
        holds_shares(val, grid, cards, lo, hi),
        lo <= s <= hi,
        0 <= n <= cards.len(),
    ensures
        val(grid(s, n)) >= 0real,
        ways(cards, s, n) >= 1 ==> val(grid(s, n)) > 0real,
{
    picks_are_there(cards.len() as int, n);
    let x = val(grid(s, n));
    let p = (picks(cards.len() as int, n) as int) as real;
    let w = (ways(cards, s, n) as int) as real;
    assert(x * p == w);
    assert(x >= 0real && (w >= 1real ==> x > 0real)) by (nonlinear_arith)
        requires
            x * p == w,
            p >= 1real,
            w >= 0real,
    ;
}

proof fn quotient(w: real, all: real)
    requires
        all > 0real,
    ensures
        (w / all) * all == w,
{
    assert((w / all) * all == w) by (nonlinear_arith)
        requires
            all > 0real,
    ;
}

/// The shares of the running counts from `pivot - hi` on.
proof fn running_share_sum<N: Scalar>(
    val: spec_fn(N) -> real,
    grid: Grid<N>,
    pen: Penetration,
    lo: int,
    hi: int,
    big_n: int,
    pivot: int,
    s: int,
)
    requires
        exact(val),
        no_negatives(val, grid, lo, hi, big_n),
        big_n >= 0,
        lo - 1 <= s <= hi,
        val(weight_upto::<N>(grid, pen, lo, hi, big_n, 0, big_n, hi)) > 0real,
    ensures
        ({
            let f = running_parts(val, grid, pen, lo, big_n, big_n, hi);
            let all = val(weight_upto::<N>(grid, pen, lo, hi, big_n, 0, big_n, hi));
            share_sum(val, external_shares::<N>(grid, pen, lo, hi, big_n, pivot, s)) * all
                == sum_upto(f, hi - lo + 1) - sum_upto(f, s + 1 - lo)
        }),
    decreases hi - s,
{
    exact_whole::<N>(val, 0);
    let f = running_parts(val, grid, pen, lo, big_n, big_n, hi);
    let all_n = weight_upto::<N>(grid, pen, lo, hi, big_n, 0, big_n, hi);
    let all = val(all_n);
    let list = external_shares::<N>(grid, pen, lo, hi, big_n, pivot, s);
    if s >= hi {
        assert(0real * all == 0real) by (nonlinear_arith);
    } else {
        running_share_sum(val, grid, pen, lo, hi, big_n, pivot, s + 1);
        let before = external_shares::<N>(grid, pen, lo, hi, big_n, pivot, s + 1);
        let w = count_weight::<N>(grid, pen, big_n, s + 1, big_n);
        count_weight_sign(val, grid, pen, lo, hi, big_n, s + 1, big_n);
        assert(f(s + 1 - lo) == val(w));
        assert(sum_upto(f, s + 2 - lo) == sum_upto(f, s + 1 - lo) + f(s + 1 - lo));
        if zero::<N>().less_spec(w) {
            let q = val(w.over_spec(all_n));
            assert(list.drop_last() =~= before);
            assert(list.last().1 == w.over_spec(all_n));
            assert(q == val(w) / all);
            quotient(val(w), all);
            let b = share_sum(val, before);
            assert((b + q) * all == b * all + q * all) by (nonlinear_arith);
        }
    }
}

/// Where no size may be left, no running count is listed.
proof fn running_list_empty<N: Scalar>(
    val: spec_fn(N) -> real,
    grid: Grid<N>,
    pen: Penetration,
    lo: int,
    hi: int,
    big_n: int,
    pivot: int,
    s: int,
)
    requires
        exact(val),
        no_negatives(val, grid, lo, hi, big_n),
        big_n >= 0,
        lo - 1 <= s <= hi,
        !some_size(pen, 0, big_n),
    ensures
        external_shares::<N>(grid, pen, lo, hi, big_n, pivot, s).len() == 0,
    decreases hi - s,
{
    exact_whole::<N>(val, 0);
    if s < hi {
        running_list_empty(val, grid, pen, lo, hi, big_n, pivot, s + 1);
        count_weight_sign(val, grid, pen, lo, hi, big_n, s + 1, big_n);
    }
}

/// In an exact arithmetic the shares of the running counts add up to one, where some
/// number of cards may be left at all; else no count is listed.
pub proof fn law_running_counts_add_up<N: Scalar>(
    val: spec_fn(N) -> real,
    system: CountSystemId,
    n_decks: nat,
    pen: Penetration,
)
    requires
        exact(val),
        n_decks <= 255,
    ensures
        ({
            let list = running_occurrence::<N>(system, n_decks, pen);
            if some_size(pen, 0, size(deck_tally(n_decks)) as int) {
                share_sum(val, list) == 1real
            } else {
                list.len() == 0
            }
        }),
{
    let root = deck_tally(n_decks);
    let lo = low(system.values(), root);
    let hi = high(system.values(), root);
    let big_n = size(root) as int;
    let grid = shoe_grid::<N>(system, n_decks);
    let pivot = system.pivot_spec(n_decks as int);
    counts_are_near(system, n_decks);
    shoe_weight(val, system, n_decks, pen, 0);
    if some_size(pen, 0, big_n) {
        running_share_sum(val, grid, pen, lo, hi, big_n, pivot, lo - 1);
        running_sum(val, grid, pen, lo, hi, big_n, big_n, hi);
        let all = val(weight_upto::<N>(grid, pen, lo, hi, big_n, 0, big_n, hi));
        let x = share_sum(val, running_occurrence::<N>(system, n_decks, pen));
        assert(x == 1real) by (nonlinear_arith)
            requires
                x * all == all,
                all > 0real,
        ;
    } else {
        running_list_empty(val, grid, pen, lo, hi, big_n, pivot, lo - 1);
    }
}

/// The weight of the true counts of at least `c`, over the sizes below `n` and the counts
/// up to `s` at the size `n`. The true count of `n` cards is `-52 * s / n`.
pub open spec fn weight_at_least<N: Scalar>(
    grid: Grid<N>,
    pen: Penetration,
    lo: int,
    hi: int,
    big_n: int,
    c: int,
    n: int,
    s: int,
) -> N
    decreases n, s - lo + 1,
{
    if n < 1 {
        zero::<N>()
    } else if s < lo {
        if n == 1 {
            zero::<N>()
        } else {
            weight_at_least::<N>(grid, pen, lo, hi, big_n, c, n - 1, hi)
        }
    } else {
        let so_far = weight_at_least::<N>(grid, pen, lo, hi, big_n, c, n, s - 1);
        if pen.admits_spec(n, big_n) && !is_nil(grid(s, n)) && -52 * s >= c * n {
            so_far.plus_spec(grid(s, n))
        } else {
            so_far
        }
    }
}

/// What a true count of at least a whole number is: the condition of that many halves
/// twice over holds.
pub proof fn law_true_count_at_least(s: int, n: int, c: int, cutoff: i16)
    requires
        n >= 1,
        cutoff == 2 * c,
    ensures
        (CountCondition::TrueGe { cutoff }).holds(s, n) <==> -52 * s >= c * n,
{
    assert(cutoff * n == 2 * (c * n)) by (nonlinear_arith)
        requires
            cutoff == 2 * c,
    ;
}

/// A true count is at least `c` where its whole part is.
proof fn bucket_at_least(s: int, n: int, c: int)
    requires
        n >= 1,
        i16::MIN < c <= i16::MAX,
    ensures
        true_bucket(s, n) >= c <==> -52 * s >= c * n,
{
    let x = -52 * s;
    let t = x / n;
    assert(t >= c <==> x >= c * n) by (nonlinear_arith)
        requires
            n >= 1,
            t == x / n,
    ;
}

/// The weight of the true counts whose whole part is at least `c`.
spec fn weight_from<N: Scalar>(
    val: spec_fn(N) -> real,
    grid: Grid<N>,
    pen: Penetration,
    lo: int,
    hi: int,
    big_n: int,
    c: int,
    n: int,
    s: int,
) -> real
    decreases n, s - lo + 1,
{
    if n < 1 {
        0real
    } else if s < lo {
        weight_from(val, grid, pen, lo, hi, big_n, c, n - 1, hi)
    } else {
        weight_from(val, grid, pen, lo, hi, big_n, c, n, s - 1) + if true_bucket(s, n) >= c {
            cell(val, grid, pen, big_n, s, n)
        } else {
            0real
        }
    }
}

/// What a whole true count weighs.
spec fn bucket_value<N: Scalar>(
    val: spec_fn(N) -> real,
    grid: Grid<N>,
    pen: Penetration,
    lo: int,
    hi: int,
    big_n: int,
    t: int,
    n: int,
    s: int,
) -> real {
    match bucket_weight::<N>(grid, pen, lo, hi, big_n, t, n, s) {
        Some(w) => val(w),
        None => 0real,
    }
}

/// What the whole true counts from `c` on weigh.
spec fn true_parts<N: Scalar>(
    val: spec_fn(N) -> real,
    grid: Grid<N>,
    pen: Penetration,
    lo: int,
    hi: int,
    big_n: int,
    c: int,
    n: int,
    s: int,
) -> spec_fn(int) -> real {
    |i: int| bucket_value(val, grid, pen, lo, hi, big_n, c + i, n, s)
}

/// One step of the weight of a whole true count.
proof fn bucket_step<N: Scalar>(
    val: spec_fn(N) -> real,
    grid: Grid<N>,
    pen: Penetration,
    lo: int,
    hi: int,
    big_n: int,
    t: int,
    n: int,
    s: int,
)
    requires
        exact(val),
        n >= 1,
        lo <= s,
    ensures
        bucket_value(val, grid, pen, lo, hi, big_n, t, n, s) == bucket_value(
            val,
            grid,
            pen,
            lo,
            hi,
            big_n,
            t,
            n,
            s - 1,
        ) + if true_bucket(s, n) == t {
            cell(val, grid, pen, big_n, s, n)
        } else {
            0real
        },
{
    exact_whole::<N>(val, 0);
}

/// The weights of the whole true counts from `c` on add up to the weight of the true counts
/// that belong to them.
proof fn true_sum<N: Scalar>(
    val: spec_fn(N) -> real,
    grid: Grid<N>,
    pen: Penetration,
    lo: int,
    hi: int,
    big_n: int,
    c: int,
    n: int,
    s: int,
)
    requires
        exact(val),
        lo <= hi,
        0 <= n,
        lo - 1 <= s <= hi,
        i16::MIN <= c <= i16::MAX,
    ensures
        sum_upto(true_parts(val, grid, pen, lo, hi, big_n, c, n, s), 0x8000 - c) == weight_from(
            val,
            grid,
            pen,
            lo,
            hi,
            big_n,
            c,
            n,
            s,
        ),
    decreases n, s - lo + 1,
{
    let k = 0x8000 - c;
    let now = true_parts(val, grid, pen, lo, hi, big_n, c, n, s);
    if n < 1 {
        assert forall|i: int| 0 <= i < k implies #[trigger] now(i) == 0real by {}
        sum_of_nothing(now, k);
    } else if s < lo {
        true_sum(val, grid, pen, lo, hi, big_n, c, n - 1, hi);
        let before = true_parts(val, grid, pen, lo, hi, big_n, c, n - 1, hi);
        assert forall|i: int| 0 <= i < k implies #[trigger] now(i) == before(i) by {
            if n == 1 {
                assert(bucket_weight::<N>(grid, pen, lo, hi, big_n, c + i, 0, hi) is None);
            }
        }
        sum_of_same(now, before, k);
    } else {
        true_sum(val, grid, pen, lo, hi, big_n, c, n, s - 1);
        let before = true_parts(val, grid, pen, lo, hi, big_n, c, n, s - 1);
        let x = cell(val, grid, pen, big_n, s, n);
        let a = true_bucket(s, n) - c;
        assert forall|i: int| 0 <= i < k implies #[trigger] now(i) == before(i) + (if i == a {
            x
        } else {
            0real
        }) by {
            bucket_step(val, grid, pen, lo, hi, big_n, c + i, n, s);
        }
        if a >= 0 {
            sum_with_change(before, now, a, x, k);
        } else {
            sum_of_same(now, before, k);
        }
    }
}

/// Every true count has a whole part.
proof fn weight_from_all<N: Scalar>(
    val: spec_fn(N) -> real,
    grid: Grid<N>,
    pen: Penetration,
    lo: int,
    hi: int,
    big_n: int,
    n: int,
    s: int,
)
    requires
        exact(val),
        lo <= hi,
        0 <= n,
        lo - 1 <= s <= hi,
    ensures
        weight_from(val, grid, pen, lo, hi, big_n, i16::MIN as int, n, s) == val(
            weight_upto::<N>(grid, pen, lo, hi, big_n, 1, n, s),
        ),
    decreases n, s - lo + 1,
{
    exact_whole::<N>(val, 0);
    if n >= 1 {
        if s < lo {
            weight_from_all(val, grid, pen, lo, hi, big_n, n - 1, hi);
        } else {
            weight_from_all(val, grid, pen, lo, hi, big_n, n, s - 1);
            weight_step(val, grid, pen, lo, hi, big_n, 1, n, s);
        }
    }
}

/// The true counts whose whole part is at least `c` are those of at least `c`.
proof fn weight_from_least<N: Scalar>(
    val: spec_fn(N) -> real,
    grid: Grid<N>,
    pen: Penetration,
    lo: int,
    hi: int,
    big_n: int,
    c: int,
    n: int,
    s: int,
)
    requires
        exact(val),
        lo <= hi,
        0 <= n,
        lo - 1 <= s <= hi,
        i16::MIN < c <= i16::MAX,
    ensures
        weight_from(val, grid, pen, lo, hi, big_n, c, n, s) == val(
            weight_at_least::<N>(grid, pen, lo, hi, big_n, c, n, s),
        ),
    decreases n, s - lo + 1,
{
    exact_whole::<N>(val, 0);
    if n >= 1 {
        if s < lo {
            weight_from_least(val, grid, pen, lo, hi, big_n, c, n - 1, hi);
        } else {
            weight_from_least(val, grid, pen, lo, hi, big_n, c, n, s - 1);
            bucket_at_least(s, n, c);
        }
    }
}

/// The shares of the whole true counts from `c` on, among those below `t`.
proof fn true_tail_sum<N: Scalar>(
    val: spec_fn(N) -> real,
    grid: Grid<N>,
    pen: Penetration,
    lo: int,
    hi: int,
    big_n: int,
    c: int,
    t: int,
)
    requires
        exact(val),
        i16::MIN <= c <= i16::MAX,
        i16::MIN <= t <= 0x8000,
        val(weight_upto::<N>(grid, pen, lo, hi, big_n, 1, big_n, hi)) > 0real,
    ensures
        tail_sum(val, true_shares::<N>(grid, pen, lo, hi, big_n, t), c) * val(
            weight_upto::<N>(grid, pen, lo, hi, big_n, 1, big_n, hi),
        ) == sum_upto(true_parts(val, grid, pen, lo, hi, big_n, c, big_n, hi), t - c),
    decreases t + 0x8000,
{
    let f = true_parts(val, grid, pen, lo, hi, big_n, c, big_n, hi);
    let all_n = weight_upto::<N>(grid, pen, lo, hi, big_n, 1, big_n, hi);
    let all = val(all_n);
    let list = true_shares::<N>(grid, pen, lo, hi, big_n, t);
    if t <= i16::MIN {
        assert(0real * all == 0real) by (nonlinear_arith);
    } else {
        true_tail_sum(val, grid, pen, lo, hi, big_n, c, t - 1);
        let before = true_shares::<N>(grid, pen, lo, hi, big_n, t - 1);
        if t - 1 >= c {
            assert(f(t - 1 - c) == bucket_value(val, grid, pen, lo, hi, big_n, t - 1, big_n, hi));
        }
        if let Some(w) = bucket_weight::<N>(grid, pen, lo, hi, big_n, t - 1, big_n, hi) {
            assert(list.drop_last() =~= before);
            assert(list.last() == ((t - 1) as i16, w.over_spec(all_n)));
            let q = val(w.over_spec(all_n));
            assert(q == val(w) / all);
            quotient(val(w), all);
            let b = tail_sum(val, before, c);
            assert((b + q) * all == b * all + q * all) by (nonlinear_arith);
        }
    }
}

/// Where no size may be left, no whole true count has weight.
proof fn no_bucket<N: Scalar>(
    grid: Grid<N>,
    pen: Penetration,
    lo: int,
    hi: int,
    big_n: int,
    t: int,
    n: int,
    s: int,
)
    requires
        !some_size(pen, 1, big_n),
        n <= big_n,
    ensures
        bucket_weight::<N>(grid, pen, lo, hi, big_n, t, n, s) is None,
    decreases n, s - lo + 1,
{
    if n >= 1 {
        if s < lo {
            no_bucket(grid, pen, lo, hi, big_n, t, n - 1, hi);
        } else {
            no_bucket(grid, pen, lo, hi, big_n, t, n, s - 1);
        }
    }
}

proof fn true_list_empty<N: Scalar>(
    grid: Grid<N>,
    pen: Penetration,
    lo: int,
    hi: int,
    big_n: int,
    t: int,
)
    requires
        !some_size(pen, 1, big_n),
    ensures
        true_shares::<N>(grid, pen, lo, hi, big_n, t).len() == 0,
    decreases t + 0x8000,
{
    if t > i16::MIN {
        true_list_empty(grid, pen, lo, hi, big_n, t - 1);
        no_bucket(grid, pen, lo, hi, big_n, t - 1, big_n, hi);
    }
}

/// The shares of all counts are the shares from the least on.
proof fn tail_of_all<N: Scalar>(val: spec_fn(N) -> real, list: Seq<(i16, N)>)
    ensures
        tail_sum(val, list, i16::MIN as int) == share_sum(val, list),
    decreases list.len(),
{
    if list.len() > 0 {
        tail_of_all(val, list.drop_last());
    }
}

/// In an exact arithmetic the shares of the whole true counts add up to one, where some
/// cards may be left at all; else no count is listed.
pub proof fn law_true_counts_add_up<N: Scalar>(
    val: spec_fn(N) -> real,
    system: CountSystemId,
    n_decks: nat,
    pen: Penetration,
)
    requires
        exact(val),
        n_decks <= 255,
    ensures
        ({
            let list = true_occurrence::<N>(system, n_decks, pen);
            if some_size(pen, 1, size(deck_tally(n_decks)) as int) {
                share_sum(val, list) == 1real
            } else {
                list.len() == 0
            }
        }),
{
    let root = deck_tally(n_decks);
    let lo = low(system.values(), root);
    let hi = high(system.values(), root);
    let big_n = size(root) as int;
    let grid = shoe_grid::<N>(system, n_decks);
    let c = i16::MIN as int;
    counts_are_near(system, n_decks);
    if some_size(pen, 1, big_n) {
        shoe_weight(val, system, n_decks, pen, 1);
        true_tail_sum(val, grid, pen, lo, hi, big_n, c, 0x8000);
        true_sum(val, grid, pen, lo, hi, big_n, c, big_n, hi);
        weight_from_all(val, grid, pen, lo, hi, big_n, big_n, hi);
        let list = true_occurrence::<N>(system, n_decks, pen);
        tail_of_all(val, list);
        let all = val(weight_upto::<N>(grid, pen, lo, hi, big_n, 1, big_n, hi));
        let x = share_sum(val, list);
        assert(x == 1real) by (nonlinear_arith)
            requires
                x * all == all,
                all > 0real,
        ;
    } else {
        true_list_empty(grid, pen, lo, hi, big_n, 0x8000);
    }
}

/// In an exact arithmetic the shares of the whole true counts from `c` on add up to exactly
/// the chance of a true count of at least `c`: the weight of the shoes that have one, over
/// the weight of all.
pub proof fn law_true_tail_is_the_chance<N: Scalar>(
    val: spec_fn(N) -> real,
    system: CountSystemId,
    n_decks: nat,
    pen: Penetration,
    c: int,
)
    requires
        exact(val),
        n_decks <= 255,
        i16::MIN < c <= i16::MAX,
        some_size(pen, 1, size(deck_tally(n_decks)) as int),
    ensures
        ({
            let root = deck_tally(n_decks);
            let lo = low(system.values(), root);
            let hi = high(system.values(), root);
            let big_n = size(root) as int;
            let grid = shoe_grid::<N>(system, n_decks);
            tail_sum(val, true_occurrence::<N>(system, n_decks, pen), c) == val(
                weight_at_least::<N>(grid, pen, lo, hi, big_n, c, big_n, hi),
            ) / val(weight_upto::<N>(grid, pen, lo, hi, big_n, 1, big_n, hi))
        }),
{
    let root = deck_tally(n_decks);
    let lo = low(system.values(), root);
    let hi = high(system.values(), root);
    let big_n = size(root) as int;
    let grid = shoe_grid::<N>(system, n_decks);
    counts_are_near(system, n_decks);
    shoe_weight(val, system, n_decks, pen, 1);
    true_tail_sum(val, grid, pen, lo, hi, big_n, c, 0x8000);
    true_sum(val, grid, pen, lo, hi, big_n, c, big_n, hi);
    weight_from_least(val, grid, pen, lo, hi, big_n, c, big_n, hi);
    let all = val(weight_upto::<N>(grid, pen, lo, hi, big_n, 1, big_n, hi));
    let w = val(weight_at_least::<N>(grid, pen, lo, hi, big_n, c, big_n, hi));
    let x = tail_sum(val, true_occurrence::<N>(system, n_decks, pen), c);
    assert(x == w / all) by (nonlinear_arith)
        requires
            x * all == w,
            all > 0real,
    ;
}

/// The window of the running counts that occur is not empty, and both its ends occur.
pub proof fn law_running_window_is_in_order<N: Scalar>(
    system: CountSystemId,
    n_decks: nat,
    pen: Penetration,
    tail: N,
)
    requires
        n_decks <= 255,
        running_occurrence::<N>(system, n_decks, pen).len() > 0,
    ensures
        ({
            let list = running_occurrence::<N>(system, n_decks, pen);
            let (lo, hi) = window_of(list, tail);
            &&& lo <= hi
            &&& exists|i: int| 0 <= i < list.len() && (#[trigger] list[i]).0 == lo
            &&& exists|i: int| 0 <= i < list.len() && (#[trigger] list[i]).0 == hi
        }),
{
    law_running_counts_rise::<N>(system, n_decks, pen);
    law_window_is_in_order(running_occurrence::<N>(system, n_decks, pen), tail);
}

/// The window of the whole true counts that occur is not empty, and both its ends occur.
pub proof fn law_true_window_is_in_order<N: Scalar>(
    system: CountSystemId,
    n_decks: nat,
    pen: Penetration,
    tail: N,
)
    requires
        true_occurrence::<N>(system, n_decks, pen).len() > 0,
    ensures
        ({
            let list = true_occurrence::<N>(system, n_decks, pen);
            let (lo, hi) = window_of(list, tail);
            &&& lo <= hi
            &&& exists|i: int| 0 <= i < list.len() && (#[trigger] list[i]).0 == lo
            &&& exists|i: int| 0 <= i < list.len() && (#[trigger] list[i]).0 == hi
        }),
{
    law_true_counts_rise::<N>(system, n_decks, pen);
    law_window_is_in_order(true_occurrence::<N>(system, n_decks, pen), tail);
}

/// The shares from a count on are all but those of the counts before it.
proof fn tail_from<N: Scalar>(val: spec_fn(N) -> real, list: Seq<(i16, N)>, c: int, k: int)
    requires
        0 <= k <= list.len(),
        forall|i: int| 0 <= i < k ==> (#[trigger] list[i]).0 < c,
        forall|i: int| k <= i < list.len() ==> (#[trigger] list[i]).0 >= c,
    ensures
        tail_sum(val, list, c) == share_sum(val, list) - share_sum(val, list.take(k)),
    decreases list.len(),
{
    if list.len() > 0 {
        let less = list.drop_last();
        assert(forall|i: int| 0 <= i < less.len() ==> #[trigger] less[i] == list[i]);
        if k == list.len() {
            tail_from(val, less, c, k - 1);
            assert(less.take(k - 1) =~= less);
            assert(list.take(k) =~= list);
            assert(list[k - 1].0 < c);
        } else {
            tail_from(val, less, c, k);
            assert(less.take(k) =~= list.take(k));
            assert(list[list.len() - 1].0 >= c);
        }
    } else {
        assert(list.take(k) =~= list);
    }
}

proof fn next_share<N: Scalar>(val: spec_fn(N) -> real, list: Seq<(i16, N)>, k: int)
    requires
        0 <= k < list.len(),
    ensures
        share_sum(val, list.take(k + 1)) == share_sum(val, list.take(k)) + val(list[k].1),
{
    assert(list.take(k + 1).drop_last() =~= list.take(k));
}

proof fn low_tail<N: Scalar>(
    val: spec_fn(N) -> real,
    dist: Seq<(i16, N)>,
    tail: N,
    at: int,
    dropped: N,
)
    requires
        exact(val),
        0 <= at < dist.len(),
        val(dropped) == share_sum(val, dist.take(at)),
        val(dropped) <= val(tail),
    ensures
        share_sum(val, dist.take(low_edge(dist, tail, at, dropped))) <= val(tail),
    decreases dist.len() - at,
{
    if at + 1 < dist.len() && !tail.less_spec(dropped.plus_spec(dist[at].1)) {
        next_share(val, dist, at);
        low_tail(val, dist, tail, at + 1, dropped.plus_spec(dist[at].1));
    }
}

proof fn high_tail<N: Scalar>(
    val: spec_fn(N) -> real,
    dist: Seq<(i16, N)>,
    tail: N,
    lo: int,
    at: int,
    dropped: N,
)
    requires
        exact(val),
        0 <= lo <= at < dist.len(),
        val(dropped) == share_sum(val, dist) - share_sum(val, dist.take(at + 1)),
        val(dropped) <= val(tail),
    ensures
        share_sum(val, dist) - share_sum(
            val,
            dist.take(high_edge(dist, tail, lo, at, dropped) + 1),
        ) <= val(tail),
    decreases at - lo,
{
    if at > lo && !tail.less_spec(dropped.plus_spec(dist[at].1)) {
        next_share(val, dist, at);
        high_tail(val, dist, tail, lo, at - 1, dropped.plus_spec(dist[at].1));
    }
}

/// In an exact arithmetic a window drops no more than its tail off each end: neither the
/// counts below it nor those above it have a larger share.
pub proof fn law_window_drops_little<N: Scalar>(
    val: spec_fn(N) -> real,
    dist: Seq<(i16, N)>,
    tail: N,
)
    requires
        exact(val),
        dist.len() > 0,
        rises(dist),
        val(tail) >= 0real,
    ensures
        ({
            let (lo, hi) = window_of(dist, tail);
            &&& share_sum(val, dist) - tail_sum(val, dist, lo as int) <= val(tail)
            &&& tail_sum(val, dist, hi + 1) <= val(tail)
        }),
{
    exact_whole::<N>(val, 0);
    let nil = zero::<N>();
    let lo = low_edge(dist, tail, 0, nil);
    let hi = high_edge(dist, tail, lo, dist.len() - 1, nil);
    edges_in_range(dist, tail, 0, nil);
    high_edge_in_range(dist, tail, lo, dist.len() - 1, nil);
    assert(dist.take(0) =~= Seq::<(i16, N)>::empty());
    assert(dist.take(dist.len() as int) =~= dist);
    low_tail(val, dist, tail, 0, nil);
    high_tail(val, dist, tail, lo, dist.len() - 1, nil);
    tail_from(val, dist, dist[lo].0 as int, lo);
    tail_from(val, dist, dist[hi].0 + 1, hi + 1);
}

/// The chance that a pick of the cards has the count `s`, summed up over the numbers of cards up
/// to `n` that may be left.
pub open spec fn left_with_count(cards: Seq<i16>, pen: Penetration, s: int, n: int) -> real
    decreases n + 1,
{
    if n < 0 {
        0real
    } else {
        left_with_count(cards, pen, s, n - 1) + if pen.admits_spec(n, cards.len() as int) {
            (ways(cards, s, n) as int) as real / (picks(cards.len() as int, n) as int) as real
        } else {
            0real
        }
    }
}

/// That, summed up over the counts from `lo` to `s`.
pub open spec fn left_with_counts(cards: Seq<i16>, pen: Penetration, lo: int, s: int) -> real
    decreases s - lo + 1,
{
    if s < lo {
        0real
    } else {
        left_with_counts(cards, pen, lo, s - 1) + left_with_count(
            cards,
            pen,
            s,
            cards.len() as int,
        )
    }
}

proof fn count_weight_value<N: Scalar>(
    val: spec_fn(N) -> real,
    grid: Grid<N>,
    cards: Seq<i16>,
    pen: Penetration,
    lo: int,
    hi: int,
    s: int,
    n: int,
)
    requires
        exact(val),
        holds_shares(val, grid, cards, lo, hi),
        lo <= s <= hi,
        -1 <= n <= cards.len(),
    ensures
        val(count_weight::<N>(grid, pen, cards.len() as int, s, n)) == left_with_count(
            cards,
            pen,
            s,
            n,
        ),
    decreases n + 1,
{
    exact_whole::<N>(val, 0);
    if n >= 0 {
        count_weight_value(val, grid, cards, pen, lo, hi, s, n - 1);
        count_weight_step(val, grid, pen, cards.len() as int, s, n);
        crate::rebuildlaws::grid_share(val, grid, cards, lo, hi, s, n);
    }
}

proof fn weights_value<N: Scalar>(
    val: spec_fn(N) -> real,
    grid: Grid<N>,
    cards: Seq<i16>,
    pen: Penetration,
    lo: int,
    hi: int,
    k: int,
)
    requires
        exact(val),
        holds_shares(val, grid, cards, lo, hi),
        0 <= k <= hi - lo + 1,
    ensures
        sum_upto(
            running_parts(
                val,
                grid,
                pen,
                lo,
                cards.len() as int,
                cards.len() as int,
                hi,
            ),
            k,
        ) == left_with_counts(cards, pen, lo, lo + k - 1),
    decreases k,
{
    if k > 0 {
        weights_value(val, grid, cards, pen, lo, hi, k - 1);
        count_weight_value(val, grid, cards, pen, lo, hi, lo + k - 1, cards.len() as int);
        let f = running_parts(
            val,
            grid,
            pen,
            lo,
            cards.len() as int,
            cards.len() as int,
            hi,
        );
        assert(f(k - 1) == val(
            count_weight::<N>(
                grid,
                pen,
                cards.len() as int,
                lo + (k - 1),
                cards.len() as int,
            ),
        ));
    }
}

/// Every entry of the list is that of a count.
proof fn entry_of_a_count<N: Scalar>(
    grid: Grid<N>,
    pen: Penetration,
    lo: int,
    hi: int,
    big_n: int,
    pivot: int,
    s: int,
    i: int,
) -> (at: int)
    requires
        lo - 1 <= s,
        0 <= i < external_shares::<N>(grid, pen, lo, hi, big_n, pivot, s).len(),
    ensures
        s < at <= hi,
        external_shares::<N>(grid, pen, lo, hi, big_n, pivot, s)[i] == (
            (pivot - at) as i16,
            count_weight::<N>(grid, pen, big_n, at, big_n).over_spec(
                weight_upto::<N>(grid, pen, lo, hi, big_n, 0, big_n, hi),
            ),
        ),
    decreases hi - s,
{
    let before = external_shares::<N>(grid, pen, lo, hi, big_n, pivot, s + 1);
    if i < before.len() {
        entry_of_a_count::<N>(grid, pen, lo, hi, big_n, pivot, s + 1, i)
    } else {
        s + 1
    }
}

/// In an exact arithmetic the share of a running count is how often a player who has counted a
/// shoe down holds it: the chance that the cards left count what the full shoe and the start of
/// the system leave for them, over all numbers of cards that may be left, over that of all counts.
pub proof fn law_running_share_is_the_chance<N: Scalar>(
    val: spec_fn(N) -> real,
    system: CountSystemId,
    n_decks: nat,
    pen: Penetration,
    i: int,
)
    requires
        exact(val),
        n_decks <= 255,
        some_size(pen, 0, size(deck_tally(n_decks)) as int),
        0 <= i < running_occurrence::<N>(system, n_decks, pen).len(),
    ensures
        ({
            let root = deck_tally(n_decks);
            let cards = pool_cards(system.values(), root);
            let (c, p) = running_occurrence::<N>(system, n_decks, pen)[i];
            let left = system.start(n_decks as int) + crate::count::count_of(
                system.values(),
                root,
            ) - c;
            val(p) * left_with_counts(
                cards,
                pen,
                low(system.values(), root),
                high(system.values(), root),
            ) == left_with_count(cards, pen, left, cards.len() as int)
        }),
{
    let values = system.values();
    let root = deck_tally(n_decks);
    let lo = low(values, root);
    let hi = high(values, root);
    let grid = shoe_grid::<N>(system, n_decks);
    let cards = pool_cards(values, root);
    let big_n = size(root) as int;
    let pivot = system.pivot_spec(n_decks as int);
    decks_are_countable(system, n_decks);
    pool_cards_count(values, root);
    pool_card_sums(values, root, 10);
    counts_are_near(system, n_decks);
    crate::count::law_full_shoe_counts(system, n_decks as int);
    law_table_holds_shares::<N>(val, cards, lo, hi);
    shoe_weight(val, system, n_decks, pen, 0);
    running_sum(val, grid, pen, lo, hi, big_n, big_n, hi);
    weights_value(val, grid, cards, pen, lo, hi, hi - lo + 1);
    let at = entry_of_a_count::<N>(grid, pen, lo, hi, big_n, pivot, lo - 1, i);
    count_weight_value(val, grid, cards, pen, lo, hi, at, big_n);
    let all = val(weight_upto::<N>(grid, pen, lo, hi, big_n, 0, big_n, hi));
    quotient(val(count_weight::<N>(grid, pen, big_n, at, big_n)), all);
}

proof fn low_is_tight<N: Scalar>(
    val: spec_fn(N) -> real,
    dist: Seq<(i16, N)>,
    tail: N,
    at: int,
    dropped: N,
)
    requires
        exact(val),
        0 <= at < dist.len(),
        val(dropped) == share_sum(val, dist.take(at)),
    ensures
        ({
            let lo = low_edge(dist, tail, at, dropped);
            lo + 1 < dist.len() ==> share_sum(val, dist.take(lo + 1)) > val(tail)
        }),
    decreases dist.len() - at,
{
    next_share(val, dist, at);
    if at + 1 < dist.len() && !tail.less_spec(dropped.plus_spec(dist[at].1)) {
        low_is_tight(val, dist, tail, at + 1, dropped.plus_spec(dist[at].1));
    }
}

proof fn high_is_tight<N: Scalar>(
    val: spec_fn(N) -> real,
    dist: Seq<(i16, N)>,
    tail: N,
    lo: int,
    at: int,
    dropped: N,
)
    requires
        exact(val),
        0 <= lo <= at < dist.len(),
        val(dropped) == share_sum(val, dist) - share_sum(val, dist.take(at + 1)),
    ensures
        ({
            let hi = high_edge(dist, tail, lo, at, dropped);
            hi > lo ==> share_sum(val, dist) - share_sum(val, dist.take(hi)) > val(tail)
        }),
    decreases at - lo,
{
    next_share(val, dist, at);
    if at > lo && !tail.less_spec(dropped.plus_spec(dist[at].1)) {
        high_is_tight(val, dist, tail, lo, at - 1, dropped.plus_spec(dist[at].1));
    }
}

/// In an exact arithmetic a window that is more than one count keeps no count that could have
/// been dropped too: with its lowest count, what lies below is more than the tail, and with its
/// highest, what lies above is.
pub proof fn law_window_is_tight<N: Scalar>(
    val: spec_fn(N) -> real,
    dist: Seq<(i16, N)>,
    tail: N,
)
    requires
        exact(val),
        dist.len() > 0,
        rises(dist),
    ensures
        ({
            let (lo, hi) = window_of(dist, tail);
            lo < hi ==> {
                &&& share_sum(val, dist) - tail_sum(val, dist, lo + 1) > val(tail)
                &&& tail_sum(val, dist, hi as int) > val(tail)
            }
        }),
{
    exact_whole::<N>(val, 0);
    let nil = zero::<N>();
    let lo = low_edge(dist, tail, 0, nil);
    let hi = high_edge(dist, tail, lo, dist.len() - 1, nil);
    edges_in_range(dist, tail, 0, nil);
    high_edge_in_range(dist, tail, lo, dist.len() - 1, nil);
    assert(dist.take(0) =~= Seq::<(i16, N)>::empty());
    assert(dist.take(dist.len() as int) =~= dist);
    low_is_tight(val, dist, tail, 0, nil);
    high_is_tight(val, dist, tail, lo, dist.len() - 1, nil);
    if dist[lo].0 < dist[hi].0 {
        tail_from(val, dist, dist[lo].0 + 1, lo + 1);
        tail_from(val, dist, dist[hi].0 as int, hi);
    }
}

} // verus!
