//! The count table of a pool of cards: for every number `n` of cards and every
//! count `s`, the chance that `n` cards picked at random from the pool have the
//! count `s`.
//!
//! The table is built by adding the cards one at a time and is brought down to a
//! smaller pool by taking cards out one at a time.
use crate::card::Card;
use crate::count::{count_of, count_upto, CountFrame, Penetration};
use crate::num::{from_whole, one, total, whole, zero, Scalar};
use crate::shoe::{single, size, taken, tally_bounds, CardCol, Tally, N_RANKS};
use std::sync::Arc;
use vstd::multiset::Multiset;
use vstd::prelude::*;

verus! {

broadcast use tally_bounds;

/// A number for every count and every number of cards.
pub type Grid<N> = spec_fn(int, int) -> N;

/// The least count that some of the cards of the first `k` ranks can have.
pub open spec fn low_upto(values: Seq<i16>, t: Tally, k: int) -> int
    decreases k,
{
    if k <= 0 {
        0
    } else {
        let c: int = values[k - 1] * t[k - 1];
        low_upto(values, t, k - 1) + if c < 0 {
            c
        } else {
            0
        }
    }
}

/// The greatest count that some of the cards of the first `k` ranks can have.
pub open spec fn high_upto(values: Seq<i16>, t: Tally, k: int) -> int
    decreases k,
{
    if k <= 0 {
        0
    } else {
        let c: int = values[k - 1] * t[k - 1];
        high_upto(values, t, k - 1) + if c > 0 {
            c
        } else {
            0
        }
    }
}

/// The least count that some of the cards can have.
pub open spec fn low(values: Seq<i16>, t: Tally) -> int {
    low_upto(values, t, 10)
}

/// The greatest count that some of the cards can have.
pub open spec fn high(values: Seq<i16>, t: Tally) -> int {
    high_upto(values, t, 10)
}

/// Whether the counts of a pool are numbers of sixteen bits, and so is its size.
pub open spec fn countable(values: Seq<i16>, t: Tally) -> bool {
    &&& values.len() == 10
    &&& t.len() == 10
    &&& size(t) <= u16::MAX
    &&& high(values, t) - low(values, t) <= i16::MAX
}

/// What the cards of the first `k` ranks count, one after the other.
pub open spec fn cards_upto(values: Seq<i16>, t: Tally, k: int) -> Seq<i16>
    decreases k,
{
    if k <= 0 {
        Seq::empty()
    } else {
        cards_upto(values, t, k - 1) + Seq::new(t[k - 1], |i: int| values[k - 1])
    }
}

/// What the cards of a pool count, one after the other.
pub open spec fn pool_cards(values: Seq<i16>, t: Tally) -> Seq<i16> {
    cards_upto(values, t, 10)
}

/// The sum of a list of card values.
pub open spec fn value_sum(cards: Seq<i16>) -> int
    decreases cards.len(),
{
    if cards.len() == 0 {
        0
    } else {
        value_sum(cards.drop_last()) + cards.last()
    }
}

/// The chance that `n` cards picked from these have the count `s`. With one more
/// card, the pick either leaves it out or takes it. Counts are kept between `lo`
/// and `hi`.
pub open spec fn pick_chance<N: Scalar>(cards: Seq<i16>, lo: int, hi: int, s: int, n: int) -> N
    decreases cards.len(),
{
    if s < lo || s > hi || n < 0 || n > cards.len() {
        zero::<N>()
    } else if cards.len() == 0 {
        if s == 0 {
            one::<N>()
        } else {
            zero::<N>()
        }
    } else {
        let rest = cards.drop_last();
        let big_n = cards.len() as int;
        if n == 0 {
            pick_chance::<N>(rest, lo, hi, s, 0)
        } else {
            pick_chance::<N>(rest, lo, hi, s, n).times_spec(
                N::ratio_spec((big_n - n) as i64, big_n as i64),
            ).plus_spec(
                pick_chance::<N>(rest, lo, hi, s - cards.last(), n - 1).times_spec(
                    N::ratio_spec(n as i64, big_n as i64),
                ),
            )
        }
    }
}

/// The chances of a pool of cards.
pub open spec fn pick_grid<N: Scalar>(cards: Seq<i16>, lo: int, hi: int) -> Grid<N> {
    |s: int, n: int| pick_chance::<N>(cards, lo, hi, s, n)
}

/// The chances of a pool of `big_n` cards after a card that counts `v` has been
/// taken out, for picks of few cards: the chance before is made up of the chance
/// that the pick leaves the card out and the chance that it takes it.
pub open spec fn thinned_low<N: Scalar>(
    grid: Grid<N>,
    lo: int,
    hi: int,
    big_n: int,
    v: int,
    s: int,
    n: int,
) -> N
    decreases n,
{
    if s < lo || s > hi || n < 0 {
        zero::<N>()
    } else {
        let took = if n == 0 {
            zero::<N>()
        } else {
            thinned_low::<N>(grid, lo, hi, big_n, v, s - v, n - 1)
        };
        grid(s, n).times_spec(N::ratio_spec(big_n as i64, (big_n - n) as i64)).minus_spec(
            took.times_spec(N::ratio_spec(n as i64, (big_n - n) as i64)),
        )
    }
}

/// The chances of a pool of `big_n` cards of count `sum` after a card that counts
/// `v` has been taken out. Picks of more than half the cards are turned into the
/// picks of the cards that they leave.
pub open spec fn thinned<N: Scalar>(
    grid: Grid<N>,
    lo: int,
    hi: int,
    big_n: int,
    sum: int,
    v: int,
) -> Grid<N> {
    |s: int, n: int|
        if s < lo || s > hi || n < 0 || n > big_n - 1 {
            zero::<N>()
        } else if n <= (big_n - 1) / 2 {
            thinned_low::<N>(grid, lo, hi, big_n, v, s, n)
        } else {
            thinned_low::<N>(grid, lo, hi, big_n, v, sum - v - s, big_n - 1 - n)
        }
}

/// The chances of a pool after the cards `gone` have been taken out one after the
/// other.
pub open spec fn grid_after<N: Scalar>(values: Seq<i16>, root: Tally, gone: Seq<i16>) -> Grid<N>
    decreases gone.len(),
{
    if gone.len() == 0 {
        pick_grid::<N>(pool_cards(values, root), low(values, root), high(values, root))
    } else {
        let before = gone.drop_last();
        thinned::<N>(
            grid_after::<N>(values, root, before),
            low(values, root),
            high(values, root),
            size(root) - before.len(),
            count_of(values, root) - value_sum(before),
            gone.last() as int,
        )
    }
}

/// The cards in the pool that count `v`, among the first `k` ranks.
pub open spec fn class_upto(values: Seq<i16>, t: Tally, v: i16, k: int) -> nat
    decreases k,
{
    if k <= 0 {
        0
    } else {
        class_upto(values, t, v, k - 1) + if values[k - 1] == v {
            t[k - 1]
        } else {
            0
        }
    }
}

/// For each rank, the cards in the pool that count the same.
pub open spec fn class_counts(values: Seq<i16>, t: Tally) -> Seq<nat> {
    Seq::new(10, |r: int| class_upto(values, t, values[r], 10))
}

/// How a condition on the count is asked: of which shoe, with which weight for
/// its size, and with how many cards of which count drawn since.
pub struct Question {
    pub frame: CountFrame,
    pub pen: Penetration,
    pub drawn_sum: int,
    pub drawn_cards: int,
}

impl Question {
    /// Whether a pick of `n` of `big_n` cards with count `s` is admitted.
    pub open spec fn admits(self, s: int, n: int, big_n: int) -> bool {
        self.frame.accepts_spec(s + self.drawn_sum, n + self.drawn_cards) && self.pen.admits_spec(
            n,
            big_n,
        )
    }
}

/// The part of [`scale`] over the counts below `s` and the picks of up to `n` cards
/// of count `s`.
pub open spec fn scale_upto<N: Scalar>(
    left: Grid<N>,
    lo: int,
    hi: int,
    big_n: int,
    v: int,
    q: Question,
    s: int,
    n: int,
) -> N
    decreases s - lo, n,
{
    if s < lo {
        zero::<N>()
    } else if n <= 0 {
        if s == lo {
            zero::<N>()
        } else {
            scale_upto::<N>(left, lo, hi, big_n, v, q, s - 1, big_n)
        }
    } else {
        let so_far = scale_upto::<N>(left, lo, hi, big_n, v, q, s, n - 1);
        if lo <= s - v <= hi && q.admits(s, n, big_n) {
            so_far.plus_spec(left(s - v, n - 1))
        } else {
            so_far
        }
    }
}

/// How likely a card that counts `v` is to come next from `big_n` cards of count
/// `sum`, next to the cards that count otherwise: the chances of the admitted
/// picks that begin with the card, summed up.
pub open spec fn scale<N: Scalar>(
    grid: Grid<N>,
    lo: int,
    hi: int,
    big_n: int,
    sum: int,
    v: int,
    q: Question,
) -> N {
    scale_upto::<N>(thinned::<N>(grid, lo, hi, big_n, sum, v), lo, hi, big_n, v, q, hi, big_n)
}

/// The scale of every rank, zero where no card counts what the rank counts.
pub open spec fn scales<N: Scalar>(
    grid: Grid<N>,
    values: Seq<i16>,
    root: Tally,
    classes: Seq<nat>,
    big_n: int,
    sum: int,
    q: Question,
) -> Seq<N> {
    Seq::new(
        10,
        |r: int|
            if classes[r] == 0 {
                zero::<N>()
            } else {
                scale::<N>(
                    grid,
                    low(values, root),
                    high(values, root),
                    big_n,
                    sum,
                    values[r] as int,
                    q,
                )
            },
    )
}

/// The weight of each rank: its cards times its scale.
pub open spec fn rank_weights<N: Scalar>(pool: Tally, scales: Seq<N>) -> Seq<N> {
    Seq::new(10, |r: int| whole::<N>(pool[r] as i64).times_spec(scales[r]))
}

/// The chance of each rank: its share in the weights. Where there is no weight
/// at all every chance is what its weight is.
pub open spec fn rank_chances<N: Scalar>(pool: Tally, scales: Seq<N>) -> Seq<N> {
    let weights = rank_weights(pool, scales);
    let sum = total(weights);
    if zero::<N>().less_spec(sum) {
        Seq::new(10, |r: int| weights[r].over_spec(sum))
    } else {
        weights
    }
}

/// Whether rows of numbers are the grid for up to `big_n` cards.
pub open spec fn rows_are<N: Scalar>(
    rows: Seq<Vec<N>>,
    lo: int,
    hi: int,
    big_n: int,
    grid: Grid<N>,
) -> bool {
    &&& rows.len() == big_n + 1
    &&& forall|n: int| 0 <= n <= big_n ==> row_is(#[trigger] rows[n]@, lo, hi, n, grid)
}

/// Whether numbers are the row of a grid for `n` cards.
pub open spec fn row_is<N: Scalar>(row: Seq<N>, lo: int, hi: int, n: int, grid: Grid<N>) -> bool {
    row.len() == hi - lo + 1 && forall|i: int|
        0 <= i < row.len() ==> #[trigger] row[i] == grid(lo + i, n)
}

/// What stands in a row for the count at place `at`, zero off its ends.
pub open spec fn at_or_zero<N: Scalar>(row: Seq<N>, at: int) -> N {
    if 0 <= at < row.len() {
        row[at]
    } else {
        zero::<N>()
    }
}

fn get_or_zero<N: Scalar>(row: &Vec<N>, at: i64) -> (r: N)
    requires
        row.len() <= 0x1_0000,
    ensures
        r == at_or_zero(row@, at as int),
{
    if 0 <= at && at < row.len() as i64 {
        row[at as usize]
    } else {
        from_whole(0)
    }
}

fn zeros<N: Scalar>(len: usize) -> (r: Vec<N>)
    ensures
        r@ == Seq::new(len as nat, |i: int| zero::<N>()),
{
    let mut r: Vec<N> = Vec::new();
    let mut i: usize = 0;
    while i < len
        invariant
            i <= len,
            r.len() == i,
            forall|j: int| 0 <= j < i ==> #[trigger] r@[j] == zero::<N>(),
        decreases len - i,
    {
        r.push(from_whole(0));
        i += 1;
    }
    assert(r@ =~= Seq::new(len as nat, |i: int| zero::<N>()));
    r
}

fn copied<N: Scalar>(row: &Vec<N>) -> (r: Vec<N>)
    ensures
        r@ == row@,
{
    let mut r: Vec<N> = Vec::new();
    let mut i: usize = 0;
    while i < row.len()
        invariant
            i <= row.len(),
            r@ == row@.take(i as int),
        decreases row.len() - i,
    {
        r.push(row[i]);
        assert(r@ =~= row@.take(i + 1));
        i += 1;
    }
    assert(r@ =~= row@);
    r
}

/// The row for `n` cards once a card that counts `v` has come in.
fn fold_row<N: Scalar>(here: &Vec<N>, prev: &Vec<N>, v: i64, keep: N, take: N) -> (r: Vec<N>)
    requires
        here.len() == prev.len(),
        prev.len() <= 0x1_0000,
        -0x8000 <= v <= 0x8000,
    ensures
        r.len() == here.len(),
        forall|i: int|
            0 <= i < r.len() ==> #[trigger] r@[i] == here@[i].times_spec(keep).plus_spec(
                at_or_zero(prev@, i - v).times_spec(take),
            ),
{
    let mut r: Vec<N> = Vec::new();
    let mut i: usize = 0;
    while i < here.len()
        invariant
            i <= here.len(),
            r.len() == i,
            here.len() == prev.len(),
            prev.len() <= 0x1_0000,
            -0x8000 <= v <= 0x8000,
            forall|j: int|
                0 <= j < i ==> #[trigger] r@[j] == here@[j].times_spec(keep).plus_spec(
                    at_or_zero(prev@, j - v).times_spec(take),
                ),
        decreases here.len() - i,
    {
        let p: N = get_or_zero(prev, i as i64 - v);
        r.push(here[i].times(keep).plus(p.times(take)));
        i += 1;
    }
    r
}

/// The rows once a card that counts `v` has come in.
fn fold_in_card<N: Scalar>(
    rows: &Vec<Vec<N>>,
    span: usize,
    v: i16,
    Ghost(cards): Ghost<Seq<i16>>,
    Ghost(lo): Ghost<int>,
) -> (r: Vec<Vec<N>>)
    requires
        1 <= span <= 0x1_0000,
        cards.len() < u16::MAX,
        rows_are(
            rows@,
            lo,
            lo + span - 1,
            cards.len() as int,
            pick_grid::<N>(cards, lo, lo + span - 1),
        ),
    ensures
        rows_are(
            r@,
            lo,
            lo + span - 1,
            (cards.len() + 1) as int,
            pick_grid::<N>(cards.push(v), lo, lo + span - 1),
        ),
{
    let ghost hi = lo + span - 1;
    let ghost old_grid = pick_grid::<N>(cards, lo, hi);
    let ghost grid = pick_grid::<N>(cards.push(v), lo, hi);
    let n_new: usize = rows.len();
    assert(cards.push(v).drop_last() =~= cards);
    let mut r: Vec<Vec<N>> = Vec::new();
    r.push(copied(&rows[0]));
    assert(row_is(rows@[0]@, lo, hi, 0, old_grid));
    assert(row_is(r@[0]@, lo, hi, 0, grid));
    let mut n: usize = 1;
    while n <= n_new
        invariant
            1 <= n <= n_new + 1,
            n_new == rows.len(),
            n_new == cards.len() + 1,
            n_new <= u16::MAX,
            1 <= span <= 0x1_0000,
            hi == lo + span - 1,
            cards.push(v).drop_last() == cards,
            old_grid == pick_grid::<N>(cards, lo, hi),
            grid == pick_grid::<N>(cards.push(v), lo, hi),
            rows_are(rows@, lo, hi, cards.len() as int, old_grid),
            r.len() == n,
            forall|m: int| 0 <= m < n ==> row_is(#[trigger] r@[m]@, lo, hi, m, grid),
        decreases n_new + 1 - n,
    {
        let keep: N = N::ratio((n_new - n) as i64, n_new as i64);
        let take: N = N::ratio(n as i64, n_new as i64);
        assert(row_is(rows@[n - 1]@, lo, hi, n - 1, old_grid));
        let row: Vec<N> = if n < n_new {
            assert(row_is(rows@[n as int]@, lo, hi, n as int, old_grid));
            fold_row(&rows[n], &rows[n - 1], v as i64, keep, take)
        } else {
            let here: Vec<N> = zeros(span);
            fold_row(&here, &rows[n - 1], v as i64, keep, take)
        };
        proof {
            assert forall|i: int| 0 <= i < row.len() implies #[trigger] row@[i] == grid(
                lo + i,
                n as int,
            ) by {
                let prev = rows@[n - 1]@;
                let at = i - v;
                if 0 <= at < prev.len() {
                    assert(prev[at] == old_grid(lo + at, n - 1));
                }
                assert(at_or_zero(prev, at) == pick_chance::<N>(cards, lo, hi, lo + i - v, n - 1));
                let here = pick_chance::<N>(cards, lo, hi, lo + i, n as int);
                if n < n_new {
                    assert(rows@[n as int]@[i] == old_grid(lo + i, n as int));
                } else {
                    assert(here == zero::<N>());
                }
                assert(cards.push(v).last() == v && cards.push(v).len() == n_new);
                assert(row@[i] == here.times_spec(keep).plus_spec(
                    pick_chance::<N>(cards, lo, hi, lo + i - v, n - 1).times_spec(take),
                ));
                assert(grid(lo + i, n as int) == pick_chance::<N>(cards.push(v), lo, hi, lo + i, n as int));
            }
        }
        r.push(row);
        n += 1;
    }
    r
}

/// The row for `n` cards once a card that counts `v` has gone, from the row
/// before and the new row for one card fewer.
fn thin_row<N: Scalar>(here: &Vec<N>, prev: &Vec<N>, v: i64, keep: N, take: N) -> (r: Vec<N>)
    requires
        here.len() <= 0x1_0000,
        prev.len() <= 0x1_0000,
        -0x8000 <= v <= 0x8000,
    ensures
        r.len() == here.len(),
        forall|i: int|
            0 <= i < r.len() ==> #[trigger] r@[i] == here@[i].times_spec(keep).minus_spec(
                at_or_zero(prev@, i - v).times_spec(take),
            ),
{
    let mut r: Vec<N> = Vec::new();
    let mut i: usize = 0;
    while i < here.len()
        invariant
            i <= here.len(),
            r.len() == i,
            here.len() <= 0x1_0000,
            prev.len() <= 0x1_0000,
            -0x8000 <= v <= 0x8000,
            forall|j: int|
                0 <= j < i ==> #[trigger] r@[j] == here@[j].times_spec(keep).minus_spec(
                    at_or_zero(prev@, j - v).times_spec(take),
                ),
        decreases here.len() - i,
    {
        let p: N = get_or_zero(prev, i as i64 - v);
        r.push(here[i].times(keep).minus(p.times(take)));
        i += 1;
    }
    r
}

/// A row read from a turning point back.
fn mirror_row<N: Scalar>(row: &Vec<N>, turn: i64) -> (r: Vec<N>)
    requires
        row.len() <= 0x1_0000,
        -0x10_0000 <= turn <= 0x10_0000,
    ensures
        r.len() == row.len(),
        forall|i: int| 0 <= i < r.len() ==> #[trigger] r@[i] == at_or_zero(row@, turn - i),
{
    let mut r: Vec<N> = Vec::new();
    let mut i: usize = 0;
    while i < row.len()
        invariant
            i <= row.len(),
            r.len() == i,
            row.len() <= 0x1_0000,
            -0x10_0000 <= turn <= 0x10_0000,
            forall|j: int| 0 <= j < i ==> #[trigger] r@[j] == at_or_zero(row@, turn - j),
        decreases row.len() - i,
    {
        r.push(get_or_zero(row, turn - i as i64));
        i += 1;
    }
    r
}

/// The rows of a pool once a card that counts `v` has gone, where the cards left
/// count `left` in all.
fn thin_rows<N: Scalar>(
    rows: &Vec<Vec<N>>,
    span: usize,
    lo: i64,
    left: i64,
    v: i16,
    Ghost(grid): Ghost<Grid<N>>,
) -> (r: Vec<Vec<N>>)
    requires
        1 <= span <= 0x1_0000,
        -0x8000 <= lo <= 0,
        -0x2_0000 <= left <= 0x2_0000,
        2 <= rows.len() <= 0x1_0000,
        rows_are(rows@, lo as int, lo + span - 1, rows.len() - 1, grid),
    ensures
        rows_are(
            r@,
            lo as int,
            lo + span - 1,
            rows.len() - 2,
            thinned::<N>(grid, lo as int, lo + span - 1, rows.len() - 1, left + v, v as int),
        ),
{
    let ghost hi = lo + span - 1;
    let big_n: usize = rows.len() - 1;
    let m: usize = big_n - 1;
    let half: usize = m / 2;
    let ghost new_grid = thinned::<N>(grid, lo as int, hi, big_n as int, left + v, v as int);
    let turn: i64 = left - 2 * lo;
    let none: Vec<N> = Vec::new();
    let mut r: Vec<Vec<N>> = Vec::new();
    let mut n: usize = 0;
    while n <= m
        invariant
            n <= m + 1,
            1 <= span <= 0x1_0000,
            -0x8000 <= lo <= 0,
            -0x2_0000 <= left <= 0x2_0000,
            2 <= rows.len() <= 0x1_0000,
            rows_are(rows@, lo as int, hi, big_n as int, grid),
            hi == lo + span - 1,
            big_n == rows.len() - 1,
            m == big_n - 1,
            half == m / 2,
            turn == left - 2 * lo,
            none@.len() == 0,
            new_grid == thinned::<N>(grid, lo as int, hi, big_n as int, left + v, v as int),
            r.len() == n,
            forall|k: int| 0 <= k < n ==> row_is(#[trigger] r@[k]@, lo as int, hi, k, new_grid),
        decreases m + 1 - n,
    {
        let row: Vec<N> = if n <= half {
            let den: usize = big_n - n;
            let keep: N = N::ratio(big_n as i64, den as i64);
            let take: N = N::ratio(n as i64, den as i64);
            assert(row_is(rows@[n as int]@, lo as int, hi, n as int, grid));
            let row: Vec<N> = if n == 0 {
                thin_row(&rows[n], &none, v as i64, keep, take)
            } else {
                assert(row_is(r@[n - 1]@, lo as int, hi, n - 1, new_grid));
                thin_row(&rows[n], &r[n - 1], v as i64, keep, take)
            };
            proof {
                assert forall|i: int| 0 <= i < row.len() implies #[trigger] row@[i] == new_grid(
                    lo + i,
                    n as int,
                ) by {
                    let at = i - v;
                    let took = if n == 0 {
                        zero::<N>()
                    } else {
                        thinned_low::<N>(
                            grid,
                            lo as int,
                            hi,
                            big_n as int,
                            v as int,
                            lo + i - v,
                            n - 1,
                        )
                    };
                    if n > 0 {
                        let prev = r@[n - 1]@;
                        if 0 <= at < prev.len() {
                            assert(prev[at] == new_grid(lo + at, n - 1));
                        }
                        assert(at_or_zero(prev, at) == took);
                    }
                    assert(rows@[n as int]@[i] == grid(lo + i, n as int));
                    assert(row@[i] == grid(lo + i, n as int).times_spec(keep).minus_spec(
                        took.times_spec(take),
                    ));
                    assert(new_grid(lo + i, n as int) == thinned_low::<N>(
                        grid,
                        lo as int,
                        hi,
                        big_n as int,
                        v as int,
                        lo + i,
                        n as int,
                    ));
                }
            }
            row
        } else {
            assert(row_is(r@[m - n]@, lo as int, hi, m - n, new_grid));
            let row: Vec<N> = mirror_row(&r[m - n], turn);
            proof {
                assert forall|i: int| 0 <= i < row.len() implies #[trigger] row@[i] == new_grid(
                    lo + i,
                    n as int,
                ) by {
                    let other = r@[m - n]@;
                    let at = turn - i;
                    if 0 <= at < other.len() {
                        assert(other[at] == new_grid(lo + at, m - n));
                    }
                }
            }
            row
        };
        r.push(row);
        n += 1;
    }
    r
}

/// The bounds of a pool's counts have zero between them, and the counts of any
/// of its cards.
pub proof fn counts_are_bounded(values: Seq<i16>, t: Tally, root: Tally, k: int)
    requires
        t.len() == 10,
        root.len() == 10,
        forall|i: int| 0 <= i < 10 ==> #[trigger] t[i] <= root[i],
        0 <= k <= 10,
    ensures
        low_upto(values, root, k) <= 0 <= high_upto(values, root, k),
        low_upto(values, root, k) <= count_upto(values, t, k) <= high_upto(values, root, k),
    decreases k,
{
    if k > 0 {
        counts_are_bounded(values, t, root, k - 1);
        let v = values[k - 1] as int;
        let a = t[k - 1] as int;
        let b = root[k - 1] as int;
        assert(v * b >= 0 ==> 0 <= v * a <= v * b) by (nonlinear_arith)
            requires
                0 <= a <= b,
        ;
        assert(v * b <= 0 ==> v * b <= v * a <= 0) by (nonlinear_arith)
            requires
                0 <= a <= b,
        ;
    }
}

/// There is one value for each card.
pub proof fn pool_cards_count(values: Seq<i16>, t: Tally)
    requires
        t.len() == 10,
    ensures
        pool_cards(values, t).len() == size(t),
{
    reveal_with_fuel(cards_upto, 11);
}

/// What one card counts.
pub proof fn count_of_single(values: Seq<i16>, card: Card, k: int)
    requires
        card.valid(),
        0 <= k <= 10,
    ensures
        count_upto(values, single(card), k) == if card.rank() < k {
            values[card.rank()] as int
        } else {
            0
        },
    decreases k,
{
    if k > 0 {
        count_of_single(values, card, k - 1);
        let v = values[k - 1] as int;
        let one = single(card)[k - 1] as int;
        assert(one == if k - 1 == card.rank() { 1int } else { 0 });
        assert(v * one == if one == 1 { v } else { 0 }) by (nonlinear_arith)
            requires
                one == 1 || one == 0,
        ;
    }
}

/// Taking a card out takes its value off the count.
pub proof fn count_without(values: Seq<i16>, t: Tally, card: Card)
    requires
        t.len() == 10,
        card.valid(),
        t[card.rank()] > 0,
    ensures
        count_of(values, taken(t, single(card))) == count_of(values, t) - values[card.rank()],
        size(taken(t, single(card))) == size(t) - 1,
{
    let rest = taken(t, single(card));
    assert(crate::shoe::joined(rest, single(card)) =~= t);
    crate::count::law_counts_are_additive(values, rest, single(card), 10);
    count_of_single(values, card, 10);
}

/// Whether a pool is a full pool without the cards that count these: of each class it has
/// lost as many as are gone.
pub open spec fn is_left(values: Seq<i16>, root: Tally, pool: Tally, gone: Seq<i16>) -> bool {
    forall|w: i16|
        #[trigger] class_upto(values, root, w, 10) == class_upto(values, pool, w, 10)
            + gone.to_multiset().count(w)
}

/// Taking a card out takes it out of its class.
proof fn class_without(values: Seq<i16>, t: Tally, card: Card, w: i16, k: int)
    requires
        t.len() == 10,
        card.valid(),
        t[card.rank()] > 0,
        0 <= k <= 10,
    ensures
        class_upto(values, t, w, k) == class_upto(values, taken(t, single(card)), w, k) + if card.rank()
            < k && values[card.rank()] == w {
            1nat
        } else {
            0
        },
    decreases k,
{
    if k > 0 {
        class_without(values, t, card, w, k - 1);
        assert(single(card)[k - 1] == if k - 1 == card.rank() {
            1nat
        } else {
            0
        });
    }
}

/// What is left of a pool when one card more is taken out.
proof fn one_more_gone(values: Seq<i16>, root: Tally, pool: Tally, gone: Seq<i16>, card: Card)
    requires
        pool.len() == 10,
        card.valid(),
        pool[card.rank()] > 0,
        is_left(values, root, pool, gone),
    ensures
        is_left(values, root, taken(pool, single(card)), gone.push(values[card.rank()])),
{
    broadcast use vstd::seq_lib::group_to_multiset_ensures;
    let v = values[card.rank()];
    let less = taken(pool, single(card));
    assert forall|w: i16|
        #[trigger] class_upto(values, root, w, 10) == class_upto(values, less, w, 10) + gone.push(
            v,
        ).to_multiset().count(w) by {
        class_without(values, pool, card, w, 10);
    }
}

/// The count table of a pool, brought down from a full pool by taking cards out.
pub struct CountW<N: Scalar> {
    value_of_rank: [i16; 10],
    deck: CardCol,
    s_min: i64,
    s_max: i64,
    rows: Arc<Vec<Vec<N>>>,
    root: Ghost<Tally>,
    gone: Ghost<Seq<i16>>,
}

impl<N: Scalar> CountW<N> {
    /// What a card of each rank counts.
    pub closed spec fn values(&self) -> Seq<i16> {
        self.value_of_rank@
    }

    /// The cards in the pool.
    pub closed spec fn pool(&self) -> Tally {
        self.deck@
    }

    /// The pool that the table was built for.
    pub closed spec fn root(&self) -> Tally {
        self.root@
    }

    /// What the cards that have been taken out count, one after the other.
    pub closed spec fn gone(&self) -> Seq<i16> {
        self.gone@
    }

    /// The chances in the table.
    pub open spec fn grid(&self) -> Grid<N> {
        grid_after::<N>(self.values(), self.root(), self.gone())
    }

    /// Whether the table belongs to the pool.
    pub closed spec fn wf(&self) -> bool {
        &&& countable(self.values(), self.root())
        &&& forall|i: int| 0 <= i < 10 ==> #[trigger] self.pool()[i] <= self.root()[i]
        &&& self.s_min == low(self.values(), self.root())
        &&& self.s_max == high(self.values(), self.root())
        &&& size(self.pool()) == size(self.root()) - self.gone().len()
        &&& count_of(self.values(), self.pool()) == count_of(self.values(), self.root())
            - value_sum(self.gone())
        &&& is_left(self.values(), self.root(), self.pool(), self.gone())
        &&& rows_are(
            self.rows@,
            self.s_min as int,
            self.s_max as int,
            size(self.pool()) as int,
            self.grid(),
        )
    }

    /// What the table's invariant says of its pool.
    pub proof fn pool_facts(&self)
        requires
            self.wf(),
        ensures
            countable(self.values(), self.root()),
            forall|i: int| 0 <= i < 10 ==> #[trigger] self.pool()[i] <= self.root()[i],
            self.pool().len() == 10,
            size(self.pool()) == size(self.root()) - self.gone().len(),
            count_of(self.values(), self.pool()) == count_of(self.values(), self.root())
                - value_sum(self.gone()),
            is_left(self.values(), self.root(), self.pool(), self.gone()),
    {
    }

    fn span(&self) -> (r: usize)
        requires
            self.wf(),
        ensures
            r == self.s_max - self.s_min + 1,
            1 <= r <= 0x8000,
            -0x8000 <= self.s_min <= 0 <= self.s_max <= 0x8000,
    {
        proof {
            counts_are_bounded(self.values(), self.pool(), self.root(), 10);
        }
        (self.s_max - self.s_min + 1) as usize
    }

    /// The table of a pool.
    pub fn build(value_of_rank: [i16; 10], deck: CardCol) -> (r: Self)
        requires
            countable(value_of_rank@, deck@),
        ensures
            r.wf(),
            r.values() == value_of_rank@,
            r.root() == deck@,
            r.pool() == deck@,
            r.gone() == Seq::<i16>::empty(),
    {
        let ghost values = value_of_rank@;
        let ghost t = deck@;
        let mut s_min: i64 = 0;
        let mut s_max: i64 = 0;
        let mut r: usize = 0;
        while r < N_RANKS
            invariant
                r <= 10,
                values == value_of_rank@,
                t == deck@,
                s_min == low_upto(values, t, r as int),
                s_max == high_upto(values, t, r as int),
                -0x8000_0000 * r <= s_min <= 0,
                0 <= s_max <= 0x8000_0000 * r,
            decreases 10 - r,
        {
            let v: i64 = value_of_rank[r] as i64;
            let q: i64 = deck.get_count_i(r) as i64;
            assert(-0x8000_0000 <= v * q <= 0x8000_0000) by (nonlinear_arith)
                requires
                    -0x8000 <= v <= 0x8000,
                    0 <= q <= 0x1_0000,
            ;
            let c: i64 = v * q;
            assert(c == values[r as int] * t[r as int]);
            if c < 0 {
                s_min = s_min + c;
            } else {
                s_max = s_max + c;
            }
            r += 1;
        }
        let ghost lo = s_min as int;
        let ghost hi = s_max as int;
        proof {
            counts_are_bounded(values, t, t, 10);
        }
        let span: usize = (s_max - s_min + 1) as usize;
        let mut first: Vec<N> = zeros(span);
        let seed: usize = (0 - s_min) as usize;
        first.set(seed, from_whole(1));
        let mut rows: Vec<Vec<N>> = Vec::new();
        rows.push(first);
        let ghost none = Seq::<i16>::empty();
        proof {
            assert(row_is(rows@[0]@, lo, hi, 0, pick_grid::<N>(none, lo, hi)));
            assert(cards_upto(values, t, 0) =~= none);
        }
        r = 0;
        while r < N_RANKS
            invariant
                r <= 10,
                values == value_of_rank@,
                t == deck@,
                t.len() == 10,
                size(t) <= u16::MAX,
                lo == s_min,
                hi == s_max,
                lo <= 0 <= hi,
                span == hi - lo + 1,
                1 <= span <= 0x8000,
                rows_are(
                    rows@,
                    lo,
                    hi,
                    cards_upto(values, t, r as int).len() as int,
                    pick_grid::<N>(cards_upto(values, t, r as int), lo, hi),
                ),
            decreases 10 - r,
        {
            let v: i16 = value_of_rank[r];
            let q: u16 = deck.get_count_i(r);
            let ghost before = cards_upto(values, t, r as int);
            let mut j: u16 = 0;
            proof {
                cards_grow(values, t, r + 1, 10);
                pool_cards_count(values, t);
                assert(before + Seq::new(0nat, |i: int| v) =~= before);
            }
            while j < q
                invariant
                    j <= q,
                    size(t) <= u16::MAX,
                    hi == lo + span - 1,
                    1 <= span <= 0x8000,
                    before.len() + q <= size(t),
                    rows_are(
                        rows@,
                        lo,
                        hi,
                        (before.len() + j) as int,
                        pick_grid::<N>(before + Seq::new(j as nat, |i: int| v), lo, hi),
                    ),
                decreases q - j,
            {
                let ghost cards = before + Seq::new(j as nat, |i: int| v);
                rows = fold_in_card(&rows, span, v, Ghost(cards), Ghost(lo));
                assert(cards.push(v) =~= before + Seq::new((j + 1) as nat, |i: int| v));
                j += 1;
            }
            assert(before + Seq::new(q as nat, |i: int| v) =~= cards_upto(values, t, r + 1));
            r += 1;
        }
        proof {
            pool_cards_count(values, t);
            assert(none.to_multiset() =~= Multiset::empty()) by {
                broadcast use vstd::seq_lib::group_to_multiset_ensures;

            }
        }
        CountW {
            value_of_rank,
            deck,
            s_min,
            s_max,
            rows: Arc::new(rows),
            root: Ghost(t),
            gone: Ghost(none),
        }
    }
}

impl<N: Scalar> CountW<N> {
    /// The cards in the pool.
    pub fn deck(&self) -> (r: CardCol)
        ensures
            r@ == self.pool(),
    {
        self.deck
    }

    /// What a card of each rank counts.
    pub fn value_of_rank(&self) -> (r: [i16; 10])
        ensures
            r@ == self.values(),
    {
        self.value_of_rank
    }

    /// The least and the greatest count in the table.
    pub fn bounds(&self) -> (r: (i64, i64))
        requires
            self.wf(),
        ensures
            r.0 == low(self.values(), self.root()),
            r.1 == high(self.values(), self.root()),
            -0x8000 <= r.0 <= 0 <= r.1 <= 0x8000,
    {
        let _ = self.span();
        (self.s_min, self.s_max)
    }

    /// The same table once more.
    pub fn duplicate(&self) -> (r: Self)
        ensures
            r == *self,
    {
        CountW {
            value_of_rank: self.value_of_rank,
            deck: self.deck,
            s_min: self.s_min,
            s_max: self.s_max,
            rows: self.rows.clone(),
            root: Ghost(self.root@),
            gone: Ghost(self.gone@),
        }
    }

    /// The chance that `n` cards picked from the pool have the count `s`: zero for
    /// a count out of bounds.
    pub fn at(&self, s: i64, n: u16) -> (r: N)
        requires
            self.wf(),
            n <= size(self.pool()),
        ensures
            r == if low(self.values(), self.root()) <= s <= high(self.values(), self.root()) {
                (self.grid())(s as int, n as int)
            } else {
                zero::<N>()
            },
    {
        if s < self.s_min || s > self.s_max {
            return from_whole(0);
        }
        let _ = self.span();
        assert(row_is(
            self.rows@[n as int]@,
            self.s_min as int,
            self.s_max as int,
            n as int,
            self.grid(),
        ));
        let i: usize = (s - self.s_min) as usize;
        self.rows[n as usize][i]
    }

    /// The count of all the cards in the pool.
    pub fn pool_count(&self) -> (r: i64)
        requires
            self.wf(),
        ensures
            r == count_of(self.values(), self.pool()),
            -0x8000 <= r <= 0x8000,
    {
        proof {
            counts_are_bounded(self.values(), self.pool(), self.root(), 10);
        }
        internal_count(&self.deck, &self.value_of_rank)
    }

    /// The rows of the pool without one card that counts `v`.
    fn deconv(&self, v: i16) -> (r: Vec<Vec<N>>)
        requires
            self.wf(),
            size(self.pool()) > 0,
        ensures
            rows_are(
                r@,
                self.s_min as int,
                self.s_max as int,
                size(self.pool()) - 1,
                thinned::<N>(
                    self.grid(),
                    self.s_min as int,
                    self.s_max as int,
                    size(self.pool()) as int,
                    count_of(self.values(), self.pool()),
                    v as int,
                ),
            ),
    {
        let span: usize = self.span();
        let left: i64 = self.pool_count() - v as i64;
        thin_rows(&self.rows, span, self.s_min, left, v, Ghost(self.grid()))
    }

    /// Take one card of a rank out of the pool.
    pub fn remove_card(&mut self, rank: &Card)
        requires
            old(self).wf(),
            rank.valid(),
            old(self).pool()[rank.rank()] > 0,
        ensures
            final(self).wf(),
            final(self).values() == old(self).values(),
            final(self).root() == old(self).root(),
            final(self).pool() == taken(old(self).pool(), single(*rank)),
            final(self).gone() == old(self).gone().push(old(self).values()[rank.rank()]),
    {
        let r: usize = rank.rank_index();
        let v: i16 = self.value_of_rank[r];
        proof {
            count_without(self.values(), self.pool(), *rank);
            crate::shoe::rank_at_most_size(self.pool(), rank.rank());
        }
        let ghost before = self.gone@;
        let rows: Vec<Vec<N>> = self.deconv(v);
        let one_card = CardCol::new().with(*rank);
        self.deck = self.deck - one_card;
        self.rows = Arc::new(rows);
        self.gone = Ghost(before.push(v));
        proof {
            assert(before.push(v).drop_last() =~= before);
            one_more_gone(old(self).values(), self.root(), old(self).pool(), before, *rank);
        }
    }

    /// For each rank, how many cards in a pool count the same.
    pub fn class_counts_of(&self, pool: &CardCol) -> (r: [u16; 10])
        requires
            size(pool@) <= u16::MAX,
        ensures
            r@.map_values(|n: u16| n as nat) == class_counts(self.values(), pool@),
    {
        let mut out: [u16; 10] = [0; 10];
        let mut r: usize = 0;
        while r < N_RANKS
            invariant
                r <= 10,
                size(pool@) <= u16::MAX,
                forall|j: int|
                    0 <= j < r ==> #[trigger] out@[j] == class_upto(
                        self.values(),
                        pool@,
                        self.values()[j],
                        10,
                    ),
            decreases 10 - r,
        {
            let n: u16 = class_count(&self.value_of_rank, pool, self.value_of_rank[r]);
            out[r] = n;
            r += 1;
        }
        assert(out@.map_values(|n: u16| n as nat) =~= class_counts(self.values(), pool@));
        out
    }

    /// The scale of a value from the rows of the pool without one card of it.
    fn scan(
        &self,
        left: &Vec<Vec<N>>,
        v: i16,
        frame: CountFrame,
        pen: Penetration,
        drawn_sum: i16,
        drawn_cards: u16,
        Ghost(grid): Ghost<Grid<N>>,
    ) -> (r: N)
        requires
            self.wf(),
            size(self.pool()) > 0,
            rows_are(
                left@,
                self.s_min as int,
                self.s_max as int,
                size(self.pool()) - 1,
                grid,
            ),
        ensures
            r == scale_upto::<N>(
                grid,
                self.s_min as int,
                self.s_max as int,
                size(self.pool()) as int,
                v as int,
                question(frame, pen, drawn_sum, drawn_cards),
                self.s_max as int,
                size(self.pool()) as int,
            ),
    {
        let ghost q = question(frame, pen, drawn_sum, drawn_cards);
        let ghost lo = self.s_min as int;
        let ghost hi = self.s_max as int;
        let big_n: u16 = self.deck.len() as u16;
        let _ = self.span();
        let mut acc: N = from_whole(0);
        let mut s: i64 = self.s_min;
        while s <= self.s_max
            invariant
                self.wf(),
                lo == self.s_min,
                hi == self.s_max,
                lo <= s <= hi + 1,
                -0x8000 <= lo <= 0 <= hi <= 0x8000,
                big_n == size(self.pool()),
                big_n > 0,
                q == question(frame, pen, drawn_sum, drawn_cards),
                rows_are(left@, lo, hi, big_n - 1, grid),
                acc == scale_upto::<N>(grid, lo, hi, big_n as int, v as int, q, s - 1, big_n as int),
            decreases hi + 1 - s,
        {
            let at: i64 = s - v as i64 - self.s_min;
            let mut n: u16 = 0;
            assert(acc == scale_upto::<N>(grid, lo, hi, big_n as int, v as int, q, s as int, 0));
            while n < big_n
                invariant
                    n <= big_n,
                    lo <= s <= hi,
                    lo == self.s_min,
                    hi == self.s_max,
                    -0x8000 <= lo <= 0 <= hi <= 0x8000,
                    at == s - v - lo,
                    q == question(frame, pen, drawn_sum, drawn_cards),
                    rows_are(left@, lo, hi, big_n - 1, grid),
                    acc == scale_upto::<N>(
                        grid,
                        lo,
                        hi,
                        big_n as int,
                        v as int,
                        q,
                        s as int,
                        n as int,
                    ),
                decreases big_n - n,
            {
                let root_s: i32 = s as i32 + drawn_sum as i32;
                let root_n: i32 = n as i32 + 1 + drawn_cards as i32;
                if 0 <= at && at <= self.s_max - self.s_min && frame.accepts(root_s, root_n)
                    && pen.admits(n + 1, big_n) {
                    assert(row_is(left@[n as int]@, lo, hi, n as int, grid));
                    assert(left@[n as int]@[at as int] == grid(lo + at, n as int));
                    acc = acc.plus(left[n as usize][at as usize]);
                }
                n += 1;
            }
            s += 1;
        }
        acc
    }

    /// The scales of the ranks for each of several frames, from one pass over
    /// the table for each value.
    pub fn value_scales_band(
        &self,
        frames: &Vec<CountFrame>,
        pen: Penetration,
        drawn_sum: i16,
        drawn_cards: u16,
    ) -> (r: Vec<[N; 10]>)
        requires
            self.wf(),
        ensures
            r.len() == frames.len(),
            forall|i: int|
                0 <= i < r.len() ==> (#[trigger] r@[i])@ == self.scales_spec(
                    question(frames@[i], pen, drawn_sum, drawn_cards),
                ),
    {
        let classes: [u16; 10] = {
            proof {
                self.pool_facts();
            }
            self.class_counts_of(&self.deck)
        };
        let ghost counts = class_counts(self.values(), self.pool());
        assert forall|j: int| 0 <= j < 10 implies #[trigger] classes@[j] == counts[j] by {
            assert(classes@.map_values(|n: u16| n as nat)[j] == classes@[j]);
        }
        let zero_n: N = from_whole(0);
        let mut cols: Vec<Vec<N>> = Vec::new();
        let mut r: usize = 0;
        while r < N_RANKS
            invariant
                self.wf(),
                r <= 10,
                cols.len() == r,
                counts == class_counts(self.values(), self.pool()),
                forall|j: int| 0 <= j < 10 ==> #[trigger] classes@[j] == counts[j],
                forall|j: int|
                    0 <= j < r ==> self.is_column(
                        (#[trigger] cols@[j])@,
                        j,
                        frames@,
                        pen,
                        drawn_sum,
                        drawn_cards,
                    ),
            decreases 10 - r,
        {
            let v: i16 = self.value_of_rank[r];
            let twin = self.twin_below(r);
            let col: Vec<N> = if classes[r] == 0 {
                zeros(frames.len())
            } else if twin < r {
                proof {
                    assert(self.is_column(
                        cols@[twin as int]@,
                        twin as int,
                        frames@,
                        pen,
                        drawn_sum,
                        drawn_cards,
                    ));
                    assert(counts[r as int] == counts[twin as int]);
                }
                copied(&cols[twin])
            } else {
                proof {
                    class_at_most_size(self.values(), self.pool(), v);
                }
                let rows = self.deconv(v);
                let ghost left = thinned::<N>(
                    self.grid(),
                    self.s_min as int,
                    self.s_max as int,
                    size(self.pool()) as int,
                    count_of(self.values(), self.pool()),
                    v as int,
                );
                let mut col: Vec<N> = Vec::new();
                let mut f: usize = 0;
                while f < frames.len()
                    invariant
                        self.wf(),
                        r < 10,
                        f <= frames.len(),
                        size(self.pool()) > 0,
                        v == self.values()[r as int],
                        counts == class_counts(self.values(), self.pool()),
                        counts[r as int] > 0,
                        left == thinned::<N>(
                            self.grid(),
                            self.s_min as int,
                            self.s_max as int,
                            size(self.pool()) as int,
                            count_of(self.values(), self.pool()),
                            v as int,
                        ),
                        rows_are(
                            rows@,
                            self.s_min as int,
                            self.s_max as int,
                            size(self.pool()) - 1,
                            left,
                        ),
                        col.len() == f,
                        forall|i: int|
                            0 <= i < f ==> #[trigger] col@[i] == self.scales_spec(
                                question(frames@[i], pen, drawn_sum, drawn_cards),
                            )[r as int],
                    decreases frames.len() - f,
                {
                    col.push(
                        self.scan(&rows, v, frames[f], pen, drawn_sum, drawn_cards, Ghost(left)),
                    );
                    f += 1;
                }
                col
            };
            assert(self.is_column(col@, r as int, frames@, pen, drawn_sum, drawn_cards));
            cols.push(col);
            r += 1;
        }
        let mut f: usize = 0;
        let mut out: Vec<[N; 10]> = Vec::new();
        while f < frames.len()
            invariant
                f <= frames.len(),
                cols.len() == 10,
                out.len() == f,
                forall|j: int|
                    0 <= j < 10 ==> self.is_column(
                        (#[trigger] cols@[j])@,
                        j,
                        frames@,
                        pen,
                        drawn_sum,
                        drawn_cards,
                    ),
                forall|i: int|
                    0 <= i < f ==> (#[trigger] out@[i])@ == self.scales_spec(
                        question(frames@[i], pen, drawn_sum, drawn_cards),
                    ),
            decreases frames.len() - f,
        {
            let ghost goal = self.scales_spec(question(frames@[f as int], pen, drawn_sum, drawn_cards));
            let mut row: [N; 10] = [zero_n; 10];
            let mut j: usize = 0;
            while j < N_RANKS
                invariant
                    j <= 10,
                    f < frames.len(),
                    cols.len() == 10,
                    goal == self.scales_spec(
                        question(frames@[f as int], pen, drawn_sum, drawn_cards),
                    ),
                    forall|k: int|
                        0 <= k < 10 ==> self.is_column(
                            (#[trigger] cols@[k])@,
                            k,
                            frames@,
                            pen,
                            drawn_sum,
                            drawn_cards,
                        ),
                    forall|k: int| 0 <= k < j ==> #[trigger] row@[k] == goal[k],
                decreases 10 - j,
            {
                assert(self.is_column(
                    cols@[j as int]@,
                    j as int,
                    frames@,
                    pen,
                    drawn_sum,
                    drawn_cards,
                ));
                assert(cols@[j as int]@[f as int] == goal[j as int]);
                row[j] = cols[j][f];
                j += 1;
            }
            assert(row@ =~= goal);
            out.push(row);
            f += 1;
        }
        out
    }

    /// The scales of the ranks.
    pub open spec fn scales_spec(&self, q: Question) -> Seq<N> {
        scales::<N>(
            self.grid(),
            self.values(),
            self.root(),
            class_counts(self.values(), self.pool()),
            size(self.pool()) as int,
            count_of(self.values(), self.pool()),
            q,
        )
    }

    spec fn is_column(
        &self,
        col: Seq<N>,
        r: int,
        frames: Seq<CountFrame>,
        pen: Penetration,
        drawn_sum: i16,
        drawn_cards: u16,
    ) -> bool {
        col.len() == frames.len() && forall|i: int|
            0 <= i < col.len() ==> #[trigger] col[i] == self.scales_spec(
                question(frames[i], pen, drawn_sum, drawn_cards),
            )[r]
    }

    /// The first rank below this one that counts the same, or the rank itself.
    fn twin_below(&self, r: usize) -> (t: usize)
        requires
            r < 10,
        ensures
            t <= r,
            self.values()[t as int] == self.values()[r as int],
            forall|j: int|
                0 <= j < t ==> #[trigger] self.values()[j] != self.values()[r as int],
    {
        let mut t: usize = 0;
        while t < r
            invariant
                t <= r,
                r < 10,
                forall|j: int|
                    0 <= j < t ==> #[trigger] self.values()[j] != self.values()[r as int],
            decreases r - t,
        {
            if self.value_of_rank[t] == self.value_of_rank[r] {
                return t;
            }
            t += 1;
        }
        r
    }

    /// The scales of the ranks.
    pub fn value_scales(
        &self,
        frame: CountFrame,
        pen: Penetration,
        drawn_sum: i16,
        drawn_cards: u16,
    ) -> (r: [N; 10])
        requires
            self.wf(),
        ensures
            r@ == self.scales_spec(question(frame, pen, drawn_sum, drawn_cards)),
    {
        let frames: Vec<CountFrame> = vec![frame];
        let all = self.value_scales_band(&frames, pen, drawn_sum, drawn_cards);
        all[0]
    }

    /// The chance of each rank to come next, given the frame.
    pub fn draw_dist(&self, frame: CountFrame, pen: Penetration) -> (r: [N; 10])
        requires
            self.wf(),
        ensures
            r@ == rank_chances(
                self.pool(),
                self.scales_spec(question(frame, pen, 0, 0)),
            ),
    {
        dist_from_scales(&self.deck, &self.value_scales(frame, pen, 0, 0))
    }

    /// The chance of each rank to come next, given each of several frames.
    pub fn draw_dist_band(&self, frames: &Vec<CountFrame>, pen: Penetration) -> (r: Vec<[N; 10]>)
        requires
            self.wf(),
        ensures
            r.len() == frames.len(),
            forall|i: int|
                0 <= i < r.len() ==> (#[trigger] r@[i])@ == rank_chances(
                    self.pool(),
                    self.scales_spec(question(frames@[i], pen, 0, 0)),
                ),
    {
        let all = self.value_scales_band(frames, pen, 0, 0);
        let mut out: Vec<[N; 10]> = Vec::new();
        let mut i: usize = 0;
        while i < all.len()
            invariant
                i <= all.len(),
                all.len() == frames.len(),
                out.len() == i,
                forall|j: int|
                    0 <= j < all.len() ==> (#[trigger] all@[j])@ == self.scales_spec(
                        question(frames@[j], pen, 0, 0),
                    ),
                forall|j: int|
                    0 <= j < i ==> (#[trigger] out@[j])@ == rank_chances(
                        self.pool(),
                        self.scales_spec(question(frames@[j], pen, 0, 0)),
                    ),
            decreases all.len() - i,
        {
            out.push(dist_from_scales(&self.deck, &all[i]));
            i += 1;
        }
        out
    }
}

/// The question that a frame asks after these cards have been drawn.
pub open spec fn question(
    frame: CountFrame,
    pen: Penetration,
    drawn_sum: i16,
    drawn_cards: u16,
) -> Question {
    Question { frame, pen, drawn_sum: drawn_sum as int, drawn_cards: drawn_cards as int }
}

/// The count of all the cards of a pool.
pub fn internal_count(deck: &CardCol, value_of_rank: &[i16; 10]) -> (r: i64)
    ensures
        r == count_of(value_of_rank@, deck@),
{
    let mut sum: i64 = 0;
    let mut r: usize = 0;
    while r < N_RANKS
        invariant
            r <= 10,
            sum == count_upto(value_of_rank@, deck@, r as int),
            -0x8000_0000 * r <= sum <= 0x8000_0000 * r,
        decreases 10 - r,
    {
        let v: i64 = value_of_rank[r] as i64;
        let q: i64 = deck.get_count_i(r) as i64;
        assert(-0x8000_0000 <= v * q <= 0x8000_0000) by (nonlinear_arith)
            requires
                -0x8000 <= v <= 0x8000,
                0 <= q <= 0x1_0000,
        ;
        sum = sum + v * q;
        r += 1;
    }
    sum
}

/// No class is larger than the pool.
proof fn class_upto_at_most(values: Seq<i16>, t: Tally, v: i16, k: int)
    requires
        0 <= k <= 10,
    ensures
        class_upto(values, t, v, k) <= ranks_sum(t, k),
    decreases k,
{
    if k > 0 {
        class_upto_at_most(values, t, v, k - 1);
    }
}

spec fn ranks_sum(t: Tally, k: int) -> nat
    decreases k,
{
    if k <= 0 {
        0
    } else {
        ranks_sum(t, k - 1) + t[k - 1]
    }
}

/// No class is larger than the pool.
pub proof fn class_at_most_size(values: Seq<i16>, t: Tally, v: i16)
    requires
        t.len() == 10,
    ensures
        class_upto(values, t, v, 10) <= size(t),
{
    class_upto_at_most(values, t, v, 10);
    reveal_with_fuel(ranks_sum, 11);
}

/// How many cards in a pool count `v`.
fn class_count(values: &[i16; 10], pool: &CardCol, v: i16) -> (r: u16)
    requires
        size(pool@) <= u16::MAX,
    ensures
        r == class_upto(values@, pool@, v, 10),
{
    let mut n: u32 = 0;
    let mut r: usize = 0;
    while r < N_RANKS
        invariant
            r <= 10,
            n == class_upto(values@, pool@, v, r as int),
            n <= 0x1_0000 * r,
        decreases 10 - r,
    {
        if values[r] == v {
            n = n + pool.get_count_i(r) as u32;
        }
        r += 1;
    }
    proof {
        class_at_most_size(values@, pool@, v);
    }
    n as u16
}

/// The chance of each rank from the scales.
pub fn dist_from_scales<N: Scalar>(pool: &CardCol, scales: &[N; 10]) -> (r: [N; 10])
    ensures
        r@ == rank_chances(pool@, scales@),
{
    let zero_n: N = from_whole(0);
    let mut acc: [N; 10] = [zero_n; 10];
    let mut sum: N = from_whole(0);
    let ghost weights = rank_weights(pool@, scales@);
    let mut r: usize = 0;
    while r < N_RANKS
        invariant
            r <= 10,
            weights == rank_weights(pool@, scales@),
            forall|j: int| 0 <= j < r ==> #[trigger] acc@[j] == weights[j],
            sum == total(weights.take(r as int)),
        decreases 10 - r,
    {
        let m: N = from_whole(pool.get_count_i(r) as i64);
        let w: N = m.times(scales[r]);
        assert(w == weights[r as int]);
        acc[r] = w;
        sum = sum.plus(w);
        assert(weights.take(r + 1).drop_last() =~= weights.take(r as int));
        r += 1;
    }
    assert(weights.take(10) =~= weights);
    if zero_n.less(sum) {
        let mut out: [N; 10] = [zero_n; 10];
        let mut k: usize = 0;
        while k < N_RANKS
            invariant
                k <= 10,
                forall|j: int| 0 <= j < 10 ==> #[trigger] acc@[j] == weights[j],
                forall|j: int| 0 <= j < k ==> #[trigger] out@[j] == weights[j].over_spec(sum),
            decreases 10 - k,
        {
            out[k] = acc[k].over(sum);
            k += 1;
        }
        assert(out@ =~= rank_chances(pool@, scales@));
        out
    } else {
        assert(acc@ =~= rank_chances(pool@, scales@));
        acc
    }
}

/// The list of cards grows with the ranks.
proof fn cards_grow(values: Seq<i16>, t: Tally, k: int, m: int)
    requires
        0 <= k <= m,
    ensures
        cards_upto(values, t, k).len() <= cards_upto(values, t, m).len(),
    decreases m - k,
{
    if k < m {
        cards_grow(values, t, k, m - 1);
    }
}

} // verus!
