//! How often each count occurs: the chance that a player who has counted a shoe
//! down holds it.
use crate::count::{CountKind, CountSystemId, Penetration};
use crate::countshoe::{decks_are_countable, CountShoe};
use crate::countw::{high, low, pick_grid, pool_cards, CountW, Grid};
use crate::num::{from_whole, is_nil, is_zero, zero, Scalar};
use crate::shoe::{deck_tally, size, tally_bounds, CardCol};
use vstd::prelude::*;

verus! {

broadcast use tally_bounds;

/// The chances of the picks from a full shoe.
pub open spec fn shoe_grid<N: Scalar>(system: CountSystemId, n_decks: nat) -> Grid<N> {
    let values = system.values();
    let root = deck_tally(n_decks);
    pick_grid::<N>(pool_cards(values, root), low(values, root), high(values, root))
}

/// The weight of the internal count `s` over the sizes up to `n` that may be left.
pub open spec fn count_weight<N: Scalar>(
    grid: Grid<N>,
    pen: Penetration,
    big_n: int,
    s: int,
    n: int,
) -> N
    decreases n + 1,
{
    if n < 0 {
        zero::<N>()
    } else {
        let so_far = count_weight::<N>(grid, pen, big_n, s, n - 1);
        if pen.admits_spec(n, big_n) && !is_nil(grid(s, n)) {
            so_far.plus_spec(grid(s, n))
        } else {
            so_far
        }
    }
}

/// The weight of the sizes below `n` that may be left, from `first` on, and of the
/// counts up to `s` at the size `n`.
pub open spec fn weight_upto<N: Scalar>(
    grid: Grid<N>,
    pen: Penetration,
    lo: int,
    hi: int,
    big_n: int,
    first: int,
    n: int,
    s: int,
) -> N
    decreases n - first, s - lo + 1,
{
    if n < first {
        zero::<N>()
    } else if s < lo {
        if n == first {
            zero::<N>()
        } else {
            weight_upto::<N>(grid, pen, lo, hi, big_n, first, n - 1, hi)
        }
    } else {
        let so_far = weight_upto::<N>(grid, pen, lo, hi, big_n, first, n, s - 1);
        if pen.admits_spec(n, big_n) && !is_nil(grid(s, n)) {
            so_far.plus_spec(grid(s, n))
        } else {
            so_far
        }
    }
}

/// The external counts from `pivot - s` on, in rising order, each with its share of
/// the weight; counts without weight are left out.
pub open spec fn external_shares<N: Scalar>(
    grid: Grid<N>,
    pen: Penetration,
    lo: int,
    hi: int,
    big_n: int,
    pivot: int,
    s: int,
) -> Seq<(i16, N)>
    decreases hi - s,
{
    if s >= hi {
        Seq::empty()
    } else {
        let so_far = external_shares::<N>(grid, pen, lo, hi, big_n, pivot, s + 1);
        let w = count_weight::<N>(grid, pen, big_n, s + 1, big_n);
        let all = weight_upto::<N>(grid, pen, lo, hi, big_n, 0, big_n, hi);
        if zero::<N>().less_spec(w) {
            so_far.push(((pivot - (s + 1)) as i16, w.over_spec(all)))
        } else {
            so_far
        }
    }
}

/// The whole true count at or below the true count of `n` cards with internal
/// count `s`.
pub open spec fn true_bucket(s: int, n: int) -> i16 {
    let t = (-52 * s) / n;
    if t < i16::MIN {
        i16::MIN
    } else if t > i16::MAX {
        i16::MAX
    } else {
        t as i16
    }
}

/// The weight of the true counts whose whole part is `t`, over the sizes below `n`
/// and the counts up to `s` at the size `n`; nothing where there is no such pick.
pub open spec fn bucket_weight<N: Scalar>(
    grid: Grid<N>,
    pen: Penetration,
    lo: int,
    hi: int,
    big_n: int,
    t: int,
    n: int,
    s: int,
) -> Option<N>
    decreases n, s - lo + 1,
{
    if n < 1 {
        None
    } else if s < lo {
        if n == 1 {
            None
        } else {
            bucket_weight::<N>(grid, pen, lo, hi, big_n, t, n - 1, hi)
        }
    } else {
        let so_far = bucket_weight::<N>(grid, pen, lo, hi, big_n, t, n, s - 1);
        if pen.admits_spec(n, big_n) && !is_nil(grid(s, n)) && true_bucket(s, n) == t {
            Some(
                (match so_far {
                    Some(w) => w,
                    None => zero::<N>(),
                }).plus_spec(grid(s, n)),
            )
        } else {
            so_far
        }
    }
}

/// The whole true counts below `t` that occur, in rising order, each with its share
/// of the weight.
pub open spec fn true_shares<N: Scalar>(
    grid: Grid<N>,
    pen: Penetration,
    lo: int,
    hi: int,
    big_n: int,
    t: int,
) -> Seq<(i16, N)>
    decreases t + 0x8000,
{
    if t <= i16::MIN {
        Seq::empty()
    } else {
        let so_far = true_shares::<N>(grid, pen, lo, hi, big_n, t - 1);
        let all = weight_upto::<N>(grid, pen, lo, hi, big_n, 1, big_n, hi);
        match bucket_weight::<N>(grid, pen, lo, hi, big_n, t - 1, big_n, hi) {
            Some(w) => so_far.push(((t - 1) as i16, w.over_spec(all))),
            None => so_far,
        }
    }
}

/// How often each external running count of a shoe occurs.
pub open spec fn running_occurrence<N: Scalar>(
    system: CountSystemId,
    n_decks: nat,
    pen: Penetration,
) -> Seq<(i16, N)> {
    let root = deck_tally(n_decks);
    let lo = low(system.values(), root);
    external_shares::<N>(
        shoe_grid::<N>(system, n_decks),
        pen,
        lo,
        high(system.values(), root),
        size(root) as int,
        system.pivot_spec(n_decks as int),
        lo - 1,
    )
}

/// How often each whole true count of a shoe occurs.
pub open spec fn true_occurrence<N: Scalar>(
    system: CountSystemId,
    n_decks: nat,
    pen: Penetration,
) -> Seq<(i16, N)> {
    let root = deck_tally(n_decks);
    true_shares::<N>(
        shoe_grid::<N>(system, n_decks),
        pen,
        low(system.values(), root),
        high(system.values(), root),
        size(root) as int,
        0x8000,
    )
}

fn table_of<N: Scalar>(system: CountSystemId, n_decks: u8) -> (r: CountW<N>)
    ensures
        r.wf(),
        r.values() == system.values(),
        r.root() == deck_tally(n_decks as nat),
        r.pool() == deck_tally(n_decks as nat),
        r.grid() == shoe_grid::<N>(system, n_decks as nat),
{
    proof {
        decks_are_countable(system, n_decks as nat);
    }
    CountW::build(system.value_of_rank(), CardCol::from_decks(n_decks))
}

/// The weight of one count.
fn weigh_count<N: Scalar>(table: &CountW<N>, pen: Penetration, s: i64, big_n: u16) -> (r: N)
    requires
        table.wf(),
        big_n == size(table.pool()),
        low(table.values(), table.root()) <= s <= high(table.values(), table.root()),
    ensures
        r == count_weight::<N>(table.grid(), pen, big_n as int, s as int, big_n as int),
{
    let ghost grid = table.grid();
    let mut w: N = from_whole(0);
    let mut n: u32 = 0;
    while n <= big_n as u32
        invariant
            table.wf(),
            grid == table.grid(),
            n <= big_n + 1,
            big_n == size(table.pool()),
            low(table.values(), table.root()) <= s <= high(table.values(), table.root()),
            w == count_weight::<N>(grid, pen, big_n as int, s as int, n - 1),
        decreases big_n + 1 - n,
    {
        let p: N = table.at(s, n as u16);
        if pen.admits(n as u16, big_n) && !is_zero(p) {
            w = w.plus(p);
        }
        n += 1;
    }
    w
}

/// The weight of all counts at the sizes from `first` on.
fn weigh_all<N: Scalar>(table: &CountW<N>, pen: Penetration, first: u16, big_n: u16) -> (r: N)
    requires
        table.wf(),
        big_n == size(table.pool()),
    ensures
        r == weight_upto::<N>(
            table.grid(),
            pen,
            low(table.values(), table.root()),
            high(table.values(), table.root()),
            big_n as int,
            first as int,
            big_n as int,
            high(table.values(), table.root()),
        ),
{
    let ghost grid = table.grid();
    let (lo, hi) = table.bounds();
    let mut w: N = from_whole(0);
    let mut n: u32 = first as u32;
    if first > big_n {
        return w;
    }
    while n <= big_n as u32
        invariant
            table.wf(),
            grid == table.grid(),
            first <= n <= big_n + 1,
            big_n == size(table.pool()),
            lo == low(table.values(), table.root()),
            hi == high(table.values(), table.root()),
            -0x8000 <= lo <= 0 <= hi <= 0x8000,
            w == weight_upto::<N>(
                grid,
                pen,
                lo as int,
                hi as int,
                big_n as int,
                first as int,
                n - 1,
                hi as int,
            ),
        decreases big_n + 1 - n,
    {
        let mut s: i64 = lo;
        while s <= hi
            invariant
                table.wf(),
                grid == table.grid(),
                first <= n <= big_n,
                big_n == size(table.pool()),
                lo == low(table.values(), table.root()),
                hi == high(table.values(), table.root()),
                -0x8000 <= lo <= 0 <= hi <= 0x8000,
                lo <= s <= hi + 1,
                w == weight_upto::<N>(
                    grid,
                    pen,
                    lo as int,
                    hi as int,
                    big_n as int,
                    first as int,
                    n as int,
                    s - 1,
                ),
            decreases hi + 1 - s,
        {
            let p: N = table.at(s, n as u16);
            if pen.admits(n as u16, big_n) && !is_zero(p) {
                w = w.plus(p);
            }
            s += 1;
        }
        n += 1;
    }
    w
}

/// The whole true count at or below the true count of `n` cards.
fn bucket_of(s: i64, n: i64) -> (r: i16)
    requires
        -0x8000 <= s <= 0x8000,
        1 <= n <= 0x1_0000,
    ensures
        r == true_bucket(s as int, n as int),
{
    let x: i64 = -52 * s;
    let t: i64 = match x.checked_div_euclid(n) {
        Some(q) => q,
        None => 0,
    };
    assert(-0x20_0000 <= (-52 * s) / n as int <= 0x20_0000) by (nonlinear_arith)
        requires
            -0x8000 <= s <= 0x8000,
            1 <= n,
    ;
    if t < -32768 {
        -32768
    } else if t > 32767 {
        32767
    } else {
        t as i16
    }
}

impl<N: Scalar> CountShoe<N> {
    /// How often each external running count occurs, in rising order.
    pub fn external_count_distribution(system: CountSystemId, n_decks: u8, pen: Penetration) -> (r:
        Vec<(i16, N)>)
        ensures
            r@ == running_occurrence::<N>(system, n_decks as nat, pen),
    {
        let table: CountW<N> = table_of(system, n_decks);
        let ghost grid = table.grid();
        let big_n: u16 = table.deck().len() as u16;
        let pivot: i16 = system.pivot(n_decks);
        proof {
            crate::count::law_full_shoe_counts(system, n_decks as int);
        }
        let (lo, hi) = table.bounds();
        let all: N = weigh_all(&table, pen, 0, big_n);
        let mut out: Vec<(i16, N)> = Vec::new();
        proof {
            decks_are_countable(system, n_decks as nat);
        }
        let mut s: i64 = hi;
        while s >= lo
            invariant
                table.wf(),
                grid == table.grid(),
                big_n == size(table.pool()),
                lo == low(table.values(), table.root()),
                hi == high(table.values(), table.root()),
                -0x8000 <= lo <= 0 <= hi <= 0x8000,
                hi - lo <= i16::MAX,
                lo - 1 <= s <= hi,
                0 <= pivot <= 4,
                all == weight_upto::<N>(
                    grid,
                    pen,
                    lo as int,
                    hi as int,
                    big_n as int,
                    0,
                    big_n as int,
                    hi as int,
                ),
                out@ == external_shares::<N>(
                    grid,
                    pen,
                    lo as int,
                    hi as int,
                    big_n as int,
                    pivot as int,
                    s as int,
                ),
            decreases s - lo + 1,
        {
            let w: N = weigh_count(&table, pen, s, big_n);
            let nil: N = from_whole(0);
            if nil.less(w) {
                let c: i64 = pivot as i64 - s;
                out.push((c as i16, w.over(all)));
            }
            s -= 1;
        }
        out
    }

    /// How often each whole true count occurs, in rising order: a true count in
    /// between belongs to the whole one below it.
    pub fn true_count_distribution(system: CountSystemId, n_decks: u8, pen: Penetration) -> (r: Vec<
        (i16, N),
    >)
        requires
            system.kind_spec() == CountKind::TrueCount,
        ensures
            r@ == true_occurrence::<N>(system, n_decks as nat, pen),
    {
        let table: CountW<N> = table_of(system, n_decks);
        let ghost grid = table.grid();
        let big_n: u16 = table.deck().len() as u16;
        let (lo, hi) = table.bounds();
        let all: N = weigh_all(&table, pen, 1, big_n);
        let mut buckets: Vec<Option<N>> = Vec::new();
        while buckets.len() < 0x1_0000
            invariant
                buckets.len() <= 0x1_0000,
                forall|t: int| 0 <= t < buckets.len() ==> #[trigger] buckets@[t] is None,
            decreases 0x1_0000 - buckets.len(),
        {
            buckets.push(None);
        }
        let mut n: u32 = 1;
        while n <= big_n as u32
            invariant
                table.wf(),
                grid == table.grid(),
                1 <= n <= big_n + 1,
                big_n == size(table.pool()),
                lo == low(table.values(), table.root()),
                hi == high(table.values(), table.root()),
                -0x8000 <= lo <= 0 <= hi <= 0x8000,
                buckets.len() == 0x1_0000,
                forall|t: int|
                    0 <= t < 0x1_0000 ==> #[trigger] buckets@[t] == bucket_weight::<N>(
                        grid,
                        pen,
                        lo as int,
                        hi as int,
                        big_n as int,
                        t - 0x8000,
                        n - 1,
                        hi as int,
                    ),
            decreases big_n + 1 - n,
        {
            let mut s: i64 = lo;
            assert(forall|t: int|
                0 <= t < 0x1_0000 ==> #[trigger] buckets@[t] == bucket_weight::<N>(
                    grid,
                    pen,
                    lo as int,
                    hi as int,
                    big_n as int,
                    t - 0x8000,
                    n as int,
                    s - 1,
                ));
            while s <= hi
                invariant
                    table.wf(),
                    grid == table.grid(),
                    1 <= n <= big_n,
                    big_n == size(table.pool()),
                    lo == low(table.values(), table.root()),
                    hi == high(table.values(), table.root()),
                    -0x8000 <= lo <= 0 <= hi <= 0x8000,
                    lo <= s <= hi + 1,
                    buckets.len() == 0x1_0000,
                    forall|t: int|
                        0 <= t < 0x1_0000 ==> #[trigger] buckets@[t] == bucket_weight::<N>(
                            grid,
                            pen,
                            lo as int,
                            hi as int,
                            big_n as int,
                            t - 0x8000,
                            n as int,
                            s - 1,
                        ),
                decreases hi + 1 - s,
            {
                let p: N = table.at(s, n as u16);
                if pen.admits(n as u16, big_n) && !is_zero(p) {
                    let t: i16 = bucket_of(s, n as i64);
                    let at: usize = (t as i64 + 0x8000) as usize;
                    let had: N = match buckets[at] {
                        Some(w) => w,
                        None => from_whole(0),
                    };
                    buckets.set(at, Some(had.plus(p)));
                }
                s += 1;
            }
            n += 1;
        }
        let mut out: Vec<(i16, N)> = Vec::new();
        let mut t: usize = 0;
        while t < 0x1_0000
            invariant
                t <= 0x1_0000,
                buckets.len() == 0x1_0000,
                all == weight_upto::<N>(
                    grid,
                    pen,
                    lo as int,
                    hi as int,
                    big_n as int,
                    1,
                    big_n as int,
                    hi as int,
                ),
                forall|k: int|
                    0 <= k < 0x1_0000 ==> #[trigger] buckets@[k] == bucket_weight::<N>(
                        grid,
                        pen,
                        lo as int,
                        hi as int,
                        big_n as int,
                        k - 0x8000,
                        big_n as int,
                        hi as int,
                    ),
                out@ == true_shares::<N>(
                    grid,
                    pen,
                    lo as int,
                    hi as int,
                    big_n as int,
                    t - 0x8000,
                ),
            decreases 0x1_0000 - t,
        {
            if let Some(w) = buckets[t] {
                let c: i64 = t as i64 - 0x8000;
                out.push((c as i16, w.over(all)));
            }
            t += 1;
        }
        out
    }
}

} // verus!
