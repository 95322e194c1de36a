//! A tilted deck is in proportion: it has as many units as it is to have, and each rank has its
//! share of them, but for one at most.
use crate::countshoe::{
    base_units, base_upto, expected, served_before, served_upto, target, unit_of,
    units_in_all,
};
use crate::exact::{exact, exact_whole, real_sum, sum_is_large, vals};
use crate::num::Scalar;
use crate::shoe::{size, Tally};
use vstd::prelude::*;

verus! {

/// Whether one thing comes before another, for things that are told apart by their places.
spec fn is_order(before: spec_fn(int, int) -> bool) -> bool {
    &&& forall|q: int, r: int|
        q != r ==> (#[trigger] before(q, r) <==> !before(r, q))
    &&& forall|q: int, r: int, s: int|
        q != r && r != s && q != s && #[trigger] before(q, r) && #[trigger] before(r, s) ==> before(
            q,
            s,
        )
}

/// How many of the first `u` things come before the thing `r`.
spec fn place(before: spec_fn(int, int) -> bool, r: int, u: int) -> nat
    decreases u,
{
    if u <= 0 {
        0
    } else {
        place(before, r, u - 1) + if u - 1 != r && before(u - 1, r) {
            1nat
        } else {
            0
        }
    }
}

/// How many of the first `u` things come among the first `k` of `m` things.
spec fn placed(before: spec_fn(int, int) -> bool, m: int, k: int, u: int) -> nat
    decreases u,
{
    if u <= 0 {
        0
    } else {
        placed(before, m, k, u - 1) + if place(before, u - 1, m) < k {
            1nat
        } else {
            0
        }
    }
}

/// What comes before another thing has fewer before it.
proof fn places_rise(before: spec_fn(int, int) -> bool, r: int, s: int, u: int)
    requires
        is_order(before),
        r != s,
        before(r, s),
        0 <= r,
        0 <= u,
    ensures
        place(before, r, u) + (if r < u {
            1int
        } else {
            0
        }) <= place(before, s, u),
    decreases u,
{
    if u > 0 {
        places_rise(before, r, s, u - 1);
        let q = u - 1;
        if q == r {
            assert(before(q, s));
        } else if q == s {
            assert(!before(s, r));
        } else if before(q, r) {
            assert(before(q, s));
        }
    }
}

/// One thing more.
proof fn placed_with_one_more(before: spec_fn(int, int) -> bool, m: int, k: int, u: int)
    requires
        is_order(before),
        0 <= u <= m,
    ensures
        placed(before, m + 1, k, u) == if k <= place(before, m, m) {
            placed(before, m, k, u)
        } else {
            placed(before, m, k - 1, u)
        },
    decreases u,
{
    if u > 0 {
        placed_with_one_more(before, m, k, u - 1);
        let r = u - 1;
        assert(place(before, r, m + 1) == place(before, r, m) + if before(m, r) {
            1nat
        } else {
            0
        });
        if before(m, r) {
            places_rise(before, m, r, m);
        } else {
            assert(before(r, m));
            places_rise(before, r, m, m);
        }
    }
}

/// The places of a thing are no more than there are things.
proof fn place_is_small(before: spec_fn(int, int) -> bool, r: int, u: int)
    requires
        0 <= u,
    ensures
        place(before, r, u) <= u,
    decreases u,
{
    if u > 0 {
        place_is_small(before, r, u - 1);
    }
}

/// Of `m` things, `k` come among the first `k`.
proof fn first_are_first(before: spec_fn(int, int) -> bool, m: int, k: int)
    requires
        is_order(before),
        0 <= k <= m,
    ensures
        placed(before, m, k, m) == k,
    decreases m,
{
    if m > 0 {
        let p = place(before, m - 1, m - 1);
        place_is_small(before, m - 1, m - 1);
        placed_with_one_more(before, m - 1, k, m - 1);
        assert(place(before, m - 1, m) == p);
        if k <= p {
            first_are_first(before, m - 1, k);
        } else {
            first_are_first(before, m - 1, k - 1);
        }
    }
}

/// The order in which left-over units are handed out.
spec fn serving<N: Scalar>(dist: Seq<N>, all: nat) -> spec_fn(int, int) -> bool {
    |q: int, r: int| served_before(dist, all, q, r)
}

proof fn serving_is_order<N: Scalar>(val: spec_fn(N) -> real, dist: Seq<N>, all: nat)
    requires
        exact(val),
    ensures
        is_order(serving(dist, all)),
{
}

proof fn served_is_place<N: Scalar>(dist: Seq<N>, all: nat, r: int, k: int)
    ensures
        served_upto(dist, all, r, k) == place(serving(dist, all), r, k),
    decreases k,
{
    if k > 0 {
        served_is_place(dist, all, r, k - 1);
    }
}

/// The cards of the first `k` ranks.
spec fn first_ranks(t: Tally, k: int) -> nat
    decreases k,
{
    if k <= 0 {
        0
    } else {
        first_ranks(t, k - 1) + t[k - 1]
    }
}

/// The units of the first `k` ranks are those rounded down and one more for each that is
/// served.
proof fn units_upto<N: Scalar>(dist: Seq<N>, n: nat, k: int)
    requires
        0 <= k <= 10,
    ensures
        ({
            let all = units_in_all(n);
            let left = all - base_upto(dist, all, 10);
            first_ranks(expected(dist, n).0, k) == base_upto(dist, all, k) + placed(
                serving(dist, all),
                10,
                left,
                k,
            )
        }),
    decreases k,
{
    if k > 0 {
        units_upto(dist, n, k - 1);
        served_is_place(dist, units_in_all(n), k - 1, 10);
    }
}

/// Whether numbers of the size of a deck are rounded down as they are to be.
pub open spec fn rounds_down<N: Scalar>(val: spec_fn(N) -> real) -> bool {
    forall|x: N|
        0real <= val(x) <= 65535real ==> ((#[trigger] x.floor_spec()) as int) as real <= val(x)
            && val(x) < (x.floor_spec() + 1) as real
}

/// The units of a rank before and after rounding.
proof fn rank_units<N: Scalar>(val: spec_fn(N) -> real, dist: Seq<N>, all: nat, r: int)
    requires
        exact(val),
        rounds_down(val),
        all <= 65535,
        0real <= val(dist[r]) <= 1real,
    ensures
        val(target(dist, all, r)) == val(dist[r]) * (all as int) as real,
        (base_units(dist, all, r) as int) as real <= val(target(dist, all, r)),
        val(target(dist, all, r)) < (base_units(dist, all, r) + 1) as real,
{
    exact_whole::<N>(val, all as i64);
    let x = val(dist[r]);
    let a = (all as int) as real;
    let t = target(dist, all, r);
    assert(0real <= x * a <= a) by (nonlinear_arith)
        requires
            0real <= x <= 1real,
            a >= 0real,
    ;
    assert(val(t) == x * a);
    let f = t.floor_spec();
    assert((f as int) as real <= val(t) && val(t) < (f + 1) as real);
    assert(0 <= f <= 65535);
}

/// The units rounded down, next to those before.
proof fn base_near<N: Scalar>(val: spec_fn(N) -> real, dist: Seq<N>, all: nat, k: int)
    requires
        exact(val),
        rounds_down(val),
        all <= 65535,
        dist.len() == 10,
        forall|r: int| 0 <= r < 10 ==> 0real <= val(#[trigger] dist[r]) <= 1real,
        0 <= k <= 10,
    ensures
        (base_upto(dist, all, k) as int) as real <= real_sum(vals(val, dist.take(k))) * (
        all as int) as real,
        k > 0 ==> ((base_upto(dist, all, k) + k) as real) > real_sum(vals(val, dist.take(k))) * (
        all as int) as real,
    decreases k,
{
    let a = (all as int) as real;
    let now = vals(val, dist.take(k));
    if k > 0 {
        base_near(val, dist, all, k - 1);
        let before = vals(val, dist.take(k - 1));
        assert(now.drop_last() =~= before);
        assert(now.last() == val(dist[k - 1]));
        rank_units(val, dist, all, k - 1);
        let b = real_sum(before);
        let x = val(dist[k - 1]);
        assert((b + x) * a == b * a + x * a) by (nonlinear_arith);
        if k == 1 {
            assert(before =~= Seq::<real>::empty());
            assert(0real * a == 0real) by (nonlinear_arith);
        }
    } else {
        assert(now =~= Seq::<real>::empty());
        assert(0real * a == 0real) by (nonlinear_arith);
    }
}

/// In an exact arithmetic the deck that stands for `n` cards has exactly as many units as `n`
/// cards have, so that each card drawn takes one part in `n` off, and every rank has its share
/// of them, but for a unit at most.
pub proof fn law_tilted_deck_is_in_proportion<N: Scalar>(
    val: spec_fn(N) -> real,
    dist: Seq<N>,
    n: nat,
    r: int,
)
    requires
        exact(val),
        rounds_down(val),
        dist.len() == 10,
        forall|q: int| 0 <= q < 10 ==> val(#[trigger] dist[q]) >= 0real,
        real_sum(vals(val, dist)) == 1real,
        1 <= n <= u16::MAX,
        0 <= r < 10,
    ensures
        ({
            let (deck, unit) = expected(dist, n);
            let share = val(dist[r]) * ((n * unit) as int) as real;
            &&& size(deck) == n * unit
            &&& share - 1real < (deck[r] as int) as real
            &&& (deck[r] as int) as real <= share + 1real
        }),
{
    let all = units_in_all(n);
    let unit = unit_of(n);
    let deck = expected(dist, n).0;
    assert(all == n * unit && all <= 65535) by {
        let u = 50_000nat / n;
        assert(n * u <= 50_000) by (nonlinear_arith)
            requires
                u == 50_000nat / n,
                n >= 1,
        ;
        assert(unit * n == n * unit) by (nonlinear_arith);
        assert(n * 1 == n);
    }
    let xs = vals(val, dist);
    assert(forall|q: int| 0 <= q < 10 ==> #[trigger] xs[q] == val(dist[q]));
    sum_is_large(xs);
    assert forall|q: int| 0 <= q < 10 implies 0real <= val(#[trigger] dist[q]) <= 1real by {
        assert(xs[q] <= real_sum(xs));
    }
    base_near(val, dist, all, 10);
    assert(dist.take(10) =~= dist);
    let a = (all as int) as real;
    assert(1real * a == a) by (nonlinear_arith);
    let base = base_upto(dist, all, 10);
    assert(all - 10 < base <= all);
    let left = all - base;
    serving_is_order(val, dist, all);
    first_are_first(serving(dist, all), 10, left);
    units_upto(dist, n, 10);
    assert(first_ranks(deck, 10) == size(deck)) by {
        reveal_with_fuel(first_ranks, 11);
    }
    rank_units(val, dist, all, r);
    assert(deck[r] == base_units(dist, all, r) || deck[r] == base_units(dist, all, r) + 1);
}

} // verus!
