//! What the dealer's chances come to, as numbers.
use crate::card::Card;
use crate::countw::count_without;
use crate::dealer::{
    dealer_average, dealer_dist, final_outcome, is_near_one, law_dealer_stops_at_17_or_more, mixed,
    must_hit, outcome_place, sure, without_natural,
};
use crate::drawing::{full_deck_card, share, shares_from, InfiniteDeck, Shoe};
use crate::exact::{exact, exact_total, exact_whole, real_sum, vals};
use crate::num::{is_nil, one, total, Scalar};
use crate::partitions::hard_with_n;
use crate::shoe::{hard, single, size, taken, with_card, CardCol, Tally};
use vstd::prelude::*;

verus! {

/// What the chances of the next cards stand for.
pub open spec fn draw_vals<N: Scalar, S: Shoe<N>>(val: spec_fn(N) -> real, s: S::State) -> Seq<
    real,
> {
    Seq::new(S::draws(s).len(), |i: int| val(S::draws(s)[i].1))
}

/// Whether the chances of the next card add up to one for the next `k` cards,
/// whatever comes.
pub open spec fn lasts<N: Scalar, S: Shoe<N>>(val: spec_fn(N) -> real, s: S::State, k: nat) -> bool
    decreases k,
{
    k == 0 || {
        &&& real_sum(draw_vals::<N, S>(val, s)) == 1real
        &&& forall|i: int|
            0 <= i < S::draws(s).len() ==> val((#[trigger] S::draws(s)[i]).1) >= 0real && lasts::<
                N,
                S,
            >(val, S::without(s, single(S::draws(s)[i].0)), (k - 1) as nat)
    }
}

pub proof fn sum_of_mix(a: Seq<real>, b: Seq<real>, p: real, m: Seq<real>)
    requires
        a.len() == b.len(),
        m.len() == a.len(),
        forall|i: int| 0 <= i < a.len() ==> #[trigger] m[i] == a[i] + p * b[i],
    ensures
        real_sum(m) == real_sum(a) + p * real_sum(b),
    decreases a.len(),
{
    if a.len() == 0 {
        assert(p * 0real == 0real) by (nonlinear_arith);
    } else {
        sum_of_mix(a.drop_last(), b.drop_last(), p, m.drop_last());
        let x = real_sum(b.drop_last());
        let y = b.last();
        assert(m.last() == a.last() + p * b.last());
        assert(p * (x + y) == p * x + p * y) by (nonlinear_arith);
    }
}

pub proof fn sum_of_sure(s: Seq<real>, place: int)
    requires
        0 <= place < s.len(),
        forall|i: int| 0 <= i < s.len() ==> #[trigger] s[i] == if i == place {
            1real
        } else {
            0real
        },
    ensures
        real_sum(s) == 1real,
    decreases s.len(),
{
    let t = s.drop_last();
    if place == s.len() - 1 {
        sum_of_zeros(t);
    } else {
        sum_of_sure(t, place);
    }
    assert(s.last() == s[s.len() - 1]);
}

pub proof fn sum_of_zeros(s: Seq<real>)
    requires
        forall|i: int| 0 <= i < s.len() ==> #[trigger] s[i] == 0real,
    ensures
        real_sum(s) == 0real,
    decreases s.len(),
{
    if s.len() > 0 {
        sum_of_zeros(s.drop_last());
        assert(s.last() == s[s.len() - 1]);
    }
}

/// Whether a distribution over the dealer's outcomes is one of chances with this
/// sum.
pub open spec fn sums_to<N: Scalar>(val: spec_fn(N) -> real, dist: Seq<N>, sum: real) -> bool {
    &&& dist.len() == 7
    &&& real_sum(vals(val, dist)) == sum
    &&& forall|i: int| 0 <= i < 7 ==> val(#[trigger] dist[i]) >= 0real
}

/// In an exact arithmetic the dealer's outcomes have chances that add up to one,
/// where the shoe lasts until the dealer has to stop.
pub proof fn law_dealer_outcomes_add_up<N: Scalar, S: Shoe<N>>(
    val: spec_fn(N) -> real,
    s: S::State,
    t: Tally,
    hs17: bool,
)
    requires
        exact(val),
        S::sane(s),
        t.len() == 10,
        hard(t) < 17 ==> lasts::<N, S>(val, s, (17 - hard(t)) as nat),
    ensures
        sums_to(val, dealer_dist::<N, S>(s, t, hs17), 1real),
    decreases 27 - hard(t), 12int,
{
    exact_whole::<N>(val, 0);
    exact_whole::<N>(val, 1);
    S::draws_are_there(s);
    let dist = dealer_dist::<N, S>(s, t, hs17);
    if must_hit(t, hs17) {
        let k = S::draws(s).len() as int;
        average_adds_up::<N, S>(val, s, t, hs17, k);
        assert(draw_vals::<N, S>(val, s).take(k) =~= draw_vals::<N, S>(val, s));
    } else {
        law_dealer_stops_at_17_or_more(t, hs17);
        let place = outcome_place(final_outcome(t));
        assert(dist == sure::<N>(place));
        sum_of_sure(vals(val, dist), place);
    }
}

proof fn average_adds_up<N: Scalar, S: Shoe<N>>(
    val: spec_fn(N) -> real,
    s: S::State,
    t: Tally,
    hs17: bool,
    k: int,
)
    requires
        exact(val),
        S::sane(s),
        t.len() == 10,
        hard(t) < 17,
        lasts::<N, S>(val, s, (17 - hard(t)) as nat),
        0 <= k <= S::draws(s).len(),
    ensures
        sums_to(
            val,
            dealer_average::<N, S>(s, t, hs17, k),
            real_sum(draw_vals::<N, S>(val, s).take(k)),
        ),
    decreases 27 - hard(t), k,
{
    exact_whole::<N>(val, 0);
    S::draws_are_there(s);
    let avg = dealer_average::<N, S>(s, t, hs17, k);
    let ps = draw_vals::<N, S>(val, s);
    if k == 0 {
        sum_of_zeros(vals(val, avg));
    } else {
        let acc = dealer_average::<N, S>(s, t, hs17, k - 1);
        let (card, p) = S::draws(s)[k - 1];
        average_adds_up::<N, S>(val, s, t, hs17, k - 1);
        assert(ps.take(k).drop_last() =~= ps.take(k - 1));
        assert(ps.take(k).last() == val(p));
        if !is_nil(p) {
            let next = S::without(s, single(card));
            let hand = with_card(t, card);
            S::without_supply(s, single(card));
            hard_with_n(t, card.rank(), 1);
            if hard(hand) < 17 {
                fewer_last::<N, S>(val, next, (17 - hard(t) - 1) as nat, (17 - hard(hand)) as nat);
            }
            law_dealer_outcomes_add_up::<N, S>(val, next, hand, hs17);
            let sub_dist = dealer_dist::<N, S>(next, hand, hs17);
            assert(avg == mixed(acc, p, sub_dist));
            sum_of_mix(vals(val, acc), vals(val, sub_dist), val(p), vals(val, avg));
            let pv = val(p);
            assert(pv * 1real == pv) by (nonlinear_arith);
            assert forall|i: int| 0 <= i < 7 implies val(#[trigger] avg[i]) >= 0real by {
                assert(val(acc[i]) >= 0real && val(sub_dist[i]) >= 0real);
                let y = val(sub_dist[i]);
                assert(pv >= 0real);
                assert(pv * y >= 0real) by (nonlinear_arith)
                    requires
                        pv >= 0real,
                        y >= 0real,
                ;
            }
        }
    }
}

/// A shoe that lasts for some cards lasts for fewer.
proof fn fewer_last<N: Scalar, S: Shoe<N>>(
    val: spec_fn(N) -> real,
    s: S::State,
    k: nat,
    m: nat,
)
    requires
        lasts::<N, S>(val, s, k),
        m <= k,
    ensures
        lasts::<N, S>(val, s, m),
    decreases k,
{
    if m > 0 {
        assert forall|i: int| 0 <= i < S::draws(s).len() implies val(
            (#[trigger] S::draws(s)[i]).1,
        ) >= 0real && lasts::<N, S>(
            val,
            S::without(s, single(S::draws(s)[i].0)),
            (m - 1) as nat,
        ) by {
            fewer_last::<N, S>(
                val,
                S::without(s, single(S::draws(s)[i].0)),
                (k - 1) as nat,
                (m - 1) as nat,
            );
        }
    }
}

proof fn sum_of_front(x: real, s: Seq<real>)
    ensures
        real_sum(seq![x] + s) == x + real_sum(s),
    decreases s.len(),
{
    if s.len() == 0 {
        assert(seq![x] + s =~= seq![x]);
        assert(seq![x].drop_last() =~= Seq::<real>::empty());
        assert(real_sum(seq![x].drop_last()) == 0real);
    } else {
        sum_of_front(x, s.drop_last());
        assert((seq![x] + s).drop_last() =~= seq![x] + s.drop_last());
    }
}

/// The cards of the ranks from place `from` on.
spec fn size_from(t: Tally, from: int) -> nat
    decreases 10 - from,
{
    if from >= 10 {
        0
    } else {
        t[from] + size_from(t, from + 1)
    }
}

proof fn shares_add_up<N: Scalar>(val: spec_fn(N) -> real, t: Tally, from: int)
    requires
        exact(val),
        t.len() == 10,
        0 < size(t) <= 0x10_0000,
        forall|i: int| 0 <= i < 10 ==> #[trigger] t[i] <= u16::MAX,
        0 <= from <= 10,
    ensures
        ({
            let sh = shares_from::<N>(t, from);
            let vs = Seq::new(sh.len(), |i: int| val(sh[i].1));
            &&& real_sum(vs) == (size_from(t, from) as int) as real / (size(t) as int) as real
            &&& forall|i: int| 0 <= i < sh.len() ==> val((#[trigger] sh[i]).1) >= 0real
        }),
    decreases 10 - from,
{
    let sh = shares_from::<N>(t, from);
    let vs = Seq::new(sh.len(), |i: int| val(sh[i].1));
    let d = (size(t) as int) as real;
    if from < 10 {
        shares_add_up::<N>(val, t, from + 1);
        let rest = shares_from::<N>(t, from + 1);
        let rs = Seq::new(rest.len(), |i: int| val(rest[i].1));
        let a = (t[from] as int) as real;
        let b = (size_from(t, from + 1) as int) as real;
        assert(a / d + b / d == (a + b) / d) by (nonlinear_arith)
            requires
                d > 0real,
        ;
        if t[from] > 0 {
            let card = crate::card::card_at(from);
            assert(card.rank() == from);
            let x = val(share::<N>(t, card));
            assert(x == a / d);
            assert(vs =~= seq![x] + rs);
            sum_of_front(x, rs);
            assert(a / d >= 0real) by (nonlinear_arith)
                requires
                    a >= 0real,
                    d > 0real,
            ;
            assert forall|i: int| 0 <= i < sh.len() implies val((#[trigger] sh[i]).1) >= 0real by {
                if i > 0 {
                    assert(sh[i] == rest[i - 1]);
                }
            }
        } else {
            assert(vs =~= rs);
            assert(a / d == 0real) by (nonlinear_arith)
                requires
                    a == 0real,
                    d > 0real,
            ;
        }
    } else {
        assert(0real / d == 0real) by (nonlinear_arith)
            requires
                d > 0real,
        ;
    }
}

/// In an exact arithmetic a finite shoe lasts for as many cards as it holds.
pub proof fn law_finite_shoe_lasts<N: Scalar>(val: spec_fn(N) -> real, t: Tally, k: nat)
    requires
        exact(val),
        <CardCol as Shoe<N>>::sane(t),
        k <= size(t),
    ensures
        lasts::<N, CardCol>(val, t, k),
    decreases k,
{
    if k > 0 {
        shares_add_up::<N>(val, t, 0);
        reveal_with_fuel(size_from, 11);
        let d = (size(t) as int) as real;
        assert(d / d == 1real) by (nonlinear_arith)
            requires
                d > 0real,
        ;
        let sh = shares_from::<N>(t, 0);
        assert(draw_vals::<N, CardCol>(val, t) =~= Seq::new(sh.len(), |i: int| val(sh[i].1)));
        <CardCol as Shoe<N>>::draws_are_there(t);
        assert forall|i: int| 0 <= i < sh.len() implies val((#[trigger] sh[i]).1) >= 0real && lasts::<
            N,
            CardCol,
        >(val, taken(t, single(sh[i].0)), (k - 1) as nat) by {
            let card = sh[i].0;
            <CardCol as Shoe<N>>::without_supply(t, single(card));
            assert(<CardCol as Shoe<N>>::supply(t, card.rank()) != Some(0nat));
            count_without(Seq::new(10, |i: int| 0i16), t, card);
            law_finite_shoe_lasts::<N>(val, taken(t, single(card)), (k - 1) as nat);
        }
    }
}

/// In an exact arithmetic the infinite deck lasts for ever.
pub proof fn law_infinite_deck_lasts<N: Scalar>(val: spec_fn(N) -> real, k: nat)
    requires
        exact(val),
    ensures
        lasts::<N, InfiniteDeck>(val, (), k),
    decreases k,
{
    if k > 0 {
        let ps = draw_vals::<N, InfiniteDeck>(val, ());
        assert(val(N::ratio_spec(1, 13)) == 1real / 13real);
        assert(val(N::ratio_spec(4, 13)) == 4real / 13real);
        assert(ps.len() == 10);
        assert forall|i: int| 0 <= i < 10 implies #[trigger] ps[i] == if i == 8 {
            4real / 13real
        } else {
            1real / 13real
        } by {
            assert(full_deck_card(i) == Card::Ten <==> i == 8);
        }
        reveal_with_fuel(real_sum, 11);
        assert(real_sum(ps) == ps[0] + ps[1] + ps[2] + ps[3] + ps[4] + ps[5] + ps[6] + ps[7]
            + ps[8] + ps[9]);
        assert forall|i: int| 0 <= i < 10 implies val(
            (#[trigger] <InfiniteDeck as Shoe<N>>::draws(())[i]).1,
        ) >= 0real && lasts::<N, InfiniteDeck>(val, (), (k - 1) as nat) by {
            assert(ps[i] == val(<InfiniteDeck as Shoe<N>>::draws(())[i].1));
            law_infinite_deck_lasts::<N>(val, (k - 1) as nat);
        }
    }
}

/// In an exact arithmetic, leaving the natural out of outcomes that add up to one leaves
/// outcomes that do, unless the natural is certain.
pub proof fn law_rest_of_outcomes_adds_up<N: Scalar>(val: spec_fn(N) -> real, dist: Seq<N>)
    requires
        exact(val),
        dist.len() == 7,
        real_sum(vals(val, dist)) == 1real,
        val(dist[6]) != 1real,
    ensures
        val(total(without_natural(dist))) == 1real,
        is_near_one(total(without_natural(dist))),
{
    exact_whole::<N>(val, 0);
    exact_whole::<N>(val, 1);
    let rest = without_natural(dist);
    exact_total(val, rest);
    let xs = vals(val, dist);
    let ys = vals(val, rest);
    let m = 1real - val(dist[6]);
    let scale = one::<N>().over_spec(one::<N>().minus_spec(dist[6]));
    let k = val(scale);
    assert(k == 1real / m);
    assert(k * m == 1real) by (nonlinear_arith)
        requires
            k == 1real / m,
            m != 0real,
    ;
    scaled_upto(xs, ys, k, 6);
    assert(xs.take(7) =~= xs && ys.take(7) =~= ys);
    assert(xs.take(7).drop_last() =~= xs.take(6) && ys.take(7).drop_last() =~= ys.take(6));
    let a = real_sum(xs.take(6));
    assert(a == m);
    assert(a * k == k * m) by (nonlinear_arith)
        requires
            a == m,
    ;
    let fine = N::ratio_spec(1, 1_000_000_000_000);
    let e = 1real / 1_000_000_000_000real;
    assert(val(fine) == e);
    assert(e > 0real) by (nonlinear_arith)
        requires
            e == 1real / 1_000_000_000_000real,
    ;
}

proof fn scaled_upto(xs: Seq<real>, ys: Seq<real>, k: real, n: int)
    requires
        0 <= n <= xs.len(),
        n <= ys.len(),
        forall|i: int| 0 <= i < n ==> #[trigger] ys[i] == xs[i] * k,
    ensures
        real_sum(ys.take(n)) == real_sum(xs.take(n)) * k,
    decreases n,
{
    if n > 0 {
        scaled_upto(xs, ys, k, n - 1);
        assert(xs.take(n).drop_last() =~= xs.take(n - 1));
        assert(ys.take(n).drop_last() =~= ys.take(n - 1));
        let a = real_sum(xs.take(n - 1));
        let b = xs[n - 1];
        assert((a + b) * k == a * k + b * k) by (nonlinear_arith);
        assert(ys[n - 1] == xs[n - 1] * k);
    } else {
        assert(xs.take(0) =~= Seq::<real>::empty() && ys.take(0) =~= Seq::<real>::empty());
        assert(0real * k == 0real) by (nonlinear_arith);
    }
}

} // verus!
