//! What looking at the hole card does to the dealer's chances.
use crate::card::{card_at, Card};
use crate::dealer::{
    dealer_average, dealer_dist, final_outcome, must_hit, sure, without_natural, DealerOutcome,
};
use crate::drawing::{share, shares_from, InfiniteDeck, Shoe};
use crate::exact::{exact, exact_whole};
use crate::num::{is_nil, Scalar};
use crate::partitions::hard_with_n;
use crate::playlaws::no_natural_later;
use crate::shoe::{hard, is_natural, no_cards, single, size, with_card, CardCol, Tally};
use crate::simulation::{natural_hole, no_natural, peeked_dist, peeked_dist_upto};
use vstd::prelude::*;

verus! {

/// Whether a card stands at most once among those that can come next, with its chance, and
/// has no chance where it does not stand there.
pub open spec fn tells_once<N: Scalar, S: Shoe<N>>(
    val: spec_fn(N) -> real,
    s: S::State,
    card: Card,
) -> bool {
    &&& forall|i: int|
        0 <= i < S::draws(s).len() && (#[trigger] S::draws(s)[i]).0 == card ==> S::draws(s)[i].1
            == S::prob(s, card)
    &&& forall|i: int, j: int|
        0 <= i < j < S::draws(s).len() && (#[trigger] S::draws(s)[i]).0 == card ==> (
        #[trigger] S::draws(s)[j]).0 != card
    &&& val(S::prob(s, card)) == 0real || exists|i: int|
        0 <= i < S::draws(s).len() && (#[trigger] S::draws(s)[i]).0 == card
}

/// A finite shoe with a card in it tells the chance of each card once.
pub proof fn law_finite_shoe_tells_once<N: Scalar>(val: spec_fn(N) -> real, t: Tally, card: Card)
    requires
        exact(val),
        <CardCol as Shoe<N>>::sane(t),
        size(t) > 0,
        card.valid(),
    ensures
        tells_once::<N, CardCol>(val, t, card),
{
    shares_ascend::<N>(t, card, 0);
    crate::card::law_rank_round_trip(card, 0);
    let draws = <CardCol as Shoe<N>>::draws(t);
    assert(draws == shares_from::<N>(t, 0));
    if t[card.rank()] > 0 {
        let i = choose|i: int|
            0 <= i < shares_from::<N>(t, 0).len() && (#[trigger] shares_from::<N>(t, 0)[i]).0
                == card;
        assert(draws[i].0 == card);
    }
    if t[card.rank()] == 0 {
        exact_whole::<N>(val, 0);
        assert(size(t) <= 10 * u16::MAX);
        let den = size(t) as i64;
        let d = (den as int) as real;
        assert(val(N::ratio_spec(0, den)) == (0i64 as int) as real / d);
        assert(<CardCol as Shoe<N>>::prob(t, card) == N::ratio_spec(0, den));
        assert(0real / d == 0real) by (nonlinear_arith)
            requires
                d > 0real,
        ;
    }
}

proof fn shares_ascend<N: Scalar>(t: Tally, card: Card, from: int)
    requires
        t.len() == 10,
        card.valid(),
        0 <= from <= 10,
    ensures
        forall|i: int|
            0 <= i < shares_from::<N>(t, from).len() ==> {
                let d = #[trigger] shares_from::<N>(t, from)[i];
                d.0.valid() && from <= d.0.rank() < 10 && d.1 == share::<N>(t, d.0)
            },
        forall|i: int, j: int|
            0 <= i < j < shares_from::<N>(t, from).len() ==> (#[trigger] shares_from::<N>(
                t,
                from,
            )[i]).0.rank() < (#[trigger] shares_from::<N>(t, from)[j]).0.rank(),
        from <= card.rank() && t[card.rank()] > 0 ==> exists|i: int|
            0 <= i < shares_from::<N>(t, from).len() && (#[trigger] shares_from::<N>(
                t,
                from,
            )[i]).0 == card,
    decreases 10 - from,
{
    if from < 10 {
        shares_ascend::<N>(t, card, from + 1);
        crate::card::law_rank_round_trip(card, from);
        let rest = shares_from::<N>(t, from + 1);
        let all = shares_from::<N>(t, from);
        if t[from] > 0 {
            assert(all[0].0 == card_at(from));
            assert(forall|i: int| 1 <= i < all.len() ==> #[trigger] all[i] == rest[i - 1]);
            if from < card.rank() && t[card.rank()] > 0 {
                let i = choose|i: int| 0 <= i < rest.len() && (#[trigger] rest[i]).0 == card;
                assert(all[i + 1].0 == card);
            }
        }
    }
}

/// The infinite deck tells the chance of each card once.
pub proof fn law_infinite_deck_tells_once<N: Scalar>(val: spec_fn(N) -> real, card: Card)
    requires
        card.valid(),
    ensures
        tells_once::<N, InfiniteDeck>(val, (), card),
{
    let draws = <InfiniteDeck as Shoe<N>>::draws(());
    crate::card::law_rank_round_trip(card, 0);
    let place: int = if card.rank() == 0 {
        9
    } else {
        card.rank() - 1
    };
    assert(draws[place].0 == card);
}

/// In an exact arithmetic the chances of a dealer who has looked and has no natural are
/// those of before, with the natural left out and the others scaled up in its place.
pub proof fn law_looking_is_conditioning<N: Scalar, S: Shoe<N>>(
    val: spec_fn(N) -> real,
    s: S::State,
    up: Card,
    hs17: bool,
    i: int,
)
    requires
        exact(val),
        S::sane(s),
        up == Card::Ace || up == Card::Ten,
        tells_once::<N, S>(val, s, natural_hole(up)->0),
        val(S::prob(s, natural_hole(up)->0)) != 1real,
        0 <= i < 7,
    ensures
        val(peeked_dist::<N, S>(s, up, natural_hole(up)->0, hs17)[i]) == val(
            without_natural(dealer_dist::<N, S>(s, single(up), hs17))[i],
        ),
        val(dealer_dist::<N, S>(s, single(up), hs17)[6]) == val(S::prob(s, natural_hole(up)->0)),
{
    exact_whole::<N>(val, 0);
    exact_whole::<N>(val, 1);
    S::draws_are_there(s);
    let bj = natural_hole(up)->0;
    let n = S::draws(s).len() as int;
    let p = val(S::prob(s, bj));
    hard_with_n(no_cards(), up.rank(), 1);
    assert(hard(no_cards()) == 0);
    assert(must_hit(single(up), hs17));
    crate::playlaws::law_peeked_dealer_has_no_natural::<N, S>(val, s, up, hs17);
    looked_upto::<N, S>(val, s, up, hs17, n, 6);
    looked_upto::<N, S>(val, s, up, hs17, n, i);
    let dist = dealer_dist::<N, S>(s, single(up), hs17);
    assert(dist == dealer_average::<N, S>(s, single(up), hs17, n));
    if i < 6 {
        let a = val(peeked_dist::<N, S>(s, up, bj, hs17)[i]);
        let b = val(dist[i]);
        assert(a * (1real - p) == b);
        assert(a == b * (1real / (1real - p))) by (nonlinear_arith)
            requires
                a * (1real - p) == b,
                1real - p != 0real,
        ;
    }
}

/// Whether a card is among the first `k` that can come next.
pub open spec fn listed<N: Scalar, S: Shoe<N>>(s: S::State, card: Card, k: int) -> bool {
    exists|i: int| 0 <= i < k && (#[trigger] S::draws(s)[i]).0 == card
}

/// With an ace or a ten up, the hand is a natural exactly with the other one in the hole.
proof fn natural_by_the_hole(up: Card, hole: Card)
    requires
        up == Card::Ace || up == Card::Ten,
        hole.valid(),
    ensures
        ({
            let hand = with_card(single(up), hole);
            &&& is_natural(hand) <==> hole == natural_hole(up)->0
            &&& size(hand) == 2
            &&& hand.len() == 10
            &&& is_natural(hand) ==> final_outcome(hand) == DealerOutcome::Natural
            &&& is_natural(hand) ==> forall|hs17: bool| !must_hit(hand, hs17)
        }),
{
    let hand = with_card(single(up), hole);
    let pair = with_card(single(Card::Ace), Card::Ten);
    crate::shoe::law_natural_is_two_card_21(hand);
    if hole == natural_hole(up)->0 {
        assert(hand =~= pair);
    } else if is_natural(hand) {
        assert(hand[0] == pair[0] && hand[9] == pair[9]);
        assert(hole.rank() == 0 || hole.rank() == 9);
    }
}

proof fn looked_upto<N: Scalar, S: Shoe<N>>(
    val: spec_fn(N) -> real,
    s: S::State,
    up: Card,
    hs17: bool,
    k: int,
    i: int,
)
    requires
        exact(val),
        S::sane(s),
        up == Card::Ace || up == Card::Ten,
        tells_once::<N, S>(val, s, natural_hole(up)->0),
        val(S::prob(s, natural_hole(up)->0)) != 1real,
        0 <= i < 7,
        0 <= k <= S::draws(s).len(),
        hard(single(up)) < 17,
    ensures
        peeked_dist_upto::<N, S>(s, up, natural_hole(up)->0, hs17, k).len() == 7,
        dealer_average::<N, S>(s, single(up), hs17, k).len() == 7,
        i < 6 ==> val(peeked_dist_upto::<N, S>(s, up, natural_hole(up)->0, hs17, k)[i]) * (1real
            - val(S::prob(s, natural_hole(up)->0))) == val(
            dealer_average::<N, S>(s, single(up), hs17, k)[i],
        ),
        i == 6 ==> val(dealer_average::<N, S>(s, single(up), hs17, k)[6]) == if listed::<N, S>(
            s,
            natural_hole(up)->0,
            k,
        ) {
            val(S::prob(s, natural_hole(up)->0))
        } else {
            0real
        },
    decreases k,
{
    exact_whole::<N>(val, 0);
    exact_whole::<N>(val, 1);
    S::draws_are_there(s);
    let bj = natural_hole(up)->0;
    let p = val(S::prob(s, bj));
    let left = 1real - p;
    if k <= 0 {
        assert(0real * left == 0real) by (nonlinear_arith);
    } else {
        looked_upto::<N, S>(val, s, up, hs17, k - 1, i);
        let (hole, q) = S::draws(s)[k - 1];
        let next = S::without(s, single(hole));
        let hand = with_card(single(up), hole);
        S::without_supply(s, single(hole));
        hard_with_n(no_cards(), up.rank(), 1);
        hard_with_n(single(up), hole.rank(), 1);
        natural_by_the_hole(up, hole);
        let sub = dealer_dist::<N, S>(next, hand, hs17);
        let before = peeked_dist_upto::<N, S>(s, up, bj, hs17, k - 1);
        let x = val(q);
        if hole == bj {
            assert(sub == sure::<N>(6));
            assert(x == p);
            assert(x * 0real == 0real && x * 1real == x) by (nonlinear_arith);
            assert(!listed::<N, S>(s, bj, k - 1));
            assert(S::draws(s)[k - 1].0 == bj);
            assert(listed::<N, S>(s, bj, k));
        } else {
            no_natural_later::<N, S>(val, next, hand, hs17);
            let z = val(sub[i]);
            let w = x / left;
            let a = val(before[i]);
            assert((a + w * z) * left == a * left + x * z) by (nonlinear_arith)
                requires
                    w == x / left,
                    left != 0real,
            ;
            assert(x * 0real == 0real && 0real * z == 0real) by (nonlinear_arith);
            assert(val(no_natural::<N, S>(s, bj)) == left);
            if is_nil(q) {
                assert(x == 0real);
            }
            assert(listed::<N, S>(s, bj, k) == listed::<N, S>(s, bj, k - 1)) by {
                if listed::<N, S>(s, bj, k) {
                    let j = choose|j: int| 0 <= j < k && (#[trigger] S::draws(s)[j]).0 == bj;
                    assert(j < k - 1);
                }
            }
        }
    }
}

} // verus!
