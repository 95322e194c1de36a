//! Counting picks of cards.
use crate::num::Scalar;
use crate::shoe::{size, tally_bounds, CardCol, Tally, N_RANKS};
use vstd::prelude::*;

verus! {

broadcast use tally_bounds;

/// In how many ways `k` of `n` things can be picked.
pub open spec fn picks(n: int, k: int) -> nat
    decreases n,
{
    if k < 0 || k > n {
        0
    } else if k == 0 || n <= 0 {
        1
    } else {
        picks(n - 1, k) + picks(n - 1, k - 1)
    }
}

/// Picking `k` of `n` things and then one of the `k` is picking one and then the
/// others; picking `k` and then one of those left out is leaving one out first.
pub proof fn law_picks_absorb(n: int, k: int)
    requires
        n >= 1,
    ensures
        k * picks(n, k) == n * picks(n - 1, k - 1),
        (n - k) * picks(n, k) == n * picks(n - 1, k),
    decreases n,
{
    if k < 0 || k > n {
        assert(k * 0 == 0 && n * 0 == 0 && (n - k) * 0 == 0) by (nonlinear_arith);
    } else if k == 0 {
        assert(picks(n - 1, -1) == 0);
        assert(picks(n - 1, 0) == 1);
    } else if n == 1 {
        assert(k == 1);
        reveal_with_fuel(picks, 3);
    } else {
        law_picks_absorb(n - 1, k);
        law_picks_absorb(n - 1, k - 1);
        let a = picks(n - 1, k) as int;
        let b = picks(n - 1, k - 1) as int;
        let c = picks(n - 2, k - 1) as int;
        let d = picks(n - 2, k - 2) as int;
        let e = picks(n - 2, k) as int;
        assert(k * a == (n - 1) * c);
        assert((k - 1) * b == (n - 1) * d);
        assert((n - 1 - k) * a == (n - 1) * e);
        assert((n - 1 - (k - 1)) * b == (n - 1) * c);
        // `b` is `c + d` and `a` is `e + c`, where they are not at the rim.
        if k == 1 {
            assert(b == 1 && c == 1 && d == 0);
        } else {
            assert(b == c + d);
        }
        if k == n {
            assert(a == 0);
            assert(e == 0);
            picks_of_all(n - 1);
            picks_of_all(n - 2);
        } else if k == n - 1 {
            assert(e == 0);
            picks_of_all(n - 1);
            picks_of_all(n - 2);
        }
        assert(k != n ==> a == e + c);
        assert(k * (a + b) == n * b) by (nonlinear_arith)
            requires
                k * a == (n - 1) * c,
                (k - 1) * b == (n - 1) * d,
                b == c + d,
        ;
        assert((n - k) * (a + b) == n * a) by (nonlinear_arith)
            requires
                (n - 1 - k) * a == (n - 1) * e,
                (n - k) * b == (n - 1) * c,
                k == n || a == e + c,
                k == n ==> a == 0,
        ;
    }
}

/// All of `n` things can be picked in one way.
pub proof fn picks_of_all(n: int)
    requires
        n >= 0,
    ensures
        picks(n, n) == 1,
    decreases n,
{
    if n > 0 {
        picks_of_all(n - 1);
        assert(picks(n - 1, n) == 0);
    }
}

/// There is a way to pick any number of things that are there.
pub proof fn picks_are_there(n: int, k: int)
    requires
        0 <= k <= n,
    ensures
        picks(n, k) >= 1,
    decreases n,
{
    if k > 0 && n > 0 {
        picks_are_there(n - 1, k - 1);
    }
}

/// In how many ways `k` of `n` things can be picked.
pub fn binomial(n: usize, k: usize) -> (r: usize)
    requires
        picks(n as int, k as int) <= usize::MAX,
    ensures
        r == picks(n as int, k as int),
    decreases n,
{
    if k > n {
        0
    } else if k == 0 || k == n {
        proof {
            picks_of_all(n as int);
        }
        1
    } else {
        binomial(n - 1, k) + binomial(n - 1, k - 1)
    }
}

/// In how many ways the cards of the first `k` ranks of a hand can be picked from a
/// deck.
pub open spec fn hand_picks_upto(hand: Tally, deck: Tally, k: int) -> nat
    decreases k,
{
    if k <= 0 {
        1
    } else {
        hand_picks_upto(hand, deck, k - 1) * picks(deck[k - 1] as int, hand[k - 1] as int)
    }
}

/// In how many ways a hand can be picked from a deck.
pub open spec fn hand_picks(hand: Tally, deck: Tally) -> nat {
    hand_picks_upto(hand, deck, 10)
}

/// In how many ways a hand can be picked from a deck, where every step of the count
/// is a number of the machine.
pub fn check_hg_weights(hand: &CardCol, deck: &CardCol) -> (r: usize)
    requires
        forall|k: int| 0 <= k <= 10 ==> #[trigger] hand_picks_upto(hand@, deck@, k) <= usize::MAX,
        forall|k: int| 0 <= k < 10 ==> #[trigger] picks(deck@[k] as int, hand@[k] as int) <= usize::MAX,
    ensures
        r == hand_picks(hand@, deck@),
{
    let mut w: usize = 1;
    let mut i: usize = 0;
    while i < N_RANKS
        invariant
            i <= 10,
            w == hand_picks_upto(hand@, deck@, i as int),
            forall|k: int|
                0 <= k <= 10 ==> #[trigger] hand_picks_upto(hand@, deck@, k) <= usize::MAX,
            forall|k: int|
                0 <= k < 10 ==> #[trigger] picks(deck@[k] as int, hand@[k] as int) <= usize::MAX,
        decreases 10 - i,
    {
        assert(picks(deck@[i as int] as int, hand@[i as int] as int) <= usize::MAX);
        assert(hand_picks_upto(hand@, deck@, i + 1) <= usize::MAX);
        let c: usize = binomial(deck.get_count_i(i) as usize, hand.get_count_i(i) as usize);
        w = w * c;
        i += 1;
    }
    w
}

/// The chance that a pick of as many cards as the hand has is the hand.
pub fn check_hg_norm_weights<N: Scalar>(hand: &CardCol, deck: &CardCol) -> (r: N)
    requires
        forall|k: int| 0 <= k <= 10 ==> #[trigger] hand_picks_upto(hand@, deck@, k) <= usize::MAX,
        forall|k: int| 0 <= k < 10 ==> #[trigger] picks(deck@[k] as int, hand@[k] as int) <= usize::MAX,
        hand_picks(hand@, deck@) <= i64::MAX,
        picks(size(deck@) as int, size(hand@) as int) <= i64::MAX,
        picks(size(deck@) as int, size(hand@) as int) <= usize::MAX,
    ensures
        r == N::ratio_spec(
            hand_picks(hand@, deck@) as i64,
            picks(size(deck@) as int, size(hand@) as int) as i64,
        ),
{
    let num: usize = check_hg_weights(hand, deck);
    let den: usize = binomial(deck.len(), hand.len());
    N::ratio(num as i64, den as i64)
}

} // verus!
