//! Every hand with a given hard total that a deck can deal, listed rank by rank from the
//! highest on.
use crate::card::{card_at, Card};
use crate::combinat::{hand_picks, hand_picks_upto, picks, picks_are_there};
use crate::drawing::Shoe;
use crate::exact::{exact, exact_whole};
use crate::handlaws::{
    falling, falling_in_steps, law_draws_are_picks_in_order, law_weights_are_hypergeometric,
    level_value, orders, real_product,
};
use crate::num::{from_whole, one, whole, Scalar};
use crate::partitions::{finite_level, hard_monotone, hard_with_n, scan_weight};
use crate::shoe::{hard, no_cards, size, tally_bounds, with_n, within, CardCol, Tally};
use vstd::prelude::*;

verus! {

broadcast use tally_bounds;

/// The highest of the first `below` ranks that is there, or -1 where none is.
pub open spec fn highest(deck: Tally, below: int) -> int
    decreases below,
{
    if below <= 0 {
        -1
    } else if deck[below - 1] > 0 {
        below - 1
    } else {
        highest(deck, below - 1)
    }
}

/// The highest rank that is there.
pub open spec fn top(deck: Tally) -> int {
    highest(deck, 10)
}

/// The product `h * (h - 1) * ..` of `k` factors, from the left and starting at one.
pub open spec fn ways_in<N: Scalar>(h: nat, k: nat) -> N
    decreases k,
{
    if k == 0 {
        one::<N>()
    } else {
        ways_in::<N>(h, (k - 1) as nat).times_spec(whole::<N>((h - k + 1) as i64))
    }
}

/// Hands with `k` cards of one more rank, and the weight that those bring with them.
pub open spec fn extended<N: Scalar>(parts: Seq<(N, Tally)>, weight: N, rank: int, k: nat) -> Seq<
    (N, Tally),
> {
    parts.map_values(
        |part: (N, Tally)|
            {
                let hand = with_n(part.1, card_at(rank), k);
                (weight.times_spec(ways_in::<N>(size(hand), k)).times_spec(part.0), hand)
            },
    )
}

/// What cards of one rank count, an ace as one.
#[verifier::opaque]
pub open spec fn points(k: nat, rank: int) -> int {
    k * (rank + 1)
}

/// The hands of a hard total that a deck can deal, each with its weight, where `offset`
/// more cards are in the shoe. The cards of the highest rank come first, then those of
/// the deck without that rank.
pub open spec fn listed<N: Scalar>(deck: Tally, total: nat, offset: nat) -> Seq<(N, Tally)>
    decreases size(deck), 1int, 0int,
    when deck.len() == 10
    via listed_ends::<N>
{
    if total == 0 {
        seq![(one::<N>(), no_cards())]
    } else if size(deck) == 0 {
        seq![]
    } else {
        listed_upto::<N>(deck, total, offset, deck[top(deck)] as int + 1)
    }
}

/// The part of [`listed`] with fewer than `k` cards of the highest rank.
pub open spec fn listed_upto<N: Scalar>(deck: Tally, total: nat, offset: nat, k: int) -> Seq<
    (N, Tally),
>
    decreases size(deck), 0int, k,
    when deck.len() == 10 && size(deck) > 0
    via listed_upto_ends::<N>
{
    if k <= 0 {
        seq![]
    } else {
        let n = deck[top(deck)];
        let j = (k - 1) as nat;
        let used = points(j, top(deck));
        let before = listed_upto::<N>(deck, total, offset, k - 1);
        if used > total {
            before
        } else {
            before + extended(
                listed::<N>(
                    deck.update(top(deck), 0),
                    (total - used) as nat,
                    (offset + n - j) as nat,
                ),
                finite_level::<N>(n, size(deck) + offset, j),
                top(deck),
                j,
            )
        }
    }
}

#[via_fn]
proof fn listed_ends<N: Scalar>(deck: Tally, total: nat, offset: nat) {
}

#[via_fn]
proof fn listed_upto_ends<N: Scalar>(deck: Tally, total: nat, offset: nat, k: int) {
    top_is_there(deck);
}

/// The highest rank of a deck with a card in it.
proof fn top_is_there(deck: Tally)
    requires
        deck.len() == 10,
        size(deck) > 0,
    ensures
        0 <= top(deck) < 10,
        deck[top(deck)] > 0,
        forall|i: int| top(deck) < i < 10 ==> #[trigger] deck[i] == 0,
        size(deck.update(top(deck), 0)) == size(deck) - deck[top(deck)],
{
    highest_is(deck, 10);
    if top(deck) < 0 {
        assert(deck[0] == 0 && deck[1] == 0 && deck[2] == 0 && deck[3] == 0 && deck[4] == 0
            && deck[5] == 0 && deck[6] == 0 && deck[7] == 0 && deck[8] == 0 && deck[9] == 0);
    }
}

proof fn highest_is(deck: Tally, below: int)
    requires
        0 <= below <= 10,
    ensures
        -1 <= highest(deck, below) < below || below == 0,
        highest(deck, below) >= 0 ==> deck[highest(deck, below)] > 0,
        forall|i: int| highest(deck, below) < i < below ==> #[trigger] deck[i] == 0,
    decreases below,
{
    if below > 0 {
        highest_is(deck, below - 1);
    }
}

/// What the factors of [`ways_in`] come to.
fn ways_of<N: Scalar>(h: usize, k: u16) -> (r: N)
    requires
        k <= h <= u32::MAX,
    ensures
        r == ways_in::<N>(h as nat, k as nat),
{
    let mut r: N = from_whole(1);
    let mut i: u16 = 0;
    while i < k
        invariant
            i <= k <= h <= u32::MAX,
            r == ways_in::<N>(h as nat, i as nat),
        decreases k - i,
    {
        let f: N = from_whole((h - i as usize) as i64);
        r = r.times(f);
        i += 1;
    }
    r
}

/// Listed hands as tallies.
pub open spec fn as_tallies<N>(parts: Seq<(N, CardCol)>) -> Seq<(N, Tally)> {
    parts.map_values(|part: (N, CardCol)| (part.0, part.1@))
}

/// Every hand of a hard total that a deck can deal, with its weight.
pub fn listed_partitions<N: Scalar>(
    deck: CardCol,
    hard_total: u8,
    norm_offset: usize,
) -> (r: Vec<(N, CardCol)>)
    requires
        norm_offset + size(deck@) <= u32::MAX,
    ensures
        as_tallies(r@) == listed::<N>(deck@, hard_total as nat, norm_offset as nat),
    decreases size(deck@),
{
    let mut out: Vec<(N, CardCol)> = Vec::new();
    if hard_total == 0 {
        let one_n: N = from_whole(1);
        out.push((one_n, CardCol::new()));
        assert(as_tallies(out@) =~= listed::<N>(deck@, 0, norm_offset as nat));
        return out;
    }
    let n_deck: usize = deck.len();
    let top_rank = match deck.highest_rank() {
        None => {
            assert(as_tallies(out@) =~= seq![]);
            return out;
        },
        Some(card) => card,
    };
    let mut sub_deck = deck;
    let n_top: u16 = sub_deck.remove_rank(top_rank);
    let value: u32 = top_rank.hard() as u32;
    proof {
        top_is_there(deck@);
        if top(deck@) < top_rank.rank() {
            assert(deck@[top_rank.rank()] == 0);
        }
        assert(top(deck@) == top_rank.rank());
        crate::card::law_rank_round_trip(top_rank, 0);
        assert(card_at(top(deck@)) == top_rank);
        assert(as_tallies(out@) =~= listed_upto::<N>(
            deck@,
            hard_total as nat,
            norm_offset as nat,
            0,
        ));
    }
    let mut weight: N = from_whole(1);
    let mut k: u32 = 0;
    assert(points(k as nat, top(deck@)) == k * value) by {
        reveal(points);
    }
    while k <= n_top as u32 && k * value <= hard_total as u32
        invariant
            k <= n_top + 1,
            n_top == deck@[top(deck@)],
            n_deck == size(deck@),
            n_top <= n_deck,
            norm_offset + size(deck@) <= u32::MAX,
            size(deck@) > 0,
            0 <= top(deck@) < 10,
            top_rank.valid(),
            card_at(top(deck@)) == top_rank,
            top(deck@) == top_rank.rank(),
            value == top(deck@) + 1,
            sub_deck@ == deck@.update(top(deck@), 0),
            size(sub_deck@) == size(deck@) - n_top,
            deck@[top(deck@)] > 0,
            hard_total > 0,
            k <= n_top ==> weight == finite_level::<N>(
                n_top as nat,
                (n_deck + norm_offset) as nat,
                k as nat,
            ),
            points(k as nat, top(deck@)) == k * value,
            k * value <= 600,
            as_tallies(out@) == listed_upto::<N>(
                deck@,
                hard_total as nat,
                norm_offset as nat,
                k as int,
            ),
        ensures
            k == n_top + 1 || points(k as nat, top(deck@)) > hard_total,
            k <= n_top + 1,
            as_tallies(out@) == listed_upto::<N>(
                deck@,
                hard_total as nat,
                norm_offset as nat,
                k as int,
            ),
        decreases n_top + 1 - k,
    {
        let used: u32 = k * value;
        let sub_parts: Vec<(N, CardCol)> = listed_partitions(
            sub_deck,
            (hard_total as u32 - used) as u8,
            norm_offset + n_top as usize - k as usize,
        );
        proof {
            law_listed_hands_are_hands::<N>(
                sub_deck@,
                (hard_total - used) as nat,
                (norm_offset + n_top - k) as nat,
            );
        }
        extend_by(&mut out, &sub_parts, weight, top_rank, k as u16, Ghost(sub_deck@));
        if k < n_top as u32 {
            let more: N = from_whole(n_top as i64 - k as i64);
            let next: N = from_whole(k as i64 + 1);
            let left: N = from_whole((n_deck + norm_offset) as i64 - k as i64);
            weight = weight.times(more).over(next).over(left);
        }
        assert((k + 1) * value == k * value + value) by (nonlinear_arith);
        k += 1;
        assert(points(k as nat, top(deck@)) == k * value) by {
            reveal(points);
        }
    }
    proof {
        more_of_the_top::<N>(
            deck@,
            hard_total as nat,
            norm_offset as nat,
            k as int,
            deck@[top(deck@)] as int + 1,
        );
    }
    out
}

/// Where the cards of the highest rank are too many, more of them bring no hand.
proof fn more_of_the_top<N: Scalar>(deck: Tally, total: nat, offset: nat, k: int, m: int)
    requires
        deck.len() == 10,
        size(deck) > 0,
        0 <= k <= m,
        k == m || points(k as nat, top(deck)) > total,
    ensures
        listed_upto::<N>(deck, total, offset, k) == listed_upto::<N>(deck, total, offset, m),
    decreases m,
{
    if k < m {
        top_is_there(deck);
        let v = top(deck) + 1;
        reveal(points);
        assert((m - 1) * v >= k * v) by (nonlinear_arith)
            requires
                m - 1 >= k,
                v >= 0,
        ;
        more_of_the_top::<N>(deck, total, offset, k, m - 1);
    }
}

/// Add hands with `k` cards of one more rank.
fn extend_by<N: Scalar>(
    out: &mut Vec<(N, CardCol)>,
    parts: &Vec<(N, CardCol)>,
    weight: N,
    card: Card,
    k: u16,
    Ghost(deck): Ghost<Tally>,
)
    requires
        card.valid(),
        deck.len() == 10,
        deck[card.rank()] == 0,
        forall|i: int| 0 <= i < parts@.len() ==> within((#[trigger] as_tallies(parts@)[i]).1, deck),
    ensures
        as_tallies(final(out)@) == as_tallies(old(out)@) + extended(
            as_tallies(parts@),
            weight,
            card.rank(),
            k as nat,
        ),
{
    let ghost start = as_tallies(out@);
    let ghost goal = extended(as_tallies(parts@), weight, card.rank(), k as nat);
    let mut i: usize = 0;
    proof {
        crate::card::law_rank_round_trip(card, 0);
        assert(as_tallies(out@) =~= start + goal.take(0));
    }
    while i < parts.len()
        invariant
            i <= parts@.len(),
            card.valid(),
            card_at(card.rank()) == card,
            deck.len() == 10,
            deck[card.rank()] == 0,
            forall|i: int|
                0 <= i < parts@.len() ==> within((#[trigger] as_tallies(parts@)[i]).1, deck),
            goal == extended(as_tallies(parts@), weight, card.rank(), k as nat),
            as_tallies(out@) == start + goal.take(i as int),
        decreases parts@.len() - i,
    {
        let (w, cards) = parts[i];
        let mut hand = cards;
        assert(within(as_tallies(parts@)[i as int].1, deck));
        assert(cards@[card.rank()] <= deck[card.rank()]);
        hand.add_n(card, k);
        let h: usize = hand.len();
        assert(k <= size(hand@)) by {
            crate::shoe::rank_at_most_size(hand@, card.rank());
        }
        let part: N = ways_of(h, k);
        let ghost before = out@;
        out.push((weight.times(part).times(w), hand));
        proof {
            assert(as_tallies(out@) =~= as_tallies(before).push(goal[i as int]));
            assert(goal.take(i as int + 1) =~= goal.take(i as int).push(goal[i as int]));
            assert(as_tallies(out@) =~= start + goal.take(i as int + 1));
        }
        i += 1;
    }
    assert(goal.take(parts@.len() as int) =~= goal);
}

/// Every listed hand can be dealt from the deck and has the hard total.
pub proof fn law_listed_hands_are_hands<N: Scalar>(deck: Tally, total: nat, offset: nat)
    requires
        deck.len() == 10,
    ensures
        forall|i: int|
            0 <= i < listed::<N>(deck, total, offset).len() ==> {
                let hand = (#[trigger] listed::<N>(deck, total, offset)[i]).1;
                hand.len() == 10 && within(hand, deck) && hard(hand) == total
            },
    decreases size(deck), 1int, 0int,
{
    if total > 0 && size(deck) > 0 {
        let k = deck[top(deck)] as int + 1;
        listed_upto_are_hands::<N>(deck, total, offset, k);
        assert(listed::<N>(deck, total, offset) == listed_upto::<N>(deck, total, offset, k));
    } else if total == 0 {
        assert(hard(no_cards()) == 0);
        assert(within(no_cards(), deck));
        assert(listed::<N>(deck, total, offset) == seq![(one::<N>(), no_cards())]);
    } else {
        assert(listed::<N>(deck, total, offset).len() == 0);
    }
}

proof fn points_are_there(k: nat, rank: int)
    requires
        rank >= 0,
    ensures
        points(k, rank) >= 0,
{
    reveal(points);
    assert(k * (rank + 1) >= 0) by (nonlinear_arith)
        requires
            rank >= 0,
            k >= 0,
    ;
}

proof fn rest_is_smaller(deck: Tally, t: int, part: Tally)
    requires
        deck.len() == 10,
        part.len() == 10,
        0 <= t < 10,
        within(part, deck.update(t, 0)),
    ensures
        size(part) + deck[t] <= size(deck),
{
    let sub = deck.update(t, 0);
    assert(part[0] <= sub[0] && part[1] <= sub[1] && part[2] <= sub[2] && part[3] <= sub[3]
        && part[4] <= sub[4] && part[5] <= sub[5] && part[6] <= sub[6] && part[7] <= sub[7]
        && part[8] <= sub[8] && part[9] <= sub[9]);
}

proof fn points_count(t: Tally, rank: int, k: nat)
    requires
        t.len() == 10,
        0 <= rank < 10,
    ensures
        hard(with_n(t, card_at(rank), k)) == hard(t) + points(k, rank),
        size(with_n(t, card_at(rank), k)) == size(t) + k,
{
    reveal(points);
    hard_with_n(t, rank, k);
}

/// A hand of the other ranks, with cards of one more rank.
proof fn grown_hand(deck: Tally, t: int, part: Tally, j: nat)
    requires
        deck.len() == 10,
        part.len() == 10,
        0 <= t < 10,
        within(part, deck.update(t, 0)),
        j <= deck[t],
    ensures
        ({
            let hand = with_n(part, card_at(t), j);
            &&& hand.len() == 10
            &&& within(hand, deck)
            &&& hard(hand) == hard(part) + points(j, t)
            &&& size(hand) == size(part) + j
            &&& size(part) + deck[t] <= size(deck)
            &&& hand[t] == j
            &&& part[t] == 0
            &&& hand.update(t, 0) == part
        }),
{
    let sub = deck.update(t, 0);
    let hand = with_n(part, card_at(t), j);
    crate::card::law_rank_round_trip(card_at(t), t);
    assert(part[t] <= sub[t]);
    points_count(part, t, j);
    rest_is_smaller(deck, t, part);
    assert forall|r: int| 0 <= r < 10 implies #[trigger] hand[r] <= deck[r] by {
        assert(part[r] <= sub[r]);
    }
    assert(hand.update(t, 0) =~= part);
}

proof fn listed_upto_are_hands<N: Scalar>(deck: Tally, total: nat, offset: nat, k: int)
    requires
        deck.len() == 10,
        size(deck) > 0,
        0 <= k <= deck[top(deck)] + 1,
    ensures
        forall|i: int|
            0 <= i < listed_upto::<N>(deck, total, offset, k).len() ==> {
                let hand = (#[trigger] listed_upto::<N>(deck, total, offset, k)[i]).1;
                hand.len() == 10 && within(hand, deck) && hard(hand) == total && hand[top(deck)] < k
            },
    decreases size(deck), 0int, k,
{
    if k > 0 {
        top_is_there(deck);
        listed_upto_are_hands::<N>(deck, total, offset, k - 1);
        let t = top(deck);
        let n = deck[t];
        let j = (k - 1) as nat;
        let used = points(j, t);
        let before = listed_upto::<N>(deck, total, offset, k - 1);
        if used <= total {
            points_are_there(j, t);
            let sub = deck.update(t, 0);
            let parts = listed::<N>(sub, (total - used) as nat, (offset + n - j) as nat);
            law_listed_hands_are_hands::<N>(sub, (total - used) as nat, (offset + n - j) as nat);
            let all = listed_upto::<N>(deck, total, offset, k);
            assert forall|i: int| 0 <= i < all.len() implies {
                let hand = (#[trigger] all[i]).1;
                hand.len() == 10 && within(hand, deck) && hard(hand) == total && hand[t] < k
            } by {
                if i < before.len() {
                    assert(all[i] == before[i]);
                } else {
                    let part = parts[i - before.len()].1;
                    assert(within(part, sub));
                    grown_hand(deck, t, part, j);
                    assert(all[i].1 == with_n(part, card_at(t), j));
                }
            }
        }
    }
}

/// Every hand that the deck can deal with the hard total is listed.
pub proof fn law_every_hand_is_listed<N: Scalar>(
    deck: Tally,
    total: nat,
    offset: nat,
    hand: Tally,
)
    requires
        deck.len() == 10,
        hand.len() == 10,
        within(hand, deck),
        hard(hand) == total,
    ensures
        exists|i: int|
            0 <= i < listed::<N>(deck, total, offset).len() && (#[trigger] listed::<N>(
                deck,
                total,
                offset,
            )[i]).1 == hand,
    decreases size(deck), 1int, 0int,
{
    let all = listed::<N>(deck, total, offset);
    if total == 0 {
        assert(hand =~= no_cards());
        assert(all[0].1 == hand);
    } else {
        assert(size(deck) > 0) by {
            assert(hand[0] <= deck[0] && hand[1] <= deck[1] && hand[2] <= deck[2] && hand[3]
                <= deck[3] && hand[4] <= deck[4] && hand[5] <= deck[5] && hand[6] <= deck[6]
                && hand[7] <= deck[7] && hand[8] <= deck[8] && hand[9] <= deck[9]);
        }
        top_is_there(deck);
        assert(hand[top(deck)] <= deck[top(deck)]);
        listed_upto_holds::<N>(deck, total, offset, deck[top(deck)] as int + 1, hand);
    }
}

proof fn listed_upto_holds<N: Scalar>(
    deck: Tally,
    total: nat,
    offset: nat,
    k: int,
    hand: Tally,
)
    requires
        deck.len() == 10,
        size(deck) > 0,
        hand.len() == 10,
        within(hand, deck),
        hard(hand) == total,
        hand[top(deck)] < k <= deck[top(deck)] + 1,
    ensures
        exists|i: int|
            0 <= i < listed_upto::<N>(deck, total, offset, k).len() && (
            #[trigger] listed_upto::<N>(deck, total, offset, k)[i]).1 == hand,
    decreases size(deck), 0int, k,
{
    top_is_there(deck);
    let t = top(deck);
    let n = deck[t];
    let j = (k - 1) as nat;
    let used = points(j, t);
    let before = listed_upto::<N>(deck, total, offset, k - 1);
    let all = listed_upto::<N>(deck, total, offset, k);
    if hand[t] < j {
        listed_upto_holds::<N>(deck, total, offset, k - 1, hand);
        let i = choose|i: int| 0 <= i < before.len() && (#[trigger] before[i]).1 == hand;
        assert(all[i] == before[i]);
    } else {
        let sub = deck.update(t, 0);
        let part = hand.update(t, 0);
        assert(with_n(part, card_at(t), j) =~= hand) by {
            crate::card::law_rank_round_trip(card_at(t), t);
        }
        assert forall|r: int| 0 <= r < 10 implies #[trigger] part[r] <= sub[r] by {
            assert(hand[r] <= deck[r]);
        }
        grown_hand(deck, t, part, j);
        let parts = listed::<N>(sub, (total - used) as nat, (offset + n - j) as nat);
        law_every_hand_is_listed::<N>(
            sub,
            (total - used) as nat,
            (offset + n - j) as nat,
            part,
        );
        let i = choose|i: int| 0 <= i < parts.len() && (#[trigger] parts[i]).1 == part;
        assert(all[before.len() + i].1 == hand);
    }
}

/// No hand is listed twice.
pub proof fn law_listed_hands_differ<N: Scalar>(
    deck: Tally,
    total: nat,
    offset: nat,
    a: int,
    b: int,
)
    requires
        deck.len() == 10,
        0 <= a < b < listed::<N>(deck, total, offset).len(),
    ensures
        listed::<N>(deck, total, offset)[a].1 != listed::<N>(deck, total, offset)[b].1,
    decreases size(deck), 1int, 0int,
{
    if total > 0 && size(deck) > 0 {
        listed_upto_differ::<N>(deck, total, offset, deck[top(deck)] as int + 1, a, b);
    }
}

proof fn listed_upto_differ<N: Scalar>(
    deck: Tally,
    total: nat,
    offset: nat,
    k: int,
    a: int,
    b: int,
)
    requires
        deck.len() == 10,
        size(deck) > 0,
        0 <= k <= deck[top(deck)] + 1,
        0 <= a < b < listed_upto::<N>(deck, total, offset, k).len(),
    ensures
        listed_upto::<N>(deck, total, offset, k)[a].1 != listed_upto::<N>(deck, total, offset, k)[b].1,
    decreases size(deck), 0int, k,
{
    top_is_there(deck);
    let t = top(deck);
    let n = deck[t];
    let j = (k - 1) as nat;
    let used = points(j, t);
    let before = listed_upto::<N>(deck, total, offset, k - 1);
    let all = listed_upto::<N>(deck, total, offset, k);
    if used > total || b < before.len() {
        assert(all[a] == before[a] && all[b] == before[b]);
        listed_upto_differ::<N>(deck, total, offset, k - 1, a, b);
    } else {
        let sub = deck.update(t, 0);
        let rest = (total - used) as nat;
        let off = (offset + n - j) as nat;
        let parts = listed::<N>(sub, rest, off);
        crate::card::law_rank_round_trip(card_at(t), t);
        law_listed_hands_are_hands::<N>(sub, rest, off);
        let pb = parts[b - before.len()].1;
        assert(pb[t] <= sub[t]);
        assert(all[b].1 == with_n(pb, card_at(t), j));
        assert(all[b].1[t] == j);
        if a < before.len() {
            listed_upto_are_hands::<N>(deck, total, offset, k - 1);
            assert(all[a] == before[a]);
            assert(before[a].1[t] < k - 1);
        } else {
            let pa = parts[a - before.len()].1;
            law_listed_hands_differ::<N>(sub, rest, off, a - before.len(), b - before.len());
            assert(pa[t] <= sub[t]);
            assert(all[a].1 == with_n(pa, card_at(t), j));
            if all[a].1 == all[b].1 {
                assert(pa =~= all[a].1.update(t, 0));
                assert(pb =~= all[b].1.update(t, 0));
            }
        }
    }
}

/// What the product of a hand's falling size comes to.
proof fn ways_value<N: Scalar>(val: spec_fn(N) -> real, h: nat, k: nat)
    requires
        exact(val),
        k <= h <= i64::MAX,
    ensures
        val(ways_in::<N>(h, k)) * (orders((h - k) as nat) as int) as real == (orders(
            h,
        ) as int) as real,
    decreases k,
{
    exact_whole::<N>(val, 1);
    if k == 0 {
        let o = (orders(h) as int) as real;
        assert(1real * o == o) by (nonlinear_arith);
    } else {
        let j = (k - 1) as nat;
        ways_value::<N>(val, h, j);
        exact_whole::<N>(val, (h - j) as i64);
        let x = val(ways_in::<N>(h, j));
        let f = (h - j) as int as real;
        let o = (orders((h - k) as nat) as int) as real;
        real_product(orders((h - k) as nat) as int, h - j);
        assert((h - j) as nat == (h - k) as nat + 1);
        assert((orders((h - j) as nat) as int) as real == o * f);
        assert((x * f) * o == x * (o * f)) by (nonlinear_arith);
    }
}

/// The ways to pick a hand are the ways to pick its cards of one rank times those to pick
/// the others.
proof fn picks_of_the_top(hand: Tally, deck: Tally, t: int, k: int)
    requires
        hand.len() == 10,
        deck.len() == 10,
        0 <= t < 10,
        0 <= k <= 10,
    ensures
        hand_picks_upto(hand, deck, k) == hand_picks_upto(hand.update(t, 0), deck.update(t, 0), k)
            * if t < k {
            picks(deck[t] as int, hand[t] as int)
        } else {
            1
        },
    decreases k,
{
    if k > 0 {
        picks_of_the_top(hand, deck, t, k - 1);
        let a = hand_picks_upto(hand.update(t, 0), deck.update(t, 0), k - 1) as int;
        let p = picks(deck[k - 1] as int, hand[k - 1] as int) as int;
        let q = picks(deck[t] as int, hand[t] as int) as int;
        assert(picks(0, 0) == 1);
        if t == k - 1 {
            assert(a * 1 == a) by (nonlinear_arith);
        } else if t < k - 1 {
            assert((a * q) * p == (a * p) * q) by (nonlinear_arith);
        } else {
            assert((a * 1) * p == (a * p) * 1) by (nonlinear_arith);
        }
    }
}

proof fn one_way_to_pick_none(deck: Tally, k: int)
    requires
        0 <= k <= 10,
    ensures
        hand_picks_upto(no_cards(), deck, k) == 1,
    decreases k,
{
    if k > 0 {
        one_way_to_pick_none(deck, k - 1);
        assert(no_cards()[k - 1] == 0);
        assert(picks(deck[k - 1] as int, no_cards()[k - 1] as int) == 1);
        assert(1nat * 1 == 1);
    }
}

/// In an exact arithmetic the weight of a listed hand is, with the cards that are in the
/// shoe besides the deck, the ways to pick the hand over the ways to draw as many cards,
/// times the orders in which they can come.
pub proof fn law_listed_weights<N: Scalar>(
    val: spec_fn(N) -> real,
    deck: Tally,
    total: nat,
    offset: nat,
    i: int,
)
    requires
        exact(val),
        deck.len() == 10,
        size(deck) + offset <= i64::MAX,
        0 <= i < listed::<N>(deck, total, offset).len(),
    ensures
        ({
            let (w, hand) = listed::<N>(deck, total, offset)[i];
            val(w) * (falling((size(deck) + offset) as int, size(hand)) as int) as real == (orders(
                size(hand),
            ) as int) as real * (hand_picks(hand, deck) as int) as real
        }),
    decreases size(deck), 1int, 0int,
{
    if total > 0 && size(deck) > 0 {
        listed_upto_weights::<N>(val, deck, total, offset, deck[top(deck)] as int + 1, i);
    } else {
        exact_whole::<N>(val, 1);
        assert(size(no_cards()) == 0);
        one_way_to_pick_none(deck, 10);
        assert(1real * 1real == 1real) by (nonlinear_arith);
    }
}

proof fn listed_upto_weights<N: Scalar>(
    val: spec_fn(N) -> real,
    deck: Tally,
    total: nat,
    offset: nat,
    k: int,
    i: int,
)
    requires
        exact(val),
        deck.len() == 10,
        size(deck) > 0,
        size(deck) + offset <= i64::MAX,
        0 <= k <= deck[top(deck)] + 1,
        0 <= i < listed_upto::<N>(deck, total, offset, k).len(),
    ensures
        ({
            let (w, hand) = listed_upto::<N>(deck, total, offset, k)[i];
            val(w) * (falling((size(deck) + offset) as int, size(hand)) as int) as real == (orders(
                size(hand),
            ) as int) as real * (hand_picks(hand, deck) as int) as real
        }),
    decreases size(deck), 0int, k,
{
    top_is_there(deck);
    let t = top(deck);
    let n = deck[t];
    let j = (k - 1) as nat;
    let used = points(j, t);
    let before = listed_upto::<N>(deck, total, offset, k - 1);
    let all = listed_upto::<N>(deck, total, offset, k);
    if used > total || i < before.len() {
        assert(all[i] == before[i]);
        listed_upto_weights::<N>(val, deck, total, offset, k - 1, i);
    } else {
        let sub = deck.update(t, 0);
        let rest = (total - used) as nat;
        let off = (offset + n - j) as nat;
        let parts = listed::<N>(sub, rest, off);
        let (w, part) = parts[i - before.len()];
        law_listed_hands_are_hands::<N>(sub, rest, off);
        law_listed_weights::<N>(val, sub, rest, off, i - before.len());
        assert(within(part, sub));
        grown_hand(deck, t, part, j);
        let hand = with_n(part, card_at(t), j);
        picks_of_the_top(hand, deck, t, 10);
        top_value::<N>(val, n, size(deck) + offset, j, w, size(part), hand_picks(part, sub));
        assert(all[i] == (
            finite_level::<N>(n, size(deck) + offset, j).times_spec(
                ways_in::<N>(size(hand), j),
            ).times_spec(w),
            hand,
        ));
    }
}

proof fn swapped_factors(a: real, b: real, c: real, d: real)
    ensures
        (a * b) * (c * d) == (a * c) * (b * d),
{
    assert((a * b) * (c * d) == (a * c) * (b * d)) by (nonlinear_arith);
}

/// One step of [`law_listed_weights`].
proof fn top_value<N: Scalar>(
    val: spec_fn(N) -> real,
    n: nat,
    base: nat,
    j: nat,
    w: N,
    g: nat,
    q: nat,
)
    requires
        exact(val),
        j <= n,
        g + n <= base <= i64::MAX,
        val(w) * (falling(base - j, g) as int) as real == (orders(g) as int) as real * (
        q as int) as real,
    ensures
        val(
            finite_level::<N>(n, base, j).times_spec(ways_in::<N>(g + j, j)).times_spec(w),
        ) * (falling(base as int, g + j) as int) as real == (orders(g + j) as int) as real * ((q
            * picks(n as int, j as int)) as int) as real,
{
    let h = g + j;
    level_value::<N>(val, n, base, j);
    ways_value::<N>(val, h, j);
    falling_in_steps(base as int, j, g);
    let l = val(finite_level::<N>(n, base, j));
    let v = val(ways_in::<N>(h, j));
    let x = val(w);
    let fj = (falling(base as int, j) as int) as real;
    let fg = (falling(base - j, g) as int) as real;
    let p = (picks(n as int, j as int) as int) as real;
    let qq = (q as int) as real;
    let og = (orders(g) as int) as real;
    let oh = (orders(h) as int) as real;
    real_product(falling(base as int, j) as int, falling(base - j, g) as int);
    real_product(q as int, picks(n as int, j as int) as int);
    assert(j + g == h);
    assert((falling(base as int, h) as int) as real == fj * fg);
    swapped_factors(l * v, x, fj, fg);
    assert((l * v) * fj == (l * fj) * v) by (nonlinear_arith);
    swapped_factors(v, p, og, qq);
    assert(p * v == v * p) by (nonlinear_arith);
    assert(p * qq == qq * p) by (nonlinear_arith);
    let y = val(finite_level::<N>(n, base, j).times_spec(ways_in::<N>(h, j)).times_spec(w));
    assert(y == (l * v) * x);
    assert(y * (fj * fg) == (p * v) * (og * qq));
    assert((v * og) * (p * qq) == oh * (qq * p));
}

pub proof fn orders_are_there(n: nat)
    ensures
        orders(n) > 0,
    decreases n,
{
    if n > 0 {
        orders_are_there((n - 1) as nat);
        let o = orders((n - 1) as nat) as int;
        assert(o * n > 0) by (nonlinear_arith)
            requires
                o > 0,
                n > 0,
        ;
    }
}

/// In an exact arithmetic a listed hand has the weight that dealing it from the deck has.
pub proof fn law_listing_agrees_with_dealing<N: Scalar>(
    val: spec_fn(N) -> real,
    deck: Tally,
    total: nat,
    i: int,
)
    requires
        exact(val),
        <CardCol as Shoe<N>>::sane(deck),
        0 <= i < listed::<N>(deck, total, 0).len(),
    ensures
        ({
            let (w, hand) = listed::<N>(deck, total, 0)[i];
            val(w) == val(scan_weight::<N, CardCol>(deck, hand))
        }),
{
    let (w, hand) = listed::<N>(deck, total, 0)[i];
    law_listed_hands_are_hands::<N>(deck, total, 0);
    assert(within(hand, deck));
    hard_monotone(hand, deck);
    law_listed_weights::<N>(val, deck, total, 0, i);
    law_weights_are_hypergeometric::<N>(val, deck, hand);
    let h = size(hand);
    let n = size(deck) as int;
    law_draws_are_picks_in_order(n, h);
    orders_are_there(h);
    picks_are_there(n, h as int);
    let o = (orders(h) as int) as real;
    let c = (picks(n, h as int) as int) as real;
    real_product(orders(h) as int, picks(n, h as int) as int);
    same_quotient(val(w), val(scan_weight::<N, CardCol>(deck, hand)), o, c);
}

proof fn same_quotient(x: real, y: real, o: real, c: real)
    requires
        o > 0real,
        c > 0real,
        x * (o * c) == o * (y * c),
    ensures
        x == y,
{
    let d = o * c;
    assert(d > 0real) by (nonlinear_arith)
        requires
            d == o * c,
            o > 0real,
            c > 0real,
    ;
    assert(o * (y * c) == y * (o * c)) by (nonlinear_arith);
    assert(x == y) by (nonlinear_arith)
        requires
            x * d == y * d,
            d > 0real,
    ;
}

} // verus!
