//! Every hand with a given hard total that a shoe can deal, with the weight of
//! dealing it.
use crate::card::{card_at, Card};
use crate::drawing::{fits, Shoe};
use crate::num::{from_whole, one, whole, Scalar};
use crate::shoe::{hard, no_cards, size, tally_bounds, with_n, CardCol, Tally, N_RANKS};
use vstd::prelude::*;

verus! {

broadcast use tally_bounds;

/// The factor that `k` cards of a rank bring to a weight where `n` of the
/// `remaining` cards have that rank: the ways to choose them, over the ways to
/// draw as many cards one after the other.
pub open spec fn finite_level<N: Scalar>(n: nat, remaining: nat, k: nat) -> N
    decreases k,
{
    if k == 0 {
        one::<N>()
    } else {
        let j = (k - 1) as nat;
        finite_level::<N>(n, remaining, j).times_spec(whole::<N>((n - j) as i64)).over_spec(
            whole::<N>(k as i64),
        ).over_spec(whole::<N>((remaining - j) as i64))
    }
}

/// The factor that `k` cards of a rank bring to a weight where each comes with
/// the chance `p`.
pub open spec fn endless_level<N: Scalar>(p: N, k: nat) -> N
    decreases k,
{
    if k == 0 {
        one::<N>()
    } else {
        endless_level::<N>(p, (k - 1) as nat).times_spec(p).over_spec(whole::<N>(k as i64))
    }
}

/// The factor that `k` cards of the rank at place `rank` bring to a weight.
pub open spec fn level<N: Scalar, S: Shoe<N>>(
    s: S::State,
    rank: int,
    remaining: nat,
    k: nat,
) -> N {
    match S::supply(s, rank) {
        Some(n) => finite_level::<N>(n, remaining, k),
        None => endless_level::<N>(S::prob(s, card_at(rank)), k),
    }
}

/// How many cards are left when `k` cards of a rank are used.
pub open spec fn remaining_after<N: Scalar, S: Shoe<N>>(
    s: S::State,
    rank: int,
    remaining: nat,
    k: nat,
) -> nat {
    match S::supply(s, rank) {
        Some(n) => (remaining - k) as nat,
        None => remaining,
    }
}

/// How many cards of the rank at place `rank` fit under a total and are there.
pub open spec fn most<N: Scalar, S: Shoe<N>>(s: S::State, rank: int, total: nat) -> nat {
    let fit = (total as int / (rank + 1)) as nat;
    match S::supply(s, rank) {
        Some(n) => if n < fit {
            n
        } else {
            fit
        },
        None => fit,
    }
}

/// The product of the whole numbers up to `n`.
pub open spec fn factorial<N: Scalar>(n: nat) -> N
    decreases n,
{
    if n == 0 {
        one::<N>()
    } else {
        factorial::<N>((n - 1) as nat).times_spec(whole::<N>(n as i64))
    }
}

/// The hands that come of filling up `hand` with cards of the lowest `ranks`
/// ranks until `total` is used up, each with its weight.
pub open spec fn expand<N: Scalar, S: Shoe<N>>(
    s: S::State,
    ranks: nat,
    total: nat,
    hand: Tally,
    weight: N,
    remaining: nat,
) -> Seq<(N, Tally)>
    decreases ranks, most::<N, S>(s, ranks - 1, total) + 2,
{
    if total == 0 {
        seq![(weight.times_spec(factorial::<N>(size(hand))), hand)]
    } else if ranks == 0 {
        Seq::empty()
    } else {
        expand_counts::<N, S>(
            s,
            ranks,
            total,
            hand,
            weight,
            remaining,
            most::<N, S>(s, ranks - 1, total) as int,
        )
    }
}

/// The part of [`expand`] with at most `k` cards of the highest of its ranks,
/// larger numbers first.
pub open spec fn expand_counts<N: Scalar, S: Shoe<N>>(
    s: S::State,
    ranks: nat,
    total: nat,
    hand: Tally,
    weight: N,
    remaining: nat,
    k: int,
) -> Seq<(N, Tally)>
    decreases ranks, k + 1,
    when ranks > 0
{
    if k < 0 {
        Seq::empty()
    } else {
        expand::<N, S>(
            s,
            (ranks - 1) as nat,
            (total - k * ranks) as nat,
            with_n(hand, card_at(ranks - 1), k as nat),
            weight.times_spec(level::<N, S>(s, ranks - 1, remaining, k as nat)),
            remaining_after::<N, S>(s, ranks - 1, remaining, k as nat),
        ) + expand_counts::<N, S>(s, ranks, total, hand, weight, remaining, k - 1)
    }
}

/// How many cards there are of the first `ranks` ranks, as far as there is an
/// end of them.
pub open spec fn finite_supply<N: Scalar, S: Shoe<N>>(s: S::State, ranks: int) -> nat
    decreases ranks,
{
    if ranks <= 0 {
        0
    } else {
        finite_supply::<N, S>(s, ranks - 1) + match S::supply(s, ranks - 1) {
            Some(n) => n,
            None => 0,
        }
    }
}

/// Every hand with the hard total `total` that a shoe can deal, with its weight.
pub open spec fn partitions<N: Scalar, S: Shoe<N>>(s: S::State, total: nat) -> Seq<(N, Tally)> {
    expand::<N, S>(s, 10, total, no_cards(), one::<N>(), finite_supply::<N, S>(s, 10))
}

/// One open branch of the enumeration: the ranks still to branch on, the total
/// still to fill, the cards chosen so far with their weight, and how many cards
/// of a finite shoe are left.
pub struct PartitionFrame<N> {
    ranks: usize,
    hard_total: u8,
    hand: CardCol,
    weight: N,
    remaining: u32,
}

impl<N: Scalar> PartitionFrame<N> {
    spec fn hands<S: Shoe<N>>(self, s: S::State) -> Seq<(N, Tally)> {
        expand::<N, S>(
            s,
            self.ranks as nat,
            self.hard_total as nat,
            self.hand@,
            self.weight,
            self.remaining as nat,
        )
    }

    spec fn ok<S: Shoe<N>>(self, s: S::State) -> bool {
        &&& self.ranks <= 10
        &&& forall|j: int| 0 <= j < self.ranks ==> #[trigger] self.hand@[j] == 0
        &&& finite_supply::<N, S>(s, self.ranks as int) <= self.remaining
    }
}

/// A lazy enumeration of the hands with one hard total: an explicit stack of
/// open branches, the highest rank branched on first.
pub struct WeightedPartitions<N: Scalar, S: Shoe<N>> {
    stack: Vec<PartitionFrame<N>>,
    shoe: S,
}

spec fn stack_hands<N: Scalar, S: Shoe<N>>(
    s: S::State,
    stack: Seq<PartitionFrame<N>>,
) -> Seq<(N, Tally)>
    decreases stack.len(),
{
    if stack.len() == 0 {
        Seq::empty()
    } else {
        stack.last().hands::<S>(s) + stack_hands::<N, S>(s, stack.drop_last())
    }
}

spec fn stack_ok<N: Scalar, S: Shoe<N>>(s: S::State, stack: Seq<PartitionFrame<N>>) -> bool {
    forall|i: int| 0 <= i < stack.len() ==> (#[trigger] stack[i]).ok::<S>(s)
}

/// An upper bound of the branches below a frame.
spec fn branches(ranks: nat) -> nat
    decreases ranks,
{
    if ranks == 0 {
        1
    } else {
        1 + 256 * branches((ranks - 1) as nat)
    }
}

spec fn stack_branches<N: Scalar>(stack: Seq<PartitionFrame<N>>) -> nat
    decreases stack.len(),
{
    if stack.len() == 0 {
        0
    } else {
        branches(stack.last().ranks as nat) + stack_branches(stack.drop_last())
    }
}

fn factorial_of<N: Scalar>(n: usize) -> (r: N)
    requires
        n <= u32::MAX,
    ensures
        r == factorial::<N>(n as nat),
{
    let mut r: N = from_whole(1);
    let mut k: usize = 0;
    while k < n
        invariant
            k <= n <= u32::MAX,
            r == factorial::<N>(k as nat),
        decreases n - k,
    {
        k += 1;
        let f: N = from_whole(k as i64);
        r = r.times(f);
    }
    r
}

impl<N: Scalar, S: Shoe<N>> WeightedPartitions<N, S> {
    /// Whether the open branches belong to the shoe.
    pub closed spec fn wf(&self) -> bool {
        stack_ok::<N, S>(self.shoe.state(), self.stack@)
    }

    /// The hands that are still to come, in the order in which they come.
    pub closed spec fn pending(&self) -> Seq<(N, Tally)> {
        stack_hands::<N, S>(self.shoe.state(), self.stack@)
    }

    /// Start the enumeration of the hands with this hard total.
    pub fn new(shoe: &S, hard_total: u8) -> (r: Self)
        ensures
            r.wf(),
            r.pending() == partitions::<N, S>(shoe.state(), hard_total as nat),
    {
        let mut remaining: u32 = 0;
        let mut i: usize = 0;
        while i < N_RANKS
            invariant
                i <= 10,
                remaining <= i * 65535,
                remaining == finite_supply::<N, S>(shoe.state(), i as int),
            decreases 10 - i,
        {
            let rank = Card::from_rank_index(i);
            match shoe.rank_count(&rank) {
                Some(n) => {
                    remaining = remaining + n as u32;
                },
                None => {},
            }
            i += 1;
        }
        let one_n: N = from_whole(1);
        let frame = PartitionFrame {
            ranks: N_RANKS,
            hard_total,
            hand: CardCol::new(),
            weight: one_n,
            remaining,
        };
        let mut stack: Vec<PartitionFrame<N>> = Vec::new();
        stack.push(frame);
        let r = WeightedPartitions { stack, shoe: shoe.duplicate() };
        proof {
            assert(r.stack@.drop_last() =~= Seq::empty());
            assert(stack_hands::<N, S>(r.shoe.state(), r.stack@.drop_last()) =~= Seq::empty());
            assert(r.pending() =~= frame.hands::<S>(r.shoe.state()));
        }
        r
    }

    /// The next hand with its weight, or `None` when there are no more.
    pub fn next(&mut self) -> (r: Option<(N, CardCol)>)
        requires
            old(self).wf(),
        ensures
            final(self).wf(),
            match r {
                Some((weight, hand)) => {
                    &&& old(self).pending().len() > 0
                    &&& old(self).pending()[0] == (weight, hand@)
                    &&& final(self).pending() == old(self).pending().drop_first()
                },
                None => old(self).pending().len() == 0 && final(self).pending().len() == 0,
            },
    {
        let ghost s = self.shoe.state();
        let ghost all = self.pending();
        loop
            invariant
                self.wf(),
                self.shoe.state() == s,
                all == old(self).pending(),
                self.pending() == all,
            decreases stack_branches(self.stack@),
        {
            let ghost whole_stack = self.stack@;
            let frame = match self.stack.pop() {
                None => {
                    assert(all.len() == 0);
                    return None;
                },
                Some(frame) => frame,
            };
            let ghost base = self.stack@;
            proof {
                assert(base =~= whole_stack.drop_last());
                assert(frame == whole_stack.last());
                assert(frame.ok::<S>(s));
                assert forall|i: int| 0 <= i < base.len() implies (#[trigger] base[i]).ok::<S>(
                    s,
                ) by {
                    assert(base[i] == whole_stack[i]);
                }
            }
            if frame.hard_total == 0 {
                let n: usize = frame.hand.len();
                let n_fact: N = factorial_of(n);
                let weight: N = frame.weight.times(n_fact);
                proof {
                    let first = seq![(weight, frame.hand@)];
                    assert(frame.hands::<S>(s) =~= first);
                    assert(all =~= first + stack_hands::<N, S>(s, base));
                    assert(all.drop_first() =~= stack_hands::<N, S>(s, base));
                }
                return Some((weight, frame.hand));
            }
            if frame.ranks > 0 {
                self.branch(&frame);
                proof {
                    assert(frame.hands::<S>(s) + stack_hands::<N, S>(s, base) =~= all);
                }
            } else {
                proof {
                    assert(frame.hands::<S>(s) =~= Seq::empty());
                    assert(all =~= stack_hands::<N, S>(s, base));
                }
            }
        }
    }

    /// Replace a branch by one branch for each number of cards of its highest
    /// rank.
    fn branch(&mut self, frame: &PartitionFrame<N>)
        requires
            old(self).wf(),
            frame.ok::<S>(old(self).shoe.state()),
            frame.hard_total > 0,
            frame.ranks > 0,
        ensures
            final(self).shoe.state() == old(self).shoe.state(),
            final(self).wf(),
            final(self).pending() == frame.hands::<S>(old(self).shoe.state()) + old(self).pending(),
            stack_branches(final(self).stack@) < branches(frame.ranks as nat) + stack_branches(
                old(self).stack@,
            ),
    {
        let ghost s = self.shoe.state();
        let ghost base = self.stack@;
        let rank: usize = frame.ranks - 1;
        let top_rank = Card::from_rank_index(rank);
        let value: u8 = top_rank.hard();
        let fit: u16 = (frame.hard_total / value) as u16;
        let count = self.shoe.rank_count(&top_rank);
        let max_k: u16 = match count {
            Some(n) => if n < fit {
                n
            } else {
                fit
            },
            None => fit,
        };
        let p: N = self.shoe.draw_prob(&top_rank);
        let mut level_weight: N = from_whole(1);
        let mut k: u16 = 0;
        assert(max_k == most::<N, S>(s, rank as int, frame.hard_total as nat));
        assert(stack_branches(base) == stack_branches(base) + 0 * branches(rank as nat));
        while k <= max_k
            invariant
                self.shoe.state() == s,
                rank == frame.ranks - 1,
                rank < 10,
                top_rank == card_at(rank as int),
                top_rank.valid(),
                value == rank + 1,
                frame.hard_total > 0,
                frame.ok::<S>(s),
                fit == frame.hard_total as int / value as int,
                max_k <= fit <= 255,
                k <= max_k + 1,
                p == S::prob(s, top_rank),
                match count {
                    Some(n) => S::supply(s, rank as int) == Some(n as nat) && max_k <= n,
                    None => S::supply(s, rank as int) is None,
                },
                k <= max_k ==> level_weight == level::<N, S>(
                    s,
                    rank as int,
                    frame.remaining as nat,
                    k as nat,
                ),
                stack_ok::<N, S>(s, self.stack@),
                stack_hands::<N, S>(s, self.stack@) =~= expand_counts::<N, S>(
                    s,
                    frame.ranks as nat,
                    frame.hard_total as nat,
                    frame.hand@,
                    frame.weight,
                    frame.remaining as nat,
                    k - 1,
                ) + stack_hands::<N, S>(s, base),
                stack_branches(self.stack@) == stack_branches(base) + k * branches(rank as nat),
            decreases max_k + 1 - k,
        {
            let ghost before = self.stack@;
            assert(k * value <= frame.hard_total) by (nonlinear_arith)
                requires
                    k <= fit,
                    fit == frame.hard_total as int / value as int,
                    value > 0,
            ;
            let mut child_hand = frame.hand;
            assert(frame.hand@[rank as int] == 0);
            child_hand.add_n(top_rank, k);
            let used: u8 = (k as u8) * value;
            let child = PartitionFrame {
                ranks: rank,
                hard_total: frame.hard_total - used,
                hand: child_hand,
                weight: frame.weight.times(level_weight),
                remaining: match count {
                    Some(_) => frame.remaining - k as u32,
                    None => frame.remaining,
                },
            };
            self.stack.push(child);
            proof {
                assert(self.stack@.drop_last() =~= before);
                assert(child.ok::<S>(s));
                assert forall|i: int| 0 <= i < self.stack@.len() implies (
                #[trigger] self.stack@[i]).ok::<S>(s) by {
                    if i < before.len() {
                        assert(self.stack@[i] == before[i]);
                    }
                }
                let counts_before = expand_counts::<N, S>(
                    s,
                    frame.ranks as nat,
                    frame.hard_total as nat,
                    frame.hand@,
                    frame.weight,
                    frame.remaining as nat,
                    k - 1,
                );
                let counts_after = expand_counts::<N, S>(
                    s,
                    frame.ranks as nat,
                    frame.hard_total as nat,
                    frame.hand@,
                    frame.weight,
                    frame.remaining as nat,
                    k as int,
                );
                assert(counts_after =~= child.hands::<S>(s) + counts_before);
                assert(stack_hands::<N, S>(s, self.stack@) =~= child.hands::<S>(s) + stack_hands::<
                    N,
                    S,
                >(s, before));
                assert((k + 1) * branches(rank as nat) == k * branches(rank as nat) + branches(
                    rank as nat,
                )) by (nonlinear_arith);
            }
            match count {
                Some(n) => {
                    if k < max_k {
                        let more: N = from_whole((n - k) as i64);
                        let chosen: N = from_whole(k as i64 + 1);
                        let left: N = from_whole(frame.remaining as i64 - k as i64);
                        level_weight = level_weight.times(more).over(chosen).over(left);
                    }
                },
                None => {
                    let chosen: N = from_whole(k as i64 + 1);
                    level_weight = level_weight.times(p).over(chosen);
                },
            }
            k += 1;
        }
        assert(k * branches(rank as nat) <= 256 * branches(rank as nat)) by (nonlinear_arith)
            requires
                k <= 256,
        ;
    }
}

/// How many cards of a finite shoe are left when the cards of `hand` from the
/// rank at place `from` on are used.
pub open spec fn left_at<N: Scalar, S: Shoe<N>>(s: S::State, hand: Tally, from: int) -> nat
    decreases 10 - from,
{
    if from >= 10 {
        finite_supply::<N, S>(s, 10)
    } else {
        remaining_after::<N, S>(s, from, left_at::<N, S>(s, hand, from + 1), hand[from])
    }
}

/// The product of the factors of the ranks from place `from` on, the highest
/// rank first.
pub open spec fn scan_path<N: Scalar, S: Shoe<N>>(s: S::State, hand: Tally, from: int) -> N
    decreases 10 - from,
{
    if from >= 10 {
        one::<N>()
    } else {
        scan_path::<N, S>(s, hand, from + 1).times_spec(
            level::<N, S>(s, from, left_at::<N, S>(s, hand, from + 1), hand[from]),
        )
    }
}

/// The place of the lowest rank from `from` on that is in the hand.
pub open spec fn lowest_from(hand: Tally, from: int) -> int
    decreases 10 - from,
{
    if from >= 10 || hand[from] > 0 {
        from
    } else {
        lowest_from(hand, from + 1)
    }
}

/// The weight of a hand: the factors of its ranks down to the lowest, times the
/// orders in which its cards can come.
pub open spec fn scan_weight<N: Scalar, S: Shoe<N>>(s: S::State, hand: Tally) -> N {
    scan_path::<N, S>(s, hand, lowest_from(hand, 0)).times_spec(factorial::<N>(size(hand)))
}

/// Adding cards of one rank adds their values to the total.
pub proof fn hard_with_n(t: Tally, rank: int, n: nat)
    requires
        t.len() == 10,
        0 <= rank < 10,
    ensures
        hard(with_n(t, card_at(rank), n)) == hard(t) + n * (rank + 1),
        size(with_n(t, card_at(rank), n)) == size(t) + n,
{
    let u = with_n(t, card_at(rank), n);
    assert(forall|j: int| 0 <= j < 10 && j != rank ==> #[trigger] u[j] == t[j]);
    assert(u[rank] == t[rank] + n);
    if rank == 0 {
        assert(n * (rank + 1) == n * 1);
    } else if rank == 1 {
        assert(n * (rank + 1) == n * 2);
    } else if rank == 2 {
        assert(n * (rank + 1) == n * 3);
    } else if rank == 3 {
        assert(n * (rank + 1) == n * 4);
    } else if rank == 4 {
        assert(n * (rank + 1) == n * 5);
    } else if rank == 5 {
        assert(n * (rank + 1) == n * 6);
    } else if rank == 6 {
        assert(n * (rank + 1) == n * 7);
    } else if rank == 7 {
        assert(n * (rank + 1) == n * 8);
    } else if rank == 8 {
        assert(n * (rank + 1) == n * 9);
    } else {
        assert(n * (rank + 1) == n * 10);
    }
}

/// A hand that holds at least the cards of another has at least its total, and
/// the same total only if it is the same hand.
pub proof fn hard_monotone(a: Tally, b: Tally)
    requires
        a.len() == 10,
        b.len() == 10,
        forall|j: int| 0 <= j < 10 ==> #[trigger] a[j] <= b[j],
    ensures
        hard(a) <= hard(b),
        size(a) <= size(b),
        hard(a) == hard(b) ==> a == b,
{
    assert(a[0] <= b[0] && a[1] <= b[1] && a[2] <= b[2] && a[3] <= b[3] && a[4] <= b[4] && a[5]
        <= b[5] && a[6] <= b[6] && a[7] <= b[7] && a[8] <= b[8] && a[9] <= b[9]);
    if hard(a) == hard(b) {
        assert(a =~= b);
    }
}

proof fn path_prefix<N: Scalar, S: Shoe<N>>(s: S::State, a: Tally, b: Tally, from: int)
    requires
        a.len() == 10,
        b.len() == 10,
        0 <= from,
        forall|j: int| from <= j < 10 ==> #[trigger] a[j] == b[j],
    ensures
        left_at::<N, S>(s, a, from) == left_at::<N, S>(s, b, from),
        scan_path::<N, S>(s, a, from) == scan_path::<N, S>(s, b, from),
    decreases 10 - from,
{
    if from < 10 {
        path_prefix::<N, S>(s, a, b, from + 1);
    }
}

proof fn lowest_is(hand: Tally, from: int, at: int)
    requires
        hand.len() == 10,
        0 <= from <= at <= 10,
        forall|j: int| from <= j < at ==> #[trigger] hand[j] == 0,
        at < 10 ==> hand[at] > 0,
    ensures
        lowest_from(hand, from) == at,
    decreases at - from,
{
    if from < at {
        lowest_is(hand, from + 1, at);
    }
}

/// The cards of the lowest `ranks` ranks of a hand are there in the shoe.
spec fn lower_fit<N: Scalar, S: Shoe<N>>(s: S::State, hand: Tally, ranks: int) -> bool {
    forall|j: int|
        0 <= j < ranks ==> (#[trigger] S::supply(s, j) matches Some(n) ==> hand[j] <= n)
}

/// What holds of a hand that fills up another one.
spec fn fills<N: Scalar, S: Shoe<N>>(
    s: S::State,
    ranks: nat,
    total: nat,
    hand: Tally,
    filled: Tally,
) -> bool {
    &&& filled.len() == 10
    &&& hard(filled) == hard(hand) + total
    &&& forall|j: int| ranks <= j < 10 ==> #[trigger] filled[j] == hand[j]
    &&& lower_fit::<N, S>(s, filled, ranks as int)
}

/// What holds of an open branch.
spec fn branch_ok<N: Scalar, S: Shoe<N>>(
    s: S::State,
    ranks: nat,
    total: nat,
    hand: Tally,
    weight: N,
    remaining: nat,
) -> bool {
    &&& ranks <= 10
    &&& hand.len() == 10
    &&& forall|j: int| 0 <= j < ranks ==> #[trigger] hand[j] == 0
    &&& weight == scan_path::<N, S>(s, hand, ranks as int)
    &&& remaining == left_at::<N, S>(s, hand, ranks as int)
    &&& (total == 0 ==> lowest_from(hand, 0) == ranks)
}

/// One more card count chosen for the highest rank of a branch.
proof fn child_ok<N: Scalar, S: Shoe<N>>(
    s: S::State,
    ranks: nat,
    total: nat,
    hand: Tally,
    weight: N,
    remaining: nat,
    k: nat,
)
    requires
        branch_ok::<N, S>(s, ranks, total, hand, weight, remaining),
        ranks > 0,
        total > 0,
        k <= most::<N, S>(s, ranks - 1, total),
    ensures
        k * ranks <= total,
        ({
            let child = with_n(hand, card_at(ranks - 1), k);
            &&& branch_ok::<N, S>(
                s,
                (ranks - 1) as nat,
                (total - k * ranks) as nat,
                child,
                weight.times_spec(level::<N, S>(s, ranks - 1, remaining, k)),
                remaining_after::<N, S>(s, ranks - 1, remaining, k),
            )
            &&& hard(child) == hard(hand) + k * ranks
            &&& child[ranks - 1] == k
            &&& forall|j: int| 0 <= j < 10 && j != ranks - 1 ==> #[trigger] child[j] == hand[j]
        }),
{
    assert(k * ranks <= total) by (nonlinear_arith)
        requires
            k <= total as int / (ranks as int),
            ranks > 0,
    ;
    let child = with_n(hand, card_at(ranks - 1), k);
    hard_with_n(hand, ranks - 1, k);
    path_prefix::<N, S>(s, child, hand, ranks as int);
    assert(child[ranks - 1] == k);
    if total == k * ranks {
        assert(k > 0) by (nonlinear_arith)
            requires
                total > 0,
                total == k * ranks,
        ;
        lowest_is(child, 0, ranks - 1);
    }
}

proof fn expand_sound<N: Scalar, S: Shoe<N>>(
    s: S::State,
    ranks: nat,
    total: nat,
    hand: Tally,
    weight: N,
    remaining: nat,
)
    requires
        branch_ok::<N, S>(s, ranks, total, hand, weight, remaining),
    ensures
        forall|i: int|
            0 <= i < expand::<N, S>(s, ranks, total, hand, weight, remaining).len() ==> {
                let e = #[trigger] expand::<N, S>(s, ranks, total, hand, weight, remaining)[i];
                fills::<N, S>(s, ranks, total, hand, e.1) && e.0 == scan_weight::<N, S>(s, e.1)
            },
        forall|i: int, j: int|
            0 <= i < j < expand::<N, S>(s, ranks, total, hand, weight, remaining).len() ==> (
            #[trigger] expand::<N, S>(s, ranks, total, hand, weight, remaining)[i]).1 != (
            #[trigger] expand::<N, S>(s, ranks, total, hand, weight, remaining)[j]).1,
    decreases ranks, most::<N, S>(s, ranks - 1, total) + 2,
{
    if total == 0 {
        let e = expand::<N, S>(s, ranks, total, hand, weight, remaining);
        assert(e.len() == 1);
        assert forall|j: int| 0 <= j < ranks implies (#[trigger] S::supply(s, j) matches Some(n)
            ==> hand[j] <= n) by {
            assert(hand[j] == 0);
        }
    } else if ranks > 0 {
        let k = most::<N, S>(s, ranks - 1, total) as int;
        counts_sound::<N, S>(s, ranks, total, hand, weight, remaining, k);
        assert(expand::<N, S>(s, ranks, total, hand, weight, remaining) == expand_counts::<N, S>(
            s,
            ranks,
            total,
            hand,
            weight,
            remaining,
            k,
        ));
    }
}

proof fn counts_sound<N: Scalar, S: Shoe<N>>(
    s: S::State,
    ranks: nat,
    total: nat,
    hand: Tally,
    weight: N,
    remaining: nat,
    k: int,
)
    requires
        branch_ok::<N, S>(s, ranks, total, hand, weight, remaining),
        ranks > 0,
        total > 0,
        -1 <= k <= most::<N, S>(s, ranks - 1, total),
    ensures
        forall|i: int|
            0 <= i < expand_counts::<N, S>(s, ranks, total, hand, weight, remaining, k).len() ==> {
                let e = #[trigger] expand_counts::<N, S>(
                    s,
                    ranks,
                    total,
                    hand,
                    weight,
                    remaining,
                    k,
                )[i];
                &&& fills::<N, S>(s, ranks, total, hand, e.1)
                &&& e.0 == scan_weight::<N, S>(s, e.1)
                &&& e.1[ranks - 1] <= k
            },
        forall|i: int, j: int|
            0 <= i < j < expand_counts::<N, S>(s, ranks, total, hand, weight, remaining, k).len()
                ==> (#[trigger] expand_counts::<N, S>(
                s,
                ranks,
                total,
                hand,
                weight,
                remaining,
                k,
            )[i]).1 != (#[trigger] expand_counts::<N, S>(
                s,
                ranks,
                total,
                hand,
                weight,
                remaining,
                k,
            )[j]).1,
    decreases ranks, k + 1,
{
    if k >= 0 {
        child_ok::<N, S>(s, ranks, total, hand, weight, remaining, k as nat);
        let child = with_n(hand, card_at(ranks - 1), k as nat);
        let child_ranks = (ranks - 1) as nat;
        let child_total = (total - k * ranks) as nat;
        let child_weight = weight.times_spec(level::<N, S>(s, ranks - 1, remaining, k as nat));
        let child_left = remaining_after::<N, S>(s, ranks - 1, remaining, k as nat);
        expand_sound::<N, S>(s, child_ranks, child_total, child, child_weight, child_left);
        counts_sound::<N, S>(s, ranks, total, hand, weight, remaining, k - 1);
        let first = expand::<N, S>(s, child_ranks, child_total, child, child_weight, child_left);
        let rest = expand_counts::<N, S>(s, ranks, total, hand, weight, remaining, k - 1);
        let all = expand_counts::<N, S>(s, ranks, total, hand, weight, remaining, k);
        assert(all =~= first + rest);
        assert forall|i: int| 0 <= i < all.len() implies {
            let e = #[trigger] all[i];
            &&& fills::<N, S>(s, ranks, total, hand, e.1)
            &&& e.0 == scan_weight::<N, S>(s, e.1)
            &&& e.1[ranks - 1] <= k
        } by {
            if i < first.len() {
                let e = first[i];
                assert(all[i] == e);
                assert(fills::<N, S>(s, child_ranks, child_total, child, e.1));
                assert(e.1[ranks - 1] == child[ranks - 1]);
                assert forall|j: int| ranks <= j < 10 implies #[trigger] e.1[j] == hand[j] by {
                    assert(e.1[j] == child[j]);
                }
                assert forall|j: int| 0 <= j < ranks implies (#[trigger] S::supply(
                    s,
                    j,
                ) matches Some(n) ==> e.1[j] <= n) by {}
            } else {
                assert(all[i] == rest[i - first.len()]);
            }
        }
        assert forall|i: int, j: int| 0 <= i < j < all.len() implies (#[trigger] all[i]).1 != (
        #[trigger] all[j]).1 by {
            if j < first.len() {
                assert(all[i] == first[i] && all[j] == first[j]);
            } else if i < first.len() {
                let e = first[i];
                let f = rest[j - first.len()];
                assert(all[i] == e && all[j] == f);
                assert(fills::<N, S>(s, child_ranks, child_total, child, e.1));
                assert(e.1[ranks - 1] == child[ranks - 1]);
                assert(f.1[ranks - 1] <= k - 1);
            } else {
                assert(all[i] == rest[i - first.len()] && all[j] == rest[j - first.len()]);
            }
        }
    }
}

proof fn expand_complete<N: Scalar, S: Shoe<N>>(
    s: S::State,
    ranks: nat,
    total: nat,
    hand: Tally,
    weight: N,
    remaining: nat,
    filled: Tally,
) -> (at: int)
    requires
        branch_ok::<N, S>(s, ranks, total, hand, weight, remaining),
        fills::<N, S>(s, ranks, total, hand, filled),
    ensures
        0 <= at < expand::<N, S>(s, ranks, total, hand, weight, remaining).len(),
        expand::<N, S>(s, ranks, total, hand, weight, remaining)[at].1 == filled,
    decreases ranks, most::<N, S>(s, ranks - 1, total) + 2,
{
    assert forall|j: int| 0 <= j < 10 implies #[trigger] hand[j] <= filled[j] by {
        if j >= ranks {
            assert(filled[j] == hand[j]);
        }
    }
    hard_monotone(hand, filled);
    if total == 0 {
        0
    } else if ranks == 0 {
        assert(filled =~= hand);
        0
    } else {
        let k = filled[ranks - 1];
        let child = with_n(hand, card_at(ranks - 1), k);
        hard_with_n(hand, ranks - 1, k);
        assert forall|j: int| 0 <= j < 10 implies #[trigger] child[j] <= filled[j] by {}
        hard_monotone(child, filled);
        assert(k <= total as int / (ranks as int)) by (nonlinear_arith)
            requires
                k * ranks <= total,
                ranks > 0,
        ;
        assert(S::supply(s, ranks - 1) matches Some(n) ==> filled[ranks - 1] <= n);
        counts_complete::<N, S>(
            s,
            ranks,
            total,
            hand,
            weight,
            remaining,
            most::<N, S>(s, ranks - 1, total) as int,
            filled,
        )
    }
}

proof fn counts_complete<N: Scalar, S: Shoe<N>>(
    s: S::State,
    ranks: nat,
    total: nat,
    hand: Tally,
    weight: N,
    remaining: nat,
    k: int,
    filled: Tally,
) -> (at: int)
    requires
        branch_ok::<N, S>(s, ranks, total, hand, weight, remaining),
        ranks > 0,
        total > 0,
        -1 <= k <= most::<N, S>(s, ranks - 1, total),
        fills::<N, S>(s, ranks, total, hand, filled),
        filled[ranks - 1] <= k,
    ensures
        0 <= at < expand_counts::<N, S>(s, ranks, total, hand, weight, remaining, k).len(),
        expand_counts::<N, S>(s, ranks, total, hand, weight, remaining, k)[at].1 == filled,
    decreases ranks, k + 1,
{
    child_ok::<N, S>(s, ranks, total, hand, weight, remaining, k as nat);
    let child = with_n(hand, card_at(ranks - 1), k as nat);
    let child_ranks = (ranks - 1) as nat;
    let child_total = (total - k * ranks) as nat;
    let child_weight = weight.times_spec(level::<N, S>(s, ranks - 1, remaining, k as nat));
    let child_left = remaining_after::<N, S>(s, ranks - 1, remaining, k as nat);
    let first = expand::<N, S>(s, child_ranks, child_total, child, child_weight, child_left);
    let rest = expand_counts::<N, S>(s, ranks, total, hand, weight, remaining, k - 1);
    let all = expand_counts::<N, S>(s, ranks, total, hand, weight, remaining, k);
    assert(all =~= first + rest);
    if filled[ranks - 1] == k {
        assert forall|j: int| child_ranks <= j < 10 implies #[trigger] filled[j] == child[j] by {
            if j >= ranks {
                assert(filled[j] == hand[j]);
            }
        }
        assert forall|j: int| 0 <= j < child_ranks implies (#[trigger] S::supply(s, j) matches Some(
            n,
        ) ==> filled[j] <= n) by {}
        expand_complete::<N, S>(
            s,
            child_ranks,
            child_total,
            child,
            child_weight,
            child_left,
            filled,
        )
    } else {
        let at = counts_complete::<N, S>(s, ranks, total, hand, weight, remaining, k - 1, filled);
        assert(all[first.len() + at] == rest[at]);
        first.len() + at
    }
}

proof fn root_ok<N: Scalar, S: Shoe<N>>(s: S::State, total: nat)
    ensures
        branch_ok::<N, S>(
            s,
            10,
            total,
            no_cards(),
            one::<N>(),
            finite_supply::<N, S>(s, 10),
        ),
        hard(no_cards()) == 0,
{
    lowest_is(no_cards(), 0, 10);
}

/// Every hand that is enumerated can be dealt by the shoe, has the hard total
/// that was asked for, and comes with its weight.
pub proof fn law_partitions_are_hands<N: Scalar, S: Shoe<N>>(s: S::State, total: nat, i: int)
    requires
        0 <= i < partitions::<N, S>(s, total).len(),
    ensures
        partitions::<N, S>(s, total)[i].1.len() == 10,
        hard(partitions::<N, S>(s, total)[i].1) == total,
        fits::<N, S>(s, partitions::<N, S>(s, total)[i].1),
        partitions::<N, S>(s, total)[i].0 == scan_weight::<N, S>(
            s,
            partitions::<N, S>(s, total)[i].1,
        ),
{
    root_ok::<N, S>(s, total);
    expand_sound::<N, S>(s, 10, total, no_cards(), one::<N>(), finite_supply::<N, S>(s, 10));
}

/// Every hand with the hard total that was asked for and that the shoe can deal
/// is enumerated.
pub proof fn law_partitions_are_complete<N: Scalar, S: Shoe<N>>(
    s: S::State,
    total: nat,
    hand: Tally,
) -> (at: int)
    requires
        hand.len() == 10,
        hard(hand) == total,
        fits::<N, S>(s, hand),
    ensures
        0 <= at < partitions::<N, S>(s, total).len(),
        partitions::<N, S>(s, total)[at].1 == hand,
{
    root_ok::<N, S>(s, total);
    expand_complete::<N, S>(
        s,
        10,
        total,
        no_cards(),
        one::<N>(),
        finite_supply::<N, S>(s, 10),
        hand,
    )
}

/// No hand is enumerated twice.
pub proof fn law_partitions_are_distinct<N: Scalar, S: Shoe<N>>(
    s: S::State,
    total: nat,
    i: int,
    j: int,
)
    requires
        0 <= i < j < partitions::<N, S>(s, total).len(),
    ensures
        partitions::<N, S>(s, total)[i].1 != partitions::<N, S>(s, total)[j].1,
{
    root_ok::<N, S>(s, total);
    expand_sound::<N, S>(s, 10, total, no_cards(), one::<N>(), finite_supply::<N, S>(s, 10));
}

} // verus!
