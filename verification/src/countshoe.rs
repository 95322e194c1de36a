//! A shoe of which the player knows the count.
//!
//! What is left of the shoe is not known card by card. It is a random part of
//! the pool of unseen cards, as large as the penetration allows, and its count
//! meets the condition that the player's count puts on it. A [`CountShoe`] gives
//! the chances of the next card under that condition.
use crate::card::{card_at, Card};
use crate::count::{
    cond_from_count, cond_from_external, convertible, count_of, external_condition,
    law_counts_are_additive, true_condition, CountCmp, CountCondition, CountFrame, CountKind,
    CountSystemId, Penetration,
};
use crate::countw::{
    class_counts, class_upto, countable, counts_are_bounded, dist_from_scales, grid_after, high,
    high_upto, internal_count, low, low_upto, question, rank_chances, scales, CountW, Question,
};
use crate::drawing::{tally_number, tally_slot, uses_up, Shoe};
use crate::num::{from_whole, whole, zero, Scalar};
use crate::shoe::{
    deck_tally, joined, law_taken_twice, no_cards, size, taken, tally_bounds, within, CardCol,
    Tally, N_RANKS,
};
use crate::table::{Memo, MemoKey};
use std::sync::Arc;
use vstd::prelude::*;
use vstd::rwlock::{RwLock, RwLockPredicate};

verus! {

broadcast use tally_bounds;

/// Whether no rank before this one counts the same.
pub open spec fn leads_class(values: Seq<i16>, r: int) -> bool {
    forall|q: int| 0 <= q < r ==> #[trigger] values[q] != values[r]
}

/// What the cards that are gone count, class by class, where `classes` tells how
/// many cards of each rank's class are left.
pub open spec fn gone_upto(values: Seq<i16>, root: Tally, classes: Seq<nat>, k: int) -> Seq<i16>
    decreases k,
{
    if k <= 0 {
        Seq::empty()
    } else if leads_class(values, k - 1) {
        gone_upto(values, root, classes, k - 1) + Seq::new(
            (class_upto(values, root, values[k - 1], 10) - classes[k - 1]) as nat,
            |i: int| values[k - 1],
        )
    } else {
        gone_upto(values, root, classes, k - 1)
    }
}

/// What the scales of a pool depend on, for one full shoe: how many cards of each
/// class are left, the count and the number of the cards drawn, and the condition.
pub struct ScaleId {
    pub classes: Seq<nat>,
    pub drawn_sum: int,
    pub drawn_cards: int,
    pub frame: CountFrame,
    pub pen: Penetration,
}

/// The scales of the ranks.
pub open spec fn scales_for<N: Scalar>(values: Seq<i16>, root: Tally, id: ScaleId) -> Seq<N> {
    scales::<N>(
        grid_after::<N>(values, root, gone_upto(values, root, id.classes, 10)),
        values,
        root,
        id.classes,
        size(root) - id.drawn_cards,
        count_of(values, root) - id.drawn_sum,
        Question {
            frame: id.frame,
            pen: id.pen,
            drawn_sum: id.drawn_sum,
            drawn_cards: id.drawn_cards,
        },
    )
}

/// What the chances of a counted shoe depend on.
pub struct CountState {
    /// What a card of each rank counts.
    pub values: Seq<i16>,
    /// The full shoe.
    pub root: Tally,
    /// The cards that have not been seen.
    pub pool: Tally,
    /// The condition on the count.
    pub frame: CountFrame,
    /// What is known of how many cards are left.
    pub pen: Penetration,
    /// For the arms of a split: a deck in the proportions of the chances, and how
    /// many of its units are one card.
    pub tilted: Option<(Tally, nat)>,
}

impl CountState {
    /// The full shoe under a condition.
    pub open spec fn fresh(values: Seq<i16>, root: Tally, frame: CountFrame, pen: Penetration)
        -> CountState {
        CountState { values, root, pool: root, frame, pen, tilted: None }
    }

    /// What the scales depend on.
    pub open spec fn scale_id(self) -> ScaleId {
        ScaleId {
            classes: class_counts(self.values, self.pool),
            drawn_sum: count_of(self.values, self.root) - count_of(self.values, self.pool),
            drawn_cards: size(self.root) - size(self.pool),
            frame: self.frame,
            pen: self.pen,
        }
    }

    /// The chance of each rank under the condition.
    pub open spec fn dist<N: Scalar>(self) -> Seq<N> {
        rank_chances(self.pool, scales_for::<N>(self.values, self.root, self.scale_id()))
    }

    /// The cards or units that are drawn from.
    pub open spec fn working(self) -> Tally {
        match self.tilted {
            Some((deck, unit)) => deck,
            None => self.pool,
        }
    }

    /// The states that a counted shoe can be in.
    pub open spec fn sane(self) -> bool {
        &&& countable(self.values, self.root)
        &&& self.pool.len() == 10
        &&& within(self.pool, self.root)
        &&& self.tilted matches Some((deck, unit)) ==> deck.len() == 10 && unit > 0 && unit
            <= u16::MAX && forall|i: int| 0 <= i < 10 ==> #[trigger] deck[i] <= u16::MAX
    }

    /// The chance that the next card is this one.
    pub open spec fn prob<N: Scalar>(self, card: Card) -> N {
        match self.tilted {
            Some((deck, unit)) => if size(deck) > 0 {
                N::ratio_spec(deck[card.rank()] as i64, size(deck) as i64)
            } else {
                zero::<N>()
            },
            None => self.dist::<N>()[card.rank()],
        }
    }

    /// The ranks from place `from` on that are there, each with its chance.
    pub open spec fn draws_from<N: Scalar>(self, from: int) -> Seq<(Card, N)>
        decreases 10 - from,
    {
        if from >= 10 {
            Seq::empty()
        } else if self.working()[from] > 0 {
            seq![(card_at(from), self.prob::<N>(card_at(from)))] + self.draws_from::<N>(from + 1)
        } else {
            self.draws_from::<N>(from + 1)
        }
    }

    /// What is left without these cards.
    pub open spec fn without(self, cards: Tally) -> CountState {
        match self.tilted {
            Some((deck, unit)) => CountState {
                tilted: Some((taken(deck, units(cards, unit)), unit)),
                ..self
            },
            None => CountState {
                pool: taken(self.pool, cards),
                pen: self.pen.after(size(cards) as int),
                ..self
            },
        }
    }

    /// How many cards of a rank can still be drawn. In a tilted deck its units are
    /// counted.
    pub open spec fn supply(self, rank: int) -> nat {
        self.working()[rank]
    }

    /// Whether these cards are there in full.
    pub open spec fn holds(self, hand: Tally) -> bool {
        match self.tilted {
            Some((deck, unit)) => within(units(hand, unit), deck),
            None => within(hand, self.pool),
        }
    }

    /// The deck in the proportions of the chances that the arms of a split are
    /// played from.
    pub open spec fn for_split<N: Scalar>(self) -> CountState {
        CountState { tilted: Some(expected(self.dist::<N>(), size(self.pool))), ..self }
    }
}

/// The units that cards are made of.
pub open spec fn units(cards: Tally, unit: nat) -> Tally {
    Seq::new(10, |i: int| cards[i] * unit)
}

/// How many units are one card in a tilted deck that stands for `n` cards.
pub open spec fn unit_of(n: nat) -> nat {
    let n1 = if n == 0 {
        1
    } else {
        n
    };
    let u = 50_000nat / n1;
    if u == 0 {
        1
    } else {
        u
    }
}

/// How many units a tilted deck has that stands for `n` cards.
pub open spec fn units_in_all(n: nat) -> nat {
    unit_of(n) * if n == 0 {
        1
    } else {
        n
    }
}

/// What the units of a rank come to before they are rounded.
pub open spec fn target<N: Scalar>(dist: Seq<N>, all: nat, r: int) -> N {
    dist[r].times_spec(whole::<N>(all as i64))
}

/// The units of a rank rounded down.
pub open spec fn base_units<N: Scalar>(dist: Seq<N>, all: nat, r: int) -> nat {
    let f = target(dist, all, r).floor_spec();
    if f < 0 {
        0
    } else if f > u16::MAX {
        u16::MAX as nat
    } else {
        f as nat
    }
}

/// What rounding down has cut off a rank.
pub open spec fn cut_off<N: Scalar>(dist: Seq<N>, all: nat, r: int) -> N {
    target(dist, all, r).minus_spec(whole::<N>(target(dist, all, r).floor_spec()))
}

/// Whether the rank `q` comes before the rank `r` when left-over units are handed
/// out: more has been cut off it, or no less and it is the lower rank.
pub open spec fn served_before<N: Scalar>(dist: Seq<N>, all: nat, q: int, r: int) -> bool {
    cut_off(dist, all, r).less_spec(cut_off(dist, all, q)) || (q < r && !cut_off(
        dist,
        all,
        q,
    ).less_spec(cut_off(dist, all, r)))
}

/// How many of the first `k` ranks come before the rank `r`.
pub open spec fn served_upto<N: Scalar>(dist: Seq<N>, all: nat, r: int, k: int) -> nat
    decreases k,
{
    if k <= 0 {
        0
    } else {
        served_upto(dist, all, r, k - 1) + if k - 1 != r && served_before(dist, all, k - 1, r) {
            1nat
        } else {
            0
        }
    }
}

/// The units of the first `k` ranks, rounded down.
pub open spec fn base_upto<N: Scalar>(dist: Seq<N>, all: nat, k: int) -> nat
    decreases k,
{
    if k <= 0 {
        0
    } else {
        base_upto(dist, all, k - 1) + base_units(dist, all, k - 1)
    }
}

/// A deck of about 50,000 units in the proportions of the chances, and how many
/// units are one card where the deck stands for `n` cards. The units are rounded
/// down, and what is then left of the units in all goes to the ranks off which
/// the most has been cut.
pub open spec fn expected<N: Scalar>(dist: Seq<N>, n: nat) -> (Tally, nat) {
    let all = units_in_all(n);
    let left = all - base_upto(dist, all, 10);
    (
        Seq::new(
            10,
            |r: int|
                base_units(dist, all, r) + if served_upto(dist, all, r, 10) < left {
                    1nat
                } else {
                    0
                },
        ),
        unit_of(n),
    )
}

fn rank_base<N: Scalar>(x: N) -> (r: (u16, N))
    ensures
        r.0 as nat == ({
            let f = x.floor_spec();
            if f < 0 {
                0
            } else if f > u16::MAX {
                u16::MAX as nat
            } else {
                f as nat
            }
        }),
        r.1 == x.minus_spec(whole::<N>(x.floor_spec())),
{
    let f: i64 = x.floor();
    let down: N = from_whole(f);
    let base: u16 = if f < 0 {
        0
    } else if f > 65535 {
        65535
    } else {
        f as u16
    };
    (base, x.minus(down))
}

/// A deck in the proportions of the chances, and how many units are one card.
pub fn expected_composition<N: Scalar>(dist: &[N; 10], n: u16) -> (r: (CardCol, u16))
    ensures
        (r.0@, r.1 as nat) == expected(dist@, n as nat),
        r.1 > 0,
{
    let n1: u16 = if n == 0 {
        1
    } else {
        n
    };
    let per: u16 = 50_000 / n1;
    let unit: u16 = if per == 0 {
        1
    } else {
        per
    };
    assert(1 <= unit * n1 <= 65535) by (nonlinear_arith)
        requires
            n1 >= 1,
            n1 <= 65535,
            unit == (if 50_000u16 / n1 == 0 {
                1u16
            } else {
                50_000u16 / n1
            }),
    ;
    let all: u16 = unit * n1;
    let ghost a = all as nat;
    assert(a == units_in_all(n as nat));
    let all_n: N = from_whole(all as i64);
    let mut bases: [u16; 10] = [0; 10];
    let mut cuts: [N; 10] = [all_n; 10];
    let mut sum: u32 = 0;
    let mut r: usize = 0;
    while r < N_RANKS
        invariant
            r <= 10,
            a == all,
            all_n == whole::<N>(all as i64),
            sum == base_upto(dist@, a, r as int),
            sum <= 65535 * r,
            forall|j: int|
                0 <= j < r ==> #[trigger] bases@[j] == base_units(dist@, a, j) && bases@[j]
                    <= sum,
            forall|j: int| 0 <= j < r ==> #[trigger] cuts@[j] == cut_off(dist@, a, j),
        decreases 10 - r,
    {
        let (b, c) = rank_base(dist[r].times(all_n));
        bases[r] = b;
        cuts[r] = c;
        sum = sum + b as u32;
        r += 1;
    }
    let left: u32 = if sum < all as u32 {
        all as u32 - sum
    } else {
        0
    };
    let mut col = CardCol::new();
    let ghost goal = expected(dist@, n as nat).0;
    r = 0;
    while r < N_RANKS
        invariant
            r <= 10,
            a == all,
            a == units_in_all(n as nat),
            goal == expected(dist@, n as nat).0,
            sum == base_upto(dist@, a, 10),
            left == if sum < a {
                a - sum
            } else {
                0
            },
            forall|j: int|
                0 <= j < 10 ==> #[trigger] bases@[j] == base_units(dist@, a, j) && bases@[j]
                    <= sum,
            forall|j: int| 0 <= j < 10 ==> #[trigger] cuts@[j] == cut_off(dist@, a, j),
            forall|j: int|
                0 <= j < 10 ==> #[trigger] col@[j] == if j < r {
                    goal[j]
                } else {
                    0
                },
        decreases 10 - r,
    {
        let mut before: u32 = 0;
        let mut q: usize = 0;
        while q < N_RANKS
            invariant
                q <= 10,
                r < 10,
                before <= q,
                before == served_upto(dist@, a, r as int, q as int),
                forall|j: int| 0 <= j < 10 ==> #[trigger] cuts@[j] == cut_off(dist@, a, j),
            decreases 10 - q,
        {
            if q != r && (cuts[r].less(cuts[q]) || (q < r && !cuts[q].less(cuts[r]))) {
                before = before + 1;
            }
            q += 1;
        }
        let count: u16 = if before < left {
            bases[r] + 1
        } else {
            bases[r]
        };
        assert(goal[r as int] == count);
        assert(col@[r as int] == 0);
        let card = Card::from_rank_index(r);
        assert(card.rank() == r);
        let ghost was = col@;
        col.add_n(card, count);
        assert forall|j: int| 0 <= j < 10 implies #[trigger] col@[j] == (if j < r + 1 {
            goal[j]
        } else {
            0
        }) by {
            if j != r {
                assert(col@[j] == was[j]);
            }
        }
        r += 1;
    }
    assert(col@ =~= goal);
    (col, unit)
}

/// What scales are filed under.
struct ScaleKey {
    classes: [u16; 10],
    drawn_sum: i16,
    drawn_cards: u16,
    frame: CountFrame,
    pen: Penetration,
}

/// The count that a condition compares with.
spec fn compared_with(cond: CountCondition) -> i16 {
    match cond {
        CountCondition::Eq(c) => c,
        CountCondition::Ge(c) => c,
        CountCondition::Le(c) => c,
        CountCondition::TrueGe { cutoff } => cutoff,
        CountCondition::TrueLe { cutoff } => cutoff,
    }
}

/// What the visible cards count, the count of the condition and the first `k` numbers of
/// cards as the digits of one number, to the base 31 and without what does not fit.
spec fn class_digits(id: ScaleId, k: int) -> u64
    decreases k,
{
    if k <= 0 {
        (id.frame.vis_sum as u16 as u64).wrapping_mul(31).wrapping_add(
            compared_with(id.frame.cond) as u16 as u64,
        )
    } else {
        class_digits(id, k - 1).wrapping_mul(31).wrapping_add(id.classes[k - 1] as u64)
    }
}

impl MemoKey for ScaleKey {
    type Id = ScaleId;

    closed spec fn id(&self) -> ScaleId {
        ScaleId {
            classes: self.classes@.map_values(|n: u16| n as nat),
            drawn_sum: self.drawn_sum as int,
            drawn_cards: self.drawn_cards as int,
            frame: self.frame,
            pen: self.pen,
        }
    }

    closed spec fn slot_of(id: ScaleId) -> usize {
        class_digits(id, 10) as usize
    }

    fn same_key(&self, other: &Self) -> (r: bool) {
        if self.drawn_sum != other.drawn_sum || self.drawn_cards != other.drawn_cards || self.frame
            != other.frame || self.pen != other.pen {
            return false;
        }
        let mut i: usize = 0;
        while i < N_RANKS
            invariant
                i <= 10,
                forall|j: int| 0 <= j < i ==> #[trigger] self.classes@[j] == other.classes@[j],
            decreases 10 - i,
        {
            if self.classes[i] != other.classes[i] {
                proof {
                    let a = self.id().classes;
                    let b = other.id().classes;
                    assert(a[i as int] == self.classes@[i as int] as nat);
                    assert(b[i as int] == other.classes@[i as int] as nat);
                }
                return false;
            }
            i += 1;
        }
        assert(self.classes@ =~= other.classes@);
        true
    }

    fn key_slot(&self) -> (r: usize) {
        let mut h: u64 = self.frame.vis_sum as u16 as u64;
        let c: i16 = match self.frame.cond {
            CountCondition::Eq(c) => c,
            CountCondition::Ge(c) => c,
            CountCondition::Le(c) => c,
            CountCondition::TrueGe { cutoff } => cutoff,
            CountCondition::TrueLe { cutoff } => cutoff,
        };
        h = h.wrapping_mul(31).wrapping_add(c as u16 as u64);
        let mut i: usize = 0;
        while i < N_RANKS
            invariant
                i <= 10,
                h == class_digits(self.id(), i as int),
            decreases 10 - i,
        {
            assert(self.id().classes[i as int] == self.classes@[i as int] as nat);
            h = h.wrapping_mul(31).wrapping_add(self.classes[i] as u64);
            i += 1;
        }
        h as usize
    }
}

/// The scales that have been worked out for one full shoe.
struct ScaleRule {
    values: Seq<i16>,
    root: Tally,
}

impl<N: Scalar> RwLockPredicate<Memo<ScaleKey, [N; 10]>> for ScaleRule {
    closed spec fn inv(self, memo: Memo<ScaleKey, [N; 10]>) -> bool {
        &&& memo.wf()
        &&& forall|id: ScaleId, v: [N; 10]| #[trigger]
            memo.has(id, v) ==> v@ == scales_for::<N>(self.values, self.root, id)
    }
}

/// A shoe of which the count is known.
pub struct CountShoe<N: Scalar> {
    table: CountW<N>,
    pool: CardCol,
    frame: CountFrame,
    pen: Penetration,
    dist: [N; 10],
    tilted: Option<(CardCol, u16)>,
    band: Arc<Vec<CountFrame>>,
    cache: Arc<RwLock<Memo<ScaleKey, [N; 10]>, ScaleRule>>,
}

impl<N: Scalar> CountShoe<N> {
    /// What the chances depend on.
    pub closed spec fn count_state(&self) -> CountState {
        CountState {
            values: self.table.values(),
            root: self.table.root(),
            pool: self.pool@,
            frame: self.frame,
            pen: self.pen,
            tilted: match self.tilted {
                Some((deck, unit)) => Some((deck@, unit as nat)),
                None => None,
            },
        }
    }

    #[verifier::type_invariant]
    closed spec fn consistent(&self) -> bool {
        &&& self.count_state().sane()
        &&& self.table.wf()
        &&& self.table.gone() == Seq::<i16>::empty()
        &&& self.dist@ == self.count_state().dist::<N>()
        &&& self.cache.pred() == (ScaleRule {
            values: self.table.values(),
            root: self.table.root(),
        })
    }
}

/// Whether some rank before place `k` counts what the rank `j` counts.
spec fn met(values: Seq<i16>, j: int, k: int) -> bool {
    exists|q: int| 0 <= q < k && #[trigger] values[q] == values[j]
}

/// The cards of a class that are gone and those that are left are all its cards.
proof fn class_splits(values: Seq<i16>, root: Tally, pool: Tally, v: i16, k: int)
    requires
        root.len() == 10,
        pool.len() == 10,
        within(pool, root),
        0 <= k <= 10,
    ensures
        class_upto(values, taken(root, pool), v, k) + class_upto(values, pool, v, k) == class_upto(
            values,
            root,
            v,
            k,
        ),
    decreases k,
{
    if k > 0 {
        class_splits(values, root, pool, v, k - 1);
        assert(pool[k - 1] <= root[k - 1]);
    }
}

/// A pool that has lost no card is the full pool.
proof fn all_there(pool: Tally, root: Tally)
    requires
        pool.len() == 10,
        root.len() == 10,
        forall|i: int| 0 <= i < 10 ==> #[trigger] pool[i] <= root[i],
        size(pool) == size(root),
    ensures
        pool == root,
{
    assert(pool =~= root);
}

/// What the drawn cards count and how many they are.
pub proof fn drawn_facts(values: Seq<i16>, root: Tally, pool: Tally)
    requires
        countable(values, root),
        pool.len() == 10,
        within(pool, root),
    ensures
        size(pool) <= size(root) <= u16::MAX,
        i16::MIN <= count_of(values, root) - count_of(values, pool) <= i16::MAX,
        low(values, root) <= count_of(values, pool) <= high(values, root),
{
    let drawn = taken(root, pool);
    assert forall|i: int| 0 <= i < 10 implies #[trigger] drawn[i] <= root[i] by {}
    counts_are_bounded(values, drawn, root, 10);
    counts_are_bounded(values, pool, root, 10);
    assert(joined(pool, drawn) =~= root) by {
        assert forall|i: int| 0 <= i < 10 implies #[trigger] joined(pool, drawn)[i] == root[i] by {
            assert(pool[i] <= root[i]);
        }
    }
    law_counts_are_additive(values, pool, drawn, 10);
    assert(forall|i: int| 0 <= i < 10 ==> #[trigger] pool[i] <= root[i]);
    assert(pool[0] <= root[0] && pool[1] <= root[1] && pool[2] <= root[2] && pool[3] <= root[3]
        && pool[4] <= root[4] && pool[5] <= root[5] && pool[6] <= root[6] && pool[7] <= root[7]
        && pool[8] <= root[8] && pool[9] <= root[9]);
}

/// Bring a table down to a pool, class by class.
fn sync_table<N: Scalar>(table: &CountW<N>, pool: &CardCol) -> (r: CountW<N>)
    requires
        table.wf(),
        table.gone() == Seq::<i16>::empty(),
        within(pool@, table.root()),
    ensures
        r.wf(),
        r.values() == table.values(),
        r.root() == table.root(),
        r.pool() == pool@,
        r.gone() == gone_upto(
            table.values(),
            table.root(),
            class_counts(table.values(), pool@),
            10,
        ),
{
    let ghost values = table.values();
    let ghost root = table.root();
    let ghost classes = class_counts(values, pool@);
    let ghost drawn = taken(root, pool@);
    let vals: [i16; 10] = table.value_of_rank();
    let full: CardCol = table.deck();
    let mut t = table.duplicate();
    proof {
        table.pool_facts();
        all_there(table.pool(), root);
        assert(gone_upto(values, root, classes, 0) =~= Seq::<i16>::empty());
    }
    let mut r: usize = 0;
    while r < N_RANKS
        invariant
            r <= 10,
            t.wf(),
            t.values() == values,
            t.root() == root,
            vals@ == values,
            values.len() == 10,
            full@ == root,
            root.len() == 10,
            within(pool@, root),
            drawn == taken(root, pool@),
            classes == class_counts(values, pool@),
            t.pool().len() == 10,
            forall|j: int|
                0 <= j < 10 ==> #[trigger] t.pool()[j] == if met(values, j, r as int) {
                    pool@[j]
                } else {
                    root[j]
                },
            t.gone() == gone_upto(values, root, classes, r as int),
        decreases 10 - r,
    {
        let v: i16 = vals[r];
        let mut leads: bool = true;
        let mut q: usize = 0;
        while q < r
            invariant
                q <= r,
                r < 10,
                vals@ == values,
                v == values[r as int],
                leads == (forall|p: int| 0 <= p < q ==> #[trigger] values[p] != v),
            decreases r - q,
        {
            if vals[q] == v {
                leads = false;
                assert(values[q as int] == v);
            }
            q += 1;
        }
        let ghost done = gone_upto(values, root, classes, r as int);
        if leads {
            assert(done + Seq::new(0nat, |i: int| v) =~= done);
            let mut r2: usize = 0;
            while r2 < N_RANKS
                invariant
                    r < 10,
                    r2 <= 10,
                    t.wf(),
                    t.values() == values,
                    t.root() == root,
                    vals@ == values,
                    values.len() == 10,
                    v == values[r as int],
                    full@ == root,
                    root.len() == 10,
                    within(pool@, root),
                    drawn == taken(root, pool@),
                    t.pool().len() == 10,
                    leads_class(values, r as int),
                    forall|j: int|
                        0 <= j < 10 ==> #[trigger] t.pool()[j] == if met(values, j, r as int) || (
                        values[j] == v && j < r2) {
                            pool@[j]
                        } else {
                            root[j]
                        },
                    t.gone() == done + Seq::new(
                        class_upto(values, drawn, v, r2 as int),
                        |i: int| v,
                    ),
                decreases 10 - r2,
            {
                if vals[r2] == v {
                    let card = Card::from_rank_index(r2);
                    assert(card.rank() == r2);
                    assert(!met(values, r2 as int, r as int));
                    assert(pool@[r2 as int] <= root[r2 as int]);
                    let todo: u16 = full.get_count_i(r2) - pool.get_count_i(r2);
                    let ghost c = class_upto(values, drawn, v, r2 as int);
                    let ghost start = t.pool();
                    let mut i: u16 = 0;
                    assert(done + Seq::new((c + 0) as nat, |i: int| v) =~= t.gone());
                    while i < todo
                        invariant
                            i <= todo,
                            r2 < 10,
                            todo == root[r2 as int] - pool@[r2 as int],
                            card.valid(),
                            card.rank() == r2,
                            t.wf(),
                            t.values() == values,
                            t.root() == root,
                            values[r2 as int] == v,
                            t.pool().len() == 10,
                            start.len() == 10,
                            start[r2 as int] == root[r2 as int],
                            forall|j: int|
                                0 <= j < 10 ==> #[trigger] t.pool()[j] == if j == r2 {
                                    (root[j] - i) as nat
                                } else {
                                    start[j]
                                },
                            t.gone() == done + Seq::new((c + i) as nat, |i: int| v),
                        decreases todo - i,
                    {
                        assert(t.pool()[r2 as int] > 0);
                        let ghost g = t.gone();
                        t.remove_card(&card);
                        assert(g.push(v) =~= done + Seq::new((c + (i + 1)) as nat, |i: int| v));
                        i += 1;
                    }
                    assert(drawn[r2 as int] == todo);
                }
                r2 += 1;
            }
            proof {
                class_splits(values, root, pool@, v, 10);
                assert(gone_upto(values, root, classes, r + 1) =~= t.gone());
                assert forall|j: int| 0 <= j < 10 implies #[trigger] t.pool()[j] == (if met(
                    values,
                    j,
                    r + 1,
                ) {
                    pool@[j]
                } else {
                    root[j]
                }) by {
                    if met(values, j, r as int) {
                        let p = choose|p: int| 0 <= p < r && #[trigger] values[p] == values[j];
                        assert(0 <= p < r + 1 && values[p] == values[j]);
                    } else if values[j] == v {
                        assert(0 <= r < r + 1 && values[r as int] == values[j]);
                    } else {
                        assert(!met(values, j, r + 1));
                    }
                }
            }
        } else {
            proof {
                let p0 = choose|p: int| 0 <= p < r && #[trigger] values[p] == v;
                assert(!leads_class(values, r as int));
                assert forall|j: int| 0 <= j < 10 implies #[trigger] t.pool()[j] == (if met(
                    values,
                    j,
                    r + 1,
                ) {
                    pool@[j]
                } else {
                    root[j]
                }) by {
                    if met(values, j, r as int) {
                        let p = choose|p: int| 0 <= p < r && #[trigger] values[p] == values[j];
                        assert(0 <= p < r + 1 && values[p] == values[j]);
                    } else if met(values, j, r + 1) {
                        assert(values[j] == v);
                        assert(0 <= p0 < r && values[p0] == values[j]);
                    }
                }
            }
        }
        r += 1;
    }
    proof {
        assert forall|j: int| 0 <= j < 10 implies #[trigger] t.pool()[j] == pool@[j] by {
            assert(0 <= j < 10 && values[j] == values[j]);
            assert(met(values, j, 10));
        }
        assert(t.pool() =~= pool@);
    }
    t
}

/// The scales of a pool under a condition: from the cache where they are there,
/// else worked out for the whole band and put in.
fn scales_at<N: Scalar>(
    table: &CountW<N>,
    cache: &RwLock<Memo<ScaleKey, [N; 10]>, ScaleRule>,
    band: &Vec<CountFrame>,
    pool: &CardCol,
    frame: CountFrame,
    pen: Penetration,
    Ghost(state): Ghost<CountState>,
) -> (r: [N; 10])
    requires
        table.wf(),
        table.gone() == Seq::<i16>::empty(),
        state.values == table.values(),
        state.root == table.root(),
        state.pool == pool@,
        state.frame == frame,
        state.pen == pen,
        state.sane(),
        cache.pred() == (ScaleRule { values: table.values(), root: table.root() }),
    ensures
        r@ == scales_for::<N>(state.values, state.root, state.scale_id()),
{
    proof {
        table.pool_facts();
        all_there(table.pool(), table.root());
        drawn_facts(state.values, state.root, state.pool);
    }
    let ghost values = table.values();
    let ghost root = table.root();
    let classes: [u16; 10] = table.class_counts_of(pool);
    let vals: [i16; 10] = table.value_of_rank();
    let drawn_sum: i16 = (internal_count(&table.deck(), &vals) - internal_count(pool, &vals))
        as i16;
    let drawn_cards: u16 = (table.deck().len() - pool.len()) as u16;
    let key = ScaleKey { classes, drawn_sum, drawn_cards, frame, pen };
    assert(key.id() == state.scale_id());
    let handle = cache.acquire_read();
    let found: Option<[N; 10]> = match handle.borrow().get(&key) {
        Some(v) => Some(*v),
        None => None,
    };
    handle.release_read();
    if let Some(v) = found {
        return v;
    }
    let synced = sync_table(table, pool);
    if band.len() <= 1 {
        let scales: [N; 10] = synced.value_scales(frame, pen, drawn_sum, drawn_cards);
        assert(scales@ == scales_for::<N>(values, root, key.id()));
        let (mut memo, handle) = cache.acquire_write();
        memo.insert(key, scales);
        handle.release_write(memo);
        return scales;
    }
    let all: Vec<[N; 10]> = synced.value_scales_band(band, pen, drawn_sum, drawn_cards);
    let (mut memo, handle) = cache.acquire_write();
    let mut mine: Option<[N; 10]> = None;
    let mut i: usize = 0;
    while i < all.len()
        invariant
            i <= all.len(),
            all.len() == band.len(),
            key.id() == (ScaleKey { classes, drawn_sum, drawn_cards, frame, pen }).id(),
            mine matches Some(m) ==> m@ == scales_for::<N>(values, root, key.id()),
            classes@.map_values(|n: u16| n as nat) == class_counts(values, pool@),
            synced.wf(),
            synced.values() == values,
            synced.root() == root,
            synced.pool() == pool@,
            synced.gone() == gone_upto(values, root, class_counts(values, pool@), 10),
            drawn_sum == count_of(values, root) - count_of(values, pool@),
            drawn_cards == size(root) - size(pool@),
            forall|j: int|
                0 <= j < all.len() ==> (#[trigger] all@[j])@ == synced.scales_spec(
                    question(band@[j], pen, drawn_sum, drawn_cards),
                ),
            memo.wf(),
            forall|id: ScaleId, v: [N; 10]| #[trigger]
                memo.has(id, v) ==> v@ == scales_for::<N>(values, root, id),
        decreases all.len() - i,
    {
        let one = ScaleKey { classes, drawn_sum, drawn_cards, frame: band[i], pen };
        assert(all@[i as int]@ == scales_for::<N>(values, root, one.id()));
        if band[i] == frame {
            mine = Some(all[i]);
        }
        memo.insert(one, all[i]);
        i += 1;
    }
    handle.release_write(memo);
    match mine {
        Some(m) => m,
        None => synced.value_scales(frame, pen, drawn_sum, drawn_cards),
    }
}

impl<N: Scalar> CountShoe<N> {
    /// The shoe with this pool left.
    fn at_pool(
        table: CountW<N>,
        cache: Arc<RwLock<Memo<ScaleKey, [N; 10]>, ScaleRule>>,
        band: Arc<Vec<CountFrame>>,
        pool: CardCol,
        frame: CountFrame,
        pen: Penetration,
    ) -> (r: Self)
        requires
            table.wf(),
            table.gone() == Seq::<i16>::empty(),
            within(pool@, table.root()),
            cache.pred() == (ScaleRule { values: table.values(), root: table.root() }),
        ensures
            r.count_state() == (CountState {
                values: table.values(),
                root: table.root(),
                pool: pool@,
                frame,
                pen,
                tilted: None,
            }),
    {
        proof {
            table.pool_facts();
        }
        let ghost state = CountState {
            values: table.values(),
            root: table.root(),
            pool: pool@,
            frame,
            pen,
            tilted: None,
        };
        let scales = scales_at(&table, &cache, &band, &pool, frame, pen, Ghost(state));
        let dist = dist_from_scales(&pool, &scales);
        CountShoe { table, pool, frame, pen, dist, tilted: None, band, cache }
    }

    fn new_cache(Ghost(rule): Ghost<ScaleRule>) -> (r: Arc<
        RwLock<Memo<ScaleKey, [N; 10]>, ScaleRule>,
    >)
        ensures
            r.pred() == rule,
    {
        let memo: Memo<ScaleKey, [N; 10]> = Memo::new(4099);
        Arc::new(RwLock::new(memo, Ghost(rule)))
    }

    /// A shoe of `n_decks` under a condition.
    pub fn framed(system: CountSystemId, n_decks: u8, frame: CountFrame, pen: Penetration) -> (r:
        Self)
        ensures
            r.count_state() == CountState::fresh(
                system.values(),
                deck_tally(n_decks as nat),
                frame,
                pen,
            ),
    {
        proof {
            decks_are_countable(system, n_decks as nat);
        }
        let deck = CardCol::from_decks(n_decks);
        let table: CountW<N> = CountW::build(system.value_of_rank(), deck);
        let ghost rule = ScaleRule { values: table.values(), root: table.root() };
        let cache = Self::new_cache(Ghost(rule));
        Self::at_pool(table, cache, Arc::new(Vec::new()), deck, frame, pen)
    }

    /// A shoe of `n_decks` under a condition on the internal count.
    pub fn new(system: CountSystemId, n_decks: u8, cond: CountCondition, pen: Penetration) -> (r:
        Self)
        ensures
            r.count_state() == CountState::fresh(
                system.values(),
                deck_tally(n_decks as nat),
                CountFrame::before_round(cond),
                pen,
            ),
    {
        Self::framed(system, n_decks, CountFrame::pre_round(cond), pen)
    }

    /// A shoe of `n_decks` of which the player's running count compares so with
    /// `external`.
    pub fn from_external(
        system: CountSystemId,
        n_decks: u8,
        external: i16,
        how: CountCmp,
        pen: Penetration,
    ) -> (r: Self)
        requires
            convertible(system, n_decks as int, external as int),
        ensures
            r.count_state() == CountState::fresh(
                system.values(),
                deck_tally(n_decks as nat),
                CountFrame::before_round(
                    external_condition(system, n_decks as int, external as int, how),
                ),
                pen,
            ),
    {
        let cond = cond_from_external(system, n_decks, external, how);
        Self::new(system, n_decks, cond, pen)
    }

    /// A shoe of `n_decks` of which the player's count compares so with `value`: a
    /// running count in units, a true count in halves.
    pub fn from_count(
        system: CountSystemId,
        n_decks: u8,
        value: i16,
        how: CountCmp,
        pen: Penetration,
    ) -> (r: Self)
        requires
            match system.kind_spec() {
                CountKind::Running => convertible(system, n_decks as int, value as int),
                CountKind::TrueCount => how != CountCmp::Eq,
            },
        ensures
            r.count_state() == CountState::fresh(
                system.values(),
                deck_tally(n_decks as nat),
                CountFrame::before_round(
                    match system.kind_spec() {
                        CountKind::Running => external_condition(
                            system,
                            n_decks as int,
                            value as int,
                            how,
                        ),
                        CountKind::TrueCount => true_condition(value, how),
                    },
                ),
                pen,
            ),
    {
        let cond = cond_from_count(system, n_decks, value, how);
        Self::new(system, n_decks, cond, pen)
    }

    /// One shoe for each frame. They share the table and what has been worked out
    /// from it.
    pub fn band(
        system: CountSystemId,
        n_decks: u8,
        frames: &Vec<CountFrame>,
        pen: Penetration,
    ) -> (r: Vec<Self>)
        ensures
            r.len() == frames.len(),
            forall|i: int|
                0 <= i < r.len() ==> (#[trigger] r@[i]).count_state() == CountState::fresh(
                    system.values(),
                    deck_tally(n_decks as nat),
                    frames@[i],
                    pen,
                ),
    {
        proof {
            decks_are_countable(system, n_decks as nat);
        }
        let deck = CardCol::from_decks(n_decks);
        let table: CountW<N> = CountW::build(system.value_of_rank(), deck);
        let ghost rule = ScaleRule { values: table.values(), root: table.root() };
        let cache = Self::new_cache(Ghost(rule));
        let mut members: Vec<CountFrame> = Vec::new();
        let mut k: usize = 0;
        while k < frames.len()
            invariant
                k <= frames.len(),
            decreases frames.len() - k,
        {
            members.push(frames[k]);
            k += 1;
        }
        let band = Arc::new(members);
        let mut out: Vec<Self> = Vec::new();
        let mut i: usize = 0;
        while i < frames.len()
            invariant
                i <= frames.len(),
                table.wf(),
                table.gone() == Seq::<i16>::empty(),
                table.values() == system.values(),
                table.root() == deck@,
                deck@ == deck_tally(n_decks as nat),
                cache.pred() == rule,
                rule == (ScaleRule { values: table.values(), root: table.root() }),
                out.len() == i,
                forall|j: int|
                    0 <= j < i ==> (#[trigger] out@[j]).count_state() == CountState::fresh(
                        system.values(),
                        deck_tally(n_decks as nat),
                        frames@[j],
                        pen,
                    ),
            decreases frames.len() - i,
        {
            out.push(
                Self::at_pool(
                    table.duplicate(),
                    cache.clone(),
                    band.clone(),
                    deck,
                    frames[i],
                    pen,
                ),
            );
            i += 1;
        }
        out
    }

    /// One shoe for each running count of the player.
    pub fn band_external(
        system: CountSystemId,
        n_decks: u8,
        externals: &Vec<i16>,
        how: CountCmp,
        pen: Penetration,
    ) -> (r: Vec<Self>)
        requires
            forall|i: int|
                0 <= i < externals.len() ==> convertible(
                    system,
                    n_decks as int,
                    #[trigger] externals@[i] as int,
                ),
        ensures
            r.len() == externals.len(),
            forall|i: int|
                0 <= i < r.len() ==> (#[trigger] r@[i]).count_state() == CountState::fresh(
                    system.values(),
                    deck_tally(n_decks as nat),
                    CountFrame::before_round(
                        external_condition(system, n_decks as int, externals@[i] as int, how),
                    ),
                    pen,
                ),
    {
        let mut frames: Vec<CountFrame> = Vec::new();
        let mut i: usize = 0;
        while i < externals.len()
            invariant
                i <= externals.len(),
                frames.len() == i,
                forall|j: int|
                    0 <= j < externals.len() ==> convertible(
                        system,
                        n_decks as int,
                        #[trigger] externals@[j] as int,
                    ),
                forall|j: int|
                    0 <= j < i ==> #[trigger] frames@[j] == CountFrame::before_round(
                        external_condition(system, n_decks as int, externals@[j] as int, how),
                    ),
            decreases externals.len() - i,
        {
            let ext: i16 = externals[i];
            assert(convertible(system, n_decks as int, externals@[i as int] as int));
            frames.push(CountFrame::pre_round(cond_from_external(system, n_decks, ext, how)));
            i += 1;
        }
        Self::band(system, n_decks, &frames, pen)
    }

    /// The cards that have not been seen.
    pub fn pool(&self) -> (r: CardCol)
        ensures
            r@ == self.count_state().pool,
    {
        self.pool
    }

    /// What the cards drawn so far count, and how many they are.
    pub fn drawn(&self) -> (r: (i16, u16))
        ensures
            r.0 == count_of(self.count_state().values, self.count_state().root) - count_of(
                self.count_state().values,
                self.count_state().pool,
            ),
            r.1 == size(self.count_state().root) - size(self.count_state().pool),
    {
        proof {
            use_type_invariant(self);
            self.table.pool_facts();
            all_there(self.table.pool(), self.table.root());
            let s = self.count_state();
            drawn_facts(s.values, s.root, s.pool);
        }
        let vals: [i16; 10] = self.table.value_of_rank();
        let sum: i64 = internal_count(&self.table.deck(), &vals) - internal_count(
            &self.pool,
            &vals,
        );
        (sum as i16, (self.table.deck().len() - self.pool.len()) as u16)
    }
}

/// In the systems a card counts one at most, so the counts of a shoe lie no
/// farther apart than it has cards.
pub proof fn span_at_most_size(values: Seq<i16>, t: Tally, k: int)
    requires
        forall|i: int| 0 <= i < 10 ==> -1 <= #[trigger] values[i] <= 1,
        0 <= k <= 10,
    ensures
        high_upto(values, t, k) - low_upto(values, t, k) <= ranks_upto(t, k),
    decreases k,
{
    if k > 0 {
        span_at_most_size(values, t, k - 1);
        let v = values[k - 1] as int;
        let a = t[k - 1] as int;
        assert(-a <= v * a <= a) by (nonlinear_arith)
            requires
                -1 <= v <= 1,
                a >= 0,
        ;
    }
}

/// The cards of the first `k` ranks.
pub open spec fn ranks_upto(t: Tally, k: int) -> nat
    decreases k,
{
    if k <= 0 {
        0
    } else {
        ranks_upto(t, k - 1) + t[k - 1]
    }
}

/// The cards of all ranks are all cards.
pub proof fn ranks_are_size(t: Tally)
    ensures
        ranks_upto(t, 10) == size(t),
{
    reveal_with_fuel(ranks_upto, 11);
}

/// The counts of any number of decks are numbers of sixteen bits.
pub proof fn decks_are_countable(system: CountSystemId, n: nat)
    requires
        n <= 255,
    ensures
        countable(system.values(), deck_tally(n)),
{
    span_at_most_size(system.values(), deck_tally(n), 10);
    reveal_with_fuel(ranks_upto, 11);
}

impl CountState {
    proof fn without_is_sane(self, cards: Tally)
        requires
            self.sane(),
            cards.len() == 10,
        ensures
            self.without(cards).sane(),
            forall|i: int|
                0 <= i < 10 ==> uses_up(
                    Some(self.supply(i)),
                    Some(#[trigger] self.without(cards).supply(i)),
                    cards[i],
                ),
    {
        let next = self.without(cards);
        assert forall|i: int| 0 <= i < 10 implies #[trigger] next.pool[i] <= next.root[i] by {
            assert(self.pool[i] <= self.root[i]);
        }
        if let Some((deck, unit)) = self.tilted {
            assert forall|i: int| 0 <= i < 10 implies uses_up(
                Some(self.supply(i)),
                Some(#[trigger] next.supply(i)),
                cards[i],
            ) by {
                let c = cards[i];
                assert(units(cards, unit)[i] == c * unit);
                assert(c <= c * unit) by (nonlinear_arith)
                    requires
                        unit >= 1,
                ;
            }
        }
    }

    proof fn without_in_steps(self, a: Tally, b: Tally)
        requires
            self.sane(),
            a.len() == 10,
            b.len() == 10,
        ensures
            self.without(a).without(b) == self.without(joined(a, b)),
    {
        match self.tilted {
            Some((deck, unit)) => {
                assert(units(joined(a, b), unit) =~= joined(units(a, unit), units(b, unit))) by {
                    assert forall|i: int| 0 <= i < 10 implies #[trigger] units(
                        joined(a, b),
                        unit,
                    )[i] == joined(units(a, unit), units(b, unit))[i] by {
                        assert((a[i] + b[i]) * unit == a[i] * unit + b[i] * unit)
                            by (nonlinear_arith);
                    }
                }
                law_taken_twice(deck, units(a, unit), units(b, unit));
            },
            None => {
                law_taken_twice(self.pool, a, b);
                assert(size(joined(a, b)) == size(a) + size(b));
            },
        }
    }

    proof fn draws_are_present<N: Scalar>(self, from: int)
        requires
            self.sane(),
            0 <= from <= 10,
        ensures
            self.draws_from::<N>(from).len() <= 10 - from,
            forall|i: int|
                0 <= i < self.draws_from::<N>(from).len() ==> (#[trigger] self.draws_from::<N>(
                    from,
                )[i]).0.valid() && self.supply(self.draws_from::<N>(from)[i].0.rank()) > 0,
        decreases 10 - from,
    {
        if from < 10 {
            self.draws_are_present::<N>(from + 1);
            if self.working()[from] > 0 {
                assert(card_at(from).rank() == from);
            }
        }
    }
}

/// The units that are left of a deck when cards have been taken out.
fn without_units(deck: &CardCol, hand: &CardCol, unit: u16) -> (r: CardCol)
    ensures
        r@ == taken(deck@, units(hand@, unit as nat)),
{
    let mut col = CardCol::new();
    let ghost goal = taken(deck@, units(hand@, unit as nat));
    let mut r: usize = 0;
    while r < N_RANKS
        invariant
            r <= 10,
            goal == taken(deck@, units(hand@, unit as nat)),
            forall|j: int|
                0 <= j < 10 ==> #[trigger] col@[j] == if j < r {
                    goal[j]
                } else {
                    0
                },
        decreases 10 - r,
    {
        let had: u32 = deck.get_count_i(r) as u32;
        let c: u32 = hand.get_count_i(r) as u32;
        assert(c * unit <= 65535 * 65535) by (nonlinear_arith)
            requires
                c <= 65535,
                unit <= 65535,
        ;
        let off: u32 = c * unit as u32;
        let left: u16 = if had > off {
            (had - off) as u16
        } else {
            0
        };
        assert(units(hand@, unit as nat)[r as int] == off);
        assert(goal[r as int] == left);
        let card = Card::from_rank_index(r);
        assert(card.rank() == r);
        let ghost was = col@;
        col.add_n(card, left);
        assert forall|j: int| 0 <= j < 10 implies #[trigger] col@[j] == (if j < r + 1 {
            goal[j]
        } else {
            0
        }) by {
            if j != r {
                assert(col@[j] == was[j]);
            }
        }
        r += 1;
    }
    assert(col@ =~= goal);
    col
}

impl<N: Scalar> Shoe<N> for CountShoe<N> {
    type State = CountState;

    open spec fn state(&self) -> CountState {
        self.count_state()
    }

    open spec fn sane(s: CountState) -> bool {
        s.sane()
    }

    open spec fn prob(s: CountState, card: Card) -> N {
        s.prob::<N>(card)
    }

    open spec fn draws(s: CountState) -> Seq<(Card, N)> {
        s.draws_from::<N>(0)
    }

    open spec fn without(s: CountState, cards: Tally) -> CountState {
        s.without(cards)
    }

    open spec fn supply(s: CountState, rank: int) -> Option<nat> {
        Some(s.supply(rank))
    }

    open spec fn holds(s: CountState, hand: Tally) -> bool {
        s.holds(hand)
    }

    open spec fn split_state(s: CountState) -> CountState {
        s.for_split::<N>()
    }

    open spec fn slot_of(s: CountState) -> usize {
        tally_number(s.working())
    }

    proof fn without_supply(s: CountState, cards: Tally) {
        s.without_is_sane(cards);
        assert forall|i: int| 0 <= i < 10 implies uses_up(
            Some(s.supply(i)),
            #[trigger] <CountShoe<N> as Shoe<N>>::supply(s.without(cards), i),
            cards[i],
        ) by {
            assert(uses_up(Some(s.supply(i)), Some(s.without(cards).supply(i)), cards[i]));
        }
    }

    proof fn without_none(s: CountState) {
        match s.tilted {
            Some((deck, unit)) => {
                assert(taken(deck, units(no_cards(), unit)) =~= deck) by {
                    assert forall|i: int| 0 <= i < 10 implies #[trigger] units(
                        no_cards(),
                        unit,
                    )[i] == 0 by {
                        assert(0 * unit == 0) by (nonlinear_arith);
                    }
                }
            },
            None => {
                assert(taken(s.pool, no_cards()) =~= s.pool);
            },
        }
    }

    proof fn without_twice(s: CountState, a: Tally, b: Tally) {
        s.without_in_steps(a, b);
    }

    proof fn draws_are_there(s: CountState) {
        s.draws_are_present::<N>(0);
    }

    proof fn holds_no_more(s: CountState, hand: Tally) {
        assert forall|i: int| 0 <= i < 10 implies hand[i] <= #[trigger] s.supply(i) by {
            match s.tilted {
                Some((deck, unit)) => {
                    assert(units(hand, unit)[i] <= deck[i]);
                    let d = deck[i] as int;
                    let u = unit as int;
                    let h = hand[i] as int;
                    assert(h <= d) by (nonlinear_arith)
                        requires
                            h >= 0,
                            h * u <= d,
                            u >= 1,
                    ;
                },
                None => {
                    assert(hand[i] <= s.pool[i]);
                },
            }
        }
    }

    proof fn split_is_sane(s: CountState) {
        tilted_is_sane(s.dist::<N>(), size(s.pool));
    }

    proof fn supply_bound(s: CountState) {
        assert forall|i: int| 0 <= i < 10 implies #[trigger] s.supply(i) <= u16::MAX by {
            match s.tilted {
                Some((deck, unit)) => {
                    assert(deck[i] <= u16::MAX);
                },
                None => {
                    assert(s.pool[i] <= s.root[i]);
                    crate::shoe::rank_at_most_size(s.root, i);
                },
            }
        }
    }

    fn is_sane(&self) {
        proof {
            use_type_invariant(self);
        }
    }

    fn draw(&mut self, card: &Card) {
        let one_card = CardCol::new().with(*card);
        *self = self.remove_hand(&one_card);
    }

    fn draw_prob(&self, card: &Card) -> (r: N) {
        proof {
            use_type_invariant(self);
        }
        match &self.tilted {
            Some((deck, unit)) => {
                if deck.is_empty() {
                    from_whole(0)
                } else {
                    N::ratio(deck.get_count(card) as i64, deck.len() as i64)
                }
            },
            None => self.dist[card.rank_index()],
        }
    }

    fn all_draw_probs(&self) -> (r: Vec<(Card, N)>) {
        proof {
            use_type_invariant(self);
        }
        let working: CardCol = match &self.tilted {
            Some((deck, unit)) => *deck,
            None => self.pool,
        };
        let ghost s = self.count_state();
        let mut out: Vec<(Card, N)> = Vec::new();
        let mut i: usize = 0;
        while i < N_RANKS
            invariant
                i <= 10,
                s == self.count_state(),
                working@ == s.working(),
                out@ + s.draws_from::<N>(i as int) =~= s.draws_from::<N>(0),
            decreases 10 - i,
        {
            let ghost before = out@;
            if working.get_count_i(i) > 0 {
                let card = Card::from_rank_index(i);
                let p: N = self.draw_prob(&card);
                out.push((card, p));
                assert(out@ =~= before + seq![(card, s.prob::<N>(card))]);
            }
            i += 1;
        }
        out
    }

    fn remove_hand(&self, hand: &CardCol) -> (r: Self) {
        proof {
            use_type_invariant(self);
            self.count_state().without_is_sane(hand@);
        }
        match &self.tilted {
            Some((deck, unit)) => CountShoe {
                table: self.table.duplicate(),
                pool: self.pool,
                frame: self.frame,
                pen: self.pen,
                dist: self.dist,
                tilted: Some((without_units(deck, hand, *unit), *unit)),
                band: self.band.clone(),
                cache: self.cache.clone(),
            },
            None => {
                let pen = self.pen.after_draws(hand.len());
                Self::at_pool(
                    self.table.duplicate(),
                    self.cache.clone(),
                    self.band.clone(),
                    self.pool - *hand,
                    self.frame,
                    pen,
                )
            },
        }
    }

    fn contains_hand(&self, hand: &CardCol) -> (r: bool) {
        match &self.tilted {
            Some((deck, unit)) => holds_units(deck, hand, *unit),
            None => hand.is_submultiset(&self.pool),
        }
    }

    fn rank_count(&self, rank: &Card) -> (r: Option<u16>) {
        proof {
            use_type_invariant(self);
        }
        match &self.tilted {
            Some((deck, _)) => Some(deck.get_count(rank)),
            None => Some(self.pool.get_count(rank)),
        }
    }

    fn for_split(&self) -> (r: Self) {
        proof {
            use_type_invariant(self);
            let s = self.count_state();
            drawn_facts(s.values, s.root, s.pool);
            tilted_is_sane(self.dist@, size(self.pool@));
        }
        let (deck, unit) = expected_composition(&self.dist, self.pool.len() as u16);
        CountShoe {
            table: self.table.duplicate(),
            pool: self.pool,
            frame: self.frame,
            pen: self.pen,
            dist: self.dist,
            tilted: Some((deck, unit)),
            band: self.band.clone(),
            cache: self.cache.clone(),
        }
    }

    fn duplicate(&self) -> (r: Self) {
        proof {
            use_type_invariant(self);
        }
        CountShoe {
            table: self.table.duplicate(),
            pool: self.pool,
            frame: self.frame,
            pen: self.pen,
            dist: self.dist,
            tilted: match &self.tilted {
                Some((deck, unit)) => Some((*deck, *unit)),
                None => None,
            },
            band: self.band.clone(),
            cache: self.cache.clone(),
        }
    }

    fn same(&self, other: &Self) -> (r: bool) {
        proof {
            use_type_invariant(self);
            use_type_invariant(other);
            self.table.pool_facts();
            other.table.pool_facts();
            all_there(self.table.pool(), self.table.root());
            all_there(other.table.pool(), other.table.root());
        }
        if !self.pool.same_cards(&other.pool) || self.frame != other.frame || self.pen != other.pen
            || !self.table.deck().same_cards(&other.table.deck()) {
            return false;
        }
        let a: [i16; 10] = self.table.value_of_rank();
        let b: [i16; 10] = other.table.value_of_rank();
        let mut i: usize = 0;
        while i < N_RANKS
            invariant
                i <= 10,
                a@ == self.table.values(),
                b@ == other.table.values(),
                forall|j: int| 0 <= j < i ==> #[trigger] a@[j] == b@[j],
            decreases 10 - i,
        {
            if a[i] != b[i] {
                assert(a@[i as int] != b@[i as int]);
                return false;
            }
            i += 1;
        }
        assert(a@ =~= b@);
        match (&self.tilted, &other.tilted) {
            (Some((d, u)), Some((e, w))) => d.same_cards(e) && *u == *w,
            (None, None) => true,
            _ => false,
        }
    }

    fn slot(&self) -> (r: usize) {
        match &self.tilted {
            Some((deck, unit)) => tally_slot(deck),
            None => tally_slot(&self.pool),
        }
    }
}

/// The units of a tilted deck are numbers of sixteen bits.
pub proof fn tilted_is_sane<N: Scalar>(dist: Seq<N>, n: nat)
    requires
        n <= u16::MAX,
    ensures
        expected(dist, n).0.len() == 10,
        0 < expected(dist, n).1 <= 50_000,
        forall|i: int| 0 <= i < 10 ==> #[trigger] expected(dist, n).0[i] <= u16::MAX,
{
    let n1 = if n == 0 {
        1
    } else {
        n
    };
    let u = unit_of(n);
    assert(1 <= u <= 50_000 && u * n1 <= 65535) by (nonlinear_arith)
        requires
            1 <= n1 <= 65535,
            u == (if 50_000nat / n1 == 0 {
                1nat
            } else {
                50_000nat / n1
            }),
    ;
    let all = units_in_all(n);
    assert(all == u * n1);
    assert forall|i: int| 0 <= i < 10 implies #[trigger] expected(dist, n).0[i] <= u16::MAX by {
        base_at_most_sum(dist, all, i, 10);
    }
}

proof fn base_at_most_sum<N: Scalar>(dist: Seq<N>, all: nat, i: int, k: int)
    requires
        0 <= i < k,
    ensures
        base_units(dist, all, i) <= base_upto(dist, all, k),
    decreases k,
{
    if i < k - 1 {
        base_at_most_sum(dist, all, i, k - 1);
    }
}

/// Whether the units of these cards are in the deck.
fn holds_units(deck: &CardCol, hand: &CardCol, unit: u16) -> (r: bool)
    ensures
        r == within(units(hand@, unit as nat), deck@),
{
    let mut r: usize = 0;
    while r < N_RANKS
        invariant
            r <= 10,
            forall|j: int| 0 <= j < r ==> #[trigger] units(hand@, unit as nat)[j] <= deck@[j],
        decreases 10 - r,
    {
        let c: u32 = hand.get_count_i(r) as u32;
        assert(c * unit <= 65535 * 65535) by (nonlinear_arith)
            requires
                c <= 65535,
                unit <= 65535,
        ;
        let need: u32 = c * unit as u32;
        assert(units(hand@, unit as nat)[r as int] == need);
        if need > deck.get_count_i(r) as u32 {
            return false;
        }
        r += 1;
    }
    true
}

} // verus!
