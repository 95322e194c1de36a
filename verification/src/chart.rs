//! The strategy chart: hands pooled into rows, and what following the chart is
//! worth.
use crate::card::Card;
use crate::drawing::Shoe;
use crate::hand::{
    best_entry, best_is_offered, best_move, best_move_spec, best_upto, categorize, category_of,
    listed_move, move_at, move_place, ranks, HandCategory, Move, MoveEvs,
};
use crate::num::{from_whole, is_nil, is_zero, minus_one, zero, Scalar};
use crate::partitions::hard_with_n;
use crate::reach::{mass_at, mass_of, playable};
use crate::rules::Ruleset;
use crate::shoe::{hard, single, size, tally_bounds, with_card, CardCol, Tally};
use crate::simulation::{basis_draws, basis_draws_are_there, basis_of, Basis};
use crate::solve::{edge_upto, EdgeTerm, EvTree};
use crate::table::HandTable;
use vstd::prelude::*;

verus! {

broadcast use tally_bounds;

/// A value for each of a set of chart rows.
pub struct ChartTable<V> {
    rows: Vec<(HandCategory, V)>,
}

impl<V> ChartTable<V> {
    /// The rows with their values, in the order in which they were put in.
    pub closed spec fn entries(&self) -> Seq<(HandCategory, V)> {
        self.rows@
    }

    /// No row occurs twice.
    pub open spec fn wf(&self) -> bool {
        forall|i: int, j: int|
            0 <= i < j < self.entries().len() ==> (#[trigger] self.entries()[i]).0 != (
            #[trigger] self.entries()[j]).0
    }

    /// Whether the table has this row.
    pub open spec fn has(&self, cat: HandCategory) -> bool {
        exists|i: int| 0 <= i < self.entries().len() && (#[trigger] self.entries()[i]).0 == cat
    }

    /// The value of a row, if the table has it.
    pub open spec fn at(&self, cat: HandCategory) -> Option<V> {
        if self.has(cat) {
            Some(
                self.entries()[choose|i: int|
                    0 <= i < self.entries().len() && (#[trigger] self.entries()[i]).0 == cat].1,
            )
        } else {
            None
        }
    }

    /// The table without rows.
    pub fn new() -> (r: Self)
        ensures
            r.wf(),
            r.entries() == Seq::<(HandCategory, V)>::empty(),
    {
        ChartTable { rows: Vec::new() }
    }

    /// How many rows the table has.
    pub fn len(&self) -> (r: usize)
        ensures
            r == self.entries().len(),
    {
        self.rows.len()
    }

    /// The row at a place of the order.
    pub fn row(&self, i: usize) -> (r: HandCategory)
        requires
            i < self.entries().len(),
        ensures
            r == self.entries()[i as int].0,
    {
        self.rows[i].0
    }

    /// The value at a place of the order.
    pub fn value(&self, i: usize) -> (r: &V)
        requires
            i < self.entries().len(),
        ensures
            *r == self.entries()[i as int].1,
    {
        &self.rows[i].1
    }

    /// The value of a row, if the table has it.
    pub fn get(&self, cat: HandCategory) -> (r: Option<&V>)
        requires
            self.wf(),
        ensures
            match r {
                Some(v) => self.at(cat) == Some(*v),
                None => self.at(cat) is None,
            },
            r is Some == self.has(cat),
    {
        let mut i: usize = 0;
        while i < self.rows.len()
            invariant
                self.wf(),
                i <= self.rows@.len(),
                forall|j: int| 0 <= j < i ==> (#[trigger] self.rows@[j]).0 != cat,
            decreases self.rows@.len() - i,
        {
            if self.rows[i].0 == cat {
                assert(self.entries()[i as int].0 == cat);
                return Some(&self.rows[i].1);
            }
            i += 1;
        }
        None
    }

    /// Add a row that the table does not have yet.
    pub fn push(&mut self, cat: HandCategory, v: V)
        requires
            old(self).wf(),
            !old(self).has(cat),
        ensures
            final(self).wf(),
            final(self).entries() == old(self).entries().push((cat, v)),
            final(self).at(cat) == Some(v),
            forall|c: HandCategory| c != cat ==> #[trigger] final(self).at(c) == old(self).at(c),
    {
        self.rows.push((cat, v));
        proof {
            let n = old(self).entries().len() as int;
            assert(self.entries()[n] == (cat, v));
            assert forall|c: HandCategory| c != cat implies #[trigger] self.at(c) == old(
                self,
            ).at(c) by {
                if old(self).has(c) {
                    let i = choose|i: int| 0 <= i < n && (#[trigger] old(self).entries()[i]).0 == c;
                    assert(self.entries()[i].0 == c);
                }
                if self.has(c) {
                    let i = choose|i: int|
                        0 <= i < self.entries().len() && (#[trigger] self.entries()[i]).0 == c;
                    assert(old(self).entries()[i].0 == c);
                }
            }
            assert forall|i: int, j: int| 0 <= i < j < self.entries().len() implies (
            #[trigger] self.entries()[i]).0 != (#[trigger] self.entries()[j]).0 by {
                assert(self.entries()[i] == old(self).entries()[i]);
            }
        }
    }
}

/// Which hands of a row are pooled: all of them, or those of two cards.
#[derive(Clone, Copy, Debug, PartialEq, Eq, Structural)]
pub enum Pool {
    All,
    TwoCards,
}

/// Whether a hand counts towards a row. Where hands without mass are left out,
/// they count for nothing.
pub open spec fn counts<N: Scalar>(
    weights: Map<Tally, N>,
    skip_nil: bool,
    pool: Pool,
    cat: HandCategory,
    t: Tally,
) -> bool {
    &&& category_of(t) == cat
    &&& pool == Pool::TwoCards ==> size(t) == 2
    &&& skip_nil ==> !is_nil(mass_of(weights, t))
}

/// The weight of the hands among the first `k` that count towards a row and offer
/// a move, with the sum of their values by weight.
pub open spec fn pooled_upto<N: Scalar>(
    order: Seq<Tally>,
    tree: Map<Tally, (N, MoveEvs<N>)>,
    weights: Map<Tally, N>,
    skip_nil: bool,
    pool: Pool,
    cat: HandCategory,
    mv: Move,
    k: int,
) -> Option<(N, N)>
    decreases k,
{
    if k <= 0 {
        None
    } else {
        let before = pooled_upto(order, tree, weights, skip_nil, pool, cat, mv, k - 1);
        let t = order[k - 1];
        match tree[t].1.at(mv) {
            Some(ev) if counts(weights, skip_nil, pool, cat, t) => {
                let (w_sum, ev_sum) = match before {
                    Some(sums) => sums,
                    None => (zero::<N>(), zero::<N>()),
                };
                let w = mass_of(weights, t);
                Some((w_sum.plus_spec(w), ev_sum.plus_spec(w.times_spec(ev))))
            },
            _ => before,
        }
    }
}

/// The average value of a move over the hands of a row that offer it.
pub open spec fn pooled<N: Scalar>(
    order: Seq<Tally>,
    tree: Map<Tally, (N, MoveEvs<N>)>,
    weights: Map<Tally, N>,
    skip_nil: bool,
    pool: Pool,
    cat: HandCategory,
    mv: Move,
) -> Option<N> {
    match pooled_upto(order, tree, weights, skip_nil, pool, cat, mv, order.len() as int) {
        Some((w_sum, ev_sum)) => Some(ev_sum.over_spec(w_sum)),
        None => None,
    }
}

/// The average values of the moves of a row.
pub open spec fn row_evs<N: Scalar>(
    order: Seq<Tally>,
    tree: Map<Tally, (N, MoveEvs<N>)>,
    weights: Map<Tally, N>,
    skip_nil: bool,
    pool: Pool,
    cat: HandCategory,
) -> MoveEvs<N> {
    MoveEvs {
        hit: pooled(order, tree, weights, skip_nil, pool, cat, Move::Hit),
        stand: pooled(order, tree, weights, skip_nil, pool, cat, Move::Stand),
        double: pooled(order, tree, weights, skip_nil, pool, cat, Move::Double),
        split: pooled(order, tree, weights, skip_nil, pool, cat, Move::Split),
        surrender: pooled(order, tree, weights, skip_nil, pool, cat, Move::Surrender),
    }
}

/// Whether any hand counts towards a row.
pub open spec fn any_counts<N: Scalar>(
    order: Seq<Tally>,
    weights: Map<Tally, N>,
    skip_nil: bool,
    pool: Pool,
    cat: HandCategory,
) -> bool {
    exists|i: int|
        0 <= i < order.len() && counts(weights, skip_nil, pool, cat, #[trigger] order[i])
}

fn hand_counts<N: Scalar>(
    weights: &HandTable<N>,
    skip_nil: bool,
    pool: Pool,
    cat: HandCategory,
    hand: &CardCol,
) -> (r: bool)
    requires
        weights.wf(),
        hard(hand@) <= 21,
    ensures
        r == counts(weights.map(), skip_nil, pool, cat, hand@),
{
    if categorize(hand) != cat {
        return false;
    }
    if pool == Pool::TwoCards && hand.len() != 2 {
        return false;
    }
    if skip_nil {
        let w: N = mass_at(weights, hand);
        if is_zero(w) {
            return false;
        }
    }
    true
}

fn pool_move<N: Scalar>(
    tree: &EvTree<N>,
    weights: &HandTable<N>,
    skip_nil: bool,
    pool: Pool,
    cat: HandCategory,
    mv: Move,
) -> (r: Option<N>)
    requires
        tree.wf(),
        playable(tree.map()),
        weights.wf(),
    ensures
        r == pooled(tree.order(), tree.map(), weights.map(), skip_nil, pool, cat, mv),
{
    let mut sums: Option<(N, N)> = None;
    let mut k: usize = 0;
    while k < tree.len()
        invariant
            k <= tree.order().len(),
            tree.wf(),
            playable(tree.map()),
            weights.wf(),
            sums == pooled_upto(
                tree.order(),
                tree.map(),
                weights.map(),
                skip_nil,
                pool,
                cat,
                mv,
                k as int,
            ),
        decreases tree.order().len() - k,
    {
        proof {
            tree.order_names_hands();
        }
        let hand = tree.hand(k);
        match tree.value(k).1.get(mv) {
            Some(ev) => {
                if hand_counts(weights, skip_nil, pool, cat, &hand) {
                    let w: N = mass_at(weights, &hand);
                    let (w_sum, ev_sum) = match sums {
                        Some(both) => both,
                        None => (from_whole(0), from_whole(0)),
                    };
                    sums = Some((w_sum.plus(w), ev_sum.plus(w.times(ev))));
                }
            },
            None => {},
        }
        k += 1;
    }
    match sums {
        Some((w_sum, ev_sum)) => Some(ev_sum.over(w_sum)),
        None => None,
    }
}

/// The average values of the moves of one row.
pub fn pool_row<N: Scalar>(
    tree: &EvTree<N>,
    weights: &HandTable<N>,
    skip_nil: bool,
    pool: Pool,
    cat: HandCategory,
) -> (r: MoveEvs<N>)
    requires
        tree.wf(),
        playable(tree.map()),
        weights.wf(),
    ensures
        r == row_evs(tree.order(), tree.map(), weights.map(), skip_nil, pool, cat),
{
    MoveEvs {
        hit: pool_move(tree, weights, skip_nil, pool, cat, Move::Hit),
        stand: pool_move(tree, weights, skip_nil, pool, cat, Move::Stand),
        double: pool_move(tree, weights, skip_nil, pool, cat, Move::Double),
        split: pool_move(tree, weights, skip_nil, pool, cat, Move::Split),
        surrender: pool_move(tree, weights, skip_nil, pool, cat, Move::Surrender),
    }
}

fn row_counts<N: Scalar>(
    tree: &EvTree<N>,
    weights: &HandTable<N>,
    skip_nil: bool,
    pool: Pool,
    cat: HandCategory,
) -> (r: bool)
    requires
        tree.wf(),
        playable(tree.map()),
        weights.wf(),
    ensures
        r == any_counts(tree.order(), weights.map(), skip_nil, pool, cat),
{
    let mut k: usize = 0;
    while k < tree.len()
        invariant
            k <= tree.order().len(),
            tree.wf(),
            playable(tree.map()),
            weights.wf(),
            forall|i: int|
                0 <= i < k ==> !counts(
                    weights.map(),
                    skip_nil,
                    pool,
                    cat,
                    #[trigger] tree.order()[i],
                ),
        decreases tree.order().len() - k,
    {
        proof {
            tree.order_names_hands();
        }
        let hand = tree.hand(k);
        if hand_counts(weights, skip_nil, pool, cat, &hand) {
            assert(counts(weights.map(), skip_nil, pool, cat, tree.order()[k as int]));
            return true;
        }
        k += 1;
    }
    false
}

/// Whether a table holds exactly the rows that some hand counts towards, with the
/// average values of their moves.
pub open spec fn is_summary<N: Scalar>(
    rows: ChartTable<MoveEvs<N>>,
    order: Seq<Tally>,
    tree: Map<Tally, (N, MoveEvs<N>)>,
    weights: Map<Tally, N>,
    skip_nil: bool,
) -> bool {
    &&& rows.wf()
    &&& forall|cat: HandCategory| #[trigger]
        rows.has(cat) <==> any_counts(order, weights, skip_nil, Pool::All, cat)
    &&& forall|i: int|
        0 <= i < rows.entries().len() ==> (#[trigger] rows.entries()[i]).1 == row_evs(
            order,
            tree,
            weights,
            skip_nil,
            Pool::All,
            rows.entries()[i].0,
        )
}

fn summarize<N: Scalar>(tree: &EvTree<N>, weights: &HandTable<N>, skip_nil: bool) -> (r: ChartTable<
    MoveEvs<N>,
>)
    requires
        tree.wf(),
        playable(tree.map()),
        weights.wf(),
    ensures
        is_summary(r, tree.order(), tree.map(), weights.map(), skip_nil),
{
    let mut rows: ChartTable<MoveEvs<N>> = ChartTable::new();
    let ghost order = tree.order();
    let ghost w = weights.map();
    let mut k: usize = 0;
    while k < tree.len()
        invariant
            k <= order.len(),
            order == tree.order(),
            w == weights.map(),
            tree.wf(),
            playable(tree.map()),
            weights.wf(),
            rows.wf(),
            forall|cat: HandCategory| #[trigger]
                rows.has(cat) ==> any_counts(order, w, skip_nil, Pool::All, cat),
            forall|i: int|
                0 <= i < k && counts(
                    w,
                    skip_nil,
                    Pool::All,
                    category_of(#[trigger] order[i]),
                    order[i],
                ) ==> rows.has(category_of(order[i])),
            forall|i: int|
                0 <= i < rows.entries().len() ==> (#[trigger] rows.entries()[i]).1 == row_evs(
                    order,
                    tree.map(),
                    w,
                    skip_nil,
                    Pool::All,
                    rows.entries()[i].0,
                ),
        decreases order.len() - k,
    {
        proof {
            tree.order_names_hands();
        }
        let hand = tree.hand(k);
        let cat = categorize(&hand);
        if hand_counts(weights, skip_nil, Pool::All, cat, &hand) {
            let known: bool = rows.get(cat).is_some();
            if !known {
                let evs: MoveEvs<N> = pool_row(tree, weights, skip_nil, Pool::All, cat);
                let ghost before = rows;
                rows.push(cat, evs);
                proof {
                    assert(counts(w, skip_nil, Pool::All, cat, order[k as int]));
                    let n = before.entries().len() as int;
                    assert(rows.entries()[n].0 == cat);
                    assert forall|c: HandCategory| #[trigger] rows.has(c) implies before.has(c) || c
                        == cat by {
                        let i = choose|i: int|
                            0 <= i < rows.entries().len() && (#[trigger] rows.entries()[i]).0 == c;
                        if i < n {
                            assert(before.entries()[i].0 == c);
                        }
                    }
                    assert forall|c: HandCategory| #[trigger] before.has(c) implies rows.has(c) by {
                        let i = choose|i: int|
                            0 <= i < before.entries().len() && (
                            #[trigger] before.entries()[i]).0 == c;
                        assert(rows.entries()[i].0 == c);
                    }
                    assert forall|i: int| 0 <= i < rows.entries().len() implies (
                    #[trigger] rows.entries()[i]).1 == row_evs(
                        order,
                        tree.map(),
                        w,
                        skip_nil,
                        Pool::All,
                        rows.entries()[i].0,
                    ) by {
                        if i < n {
                            assert(rows.entries()[i] == before.entries()[i]);
                        }
                    }
                }
            }
        }
        k += 1;
    }
    proof {
        assert forall|cat: HandCategory| any_counts(
            order,
            w,
            skip_nil,
            Pool::All,
            cat,
        ) implies #[trigger] rows.has(cat) by {
            let i = choose|i: int|
                0 <= i < order.len() && counts(w, skip_nil, Pool::All, cat, #[trigger] order[i]);
            assert(category_of(order[i]) == cat);
        }
    }
    rows
}

/// Pool the hands of a tree into rows, by given weights. A hand without weight
/// does not count.
pub fn summarize_with<N: Scalar>(tree: &EvTree<N>, weights: &HandTable<N>) -> (r: ChartTable<
    MoveEvs<N>,
>)
    requires
        tree.wf(),
        playable(tree.map()),
        weights.wf(),
    ensures
        is_summary(r, tree.order(), tree.map(), weights.map(), true),
{
    summarize(tree, weights, true)
}

/// Pool the hands of a tree into rows, by the weights that they are stored with.
pub fn summarize_evs<N: Scalar>(tree: &EvTree<N>) -> (r: ChartTable<MoveEvs<N>>)
    requires
        tree.wf(),
        playable(tree.map()),
    ensures
        is_summary(
            r,
            tree.order(),
            tree.map(),
            tree.map().map_values(|e: (N, MoveEvs<N>)| e.0),
            false,
        ),
{
    let weights = crate::reach::combinatoric_weights(tree);
    summarize(tree, &weights, false)
}

/// The values of a chart row for the moves that a hand offers.
pub open spec fn legal_part<N>(table: MoveEvs<N>, legal: MoveEvs<N>) -> MoveEvs<N> {
    MoveEvs {
        hit: if legal.hit is Some {
            table.hit
        } else {
            None
        },
        stand: if legal.stand is Some {
            table.stand
        } else {
            None
        },
        double: if legal.double is Some {
            table.double
        } else {
            None
        },
        split: if legal.split is Some {
            table.split
        } else {
            None
        },
        surrender: if legal.surrender is Some {
            table.surrender
        } else {
            None
        },
    }
}

/// The move that a chart row recommends to a hand: the best by the row of those
/// that the hand offers. Where the row knows none of them, it is the hand's own
/// best.
pub open spec fn charted_move<N: Scalar>(table: Option<MoveEvs<N>>, legal: MoveEvs<N>) -> Move {
    match table {
        Some(row) => match best_entry(legal_part(row, legal)) {
            Some((mv, _)) => mv,
            None => best_move_spec(legal),
        },
        None => best_move_spec(legal),
    }
}

/// The move that a chart row recommends to a hand.
pub fn table_move<N: Scalar>(table: Option<&MoveEvs<N>>, legal: &MoveEvs<N>) -> (r: Move)
    requires
        legal.offers_any(),
    ensures
        r == charted_move(
            match table {
                Some(row) => Some(*row),
                None => None,
            },
            *legal,
        ),
        legal.at(r) is Some,
{
    if let Some(row) = table {
        let part = MoveEvs {
            hit: if legal.hit.is_some() {
                row.hit
            } else {
                None
            },
            stand: if legal.stand.is_some() {
                row.stand
            } else {
                None
            },
            double: if legal.double.is_some() {
                row.double
            } else {
                None
            },
            split: if legal.split.is_some() {
                row.split
            } else {
                None
            },
            surrender: if legal.surrender.is_some() {
                row.surrender
            } else {
                None
            },
        };
        assert(part == legal_part(*row, *legal));
        if let Some((mv, _)) = part.best() {
            proof {
                best_is_offered(part, 5);
            }
            return mv;
        }
    }
    best_move(legal)
}

/// Whether a list names each of the places below `n` once.
pub open spec fn names_all(places: Seq<usize>, n: int) -> bool {
    &&& places.len() == n
    &&& places.no_duplicates()
    &&& forall|j: int| 0 <= j < places.len() ==> (#[trigger] places[j]) < n
    &&& forall|i: int| 0 <= i < n ==> #[trigger] places.contains(i as usize)
}

/// Whether a key at one place comes before a key at another: it is larger, or as large and at
/// the earlier place.
pub open spec fn goes_first<N: Scalar>(keys: Seq<N>, x: usize, y: usize) -> bool {
    &&& !keys[x as int].less_spec(keys[y as int])
    &&& keys[y as int].less_spec(keys[x as int]) || x < y
}

/// Whether larger keys come first, and equal ones stay in their order.
pub open spec fn falling<N: Scalar>(keys: Seq<N>, places: Seq<usize>) -> bool {
    forall|a: int, b: int|
        0 <= a < b < places.len() ==> goes_first(
            keys,
            #[trigger] places[a],
            #[trigger] places[b],
        )
}

/// The places of a list of keys with larger keys first, and equal ones in their order.
pub fn rank_keys<N: Scalar>(keys: &Vec<N>) -> (r: Vec<usize>)
    ensures
        names_all(r@, keys@.len() as int),
        ranks::<N>() ==> falling(keys@, r@),
{
    let mut out: Vec<usize> = Vec::new();
    let mut n: usize = 0;
    while n < keys.len()
        invariant
            n <= keys@.len(),
            names_all(out@, n as int),
            ranks::<N>() ==> falling(keys@, out@),
        decreases keys@.len() - n,
    {
        let mut at: usize = 0;
        let mut going: bool = true;
        while going && at < out.len()
            invariant
                n < keys@.len(),
                names_all(out@, n as int),
                at <= out@.len(),
                forall|a: int|
                    0 <= a < at ==> !keys@[#[trigger] out@[a] as int].less_spec(keys@[n as int]),
                !going ==> at < out@.len() && keys@[out@[at as int] as int].less_spec(
                    keys@[n as int],
                ),
            decreases out@.len() - at + if going {
                1int
            } else {
                0int
            },
        {
            assert(out@[at as int] < n);
            if keys[out[at]].less(keys[n]) {
                going = false;
            } else {
                at += 1;
            }
        }
        let ghost before = out@;
        out.insert(at, n);
        proof {
            insert_keeps_names(before, at as int, n);
            if ranks::<N>() {
                insert_keeps_falling(keys@, before, at as int, n);
            }
        }
        n += 1;
    }
    out
}

proof fn insert_keeps_names(before: Seq<usize>, at: int, n: usize)
    requires
        names_all(before, n as int),
        0 <= at <= before.len(),
    ensures
        names_all(before.insert(at, n), n + 1),
{
    let after = before.insert(at, n);
    assert forall|j: int| 0 <= j < after.len() implies (#[trigger] after[j]) < n + 1 by {
        if j < at {
            assert(after[j] == before[j]);
        } else if j > at {
            assert(after[j] == before[j - 1]);
        }
    }
    assert forall|i: int| 0 <= i < n + 1 implies #[trigger] after.contains(i as usize) by {
        if i < n {
            assert(before.contains(i as usize));
            let j = before.index_of(i as usize);
            if j < at {
                assert(after[j] == i as usize);
            } else {
                assert(after[j + 1] == i as usize);
            }
        } else {
            assert(after[at] == n);
        }
    }
    assert forall|a: int, b: int| 0 <= a < after.len() && 0 <= b < after.len() && a != b implies after[a]
        != after[b] by {
        let x: int = if a < at {
            a
        } else {
            a - 1
        };
        let y: int = if b < at {
            b
        } else {
            b - 1
        };
        if a != at {
            assert(after[a] == before[x]);
        }
        if b != at {
            assert(after[b] == before[y]);
        }
    }
}

proof fn insert_keeps_falling<N: Scalar>(keys: Seq<N>, before: Seq<usize>, at: int, n: usize)
    requires
        ranks::<N>(),
        falling(keys, before),
        0 <= at <= before.len(),
        forall|a: int| 0 <= a < before.len() ==> (#[trigger] before[a]) < n,
        forall|a: int| 0 <= a < at ==> !keys[#[trigger] before[a] as int].less_spec(keys[n as int]),
        at < before.len() ==> keys[before[at] as int].less_spec(keys[n as int]),
    ensures
        falling(keys, before.insert(at, n)),
{
    let after = before.insert(at, n);
    assert forall|a: int, b: int| 0 <= a < b < after.len() implies goes_first(
        keys,
        #[trigger] after[a],
        #[trigger] after[b],
    ) by {
        if b < at {
            assert(after[a] == before[a] && after[b] == before[b]);
        } else if a > at {
            assert(after[a] == before[a - 1] && after[b] == before[b - 1]);
        } else if b == at {
            assert(after[a] == before[a]);
        } else if a < at {
            assert(after[a] == before[a] && after[b] == before[b - 1]);
        } else {
            let first = keys[before[at] as int];
            let new = keys[n as int];
            assert(after[b] == before[b - 1]);
            let other = keys[before[b - 1] as int];
            assert(!new.less_spec(first));
            if b - 1 > at {
                assert(goes_first(keys, before[at], before[b - 1]));
                assert(!first.less_spec(other));
                assert(!new.less_spec(other));
                if !other.less_spec(new) {
                    assert(!first.less_spec(new));
                }
            }
        }
    }
}

/// One cell of the strategy chart.
pub struct CellInfo<N> {
    /// The recommended move.
    pub headline: Move,
    /// Whether the best play of some hand of the row is not what the row
    /// recommends to it.
    pub composition_dependent: bool,
    /// The average value of each move.
    pub move_evs: MoveEvs<N>,
    /// For each move the hands whose best play it is, more frequent hands first. The moves
    /// are in the order in which they are listed.
    pub breakdown: Vec<(Move, Vec<CardCol>)>,
}

/// The hands that decide a row: its hands of two cards, so that moves which only
/// they offer are compared on them alone, and all hands where there are none of
/// two cards.
pub open spec fn deciding_pool<N: Scalar>(
    order: Seq<Tally>,
    weights: Map<Tally, N>,
    cat: HandCategory,
) -> Pool {
    if any_counts(order, weights, true, Pool::TwoCards, cat) {
        Pool::TwoCards
    } else {
        Pool::All
    }
}

/// The average value of each move in a cell.
pub open spec fn cell_evs<N: Scalar>(
    order: Seq<Tally>,
    tree: Map<Tally, (N, MoveEvs<N>)>,
    weights: Map<Tally, N>,
    cat: HandCategory,
) -> MoveEvs<N> {
    row_evs(order, tree, weights, true, deciding_pool(order, weights, cat), cat)
}

/// Whether the best play of a hand is not what the row recommends to it.
pub open spec fn deviates<N: Scalar>(row: MoveEvs<N>, evs: MoveEvs<N>) -> bool {
    best_move_spec(evs) != charted_move(Some(row), evs)
}

/// Whether a hand counts towards a row and a move is its best play.
pub open spec fn prefers<N: Scalar>(
    order: Seq<Tally>,
    tree: Map<Tally, (N, MoveEvs<N>)>,
    weights: Map<Tally, N>,
    cat: HandCategory,
    mv: Move,
    t: Tally,
) -> bool {
    &&& order.contains(t)
    &&& counts(weights, true, Pool::All, cat, t)
    &&& best_move_spec(tree[t].1) == mv
}

/// Whether a list holds the hands of a row whose best play is a move, each once
/// and more frequent hands first. Equally frequent ones stay in the order of the tree.
pub open spec fn is_group<N: Scalar>(
    hands: Seq<CardCol>,
    order: Seq<Tally>,
    tree: Map<Tally, (N, MoveEvs<N>)>,
    weights: Map<Tally, N>,
    cat: HandCategory,
    mv: Move,
) -> bool {
    &&& forall|t: Tally|
        prefers(order, tree, weights, cat, mv, t) <==> exists|i: int|
            0 <= i < hands.len() && (#[trigger] hands[i])@ == t
    &&& forall|i: int, j: int|
        0 <= i < j < hands.len() ==> (#[trigger] hands[i])@ != (#[trigger] hands[j])@
    &&& ranks::<N>() ==> forall|i: int, j: int|
        0 <= i < j < hands.len() ==> {
            let x = (#[trigger] hands[i])@;
            let y = (#[trigger] hands[j])@;
            &&& !mass_of(weights, x).less_spec(mass_of(weights, y))
            &&& mass_of(weights, y).less_spec(mass_of(weights, x)) || order.index_of(x)
                < order.index_of(y)
        }
}

/// Whether a cell says what the hands of its row say.
pub open spec fn is_cell<N: Scalar>(
    cell: CellInfo<N>,
    order: Seq<Tally>,
    tree: Map<Tally, (N, MoveEvs<N>)>,
    weights: Map<Tally, N>,
    cat: HandCategory,
) -> bool {
    &&& cell.move_evs == cell_evs(order, tree, weights, cat)
    &&& cell.headline == best_move_spec(cell.move_evs)
    &&& cell.composition_dependent <==> exists|i: int|
        0 <= i < order.len() && counts(weights, true, Pool::All, cat, #[trigger] order[i])
            && deviates(cell.move_evs, tree[order[i]].1)
    &&& forall|i: int|
        0 <= i < cell.breakdown@.len() ==> is_group(
            (#[trigger] cell.breakdown@[i]).1@,
            order,
            tree,
            weights,
            cat,
            cell.breakdown@[i].0,
        ) && cell.breakdown@[i].1@.len() > 0
    &&& forall|i: int, j: int|
        0 <= i < j < cell.breakdown@.len() ==> move_place((#[trigger] cell.breakdown@[i]).0)
            < move_place((#[trigger] cell.breakdown@[j]).0)
    &&& forall|mv: Move, t: Tally| #[trigger]
        prefers(order, tree, weights, cat, mv, t) ==> exists|i: int|
            0 <= i < cell.breakdown@.len() && (#[trigger] cell.breakdown@[i]).0 == mv
}

fn group_of<N: Scalar>(
    tree: &EvTree<N>,
    weights: &HandTable<N>,
    cat: HandCategory,
    mv: Move,
) -> (r: Vec<CardCol>)
    requires
        tree.wf(),
        playable(tree.map()),
        weights.wf(),
    ensures
        is_group(r@, tree.order(), tree.map(), weights.map(), cat, mv),
{
    let ghost order = tree.order();
    let ghost w = weights.map();
    let ghost map = tree.map();
    let mut hands: Vec<CardCol> = Vec::new();
    let mut keys: Vec<N> = Vec::new();
    let ghost mut from: Seq<int> = Seq::empty();
    let mut k: usize = 0;
    while k < tree.len()
        invariant
            k <= order.len(),
            order == tree.order(),
            w == weights.map(),
            map == tree.map(),
            tree.wf(),
            playable(map),
            weights.wf(),
            hands@.len() == keys@.len(),
            from.len() == hands@.len(),
            forall|j: int|
                0 <= j < hands@.len() ==> {
                    &&& 0 <= #[trigger] from[j] < k
                    &&& hands@[j]@ == order[from[j]]
                    &&& keys@[j] == mass_of(w, order[from[j]])
                    &&& prefers(order, map, w, cat, mv, order[from[j]])
                },
            forall|i: int, j: int| 0 <= i < j < from.len() ==> #[trigger] from[i] < #[trigger] from[j],
            forall|i: int|
                0 <= i < k && prefers(order, map, w, cat, mv, #[trigger] order[i])
                    ==> from.contains(i),
        decreases order.len() - k,
    {
        proof {
            tree.order_names_hands();
        }
        let hand = tree.hand(k);
        let ghost before = from;
        if hand_counts(weights, true, Pool::All, cat, &hand) && best_move(&tree.value(k).1) == mv {
            let key: N = mass_at(weights, &hand);
            hands.push(hand);
            keys.push(key);
            proof {
                assert(order.contains(order[k as int]));
                from = from.push(k as int);
                assert(from[before.len() as int] == k);
            }
        }
        proof {
            assert forall|i: int|
                0 <= i < k + 1 && prefers(
                    order,
                    map,
                    w,
                    cat,
                    mv,
                    #[trigger] order[i],
                ) implies from.contains(i) by {
                if i < k {
                    assert(before.contains(i));
                    let j = before.index_of(i);
                    assert(from[j] == i);
                }
            }
        }
        k += 1;
    }
    let places = rank_keys(&keys);
    let mut out: Vec<CardCol> = Vec::new();
    let mut j: usize = 0;
    while j < places.len()
        invariant
            j <= places@.len(),
            names_all(places@, hands@.len() as int),
            out@.len() == j,
            forall|i: int| 0 <= i < j ==> #[trigger] out@[i] == hands@[places@[i] as int],
        decreases places@.len() - j,
    {
        assert(places@[j as int] < hands@.len());
        out.push(hands[places[j]]);
        j += 1;
    }
    proof {
        tree.order_names_hands();
        assert forall|t: Tally| prefers(order, map, w, cat, mv, t) <==> exists|i: int|
            0 <= i < out@.len() && (#[trigger] out@[i])@ == t by {
            if prefers(order, map, w, cat, mv, t) {
                let i = order.index_of(t);
                assert(order[i] == t);
                assert(from.contains(i));
                let h = from.index_of(i);
                assert(from[h] == i);
                assert(places@.contains(h as usize));
                let q = places@.index_of(h as usize);
                assert(out@[q]@ == t);
            }
            if exists|i: int| 0 <= i < out@.len() && (#[trigger] out@[i])@ == t {
                let i = choose|i: int| 0 <= i < out@.len() && (#[trigger] out@[i])@ == t;
                let h = places@[i] as int;
                assert(0 <= from[h] < k);
            }
        }
        assert forall|a: int, b: int| 0 <= a < b < out@.len() implies (#[trigger] out@[a])@ != (
        #[trigger] out@[b])@ by {
            let x = places@[a] as int;
            let y = places@[b] as int;
            assert(x != y);
            assert(0 <= from[x] < k && 0 <= from[y] < k);
            if x < y {
                assert(from[x] < from[y]);
            } else {
                assert(from[y] < from[x]);
            }
        }
        if ranks::<N>() {
            assert forall|a: int, b: int| 0 <= a < b < out@.len() implies {
                let x = (#[trigger] out@[a])@;
                let y = (#[trigger] out@[b])@;
                &&& !mass_of(w, x).less_spec(mass_of(w, y))
                &&& mass_of(w, y).less_spec(mass_of(w, x)) || order.index_of(x) < order.index_of(y)
            } by {
                let x = places@[a] as int;
                let y = places@[b] as int;
                assert(goes_first(keys@, places@[a], places@[b]));
                assert(0 <= from[x] < k && 0 <= from[y] < k);
                assert(order.index_of(order[from[x]]) == from[x]);
                assert(order.index_of(order[from[y]]) == from[y]);
                if x < y {
                    assert(from[x] < from[y]);
                }
                assert(keys@[x] == mass_of(w, out@[a]@));
                assert(keys@[y] == mass_of(w, out@[b]@));
            }
        }
    }
    out
}

/// A row that some hand counts towards offers a move.
proof fn row_offers<N: Scalar>(
    order: Seq<Tally>,
    tree: Map<Tally, (N, MoveEvs<N>)>,
    weights: Map<Tally, N>,
    skip_nil: bool,
    pool: Pool,
    cat: HandCategory,
    i: int,
)
    requires
        0 <= i < order.len(),
        counts(weights, skip_nil, pool, cat, order[i]),
        tree[order[i]].1.offers_any(),
    ensures
        row_evs(order, tree, weights, skip_nil, pool, cat).offers_any(),
{
    let evs = tree[order[i]].1;
    let mv = if evs.hit is Some {
        Move::Hit
    } else if evs.stand is Some {
        Move::Stand
    } else if evs.double is Some {
        Move::Double
    } else if evs.split is Some {
        Move::Split
    } else {
        Move::Surrender
    };
    pooled_is_some(order, tree, weights, skip_nil, pool, cat, mv, i, order.len() as int);
}

proof fn pooled_is_some<N: Scalar>(
    order: Seq<Tally>,
    tree: Map<Tally, (N, MoveEvs<N>)>,
    weights: Map<Tally, N>,
    skip_nil: bool,
    pool: Pool,
    cat: HandCategory,
    mv: Move,
    i: int,
    k: int,
)
    requires
        0 <= i < k <= order.len(),
        counts(weights, skip_nil, pool, cat, order[i]),
        tree[order[i]].1.at(mv) is Some,
    ensures
        pooled_upto(order, tree, weights, skip_nil, pool, cat, mv, k) is Some,
    decreases k,
{
    if i < k - 1 {
        pooled_is_some(order, tree, weights, skip_nil, pool, cat, mv, i, k - 1);
    }
}

/// The cell of one row. Some hand counts towards it.
pub fn cell_of<N: Scalar>(tree: &EvTree<N>, weights: &HandTable<N>, cat: HandCategory) -> (r: CellInfo<
    N,
>)
    requires
        tree.wf(),
        playable(tree.map()),
        weights.wf(),
        any_counts(tree.order(), weights.map(), true, Pool::All, cat),
    ensures
        is_cell(r, tree.order(), tree.map(), weights.map(), cat),
        r.move_evs.offers_any(),
{
    let ghost order = tree.order();
    let ghost w = weights.map();
    let ghost map = tree.map();
    let pool = if row_counts(tree, weights, true, Pool::TwoCards, cat) {
        Pool::TwoCards
    } else {
        Pool::All
    };
    let move_evs: MoveEvs<N> = pool_row(tree, weights, true, pool, cat);
    proof {
        tree.order_names_hands();
        let i = choose|i: int|
            0 <= i < order.len() && counts(w, true, pool, cat, #[trigger] order[i]);
        assert(map.contains_key(order[i]));
        row_offers(order, map, w, true, pool, cat, i);
    }
    let headline = best_move(&move_evs);
    let mut varies: bool = false;
    let mut k: usize = 0;
    while k < tree.len()
        invariant
            k <= order.len(),
            order == tree.order(),
            w == weights.map(),
            map == tree.map(),
            tree.wf(),
            playable(map),
            weights.wf(),
            varies <==> exists|i: int|
                0 <= i < k && counts(w, true, Pool::All, cat, #[trigger] order[i]) && deviates(
                    move_evs,
                    map[order[i]].1,
                ),
        decreases order.len() - k,
    {
        proof {
            tree.order_names_hands();
        }
        let hand = tree.hand(k);
        if hand_counts(weights, true, Pool::All, cat, &hand) {
            let evs = &tree.value(k).1;
            if best_move(evs) != table_move(Some(&move_evs), evs) {
                assert(counts(w, true, Pool::All, cat, order[k as int]) && deviates(
                    move_evs,
                    map[order[k as int]].1,
                ));
                varies = true;
            }
        }
        k += 1;
    }
    let mut breakdown: Vec<(Move, Vec<CardCol>)> = Vec::new();
    let mut m: usize = 0;
    while m < 5
        invariant
            m <= 5,
            order == tree.order(),
            w == weights.map(),
            map == tree.map(),
            tree.wf(),
            playable(map),
            weights.wf(),
            forall|i: int|
                0 <= i < breakdown@.len() ==> is_group(
                    (#[trigger] breakdown@[i]).1@,
                    order,
                    map,
                    w,
                    cat,
                    breakdown@[i].0,
                ) && breakdown@[i].1@.len() > 0,
            forall|i: int|
                0 <= i < breakdown@.len() ==> move_place((#[trigger] breakdown@[i]).0) < m,
            forall|i: int, j: int|
                0 <= i < j < breakdown@.len() ==> move_place((#[trigger] breakdown@[i]).0)
                    < move_place((#[trigger] breakdown@[j]).0),
            forall|j: int, t: Tally|
                0 <= j < m && #[trigger] prefers(order, map, w, cat, move_at(j), t) ==> exists|i: int|
                    0 <= i < breakdown@.len() && (#[trigger] breakdown@[i]).0 == move_at(j),
        decreases 5 - m,
    {
        let mv = listed_move(m);
        let hands = group_of(tree, weights, cat, mv);
        let ghost before = breakdown@;
        let some: bool = hands.len() > 0;
        if some {
            breakdown.push((mv, hands));
        }
        proof {
            assert(move_place(move_at(m as int)) == m);
            assert forall|i: int| 0 <= i < breakdown@.len() implies move_place(
                (#[trigger] breakdown@[i]).0,
            ) < m + 1 by {
                if i < before.len() {
                    assert(breakdown@[i] == before[i]);
                }
            }
            assert forall|i: int, j: int| 0 <= i < j < breakdown@.len() implies move_place(
                (#[trigger] breakdown@[i]).0,
            ) < move_place((#[trigger] breakdown@[j]).0) by {
                assert(breakdown@[i] == before[i]);
                if j < before.len() {
                    assert(breakdown@[j] == before[j]);
                }
            }
            assert forall|j: int, t: Tally|
                0 <= j < m + 1 && #[trigger] prefers(
                    order,
                    map,
                    w,
                    cat,
                    move_at(j),
                    t,
                ) implies exists|i: int|
                0 <= i < breakdown@.len() && (#[trigger] breakdown@[i]).0 == move_at(j) by {
                if j < m {
                    let i = choose|i: int|
                        0 <= i < before.len() && (#[trigger] before[i]).0 == move_at(j);
                    assert(breakdown@[i].0 == move_at(j));
                } else {
                    let i = choose|i: int| 0 <= i < hands@.len() && (#[trigger] hands@[i])@ == t;
                    assert(some);
                    assert(breakdown@[before.len() as int].0 == move_at(j));
                }
            }
        }
        m += 1;
    }
    let r = CellInfo { headline, composition_dependent: varies, move_evs, breakdown };
    proof {
        let groups = r.breakdown@;
        assert forall|mv: Move, t: Tally| #[trigger]
            prefers(order, map, w, cat, mv, t) implies exists|i: int|
            0 <= i < groups.len() && (#[trigger] groups[i]).0 == mv by {
            let j = move_place(mv);
            assert(prefers(order, map, w, cat, move_at(j), t));
            let i = choose|i: int|
                0 <= i < groups.len() && (#[trigger] groups[i]).0 == move_at(j);
            assert(groups[i].0 == mv);
        }
        assert(is_cell(r, order, map, w, cat));
    }
    r
}

/// Whether a table holds exactly the rows that some hand counts towards, with
/// their cells.
pub open spec fn is_chart<N: Scalar>(
    rows: ChartTable<CellInfo<N>>,
    order: Seq<Tally>,
    tree: Map<Tally, (N, MoveEvs<N>)>,
    weights: Map<Tally, N>,
) -> bool {
    &&& rows.wf()
    &&& forall|cat: HandCategory| #[trigger]
        rows.has(cat) <==> any_counts(order, weights, true, Pool::All, cat)
    &&& forall|i: int|
        0 <= i < rows.entries().len() ==> {
            &&& is_cell(
                (#[trigger] rows.entries()[i]).1,
                order,
                tree,
                weights,
                rows.entries()[i].0,
            )
            &&& rows.entries()[i].1.move_evs.offers_any()
        }
}

/// The cells of all rows that some hand counts towards.
pub fn summarize_cells<N: Scalar>(tree: &EvTree<N>, weights: &HandTable<N>) -> (r: ChartTable<
    CellInfo<N>,
>)
    requires
        tree.wf(),
        playable(tree.map()),
        weights.wf(),
    ensures
        is_chart(r, tree.order(), tree.map(), weights.map()),
{
    let mut rows: ChartTable<CellInfo<N>> = ChartTable::new();
    let ghost order = tree.order();
    let ghost w = weights.map();
    let mut k: usize = 0;
    while k < tree.len()
        invariant
            k <= order.len(),
            order == tree.order(),
            w == weights.map(),
            tree.wf(),
            playable(tree.map()),
            weights.wf(),
            rows.wf(),
            forall|cat: HandCategory| #[trigger]
                rows.has(cat) ==> any_counts(order, w, true, Pool::All, cat),
            forall|i: int|
                0 <= i < k && counts(
                    w,
                    true,
                    Pool::All,
                    category_of(#[trigger] order[i]),
                    order[i],
                ) ==> rows.has(category_of(order[i])),
            forall|i: int|
                0 <= i < rows.entries().len() ==> {
                    &&& is_cell(
                        (#[trigger] rows.entries()[i]).1,
                        order,
                        tree.map(),
                        w,
                        rows.entries()[i].0,
                    )
                    &&& rows.entries()[i].1.move_evs.offers_any()
                },
        decreases order.len() - k,
    {
        proof {
            tree.order_names_hands();
        }
        let hand = tree.hand(k);
        let cat = categorize(&hand);
        if hand_counts(weights, true, Pool::All, cat, &hand) {
            let known: bool = rows.get(cat).is_some();
            if !known {
                assert(counts(w, true, Pool::All, cat, order[k as int]));
                let cell: CellInfo<N> = cell_of(tree, weights, cat);
                let ghost before = rows;
                rows.push(cat, cell);
                proof {
                    let n = before.entries().len() as int;
                    assert(rows.entries()[n].0 == cat);
                    assert forall|c: HandCategory| #[trigger] rows.has(c) implies before.has(c) || c
                        == cat by {
                        let i = choose|i: int|
                            0 <= i < rows.entries().len() && (#[trigger] rows.entries()[i]).0 == c;
                        if i < n {
                            assert(before.entries()[i].0 == c);
                        }
                    }
                    assert forall|c: HandCategory| #[trigger] before.has(c) implies rows.has(c) by {
                        let i = choose|i: int|
                            0 <= i < before.entries().len() && (
                            #[trigger] before.entries()[i]).0 == c;
                        assert(rows.entries()[i].0 == c);
                    }
                    assert forall|i: int| 0 <= i < rows.entries().len() implies {
                        &&& is_cell(
                            (#[trigger] rows.entries()[i]).1,
                            order,
                            tree.map(),
                            w,
                            rows.entries()[i].0,
                        )
                        &&& rows.entries()[i].1.move_evs.offers_any()
                    } by {
                        if i < n {
                            assert(rows.entries()[i] == before.entries()[i]);
                        }
                    }
                }
            }
        }
        k += 1;
    }
    proof {
        assert forall|cat: HandCategory| any_counts(
            order,
            w,
            true,
            Pool::All,
            cat,
        ) implies #[trigger] rows.has(cat) by {
            let i = choose|i: int|
                0 <= i < order.len() && counts(w, true, Pool::All, cat, #[trigger] order[i]);
            assert(category_of(order[i]) == cat);
        }
    }
    rows
}

/// What a hand is worth when every decision follows the chart: a move that ends
/// the hand is worth what the tree says, and after a hit the chart is followed
/// again.
pub open spec fn chart_value<N: Scalar, S: Shoe<N>>(
    b: Basis,
    s: S::State,
    tree: Map<Tally, (N, MoveEvs<N>)>,
    table: spec_fn(HandCategory) -> Option<MoveEvs<N>>,
    t: Tally,
) -> N
    decreases 32 - hard(t), 20int,
    when S::sane(s) && t.len() == 10 && hard(t) <= 21
    via chart_value_ends::<N, S>
{
    let mv = charted_move(table(category_of(t)), tree[t].1);
    if mv == Move::Hit {
        chart_hit_upto::<N, S>(
            b,
            s,
            tree,
            table,
            t,
            basis_draws::<N, S>(b, S::without(s, t)).len() as int,
        )
    } else {
        tree[t].1.at(mv)->0
    }
}

/// The part of the value of a charted hit over the first `k` cards that can come.
pub open spec fn chart_hit_upto<N: Scalar, S: Shoe<N>>(
    b: Basis,
    s: S::State,
    tree: Map<Tally, (N, MoveEvs<N>)>,
    table: spec_fn(HandCategory) -> Option<MoveEvs<N>>,
    t: Tally,
    k: int,
) -> N
    decreases 32 - hard(t), k,
    when S::sane(s) && t.len() == 10 && hard(t) <= 21 && k <= basis_draws::<N, S>(
        b,
        S::without(s, t),
    ).len()
    via chart_hit_upto_ends::<N, S>
{
    if k <= 0 {
        zero::<N>()
    } else {
        let (card, p) = basis_draws::<N, S>(b, S::without(s, t))[k - 1];
        let child = with_card(t, card);
        chart_hit_upto::<N, S>(b, s, tree, table, t, k - 1).plus_spec(
            p.times_spec(
                if tree.contains_key(child) {
                    chart_value::<N, S>(b, s, tree, table, child)
                } else {
                    minus_one::<N>()
                },
            ),
        )
    }
}

#[via_fn]
proof fn chart_value_ends<N: Scalar, S: Shoe<N>>(
    b: Basis,
    s: S::State,
    tree: Map<Tally, (N, MoveEvs<N>)>,
    table: spec_fn(HandCategory) -> Option<MoveEvs<N>>,
    t: Tally,
) {
    S::without_supply(s, t);
    basis_draws_are_there::<N, S>(b, S::without(s, t));
    S::draws_are_there(S::without(s, t));
}

#[via_fn]
proof fn chart_hit_upto_ends<N: Scalar, S: Shoe<N>>(
    b: Basis,
    s: S::State,
    tree: Map<Tally, (N, MoveEvs<N>)>,
    table: spec_fn(HandCategory) -> Option<MoveEvs<N>>,
    t: Tally,
    k: int,
) {
    if k > 0 {
        S::without_supply(s, t);
        basis_draws_are_there::<N, S>(b, S::without(s, t));
        let card = basis_draws::<N, S>(b, S::without(s, t))[k - 1].0;
        hard_with_n(t, card.rank(), 1);
        crate::card::law_rank_round_trip(card, 0);
    }
}

/// Whether a table of values holds the hands of a tree with a total above
/// `above`, as they are worth when the chart is followed.
spec fn charted_above<N: Scalar, S: Shoe<N>>(
    values: Map<Tally, N>,
    b: Basis,
    s: S::State,
    tree: Map<Tally, (N, MoveEvs<N>)>,
    table: spec_fn(HandCategory) -> Option<MoveEvs<N>>,
    above: int,
) -> bool {
    &&& forall|t: Tally|
        tree.contains_key(t) && hard(t) > above ==> #[trigger] values.contains_key(t)
    &&& forall|t: Tally| #[trigger]
        values.contains_key(t) ==> tree.contains_key(t) && values[t] == chart_value::<N, S>(
            b,
            s,
            tree,
            table,
            t,
        )
}

/// What every hand of a tree is worth when every decision follows the chart. The
/// shoe still holds the up-card.
pub fn bs_value_tree<N: Scalar, S: Shoe<N>>(
    shoe: &S,
    up_card: Card,
    rules: &Ruleset,
    tree: &EvTree<N>,
    table: &ChartTable<MoveEvs<N>>,
) -> (r: HandTable<N>)
    requires
        up_card.valid(),
        S::supply(shoe.state(), up_card.rank()) != Some(0nat),
        tree.wf(),
        playable(tree.map()),
        table.wf(),
    ensures
        r.wf(),
        r.map().dom() == tree.map().dom(),
        forall|t: Tally| #[trigger]
            tree.map().contains_key(t) ==> r.map()[t] == chart_value::<N, S>(
                basis_of(up_card, *rules),
                S::without(shoe.state(), single(up_card)),
                tree.map(),
                |cat: HandCategory| table.at(cat),
                t,
            ),
{
    let mut after_up = shoe.duplicate();
    after_up.draw(&up_card);
    let basis = Basis::new(up_card, rules);
    let ghost s = after_up.state();
    let ghost map = tree.map();
    let ghost order = tree.order();
    let ghost rows = |cat: HandCategory| table.at(cat);
    after_up.is_sane();
    proof {
        tree.order_names_hands();
    }
    let mut bs: HandTable<N> = HandTable::new();
    let mut tot: u8 = 22;
    while tot > 0
        invariant
            tot <= 22,
            basis.wf(),
            S::sane(s),
            s == after_up.state(),
            map == tree.map(),
            order == tree.order(),
            rows == (|cat: HandCategory| table.at(cat)),
            tree.wf(),
            playable(map),
            table.wf(),
            bs.wf(),
            charted_above::<N, S>(bs.map(), basis, s, map, rows, tot - 1),
        decreases tot,
    {
        tot -= 1;
        let mut k: usize = 0;
        while k < tree.len()
            invariant
                tot <= 21,
                k <= order.len(),
                basis.wf(),
                S::sane(s),
                s == after_up.state(),
                map == tree.map(),
                order == tree.order(),
                rows == (|cat: HandCategory| table.at(cat)),
                tree.wf(),
                playable(map),
                table.wf(),
                bs.wf(),
                charted_above::<N, S>(bs.map(), basis, s, map, rows, tot as int),
                forall|i: int|
                    0 <= i < k && hard(#[trigger] order[i]) == tot ==> bs.map().contains_key(
                        order[i],
                    ),
            decreases order.len() - k,
        {
            proof {
                tree.order_names_hands();
            }
            let hand = tree.hand(k);
            if hand.hard_count() == tot {
                let evs = &tree.value(k).1;
                let row = table.get(categorize(&hand));
                let mv = table_move(row, evs);
                let value: N = if mv == Move::Hit {
                    let here = after_up.remove_hand(&hand);
                    let draws: Vec<(Card, N)> = basis.draw_probs(&here);
                    proof {
                        S::without_supply(s, hand@);
                        basis_draws_are_there::<N, S>(basis, here.state());
                    }
                    let minus: N = from_whole(-1);
                    let mut sum: N = from_whole(0);
                    let mut c: usize = 0;
                    while c < draws.len()
                        invariant
                            c <= draws@.len(),
                            S::sane(s),
                            minus == minus_one::<N>(),
                            hard(hand@) == tot,
                            tot <= 21,
                            map == tree.map(),
                            draws@ == basis_draws::<N, S>(basis, S::without(s, hand@)),
                            forall|i: int|
                                0 <= i < draws@.len() ==> (#[trigger] draws@[i]).0.valid(),
                            bs.wf(),
                            charted_above::<N, S>(bs.map(), basis, s, map, rows, tot as int),
                            playable(map),
                            sum == chart_hit_upto::<N, S>(basis, s, map, rows, hand@, c as int),
                        decreases draws@.len() - c,
                    {
                        let (card, p) = draws[c];
                        proof {
                            assert(draws@[c as int].0.valid());
                            crate::dealer::hand_rank_below(hand@, card.rank());
                            hard_with_n(hand@, card.rank(), 1);
                            crate::card::law_rank_round_trip(card, 0);
                        }
                        let child = hand.with(card);
                        let v: N = match bs.get(&child) {
                            Some(v) => *v,
                            None => minus,
                        };
                        sum = sum.plus(p.times(v));
                        c += 1;
                    }
                    sum
                } else {
                    match evs.get(mv) {
                        Some(ev) => ev,
                        None => from_whole(0),
                    }
                };
                let ghost before = bs.map();
                bs.insert(hand, value);
                proof {
                    assert(bs.map().contains_key(order[k as int]));
                    assert forall|t: Tally|
                        map.contains_key(t) && hard(t) > tot implies #[trigger] bs.map().contains_key(
                    t) by {
                        assert(before.contains_key(t));
                    }
                }
            }
            k += 1;
        }
        proof {
            tree.order_names_hands();
            assert forall|t: Tally| map.contains_key(t) && hard(t) > tot - 1 implies #[trigger] bs.map().contains_key(
            t) by {
                if hard(t) == tot {
                    assert(order.contains(t));
                    let i = order.index_of(t);
                    assert(order[i] == t);
                }
            }
        }
    }
    proof {
        assert(bs.map().dom() =~= map.dom());
    }
    bs
}

/// The edge of a tree when every starting hand has the value that it has in a
/// table, zero where the table does not hold it.
pub open spec fn table_edge<N: Scalar>(
    order: Seq<Tally>,
    tree: Map<Tally, (N, MoveEvs<N>)>,
    values: Map<Tally, N>,
) -> EdgeTerm<N> {
    edge_upto(order, |t: Tally| tree[t].0, |t: Tally| mass_of(values, t), order.len() as int)
}

/// The edge of a tree when every decision follows the chart, given what each hand
/// is then worth.
pub fn bs_edge_term<N: Scalar>(tree: &EvTree<N>, bs_values: &HandTable<N>) -> (r: EdgeTerm<N>)
    requires
        tree.wf(),
        bs_values.wf(),
    ensures
        r == table_edge(tree.order(), tree.map(), bs_values.map()),
{
    let ghost order = tree.order();
    let ghost map = tree.map();
    let ghost values = bs_values.map();
    let ghost weight = |t: Tally| map[t].0;
    let ghost value = |t: Tally| mass_of(values, t);
    let mut weighted_ev: N = from_whole(0);
    let mut sum: N = from_whole(0);
    let mut k: usize = 0;
    while k < tree.len()
        invariant
            k <= order.len(),
            tree.wf(),
            bs_values.wf(),
            order == tree.order(),
            map == tree.map(),
            values == bs_values.map(),
            weight == (|t: Tally| map[t].0),
            value == (|t: Tally| mass_of(values, t)),
            (EdgeTerm { weighted_ev, weight: sum }) == edge_upto(order, weight, value, k as int),
        decreases order.len() - k,
    {
        let hand = tree.hand(k);
        if hand.len() == 2 {
            let w: N = tree.value(k).0;
            let ev: N = mass_at(bs_values, &hand);
            sum = sum.plus(w);
            weighted_ev = weighted_ev.plus(w.times(ev));
        }
        k += 1;
    }
    EdgeTerm { weighted_ev, weight: sum }
}

/// Where the chart does not say to hit, following it is worth what the tree says
/// of the charted move, and where the comparison of numbers ranks them that is
/// never more than the best move is worth.
pub proof fn law_chart_never_beats_best<N: Scalar, S: Shoe<N>>(
    b: Basis,
    s: S::State,
    tree: Map<Tally, (N, MoveEvs<N>)>,
    table: spec_fn(HandCategory) -> Option<MoveEvs<N>>,
    t: Tally,
)
    requires
        ranks::<N>(),
        S::sane(s),
        t.len() == 10,
        hard(t) <= 21,
        tree[t].1.offers_any(),
        charted_move(table(category_of(t)), tree[t].1) != Move::Hit,
    ensures
        ({
            let mv = charted_move(table(category_of(t)), tree[t].1);
            let value = chart_value::<N, S>(b, s, tree, table, t);
            &&& tree[t].1.at(mv) == Some(value)
            &&& !crate::solve::best_value(tree[t].1).less_spec(value)
        }),
{
    let legal = tree[t].1;
    let mv = charted_move(table(category_of(t)), legal);
    best_is_offered(legal, 5);
    match table(category_of(t)) {
        Some(row) => {
            best_is_offered(legal_part(row, legal), 5);
        },
        None => {},
    }
    offered_has_best(legal);
    crate::hand::law_best_move_is_best(legal, mv);
}

/// Where a move is offered there is a best one.
pub proof fn offered_has_best<N: Scalar>(evs: MoveEvs<N>)
    requires
        evs.offers_any(),
    ensures
        best_entry(evs) is Some,
{
    reveal_with_fuel(best_upto, 6);
    assert(move_at(0) == Move::Stand && move_at(1) == Move::Hit && move_at(2) == Move::Double
        && move_at(3) == Move::Split && move_at(4) == Move::Surrender);
}

/// One hand of a row with its share of the row by stored weight and by mass.
#[derive(Clone, Copy)]
pub struct ShareRow<N> {
    pub hand: CardCol,
    pub stored: N,
    pub reached: N,
}

/// The sum over the hands of a row among the first `k` hands.
pub open spec fn row_sum<N: Scalar>(
    order: Seq<Tally>,
    weight: spec_fn(Tally) -> N,
    cat: HandCategory,
    k: int,
) -> N
    decreases k,
{
    if k <= 0 {
        zero::<N>()
    } else if category_of(order[k - 1]) == cat {
        row_sum(order, weight, cat, k - 1).plus_spec(weight(order[k - 1]))
    } else {
        row_sum(order, weight, cat, k - 1)
    }
}

/// A share of a sum, zero where the sum is not above zero.
pub open spec fn share_of<N: Scalar>(part: N, sum: N) -> N {
    if zero::<N>().less_spec(sum) {
        part.over_spec(sum)
    } else {
        zero::<N>()
    }
}

/// The hands of a row among the first `k` hands.
pub open spec fn row_hands(order: Seq<Tally>, cat: HandCategory, k: int) -> Seq<Tally>
    decreases k,
{
    if k <= 0 {
        Seq::empty()
    } else if category_of(order[k - 1]) == cat {
        row_hands(order, cat, k - 1).push(order[k - 1])
    } else {
        row_hands(order, cat, k - 1)
    }
}

/// How far the two shares of a hand are apart.
pub open spec fn shift_of<N: Scalar>(stored: N, reached: N) -> N {
    let d = reached.minus_spec(stored);
    if d.less_spec(zero::<N>()) {
        zero::<N>().minus_spec(d)
    } else {
        d
    }
}

/// Whether a list holds the hands of a row with their shares, those whose shares
/// are farthest apart first, and in the order of the tree where they are as far apart.
pub open spec fn is_breakdown<N: Scalar>(
    rows: Seq<ShareRow<N>>,
    order: Seq<Tally>,
    tree: Map<Tally, (N, MoveEvs<N>)>,
    reach: Map<Tally, N>,
    cat: HandCategory,
) -> bool {
    let n = order.len() as int;
    let hands = row_hands(order, cat, n);
    let stored_sum = row_sum(order, |t: Tally| tree[t].0, cat, n);
    let reach_sum = row_sum(order, |t: Tally| mass_of(reach, t), cat, n);
    exists|places: Seq<usize>| #[trigger]
        names_all(places, hands.len() as int) && rows.len() == places.len() && (forall|i: int|
            0 <= i < rows.len() ==> {
                let t = hands[places[i] as int];
                &&& (#[trigger] rows[i]).hand@ == t
                &&& rows[i].stored == share_of(tree[t].0, stored_sum)
                &&& rows[i].reached == share_of(mass_of(reach, t), reach_sum)
            }) && (ranks::<N>() ==> forall|i: int, j: int|
            0 <= i < j < rows.len() ==> {
                let a = shift_of((#[trigger] rows[i]).stored, rows[i].reached);
                let b = shift_of((#[trigger] rows[j]).stored, rows[j].reached);
                &&& !a.less_spec(b)
                &&& b.less_spec(a) || places[i] < places[j]
            })
}

fn share_at<N: Scalar>(part: N, sum: N) -> (r: N)
    ensures
        r == share_of(part, sum),
{
    let zero_n: N = from_whole(0);
    if zero_n.less(sum) {
        part.over(sum)
    } else {
        zero_n
    }
}

/// The hands of one row with their shares by stored weight and by mass, those
/// whose shares are farthest apart first.
pub fn category_breakdown<N: Scalar>(
    category: HandCategory,
    tree: &EvTree<N>,
    reach: &HandTable<N>,
) -> (r: Vec<ShareRow<N>>)
    requires
        tree.wf(),
        playable(tree.map()),
        reach.wf(),
    ensures
        is_breakdown(r@, tree.order(), tree.map(), reach.map(), category),
{
    let ghost order = tree.order();
    let ghost map = tree.map();
    let ghost mass = reach.map();
    let ghost stored_w = |t: Tally| map[t].0;
    let ghost reach_w = |t: Tally| mass_of(mass, t);
    let mut stored_sum: N = from_whole(0);
    let mut reach_sum: N = from_whole(0);
    let mut members: Vec<(CardCol, N, N)> = Vec::new();
    let mut k: usize = 0;
    while k < tree.len()
        invariant
            k <= order.len(),
            tree.wf(),
            playable(map),
            reach.wf(),
            order == tree.order(),
            map == tree.map(),
            mass == reach.map(),
            stored_w == (|t: Tally| map[t].0),
            reach_w == (|t: Tally| mass_of(mass, t)),
            stored_sum == row_sum(order, stored_w, category, k as int),
            reach_sum == row_sum(order, reach_w, category, k as int),
            members@.len() == row_hands(order, category, k as int).len(),
            forall|i: int|
                0 <= i < members@.len() ==> {
                    let t = row_hands(order, category, k as int)[i];
                    &&& (#[trigger] members@[i]).0@ == t
                    &&& members@[i].1 == map[t].0
                    &&& members@[i].2 == mass_of(mass, t)
                },
        decreases order.len() - k,
    {
        proof {
            tree.order_names_hands();
        }
        let hand = tree.hand(k);
        if categorize(&hand) == category {
            let w: N = tree.value(k).0;
            let m: N = mass_at(reach, &hand);
            stored_sum = stored_sum.plus(w);
            reach_sum = reach_sum.plus(m);
            members.push((hand, w, m));
        }
        k += 1;
    }
    let mut rows: Vec<ShareRow<N>> = Vec::new();
    let mut keys: Vec<N> = Vec::new();
    let zero_n: N = from_whole(0);
    let mut i: usize = 0;
    while i < members.len()
        invariant
            i <= members@.len(),
            zero_n == zero::<N>(),
            rows@.len() == i,
            keys@.len() == i,
            forall|j: int|
                0 <= j < i ==> {
                    &&& (#[trigger] rows@[j]).hand == members@[j].0
                    &&& rows@[j].stored == share_of(members@[j].1, stored_sum)
                    &&& rows@[j].reached == share_of(members@[j].2, reach_sum)
                    &&& keys@[j] == shift_of(rows@[j].stored, rows@[j].reached)
                },
        decreases members@.len() - i,
    {
        let (hand, w, m) = members[i];
        let stored: N = share_at(w, stored_sum);
        let reached: N = share_at(m, reach_sum);
        let d: N = reached.minus(stored);
        let key: N = if d.less(zero_n) {
            zero_n.minus(d)
        } else {
            d
        };
        rows.push(ShareRow { hand, stored, reached });
        keys.push(key);
        i += 1;
    }
    let places = rank_keys(&keys);
    let mut out: Vec<ShareRow<N>> = Vec::new();
    let mut j: usize = 0;
    while j < places.len()
        invariant
            j <= places@.len(),
            names_all(places@, rows@.len() as int),
            out@.len() == j,
            forall|i: int| 0 <= i < j ==> #[trigger] out@[i] == rows@[places@[i] as int],
        decreases places@.len() - j,
    {
        assert(places@[j as int] < rows@.len());
        out.push(rows[places[j]]);
        j += 1;
    }
    proof {
        let hands = row_hands(order, category, order.len() as int);
        assert forall|i: int| 0 <= i < out@.len() implies {
            let t = hands[places@[i] as int];
            &&& (#[trigger] out@[i]).hand@ == t
            &&& out@[i].stored == share_of(map[t].0, stored_sum)
            &&& out@[i].reached == share_of(mass_of(mass, t), reach_sum)
        } by {
            let p = places@[i] as int;
            assert(places@[i] < rows@.len());
            assert(rows@[p].hand == members@[p].0);
            assert(members@[p].0@ == hands[p]);
        }
        if ranks::<N>() {
            assert forall|a: int, b: int| 0 <= a < b < out@.len() implies {
                let p = shift_of((#[trigger] out@[a]).stored, out@[a].reached);
                let q = shift_of((#[trigger] out@[b]).stored, out@[b].reached);
                &&& !p.less_spec(q)
                &&& q.less_spec(p) || places@[a] < places@[b]
            } by {
                let x = places@[a] as int;
                let y = places@[b] as int;
                assert(goes_first(keys@, places@[a], places@[b]));
                assert(places@[a] < rows@.len() && places@[b] < rows@.len());
                assert(keys@[x] == shift_of(rows@[x].stored, rows@[x].reached));
                assert(keys@[y] == shift_of(rows@[y].stored, rows@[y].reached));
            }
        }
        assert(names_all(places@, hands.len() as int));
    }
    out
}

} // verus!
