//! The count indices of one column: over all counts that a player realistically
//! holds, where does the recommended move of each row change?
use crate::card::Card;
use crate::chart::{any_counts, cell_evs, is_cell, is_chart, summarize_cells, CellInfo, ChartTable, Pool};
use crate::column::{
    count_penetration, count_penetration_spec, counted_states, group_order, group_reach, group_tree,
    is_column, maps, merge_count_frames, merged_keys, merged_order, merged_reach, merged_tree,
    solve_counted, solve_on, tree_is_map, tree_map, Column,
};
use crate::count::{
    convertible, external_condition, law_full_shoe_counts, CountCmp, CountFrame, CountKind, CountSystemId,
};
use crate::countshoe::{decks_are_countable, CountShoe, CountState};
use crate::countw::{high, low};
use crate::drawing::Shoe;
use crate::hand::{best_move_spec, is_start_only, HandCategory, Move, MoveEvs};
use crate::index::{describes, find_runs, runs_over, Answers, MoveSource, Run};
use crate::num::{from_whole, total, zero, Scalar};
use crate::occurrence::{external_shares, shoe_grid, true_shares};
use crate::panes::{index_categories, light_row, Pane};
use crate::reach::{playable, reach_map, reach_weights, trees_are_playable};
use crate::round::{build_evs, pair_values};
use crate::rules::Ruleset;
use crate::shoe::{deck_tally, single, size, tally_bounds, CardCol, Tally};
use crate::simulation::basis_of;
use crate::solve::{solve_order, EvTree};
use crate::table::HandTable;
use vstd::prelude::*;

verus! {

broadcast use tally_bounds;

/// The place of the lowest count that is kept when counts are dropped from the low
/// end on, as long as no more than `tail` of the chances is dropped. One count is
/// always kept.
pub open spec fn low_edge<N: Scalar>(dist: Seq<(i16, N)>, tail: N, at: int, dropped: N) -> int
    decreases dist.len() - at,
{
    if 0 <= at && at + 1 < dist.len() && !tail.less_spec(dropped.plus_spec(dist[at].1)) {
        low_edge(dist, tail, at + 1, dropped.plus_spec(dist[at].1))
    } else {
        at
    }
}

/// The place of the highest count that is kept, likewise, from the high end on and
/// no lower than `lo`.
pub open spec fn high_edge<N: Scalar>(
    dist: Seq<(i16, N)>,
    tail: N,
    lo: int,
    at: int,
    dropped: N,
) -> int
    decreases at - lo,
{
    if at > lo && !tail.less_spec(dropped.plus_spec(dist[at].1)) {
        high_edge(dist, tail, lo, at - 1, dropped.plus_spec(dist[at].1))
    } else {
        at
    }
}

/// The lowest and the highest count that are kept when at most `tail` of the chances
/// is dropped off each end.
pub open spec fn window_of<N: Scalar>(dist: Seq<(i16, N)>, tail: N) -> (i16, i16) {
    let lo = low_edge(dist, tail, 0, zero::<N>());
    let hi = high_edge(dist, tail, lo, dist.len() - 1, zero::<N>());
    (dist[lo].0, dist[hi].0)
}

pub proof fn edges_in_range<N: Scalar>(dist: Seq<(i16, N)>, tail: N, at: int, dropped: N)
    requires
        0 <= at < dist.len(),
    ensures
        at <= low_edge(dist, tail, at, dropped) < dist.len(),
    decreases dist.len() - at,
{
    if at + 1 < dist.len() && !tail.less_spec(dropped.plus_spec(dist[at].1)) {
        edges_in_range(dist, tail, at + 1, dropped.plus_spec(dist[at].1));
    }
}

pub proof fn high_edge_in_range<N: Scalar>(
    dist: Seq<(i16, N)>,
    tail: N,
    lo: int,
    at: int,
    dropped: N,
)
    requires
        lo <= at,
    ensures
        lo <= high_edge(dist, tail, lo, at, dropped) <= at,
    decreases at - lo,
{
    if at > lo && !tail.less_spec(dropped.plus_spec(dist[at].1)) {
        high_edge_in_range(dist, tail, lo, at - 1, dropped.plus_spec(dist[at].1));
    }
}

/// The counts that are kept when the rare ones at both ends are dropped.
pub fn occurrence_window<N: Scalar>(dist: &Vec<(i16, N)>, tail_each: N) -> (r: (i16, i16))
    requires
        dist.len() > 0,
    ensures
        r == window_of(dist@, tail_each),
{
    let ghost d = dist@;
    let mut lo: usize = 0;
    let mut dropped: N = from_whole(0);
    while lo + 1 < dist.len() && !tail_each.less(dropped.plus(dist[lo].1))
        invariant
            d == dist@,
            lo < dist.len(),
            low_edge(d, tail_each, lo as int, dropped) == low_edge(d, tail_each, 0, zero::<N>()),
        decreases dist.len() - lo,
    {
        dropped = dropped.plus(dist[lo].1);
        lo += 1;
    }
    let mut hi: usize = dist.len() - 1;
    let mut gone: N = from_whole(0);
    while hi > lo && !tail_each.less(gone.plus(dist[hi].1))
        invariant
            d == dist@,
            lo <= hi < dist.len(),
            high_edge(d, tail_each, lo as int, hi as int, gone) == high_edge(
                d,
                tail_each,
                lo as int,
                d.len() - 1,
                zero::<N>(),
            ),
        decreases hi,
    {
        gone = gone.plus(dist[hi].1);
        hi -= 1;
    }
    (dist[lo].0, dist[hi].0)
}

/// Where the lists of chances are in rising order, the window is not empty.
pub proof fn law_window_is_in_order<N: Scalar>(dist: Seq<(i16, N)>, tail: N)
    requires
        dist.len() > 0,
        forall|i: int, j: int|
            0 <= i < j < dist.len() ==> (#[trigger] dist[i]).0 < (#[trigger] dist[j]).0,
    ensures
        window_of(dist, tail).0 <= window_of(dist, tail).1,
        exists|i: int| 0 <= i < dist.len() && (#[trigger] dist[i]).0 == window_of(dist, tail).0,
        exists|i: int| 0 <= i < dist.len() && (#[trigger] dist[i]).0 == window_of(dist, tail).1,
{
    let lo = low_edge(dist, tail, 0, zero::<N>());
    edges_in_range(dist, tail, 0, zero::<N>());
    high_edge_in_range(dist, tail, lo, dist.len() - 1, zero::<N>());
    let hi = high_edge(dist, tail, lo, dist.len() - 1, zero::<N>());
    assert(dist[lo].0 == window_of(dist, tail).0);
    assert(dist[hi].0 == window_of(dist, tail).1);
}

/// Which moves are told: the headline, or hitting against standing for hands on which
/// the headline is no longer offered.
#[derive(Clone, Copy, Debug, PartialEq, Eq, Structural)]
pub enum Ladder {
    Primary,
    HitStand,
}

/// The move that a row recommends.
pub open spec fn ladder_move<N: Scalar>(evs: MoveEvs<N>, ladder: Ladder) -> Option<Move> {
    match ladder {
        Ladder::Primary => Some(best_move_spec(evs)),
        Ladder::HitStand => match (evs.hit, evs.stand) {
            (Some(h), Some(s)) => Some(
                if h.less_spec(s) {
                    Move::Stand
                } else {
                    Move::Hit
                },
            ),
            (Some(h), None) => Some(Move::Hit),
            (None, Some(s)) => Some(Move::Stand),
            (None, None) => None,
        },
    }
}

/// The better of hitting and standing, hitting where they are equal.
pub fn hit_or_stand<N: Scalar>(evs: &MoveEvs<N>) -> (r: Option<Move>)
    ensures
        r == ladder_move(*evs, Ladder::HitStand),
{
    match (evs.hit, evs.stand) {
        (Some(h), Some(s)) => Some(
            if h.less(s) {
                Move::Stand
            } else {
                Move::Hit
            },
        ),
        (Some(_), None) => Some(Move::Hit),
        (None, Some(_)) => Some(Move::Stand),
        (None, None) => None,
    }
}

/// What a sweep over the counts is about: the kind of count, the number of decks, the
/// up-card, the rules and the counts from `lo` to `hi`.
#[derive(Clone, Copy)]
pub struct Sweep {
    pub kind: CountKind,
    pub n: u8,
    pub up: Card,
    pub rules: Ruleset,
    pub lo: i16,
    pub hi: i16,
}

/// What a chart is made of: hands in order, their values, their masses.
pub struct Parts<N> {
    pub order: Seq<Tally>,
    pub tree: Map<Tally, (N, MoveEvs<N>)>,
    pub reach: Map<Tally, N>,
}

impl<N: Scalar> Parts<N> {
    /// The values of a row, if some hand counts towards it.
    pub open spec fn row(self, cat: HandCategory) -> Option<MoveEvs<N>> {
        if any_counts(self.order, self.reach, true, Pool::All, cat) {
            Some(cell_evs(self.order, self.tree, self.reach, cat))
        } else {
            None
        }
    }
}

/// The full shoe of which the player's running count is exactly this.
pub open spec fn running_state(n_decks: int, c: int) -> CountState {
    CountState::fresh(
        CountSystemId::Ko.values(),
        deck_tally(n_decks as nat),
        CountFrame::before_round(external_condition(CountSystemId::Ko, n_decks, c, CountCmp::Eq)),
        count_penetration_spec(),
    )
}

/// The order in which the hands of a shoe are solved.
pub open spec fn plain_order<N: Scalar>(s: CountState, up: Card) -> Seq<Tally> {
    solve_order::<N, CountShoe<N>>(s.without(single(up)), 2)
}

/// The tree of a shoe.
pub open spec fn plain_tree<N: Scalar>(s: CountState, up: Card, rules: Ruleset) -> Map<
    Tally,
    (N, MoveEvs<N>),
> {
    tree_map::<N, CountShoe<N>>(
        basis_of(up, rules),
        rules,
        s.without(single(up)),
        pair_values::<N, CountShoe<N>>(s, up, rules),
    )
}

/// The masses of a shoe.
pub open spec fn plain_reach<N: Scalar>(s: CountState, up: Card, rules: Ruleset) -> Map<Tally, N> {
    reach_map::<N, CountShoe<N>>(
        plain_order::<N>(s, up),
        plain_tree::<N>(s, up, rules),
        basis_of(up, rules),
        rules,
        s.without(single(up)),
        true,
    )
}

/// A number brought between two bounds.
pub open spec fn clamp(x: int, lo: int, hi: int) -> int {
    if x < lo {
        lo
    } else if x > hi {
        hi
    } else {
        x
    }
}

impl Sweep {
    /// Whether the sweep can be made.
    pub open spec fn valid(self) -> bool {
        &&& self.up.valid()
        &&& self.n > 0
        &&& self.lo <= self.hi
        &&& match self.kind {
            CountKind::Running => convertible(CountSystemId::Ko, self.n as int, self.lo as int),
            CountKind::TrueCount => i16::MIN <= 2 * self.lo && 2 * self.hi <= i16::MAX,
        }
    }

    /// The running count before the round at which a hand of group `g` is solved
    /// for the index count `ext`: the up-card and the hand are taken off, and counts
    /// beyond the sweep are brought to its ends.
    pub open spec fn frame_count(self, ext: int, g: int) -> int {
        clamp(
            ext - CountSystemId::Ko.value(self.up) - (g - 2),
            self.lo as int,
            self.hi as int,
        )
    }

    /// The chart at an exact running count.
    pub open spec fn running_parts<N: Scalar>(self, ext: int) -> Parts<N> {
        let values = CountSystemId::Ko.values();
        let trees = running_trees::<N>(self, ext);
        let reaches = running_reaches::<N>(self, ext);
        let order = plain_order::<N>(
            running_state(self.n as int, self.frame_count(ext, 2)),
            self.up,
        );
        let n = order.len() as int;
        Parts {
            order: merged_order(order, trees, values, n),
            tree: merged_tree(order, trees, values, n),
            reach: merged_reach(order, trees, reaches, values, n),
        }
    }

    /// The chart at a whole true count: at least this where it is not negative, at
    /// most this where it is.
    pub open spec fn true_parts<N: Scalar>(self, ext: int) -> Parts<N> {
        let values = CountSystemId::HiLo.values();
        let states = counted_states(
            CountSystemId::HiLo,
            self.n as int,
            (2 * ext) as i16,
            if ext >= 0 {
                CountCmp::Ge
            } else {
                CountCmp::Le
            },
            self.up,
        );
        let trees = Seq::new(5, |g: int| group_tree::<N>(states, values, self.up, self.rules, g));
        let reaches = Seq::new(
            5,
            |g: int| group_reach::<N>(states, values, self.up, self.rules, g),
        );
        let order = group_order::<N>(states, self.up, 2);
        let n = order.len() as int;
        Parts {
            order: merged_order(order, trees, values, n),
            tree: merged_tree(order, trees, values, n),
            reach: merged_reach(order, trees, reaches, values, n),
        }
    }

    /// The chart at a count.
    pub open spec fn parts<N: Scalar>(self, ext: int) -> Parts<N> {
        match self.kind {
            CountKind::Running => self.running_parts::<N>(ext),
            CountKind::TrueCount => self.true_parts::<N>(ext),
        }
    }

    /// The move that a row recommends at a count, if there is the row.
    pub open spec fn move_spec<N: Scalar>(
        self,
        ext: int,
        cat: HandCategory,
        ladder: Ladder,
    ) -> Option<Move> {
        match self.parts::<N>(ext).row(cat) {
            Some(evs) => ladder_move(evs, ladder),
            None => None,
        }
    }
}

/// A solved shoe: its tree and its masses.
pub struct Solved<N: Scalar> {
    tree: EvTree<N>,
    reach: HandTable<N>,
}

impl<N: Scalar> Solved<N> {
    /// Whether this is the solution of a shoe.
    pub closed spec fn solves(&self, s: CountState, up: Card, rules: Ruleset) -> bool {
        &&& self.tree.wf()
        &&& self.tree.order() == plain_order::<N>(s, up)
        &&& self.tree.map() == plain_tree::<N>(s, up, rules)
        &&& playable(self.tree.map())
        &&& self.reach.wf()
        &&& self.reach.map() == plain_reach::<N>(s, up, rules)
    }

    fn new(shoe: &CountShoe<N>, up: Card, rules: &Ruleset) -> (r: Self)
        requires
            up.valid(),
            shoe.count_state().supply(up.rank()) > 0,
        ensures
            r.solves(shoe.count_state(), up, *rules),
    {
        let tree = build_evs(shoe, up, rules);
        shoe.is_sane();
        proof {
            let s = shoe.count_state();
            let b = basis_of(up, *rules);
            let after = s.without(single(up));
            let splits = pair_values::<N, CountShoe<N>>(s, up, *rules);
            <CountShoe<N> as Shoe<N>>::without_supply(s, single(up));
            tree_is_map::<N, CountShoe<N>>(tree.map(), b, *rules, after, splits);
            trees_are_playable::<N, CountShoe<N>>(tree.map(), b, *rules, after, splits);
        }
        let reach = reach_weights(shoe, up, rules, &tree, true);
        Solved { tree, reach }
    }
}

/// Tells the moves of a column at every count of a sweep, and keeps what has been
/// solved.
pub struct ColumnEval<N: Scalar> {
    sweep: Sweep,
    mark_lo: i16,
    mark_hi: i16,
    first: i16,
    shoes: Vec<CountShoe<N>>,
    frames: Vec<Option<Solved<N>>>,
    summaries: Vec<Option<ChartTable<CellInfo<N>>>>,
}

impl<N: Scalar> ColumnEval<N> {
    /// What the sweep is about.
    pub closed spec fn about(&self) -> Sweep {
        self.sweep
    }

    /// The counts at which a change of the move is worth marking.
    pub closed spec fn marks(&self) -> (i16, i16) {
        (self.mark_lo, self.mark_hi)
    }

    /// What has been kept is right.
    pub closed spec fn wf(&self) -> bool {
        let sw = self.sweep;
        &&& sw.valid()
        &&& self.frames.len() == sw.hi - sw.lo + 1
        &&& self.summaries.len() == sw.hi - sw.lo + 1
        &&& sw.kind == CountKind::Running ==> {
            &&& self.first <= sw.lo
            &&& sw.hi - self.first < self.shoes.len()
            &&& forall|i: int|
                0 <= i < self.shoes.len() ==> (#[trigger] self.shoes@[i]).count_state()
                    == running_state(sw.n as int, self.first + i)
        }
        &&& forall|i: int|
            0 <= i < self.frames.len() ==> (#[trigger] self.frames@[i] matches Some(f)
                ==> f.solves(running_state(sw.n as int, sw.lo + i), sw.up, sw.rules))
        &&& forall|i: int|
            0 <= i < self.summaries.len() ==> (#[trigger] self.summaries@[i] matches Some(t)
                ==> self.is_summary(t, sw.lo + i))
    }

    closed spec fn is_summary(&self, t: ChartTable<CellInfo<N>>, ext: int) -> bool {
        let p = self.sweep.parts::<N>(ext);
        is_chart(t, p.order, p.tree, p.reach)
    }

    /// What the invariant says of the sweep.
    pub proof fn about_is_valid(&self)
        requires
            self.wf(),
        ensures
            self.about().valid(),
    {
    }

    /// The lowest count of the sweep.
    pub fn lo(&self) -> (r: i16)
        ensures
            r == self.about().lo,
    {
        self.sweep.lo
    }

    /// The highest count of the sweep.
    pub fn hi(&self) -> (r: i16)
        ensures
            r == self.about().hi,
    {
        self.sweep.hi
    }

    /// The counts at which a change of the move is worth marking.
    pub fn mark_band(&self) -> (r: (i16, i16))
        ensures
            r == self.marks(),
    {
        (self.mark_lo, self.mark_hi)
    }

    /// Solve the shoe of a running count, brought into the sweep, unless that has been
    /// done. Tells the place of its solution.
    fn ensure_frame(&mut self, c: i64) -> (r: usize)
        requires
            old(self).wf(),
            old(self).sweep.kind == CountKind::Running,
        ensures
            final(self).wf(),
            final(self).sweep == old(self).sweep,
            final(self).mark_lo == old(self).mark_lo,
            final(self).mark_hi == old(self).mark_hi,
            final(self).summaries == old(self).summaries,
            r == clamp(c as int, old(self).sweep.lo as int, old(self).sweep.hi as int)
                - old(self).sweep.lo,
            r < final(self).frames.len(),
            final(self).frames@[r as int] is Some,
            forall|i: int|
                0 <= i < final(self).frames.len() && (#[trigger] old(self).frames@[i]) is Some
                    ==> final(self).frames@[i] is Some,
            final(self).frames.len() == old(self).frames.len(),
    {
        let lo: i64 = self.sweep.lo as i64;
        let hi: i64 = self.sweep.hi as i64;
        let at: i64 = if c < lo {
            lo
        } else if c > hi {
            hi
        } else {
            c
        };
        let i: usize = (at - lo) as usize;
        if self.frames[i].is_none() {
            let j: usize = (at - self.first as i64) as usize;
            assert(self.shoes@[j as int].count_state() == running_state(
                self.sweep.n as int,
                self.first + j,
            ));
            let solved = Solved::new(&self.shoes[j], self.sweep.up, &self.sweep.rules);
            self.frames.set(i, Some(solved));
        }
        i
    }

    fn solved_at(&self, i: usize) -> (r: &Solved<N>)
        requires
            self.wf(),
            i < self.frames.len(),
            self.frames@[i as int] is Some,
        ensures
            Some(*r) == self.frames@[i as int],
            r.solves(
                running_state(self.sweep.n as int, self.sweep.lo + i),
                self.sweep.up,
                self.sweep.rules,
            ),
    {
        self.frames[i].as_ref().unwrap()
    }
}

/// The trees of the five groups at an exact running count.
pub open spec fn running_trees<N: Scalar>(sw: Sweep, ext: int) -> Seq<Map<Tally, (N, MoveEvs<N>)>> {
    Seq::new(
        5,
        |g: int|
            plain_tree::<N>(running_state(sw.n as int, sw.frame_count(ext, g)), sw.up, sw.rules),
    )
}

/// The masses of the five groups at an exact running count.
pub open spec fn running_reaches<N: Scalar>(sw: Sweep, ext: int) -> Seq<Map<Tally, N>> {
    Seq::new(
        5,
        |g: int|
            plain_reach::<N>(running_state(sw.n as int, sw.frame_count(ext, g)), sw.up, sw.rules),
    )
}

/// A merged tree is one to play by where the trees of the groups are.
proof fn merged_is_playable<N: Scalar>(
    order: Seq<Tally>,
    trees: Seq<Map<Tally, (N, MoveEvs<N>)>>,
    values: Seq<i16>,
)
    requires
        trees.len() == 5,
        forall|g: int| 0 <= g < 5 ==> playable(#[trigger] trees[g]),
    ensures
        playable(merged_tree(order, trees, values, order.len() as int)),
{
    let m = merged_tree(order, trees, values, order.len() as int);
    merged_keys(order, trees, values, order.len() as int);
    assert forall|t: Tally| #[trigger] m.contains_key(t) implies t.len() == 10
        && crate::shoe::hard(t) <= 21 && m[t].1.offers_any() by {
        let g = crate::column::group_of(values, t);
        assert(playable(trees[g]));
        assert(trees[g].contains_key(t));
    }
}

impl<N: Scalar> ColumnEval<N> {
    /// The chart at an exact running count, each hand from the frame of its group.
    fn running_summary(&mut self, ext: i16) -> (r: ChartTable<CellInfo<N>>)
        requires
            old(self).wf(),
            old(self).sweep.kind == CountKind::Running,
            old(self).sweep.lo <= ext <= old(self).sweep.hi,
        ensures
            final(self).wf(),
            final(self).sweep == old(self).sweep,
            final(self).mark_lo == old(self).mark_lo,
            final(self).mark_hi == old(self).mark_hi,
            final(self).summaries == old(self).summaries,
            final(self).is_summary(r, ext as int),
    {
        let ghost sw = self.sweep;
        let mu: i64 = CountSystemId::Ko.map(&self.sweep.up) as i64;
        let base: i64 = ext as i64 - mu;
        let mut places: Vec<usize> = Vec::new();
        let mut g: i64 = 0;
        while g < 5
            invariant
                0 <= g <= 5,
                self.wf(),
                self.sweep == sw,
                sw == old(self).sweep,
                sw.kind == CountKind::Running,
                self.mark_lo == old(self).mark_lo,
                self.mark_hi == old(self).mark_hi,
                self.summaries == old(self).summaries,
                mu == CountSystemId::Ko.value(sw.up),
                base == ext - mu,
                places.len() == g,
                forall|h: int|
                    0 <= h < g ==> #[trigger] places@[h] == sw.frame_count(ext as int, h) - sw.lo
                        && places@[h] < self.frames.len() && self.frames@[places@[h] as int] is Some,
            decreases 5 - g,
        {
            let ghost before = self.frames@;
            let place: usize = self.ensure_frame(base - (g - 2));
            assert forall|h: int| 0 <= h < g implies #[trigger] places@[h] == sw.frame_count(
                ext as int,
                h,
            ) - sw.lo && places@[h] < self.frames.len() && self.frames@[places@[h] as int]
                is Some by {
                assert(before[places@[h] as int] is Some);
            }
            places.push(place);
            g += 1;
        }
        self.merge_places(ext, &places)
    }

    /// Merge the solutions of the five groups.
    fn merge_places(&self, ext: i16, places: &Vec<usize>) -> (r: ChartTable<CellInfo<N>>)
        requires
            self.wf(),
            self.sweep.kind == CountKind::Running,
            places.len() == 5,
            forall|h: int|
                0 <= h < 5 ==> #[trigger] places@[h] == self.sweep.frame_count(ext as int, h)
                    - self.sweep.lo && places@[h] < self.frames.len()
                    && self.frames@[places@[h] as int] is Some,
        ensures
            self.is_summary(r, ext as int),
    {
        let ghost sw = self.sweep;
        let ghost ts = running_trees::<N>(sw, ext as int);
        let ghost rs = running_reaches::<N>(sw, ext as int);
        let mut trees: Vec<&EvTree<N>> = Vec::new();
        let mut reaches: Vec<&HandTable<N>> = Vec::new();
        let mut g: usize = 0;
        while g < 5
            invariant
                self.wf(),
                sw == self.sweep,
                g <= 5,
                places.len() == 5,
                forall|h: int|
                    0 <= h < 5 ==> #[trigger] places@[h] == sw.frame_count(ext as int, h) - sw.lo
                        && places@[h] < self.frames.len() && self.frames@[places@[h] as int]
                        is Some,
                ts == running_trees::<N>(sw, ext as int),
                rs == running_reaches::<N>(sw, ext as int),
                trees.len() == g,
                reaches.len() == g,
                forall|h: int|
                    0 <= h < g ==> {
                        &&& (#[trigger] trees@[h]).wf()
                        &&& trees@[h].order() == plain_order::<N>(
                            running_state(sw.n as int, sw.frame_count(ext as int, h)),
                            sw.up,
                        )
                        &&& trees@[h].map() == ts[h]
                        &&& playable(ts[h])
                    },
                forall|h: int|
                    0 <= h < g ==> (#[trigger] reaches@[h]).wf() && reaches@[h].map() == rs[h],
            decreases 5 - g,
        {
            let place: usize = places[g];
            assert(places@[g as int] == sw.frame_count(ext as int, g as int) - sw.lo);
            let f = self.solved_at(place);
            proof {
                let st = running_state(sw.n as int, sw.frame_count(ext as int, g as int));
                assert(sw.lo + place == sw.frame_count(ext as int, g as int));
                assert(f.solves(st, sw.up, sw.rules));
                assert(ts[g as int] == plain_tree::<N>(st, sw.up, sw.rules));
                assert(f.tree.map() == ts[g as int]);
                assert(playable(f.tree.map()));
            }
            trees.push(&f.tree);
            reaches.push(&f.reach);
            g += 1;
        }
        let (tree, reach) = merge_count_frames(CountSystemId::Ko, &trees, &reaches);
        proof {
            assert(maps(trees@) =~= ts);
            assert(maps(reaches@) =~= rs);
            assert(trees@[2].wf());
            assert forall|h: int| 0 <= h < 5 implies playable(#[trigger] ts[h]) by {
                assert(trees@[h].wf());
            }
            merged_is_playable::<N>(trees@[2].order(), ts, CountSystemId::Ko.values());
        }
        summarize_cells(&tree, &reach)
    }
}

/// What a cell of a chart tells of its row.
proof fn cell_tells<N: Scalar>(rows: ChartTable<CellInfo<N>>, p: Parts<N>, cat: HandCategory)
    requires
        is_chart(rows, p.order, p.tree, p.reach),
    ensures
        match rows.at(cat) {
            Some(cell) => p.row(cat) == Some(cell.move_evs) && cell.headline == best_move_spec(
                cell.move_evs,
            ),
            None => p.row(cat) is None,
        },
{
    assert(rows.has(cat) <==> any_counts(p.order, p.reach, true, Pool::All, cat));
    if rows.has(cat) {
        let i = choose|i: int|
            0 <= i < rows.entries().len() && (#[trigger] rows.entries()[i]).0 == cat;
        assert(is_cell(rows.entries()[i].1, p.order, p.tree, p.reach, rows.entries()[i].0));
    }
}

impl<N: Scalar> ColumnEval<N> {
    /// The chart at a whole true count.
    fn true_summary(&self, ext: i16) -> (r: ChartTable<CellInfo<N>>)
        requires
            self.wf(),
            self.sweep.kind == CountKind::TrueCount,
            self.sweep.lo <= ext <= self.sweep.hi,
        ensures
            self.is_summary(r, ext as int),
    {
        let how = if ext >= 0 {
            CountCmp::Ge
        } else {
            CountCmp::Le
        };
        let halves: i16 = 2 * ext;
        let column: Column<N> = solve_counted(
            CountSystemId::HiLo,
            self.sweep.n,
            halves,
            how,
            self.sweep.up,
            &self.sweep.rules,
        );
        column.summary
    }

    /// Work out the chart at a count unless that has been done.
    fn ensure_summary(&mut self, ext: i16)
        requires
            old(self).wf(),
            old(self).sweep.lo <= ext <= old(self).sweep.hi,
        ensures
            final(self).wf(),
            final(self).sweep == old(self).sweep,
            final(self).mark_lo == old(self).mark_lo,
            final(self).mark_hi == old(self).mark_hi,
            final(self).summaries@[ext - final(self).sweep.lo] is Some,
    {
        let i: usize = (ext as i64 - self.sweep.lo as i64) as usize;
        if self.summaries[i].is_none() {
            let table = match self.sweep.kind {
                CountKind::Running => self.running_summary(ext),
                CountKind::TrueCount => self.true_summary(ext),
            };
            assert(self.is_summary(table, self.sweep.lo + i));
            self.summaries.set(i, Some(table));
            assert(forall|t: ChartTable<CellInfo<N>>, e: int|
                self.is_summary(t, e) == old(self).is_summary(t, e));
        }
    }

    /// The move that a row recommends at a count.
    pub fn move_at(&mut self, ext: i16, cat: HandCategory, ladder: Ladder) -> (r: Option<Move>)
        requires
            old(self).wf(),
            old(self).about().lo <= ext <= old(self).about().hi,
        ensures
            final(self).wf(),
            final(self).about() == old(self).about(),
            final(self).marks() == old(self).marks(),
            r == old(self).about().move_spec::<N>(ext as int, cat, ladder),
    {
        self.ensure_summary(ext);
        let i: usize = (ext as i64 - self.sweep.lo as i64) as usize;
        let table = self.summaries[i].as_ref().unwrap();
        assert(self.summaries@[i as int] == Some(*table));
        assert(self.is_summary(*table, self.sweep.lo + i));
        proof {
            cell_tells(*table, self.sweep.parts::<N>(ext as int), cat);
        }
        match table.get(cat) {
            Some(cell) => match ladder {
                Ladder::Primary => Some(cell.headline),
                Ladder::HitStand => hit_or_stand(&cell.move_evs),
            },
            None => None,
        }
    }
}

/// The moves of one row at the counts of a sweep.
struct RowMoves<N: Scalar> {
    eval: ColumnEval<N>,
    cat: HandCategory,
    ladder: Ladder,
    seen: Ghost<Seq<i16>>,
}

impl<N: Scalar> MoveSource for RowMoves<N> {
    type Key = (Sweep, (i16, i16), HandCategory, Ladder);

    closed spec fn key(&self) -> (Sweep, (i16, i16), HandCategory, Ladder) {
        (self.eval.about(), self.eval.marks(), self.cat, self.ladder)
    }

    closed spec fn at(&self, x: i16) -> Option<Move> {
        self.eval.about().move_spec::<N>(x as int, self.cat, self.ladder)
    }

    closed spec fn covers(&self, x: i16) -> bool {
        self.eval.wf() && self.eval.about().lo <= x <= self.eval.about().hi
    }

    closed spec fn looked(&self) -> Seq<i16> {
        self.seen@
    }

    fn look(&mut self, x: i16) -> (r: Option<Move>) {
        self.seen = Ghost(self.seen@.push(x));
        self.eval.move_at(x, self.cat, self.ladder)
    }
}

impl Sweep {
    /// The moves that a row recommends, count by count.
    pub open spec fn answers<N: Scalar>(self, cat: HandCategory, ladder: Ladder) -> Answers {
        |x: i16| self.move_spec::<N>(x as int, cat, ladder)
    }

    /// Whether these are the runs of the moves of a row over the sweep.
    pub open spec fn are_runs<N: Scalar>(
        self,
        runs: Seq<Run>,
        cat: HandCategory,
        ladder: Ladder,
    ) -> bool {
        &&& runs == runs_over(self.answers::<N>(cat, ladder), self.lo, self.hi)
        &&& describes(runs, self.answers::<N>(cat, ladder), self.lo, self.hi)
    }
}

/// The runs of one row over a sweep.
fn row_runs<N: Scalar>(eval: ColumnEval<N>, cat: HandCategory, ladder: Ladder) -> (r: (
    ColumnEval<N>,
    Vec<Run>,
))
    requires
        eval.wf(),
    ensures
        r.0.wf(),
        r.0.about() == eval.about(),
        r.0.marks() == eval.marks(),
        eval.about().are_runs::<N>(r.1@, cat, ladder),
{
    let lo: i16 = eval.lo();
    let hi: i16 = eval.hi();
    let ghost f = eval.about().answers::<N>(cat, ladder);
    proof {
        eval.about_is_valid();
    }
    let mut src = RowMoves { eval, cat, ladder, seen: Ghost(Seq::empty()) };
    let runs = find_runs(&mut src, lo, hi, Ghost(f));
    assert(src.covers(lo));
    (src.eval, runs)
}

/// What a row recommends over the counts: the runs of its headline, and where that is
/// ever a move for the first two cards only, the runs of hitting against standing that
/// apply once it is no longer offered. With them, where they are told, go the moves
/// that are recommended without a count.
pub struct CategoryIndex {
    pub primary: Vec<Run>,
    pub fallback: Vec<Run>,
    pub basic: Option<Move>,
    pub basic_fallback: Option<Move>,
}

/// Whether some run has a move for the first two cards only.
pub open spec fn has_start_only(runs: Seq<Run>) -> bool {
    exists|i: int| 0 <= i < runs.len() && (#[trigger] runs[i]).0.start_only_spec()
}

impl CategoryIndex {
    /// Whether these are the runs of a row over a sweep.
    pub open spec fn indexes<N: Scalar>(&self, sw: Sweep, cat: HandCategory) -> bool {
        &&& sw.are_runs::<N>(self.primary@, cat, Ladder::Primary)
        &&& if has_start_only(self.primary@) {
            sw.are_runs::<N>(self.fallback@, cat, Ladder::HitStand)
        } else {
            self.fallback@.len() == 0
        }
    }
}

fn any_start_only(runs: &Vec<Run>) -> (r: bool)
    ensures
        r == has_start_only(runs@),
{
    let mut i: usize = 0;
    while i < runs.len()
        invariant
            i <= runs.len(),
            forall|j: int| 0 <= j < i ==> !(#[trigger] runs@[j]).0.start_only_spec(),
        decreases runs.len() - i,
    {
        if is_start_only(runs[i].0) {
            assert(runs@[i as int].0.start_only_spec());
            return true;
        }
        i += 1;
    }
    false
}

impl<N: Scalar> ColumnEval<N> {
    /// The runs of one row, with no word on the moves without a count.
    pub fn category_index(self, cat: HandCategory) -> (r: (Self, CategoryIndex))
        requires
            self.wf(),
        ensures
            r.0.wf(),
            r.0.about() == self.about(),
            r.0.marks() == self.marks(),
            r.1.indexes::<N>(self.about(), cat),
            r.1.basic is None,
            r.1.basic_fallback is None,
    {
        let (eval, primary) = row_runs(self, cat, Ladder::Primary);
        let starts: bool = any_start_only(&primary);
        if starts {
            let (eval, fallback) = row_runs(eval, cat, Ladder::HitStand);
            (eval, CategoryIndex { primary, fallback, basic: None, basic_fallback: None })
        } else {
            let fallback: Vec<Run> = Vec::new();
            (eval, CategoryIndex { primary, fallback, basic: None, basic_fallback: None })
        }
    }
}

/// How far either side of the pivot a change of the move is always marked.
pub const MARKER_MARGIN: i16 = 5;

/// The counts at which a change of the move is worth marking: the common counts, and
/// those near the pivot.
pub open spec fn marker_band(common: (i16, i16), pivot: int) -> (int, int) {
    (
        if common.0 < pivot - 5 {
            common.0 as int
        } else {
            pivot - 5
        },
        if common.1 > pivot + 5 {
            common.1 as int
        } else {
            pivot + 5
        },
    )
}

/// The counts that are swept: all but the rarest, and those that may be marked.
pub open spec fn swept_band(window: (i16, i16), marks: (int, int)) -> (int, int) {
    (
        if window.0 < marks.0 {
            window.0 as int
        } else {
            marks.0
        },
        if window.1 > marks.1 {
            window.1 as int
        } else {
            marks.1
        },
    )
}

/// The bands of a list of counts with their chances: the marked and the swept one.
/// A hundredth is cut off each end of the swept counts, a tenth off the marked ones.
pub open spec fn bands<N: Scalar>(dist: Seq<(i16, N)>, pivot: int) -> ((int, int), (int, int)) {
    let marks = marker_band(window_of(dist, N::ratio_spec(1, 10)), pivot);
    (marks, swept_band(window_of(dist, N::ratio_spec(1, 100)), marks))
}

fn bands_of<N: Scalar>(dist: &Vec<(i16, N)>, pivot: i16) -> (r: ((i16, i16), (i16, i16)))
    requires
        dist.len() > 0,
        -100 <= pivot <= 100,
    ensures
        ({
            let (m, w) = bands(dist@, pivot as int);
            &&& r.0.0 == m.0
            &&& r.0.1 == m.1
            &&& r.1.0 == w.0
            &&& r.1.1 == w.1
            &&& w.0 <= m.0 < m.1 <= w.1
        }),
{
    let tenth: N = N::ratio(1, 10);
    let hundredth: N = N::ratio(1, 100);
    let common = occurrence_window(dist, tenth);
    let window = occurrence_window(dist, hundredth);
    let mark_lo: i16 = if common.0 < pivot - MARKER_MARGIN {
        common.0
    } else {
        pivot - MARKER_MARGIN
    };
    let mark_hi: i16 = if common.1 > pivot + MARKER_MARGIN {
        common.1
    } else {
        pivot + MARKER_MARGIN
    };
    let lo: i16 = if window.0 < mark_lo {
        window.0
    } else {
        mark_lo
    };
    let hi: i16 = if window.1 > mark_hi {
        window.1
    } else {
        mark_hi
    };
    ((mark_lo, mark_hi), (lo, hi))
}

/// The sum of the chances of the next card.
pub open spec fn draw_mass<N: Scalar>(s: CountState) -> N {
    total(Seq::new(s.draws_from::<N>(0).len(), |i: int| s.draws_from::<N>(0)[i].1))
}

/// Whether some shoe has this running count: the chances of the next card then add up
/// to one, and else to zero.
pub open spec fn usable<N: Scalar>(n_decks: int, c: int) -> bool {
    N::ratio_spec(1, 2).less_spec(draw_mass::<N>(running_state(n_decks, c)))
}

/// The first usable count from `c` to `hi`, or the one after `hi`.
pub open spec fn first_usable<N: Scalar>(n_decks: int, c: int, hi: int) -> int
    decreases hi - c + 1,
{
    if c > hi || usable::<N>(n_decks, c) {
        c
    } else {
        first_usable::<N>(n_decks, c + 1, hi)
    }
}

/// The last usable count from `c` down to `lo`, or the one before `lo`.
pub open spec fn last_usable<N: Scalar>(n_decks: int, c: int, lo: int) -> int
    decreases c - lo + 1,
{
    if c < lo || usable::<N>(n_decks, c) {
        c
    } else {
        last_usable::<N>(n_decks, c - 1, lo)
    }
}

fn mass_of_shoe<N: Scalar>(shoe: &CountShoe<N>) -> (r: N)
    ensures
        r == draw_mass::<N>(shoe.count_state()),
{
    let draws: Vec<(Card, N)> = shoe.all_draw_probs();
    let ghost ps = Seq::new(draws@.len(), |i: int| draws@[i].1);
    let mut sum: N = from_whole(0);
    let mut i: usize = 0;
    while i < draws.len()
        invariant
            i <= draws.len(),
            ps == Seq::new(draws@.len(), |i: int| draws@[i].1),
            sum == total(ps.take(i as int)),
        decreases draws.len() - i,
    {
        assert(ps.take(i + 1).drop_last() =~= ps.take(i as int));
        sum = sum.plus(draws[i].1);
        i += 1;
    }
    assert(ps.take(draws@.len() as int) =~= ps);
    sum
}

proof fn usable_ends<N: Scalar>(n_decks: int, lo: int, hi: int)
    requires
        lo <= hi,
    ensures
        lo <= first_usable::<N>(n_decks, lo, hi) <= hi + 1,
        lo - 1 <= last_usable::<N>(n_decks, hi, lo) <= hi,
        first_usable::<N>(n_decks, lo, hi) <= hi <==> last_usable::<N>(n_decks, hi, lo) >= lo,
        first_usable::<N>(n_decks, lo, hi) <= hi ==> first_usable::<N>(n_decks, lo, hi)
            <= last_usable::<N>(n_decks, hi, lo),
        first_usable::<N>(n_decks, lo, hi) <= hi ==> usable::<N>(
            n_decks,
            first_usable::<N>(n_decks, lo, hi),
        ),
    decreases hi - lo,
{
    first_is_first::<N>(n_decks, lo, hi);
    last_is_last::<N>(n_decks, hi, lo);
    let f = first_usable::<N>(n_decks, lo, hi);
    let l = last_usable::<N>(n_decks, hi, lo);
    if f <= hi {
        assert(usable::<N>(n_decks, f));
        if l < f {
            assert(!usable::<N>(n_decks, f));
        }
    }
    if l >= lo {
        assert(usable::<N>(n_decks, l));
    }
}

proof fn first_is_first<N: Scalar>(n_decks: int, c: int, hi: int)
    requires
        c <= hi + 1,
    ensures
        c <= first_usable::<N>(n_decks, c, hi) <= hi + 1,
        forall|x: int|
            c <= x < first_usable::<N>(n_decks, c, hi) ==> !(#[trigger] usable::<N>(n_decks, x)),
        first_usable::<N>(n_decks, c, hi) <= hi ==> usable::<N>(
            n_decks,
            first_usable::<N>(n_decks, c, hi),
        ),
    decreases hi - c + 1,
{
    if !(c > hi || usable::<N>(n_decks, c)) {
        first_is_first::<N>(n_decks, c + 1, hi);
    }
}

proof fn last_is_last<N: Scalar>(n_decks: int, c: int, lo: int)
    requires
        c >= lo - 1,
    ensures
        lo - 1 <= last_usable::<N>(n_decks, c, lo) <= c,
        forall|x: int|
            last_usable::<N>(n_decks, c, lo) < x <= c ==> !(#[trigger] usable::<N>(n_decks, x)),
        last_usable::<N>(n_decks, c, lo) >= lo ==> usable::<N>(
            n_decks,
            last_usable::<N>(n_decks, c, lo),
        ),
    decreases c - lo + 1,
{
    if !(c < lo || usable::<N>(n_decks, c)) {
        last_is_last::<N>(n_decks, c - 1, lo);
    }
}

fn nothing_kept<T>(len: usize) -> (r: Vec<Option<T>>)
    ensures
        r.len() == len,
        forall|i: int| 0 <= i < r.len() ==> #[trigger] r@[i] is None,
{
    let mut r: Vec<Option<T>> = Vec::new();
    while r.len() < len
        invariant
            r.len() <= len,
            forall|i: int| 0 <= i < r.len() ==> #[trigger] r@[i] is None,
        decreases len - r.len(),
    {
        r.push(None);
    }
    r
}

impl<N: Scalar> ColumnEval<N> {
    /// A sweep over the exact running counts from `lo` to `hi`, less those at the ends
    /// that no shoe has; nothing if no shoe has any. Every change of the move is worth
    /// marking.
    pub fn build_running(n: u8, up: Card, rules: &Ruleset, lo: i16, hi: i16) -> (r: Option<Self>)
        requires
            n > 0,
            up.valid(),
            lo <= hi ==> convertible(CountSystemId::Ko, n as int, lo as int),
        ensures
            match r {
                Some(e) => {
                    &&& e.wf()
                    &&& first_usable::<N>(n as int, lo as int, hi as int) <= hi
                    &&& e.about() == (Sweep {
                        kind: CountKind::Running,
                        n,
                        up,
                        rules: *rules,
                        lo: first_usable::<N>(n as int, lo as int, hi as int) as i16,
                        hi: last_usable::<N>(n as int, hi as int, lo as int) as i16,
                    })
                    &&& e.marks() == (e.about().lo, e.about().hi)
                },
                None => first_usable::<N>(n as int, lo as int, hi as int) > hi,
            },
    {
        if lo > hi {
            return None;
        }
        proof {
            law_full_shoe_counts(CountSystemId::Ko, n as int);
            usable_ends::<N>(n as int, lo as int, hi as int);
        }
        let mut window: Vec<i16> = Vec::new();
        let mut c: i32 = lo as i32;
        while c <= hi as i32
            invariant
                lo <= c <= hi + 1,
                window.len() == c - lo,
                forall|i: int| 0 <= i < window.len() ==> #[trigger] window@[i] == lo + i,
            decreases hi + 1 - c,
        {
            window.push(c as i16);
            c += 1;
        }
        let shoes: Vec<CountShoe<N>> = CountShoe::band_external(
            CountSystemId::Ko,
            n,
            &window,
            CountCmp::Eq,
            count_penetration(),
        );
        assert forall|i: int| 0 <= i < shoes.len() implies (#[trigger] shoes@[i]).count_state()
            == running_state(n as int, lo + i) by {
            assert(window@[i] == lo + i);
        }
        let half: N = N::ratio(1, 2);
        let mut a: usize = 0;
        while a < shoes.len() && !half.less(mass_of_shoe(&shoes[a]))
            invariant
                a <= shoes.len(),
                shoes.len() == hi - lo + 1,
                half == N::ratio_spec(1, 2),
                forall|i: int|
                    0 <= i < shoes.len() ==> (#[trigger] shoes@[i]).count_state()
                        == running_state(n as int, lo + i),
                first_usable::<N>(n as int, lo + a, hi as int) == first_usable::<N>(
                    n as int,
                    lo as int,
                    hi as int,
                ),
            decreases shoes.len() - a,
        {
            assert(shoes@[a as int].count_state() == running_state(n as int, lo + a));
            a += 1;
        }
        if a == shoes.len() {
            return None;
        }
        assert(shoes@[a as int].count_state() == running_state(n as int, lo + a));
        let mut b: usize = shoes.len() - 1;
        assert(shoes@[b as int].count_state() == running_state(n as int, lo + b));
        while b > a && !half.less(mass_of_shoe(&shoes[b]))
            invariant
                a <= b < shoes.len(),
                shoes.len() == hi - lo + 1,
                half == N::ratio_spec(1, 2),
                usable::<N>(n as int, lo + a),
                forall|i: int|
                    0 <= i < shoes.len() ==> (#[trigger] shoes@[i]).count_state()
                        == running_state(n as int, lo + i),
                last_usable::<N>(n as int, lo + b, lo as int) == last_usable::<N>(
                    n as int,
                    hi as int,
                    lo as int,
                ),
            decreases b,
        {
            assert(shoes@[b as int].count_state() == running_state(n as int, lo + b));
            b -= 1;
        }
        assert(shoes@[b as int].count_state() == running_state(n as int, lo + b));
        let first: i16 = (lo as i64 + a as i64) as i16;
        let last: i16 = (lo as i64 + b as i64) as i16;
        let sweep = Sweep { kind: CountKind::Running, n, up, rules: *rules, lo: first, hi: last };
        let len: usize = b - a + 1;
        Some(
            ColumnEval {
                sweep,
                mark_lo: first,
                mark_hi: last,
                first: lo,
                shoes,
                frames: nothing_kept(len),
                summaries: nothing_kept(len),
            },
        )
    }
}

/// How often each running count occurs.
pub open spec fn running_dist<N: Scalar>(n: u8) -> Seq<(i16, N)> {
    let values = CountSystemId::Ko.values();
    let root = deck_tally(n as nat);
    external_shares::<N>(
        shoe_grid::<N>(CountSystemId::Ko, n as nat),
        count_penetration_spec(),
        low(values, root),
        high(values, root),
        size(root) as int,
        CountSystemId::Ko.pivot_spec(n as int),
        low(values, root) - 1,
    )
}

/// How often each whole true count occurs.
pub open spec fn true_dist<N: Scalar>(n: u8) -> Seq<(i16, N)> {
    let values = CountSystemId::HiLo.values();
    let root = deck_tally(n as nat);
    true_shares::<N>(
        shoe_grid::<N>(CountSystemId::HiLo, n as nat),
        count_penetration_spec(),
        low(values, root),
        high(values, root),
        size(root) as int,
        0x8000,
    )
}

/// The running counts of a shoe are few.
proof fn running_counts_are_near<N: Scalar>(
    grid: crate::countw::Grid<N>,
    pen: crate::count::Penetration,
    lo: int,
    hi: int,
    big_n: int,
    pivot: int,
    s: int,
)
    requires
        -15_000 <= lo <= hi <= 15_000,
        0 <= pivot <= 4,
        lo - 1 <= s,
    ensures
        forall|i: int|
            0 <= i < external_shares::<N>(grid, pen, lo, hi, big_n, pivot, s).len() ==> -15_000 <= (
            #[trigger] external_shares::<N>(grid, pen, lo, hi, big_n, pivot, s)[i]).0 <= 15_004,
    decreases hi - s,
{
    if s < hi {
        running_counts_are_near::<N>(grid, pen, lo, hi, big_n, pivot, s + 1);
        let before = external_shares::<N>(grid, pen, lo, hi, big_n, pivot, s + 1);
        let all = external_shares::<N>(grid, pen, lo, hi, big_n, pivot, s);
        assert forall|i: int| 0 <= i < all.len() implies -15_000 <= (#[trigger] all[i]).0
            <= 15_004 by {
            if i < before.len() {
                assert(all[i] == before[i]);
            } else {
                assert(all[i].0 == (pivot - (s + 1)) as i16);
            }
        }
    }
}

proof fn windows_are_near<N: Scalar>(dist: Seq<(i16, N)>, tail: N)
    requires
        dist.len() > 0,
        forall|i: int| 0 <= i < dist.len() ==> -15_000 <= (#[trigger] dist[i]).0 <= 15_004,
    ensures
        -15_000 <= window_of(dist, tail).0 <= 15_004,
        -15_000 <= window_of(dist, tail).1 <= 15_004,
{
    let lo = low_edge(dist, tail, 0, zero::<N>());
    edges_in_range(dist, tail, 0, zero::<N>());
    high_edge_in_range(dist, tail, lo, dist.len() - 1, zero::<N>());
    let hi = high_edge(dist, tail, lo, dist.len() - 1, zero::<N>());
    assert(-15_000 <= dist[lo].0 <= 15_004);
    assert(-15_000 <= dist[hi].0 <= 15_004);
}

fn clamped_to(x: i16, lo: i16, hi: i16) -> (r: i16)
    ensures
        r == clamp(x as int, lo as int, hi as int),
{
    if x < lo {
        lo
    } else if x > hi {
        hi
    } else {
        x
    }
}

/// The sweep over the running counts and the counts to mark: all counts but the rarest,
/// less those at the ends that no shoe has. There is none where no shoe has any.
pub open spec fn running_sweep<N: Scalar>(n: u8, up: Card, rules: Ruleset) -> Option<
    (Sweep, (i16, i16)),
> {
    let dist = running_dist::<N>(n);
    let (m, w) = bands(dist, CountSystemId::Ko.pivot_spec(n as int));
    let first = first_usable::<N>(n as int, w.0, w.1);
    let last = last_usable::<N>(n as int, w.1, w.0);
    if dist.len() == 0 || first > w.1 {
        None
    } else {
        Some(
            (
                Sweep {
                    kind: CountKind::Running,
                    n,
                    up,
                    rules,
                    lo: first as i16,
                    hi: last as i16,
                },
                (clamp(m.0, first, last) as i16, clamp(m.1, first, last) as i16),
            ),
        )
    }
}

/// The sweep over the whole true counts and the counts to mark: all counts but the
/// rarest. There is none where a count in halves would not fit.
pub open spec fn true_sweep<N: Scalar>(n: u8, up: Card, rules: Ruleset) -> Option<
    (Sweep, (i16, i16)),
> {
    let dist = true_dist::<N>(n);
    let (m, w) = bands(dist, 0);
    if dist.len() == 0 || 2 * w.0 < i16::MIN || 2 * w.1 > i16::MAX {
        None
    } else {
        Some(
            (
                Sweep {
                    kind: CountKind::TrueCount,
                    n,
                    up,
                    rules,
                    lo: w.0 as i16,
                    hi: w.1 as i16,
                },
                (m.0 as i16, m.1 as i16),
            ),
        )
    }
}

/// The sweep over the counts of a kind.
pub open spec fn sweep_of<N: Scalar>(kind: CountKind, n: u8, up: Card, rules: Ruleset) -> Option<
    (Sweep, (i16, i16)),
> {
    match kind {
        CountKind::Running => running_sweep::<N>(n, up, rules),
        CountKind::TrueCount => true_sweep::<N>(n, up, rules),
    }
}

impl<N: Scalar> ColumnEval<N> {
    /// Whether this is the sweep that it should be.
    pub open spec fn makes(r: Option<Self>, s: Option<(Sweep, (i16, i16))>) -> bool {
        match r {
            Some(e) => e.wf() && s == Some((e.about(), e.marks())),
            None => s is None,
        }
    }

    fn new_running(n: u8, up: Card, rules: &Ruleset) -> (r: Option<Self>)
        requires
            n > 0,
            up.valid(),
        ensures
            Self::makes(r, running_sweep::<N>(n, up, *rules)),
    {
        let dist: Vec<(i16, N)> = CountShoe::external_count_distribution(
            CountSystemId::Ko,
            n,
            count_penetration(),
        );
        if dist.len() == 0 {
            return None;
        }
        let pivot: i16 = CountSystemId::Ko.pivot(n);
        proof {
            let values = CountSystemId::Ko.values();
            let root = deck_tally(n as nat);
            law_full_shoe_counts(CountSystemId::Ko, n as int);
            decks_are_countable(CountSystemId::Ko, n as nat);
            crate::countw::counts_are_bounded(values, root, root, 10);
            crate::countshoe::span_at_most_size(values, root, 10);
            crate::countshoe::ranks_are_size(root);
            running_counts_are_near::<N>(
                shoe_grid::<N>(CountSystemId::Ko, n as nat),
                count_penetration_spec(),
                low(values, root),
                high(values, root),
                size(root) as int,
                pivot as int,
                low(values, root) - 1,
            );
            windows_are_near(dist@, N::ratio_spec(1, 10));
            windows_are_near(dist@, N::ratio_spec(1, 100));
        }
        let (m, w) = bands_of(&dist, pivot);
        proof {
            usable_ends::<N>(n as int, w.0 as int, w.1 as int);
        }
        match Self::build_running(n, up, rules, w.0, w.1) {
            Some(e) => {
                let mut e = e;
                let lo: i16 = e.lo();
                let hi: i16 = e.hi();
                e.set_marks(clamped_to(m.0, lo, hi), clamped_to(m.1, lo, hi));
                Some(e)
            },
            None => None,
        }
    }

    fn set_marks(&mut self, mark_lo: i16, mark_hi: i16)
        ensures
            final(self).about() == old(self).about(),
            final(self).wf() == old(self).wf(),
            final(self).marks() == (mark_lo, mark_hi),
    {
        self.mark_lo = mark_lo;
        self.mark_hi = mark_hi;
        assert(forall|t: ChartTable<CellInfo<N>>, e: int|
            self.is_summary(t, e) == old(self).is_summary(t, e));
    }

    fn new_true(n: u8, up: Card, rules: &Ruleset) -> (r: Option<Self>)
        requires
            n > 0,
            up.valid(),
        ensures
            Self::makes(r, true_sweep::<N>(n, up, *rules)),
    {
        let dist: Vec<(i16, N)> = CountShoe::true_count_distribution(
            CountSystemId::HiLo,
            n,
            count_penetration(),
        );
        if dist.len() == 0 {
            return None;
        }
        let (m, w) = bands_of(&dist, 0);
        if w.0 < -16_384 || w.1 > 16_383 {
            return None;
        }
        let sweep = Sweep { kind: CountKind::TrueCount, n, up, rules: *rules, lo: w.0, hi: w.1 };
        let len: usize = (w.1 as i64 - w.0 as i64 + 1) as usize;
        Some(
            ColumnEval {
                sweep,
                mark_lo: m.0,
                mark_hi: m.1,
                first: w.0,
                shoes: Vec::new(),
                frames: nothing_kept(len),
                summaries: nothing_kept(len),
            },
        )
    }

    /// The sweep of a column over the counts that a player realistically holds, if there
    /// are any.
    pub fn new(kind: CountKind, n: u8, up: Card, rules: &Ruleset) -> (r: Option<Self>)
        requires
            n > 0,
            up.valid(),
        ensures
            Self::makes(r, sweep_of::<N>(kind, n, up, *rules)),
    {
        match kind {
            CountKind::Running => Self::new_running(n, up, rules),
            CountKind::TrueCount => Self::new_true(n, up, rules),
        }
    }
}

/// Whether the move changes at a count between two bounds.
pub open spec fn flips_between(runs: Seq<Run>, band_lo: int, band_hi: int) -> bool {
    exists|i: int| 1 <= i < runs.len() && band_lo <= (#[trigger] runs[i]).1 <= band_hi
}

/// Whether the move changes at a count between two bounds: what matters is where the
/// later move takes over, not which moves lie between the bounds.
pub fn flips_in_band(runs: &Vec<Run>, band_lo: i16, band_hi: i16) -> (r: bool)
    ensures
        r == flips_between(runs@, band_lo as int, band_hi as int),
{
    let mut i: usize = 1;
    while i < runs.len()
        invariant
            1 <= i,
            forall|j: int|
                1 <= j < i && j < runs.len() ==> !(band_lo <= (#[trigger] runs@[j]).1 <= band_hi),
        decreases runs.len() - i,
    {
        if band_lo <= runs[i].1 && runs[i].1 <= band_hi {
            assert(band_lo <= runs@[i as int].1 <= band_hi);
            return true;
        }
        i += 1;
    }
    false
}

/// The moves for the first two cards only among the first `k` runs, each once.
pub open spec fn start_only_upto(runs: Seq<Run>, k: int) -> Seq<Move>
    decreases k,
{
    if k <= 0 {
        Seq::empty()
    } else {
        let so_far = start_only_upto(runs, k - 1);
        let mv = runs[k - 1].0;
        if mv.start_only_spec() && !so_far.contains(mv) {
            so_far.push(mv)
        } else {
            so_far
        }
    }
}

fn lists(moves: &Vec<Move>, mv: Move) -> (r: bool)
    ensures
        r == moves@.contains(mv),
{
    let mut i: usize = 0;
    while i < moves.len()
        invariant
            i <= moves.len(),
            forall|j: int| 0 <= j < i ==> #[trigger] moves@[j] != mv,
        decreases moves.len() - i,
    {
        if moves[i] == mv {
            assert(moves@[i as int] == mv);
            return true;
        }
        i += 1;
    }
    false
}

impl CategoryIndex {
    /// Whether the play changes with the count between two bounds.
    pub fn count_dependent_in_band(&self, band_lo: i16, band_hi: i16) -> (r: bool)
        ensures
            r == (flips_between(self.primary@, band_lo as int, band_hi as int) || flips_between(
                self.fallback@,
                band_lo as int,
                band_hi as int,
            )),
    {
        flips_in_band(&self.primary, band_lo, band_hi) || flips_in_band(
            &self.fallback,
            band_lo,
            band_hi,
        )
    }

    /// The moves for the first two cards only that are recommended at some count.
    pub fn start_only_moves(&self) -> (r: Vec<Move>)
        ensures
            r@ == start_only_upto(self.primary@, self.primary@.len() as int),
    {
        let mut out: Vec<Move> = Vec::new();
        let mut i: usize = 0;
        while i < self.primary.len()
            invariant
                i <= self.primary.len(),
                out@ == start_only_upto(self.primary@, i as int),
            decreases self.primary.len() - i,
        {
            let mv = self.primary[i].0;
            if is_start_only(mv) && !lists(&out, mv) {
                out.push(mv);
            }
            i += 1;
        }
        out
    }
}

/// The moves that a row recommends without a count: its headline, and the better of
/// hitting and standing.
pub open spec fn basic_of<N: Scalar>(cell: Option<CellInfo<N>>) -> (Option<Move>, Option<Move>) {
    match cell {
        Some(c) => (Some(c.headline), ladder_move(c.move_evs, Ladder::HitStand)),
        None => (None, None),
    }
}

/// The moves that a row recommends without a count.
pub fn basic_moves<N: Scalar>(base: &ChartTable<CellInfo<N>>, cat: HandCategory) -> (r: (
    Option<Move>,
    Option<Move>,
))
    requires
        base.wf(),
    ensures
        r == basic_of(base.at(cat)),
{
    match base.get(cat) {
        Some(cell) => (Some(cell.headline), hit_or_stand(&cell.move_evs)),
        None => (None, None),
    }
}

/// The count indices of a column over the counts from `lo` to `hi`, with the counts at
/// which a change is worth marking. While it is not complete the pairs are missing.
pub struct IndexReport {
    pub lo: i16,
    pub hi: i16,
    pub mark_lo: i16,
    pub mark_hi: i16,
    pub cats: ChartTable<CategoryIndex>,
    pub complete: bool,
}

/// The rows of a report: first those that need no split, then the pairs.
pub open spec fn report_row(i: int) -> HandCategory {
    if i < 26 {
        light_row(i)
    } else {
        Pane::Pairs.row_at(i - 26)
    }
}

impl IndexReport {
    /// Whether a report has the indices of its first `k` rows. The moves without a
    /// count are those of the chart `base` where there is one.
    pub open spec fn reports<N: Scalar>(
        &self,
        sw: Sweep,
        marks: (i16, i16),
        base: Option<ChartTable<CellInfo<N>>>,
        k: int,
    ) -> bool {
        &&& self.lo == sw.lo
        &&& self.hi == sw.hi
        &&& self.mark_lo == marks.0
        &&& self.mark_hi == marks.1
        &&& self.cats.wf()
        &&& self.cats.entries().len() == k
        &&& forall|i: int|
            0 <= i < k ==> {
                let (cat, ci) = #[trigger] self.cats.entries()[i];
                &&& cat == report_row(i)
                &&& ci.indexes::<N>(sw, cat)
                &&& (ci.basic, ci.basic_fallback) == match base {
                    Some(b) => basic_of(b.at(cat)),
                    None => (None, None),
                }
            }
    }
}

/// The rows of a report are all different.
proof fn report_rows_differ(i: int, j: int)
    requires
        0 <= i < j < 36,
    ensures
        report_row(i) != report_row(j),
{
}

/// Works out a report in two steps, so that the first can be shown before the second is
/// done.
pub struct IndexJob<N: Scalar> {
    eval: ColumnEval<N>,
    base: Option<ChartTable<CellInfo<N>>>,
    report: IndexReport,
}

impl<N: Scalar> IndexJob<N> {
    pub closed spec fn about(&self) -> Sweep {
        self.eval.about()
    }

    pub closed spec fn marks(&self) -> (i16, i16) {
        self.eval.marks()
    }

    pub closed spec fn base_spec(&self) -> Option<ChartTable<CellInfo<N>>> {
        self.base
    }

    /// Whether the first `k` rows have been worked out.
    pub closed spec fn done(&self, k: int) -> bool {
        &&& self.eval.wf()
        &&& self.base matches Some(b) ==> b.wf()
        &&& self.report.reports::<N>(self.eval.about(), self.eval.marks(), self.base, k)
        &&& self.report.complete == (k == 36)
    }

    /// The report so far.
    pub fn report(&self) -> (r: &IndexReport)
        ensures
            forall|k: int| #[trigger]
                self.done(k) ==> r.reports::<N>(self.about(), self.marks(), self.base_spec(), k)
                    && r.complete == (k == 36),
    {
        &self.report
    }

    /// Begin with a sweep. The chart without a count is needed for the moves without a
    /// count.
    pub fn new(eval: ColumnEval<N>, base: Option<ChartTable<CellInfo<N>>>) -> (r: Self)
        requires
            eval.wf(),
            base matches Some(b) ==> b.wf(),
        ensures
            r.done(0),
            r.about() == eval.about(),
            r.marks() == eval.marks(),
            r.base_spec() == base,
    {
        let (mark_lo, mark_hi) = eval.mark_band();
        let report = IndexReport {
            lo: eval.lo(),
            hi: eval.hi(),
            mark_lo,
            mark_hi,
            cats: ChartTable::new(),
            complete: false,
        };
        IndexJob { eval, base, report }
    }

    fn add_row(self, cat: HandCategory, Ghost(k): Ghost<int>) -> (r: Self)
        requires
            self.done(k),
            0 <= k < 36,
            cat == report_row(k),
        ensures
            r.eval.wf(),
            r.base == self.base,
            r.about() == self.about(),
            r.marks() == self.marks(),
            r.report.reports::<N>(r.about(), r.marks(), r.base, k + 1),
            r.report.complete == self.report.complete,
    {
        let IndexJob { eval, base, report } = self;
        let mut report = report;
        let (eval, ci) = eval.category_index(cat);
        let mut ci = ci;
        match &base {
            Some(b) => {
                let (basic, fallback) = basic_moves(b, cat);
                ci.basic = basic;
                ci.basic_fallback = fallback;
            },
            None => {},
        }
        proof {
            if report.cats.has(cat) {
                let i = choose|i: int|
                    0 <= i < report.cats.entries().len() && (#[trigger] report.cats.entries()[i]).0
                        == cat;
                report_rows_differ(i, k);
            }
        }
        let ghost before = report.cats.entries();
        report.cats.push(cat, ci);
        assert forall|i: int| 0 <= i < k implies report.cats.entries()[i] == #[trigger] before[i] by {}
        IndexJob { eval, base, report }
    }
}

impl<N: Scalar> IndexJob<N> {
    /// Work out the rows that need no split.
    pub fn light(self) -> (r: Self)
        requires
            self.done(0),
        ensures
            r.done(26),
            r.about() == self.about(),
            r.marks() == self.marks(),
            r.base_spec() == self.base_spec(),
    {
        let (light, pairs) = index_categories();
        let ghost me = self;
        let mut job = self;
        let mut i: usize = 0;
        while i < light.len()
            invariant
                i <= 26,
                light@ == Seq::new(26, |i: int| light_row(i)),
                job.done(i as int),
                job.about() == me.about(),
                job.marks() == me.marks(),
                job.base_spec() == me.base_spec(),
            decreases 26 - i,
        {
            assert(light@[i as int] == report_row(i as int));
            job = job.add_row(light[i], Ghost(i as int));
            i += 1;
        }
        job
    }

    /// Work out the pairs.
    pub fn finish(self) -> (r: IndexReport)
        requires
            self.done(26),
        ensures
            r.complete,
            r.reports::<N>(self.about(), self.marks(), self.base_spec(), 36),
    {
        let (light, pairs) = index_categories();
        let ghost me = self;
        let mut job = self;
        let mut i: usize = 0;
        while i < pairs.len()
            invariant
                i <= 10,
                pairs@ == Seq::new(10, |i: int| Pane::Pairs.row_at(i)),
                job.eval.wf(),
                job.base matches Some(b) ==> b.wf(),
                job.base == me.base,
                job.about() == me.about(),
                job.marks() == me.marks(),
                job.report.reports::<N>(job.about(), job.marks(), job.base, 26 + i),
                !job.report.complete,
            decreases 10 - i,
        {
            assert(pairs@[i as int] == report_row(26 + i));
            job = job.add_row(pairs[i], Ghost(26 + i));
            i += 1;
        }
        let mut report = job.report;
        report.complete = true;
        report
    }
}

/// Whether this is the chart that a report of this kind takes the moves without a count
/// from: for true counts that of the finite shoe, else none.
pub open spec fn is_base<N: Scalar>(
    base: Option<ChartTable<CellInfo<N>>>,
    kind: CountKind,
    n: u8,
    up: Card,
    rules: Ruleset,
) -> bool {
    match kind {
        CountKind::Running => base is None,
        CountKind::TrueCount => exists|c: Column<N>| #[trigger]
            is_column::<N, CardCol>(c, deck_tally(n as nat), up, rules) && base == Some(c.summary),
    }
}

/// Whether a report of this kind tells the moves without a count.
pub fn tells_basic(kind: CountKind) -> (r: bool)
    ensures
        r == (kind == CountKind::TrueCount),
{
    match kind {
        CountKind::Running => false,
        CountKind::TrueCount => true,
    }
}

/// Begin the report of a column, if there are counts to report, where the chart without a
/// count is at hand. A report that does not tell the moves without a count leaves it aside.
pub fn index_job_with<N: Scalar>(
    kind: CountKind,
    n: u8,
    up: Card,
    rules: &Ruleset,
    base: Option<ChartTable<CellInfo<N>>>,
) -> (r: Option<IndexJob<N>>)
    requires
        n > 0,
        up.valid(),
        base matches Some(b) ==> b.wf(),
    ensures
        match r {
            Some(job) => {
                &&& job.done(0)
                &&& sweep_of::<N>(kind, n, up, *rules) == Some((job.about(), job.marks()))
                &&& job.base_spec() == if kind == CountKind::TrueCount {
                    base
                } else {
                    None
                }
            },
            None => sweep_of::<N>(kind, n, up, *rules) is None,
        },
{
    let kept: Option<ChartTable<CellInfo<N>>> = if tells_basic(kind) {
        base
    } else {
        None
    };
    match ColumnEval::new(kind, n, up, rules) {
        Some(eval) => Some(IndexJob::new(eval, kept)),
        None => None,
    }
}

/// Begin the report of a column, if there are counts to report.
pub fn index_job<N: Scalar>(kind: CountKind, n: u8, up: Card, rules: &Ruleset) -> (r: Option<
    IndexJob<N>,
>)
    requires
        n > 0,
        up.valid(),
    ensures
        match r {
            Some(job) => {
                &&& job.done(0)
                &&& sweep_of::<N>(kind, n, up, *rules) == Some((job.about(), job.marks()))
                &&& is_base(job.base_spec(), kind, n, up, *rules)
            },
            None => sweep_of::<N>(kind, n, up, *rules) is None,
        },
{
    let base: Option<ChartTable<CellInfo<N>>> = if tells_basic(kind) {
        let column: Column<N> = solve_on(&CardCol::from_decks(n), up, rules);
        assert(is_column::<N, CardCol>(column, deck_tally(n as nat), up, *rules));
        Some(column.summary)
    } else {
        None
    };
    index_job_with(kind, n, up, rules, base)
}

/// The counts that may be marked lie in the sweep, and those near the pivot that it covers
/// are among them.
pub proof fn law_marks_lie_in_the_sweep<N: Scalar>(
    kind: CountKind,
    n: u8,
    up: Card,
    rules: Ruleset,
    c: int,
)
    requires
        sweep_of::<N>(kind, n, up, rules) is Some,
    ensures
        ({
            let (sw, (low_mark, high_mark)) = sweep_of::<N>(kind, n, up, rules)->0;
            let pivot = match kind {
                CountKind::Running => CountSystemId::Ko.pivot_spec(n as int),
                CountKind::TrueCount => 0,
            };
            &&& sw.lo <= low_mark <= high_mark <= sw.hi
            &&& sw.lo <= c <= sw.hi && pivot - 5 <= c <= pivot + 5 ==> low_mark <= c <= high_mark
        }),
{
    match kind {
        CountKind::Running => {
            let dist = running_dist::<N>(n);
            let pivot = CountSystemId::Ko.pivot_spec(n as int);
            let values = CountSystemId::Ko.values();
            let root = deck_tally(n as nat);
            decks_are_countable(CountSystemId::Ko, n as nat);
            crate::countw::counts_are_bounded(values, root, root, 10);
            crate::countshoe::span_at_most_size(values, root, 10);
            crate::countshoe::ranks_are_size(root);
            running_counts_are_near::<N>(
                shoe_grid::<N>(CountSystemId::Ko, n as nat),
                count_penetration_spec(),
                low(values, root),
                high(values, root),
                size(root) as int,
                pivot,
                low(values, root) - 1,
            );
            windows_are_near(dist, N::ratio_spec(1, 10));
            windows_are_near(dist, N::ratio_spec(1, 100));
            let (m, w) = bands(dist, pivot);
            usable_ends::<N>(n as int, w.0, w.1);
        },
        CountKind::TrueCount => {},
    }
}

} // verus!
