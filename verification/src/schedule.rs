//! The solving that goes on behind the chart: which results belong to the settings of now,
//! and which columns are worked on next.
use crate::card::Card;
use crate::column::Column;
use crate::config::{CountSetting, ShoeChoice};
use crate::count::CountKind;
use crate::num::{from_whole, zero, Scalar};
use crate::panes::{column_to_solve, law_columns_are_the_up_cards, solve_order, N_COLUMNS};
use crate::rules::Ruleset;
use crate::session::Ui;
use vstd::prelude::*;

verus! {

/// How many columns have their count indices worked out at the same time.
pub const INDEX_FILL_CONCURRENCY: usize = 3;

/// What a chart is solved for.
#[derive(Clone, Copy, Debug, PartialEq, Eq, Structural)]
pub struct ChartKey {
    pub shoe: ShoeChoice,
    pub rules: Ruleset,
    pub count: Option<CountSetting>,
}

/// What the count indices of a column are worked out for. They do not depend on the
/// player's count.
#[derive(Clone, Copy, Debug, PartialEq, Eq, Structural)]
pub struct IndexKey {
    pub up: Card,
    pub shoe: ShoeChoice,
    pub rules: Ruleset,
    pub kind: CountKind,
}

/// What the count indices of all columns are worked out for.
#[derive(Clone, Copy, Debug, PartialEq, Eq, Structural)]
pub struct IndexBasis {
    pub shoe: ShoeChoice,
    pub rules: Ruleset,
    pub kind: CountKind,
}

/// The state of the work.
pub struct Work {
    /// Goes up with every chart; results carry it so that those of an earlier chart can be
    /// told.
    pub epoch: u64,
    pub epoch_key: ChartKey,
    /// The columns of the chart that are there.
    pub filled: [bool; 10],
    pub index_basis: Option<IndexBasis>,
    /// Goes up with every change of the basis.
    pub index_epoch: u64,
    /// The columns whose indices are being worked out.
    pub index_pending: [bool; 10],
    /// The columns whose indices are complete.
    pub index_done: [bool; 10],
}

/// What a new chart asks for.
#[derive(Clone, Copy, Debug, PartialEq, Eq, Structural)]
pub struct Refresh {
    /// Whether the indices so far are to be forgotten.
    pub forget_indices: bool,
    /// Whether the columns are to be solved: not where the whole chart is at hand.
    pub solve: bool,
}

impl Ui {
    /// What the chart is solved for.
    pub open spec fn chart_key_spec(self) -> ChartKey {
        ChartKey { shoe: self.shoe, rules: self.rules, count: self.effective() }
    }

    /// What the indices are worked out for.
    pub open spec fn index_basis_spec(self) -> IndexBasis {
        IndexBasis { shoe: self.shoe, rules: self.rules, kind: self.count.system.kind_spec() }
    }

    /// What the chart is solved for.
    pub fn chart_key(&self) -> (r: ChartKey)
        ensures
            r == self.chart_key_spec(),
    {
        ChartKey { shoe: self.shoe, rules: self.rules, count: self.effective_count() }
    }

    /// What the indices of a column are worked out for. The infinite deck has no count.
    pub fn index_key(&self, up: Card) -> (r: Option<IndexKey>)
        ensures
            r == match self.shoe {
                ShoeChoice::Decks(n) => Some(
                    IndexKey {
                        up,
                        shoe: self.shoe,
                        rules: self.rules,
                        kind: self.count.system.kind_spec(),
                    },
                ),
                ShoeChoice::Infinite => None,
            },
    {
        match self.shoe {
            ShoeChoice::Decks(_) => Some(
                IndexKey { up, shoe: self.shoe, rules: self.rules, kind: self.count.system.kind() },
            ),
            ShoeChoice::Infinite => None,
        }
    }
}

/// How many of the first `k` are set.
pub open spec fn count_set(flags: Seq<bool>, k: int) -> nat
    decreases k,
{
    if k <= 0 {
        0
    } else {
        count_set(flags, k - 1) + if flags[k - 1] {
            1nat
        } else {
            0
        }
    }
}

fn number_set(flags: &[bool; 10]) -> (r: usize)
    ensures
        r == count_set(flags@, 10),
        r <= 10,
{
    let mut n: usize = 0;
    let mut i: usize = 0;
    while i < 10
        invariant
            i <= 10,
            n <= i,
            n == count_set(flags@, i as int),
        decreases 10 - i,
    {
        if flags[i] {
            n = n + 1;
        }
        i += 1;
    }
    n
}

/// The columns among the first `k` in the order of work that are started: those that are
/// neither complete nor being worked on, as long as fewer than three are being worked on.
pub open spec fn started_upto(pending: Seq<bool>, done: Seq<bool>, k: int) -> Seq<usize>
    decreases k,
{
    if k <= 0 {
        Seq::empty()
    } else {
        let so_far = started_upto(pending, done, k - 1);
        let col = column_to_solve(k - 1);
        if !pending[col] && !done[col] && count_set(pending, 10) + so_far.len() < 3 {
            so_far.push(col as usize)
        } else {
            so_far
        }
    }
}

impl Work {
    /// Before the first chart.
    pub fn new(ui: &Ui) -> (r: Self)
        ensures
            r.epoch == 0,
            r.epoch_key == ui.chart_key_spec(),
            forall|i: int| 0 <= i < 10 ==> !(#[trigger] r.filled@[i]),
            r.index_basis is None,
            r.index_epoch == 0,
            forall|i: int| 0 <= i < 10 ==> !(#[trigger] r.index_pending@[i]),
            forall|i: int| 0 <= i < 10 ==> !(#[trigger] r.index_done@[i]),
    {
        Work {
            epoch: 0,
            epoch_key: ui.chart_key(),
            filled: [false; 10],
            index_basis: None,
            index_epoch: 0,
            index_pending: [false; 10],
            index_done: [false; 10],
        }
    }

    /// Begin a new chart. The indices are forgotten where they were for another shoe, other
    /// rules or another kind of count; a change of the count alone keeps them.
    pub fn recompute(&mut self, ui: &Ui, at_hand: bool) -> (r: Refresh)
        requires
            old(self).epoch < u64::MAX,
            old(self).index_epoch < u64::MAX,
        ensures
            final(self).epoch == old(self).epoch + 1,
            final(self).epoch_key == ui.chart_key_spec(),
            final(self).index_basis == Some(ui.index_basis_spec()),
            r.solve == !at_hand,
            r.forget_indices == (old(self).index_basis != Some(ui.index_basis_spec())),
            forall|i: int| 0 <= i < 10 ==> #[trigger] final(self).filled@[i] == at_hand,
            if r.forget_indices {
                &&& final(self).index_epoch == old(self).index_epoch + 1
                &&& forall|i: int| 0 <= i < 10 ==> !(#[trigger] final(self).index_pending@[i])
                &&& forall|i: int| 0 <= i < 10 ==> !(#[trigger] final(self).index_done@[i])
            } else {
                &&& final(self).index_epoch == old(self).index_epoch
                &&& final(self).index_pending == old(self).index_pending
                &&& final(self).index_done == old(self).index_done
            },
    {
        self.epoch = self.epoch + 1;
        self.epoch_key = ui.chart_key();
        let basis = IndexBasis { shoe: ui.shoe, rules: ui.rules, kind: ui.count.system.kind() };
        let forget: bool = match self.index_basis {
            Some(b) => b != basis,
            None => true,
        };
        if forget {
            self.index_basis = Some(basis);
            self.index_epoch = self.index_epoch + 1;
            self.index_pending = [false; 10];
            self.index_done = [false; 10];
        }
        self.filled = [at_hand; 10];
        Refresh { forget_indices: forget, solve: !at_hand }
    }

    /// Take in a solved column: one of an earlier chart is dropped. Tells whether it was
    /// taken.
    pub fn take_column(&mut self, epoch: u64, col: usize) -> (r: bool)
        requires
            col < N_COLUMNS,
        ensures
            r == (epoch == old(self).epoch),
            forall|i: int|
                0 <= i < 10 ==> #[trigger] final(self).filled@[i] == (old(self).filled@[i] || (r && i
                    == col)),
            final(self).epoch == old(self).epoch,
            final(self).epoch_key == old(self).epoch_key,
            final(self).index_basis == old(self).index_basis,
            final(self).index_epoch == old(self).index_epoch,
            final(self).index_pending == old(self).index_pending,
            final(self).index_done == old(self).index_done,
    {
        if epoch != self.epoch {
            return false;
        }
        self.filled[col] = true;
        true
    }

    /// Whether all columns of the chart are there.
    pub fn is_complete(&self) -> (r: bool)
        ensures
            r == forall|i: int| 0 <= i < 10 ==> #[trigger] self.filled@[i],
    {
        let mut i: usize = 0;
        while i < 10
            invariant
                i <= 10,
                forall|j: int| 0 <= j < i ==> #[trigger] self.filled@[j],
            decreases 10 - i,
        {
            if !self.filled[i] {
                assert(!self.filled@[i as int]);
                return false;
            }
            i += 1;
        }
        true
    }

    /// How many columns of the chart are not there yet.
    pub fn pending_columns(&self) -> (r: usize)
        ensures
            r == 10 - count_set(self.filled@, 10),
            r <= 10,
    {
        10 - number_set(&self.filled)
    }

    /// Start working out the indices of more columns: on a finite shoe, once the chart is
    /// there, of as many as may be worked on at the same time.
    pub fn schedule_index_fill(&mut self, shoe: ShoeChoice) -> (r: Vec<usize>)
        ensures
            r@ == if shoe == ShoeChoice::Infinite || exists|i: int|
                0 <= i < 10 && !(#[trigger] old(self).filled@[i]) {
                Seq::empty()
            } else {
                started_upto(old(self).index_pending@, old(self).index_done@, 10)
            },
            forall|i: int|
                0 <= i < r@.len() ==> (#[trigger] r@[i]) < 10,
            forall|i: int|
                0 <= i < 10 ==> #[trigger] final(self).index_pending@[i] == (old(
                    self,
                ).index_pending@[i] || r@.contains(i as usize)),
            final(self).epoch == old(self).epoch,
            final(self).epoch_key == old(self).epoch_key,
            final(self).filled == old(self).filled,
            final(self).index_basis == old(self).index_basis,
            final(self).index_epoch == old(self).index_epoch,
            final(self).index_done == old(self).index_done,
    {
        let mut out: Vec<usize> = Vec::new();
        let finite: bool = match shoe {
            ShoeChoice::Decks(_) => true,
            ShoeChoice::Infinite => false,
        };
        if !finite || !self.is_complete() {
            assert(out@ =~= Seq::<usize>::empty());
            return out;
        }
        let ghost pending = self.index_pending@;
        let ghost done = self.index_done@;
        let busy: usize = number_set(&self.index_pending);
        let order = solve_order();
        let mut k: usize = 0;
        while k < 10
            invariant
                k <= 10,
                busy == count_set(pending, 10),
                busy <= 10,
                out.len() <= k,
                pending.len() == 10,
                done == self.index_done@,
                forall|j: int| 0 <= j < 10 ==> #[trigger] order@[j] == column_to_solve(j),
                out@ == started_upto(pending, done, k as int),
                forall|i: int| 0 <= i < out@.len() ==> (#[trigger] out@[i]) < 10,
                forall|i: int, j: int|
                    0 <= i < out@.len() && k <= j < 10 ==> #[trigger] out@[i] != #[trigger] column_to_solve(j),
                forall|i: int|
                    0 <= i < 10 ==> #[trigger] self.index_pending@[i] == (pending[i]
                        || out@.contains(i as usize)),
                self.epoch == old(self).epoch,
                self.epoch_key == old(self).epoch_key,
                self.filled == old(self).filled,
                self.index_basis == old(self).index_basis,
                self.index_epoch == old(self).index_epoch,
                self.index_done == old(self).index_done,
            decreases 10 - k,
        {
            let col: usize = order[k];
            assert(col == column_to_solve(k as int));
            proof {
                if out@.contains(col) {
                    let i = out@.index_of(col);
                    assert(out@[i] != column_to_solve(k as int));
                }
            }
            if !self.index_pending[col] && !self.index_done[col] && busy + out.len()
                < INDEX_FILL_CONCURRENCY {
                let ghost before = out@;
                out.push(col);
                self.index_pending[col] = true;
                assert forall|i: int| 0 <= i < 10 implies #[trigger] self.index_pending@[i] == (
                pending[i] || out@.contains(i as usize)) by {
                    if i == col {
                        assert(out@[before.len() as int] == col);
                    } else {
                        if before.contains(i as usize) {
                            let j = before.index_of(i as usize);
                            assert(out@[j] == i as usize);
                        }
                        if out@.contains(i as usize) {
                            let j = out@.index_of(i as usize);
                            assert(before[j] == i as usize);
                        }
                    }
                }
            }
            k += 1;
        }
        out
    }

    /// Take in the indices of a column: those for another basis are dropped. Tells whether
    /// they were taken.
    pub fn take_index(&mut self, epoch: u64, col: usize, complete: bool) -> (r: bool)
        requires
            col < N_COLUMNS,
        ensures
            r == (epoch == old(self).index_epoch),
            forall|i: int|
                0 <= i < 10 ==> #[trigger] final(self).index_pending@[i] == (old(
                    self,
                ).index_pending@[i] && !(r && complete && i == col)),
            forall|i: int|
                0 <= i < 10 ==> #[trigger] final(self).index_done@[i] == if r && i == col {
                    complete
                } else {
                    old(self).index_done@[i]
                },
            final(self).epoch == old(self).epoch,
            final(self).epoch_key == old(self).epoch_key,
            final(self).filled == old(self).filled,
            final(self).index_basis == old(self).index_basis,
            final(self).index_epoch == old(self).index_epoch,
    {
        if epoch != self.index_epoch {
            return false;
        }
        if complete {
            self.index_pending[col] = false;
        }
        self.index_done[col] = complete;
        true
    }
}

/// Never are more than three columns worked on at the same time, if no more were before.
pub proof fn law_few_columns_at_a_time(pending: Seq<bool>, done: Seq<bool>, k: int)
    requires
        0 <= k <= 10,
        count_set(pending, 10) <= 3,
    ensures
        count_set(pending, 10) + started_upto(pending, done, k).len() <= 3,
    decreases k,
{
    if k > 0 {
        law_few_columns_at_a_time(pending, done, k - 1);
    }
}

/// A column is started only where it is neither complete nor being worked on, and none is left
/// waiting while fewer than three are being worked on.
pub proof fn law_no_column_waits_for_nothing(pending: Seq<bool>, done: Seq<bool>, col: int)
    requires
        pending.len() == 10,
        done.len() == 10,
        0 <= col < 10,
    ensures
        ({
            let started = started_upto(pending, done, 10);
            &&& started.no_duplicates()
            &&& started.contains(col as usize) ==> !pending[col] && !done[col]
            &&& !pending[col] && !done[col] && !started.contains(col as usize) ==> count_set(
                pending,
                10,
            ) + started.len() >= 3
        }),
{
    law_columns_are_the_up_cards(Card::Ace, col);
    started_so_far(pending, done, col, 10);
}

proof fn started_so_far(pending: Seq<bool>, done: Seq<bool>, col: int, k: int)
    requires
        0 <= k <= 10,
        0 <= col < 10,
    ensures
        ({
            let started = started_upto(pending, done, k);
            &&& started.no_duplicates()
            &&& forall|i: int|
                0 <= i < started.len() ==> exists|j: int|
                    0 <= j < k && column_to_solve(j) == (#[trigger] started[i])
            &&& started.contains(col as usize) ==> !pending[col] && !done[col]
            &&& !pending[col] && !done[col] && !started.contains(col as usize) && (exists|j: int|
                0 <= j < k && #[trigger] column_to_solve(j) == col) ==> count_set(pending, 10)
                + started.len() >= 3
        }),
    decreases k,
{
    if k > 0 {
        started_so_far(pending, done, col, k - 1);
        let before = started_upto(pending, done, k - 1);
        let now = started_upto(pending, done, k);
        let added = column_to_solve(k - 1);
        law_columns_are_the_up_cards(Card::Ace, col);
        assert forall|i: int| 0 <= i < now.len() implies exists|j: int|
            0 <= j < k && column_to_solve(j) == (#[trigger] now[i]) by {
            if i < before.len() {
                let j = choose|j: int| 0 <= j < k - 1 && column_to_solve(j) == before[i];
                assert(column_to_solve(j) == now[i]);
            } else {
                assert(column_to_solve(k - 1) == now[i]);
            }
        }
        if before.contains(col as usize) {
            let i = before.index_of(col as usize);
            assert(now[i] == col as usize);
        }
        if now.len() > before.len() {
            assert(now[before.len() as int] == added as usize);
            assert forall|i: int| 0 <= i < before.len() implies before[i] != added as usize by {
                let j = choose|j: int| 0 <= j < k - 1 && column_to_solve(j) == before[i];
                assert(column_to_solve(j) != column_to_solve(k - 1));
            }
            if now.contains(col as usize) && added != col {
                let i = now.index_of(col as usize);
                assert(before[i] == col as usize);
            }
        }
        if exists|j: int| 0 <= j < k && #[trigger] column_to_solve(j) == col {
            let j = choose|j: int| 0 <= j < k && #[trigger] column_to_solve(j) == col;
            if j < k - 1 {
                assert(0 <= j < k - 1 && column_to_solve(j) == col);
            }
        }
    }
}

/// Two charts are solved for the same exactly where the shoe, the rules and, on a finite shoe, the
/// count asked for are the same. The indices do not ask for the count, only for its kind.
pub proof fn law_settings_that_matter(a: Ui, b: Ui)
    ensures
        a.chart_key_spec() == b.chart_key_spec() <==> a.shoe == b.shoe && a.rules == b.rules && (
        a.shoe is Decks ==> a.count_on == b.count_on && (a.count_on ==> a.count == b.count)),
        a.index_basis_spec() == b.index_basis_spec() <==> a.shoe == b.shoe && a.rules == b.rules
            && a.count.system.kind_spec() == b.count.system.kind_spec(),
{
}

/// The sum over the first `k` columns, each by the chance of its up-card.
pub open spec fn edge_sum<N: Scalar>(columns: Seq<Option<Column<N>>>, k: int) -> Option<N>
    decreases k,
{
    if k <= 0 {
        Some(zero::<N>())
    } else {
        match (edge_sum(columns, k - 1), columns[k - 1]) {
            (Some(sum), Some(c)) => Some(
                sum.plus_spec(c.p_up.times_spec(c.edge.value_spec())),
            ),
            _ => None,
        }
    }
}

/// The player's edge over all up-cards, once all columns are there.
pub fn total_edge<N: Scalar>(columns: &Vec<Option<Column<N>>>) -> (r: Option<N>)
    ensures
        r == edge_sum(columns@, columns@.len() as int),
{
    let mut sum: N = from_whole(0);
    let mut i: usize = 0;
    while i < columns.len()
        invariant
            i <= columns.len(),
            edge_sum(columns@, i as int) == Some(sum),
        decreases columns.len() - i,
    {
        match &columns[i] {
            Some(c) => {
                sum = sum.plus(c.p_up.times(c.edge.value()));
            },
            None => {
                proof {
                    edge_needs_all(columns@, i as int, columns@.len() as int);
                }
                return None;
            },
        }
        i += 1;
    }
    Some(sum)
}

/// There is no sum where a column is missing.
proof fn edge_needs_all<N: Scalar>(columns: Seq<Option<Column<N>>>, i: int, k: int)
    requires
        0 <= i < k <= columns.len(),
        columns[i] is None,
    ensures
        edge_sum(columns, k) is None,
    decreases k,
{
    if i < k - 1 {
        edge_needs_all(columns, i, k - 1);
    }
}

} // verus!
