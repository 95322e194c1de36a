//! The layout of the chart: its columns, and the rows of its three panes.
use crate::card::Card;
use crate::hand::HandCategory;
use crate::text::{decimal, push_decimal, push_text};
use vstd::prelude::*;
use vstd::string::*;

verus! {

/// The number of columns.
pub const N_COLUMNS: usize = 10;

/// The up-card of a column: the numeral cards, the ten, the ace.
pub open spec fn up_card_at(col: int) -> Card {
    if col < 8 {
        Card::Pip((col + 2) as u8)
    } else if col == 8 {
        Card::Ten
    } else {
        Card::Ace
    }
}

/// The up-card of a column.
pub fn up_card(col: usize) -> (r: Card)
    requires
        col < N_COLUMNS,
    ensures
        r == up_card_at(col as int),
        r.valid(),
{
    if col < 8 {
        Card::Pip((col + 2) as u8)
    } else if col == 8 {
        Card::Ten
    } else {
        Card::Ace
    }
}

/// The column that is solved at a place of the order of work: the ace first, then
/// the others from the left. The earlier ones take longer.
pub open spec fn column_to_solve(k: int) -> int {
    if k == 0 {
        9
    } else {
        k - 1
    }
}

/// The columns in the order of work.
pub fn solve_order() -> (r: [usize; 10])
    ensures
        forall|k: int| 0 <= k < 10 ==> #[trigger] r@[k] == column_to_solve(k),
{
    [9, 0, 1, 2, 3, 4, 5, 6, 7, 8]
}

/// Every column has its own up-card, every up-card its column, and every column is
/// solved once.
pub proof fn law_columns_are_the_up_cards(card: Card, col: int)
    requires
        card.valid(),
        0 <= col < 10,
    ensures
        up_card_at(col).valid(),
        exists|c: int| 0 <= c < 10 && #[trigger] up_card_at(c) == card,
        forall|c: int| 0 <= c < 10 && c != col ==> #[trigger] up_card_at(c) != up_card_at(col),
        exists|k: int| 0 <= k < 10 && #[trigger] column_to_solve(k) == col,
        forall|j: int, k: int|
            0 <= j < k < 10 ==> #[trigger] column_to_solve(j) != #[trigger] column_to_solve(k),
{
    let c: int = match card {
        Card::Pip(n) => n - 2,
        Card::Ten => 8,
        Card::Ace => 9,
    };
    assert(up_card_at(c) == card);
    let k: int = if col == 9 {
        0
    } else {
        col + 1
    };
    assert(column_to_solve(k) == col);
}

/// The panes of the chart.
#[derive(Clone, Copy, Debug, PartialEq, Eq, Structural)]
pub enum Pane {
    Hard,
    Soft,
    Pairs,
}

/// How many panes there are.
pub const N_PANES: usize = 3;

/// The pane at a place from the left.
pub open spec fn pane_at(i: int) -> Pane {
    if i <= 0 {
        Pane::Hard
    } else if i == 1 {
        Pane::Soft
    } else {
        Pane::Pairs
    }
}

/// The pane at a place from the left.
pub fn nth_pane(i: usize) -> (r: Pane)
    ensures
        r == pane_at(i as int),
{
    if i == 0 {
        Pane::Hard
    } else if i == 1 {
        Pane::Soft
    } else {
        Pane::Pairs
    }
}

impl Pane {
    pub open spec fn title_spec(self) -> Seq<char> {
        match self {
            Pane::Hard => "HARD"@,
            Pane::Soft => "SOFT"@,
            Pane::Pairs => "PAIRS"@,
        }
    }

    /// How many rows the pane has: the hard totals from 5 to 21, the soft totals
    /// from 13 to 21, the ten pairs.
    pub open spec fn row_count(self) -> int {
        match self {
            Pane::Hard => 17,
            Pane::Soft => 9,
            Pane::Pairs => 10,
        }
    }

    /// The row at a place from the top.
    pub open spec fn row_at(self, i: int) -> HandCategory {
        match self {
            Pane::Hard => HandCategory::Hard((5 + i) as u8),
            Pane::Soft => HandCategory::Soft((13 + i) as u8),
            Pane::Pairs => HandCategory::Pair(up_card_at(i)),
        }
    }

    /// What is written in front of the row at a place from the top.
    pub open spec fn label_at(self, i: int) -> Seq<char> {
        match self {
            Pane::Hard => decimal(5 + i),
            Pane::Soft => if 13 + i < 21 {
                "A"@ + decimal(2 + i)
            } else {
                "AT"@
            },
            Pane::Pairs => up_card_at(i).written() + up_card_at(i).written(),
        }
    }

    /// The title of the pane.
    pub fn title(self) -> (r: &'static str)
        ensures
            r@ == self.title_spec(),
    {
        match self {
            Pane::Hard => "HARD",
            Pane::Soft => "SOFT",
            Pane::Pairs => "PAIRS",
        }
    }

    /// How many rows the pane has.
    pub fn n_rows(self) -> (r: usize)
        ensures
            r == self.row_count(),
    {
        match self {
            Pane::Hard => 17,
            Pane::Soft => 9,
            Pane::Pairs => 10,
        }
    }

    /// The row at a place from the top, and what is written in front of it.
    pub fn row(self, i: usize) -> (r: (HandCategory, String))
        requires
            i < self.row_count(),
        ensures
            r.0 == self.row_at(i as int),
            r.1@ == self.label_at(i as int),
    {
        let mut label = String::new();
        match self {
            Pane::Hard => {
                let n: usize = 5 + i;
                push_decimal(&mut label, n as i64);
                assert(label@ =~= self.label_at(i as int));
                (HandCategory::Hard(n as u8), label)
            },
            Pane::Soft => {
                let n: usize = 13 + i;
                if n < 21 {
                    push_text(&mut label, "A");
                    push_decimal(&mut label, n as i64 - 11);
                } else {
                    push_text(&mut label, "AT");
                }
                assert(label@ =~= self.label_at(i as int));
                (HandCategory::Soft(n as u8), label)
            },
            Pane::Pairs => {
                let card = up_card(i);
                push_text(&mut label, card.to_text().as_str());
                push_text(&mut label, card.to_text().as_str());
                assert(label@ =~= self.label_at(i as int));
                (HandCategory::Pair(card), label)
            },
        }
    }

    /// The rows of the pane from the top, each with what is written in front of it.
    pub fn rows(self) -> (r: Vec<(HandCategory, String)>)
        ensures
            r.len() == self.row_count(),
            forall|i: int|
                0 <= i < r.len() ==> (#[trigger] r@[i]).0 == self.row_at(i) && r@[i].1@
                    == self.label_at(i),
    {
        let mut out: Vec<(HandCategory, String)> = Vec::new();
        let mut i: usize = 0;
        while i < self.n_rows()
            invariant
                i <= self.row_count(),
                out.len() == i,
                forall|j: int|
                    0 <= j < i ==> (#[trigger] out@[j]).0 == self.row_at(j) && out@[j].1@
                        == self.label_at(j),
            decreases self.row_count() - i,
        {
            out.push(self.row(i));
            i += 1;
        }
        out
    }
}

/// The rows of the chart without splits: those of the hard and the soft pane.
pub open spec fn light_row(i: int) -> HandCategory {
    if i < 17 {
        Pane::Hard.row_at(i)
    } else {
        Pane::Soft.row_at(i - 17)
    }
}

/// The rows of the chart in two parts: those that need no split to be solved, and
/// the pairs.
pub fn index_categories() -> (r: (Vec<HandCategory>, Vec<HandCategory>))
    ensures
        r.0@ == Seq::new(26, |i: int| light_row(i)),
        r.1@ == Seq::new(10, |i: int| Pane::Pairs.row_at(i)),
{
    let mut light: Vec<HandCategory> = Vec::new();
    let mut n: u8 = 5;
    while n <= 21
        invariant
            5 <= n <= 22,
            light.len() == n - 5,
            forall|j: int| 0 <= j < light.len() ==> #[trigger] light@[j] == light_row(j),
        decreases 22 - n,
    {
        light.push(HandCategory::Hard(n));
        n += 1;
    }
    n = 13;
    while n <= 21
        invariant
            13 <= n <= 22,
            light.len() == 17 + n - 13,
            forall|j: int| 0 <= j < light.len() ==> #[trigger] light@[j] == light_row(j),
        decreases 22 - n,
    {
        light.push(HandCategory::Soft(n));
        n += 1;
    }
    let mut pairs: Vec<HandCategory> = Vec::new();
    let mut i: usize = 0;
    while i < N_COLUMNS
        invariant
            i <= 10,
            pairs.len() == i,
            forall|j: int| 0 <= j < i ==> #[trigger] pairs@[j] == Pane::Pairs.row_at(j),
        decreases 10 - i,
    {
        pairs.push(HandCategory::Pair(up_card(i)));
        i += 1;
    }
    assert(light@ =~= Seq::new(26, |i: int| light_row(i)));
    assert(pairs@ =~= Seq::new(10, |i: int| Pane::Pairs.row_at(i)));
    (light, pairs)
}

/// No row is in the chart twice.
pub proof fn law_rows_are_distinct(p: int, i: int, q: int, j: int)
    requires
        0 <= p < 3,
        0 <= q < 3,
        0 <= i < pane_at(p).row_count(),
        0 <= j < pane_at(q).row_count(),
        p != q || i != j,
    ensures
        pane_at(p).row_at(i) != pane_at(q).row_at(j),
{
}

} // verus!
