//! What the pages of the trainer tell, and what they do not.
use crate::card::Card;
use crate::chart::CellInfo;
use crate::chartview::{cell_shows, header_upto, is_here, pane_page, row_upto, CellShow};
use crate::column::Column;
use crate::drill::Notice;
use crate::exact::{exact, exact_whole};
use crate::grading::{DecisionMark, RefScore};
use crate::hand::{move_at, HandCategory, Move};
use crate::index::Run;
use crate::num::Scalar;
use crate::panes::{up_card_at, Pane};
use crate::rules::Ruleset;
use crate::schedule::edge_sum;
use crate::session::Cursor;
use crate::sweep::{flips_between, IndexReport};
use crate::trainview::{
    dealer_line, dealer_upto, feedback_page, felt_page, hands_upto, hints_upto, reference_line,
    score_line,
};
use crate::training::TableView;
use crate::view::{LineView, WordView};
use vstd::prelude::*;

verus! {

proof fn same_dealer_cards<N: Scalar>(a: Seq<Card>, b: Seq<Card>, k: int)
    requires
        a.len() == b.len(),
        0 <= k <= a.len(),
        forall|i: int| 0 <= i < a.len() && i != 1 ==> #[trigger] a[i] == b[i],
    ensures
        dealer_upto::<N>(a, true, k) == dealer_upto::<N>(b, true, k),
    decreases k,
{
    if k > 0 {
        same_dealer_cards::<N>(a, b, k - 1);
        if k - 1 != 1 {
            assert(a[k - 1] == b[k - 1]);
        }
    }
}

proof fn same_hands<N: Scalar>(v: TableView<N>, w: TableView<N>, width: nat, k: int)
    requires
        v.hands == w.hands,
        v.phase == w.phase,
        v.active == w.active,
    ensures
        hands_upto(v, width, k) == hands_upto(w, width, k),
    decreases k,
{
    if k > 0 {
        same_hands(v, w, width, k - 1);
    }
}

proof fn same_hints<N: Scalar>(v: TableView<N>, w: TableView<N>, rules: Ruleset, k: int)
    requires
        v.hands == w.hands,
        v.active == w.active,
    ensures
        hints_upto(v, rules, k) == hints_upto(w, rules, k),
    decreases k,
{
    if k > 0 {
        same_hints(v, w, rules, k - 1);
        assert(v.allows(move_at(k - 1), rules) == w.allows(move_at(k - 1), rules));
    }
}

/// Nothing on the felt tells the hole card while it is face down, nor the cards left in the shoe,
/// nor the count: tables that differ in these alone look the same.
pub proof fn law_hole_card_is_not_shown<N: Scalar>(
    v: TableView<N>,
    w: TableView<N>,
    notice: Notice<N>,
    rules: Ruleset,
    width: nat,
)
    requires
        v.hole_down,
        w.hole_down,
        v.hands == w.hands,
        v.phase == w.phase,
        v.active == w.active,
        v.dealer.len() == w.dealer.len(),
        v.dealer.len() == 2,
        v.dealer[0] == w.dealer[0],
    ensures
        felt_page(v, notice, rules, width) == felt_page(w, notice, rules, width),
{
    assert forall|i: int| 0 <= i < v.dealer.len() && i != 1 implies #[trigger] v.dealer[i]
        == w.dealer[i] by {}
    same_dealer_cards::<N>(v.dealer, w.dealer, 2);
    assert(v.dealer.take(1) =~= w.dealer.take(1));
    assert(dealer_line::<N>(v.dealer, true, width) == dealer_line::<N>(w.dealer, true, width));
    same_hands(v, w, width, v.hands.len() as int);
    same_hints(v, w, rules, 5);
}

/// The line of a reference ticks its play exactly where the move chosen is the same.
pub proof fn law_feedback_ticks_agreement<N: Scalar>(name: Seq<char>, mv: Move, chosen: Move)
    ensures
        reference_line::<N>(name, mv, chosen).len() == 2,
        mv == chosen ==> reference_line::<N>(name, mv, chosen)[1] == crate::view::said::<N>(
            "\u{2713}"@ + " "@ + mv.name_spec(),
            crate::view::in_ink(crate::view::Ink::Green),
        ),
        mv != chosen ==> reference_line::<N>(name, mv, chosen)[1] == crate::view::said::<N>(
            "\u{2717}"@ + " "@ + mv.name_spec(),
            crate::view::in_ink(crate::view::Ink::Red),
        ),
{
}

/// The feedback on a decision has a line for each reference with the play of that reference.
pub proof fn law_feedback_tells_every_reference<N: Scalar>(m: DecisionMark<N>, grading: bool)
    ensures
        ({
            let page = feedback_page(Some(m), grading);
            &&& page[1] == reference_line::<N>("simple"@, m.simple.mv, m.chosen)
            &&& page[2] == reference_line::<N>("basic"@, m.basic.mv, m.chosen)
            &&& m.indexed matches Some(p) ==> page[3] == reference_line::<N>(
                "indexed"@,
                p.mv,
                m.chosen,
            )
            &&& page[4] == reference_line::<N>("optimal"@, m.optimal.mv, m.chosen)
        }),
{
}

/// What a cell shows: a star exactly where the row is not played alike by all its hands, a ring
/// exactly where it is and its play changes with the count at a count worth marking, and the
/// headline in either case. A column that is not solved shows nothing of it.
pub proof fn law_cells_show_what_matters<N: Scalar>(
    c: Column<N>,
    report: Option<IndexReport>,
    cat: HandCategory,
    cell: CellInfo<N>,
)
    requires
        c.summary.at(cat) == Some(cell),
    ensures
        match cell_shows(Some(c), report, cat) {
            CellShow::Plays { mv, star, ring } => {
                &&& mv == cell.headline
                &&& star <==> cell.composition_dependent
                &&& ring ==> !star
                &&& !cell.composition_dependent ==> (ring <==> (report matches Some(rep) && (
                rep.cats.at(cat) matches Some(ci) && (flips_between(
                    ci.primary@,
                    rep.mark_lo as int,
                    rep.mark_hi as int,
                ) || flips_between(ci.fallback@, rep.mark_lo as int, rep.mark_hi as int)))))
            },
            _ => false,
        },
        cell_shows::<N>(None, report, cat) == CellShow::Pending,
{
}

/// Of runs that follow each other, the player's count lies in one at most.
pub proof fn law_one_run_is_here(runs: Seq<Run>, here: i16, i: int, j: int)
    requires
        forall|k: int| 0 <= k < runs.len() - 1 ==> (#[trigger] runs[k]).2 < runs[k + 1].1,
        forall|k: int| 0 <= k < runs.len() ==> (#[trigger] runs[k]).1 <= runs[k].2,
        0 <= i < j < runs.len(),
    ensures
        !(is_here(runs[i], Some(here)) && is_here(runs[j], Some(here))),
        is_here(runs[i], Some(here)) <==> runs[i].1 <= here <= runs[i].2,
        !is_here(runs[i], None),
{
    runs_are_apart(runs, i, j);
}

proof fn runs_are_apart(runs: Seq<Run>, i: int, j: int)
    requires
        forall|k: int| 0 <= k < runs.len() - 1 ==> (#[trigger] runs[k]).2 < runs[k + 1].1,
        forall|k: int| 0 <= k < runs.len() ==> (#[trigger] runs[k]).1 <= runs[k].2,
        0 <= i < j < runs.len(),
    ensures
        runs[i].2 < runs[j].1,
    decreases j - i,
{
    assert(runs[i].2 < runs[i + 1].1);
    if i + 1 < j {
        runs_are_apart(runs, i + 1, j);
        assert(runs[i + 1].1 <= runs[i + 1].2);
    }
}

/// What the first `k` columns bring, each as often as its up-card comes.
pub open spec fn columns_bring<N: Scalar>(
    val: spec_fn(N) -> real,
    columns: Seq<Option<Column<N>>>,
    k: int,
) -> real
    decreases k,
{
    if k <= 0 {
        0real
    } else {
        columns_bring(val, columns, k - 1) + val(columns[k - 1]->0.p_up) * (val(
            columns[k - 1]->0.edge.weighted_ev,
        ) - (1real - val(columns[k - 1]->0.edge.weight)))
    }
}

/// In an exact arithmetic the edge is told exactly once every column is there, and is what the
/// columns bring, each as often as its up-card comes, with the rounds that a dealer's natural has
/// ended counted as lost.
pub proof fn law_edge_is_the_average_of_the_columns<N: Scalar>(
    val: spec_fn(N) -> real,
    columns: Seq<Option<Column<N>>>,
    k: int,
)
    requires
        exact(val),
        0 <= k <= columns.len(),
    ensures
        edge_sum(columns, k) is Some <==> forall|i: int| 0 <= i < k ==> #[trigger] columns[i] is Some,
        edge_sum(columns, k) matches Some(e) ==> val(e) == columns_bring(val, columns, k),
    decreases k,
{
    exact_whole::<N>(val, 0);
    exact_whole::<N>(val, 1);
    if k > 0 {
        law_edge_is_the_average_of_the_columns(val, columns, k - 1);
    }
}

/// The cell of a row of the chart under an up-card tells the play of that row against that
/// up-card, and stands under the card. Only the cell at the cursor stands out, and only while the
/// pane is the one in use.
pub proof fn law_cells_stand_under_their_up_card<N: Scalar>(
    pane: Pane,
    active: bool,
    cursor: Cursor,
    columns: Seq<Option<Column<N>>>,
    reports: Seq<Option<IndexReport>>,
    r: int,
    col: int,
)
    requires
        0 <= r < pane.row_count(),
        0 <= col < 10,
    ensures
        ({
            let page = pane_page(pane, active, cursor, columns, reports);
            let show = cell_shows(columns[col], reports[col], pane.row_at(r));
            let cell = page[1 + r][1 + col];
            &&& page.len() == 1 + pane.row_count()
            &&& page[0].len() == 11 && page[1 + r].len() == 11
            &&& page[0][1 + col].word == WordView::<N>::Text(
                " "@ + up_card_at(col).written() + " "@,
            )
            &&& cell.word == WordView::<N>::Text(show.text())
            &&& cell.face.ink == show.ink()
            &&& cell.face.reversed <==> active && cursor.row == r && cursor.col == col
            &&& page[0][1 + col].face.underlined <==> active && cursor.col == col
        }),
{
    header_cell::<N>(active, cursor.col as int, col, 10);
    row_cell(pane, active, cursor, columns, reports, r, col, 10);
}

proof fn header_cell<N>(active: bool, at: int, col: int, k: int)
    requires
        0 <= k <= 10,
        0 <= col,
    ensures
        header_upto::<N>(active, at, k).len() == k + 1,
        col < k ==> ({
            let piece = header_upto::<N>(active, at, k)[1 + col];
            &&& piece.word == WordView::<N>::Text(" "@ + up_card_at(col).written() + " "@)
            &&& piece.face.underlined <==> active && at == col
        }),
    decreases k,
{
    if k > 0 {
        header_cell::<N>(active, at, col, k - 1);
    }
}

proof fn row_cell<N: Scalar>(
    pane: Pane,
    active: bool,
    cursor: Cursor,
    columns: Seq<Option<Column<N>>>,
    reports: Seq<Option<IndexReport>>,
    r: int,
    col: int,
    k: int,
)
    requires
        0 <= k <= 10,
        0 <= col,
    ensures
        row_upto(pane, active, cursor, columns, reports, r, k).len() == k + 1,
        col < k ==> ({
            let show = cell_shows(columns[col], reports[col], pane.row_at(r));
            let cell = row_upto(pane, active, cursor, columns, reports, r, k)[1 + col];
            &&& cell.word == WordView::<N>::Text(show.text())
            &&& cell.face.ink == show.ink()
            &&& cell.face.reversed <==> active && cursor.row == r && cursor.col == col
        }),
    decreases k,
{
    if k > 0 {
        row_cell(pane, active, cursor, columns, reports, r, col, k - 1);
    }
}

/// The number that stands at a place of a line.
pub open spec fn number_at<N>(line: LineView<N>, i: int) -> Option<N> {
    match line[i].word {
        WordView::Number(x, _) => Some(x),
        _ => None,
    }
}

/// In an exact arithmetic the line of a reference tells how many of a hundred decisions agree, what
/// its play is worth and what the player is ahead of it, which with the worth of its play is the
/// worth of the player's. Both are told for a hundred rounds too.
pub proof fn law_scores_are_told_in_numbers<N: Scalar>(val: spec_fn(N) -> real, s: RefScore<N>)
    requires
        exact(val),
        s.decisions > 0,
        s.rounds > 0,
    ensures
        ({
            let line = score_line(s);
            &&& line.len() == 9
            &&& number_at(line, 1) matches Some(x) && val(x) * (s.decisions as real) == 100real * (
            s.agree as real)
            &&& number_at(line, 3) matches Some(x) && val(x) == val(s.ev)
            &&& number_at(line, 4) matches Some(x) && val(x) * (s.rounds as real) == 100real * val(
                s.ev,
            )
            &&& number_at(line, 6) matches Some(x) && val(x) + val(s.ev) == val(s.player_ev)
            &&& number_at(line, 7) matches Some(x) && val(x) * (s.rounds as real) == 100real * (val(
                s.player_ev,
            ) - val(s.ev))
        }),
{
    exact_whole::<N>(val, 100);
    exact_whole::<N>(val, s.rounds as i64);
    let line = score_line(s);
    let gap = s.player_ev.minus_spec(s.ev);
    assert(number_at(line, 1) == Some(
        N::ratio_spec((100 * s.agree) as i64, s.decisions as i64),
    ));
    assert(number_at(line, 4) == Some(crate::trainview::per_bet_spec(s.ev, s.rounds)));
    assert(number_at(line, 7) == Some(crate::trainview::per_bet_spec(gap, s.rounds)));
    part_of(100real * (s.agree as real), s.decisions as real);
    part_of(100real * val(s.ev), s.rounds as real);
    part_of(100real * val(gap), s.rounds as real);
    assert(((100 * s.agree) as i64) as real == 100real * (s.agree as real));
}

proof fn part_of(x: real, n: real)
    requires
        n > 0real,
    ensures
        (x / n) * n == x,
{
    assert((x / n) * n == x) by (nonlinear_arith)
        requires
            n > 0real,
    ;
}

} // verus!
