//! The chart on the screen: the tab bar, the panes with their cells, and hands and counts
//! in words.
use crate::column::Column;
use crate::count::CountKind;
use crate::hand::{HandCategory, Move};
use crate::index::Run;
use crate::num::Scalar;
use crate::panes::{up_card, up_card_at, Pane, N_COLUMNS};
use crate::session::{Cursor, Tab};
use crate::shoe::{size, tally_bounds, CardCol, Tally};
use crate::sweep::{flips_between, IndexReport};
use crate::text::{
    push_repeated, push_signed, push_text, repeated, set_right, signed, text_of, to_right,
};
use crate::view::{in_bold, in_ink, move_color, move_ink, said, Face, Ink, Line, LineView, Page};
use vstd::prelude::*;
use vstd::string::*;

verus! {

broadcast use tally_bounds;

/// The tab bar.
pub open spec fn tab_face(active: bool) -> Face {
    if active {
        Face { ink: Ink::Black, bold: true, reversed: false, underlined: false, marked: true }
    } else {
        in_ink(Ink::Gray)
    }
}

/// The tab bar: the names of the views, the one that is shown marked.
pub fn tabs_line<N: Scalar>(tab: Tab) -> (r: Line<N>)
    ensures
        r.view() == seq![
            said::<N>(" 1 Strategy "@, tab_face(tab == Tab::Strategy)),
            said(" "@, in_ink(Ink::Plain)),
            said(" 2 Training "@, tab_face(tab == Tab::Training)),
        ],
{
    let on = Face { ink: Ink::Black, bold: true, reversed: false, underlined: false, marked: true };
    let off = Face::of(Ink::Gray);
    let strategy: bool = tab == Tab::Strategy;
    let mut line = Line::new();
    line.say(" 1 Strategy ", if strategy { on } else { off });
    line.say(" ", Face::of(Ink::Plain));
    line.say(" 2 Training ", if strategy { off } else { on });
    assert(line.view() =~= seq![
        said::<N>(" 1 Strategy "@, tab_face(tab == Tab::Strategy)),
        said(" "@, in_ink(Ink::Plain)),
        said(" 2 Training "@, tab_face(tab == Tab::Training)),
    ]);
    line
}

/// The width that a pane needs: a border, the labels and ten columns.
pub const PANE_WIDTH: u16 = 36;

/// The height that a pane needs: a border, the up-cards and its rows.
pub fn pane_height(pane: Pane) -> (r: u16)
    ensures
        r == pane.row_count() + 3,
{
    pane.n_rows() as u16 + 3
}

/// What a cell of the chart shows.
#[derive(Clone, Copy, Debug, PartialEq, Eq, Structural)]
pub enum CellShow {
    /// The column is not solved yet.
    Pending,
    /// There is no such row.
    Blank,
    /// The recommended move; with a star where it is not best for some hand of the row,
    /// else with a ring where it changes with the count.
    Plays { mv: Move, star: bool, ring: bool },
}

/// Whether the play of a row changes with the count at counts worth marking.
pub open spec fn ringed(report: Option<IndexReport>, cat: HandCategory) -> bool {
    match report {
        Some(r) => match r.cats.at(cat) {
            Some(ci) => flips_between(ci.primary@, r.mark_lo as int, r.mark_hi as int)
                || flips_between(ci.fallback@, r.mark_lo as int, r.mark_hi as int),
            None => false,
        },
        None => false,
    }
}

/// What a cell of the chart shows.
pub open spec fn cell_shows<N: Scalar>(
    column: Option<Column<N>>,
    report: Option<IndexReport>,
    cat: HandCategory,
) -> CellShow {
    match column {
        None => CellShow::Pending,
        Some(c) => match c.summary.at(cat) {
            None => CellShow::Blank,
            Some(cell) => CellShow::Plays {
                mv: cell.headline,
                star: cell.composition_dependent,
                ring: !cell.composition_dependent && ringed(report, cat),
            },
        },
    }
}

/// Whether the play of a row changes with the count at counts worth marking.
pub fn index_dependent(report: &Option<IndexReport>, cat: HandCategory) -> (r: bool)
    requires
        *report matches Some(rep) ==> rep.cats.wf(),
    ensures
        r == ringed(*report, cat),
{
    match report {
        Some(rep) => match rep.cats.get(cat) {
            Some(ci) => ci.count_dependent_in_band(rep.mark_lo, rep.mark_hi),
            None => false,
        },
        None => false,
    }
}

/// What a cell of the chart shows.
pub fn cell_show<N: Scalar>(
    column: &Option<Column<N>>,
    report: &Option<IndexReport>,
    cat: HandCategory,
) -> (r: CellShow)
    requires
        *column matches Some(c) ==> c.summary.wf(),
        *report matches Some(rep) ==> rep.cats.wf(),
    ensures
        r == cell_shows(*column, *report, cat),
{
    match column {
        None => CellShow::Pending,
        Some(c) => match c.summary.get(cat) {
            None => CellShow::Blank,
            Some(cell) => {
                let star: bool = cell.composition_dependent;
                let ring: bool = !star && index_dependent(report, cat);
                CellShow::Plays { mv: cell.headline, star, ring }
            },
        },
    }
}

impl CellShow {
    /// The three characters of the cell.
    pub open spec fn text(self) -> Seq<char> {
        match self {
            CellShow::Pending => " \u{00b7} "@,
            CellShow::Blank => "   "@,
            CellShow::Plays { mv, star, ring } => " "@ + mv.letter_spec() + if star {
                "*"@
            } else if ring {
                "\u{00b0}"@
            } else {
                " "@
            },
        }
    }

    /// The colour of the cell.
    pub open spec fn ink(self) -> Ink {
        match self {
            CellShow::Pending => Ink::DarkGray,
            CellShow::Blank => Ink::Plain,
            CellShow::Plays { mv, star, ring } => move_ink(mv),
        }
    }

    fn to_text(self) -> (r: String)
        ensures
            r@ == self.text(),
    {
        match self {
            CellShow::Pending => text_of(" \u{00b7} "),
            CellShow::Blank => text_of("   "),
            CellShow::Plays { mv, star, ring } => {
                let mut out = text_of(" ");
                push_text(&mut out, mv.letter());
                push_text(
                    &mut out,
                    if star {
                        "*"
                    } else if ring {
                        "\u{00b0}"
                    } else {
                        " "
                    },
                );
                assert(out@ =~= self.text());
                out
            },
        }
    }

    fn color(self) -> (r: Ink)
        ensures
            r == self.ink(),
    {
        match self {
            CellShow::Pending => Ink::DarkGray,
            CellShow::Blank => Ink::Plain,
            CellShow::Plays { mv, .. } => move_color(mv),
        }
    }
}

/// The face of a cell: the selected one is reversed and bold.
pub open spec fn cell_face(ink: Ink, selected: bool) -> Face {
    Face { ink, bold: selected, reversed: selected, underlined: false, marked: false }
}

/// The first `k` up-cards over the columns of a pane, that of the selected column bold and
/// underlined.
pub open spec fn header_upto<N>(active: bool, col: int, k: int) -> LineView<N>
    decreases k,
{
    if k <= 0 {
        seq![said("    "@, in_ink(Ink::Plain))]
    } else {
        let on = active && col == k - 1;
        header_upto::<N>(active, col, k - 1).push(
            said(
                " "@ + up_card_at(k - 1).written() + " "@,
                Face { ink: Ink::Gray, bold: on, reversed: false, underlined: on, marked: false },
            ),
        )
    }
}

/// A row of a pane up to column `k`: its label and the cells.
pub open spec fn row_upto<N: Scalar>(
    pane: Pane,
    active: bool,
    cursor: Cursor,
    columns: Seq<Option<Column<N>>>,
    reports: Seq<Option<IndexReport>>,
    r: int,
    k: int,
) -> LineView<N>
    decreases k,
{
    if k <= 0 {
        seq![said(to_right(pane.label_at(r), 3) + " "@, in_ink(Ink::Plain))]
    } else {
        let show = cell_shows(columns[k - 1], reports[k - 1], pane.row_at(r));
        row_upto(pane, active, cursor, columns, reports, r, k - 1).push(
            said(
                show.text(),
                cell_face(show.ink(), active && r == cursor.row && k - 1 == cursor.col),
            ),
        )
    }
}

/// A pane: the up-cards, and below them its rows.
pub open spec fn pane_page<N: Scalar>(
    pane: Pane,
    active: bool,
    cursor: Cursor,
    columns: Seq<Option<Column<N>>>,
    reports: Seq<Option<IndexReport>>,
) -> Seq<LineView<N>> {
    seq![header_upto::<N>(active, cursor.col as int, 10)] + Seq::new(
        pane.row_count() as nat,
        |r: int| row_upto(pane, active, cursor, columns, reports, r, 10),
    )
}

/// A pane of the chart.
pub fn pane_view<N: Scalar>(
    pane: Pane,
    active: bool,
    cursor: Cursor,
    columns: &Vec<Option<Column<N>>>,
    reports: &Vec<Option<IndexReport>>,
) -> (p: Page<N>)
    requires
        columns.len() == N_COLUMNS,
        reports.len() == N_COLUMNS,
        forall|i: int|
            0 <= i < 10 ==> ((#[trigger] columns@[i]) matches Some(c) ==> c.summary.wf()),
        forall|i: int|
            0 <= i < 10 ==> ((#[trigger] reports@[i]) matches Some(rep) ==> rep.cats.wf()),
    ensures
        p.view() == pane_page(pane, active, cursor, columns@, reports@),
{
    let mut page: Page<N> = Page::new();
    let mut header: Line<N> = Line::of("    ", Face::of(Ink::Plain));
    let mut c: usize = 0;
    while c < N_COLUMNS
        invariant
            c <= 10,
            header.view() == header_upto::<N>(active, cursor.col as int, c as int),
        decreases 10 - c,
    {
        let on: bool = active && cursor.col == c;
        let mut text = text_of(" ");
        push_text(&mut text, up_card(c).to_text().as_str());
        push_text(&mut text, " ");
        assert(text@ =~= " "@ + up_card_at(c as int).written() + " "@);
        header.say(
            text.as_str(),
            Face { ink: Ink::Gray, bold: on, reversed: false, underlined: on, marked: false },
        );
        c += 1;
    }
    page.add(header);
    let ghost goal = pane_page(pane, active, cursor, columns@, reports@);
    let rows = pane.rows();
    let mut r: usize = 0;
    assert(page.view() =~= goal.take(1));
    while r < rows.len()
        invariant
            r <= rows.len(),
            rows.len() == pane.row_count(),
            forall|i: int|
                0 <= i < rows.len() ==> (#[trigger] rows@[i]).0 == pane.row_at(i) && rows@[i].1@
                    == pane.label_at(i),
            columns.len() == N_COLUMNS,
            reports.len() == N_COLUMNS,
            forall|i: int|
                0 <= i < 10 ==> ((#[trigger] columns@[i]) matches Some(c) ==> c.summary.wf()),
            forall|i: int|
                0 <= i < 10 ==> ((#[trigger] reports@[i]) matches Some(rep) ==> rep.cats.wf()),
            goal == pane_page(pane, active, cursor, columns@, reports@),
            page.view() == goal.take(r + 1),
        decreases rows.len() - r,
    {
        let cat = rows[r].0;
        let mut label = set_right(rows[r].1.as_str(), 3);
        push_text(&mut label, " ");
        let mut line: Line<N> = Line::of(label.as_str(), Face::of(Ink::Plain));
        let mut c: usize = 0;
        while c < N_COLUMNS
            invariant
                c <= 10,
                r < rows.len(),
                cat == pane.row_at(r as int),
                columns.len() == N_COLUMNS,
                reports.len() == N_COLUMNS,
                forall|i: int|
                    0 <= i < 10 ==> ((#[trigger] columns@[i]) matches Some(c) ==> c.summary.wf()),
                forall|i: int|
                    0 <= i < 10 ==> ((#[trigger] reports@[i]) matches Some(rep) ==> rep.cats.wf()),
                line.view() == row_upto(
                    pane,
                    active,
                    cursor,
                    columns@,
                    reports@,
                    r as int,
                    c as int,
                ),
            decreases 10 - c,
        {
            assert(columns@[c as int] matches Some(k) ==> k.summary.wf());
            assert(reports@[c as int] matches Some(k) ==> k.cats.wf());
            let show = cell_show(&columns[c], &reports[c], cat);
            let selected: bool = active && r == cursor.row && c == cursor.col;
            line.say(
                show.to_text().as_str(),
                Face {
                    ink: show.color(),
                    bold: selected,
                    reversed: selected,
                    underlined: false,
                    marked: false,
                },
            );
            c += 1;
        }
        page.add(line);
        assert(page.view() =~= goal.take(r + 2));
        r += 1;
    }
    assert(goal.take(r + 1) =~= goal);
    page
}

/// The character of the rank at a place.
pub open spec fn rank_char(r: int) -> char {
    if r == 0 {
        'A'
    } else if r == 1 {
        '2'
    } else if r == 2 {
        '3'
    } else if r == 3 {
        '4'
    } else if r == 4 {
        '5'
    } else if r == 5 {
        '6'
    } else if r == 6 {
        '7'
    } else if r == 7 {
        '8'
    } else if r == 8 {
        '9'
    } else {
        'T'
    }
}

fn char_of_rank(r: usize) -> (c: char)
    ensures
        c == rank_char(r as int),
{
    if r == 0 {
        'A'
    } else if r == 1 {
        '2'
    } else if r == 2 {
        '3'
    } else if r == 3 {
        '4'
    } else if r == 4 {
        '5'
    } else if r == 5 {
        '6'
    } else if r == 6 {
        '7'
    } else if r == 7 {
        '8'
    } else if r == 8 {
        '9'
    } else {
        'T'
    }
}

/// The ranks in the order in which a hand is named: the ace, the ten, the others downwards.
pub open spec fn named_rank(k: int) -> int {
    if k == 0 {
        0
    } else {
        10 - k
    }
}

/// The name of a hand, up to the rank at place `k` of the order.
pub open spec fn hand_name_upto(t: Tally, k: int) -> Seq<char>
    decreases k,
{
    if k <= 0 {
        Seq::empty()
    } else {
        hand_name_upto(t, k - 1) + repeated(
            rank_char(named_rank(k - 1)),
            t[named_rank(k - 1)] as int,
        )
    }
}

/// The name of a hand: its cards, the ace and the tens first.
pub open spec fn hand_name(t: Tally) -> Seq<char> {
    hand_name_upto(t, 10)
}

/// The name of a hand.
pub fn compact_hand_label(hand: &CardCol) -> (r: String)
    ensures
        r@ == hand_name(hand@),
{
    let mut out = String::new();
    let mut k: usize = 0;
    assert(out@ =~= hand_name_upto(hand@, 0));
    while k < 10
        invariant
            k <= 10,
            out@ == hand_name_upto(hand@, k as int),
        decreases 10 - k,
    {
        let r: usize = if k == 0 {
            0
        } else {
            10 - k
        };
        push_repeated(&mut out, char_of_rank(r), hand.get_count_i(r) as usize);
        k += 1;
    }
    out
}

/// The name of a hand has one character for each card.
pub proof fn law_hand_name_has_every_card(t: Tally, k: int)
    requires
        t.len() == 10,
        0 <= k <= 10,
    ensures
        k == 10 ==> hand_name_upto(t, k).len() == size(t),
{
    reveal_with_fuel(hand_name_upto, 11);
}

/// The width of the names of the first `k` hands, with a space between them.
pub open spec fn names_width(hands: Seq<CardCol>, k: int) -> nat
    decreases k,
{
    if k <= 0 {
        0
    } else if k == 1 {
        size(hands[0]@)
    } else {
        names_width(hands, k - 1) + 1 + size(hands[k - 1]@)
    }
}

/// How many names fit in a width: the first always, each other as long as all up to it do.
pub open spec fn names_fitting(hands: Seq<CardCol>, budget: int, k: int) -> int
    decreases hands.len() - k,
{
    if 0 <= k < hands.len() && (k == 0 || names_width(hands, k + 1) <= budget) {
        names_fitting(hands, budget, k + 1)
    } else {
        k
    }
}

/// The names of the first `k` hands, with a space between them.
pub open spec fn joined_names(hands: Seq<CardCol>, k: int) -> Seq<char>
    decreases k,
{
    if k <= 0 {
        Seq::empty()
    } else if k == 1 {
        hand_name(hands[0]@)
    } else {
        joined_names(hands, k - 1) + " "@ + hand_name(hands[k - 1]@)
    }
}

/// Names with a space between them are as wide as is reckoned.
proof fn joined_names_width(hands: Seq<CardCol>, k: int)
    requires
        0 <= k <= hands.len(),
    ensures
        joined_names(hands, k).len() == names_width(hands, k),
    decreases k,
{
    if k > 0 {
        joined_names_width(hands, k - 1);
        law_hand_name_has_every_card(hands[k - 1]@, 10);
        reveal_strlit(" ");
    }
}

/// Names are taken until one does not fit.
proof fn names_are_taken(hands: Seq<CardCol>, budget: int, k: int)
    requires
        0 <= k <= hands.len(),
        k >= 2 ==> names_width(hands, k) <= budget,
    ensures
        ({
            let n = names_fitting(hands, budget, k);
            &&& k <= n <= hands.len()
            &&& k == 0 && hands.len() > 0 ==> n >= 1
            &&& n >= 2 ==> names_width(hands, n) <= budget
            &&& 0 < n < hands.len() ==> names_width(hands, n + 1) > budget
        }),
    decreases hands.len() - k,
{
    if k < hands.len() && (k == 0 || names_width(hands, k + 1) <= budget) {
        names_are_taken(hands, budget, k + 1);
    }
}

/// At least one of several names is shown. Where more than one is, they lie within the
/// width, and where some are left over, the next would not have.
pub proof fn law_names_fill_the_width(hands: Seq<CardCol>, budget: int)
    ensures
        ({
            let n = names_fitting(hands, budget, 0);
            let text = joined_names(hands, n);
            &&& 0 <= n <= hands.len()
            &&& hands.len() > 0 ==> n >= 1
            &&& n >= 2 ==> text.len() <= budget
            &&& 0 < n < hands.len() ==> text.len() + 1 + hand_name(hands[n]@).len() > budget
        }),
{
    let n = names_fitting(hands, budget, 0);
    names_are_taken(hands, budget, 0);
    joined_names_width(hands, n);
    if n < hands.len() {
        law_hand_name_has_every_card(hands[n]@, 10);
    }
}

/// As many names of hands as fit in a width, and how many are left over.
pub fn pack_hand_labels(hands: &Vec<CardCol>, budget: usize) -> (r: (String, usize))
    ensures
        ({
            let n = names_fitting(hands@, budget as int, 0);
            &&& r.0@ == joined_names(hands@, n)
            &&& r.1 == hands@.len() - n
        }),
        r.1 <= hands@.len(),
{
    let mut out = String::new();
    let mut used: usize = 0;
    let mut shown: usize = 0;
    assert(out@ =~= joined_names(hands@, 0));
    while shown < hands.len()
        invariant
            shown <= hands.len(),
            used == names_width(hands@, shown as int),
            shown >= 2 ==> used <= budget,
            shown <= 1 ==> used <= 655350,
            out@ == joined_names(hands@, shown as int),
            names_fitting(hands@, budget as int, shown as int) == names_fitting(
                hands@,
                budget as int,
                0,
            ),
        decreases hands.len() - shown,
    {
        let len: usize = hands[shown].len();
        let need: usize = if shown == 0 {
            len
        } else {
            len + 1
        };
        if shown > 0 && (used > budget || need > budget - used) {
            return (out, hands.len() - shown);
        }
        if shown > 0 {
            push_text(&mut out, " ");
        }
        push_text(&mut out, compact_hand_label(&hands[shown]).as_str());
        assert(out@ =~= joined_names(hands@, shown + 1));
        used = used + need;
        shown = shown + 1;
    }
    (out, 0)
}

/// What is counted: the running count or the true count.
pub open spec fn axis_text(kind: CountKind) -> Seq<char> {
    match kind {
        CountKind::Running => "RC"@,
        CountKind::TrueCount => "TC"@,
    }
}

/// The running counts of a run, as far as they lie within the sweep: a run that reaches its
/// end is open.
pub open spec fn range_text(lo: int, hi: int, wmin: int, wmax: int) -> Seq<char> {
    if lo <= wmin && hi >= wmax {
        "any RC"@
    } else if lo <= wmin {
        "RC \u{2264} "@ + signed(hi)
    } else if hi >= wmax {
        "RC \u{2265} "@ + signed(lo)
    } else if lo == hi {
        "RC = "@ + signed(lo)
    } else {
        "RC "@ + signed(lo) + ".."@ + signed(hi)
    }
}

/// The running counts of a run.
pub fn fmt_rc_range(lo: i16, hi: i16, wmin: i16, wmax: i16) -> (r: String)
    ensures
        r@ == range_text(lo as int, hi as int, wmin as int, wmax as int),
{
    let mut out = String::new();
    if lo <= wmin && hi >= wmax {
        push_text(&mut out, "any RC");
    } else if lo <= wmin {
        push_text(&mut out, "RC \u{2264} ");
        push_signed(&mut out, hi as i64);
    } else if hi >= wmax {
        push_text(&mut out, "RC \u{2265} ");
        push_signed(&mut out, lo as i64);
    } else if lo == hi {
        push_text(&mut out, "RC = ");
        push_signed(&mut out, lo as i64);
    } else {
        push_text(&mut out, "RC ");
        push_signed(&mut out, lo as i64);
        push_text(&mut out, "..");
        push_signed(&mut out, hi as i64);
    }
    assert(out@ =~= range_text(lo as int, hi as int, wmin as int, wmax as int));
    out
}

/// The lower end of the true counts of a run: from its first whole count on, or, where the end
/// is the other run's, from above the last whole count of that one.
pub open spec fn low_end_text(lo: int, own: bool) -> Seq<char> {
    if own {
        "\u{2265} "@ + signed(lo)
    } else {
        "> "@ + signed(lo - 1)
    }
}

/// The upper end of the true counts of a run.
pub open spec fn high_end_text(hi: int, own: bool) -> Seq<char> {
    if own {
        "\u{2264} "@ + signed(hi)
    } else {
        "< "@ + signed(hi + 1)
    }
}

/// The true counts of a run, as far as they lie within the sweep. True counts lie between the
/// whole ones too, so it matters which of two runs owns the end between them.
pub open spec fn true_range_text(
    lo: int,
    hi: int,
    wmin: int,
    wmax: int,
    own_low: bool,
    own_high: bool,
) -> Seq<char> {
    if lo <= wmin && hi >= wmax {
        "any TC"@
    } else if lo <= wmin {
        "TC "@ + high_end_text(hi, own_high)
    } else if hi >= wmax {
        "TC "@ + low_end_text(lo, own_low)
    } else {
        "TC "@ + low_end_text(lo, own_low) + ", "@ + high_end_text(hi, own_high)
    }
}

/// The true counts of a run.
pub fn fmt_tc_range(lo: i16, hi: i16, wmin: i16, wmax: i16, own_low: bool, own_high: bool) -> (r:
    String)
    ensures
        r@ == true_range_text(lo as int, hi as int, wmin as int, wmax as int, own_low, own_high),
{
    let mut out = String::new();
    if lo <= wmin && hi >= wmax {
        push_text(&mut out, "any TC");
    } else {
        push_text(&mut out, "TC ");
        if lo > wmin {
            if own_low {
                push_text(&mut out, "\u{2265} ");
                push_signed(&mut out, lo as i64);
            } else {
                push_text(&mut out, "> ");
                push_signed(&mut out, lo as i64 - 1);
            }
            if hi < wmax {
                push_text(&mut out, ", ");
            }
        }
        if hi < wmax {
            if own_high {
                push_text(&mut out, "\u{2264} ");
                push_signed(&mut out, hi as i64);
            } else {
                push_text(&mut out, "< ");
                push_signed(&mut out, hi as i64 + 1);
            }
        }
    }
    assert(out@ =~= true_range_text(
        lo as int,
        hi as int,
        wmin as int,
        wmax as int,
        own_low,
        own_high,
    ));
    out
}

/// Whether a run deviates from the move without a count.
pub open spec fn deviates(run: Run, basic: Option<Move>) -> bool {
    basic matches Some(mv) && run.0 != mv
}

/// Whether the end between a run and the one before it belongs to it: a deviation owns its
/// ends, of two deviations the upper one.
pub open spec fn owns_low(runs: Seq<Run>, basic: Option<Move>, i: int) -> bool {
    i <= 0 || deviates(runs[i], basic) || !deviates(runs[i - 1], basic)
}

/// Whether the end between a run and the one behind it belongs to it.
pub open spec fn owns_high(runs: Seq<Run>, basic: Option<Move>, i: int) -> bool {
    i >= runs.len() - 1 || !deviates(runs[i + 1], basic)
}

/// Where neighbouring runs are told apart by a move without a count, the end between them
/// belongs to exactly one of them.
pub proof fn law_deviations_own_their_ends(runs: Seq<Run>, mv: Move, i: int)
    requires
        0 <= i < runs.len() - 1,
        runs[i].0 != runs[i + 1].0,
    ensures
        owns_high(runs, Some(mv), i) != owns_low(runs, Some(mv), i + 1),
        runs[i].0 == mv ==> owns_low(runs, Some(mv), i + 1),
        runs[i + 1].0 == mv ==> owns_high(runs, Some(mv), i),
{
}

/// The counts of the run at place `i`.
pub open spec fn counts_text(
    kind: CountKind,
    runs: Seq<Run>,
    basic: Option<Move>,
    i: int,
    wmin: int,
    wmax: int,
) -> Seq<char> {
    match kind {
        CountKind::Running => range_text(runs[i].1 as int, runs[i].2 as int, wmin, wmax),
        CountKind::TrueCount => true_range_text(
            runs[i].1 as int,
            runs[i].2 as int,
            wmin,
            wmax,
            owns_low(runs, basic, i),
            owns_high(runs, basic, i),
        ),
    }
}

fn is_deviation(run: Run, basic: Option<Move>) -> (r: bool)
    ensures
        r == deviates(run, basic),
{
    match basic {
        Some(mv) => run.0 != mv,
        None => false,
    }
}

/// The counts of the run at place `i`.
pub fn fmt_run_range(
    kind: CountKind,
    runs: &Vec<Run>,
    basic: Option<Move>,
    i: usize,
    wmin: i16,
    wmax: i16,
) -> (r: String)
    requires
        i < runs.len(),
    ensures
        r@ == counts_text(kind, runs@, basic, i as int, wmin as int, wmax as int),
{
    let (_, lo, hi) = runs[i];
    match kind {
        CountKind::Running => fmt_rc_range(lo, hi, wmin, wmax),
        CountKind::TrueCount => {
            let here: bool = is_deviation(runs[i], basic);
            let own_low: bool = i == 0 || here || !is_deviation(runs[i - 1], basic);
            let own_high: bool = i == runs.len() - 1 || !is_deviation(runs[i + 1], basic);
            fmt_tc_range(lo, hi, wmin, wmax, own_low, own_high)
        },
    }
}

/// Whether the player's count lies in a run.
pub open spec fn is_here(run: Run, here: Option<i16>) -> bool {
    here matches Some(e) && run.1 <= e <= run.2
}

/// The spaces before the marker of a line: the marker is the last column of the indent, where
/// there is one.
pub open spec fn before_marker(indent: int) -> int {
    if indent <= 0 {
        0
    } else {
        indent - 1
    }
}

/// The line of a run: the move and the counts. The run that the player's count lies in is
/// bold and pointed at.
pub open spec fn run_line<N>(
    kind: CountKind,
    runs: Seq<Run>,
    basic: Option<Move>,
    i: int,
    wmin: int,
    wmax: int,
    here: Option<i16>,
    indent: int,
) -> LineView<N> {
    let run = runs[i];
    let on = is_here(run, here);
    seq![
        said(
            repeated(' ', before_marker(indent)) + (if on {
                "\u{203a}"@
            } else {
                " "@
            }) + run.0.letter_spec() + "  "@,
            in_bold(move_ink(run.0), on),
        ),
        said(
            counts_text(kind, runs, basic, i, wmin, wmax),
            in_bold(
                if on {
                    Ink::White
                } else {
                    Ink::Gray
                },
                on,
            ),
        ),
    ]
}

/// The line of a run.
pub fn rc_run_line<N: Scalar>(
    kind: CountKind,
    runs: &Vec<Run>,
    basic: Option<Move>,
    i: usize,
    wmin: i16,
    wmax: i16,
    here: Option<i16>,
    indent: usize,
) -> (r: Line<N>)
    requires
        i < runs.len(),
    ensures
        r.view() == run_line::<N>(
            kind,
            runs@,
            basic,
            i as int,
            wmin as int,
            wmax as int,
            here,
            indent as int,
        ),
{
    let (mv, lo, hi) = runs[i];
    let on: bool = match here {
        Some(e) => lo <= e && e <= hi,
        None => false,
    };
    let mut head = String::new();
    let pad: usize = if indent == 0 {
        0
    } else {
        indent - 1
    };
    push_repeated(&mut head, ' ', pad);
    push_text(&mut head, if on { "\u{203a}" } else { " " });
    push_text(&mut head, mv.letter());
    push_text(&mut head, "  ");
    let mut line: Line<N> = Line::new();
    line.say(head.as_str(), Face::bold(move_color(mv), on));
    line.say(
        fmt_run_range(kind, runs, basic, i, wmin, wmax).as_str(),
        Face::bold(
            if on {
                Ink::White
            } else {
                Ink::Gray
            },
            on,
        ),
    );
    proof {
        let want = run_line::<N>(
            kind,
            runs@,
            basic,
            i as int,
            wmin as int,
            wmax as int,
            here,
            indent as int,
        );
        assert(head@ =~= repeated(' ', before_marker(indent as int)) + (if on {
            "\u{203a}"@
        } else {
            " "@
        }) + mv.letter_spec() + "  "@);
        assert(line.view() =~= want);
    }
    line
}

} // verus!
