//! The panels of the strategy tab: the values of a cell, the rules, the count, and the
//! status lines below the chart.
use crate::card::Card;
use crate::chart::CellInfo;
use crate::chartview::{
    axis_text, joined_names, names_fitting, pack_hand_labels, rc_run_line, run_line,
};
use crate::config::{halves_text, CountSetting, ShoeChoice};
use crate::count::CountKind;
use crate::hand::{listed_move, move_at, move_name, HandCategory, Move, MoveEvs};
use crate::index::Run;
use crate::num::{from_whole, whole, Scalar};
use crate::rules::{BjPayout, Ruleset, SurrenderRule};
use crate::session::Ui;
use crate::shoe::{tally_bounds, CardCol};
use crate::sweep::{start_only_upto, CategoryIndex, IndexReport};
use crate::text::{
    decimal, digits, in_middle, push_count, push_decimal, push_text, set_left, set_middle, signed,
    text_of, to_left,
};
use crate::view::{
    ev_color, figure, in_bold, in_ink, move_color, move_ink, said, value_ink, yn, yn_spec, Digits,
    Face, Ink, Line, LineView, Page,
};
use vstd::prelude::*;
use vstd::string::*;

verus! {

broadcast use tally_bounds;

/// The width of the panel with the values of a cell.
pub const POPUP_WIDTH: u16 = 48;

/// The value of one move: its name and the value, both bold and starred for the best.
pub open spec fn value_line<N: Scalar>(mv: Move, ev: N, is_best: bool) -> LineView<N> {
    let face = in_bold(value_ink(ev), is_best);
    let line = seq![
        said("  "@ + to_left(mv.name_spec(), 10), in_bold(move_ink(mv), is_best)),
        figure(ev, Digits { places: 4, signed: true, width: 0 }, face),
    ];
    if is_best {
        line.push(said(" *"@, face))
    } else {
        line
    }
}

/// The values of the first `k` moves in the order of listing.
pub open spec fn values_upto<N: Scalar>(evs: MoveEvs<N>, headline: Move, k: int) -> Seq<LineView<N>>
    decreases k,
{
    if k <= 0 {
        Seq::empty()
    } else {
        let so_far = values_upto(evs, headline, k - 1);
        match evs.at(move_at(k - 1)) {
            Some(ev) => so_far.push(value_line(move_at(k - 1), ev, move_at(k - 1) == headline)),
            None => so_far,
        }
    }
}

/// A rule across the panel with a title in it.
pub open spec fn rule_line<N>(title: Seq<char>) -> LineView<N> {
    seq![said(" "@ + in_middle(title, '\u{2500}', 45), in_ink(Ink::DarkGray))]
}

/// The hands whose best play is one move: as many names as fit, and how many do not.
pub open spec fn group_line<N>(mv: Move, hands: Seq<CardCol>) -> LineView<N> {
    let n = names_fitting(hands, 41, 0);
    let left = hands.len() - n;
    seq![
        said("  "@ + mv.letter_spec() + "  "@, in_bold(move_ink(mv), true)),
        said(joined_names(hands, n), in_ink(Ink::Plain)),
        said(
            if left > 0 {
                " +"@ + digits(left as nat)
            } else {
                ""@
            },
            in_ink(Ink::DarkGray),
        ),
    ]
}

/// The first `k` groups of hands.
pub open spec fn groups_upto<N>(groups: Seq<(Move, Vec<CardCol>)>, k: int) -> Seq<LineView<N>>
    decreases k,
{
    if k <= 0 {
        Seq::empty()
    } else {
        groups_upto::<N>(groups, k - 1).push(group_line(groups[k - 1].0, groups[k - 1].1@))
    }
}

/// What the panel says of a cell: the values of its moves, and where the best play is not
/// the same for all hands, which hands play what.
pub open spec fn cell_lines<N: Scalar>(cell: Option<CellInfo<N>>) -> Seq<LineView<N>> {
    match cell {
        None => seq![seq![said("computing\u{2026}"@, in_ink(Ink::Plain))]],
        Some(c) => values_upto(c.move_evs, c.headline, 5) + if c.breakdown@.len() > 1 {
            seq![rule_line(" by hand "@)] + groups_upto(
                c.breakdown@,
                c.breakdown@.len() as int,
            )
        } else {
            Seq::empty()
        },
    }
}

/// The lines of the first `k` runs.
pub open spec fn runs_upto<N>(
    kind: CountKind,
    runs: Seq<Run>,
    basic: Option<Move>,
    wmin: int,
    wmax: int,
    here: Option<i16>,
    indent: int,
    k: int,
) -> Seq<LineView<N>>
    decreases k,
{
    if k <= 0 {
        Seq::empty()
    } else {
        runs_upto::<N>(kind, runs, basic, wmin, wmax, here, indent, k - 1).push(
            run_line(kind, runs, basic, k - 1, wmin, wmax, here, indent),
        )
    }
}

pub open spec fn lower_name(mv: Move) -> Seq<char> {
    match mv {
        Move::Hit => "hit"@,
        Move::Stand => "stand"@,
        Move::Double => "double"@,
        Move::Split => "split"@,
        Move::Surrender => "surrender"@,
    }
}

fn lower_case_name(mv: Move) -> (r: &'static str)
    ensures
        r@ == lower_name(mv),
{
    match mv {
        Move::Hit => "hit",
        Move::Stand => "stand",
        Move::Double => "double",
        Move::Split => "split",
        Move::Surrender => "surrender",
    }
}

/// The words above the runs that apply when the headline is no longer offered.
pub open spec fn fallback_words(moves: Seq<Move>) -> Seq<char> {
    if moves.len() == 1 {
        "  if can't "@ + lower_name(moves[0]) + ":"@
    } else {
        "  if start move unavailable:"@
    }
}

/// The indices of a row: the runs of its headline, and below them those that apply when it
/// is no longer offered.
pub open spec fn index_lines<N>(
    kind: CountKind,
    ci: CategoryIndex,
    wmin: int,
    wmax: int,
    here: Option<i16>,
) -> Seq<LineView<N>> {
    let primary = runs_upto::<N>(
        kind,
        ci.primary@,
        ci.basic,
        wmin,
        wmax,
        here,
        2,
        ci.primary@.len() as int,
    );
    if ci.fallback@.len() == 0 {
        primary
    } else {
        primary.push(
            seq![
                said(
                    fallback_words(start_only_upto(ci.primary@, ci.primary@.len() as int)),
                    in_ink(Ink::DarkGray),
                ),
            ],
        ) + runs_upto::<N>(
            kind,
            ci.fallback@,
            ci.basic_fallback,
            wmin,
            wmax,
            here,
            4,
            ci.fallback@.len() as int,
        )
    }
}

/// The title above the indices: those of running counts are for one count each, those of
/// true counts for all from a count on.
pub open spec fn index_title(kind: CountKind) -> Seq<char> {
    match kind {
        CountKind::Running => " count index (exact RC) "@,
        CountKind::TrueCount => " count index (TC) "@,
    }
}

/// What the panel says of the indices of a row.
pub open spec fn report_lines<N>(
    kind: CountKind,
    report: Option<IndexReport>,
    cat: HandCategory,
    here: Option<i16>,
) -> Seq<LineView<N>> {
    let waiting = seq![seq![said::<N>("  computing\u{2026}"@, in_ink(Ink::DarkGray))]];
    seq![rule_line::<N>(index_title(kind))] + match report {
        None => waiting,
        Some(rep) => match rep.cats.at(cat) {
            None => waiting,
            Some(ci) => index_lines::<N>(kind, ci, rep.lo as int, rep.hi as int, here),
        },
    }
}

/// The panel with the values of a cell. Where there is a kind of count to tell indices of, as on
/// a finite shoe, it tells them too.
pub open spec fn popup_page<N: Scalar>(
    cell: Option<CellInfo<N>>,
    indexed: Option<CountKind>,
    report: Option<IndexReport>,
    cat: HandCategory,
    here: Option<i16>,
) -> Seq<LineView<N>> {
    let upper = cell_lines(cell) + if indexed is Some {
        report_lines::<N>(indexed->0, report, cat, here)
    } else {
        Seq::empty()
    };
    upper.push(Seq::empty()).push(
        seq![said("  hjkl move \u{00b7} Esc close"@, in_ink(Ink::DarkGray))],
    )
}

/// The title of the panel.
pub fn popup_title(cat: HandCategory, up: Card) -> (r: String)
    requires
        up.valid(),
    ensures
        r@ == " "@ + cat.written() + " vs "@ + up.written() + " "@,
{
    let mut out = text_of(" ");
    push_text(&mut out, cat.to_text().as_str());
    push_text(&mut out, " vs ");
    push_text(&mut out, up.to_text().as_str());
    push_text(&mut out, " ");
    assert(out@ =~= " "@ + cat.written() + " vs "@ + up.written() + " "@);
    out
}

/// The line of the value of one move.
fn value_row<N: Scalar>(mv: Move, ev: N, is_best: bool) -> (r: Line<N>)
    ensures
        r.view() == value_line(mv, ev, is_best),
{
    let mut name = text_of("  ");
    push_text(&mut name, set_left(move_name(mv), 10).as_str());
    let face = Face::bold(ev_color(ev), is_best);
    let mut line: Line<N> = Line::new();
    line.say(name.as_str(), Face::bold(move_color(mv), is_best));
    line.write(ev, Digits { places: 4, signed: true, width: 0 }, face);
    if is_best {
        line.say(" *", face);
    }
    assert(name@ =~= "  "@ + to_left(mv.name_spec(), 10));
    assert(line.view() =~= value_line(mv, ev, is_best));
    line
}

/// A rule across the panel.
fn rule_row<N: Scalar>(title: &str) -> (r: Line<N>)
    ensures
        r.view() == rule_line::<N>(title@),
{
    let mut text = text_of(" ");
    push_text(&mut text, set_middle(title, '\u{2500}', 45).as_str());
    assert(text@ =~= " "@ + in_middle(title@, '\u{2500}', 45));
    Line::of(text.as_str(), Face::of(Ink::DarkGray))
}

/// The line of the hands whose best play is one move.
fn group_row<N: Scalar>(mv: Move, hands: &Vec<CardCol>) -> (r: Line<N>)
    ensures
        r.view() == group_line::<N>(mv, hands@),
{
    let mut head = text_of("  ");
    push_text(&mut head, mv.letter());
    push_text(&mut head, "  ");
    let (listed, over) = pack_hand_labels(hands, 41);
    let mut tail = String::new();
    if over > 0 {
        push_text(&mut tail, " +");
        push_count(&mut tail, over);
    }
    let mut line: Line<N> = Line::new();
    line.say(head.as_str(), Face::bold(move_color(mv), true));
    line.say(listed.as_str(), Face::of(Ink::Plain));
    line.say(tail.as_str(), Face::of(Ink::DarkGray));
    proof {
        reveal_strlit("");
        let left = hands@.len() - names_fitting(hands@, 41, 0);
        assert(head@ =~= "  "@ + mv.letter_spec() + "  "@);
        assert(tail@ =~= if left > 0 {
            " +"@ + digits(left as nat)
        } else {
            ""@
        });
        assert(line.view() =~= group_line::<N>(mv, hands@));
    }
    line
}

/// Append the lines of a cell.
fn add_cell<N: Scalar>(page: &mut Page<N>, cell: Option<&CellInfo<N>>)
    ensures
        final(page).view() == old(page).view() + cell_lines(
            match cell {
                Some(c) => Some(*c),
                None => None,
            },
        ),
{
    let ghost p0 = page.view();
    match cell {
        None => {
            page.say("computing\u{2026}", Face::of(Ink::Plain));
            assert(page.view() =~= p0 + cell_lines::<N>(None));
        },
        Some(c) => {
            let mut k: usize = 0;
            assert(page.view() =~= p0 + values_upto(c.move_evs, c.headline, 0));
            while k < 5
                invariant
                    k <= 5,
                    page.view() == p0 + values_upto(c.move_evs, c.headline, k as int),
                decreases 5 - k,
            {
                let mv = listed_move(k);
                let ghost before = page.view();
                if let Some(ev) = c.move_evs.get(mv) {
                    page.add(value_row(mv, ev, mv == c.headline));
                }
                assert(page.view() =~= p0 + values_upto(c.move_evs, c.headline, k + 1));
                k += 1;
            }
            if c.breakdown.len() > 1 {
                page.add(rule_row(" by hand "));
                let ghost head = values_upto(c.move_evs, c.headline, 5) + seq![
                    rule_line::<N>(" by hand "@),
                ];
                assert(page.view() =~= p0 + head + groups_upto::<N>(c.breakdown@, 0));
                let mut i: usize = 0;
                while i < c.breakdown.len()
                    invariant
                        i <= c.breakdown.len(),
                        page.view() == p0 + head + groups_upto::<N>(c.breakdown@, i as int),
                    decreases c.breakdown.len() - i,
                {
                    page.add(group_row(c.breakdown[i].0, &c.breakdown[i].1));
                    assert(page.view() =~= p0 + head + groups_upto::<N>(c.breakdown@, i + 1));
                    i += 1;
                }
                assert(page.view() =~= p0 + cell_lines(Some(*c)));
            } else {
                assert(page.view() =~= p0 + cell_lines(Some(*c)));
            }
        },
    }
}

/// Append the lines of some runs.
fn add_runs<N: Scalar>(
    page: &mut Page<N>,
    kind: CountKind,
    runs: &Vec<Run>,
    basic: Option<Move>,
    wmin: i16,
    wmax: i16,
    here: Option<i16>,
    indent: usize,
)
    ensures
        final(page).view() == old(page).view() + runs_upto::<N>(
            kind,
            runs@,
            basic,
            wmin as int,
            wmax as int,
            here,
            indent as int,
            runs@.len() as int,
        ),
{
    let ghost p0 = page.view();
    let mut i: usize = 0;
    assert(page.view() =~= p0 + runs_upto::<N>(
        kind,
        runs@,
        basic,
        wmin as int,
        wmax as int,
        here,
        indent as int,
        0,
    ));
    while i < runs.len()
        invariant
            i <= runs.len(),
            page.view() == p0 + runs_upto::<N>(
                kind,
                runs@,
                basic,
                wmin as int,
                wmax as int,
                here,
                indent as int,
                i as int,
            ),
        decreases runs.len() - i,
    {
        page.add(rc_run_line(kind, runs, basic, i, wmin, wmax, here, indent));
        assert(page.view() =~= p0 + runs_upto::<N>(
            kind,
            runs@,
            basic,
            wmin as int,
            wmax as int,
            here,
            indent as int,
            i + 1,
        ));
        i += 1;
    }
}

/// Append the indices of a row.
fn add_index<N: Scalar>(
    page: &mut Page<N>,
    kind: CountKind,
    ci: &CategoryIndex,
    wmin: i16,
    wmax: i16,
    here: Option<i16>,
)
    ensures
        final(page).view() == old(page).view() + index_lines::<N>(
            kind,
            *ci,
            wmin as int,
            wmax as int,
            here,
        ),
{
    let ghost p0 = page.view();
    add_runs(page, kind, &ci.primary, ci.basic, wmin, wmax, here, 2);
    let ghost p1 = page.view();
    if ci.fallback.len() > 0 {
        let moves = ci.start_only_moves();
        let mut label = String::new();
        if moves.len() == 1 {
            push_text(&mut label, "  if can't ");
            push_text(&mut label, lower_case_name(moves[0]));
            push_text(&mut label, ":");
        } else {
            push_text(&mut label, "  if start move unavailable:");
        }
        assert(label@ =~= fallback_words(moves@));
        page.say(label.as_str(), Face::of(Ink::DarkGray));
        add_runs(page, kind, &ci.fallback, ci.basic_fallback, wmin, wmax, here, 4);
    }
    assert(page.view() =~= p0 + index_lines::<N>(kind, *ci, wmin as int, wmax as int, here));
}

/// The panel with the values of a cell.
pub fn popup_view<N: Scalar>(
    cell: Option<&CellInfo<N>>,
    indexed: Option<CountKind>,
    report: Option<&IndexReport>,
    cat: HandCategory,
    here: Option<i16>,
) -> (p: Page<N>)
    requires
        report matches Some(rep) ==> rep.cats.wf(),
    ensures
        p.view() == popup_page(
            match cell {
                Some(c) => Some(*c),
                None => None,
            },
            indexed,
            match report {
                Some(rep) => Some(*rep),
                None => None,
            },
            cat,
            here,
        ),
{
    let ghost shown = match cell {
        Some(c) => Some(*c),
        None => None,
    };
    let ghost told = match report {
        Some(rep) => Some(*rep),
        None => None,
    };
    let mut page: Page<N> = Page::new();
    add_cell(&mut page, cell);
    assert(page.view() =~= cell_lines(shown));
    if let Some(kind) = indexed {
        page.add(
            rule_row(
                match kind {
                    CountKind::Running => " count index (exact RC) ",
                    CountKind::TrueCount => " count index (TC) ",
                },
            ),
        );
        match report {
            None => page.say("  computing\u{2026}", Face::of(Ink::DarkGray)),
            Some(rep) => match rep.cats.get(cat) {
                None => page.say("  computing\u{2026}", Face::of(Ink::DarkGray)),
                Some(ci) => add_index(&mut page, kind, ci, rep.lo, rep.hi, here),
            },
        }
        assert(page.view() =~= cell_lines(shown) + report_lines::<N>(kind, told, cat, here));
    }
    page.add(Line::new());
    page.say("  hjkl move \u{00b7} Esc close", Face::of(Ink::DarkGray));
    assert(page.view() =~= popup_page(shown, indexed, told, cat, here));
    page
}

pub open spec fn h17_words(hs17: bool) -> Seq<char> {
    if hs17 {
        "H17"@
    } else {
        "S17"@
    }
}

pub open spec fn payout_words(p: BjPayout) -> Seq<char> {
    match p {
        BjPayout::ThreeToTwo => "3:2"@,
        BjPayout::SixToFive => "6:5"@,
    }
}

pub open spec fn surrender_words(rules: Ruleset) -> Seq<char> {
    match rules.peek.surrender_spec() {
        SurrenderRule::Never => "none"@,
        SurrenderRule::Early => "early"@,
        SurrenderRule::Late => "late"@,
    }
}

/// The rules in one line.
pub open spec fn rules_words(rules: Ruleset, shoe: ShoeChoice) -> Seq<char> {
    "decks "@ + shoe.written() + " | "@ + h17_words(rules.hs17) + " | DAS "@ + yn_spec(rules.das)
        + " | peek "@ + yn_spec(rules.peek.peeks_spec()) + " | BJ "@ + payout_words(rules.bj_payout)
        + " | surr "@ + surrender_words(rules) + " | split\u{2264}"@ + digits(
        rules.max_split_hands as nat,
    )
}

/// The count in words: the condition, or that there is none.
pub open spec fn count_words(ui: Ui) -> Seq<char> {
    match ui.effective() {
        Some(c) => c.label_spec(),
        None => if ui.count_on {
            "n/a(\u{221e})"@
        } else {
            "off"@
        },
    }
}

/// How far the chart is, where it is not complete.
pub open spec fn progress_words(pending: nat) -> Seq<char> {
    if pending > 0 {
        "  computing "@ + digits((10 - pending) as nat) + "/10"@
    } else {
        ""@
    }
}

/// The second status line: the count, the edge and the insurance bet.
pub open spec fn counted_line<N: Scalar>(
    count: Seq<char>,
    edge: Option<N>,
    pending: nat,
    insurance: N,
) -> LineView<N> {
    let cyan = in_ink(Ink::Cyan);
    let three = Digits { places: 3, signed: true, width: 0 };
    (match edge {
        Some(e) => seq![
            said("count "@ + count + " | edge "@, cyan),
            figure(e.times_spec(whole::<N>(100)), three, cyan),
            said("%"@, cyan),
        ],
        None => seq![said("count "@ + count + " | edge "@, cyan), said("\u{2026}"@, cyan)],
    }).push(said(progress_words(pending) + " | insurance "@, cyan)).push(
        figure(insurance, three, cyan),
    )
}

/// What is said of the selected cell: its move and the value of it.
pub open spec fn selected_words<N: Scalar>(
    cat: HandCategory,
    up: Card,
    cell: Option<CellInfo<N>>,
) -> LineView<N> {
    let white = in_ink(Ink::White);
    let head = cat.written() + " vs "@ + up.written() + " \u{2192} "@;
    match cell {
        Some(c) => {
            let name = said::<N>(
                head + c.headline.name_spec() + (if c.composition_dependent {
                    "*"@
                } else {
                    ""@
                }) + " "@,
                white,
            );
            match c.move_evs.at(c.headline) {
                Some(ev) => seq![
                    name,
                    figure(ev, Digits { places: 3, signed: true, width: 0 }, white),
                    said("    "@, white),
                ],
                None => seq![name, said("    "@, white)],
            }
        },
        None => seq![said(head + "\u{2026}    "@, white)],
    }
}

/// The status lines below the chart.
pub open spec fn footer_page<N: Scalar>(
    ui: Ui,
    cat: HandCategory,
    up: Card,
    cell: Option<CellInfo<N>>,
    edge: Option<N>,
    pending: nat,
    insurance: N,
) -> Seq<LineView<N>> {
    seq![
        seq![said(rules_words(ui.rules, ui.shoe), in_ink(Ink::Cyan))],
        counted_line(count_words(ui), edge, pending, insurance),
        selected_words(cat, up, cell).push(
            said(
                "hjkl move \u{00b7} Enter EVs \u{00b7} r rules \u{00b7} c count \u{00b7} q quit"@,
                in_ink(Ink::DarkGray),
            ),
        ),
    ]
}

fn rules_text(rules: &Ruleset, shoe: ShoeChoice) -> (r: String)
    ensures
        r@ == rules_words(*rules, shoe),
{
    let mut out = text_of("decks ");
    push_text(&mut out, shoe.to_text().as_str());
    push_text(&mut out, " | ");
    push_text(&mut out, if rules.hs17 { "H17" } else { "S17" });
    push_text(&mut out, " | DAS ");
    push_text(&mut out, yn(rules.das));
    push_text(&mut out, " | peek ");
    push_text(&mut out, yn(rules.peek.peeks()));
    push_text(&mut out, " | BJ ");
    push_text(&mut out, rules.bj_payout.label());
    push_text(&mut out, " | surr ");
    push_text(&mut out, rules.peek.surrender_label());
    push_text(&mut out, " | split\u{2264}");
    push_count(&mut out, rules.max_split_hands as usize);
    assert(out@ =~= rules_words(*rules, shoe));
    out
}

fn count_text(ui: &Ui) -> (r: String)
    ensures
        r@ == count_words(*ui),
{
    match ui.effective_count() {
        Some(c) => c.label(),
        None => if ui.count_on {
            text_of("n/a(\u{221e})")
        } else {
            text_of("off")
        },
    }
}

fn counted_row<N: Scalar>(count: &str, edge: Option<N>, pending: usize, insurance: N) -> (r: Line<N>)
    requires
        pending <= 10,
    ensures
        r.view() == counted_line(count@, edge, pending as nat, insurance),
{
    let cyan = Face::of(Ink::Cyan);
    let three = Digits { places: 3, signed: true, width: 0 };
    let mut head = text_of("count ");
    push_text(&mut head, count);
    push_text(&mut head, " | edge ");
    let mut line: Line<N> = Line::new();
    line.say(head.as_str(), cyan);
    match edge {
        Some(e) => {
            let hundred: N = from_whole(100);
            line.write(e.times(hundred), three, cyan);
            line.say("%", cyan);
        },
        None => line.say("\u{2026}", cyan),
    }
    let mut tail = String::new();
    if pending > 0 {
        push_text(&mut tail, "  computing ");
        push_count(&mut tail, 10 - pending);
        push_text(&mut tail, "/10");
    }
    push_text(&mut tail, " | insurance ");
    line.say(tail.as_str(), cyan);
    line.write(insurance, three, cyan);
    proof {
        reveal_strlit("");
        assert(head@ =~= "count "@ + count@ + " | edge "@);
        assert(tail@ =~= progress_words(pending as nat) + " | insurance "@);
        assert(line.view() =~= counted_line(count@, edge, pending as nat, insurance));
    }
    line
}

fn selected_row<N: Scalar>(cat: HandCategory, up: Card, cell: Option<&CellInfo<N>>) -> (r: Line<N>)
    requires
        up.valid(),
    ensures
        r.view() == selected_words(
            cat,
            up,
            match cell {
                Some(c) => Some(*c),
                None => None,
            },
        ),
{
    let white = Face::of(Ink::White);
    let mut head = cat.to_text();
    push_text(&mut head, " vs ");
    push_text(&mut head, up.to_text().as_str());
    push_text(&mut head, " \u{2192} ");
    let ghost start = head@;
    let mut line: Line<N> = Line::new();
    match cell {
        Some(c) => {
            push_text(&mut head, move_name(c.headline));
            push_text(&mut head, if c.composition_dependent { "*" } else { "" });
            push_text(&mut head, " ");
            line.say(head.as_str(), white);
            if let Some(ev) = c.move_evs.get(c.headline) {
                line.write(ev, Digits { places: 3, signed: true, width: 0 }, white);
            }
            line.say("    ", white);
        },
        None => {
            push_text(&mut head, "\u{2026}    ");
            line.say(head.as_str(), white);
        },
    }
    proof {
        let shown = match cell {
            Some(c) => Some(*c),
            None => None,
        };
        assert(start =~= cat.written() + " vs "@ + up.written() + " \u{2192} "@);
        assert(line.view() =~= selected_words(cat, up, shown));
    }
    line
}

/// The status lines below the chart.
pub fn footer_view<N: Scalar>(
    ui: &Ui,
    cell: Option<&CellInfo<N>>,
    edge: Option<N>,
    pending: usize,
    insurance: N,
) -> (p: Page<N>)
    requires
        ui.cursor.valid(),
        pending <= 10,
    ensures
        p.view() == footer_page(
            *ui,
            crate::panes::pane_at(ui.cursor.pane as int).row_at(ui.cursor.row as int),
            crate::panes::up_card_at(ui.cursor.col as int),
            match cell {
                Some(c) => Some(*c),
                None => None,
            },
            edge,
            pending as nat,
            insurance,
        ),
{
    let (cat, up) = ui.selection();
    let mut page: Page<N> = Page::new();
    page.say(rules_text(&ui.rules, ui.shoe).as_str(), Face::of(Ink::Cyan));
    page.add(counted_row(count_text(ui).as_str(), edge, pending, insurance));
    let mut line = selected_row(cat, up, cell);
    line.say(
        "hjkl move \u{00b7} Enter EVs \u{00b7} r rules \u{00b7} c count \u{00b7} q quit",
        Face::of(Ink::DarkGray),
    );
    page.add(line);
    proof {
        let shown = match cell {
            Some(c) => Some(*c),
            None => None,
        };
        assert(page.view() =~= footer_page(*ui, cat, up, shown, edge, pending as nat, insurance));
    }
    page
}

/// The face of a field of a panel: the selected one is reversed.
pub open spec fn field_face(ink: Ink, selected: bool) -> Face {
    Face { ink, bold: false, reversed: selected, underlined: false, marked: false }
}

/// A field of a panel.
pub open spec fn field_line<N>(text: Seq<char>, ink: Ink, selected: bool) -> LineView<N> {
    seq![said("  "@ + text + "  "@, field_face(ink, selected))]
}

/// The fields of the panel for the rules.
pub open spec fn rule_field(rules: Ruleset, shoe: ShoeChoice, i: int) -> Seq<char> {
    if i == 0 {
        "Decks         "@ + shoe.written()
    } else if i == 1 {
        "Dealer H17    "@ + yn_spec(rules.hs17)
    } else if i == 2 {
        "DAS           "@ + yn_spec(rules.das)
    } else if i == 3 {
        "Dealer peek   "@ + yn_spec(rules.peek.peeks_spec())
    } else if i == 4 {
        "Blackjack     "@ + payout_words(rules.bj_payout)
    } else if i == 5 {
        "Surrender     "@ + surrender_words(rules)
    } else if i == 6 {
        "Max hands     "@ + digits(rules.max_split_hands as nat)
    } else {
        "Split prec.   "@ + digits(rules.split_cards as nat)
    }
}

/// The keys of the panels for the rules and the count.
pub open spec fn panel_hint<N>() -> LineView<N> {
    seq![
        said("  jk select \u{00b7} hl change \u{00b7} Esc apply"@, in_ink(Ink::DarkGray)),
    ]
}

/// The panel for the rules.
pub open spec fn rules_page<N>(rules: Ruleset, shoe: ShoeChoice, sel: int) -> Seq<LineView<N>> {
    Seq::new(
        8,
        |i: int| field_line::<N>(rule_field(rules, shoe, i), Ink::Plain, i == sel),
    ).push(Seq::empty()).push(panel_hint::<N>())
}

fn rule_field_text(rules: &Ruleset, shoe: ShoeChoice, i: usize) -> (r: String)
    ensures
        r@ == rule_field(*rules, shoe, i as int),
{
    let mut out = String::new();
    if i == 0 {
        push_text(&mut out, "Decks         ");
        push_text(&mut out, shoe.to_text().as_str());
    } else if i == 1 {
        push_text(&mut out, "Dealer H17    ");
        push_text(&mut out, yn(rules.hs17));
    } else if i == 2 {
        push_text(&mut out, "DAS           ");
        push_text(&mut out, yn(rules.das));
    } else if i == 3 {
        push_text(&mut out, "Dealer peek   ");
        push_text(&mut out, yn(rules.peek.peeks()));
    } else if i == 4 {
        push_text(&mut out, "Blackjack     ");
        push_text(&mut out, rules.bj_payout.label());
    } else if i == 5 {
        push_text(&mut out, "Surrender     ");
        push_text(&mut out, rules.peek.surrender_label());
    } else if i == 6 {
        push_text(&mut out, "Max hands     ");
        push_count(&mut out, rules.max_split_hands as usize);
    } else {
        push_text(&mut out, "Split prec.   ");
        push_count(&mut out, rules.split_cards as usize);
    }
    assert(out@ =~= rule_field(*rules, shoe, i as int));
    out
}

fn field_row<N: Scalar>(text: &str, ink: Ink, selected: bool) -> (r: Line<N>)
    ensures
        r.view() == field_line::<N>(text@, ink, selected),
{
    let mut out = text_of("  ");
    push_text(&mut out, text);
    push_text(&mut out, "  ");
    assert(out@ =~= "  "@ + text@ + "  "@);
    Line::of(
        out.as_str(),
        Face { ink, bold: false, reversed: selected, underlined: false, marked: false },
    )
}

/// The panel for the rules.
pub fn rules_view<N: Scalar>(rules: &Ruleset, shoe: ShoeChoice, sel: usize) -> (p: Page<N>)
    ensures
        p.view() == rules_page::<N>(*rules, shoe, sel as int),
{
    let ghost goal = rules_page::<N>(*rules, shoe, sel as int);
    let mut page: Page<N> = Page::new();
    let mut i: usize = 0;
    assert(page.view() =~= goal.take(0));
    while i < 8
        invariant
            i <= 8,
            goal == rules_page::<N>(*rules, shoe, sel as int),
            page.view() == goal.take(i as int),
        decreases 8 - i,
    {
        page.add(field_row(rule_field_text(rules, shoe, i).as_str(), Ink::Plain, i == sel));
        assert(page.view() =~= goal.take(i + 1));
        i += 1;
    }
    page.add(Line::new());
    page.say("  jk select \u{00b7} hl change \u{00b7} Esc apply", Face::of(Ink::DarkGray));
    assert(page.view() =~= goal);
    page
}

/// The fields of the panel for the count that stand alone: whether it is applied, and the system.
pub open spec fn count_field(ui: Ui, i: int) -> Seq<char> {
    if i == 0 {
        "Counting      "@ + yn_spec(ui.count_on)
    } else {
        "System        "@ + ui.count.system.label_spec()
    }
}

/// The value that a count is compared with: a running count as it is, a true count with its
/// sign and its half.
pub open spec fn entered_text(count: CountSetting) -> Seq<char> {
    match count.system.kind_spec() {
        CountKind::Running => decimal(count.external as int),
        CountKind::TrueCount => halves_text(count.external as int),
    }
}

/// The condition on the count: the comparison and the value are fields of their own.
pub open spec fn condition_line<N>(count: CountSetting, sel: usize) -> LineView<N> {
    let plain = field_face(Ink::Plain, false);
    seq![
        said("  Condition     "@ + axis_text(count.system.kind_spec()) + " "@, plain),
        said(count.comparison_spec(), field_face(Ink::Plain, sel == 1)),
        said(" "@, plain),
        said(entered_text(count), field_face(Ink::Plain, sel == 2)),
        said("  "@, plain),
    ]
}

/// The panel for the count.
pub open spec fn count_page<N>(ui: Ui) -> Seq<LineView<N>> {
    let fields = seq![
        field_line::<N>(count_field(ui, 0), Ink::Plain, ui.count_sel == 0),
        field_line::<N>(count_field(ui, 1), Ink::Plain, ui.count_sel == 3),
        condition_line::<N>(ui.count, ui.count_sel),
        Seq::empty(),
    ];
    (if ui.shoe == ShoeChoice::Infinite {
        fields.push(
            seq![said::<N>("  (count applies to a finite shoe only)"@, in_ink(Ink::Yellow))],
        )
    } else {
        fields
    }).push(panel_hint::<N>())
}

fn count_field_text(ui: &Ui, i: usize) -> (r: String)
    ensures
        r@ == count_field(*ui, i as int),
{
    let mut out = String::new();
    if i == 0 {
        push_text(&mut out, "Counting      ");
        push_text(&mut out, yn(ui.count_on));
    } else {
        push_text(&mut out, "System        ");
        push_text(&mut out, ui.count.system_label());
    }
    assert(out@ =~= count_field(*ui, i as int));
    out
}

fn entered(count: CountSetting) -> (r: String)
    ensures
        r@ == entered_text(count),
{
    match count.system.kind() {
        CountKind::Running => {
            let mut out = String::new();
            push_decimal(&mut out, count.external as i64);
            assert(out@ =~= entered_text(count));
            out
        },
        CountKind::TrueCount => count.value_str(),
    }
}

fn condition_row<N: Scalar>(count: CountSetting, sel: usize) -> (r: Line<N>)
    ensures
        r.view() == condition_line::<N>(count, sel),
{
    let plain = Face { ink: Ink::Plain, bold: false, reversed: false, underlined: false, marked: false };
    let picked = Face { ink: Ink::Plain, bold: false, reversed: true, underlined: false, marked: false };
    let mut head = text_of("  Condition     ");
    push_text(&mut head, count.axis_label());
    push_text(&mut head, " ");
    assert(head@ =~= "  Condition     "@ + axis_text(count.system.kind_spec()) + " "@);
    let mut line: Line<N> = Line::new();
    line.say(head.as_str(), plain);
    line.say(count.cmp_label(), if sel == 1 { picked } else { plain });
    line.say(" ", plain);
    line.say(entered(count).as_str(), if sel == 2 { picked } else { plain });
    line.say("  ", plain);
    assert(line.view() =~= condition_line::<N>(count, sel));
    line
}

/// The panel for the count.
pub fn count_view<N: Scalar>(ui: &Ui) -> (p: Page<N>)
    ensures
        p.view() == count_page::<N>(*ui),
{
    let mut page: Page<N> = Page::new();
    page.add(field_row(count_field_text(ui, 0).as_str(), Ink::Plain, ui.count_sel == 0));
    page.add(field_row(count_field_text(ui, 1).as_str(), Ink::Plain, ui.count_sel == 3));
    page.add(condition_row(ui.count, ui.count_sel));
    page.add(Line::new());
    if ui.shoe == ShoeChoice::Infinite {
        page.say("  (count applies to a finite shoe only)", Face::of(Ink::Yellow));
    }
    page.say("  jk select \u{00b7} hl change \u{00b7} Esc apply", Face::of(Ink::DarkGray));
    assert(page.view() =~= count_page::<N>(*ui));
    page
}

} // verus!
