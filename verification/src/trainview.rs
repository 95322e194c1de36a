//! The pages of the training tab: the table, the count, the last decision and the
//! scoreboard.
use crate::card::Card;
use crate::drill::Notice;
use crate::grading::{DecisionMark, RefScore, TrainStats};
use crate::hand::{listed_move, move_at, move_name, state_of, HandState, Move};
use crate::num::{from_whole, whole, zero, Scalar};
use crate::rules::Ruleset;
use crate::shoe::{hard, tally_bounds, tally_of, CardCol};
use crate::text::{
    digits, push_count, push_signed, push_text, set_left, set_right, signed, text_of, to_left,
    to_right,
};
use crate::training::{all_valid, few_cards, HandView, Phase, Table, TableView, TrainHand};
use crate::view::{
    ev_color, figure, filled, in_bold, in_ink, said, value_ink, Digits, Face, Ink, Line, LineView,
    Page,
};
use vstd::prelude::*;
use vstd::string::*;

verus! {

broadcast use tally_bounds;

/// The total of some cards in a word.
pub open spec fn total_words(cards: Seq<Card>) -> Seq<char> {
    if cards.len() == 0 {
        "0"@
    } else {
        match state_of(tally_of(cards)) {
            HandState::Bust => "bust"@,
            HandState::Natural => "blackjack"@,
            HandState::Soft(n) => "soft "@ + digits(n as nat),
            HandState::Hard(n) => digits(n as nat),
        }
    }
}

/// The total of some cards in a word.
pub fn cards_total_label(cards: &[Card]) -> (r: String)
    requires
        all_valid(cards@),
        hard(tally_of(cards@)) <= u8::MAX,
    ensures
        r@ == total_words(cards@),
{
    proof {
        few_cards(cards@);
    }
    if cards.len() == 0 {
        return text_of("0");
    }
    let mut out = String::new();
    match HandState::of(&CardCol::from_hand(cards)) {
        HandState::Bust => push_text(&mut out, "bust"),
        HandState::Natural => push_text(&mut out, "blackjack"),
        HandState::Soft(n) => {
            push_text(&mut out, "soft ");
            push_count(&mut out, n as usize);
        },
        HandState::Hard(n) => push_count(&mut out, n as usize),
    }
    assert(out@ =~= total_words(cards@));
    out
}

/// What follows stands at the right end of the line: a total in a column of nine.
pub open spec fn with_total<N>(line: LineView<N>, total: Seq<char>, width: nat) -> LineView<N> {
    line.push(filled(width)).push(said(to_right(total, 9), in_ink(Ink::Gray)))
}

fn push_total<N: Scalar>(line: &mut Line<N>, total: &str, width: usize)
    ensures
        final(line).view() == with_total(old(line).view(), total@, width as nat),
{
    line.fill(width);
    line.say(set_right(total, 9).as_str(), Face::of(Ink::Gray));
}

/// A card with a space behind it.
pub open spec fn card_words(card: Card) -> Seq<char> {
    card.written() + " "@
}

/// The first `k` cards of the dealer's, the hole card hidden while it is face down.
pub open spec fn dealer_upto<N>(dealer: Seq<Card>, hole_down: bool, k: int) -> LineView<N>
    decreases k,
{
    if k <= 0 {
        seq![said("Dealer  "@, in_ink(Ink::Gray))]
    } else {
        dealer_upto::<N>(dealer, hole_down, k - 1).push(
            if k - 1 == 1 && hole_down {
                said("? "@, in_ink(Ink::DarkGray))
            } else {
                said(card_words(dealer[k - 1]), in_ink(Ink::White))
            },
        )
    }
}

/// The dealer's line: the cards and the total of those that can be seen.
pub open spec fn dealer_line<N>(dealer: Seq<Card>, hole_down: bool, width: nat) -> LineView<N> {
    if dealer.len() == 0 {
        seq![
            said("Dealer  "@, in_ink(Ink::Gray)),
            said("\u{2014}"@, in_ink(Ink::DarkGray)),
        ]
    } else {
        with_total(
            dealer_upto(dealer, hole_down, dealer.len() as int),
            total_words(
                if hole_down {
                    dealer.take(1)
                } else {
                    dealer
                },
            ),
            width,
        )
    }
}

/// The cards of a hand behind its label.
pub open spec fn hand_cards_upto<N>(line: LineView<N>, cards: Seq<Card>, k: int) -> LineView<N>
    decreases k,
{
    if k <= 0 {
        line
    } else {
        hand_cards_upto(line, cards, k - 1).push(
            said(card_words(cards[k - 1]), in_ink(Ink::White)),
        )
    }
}

/// The label of a hand: pointed at while it is played, numbered where there are several.
pub open spec fn hand_label(i: int, n: int, active: bool) -> Seq<char> {
    (if active {
        "\u{203a}"@
    } else {
        " "@
    }) + if n > 1 {
        "Hand "@ + digits((i + 1) as nat) + " "@
    } else {
        "You    "@
    }
}

/// The line of a hand: its label, its cards, whether it was doubled, its result, its total.
pub open spec fn hand_line<N: Scalar>(
    hand: HandView<N>,
    i: int,
    n: int,
    active: bool,
    width: nat,
) -> LineView<N> {
    let label = said::<N>(
        hand_label(i, n, active),
        in_bold(
            if active {
                Ink::Yellow
            } else {
                Ink::Gray
            },
            active,
        ),
    );
    let cards = hand_cards_upto(seq![label], hand.cards, hand.cards.len() as int);
    let doubled = if hand.doubled {
        cards.push(said(" x2"@, in_ink(Ink::LightBlue)))
    } else {
        cards
    };
    let told = match hand.result {
        Some(result) => doubled.push(
            said("  "@ + result.label_spec() + " "@, in_ink(value_ink(hand.net))),
        ).push(
            figure(
                hand.net,
                Digits { places: 2, signed: true, width: 0 },
                in_ink(value_ink(hand.net)),
            ),
        ),
        None => doubled,
    };
    with_total(told, total_words(hand.cards), width)
}

/// The lines of the first `k` hands.
pub open spec fn hands_upto<N: Scalar>(v: TableView<N>, width: nat, k: int) -> Seq<LineView<N>>
    decreases k,
{
    if k <= 0 {
        Seq::empty()
    } else {
        hands_upto(v, width, k - 1).push(
            hand_line(
                v.hands[k - 1],
                k - 1,
                v.hands.len() as int,
                v.phase == Phase::Player && k - 1 == v.active,
                width,
            ),
        )
    }
}

/// The key of a move.
pub open spec fn key_hint(mv: Move) -> Seq<char> {
    match mv {
        Move::Hit => "h hit"@,
        Move::Stand => "s stand"@,
        Move::Double => "d double"@,
        Move::Split => "p split"@,
        Move::Surrender => "r surr"@,
    }
}

/// The key of a move.
pub fn move_key_hint(mv: Move) -> (r: &'static str)
    ensures
        r@ == key_hint(mv),
{
    match mv {
        Move::Hit => "h hit",
        Move::Stand => "s stand",
        Move::Double => "d double",
        Move::Split => "p split",
        Move::Surrender => "r surr",
    }
}

/// The keys of the moves among the first `k` that are allowed, with a dot between them.
pub open spec fn hints_upto<N: Scalar>(v: TableView<N>, rules: Ruleset, k: int) -> Seq<char>
    decreases k,
{
    if k <= 0 {
        Seq::empty()
    } else {
        let so_far = hints_upto(v, rules, k - 1);
        if !v.allows(move_at(k - 1), rules) {
            so_far
        } else if so_far.len() == 0 {
            key_hint(move_at(k - 1))
        } else {
            so_far + "  \u{00b7}  "@ + key_hint(move_at(k - 1))
        }
    }
}

/// What the session tells.
pub open spec fn notice_line<N>(notice: Notice<N>) -> LineView<N> {
    let cyan = in_ink(Ink::Cyan);
    match notice {
        Notice::Welcome => seq![
            said(
                "Press Enter to deal \u{00b7} n: guess the count \u{00b7} 1: strategy tab"@,
                cyan,
            ),
        ],
        Notice::Dealing => seq![said("Dealing\u{2026}"@, cyan)],
        Notice::YourMove => seq![
            said("Your move \u{2014} legal actions are listed below."@, cyan),
        ],
        Notice::NotAllowed(mv) => seq![said(mv.name_spec() + " not allowed here"@, cyan)],
        Notice::CountCorrect(c) => seq![said("Count correct: RC "@ + signed(c as int), cyan)],
        Notice::CountWas { count, guess } => seq![
            said(
                "Count was RC "@ + signed(count as int) + " (you said "@ + signed(guess as int)
                    + ")"@,
                cyan,
            ),
        ],
        Notice::RoundNet(net) => seq![
            said("Round net "@, cyan),
            figure(net, Digits { places: 2, signed: true, width: 0 }, cyan),
            said(" u \u{00b7} Enter to deal again"@, cyan),
        ],
    }
}

/// The table: the dealer's cards, the player's hands, what the session tells, and in the
/// player's turn the keys of the moves that are allowed.
pub open spec fn felt_page<N: Scalar>(
    v: TableView<N>,
    notice: Notice<N>,
    rules: Ruleset,
    width: nat,
) -> Seq<LineView<N>> {
    let dealer = seq![dealer_line::<N>(v.dealer, v.hole_down, width), Seq::empty()];
    let hands = if v.hands.len() == 0 {
        seq![seq![said::<N>("Press Enter to deal a hand."@, in_ink(Ink::DarkGray))]]
    } else {
        hands_upto(v, width, v.hands.len() as int)
    };
    let told = (dealer + hands).push(Seq::empty()).push(notice_line(notice));
    if v.phase == Phase::Player {
        told.push(seq![said(hints_upto(v, rules, 5), in_ink(Ink::DarkGray))])
    } else {
        told
    }
}

fn dealer_row<N: Scalar>(dealer: &Vec<Card>, hole_down: bool, width: usize) -> (r: Line<N>)
    requires
        all_valid(dealer@),
        hard(tally_of(dealer@)) <= 31,
    ensures
        r.view() == dealer_line::<N>(dealer@, hole_down, width as nat),
{
    let mut line: Line<N> = Line::of("Dealer  ", Face::of(Ink::Gray));
    if dealer.len() == 0 {
        line.say("\u{2014}", Face::of(Ink::DarkGray));
        assert(line.view() =~= dealer_line::<N>(dealer@, hole_down, width as nat));
        return line;
    }
    let mut i: usize = 0;
    while i < dealer.len()
        invariant
            i <= dealer.len(),
            all_valid(dealer@),
            line.view() == dealer_upto::<N>(dealer@, hole_down, i as int),
        decreases dealer.len() - i,
    {
        assert(dealer@[i as int].valid());
        if i == 1 && hole_down {
            line.say("? ", Face::of(Ink::DarkGray));
        } else {
            let mut text = dealer[i].to_text();
            push_text(&mut text, " ");
            line.say(text.as_str(), Face::of(Ink::White));
        }
        i += 1;
    }
    if hole_down {
        let first: Vec<Card> = vec![dealer[0]];
        proof {
            assert(first@ =~= dealer@.take(1));
            assert(dealer@[0].valid());
            crate::training::few_points(first@);
        }
        push_total(&mut line, cards_total_label(first.as_slice()).as_str(), width);
    } else {
        push_total(&mut line, cards_total_label(dealer.as_slice()).as_str(), width);
    }
    line
}

fn hand_row<N: Scalar>(hand: &TrainHand<N>, i: usize, n: usize, active: bool, width: usize) -> (r:
    Line<N>)
    requires
        hand.view().valid(),
        i < n,
    ensures
        r.view() == hand_line(hand.view(), i as int, n as int, active, width as nat),
{
    let mut label = text_of(if active { "\u{203a}" } else { " " });
    if n > 1 {
        push_text(&mut label, "Hand ");
        push_count(&mut label, i + 1);
        push_text(&mut label, " ");
    } else {
        push_text(&mut label, "You    ");
    }
    assert(label@ =~= hand_label(i as int, n as int, active));
    let face = Face::bold(
        if active {
            Ink::Yellow
        } else {
            Ink::Gray
        },
        active,
    );
    let mut line: Line<N> = Line::of(label.as_str(), face);
    let ghost start = line.view();
    let mut k: usize = 0;
    while k < hand.cards.len()
        invariant
            k <= hand.cards.len(),
            hand.view().valid(),
            line.view() == hand_cards_upto(start, hand.cards@, k as int),
        decreases hand.cards.len() - k,
    {
        assert(hand.cards@[k as int].valid());
        let mut text = hand.cards[k].to_text();
        push_text(&mut text, " ");
        line.say(text.as_str(), Face::of(Ink::White));
        k += 1;
    }
    if hand.doubled {
        line.say(" x2", Face::of(Ink::LightBlue));
    }
    if let Some(result) = hand.result {
        let mut text = text_of("  ");
        push_text(&mut text, result.label());
        push_text(&mut text, " ");
        assert(text@ =~= "  "@ + result.label_spec() + " "@);
        let face = Face::of(ev_color(hand.net));
        line.say(text.as_str(), face);
        line.write(hand.net, Digits { places: 2, signed: true, width: 0 }, face);
    }
    push_total(&mut line, cards_total_label(hand.cards.as_slice()).as_str(), width);
    line
}

fn notice_row<N: Scalar>(notice: &Notice<N>) -> (r: Line<N>)
    ensures
        r.view() == notice_line(*notice),
{
    let cyan = Face::of(Ink::Cyan);
    let mut line: Line<N> = Line::new();
    match notice {
        Notice::Welcome => line.say(
            "Press Enter to deal \u{00b7} n: guess the count \u{00b7} 1: strategy tab",
            cyan,
        ),
        Notice::Dealing => line.say("Dealing\u{2026}", cyan),
        Notice::YourMove => line.say("Your move \u{2014} legal actions are listed below.", cyan),
        Notice::NotAllowed(mv) => {
            let mut text = text_of(move_name(*mv));
            push_text(&mut text, " not allowed here");
            line.say(text.as_str(), cyan);
        },
        Notice::CountCorrect(c) => {
            let mut text = text_of("Count correct: RC ");
            push_signed(&mut text, *c as i64);
            line.say(text.as_str(), cyan);
        },
        Notice::CountWas { count, guess } => {
            let mut text = text_of("Count was RC ");
            push_signed(&mut text, *count as i64);
            push_text(&mut text, " (you said ");
            push_signed(&mut text, *guess as i64);
            push_text(&mut text, ")");
            assert(text@ =~= "Count was RC "@ + signed(*count as int) + " (you said "@ + signed(
                *guess as int,
            ) + ")"@);
            line.say(text.as_str(), cyan);
        },
        Notice::RoundNet(net) => {
            line.say("Round net ", cyan);
            line.write(*net, Digits { places: 2, signed: true, width: 0 }, cyan);
            line.say(" u \u{00b7} Enter to deal again", cyan);
        },
    }
    assert(line.view() =~= notice_line(*notice));
    line
}

fn hints_text<N: Scalar>(table: &Table<N>, rules: &Ruleset) -> (r: String)
    requires
        table.view().valid(),
        table.view().phase == Phase::Player,
    ensures
        r@ == hints_upto(table.view(), *rules, 5),
{
    let mut out = String::new();
    let mut k: usize = 0;
    let mut any: bool = false;
    assert(out@ =~= hints_upto(table.view(), *rules, 0));
    while k < 5
        invariant
            k <= 5,
            table.view().valid(),
            table.view().phase == Phase::Player,
            any == (out@.len() > 0),
            out@ == hints_upto(table.view(), *rules, k as int),
        decreases 5 - k,
    {
        let mv = listed_move(k);
        if table.allowed_move(mv, rules) {
            if any {
                push_text(&mut out, "  \u{00b7}  ");
            }
            push_text(&mut out, move_key_hint(mv));
            proof {
                reveal_strlit("h hit");
                reveal_strlit("s stand");
                reveal_strlit("d double");
                reveal_strlit("p split");
                reveal_strlit("r surr");
                assert(key_hint(mv).len() > 0);
            }
            any = true;
        }
        assert(out@ =~= hints_upto(table.view(), *rules, k + 1));
        k += 1;
    }
    out
}

/// The table.
pub fn felt_view<N: Scalar>(table: &Table<N>, notice: &Notice<N>, rules: &Ruleset, width: usize) -> (p:
    Page<N>)
    requires
        table.view().valid(),
    ensures
        p.view() == felt_page(table.view(), *notice, *rules, width as nat),
{
    let ghost v = table.view();
    let ghost w = width as nat;
    let mut page: Page<N> = Page::new();
    page.add(dealer_row(table.dealer(), table.hole_down(), width));
    page.add(Line::new());
    let ghost top = seq![dealer_line::<N>(v.dealer, v.hole_down, w), Seq::empty()];
    assert(page.view() =~= top);
    let hands = table.hands();
    let n: usize = hands.len();
    if n == 0 {
        page.say("Press Enter to deal a hand.", Face::of(Ink::DarkGray));
        assert(page.view() =~= top + seq![
            seq![said::<N>("Press Enter to deal a hand."@, in_ink(Ink::DarkGray))],
        ]);
    } else {
        let mut i: usize = 0;
        let mine: bool = table.phase() == Phase::Player;
        let active: usize = table.active();
        assert(page.view() =~= top + hands_upto(v, w, 0));
        while i < n
            invariant
                i <= n,
                n == hands.len(),
                n == v.hands.len(),
                v.hands_valid(),
                v == table.view(),
                w == width,
                mine == (v.phase == Phase::Player),
                active == v.active,
                forall|j: int| 0 <= j < n ==> (#[trigger] hands@[j]).view() == v.hands[j],
                page.view() == top + hands_upto(v, w, i as int),
            decreases n - i,
        {
            assert(hands@[i as int].view() == v.hands[i as int]);
            assert(v.hands[i as int].valid());
            page.add(hand_row(&hands[i], i, n, mine && i == active, width));
            assert(page.view() =~= top + hands_upto(v, w, i + 1));
            i += 1;
        }
    }
    page.add(Line::new());
    page.add(notice_row(notice));
    if table.phase() == Phase::Player {
        page.say(hints_text(table, rules).as_str(), Face::of(Ink::DarkGray));
    }
    assert(page.view() =~= felt_page(v, *notice, *rules, w));
    page
}

/// The title of the panel for the count.
pub fn count_panel_title(finite: bool) -> (r: &'static str)
    ensures
        r@ == if finite {
            " Count "@
        } else {
            " Deck "@
        },
{
    if finite {
        " Count "
    } else {
        " Deck "
    }
}

/// A share in per cent, or a dash where there is nothing to take a share of.
pub open spec fn percent_pieces<N: Scalar>(
    line: LineView<N>,
    n: u32,
    d: u32,
    width: u8,
    face: Face,
) -> LineView<N> {
    if d > 0 {
        line.push(
            figure(
                N::ratio_spec((100 * n) as i64, d as i64),
                Digits { places: 0, signed: false, width },
                face,
            ),
        ).push(said("%"@, face))
    } else {
        line.push(said(to_right("\u{2014}"@, width + 1), face))
    }
}

fn push_percent<N: Scalar>(line: &mut Line<N>, n: u32, d: u32, width: u8, face: Face)
    requires
        width < 100,
    ensures
        final(line).view() == percent_pieces(old(line).view(), n, d, width, face),
{
    if d > 0 {
        let num: i64 = 100 * (n as i64);
        line.write(
            N::ratio(num, d as i64),
            Digits { places: 0, signed: false, width },
            face,
        );
        line.say("%", face);
    } else {
        line.say(set_right("\u{2014}", width as usize + 1).as_str(), face);
    }
}

/// The panel for the count: the count itself stays hidden, for that is what is practised.
pub open spec fn count_panel_page<N: Scalar>(decks: Option<N>, stats: TrainStats<N>) -> Seq<
    LineView<N>,
> {
    let plain = in_ink(Ink::Plain);
    let dim = in_ink(Ink::DarkGray);
    match decks {
        Some(left) => seq![
            seq![said("RC  hidden  (n to guess)"@, dim)],
            seq![
                said("Decks left  "@, plain),
                figure(left, Digits { places: 1, signed: false, width: 0 }, plain),
            ],
            percent_pieces(
                seq![
                    said(
                        "Quizzes     "@ + digits(stats.count_correct as nat) + "/"@ + digits(
                            stats.count_quizzes as nat,
                        ) + "  "@,
                        plain,
                    ),
                ],
                stats.count_correct,
                stats.count_quizzes,
                0,
                plain,
            ),
        ],
        None => seq![
            seq![said("\u{221e} deck \u{00b7} no count"@, dim)],
            seq![said("basic-strategy drill"@, dim)],
        ],
    }
}

/// The panel for the count.
pub fn count_panel_view<N: Scalar>(decks: Option<N>, stats: &TrainStats<N>) -> (p: Page<N>)
    ensures
        p.view() == count_panel_page(decks, *stats),
{
    let plain = Face::of(Ink::Plain);
    let dim = Face::of(Ink::DarkGray);
    let mut page: Page<N> = Page::new();
    match decks {
        Some(left) => {
            page.say("RC  hidden  (n to guess)", dim);
            let mut line: Line<N> = Line::of("Decks left  ", plain);
            line.write(left, Digits { places: 1, signed: false, width: 0 }, plain);
            assert(line.view() =~= seq![
                said("Decks left  "@, plain),
                figure(left, Digits { places: 1, signed: false, width: 0 }, plain),
            ]);
            page.add(line);
            let mut text = text_of("Quizzes     ");
            push_count(&mut text, stats.count_correct as usize);
            push_text(&mut text, "/");
            push_count(&mut text, stats.count_quizzes as usize);
            push_text(&mut text, "  ");
            assert(text@ =~= "Quizzes     "@ + digits(stats.count_correct as nat) + "/"@ + digits(
                stats.count_quizzes as nat,
            ) + "  "@);
            let mut score: Line<N> = Line::of(text.as_str(), plain);
            push_percent(&mut score, stats.count_correct, stats.count_quizzes, 0, plain);
            page.add(score);
        },
        None => {
            page.say("\u{221e} deck \u{00b7} no count", dim);
            page.say("basic-strategy drill", dim);
        },
    }
    assert(page.view() =~= count_panel_page(decks, *stats));
    page
}

/// The play of a reference next to the move chosen.
pub open spec fn reference_line<N>(name: Seq<char>, mv: Move, chosen: Move) -> LineView<N> {
    seq![
        said(to_left(name, 8) + "  "@, in_ink(Ink::Gray)),
        said(
            (if mv == chosen {
                "\u{2713}"@
            } else {
                "\u{2717}"@
            }) + " "@ + mv.name_spec(),
            in_ink(
                if mv == chosen {
                    Ink::Green
                } else {
                    Ink::Red
                },
            ),
        ),
    ]
}

fn reference_row<N: Scalar>(name: &str, mv: Move, chosen: Move) -> (r: Line<N>)
    ensures
        r.view() == reference_line::<N>(name@, mv, chosen),
{
    let agree: bool = mv == chosen;
    let mut head = set_left(name, 8);
    push_text(&mut head, "  ");
    let mut tail = text_of(if agree { "\u{2713}" } else { "\u{2717}" });
    push_text(&mut tail, " ");
    push_text(&mut tail, move_name(mv));
    let mut line: Line<N> = Line::of(head.as_str(), Face::of(Ink::Gray));
    line.say(
        tail.as_str(),
        Face::of(
            if agree {
                Ink::Green
            } else {
                Ink::Red
            },
        ),
    );
    assert(line.view() =~= reference_line::<N>(name@, mv, chosen));
    line
}

/// The panel for the last decision: the move chosen, the plays of the references, and what
/// the move cost.
pub open spec fn feedback_page<N: Scalar>(mark: Option<DecisionMark<N>>, grading: bool) -> Seq<
    LineView<N>,
> {
    let dim = in_ink(Ink::DarkGray);
    match mark {
        None => if grading {
            seq![seq![said("grading\u{2026}"@, dim)]]
        } else {
            seq![seq![said("play a hand for feedback"@, dim)]]
        },
        Some(m) => seq![
            seq![said("you played  "@ + m.chosen.name_spec(), in_ink(Ink::Plain))],
            reference_line("simple"@, m.simple.mv, m.chosen),
            reference_line("basic"@, m.basic.mv, m.chosen),
            match m.indexed {
                Some(p) => reference_line("indexed"@, p.mv, m.chosen),
                None => seq![
                    said("indexed   "@, in_ink(Ink::Gray)),
                    said("\u{2014} n/a"@, dim),
                ],
            },
            reference_line("optimal"@, m.optimal.mv, m.chosen),
            seq![
                said("EV cost   "@, in_ink(Ink::Plain)),
                figure(
                    m.ev_chosen.minus_spec(m.optimal.ev),
                    Digits { places: 4, signed: true, width: 0 },
                    in_ink(Ink::Plain),
                ),
                said(
                    if grading {
                        "  grading\u{2026}"@
                    } else {
                        ""@
                    },
                    dim,
                ),
            ],
        ],
    }
}

/// The panel for the last decision.
pub fn feedback_view<N: Scalar>(mark: &Option<DecisionMark<N>>, grading: bool) -> (p: Page<N>)
    ensures
        p.view() == feedback_page(*mark, grading),
{
    let dim = Face::of(Ink::DarkGray);
    let plain = Face::of(Ink::Plain);
    let mut page: Page<N> = Page::new();
    match mark {
        None => {
            if grading {
                page.say("grading\u{2026}", dim);
            } else {
                page.say("play a hand for feedback", dim);
            }
        },
        Some(m) => {
            let mut text = text_of("you played  ");
            push_text(&mut text, move_name(m.chosen));
            page.say(text.as_str(), plain);
            page.add(reference_row("simple", m.simple.mv, m.chosen));
            page.add(reference_row("basic", m.basic.mv, m.chosen));
            match &m.indexed {
                Some(p) => page.add(reference_row("indexed", p.mv, m.chosen)),
                None => {
                    let mut line: Line<N> = Line::of("indexed   ", Face::of(Ink::Gray));
                    line.say("\u{2014} n/a", dim);
                    assert(line.view() =~= seq![
                        said("indexed   "@, in_ink(Ink::Gray)),
                        said("\u{2014} n/a"@, dim),
                    ]);
                    page.add(line);
                },
            }
            page.add(reference_row("optimal", m.optimal.mv, m.chosen));
            let mut cost: Line<N> = Line::of("EV cost   ", plain);
            cost.write(
                m.ev_chosen.minus(m.optimal.ev),
                Digits { places: 4, signed: true, width: 0 },
                plain,
            );
            cost.say(if grading { "  grading\u{2026}" } else { "" }, dim);
            assert(cost.view() =~= feedback_page(*mark, grading)[5]);
            page.add(cost);
        },
    }
    assert(page.view() =~= feedback_page(*mark, grading));
    page
}

/// A value in units and for each hundred initial bets, or a dash.
pub open spec fn units_pieces<N: Scalar>(line: LineView<N>, x: Option<N>, rounds: u32) -> LineView<
    N,
> {
    match x {
        Some(v) => {
            let face = in_ink(value_ink(v));
            line.push(figure(v, Digits { places: 3, signed: true, width: 9 }, face)).push(
                figure(per_bet_spec(v, rounds), Digits { places: 1, signed: true, width: 7 }, face),
            ).push(said("%"@, face))
        },
        None => line.push(said(to_right("\u{2014}"@, 9), in_ink(Ink::DarkGray))).push(
            said("        "@, in_ink(Ink::Plain)),
        ),
    }
}

/// A value for each hundred rounds.
pub open spec fn per_bet_spec<N: Scalar>(x: N, rounds: u32) -> N {
    if rounds > 0 {
        whole::<N>(100).times_spec(x).over_spec(whole::<N>(rounds as i64))
    } else {
        zero::<N>()
    }
}

fn per_bet<N: Scalar>(x: N, rounds: u32) -> (r: N)
    ensures
        r == per_bet_spec(x, rounds),
{
    if rounds > 0 {
        let hundred: N = from_whole(100);
        let d: N = from_whole(rounds as i64);
        hundred.times(x).over(d)
    } else {
        from_whole(0)
    }
}

fn push_units<N: Scalar>(line: &mut Line<N>, x: Option<N>, rounds: u32)
    ensures
        final(line).view() == units_pieces(old(line).view(), x, rounds),
{
    match x {
        Some(v) => {
            let face = Face::of(ev_color(v));
            line.write(v, Digits { places: 3, signed: true, width: 9 }, face);
            line.write(per_bet(v, rounds), Digits { places: 1, signed: true, width: 7 }, face);
            line.say("%", face);
        },
        None => {
            line.say(set_right("\u{2014}", 9).as_str(), Face::of(Ink::DarkGray));
            line.say("        ", Face::of(Ink::Plain));
        },
    }
}

/// The player's own line of the scoreboard.
pub open spec fn you_line<N: Scalar>(stats: TrainStats<N>) -> LineView<N> {
    let plain = in_ink(Ink::Plain);
    units_pieces(
        units_pieces(
            seq![said::<N>(to_left("You"@, 9), plain), said(to_right("\u{2014}"@, 6), plain)],
            Some(stats.ev_player),
            stats.rounds,
        ),
        None,
        stats.rounds,
    )
}

/// The line of a reference: how often the player agreed, its value, and what the player is
/// ahead of it; dashes where it has covered no round.
pub open spec fn score_line<N: Scalar>(s: RefScore<N>) -> LineView<N> {
    let plain = in_ink(Ink::Plain);
    let shown = s.which.all_round_spec() || s.rounds > 0;
    let head = percent_pieces(
        seq![said::<N>(to_left(s.which.label_spec(), 9), plain)],
        s.agree,
        s.decisions,
        5,
        plain,
    );
    units_pieces(
        units_pieces(
            head,
            if shown {
                Some(s.ev)
            } else {
                None
            },
            s.rounds,
        ),
        if shown {
            Some(s.player_ev.minus_spec(s.ev))
        } else {
            None
        },
        s.rounds,
    )
}

/// The first line of the scoreboard.
pub open spec fn summary_line<N: Scalar>(stats: TrainStats<N>) -> LineView<N> {
    let plain = in_ink(Ink::Plain);
    let net = in_ink(value_ink(stats.realized));
    seq![
        said("Rounds "@ + digits(stats.rounds as nat) + " \u{00b7} Units bet "@, plain),
        figure(stats.units_bet, Digits { places: 2, signed: false, width: 0 }, plain),
        said(" \u{00b7} Decisions "@ + digits(stats.decisions as nat) + " \u{00b7} Net "@, plain),
        figure(stats.realized, Digits { places: 2, signed: true, width: 0 }, net),
        said("u"@, net),
    ]
}

/// The scoreboard: the player, and below the references from the weakest to the strongest.
pub open spec fn stats_page<N: Scalar>(stats: TrainStats<N>) -> Seq<LineView<N>> {
    seq![
        summary_line(stats),
        seq![
            said(
                "          agree       EV    /bet      gap    /bet"@,
                in_ink(Ink::DarkGray),
            ),
        ],
        you_line(stats),
        score_line(stats.refs@[0]),
        score_line(stats.refs@[1]),
        score_line(stats.refs@[2]),
        score_line(stats.refs@[3]),
    ]
}

fn score_row<N: Scalar>(s: &RefScore<N>) -> (r: Line<N>)
    ensures
        r.view() == score_line(*s),
{
    let plain = Face::of(Ink::Plain);
    let mut line: Line<N> = Line::of(set_left(s.which.label(), 9).as_str(), plain);
    push_percent(&mut line, s.agree, s.decisions, 5, plain);
    if s.shown() {
        push_units(&mut line, Some(s.ev), s.rounds);
        push_units(&mut line, Some(s.gap()), s.rounds);
    } else {
        push_units(&mut line, None, s.rounds);
        push_units(&mut line, None, s.rounds);
    }
    line
}

fn summary_row<N: Scalar>(stats: &TrainStats<N>) -> (r: Line<N>)
    ensures
        r.view() == summary_line(*stats),
{
    let plain = Face::of(Ink::Plain);
    let net = Face::of(ev_color(stats.realized));
    let mut head = text_of("Rounds ");
    push_count(&mut head, stats.rounds as usize);
    push_text(&mut head, " \u{00b7} Units bet ");
    let mut mid = text_of(" \u{00b7} Decisions ");
    push_count(&mut mid, stats.decisions as usize);
    push_text(&mut mid, " \u{00b7} Net ");
    let mut line: Line<N> = Line::of(head.as_str(), plain);
    line.write(stats.units_bet, Digits { places: 2, signed: false, width: 0 }, plain);
    line.say(mid.as_str(), plain);
    line.write(stats.realized, Digits { places: 2, signed: true, width: 0 }, net);
    line.say("u", net);
    assert(head@ =~= "Rounds "@ + digits(stats.rounds as nat) + " \u{00b7} Units bet "@);
    assert(mid@ =~= " \u{00b7} Decisions "@ + digits(stats.decisions as nat) + " \u{00b7} Net "@);
    assert(line.view() =~= summary_line(*stats));
    line
}

/// The scoreboard.
pub fn stats_view<N: Scalar>(stats: &TrainStats<N>) -> (p: Page<N>)
    ensures
        p.view() == stats_page(*stats),
{
    let plain = Face::of(Ink::Plain);
    let mut page: Page<N> = Page::new();
    page.add(summary_row(stats));
    page.say("          agree       EV    /bet      gap    /bet", Face::of(Ink::DarkGray));
    let mut you: Line<N> = Line::of(set_left("You", 9).as_str(), plain);
    you.say(set_right("\u{2014}", 6).as_str(), plain);
    assert(you.view() =~= seq![
        said::<N>(to_left("You"@, 9), plain),
        said(to_right("\u{2014}"@, 6), plain),
    ]);
    push_units(&mut you, Some(stats.ev_player), stats.rounds);
    push_units(&mut you, None, stats.rounds);
    page.add(you);
    page.add(score_row(&stats.refs[0]));
    page.add(score_row(&stats.refs[1]));
    page.add(score_row(&stats.refs[2]));
    page.add(score_row(&stats.refs[3]));
    assert(page.view() =~= stats_page(*stats));
    page
}

pub open spec fn phase_words(phase: Phase) -> Seq<char> {
    match phase {
        Phase::Ready => "[ready]"@,
        Phase::Dealing => "[dealing]"@,
        Phase::Player => "[your turn]"@,
        Phase::Dealer => "[dealer]"@,
        Phase::Settled => "[settled]"@,
    }
}

/// The keys of the training tab.
pub open spec fn training_keys(phase: Phase, finite: bool) -> Seq<char> {
    (if phase == Phase::Player {
        ""@
    } else {
        "Enter deal \u{00b7} "@
    }) + (if finite {
        "n count \u{00b7} "@
    } else {
        ""@
    }) + "1 strategy \u{00b7} q quit"@
}

/// The lines below the table.
pub fn training_footer_view<N: Scalar>(phase: Phase, finite: bool) -> (p: Page<N>)
    ensures
        p.view() == seq![
            seq![said::<N>(phase_words(phase), in_ink(Ink::Yellow))],
            seq![said::<N>(training_keys(phase, finite), in_ink(Ink::DarkGray))],
        ],
{
    let tag = match phase {
        Phase::Ready => "[ready]",
        Phase::Dealing => "[dealing]",
        Phase::Player => "[your turn]",
        Phase::Dealer => "[dealer]",
        Phase::Settled => "[settled]",
    };
    let mut keys = text_of(if phase == Phase::Player { "" } else { "Enter deal \u{00b7} " });
    push_text(&mut keys, if finite { "n count \u{00b7} " } else { "" });
    push_text(&mut keys, "1 strategy \u{00b7} q quit");
    let mut page: Page<N> = Page::new();
    page.say(tag, Face::of(Ink::Yellow));
    page.say(keys.as_str(), Face::of(Ink::DarkGray));
    assert(page.view() =~= seq![
        seq![said::<N>(phase_words(phase), in_ink(Ink::Yellow))],
        seq![said::<N>(training_keys(phase, finite), in_ink(Ink::DarkGray))],
    ]);
    page
}

/// The question for the count.
pub fn count_quiz_view<N: Scalar>(guess: i16) -> (p: Page<N>)
    ensures
        p.view() == seq![
            seq![
                said::<N>("  Running count guess:  "@ + signed(guess as int) + "  "@, in_ink(Ink::Plain)),
            ],
            Seq::empty(),
            seq![
                said::<N>(
                    "  hl adjust \u{00b7} Enter submit \u{00b7} Esc cancel"@,
                    in_ink(Ink::DarkGray),
                ),
            ],
        ],
{
    let mut text = text_of("  Running count guess:  ");
    push_signed(&mut text, guess as i64);
    push_text(&mut text, "  ");
    assert(text@ =~= "  Running count guess:  "@ + signed(guess as int) + "  "@);
    let mut page: Page<N> = Page::new();
    page.say(text.as_str(), Face::of(Ink::Plain));
    page.add(Line::new());
    page.say(
        "  hl adjust \u{00b7} Enter submit \u{00b7} Esc cancel",
        Face::of(Ink::DarkGray),
    );
    assert(page.view() =~= seq![
        seq![
            said::<N>("  Running count guess:  "@ + signed(guess as int) + "  "@, in_ink(Ink::Plain)),
        ],
        Seq::empty(),
        seq![
            said::<N>(
                "  hl adjust \u{00b7} Enter submit \u{00b7} Esc cancel"@,
                in_ink(Ink::DarkGray),
            ),
        ],
    ]);
    page
}

} // verus!
