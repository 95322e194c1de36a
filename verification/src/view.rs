//! What is shown: lines of words, each with its face. The words are texts and numbers;
//! numbers are written out where they are shown.
use crate::hand::Move;
use crate::num::Scalar;
use crate::text::text_of;
use vstd::prelude::*;
use vstd::string::*;

verus! {

/// The colours.
#[derive(Clone, Copy, Debug, PartialEq, Eq, Structural)]
pub enum Ink {
    Plain,
    Black,
    White,
    Gray,
    DarkGray,
    Yellow,
    Cyan,
    Green,
    Red,
    LightGreen,
    LightRed,
    LightBlue,
    LightYellow,
    LightMagenta,
}

/// How a word is set.
#[derive(Clone, Copy, Debug, PartialEq, Eq, Structural)]
pub struct Face {
    pub ink: Ink,
    pub bold: bool,
    pub reversed: bool,
    pub underlined: bool,
    /// On a yellow ground.
    pub marked: bool,
}

/// A word in one colour.
pub open spec fn in_ink(ink: Ink) -> Face {
    Face { ink, bold: false, reversed: false, underlined: false, marked: false }
}

/// A word in one colour, bold or not.
pub open spec fn in_bold(ink: Ink, bold: bool) -> Face {
    Face { ink, bold, reversed: false, underlined: false, marked: false }
}

impl Face {
    /// A word in one colour.
    pub fn of(ink: Ink) -> (r: Face)
        ensures
            r == in_ink(ink),
    {
        Face { ink, bold: false, reversed: false, underlined: false, marked: false }
    }

    /// A word in one colour, bold or not.
    pub fn bold(ink: Ink, bold: bool) -> (r: Face)
        ensures
            r == in_bold(ink, bold),
    {
        Face { ink, bold, reversed: false, underlined: false, marked: false }
    }
}

/// How a number is written out: with so many digits behind the point, with its sign or
/// not, set to the right in a column of so many characters.
#[derive(Clone, Copy, Debug, PartialEq, Eq, Structural)]
pub struct Digits {
    pub places: u8,
    pub signed: bool,
    pub width: u8,
}

/// A word as contracts see it.
pub enum WordView<N> {
    Text(Seq<char>),
    Number(N, Digits),
    /// As many spaces as push what follows to the right end of a line of so many
    /// characters.
    Fill(nat),
}

/// A word with its face as contracts see it.
pub struct PieceView<N> {
    pub word: WordView<N>,
    pub face: Face,
}

/// A line as contracts see it.
pub type LineView<N> = Seq<PieceView<N>>;

/// A text with its face.
pub open spec fn said<N>(text: Seq<char>, face: Face) -> PieceView<N> {
    PieceView { word: WordView::Text(text), face }
}

/// A number with its face.
pub open spec fn figure<N>(value: N, digits: Digits, face: Face) -> PieceView<N> {
    PieceView { word: WordView::Number(value, digits), face }
}

/// The spaces before what stands at the right end of a line.
pub open spec fn filled<N>(width: nat) -> PieceView<N> {
    PieceView { word: WordView::Fill(width), face: in_ink(Ink::Plain) }
}

/// A word.
pub enum Word<N> {
    Text(String),
    Number(N, Digits),
    Fill(usize),
}

/// A word with its face.
pub struct Piece<N> {
    pub word: Word<N>,
    pub face: Face,
}

impl<N> Piece<N> {
    pub open spec fn view(&self) -> PieceView<N> {
        PieceView {
            word: match self.word {
                Word::Text(s) => WordView::Text(s@),
                Word::Number(n, d) => WordView::Number(n, d),
                Word::Fill(w) => WordView::Fill(w as nat),
            },
            face: self.face,
        }
    }
}

/// A line.
pub struct Line<N> {
    pub pieces: Vec<Piece<N>>,
}

impl<N: Scalar> Line<N> {
    pub open spec fn view(&self) -> LineView<N> {
        Seq::new(self.pieces@.len(), |i: int| self.pieces@[i].view())
    }

    /// The empty line.
    pub fn new() -> (r: Self)
        ensures
            r.view() == Seq::<PieceView<N>>::empty(),
    {
        let r = Line { pieces: Vec::new() };
        assert(r.view() =~= Seq::<PieceView<N>>::empty());
        r
    }

    /// Append a text.
    pub fn say(&mut self, text: &str, face: Face)
        ensures
            final(self).view() == old(self).view().push(said(text@, face)),
    {
        self.pieces.push(Piece { word: Word::Text(text_of(text)), face });
        assert(self.view() =~= old(self).view().push(said(text@, face)));
    }

    /// Append a number.
    pub fn write(&mut self, value: N, digits: Digits, face: Face)
        ensures
            final(self).view() == old(self).view().push(figure(value, digits, face)),
    {
        self.pieces.push(Piece { word: Word::Number(value, digits), face });
        assert(self.view() =~= old(self).view().push(figure(value, digits, face)));
    }

    /// Push what follows to the right end of a line of so many characters.
    pub fn fill(&mut self, width: usize)
        ensures
            final(self).view() == old(self).view().push(filled(width as nat)),
    {
        self.pieces.push(Piece { word: Word::Fill(width), face: Face::of(Ink::Plain) });
        assert(self.view() =~= old(self).view().push(filled(width as nat)));
    }

    /// A line of one text.
    pub fn of(text: &str, face: Face) -> (r: Self)
        ensures
            r.view() == seq![said::<N>(text@, face)],
    {
        let mut line = Line::new();
        line.say(text, face);
        assert(line.view() =~= seq![said::<N>(text@, face)]);
        line
    }
}

/// Lines one below the other.
pub struct Page<N> {
    pub lines: Vec<Line<N>>,
}

impl<N: Scalar> Page<N> {
    pub open spec fn view(&self) -> Seq<LineView<N>> {
        Seq::new(self.lines@.len(), |i: int| self.lines@[i].view())
    }

    /// No lines.
    pub fn new() -> (r: Self)
        ensures
            r.view() == Seq::<LineView<N>>::empty(),
    {
        let r = Page { lines: Vec::new() };
        assert(r.view() =~= Seq::<LineView<N>>::empty());
        r
    }

    /// Append a line.
    pub fn add(&mut self, line: Line<N>)
        ensures
            final(self).view() == old(self).view().push(line.view()),
    {
        self.lines.push(line);
        assert(self.view() =~= old(self).view().push(line.view()));
    }

    /// Append a line of one text.
    pub fn say(&mut self, text: &str, face: Face)
        ensures
            final(self).view() == old(self).view().push(seq![said::<N>(text@, face)]),
    {
        self.add(Line::of(text, face));
    }
}

/// The colour of a move.
pub open spec fn move_ink(mv: Move) -> Ink {
    match mv {
        Move::Hit => Ink::LightGreen,
        Move::Stand => Ink::LightRed,
        Move::Double => Ink::LightBlue,
        Move::Split => Ink::LightYellow,
        Move::Surrender => Ink::LightMagenta,
    }
}

/// The colour of a move.
pub fn move_color(mv: Move) -> (r: Ink)
    ensures
        r == move_ink(mv),
{
    match mv {
        Move::Hit => Ink::LightGreen,
        Move::Stand => Ink::LightRed,
        Move::Double => Ink::LightBlue,
        Move::Split => Ink::LightYellow,
        Move::Surrender => Ink::LightMagenta,
    }
}

/// The colour of a value: green above a billionth, red below minus a billionth.
pub open spec fn value_ink<N: Scalar>(ev: N) -> Ink {
    if N::ratio_spec(1, 1_000_000_000).less_spec(ev) {
        Ink::Green
    } else if ev.less_spec(N::ratio_spec((-1) as i64, 1_000_000_000)) {
        Ink::Red
    } else {
        Ink::DarkGray
    }
}

/// The colour of a value.
pub fn ev_color<N: Scalar>(ev: N) -> (r: Ink)
    ensures
        r == value_ink(ev),
{
    let eps: N = N::ratio(1, 1_000_000_000);
    let neg: N = N::ratio(-1, 1_000_000_000);
    if eps.less(ev) {
        Ink::Green
    } else if ev.less(neg) {
        Ink::Red
    } else {
        Ink::DarkGray
    }
}

pub open spec fn yn_spec(b: bool) -> Seq<char> {
    if b {
        "\u{2713}"@
    } else {
        "\u{2717}"@
    }
}

/// Yes or no in one sign.
pub fn yn(b: bool) -> (r: &'static str)
    ensures
        r@ == yn_spec(b),
{
    if b {
        "\u{2713}"
    } else {
        "\u{2717}"
    }
}

/// A rectangle on the screen.
#[derive(Clone, Copy, Debug, PartialEq, Eq, Structural)]
pub struct Area {
    pub x: u16,
    pub y: u16,
    pub width: u16,
    pub height: u16,
}

/// The rectangle of this size in the middle of another, no larger than it.
pub open spec fn centered(width: u16, height: u16, area: Area) -> Area {
    let w = if width < area.width {
        width
    } else {
        area.width
    };
    let h = if height < area.height {
        height
    } else {
        area.height
    };
    Area {
        x: (area.x + (area.width - w) / 2) as u16,
        y: (area.y + (area.height - h) / 2) as u16,
        width: w,
        height: h,
    }
}

/// The rectangle of this size in the middle of another.
pub fn centered_rect(width: u16, height: u16, area: Area) -> (r: Area)
    requires
        width < area.width ==> area.x + (area.width - width) / 2 <= u16::MAX,
        height < area.height ==> area.y + (area.height - height) / 2 <= u16::MAX,
    ensures
        r == centered(width, height, area),
{
    let w: u16 = if width < area.width {
        width
    } else {
        area.width
    };
    let h: u16 = if height < area.height {
        height
    } else {
        area.height
    };
    Area {
        x: area.x + (area.width - w) / 2,
        y: area.y + (area.height - h) / 2,
        width: w,
        height: h,
    }
}

/// The rectangle lies within the other and leaves as much free on one side as on the
/// other, or one more.
pub proof fn law_centered_is_in_the_middle(width: u16, height: u16, area: Area)
    requires
        area.x + area.width <= u16::MAX,
        area.y + area.height <= u16::MAX,
    ensures
        ({
            let r = centered(width, height, area);
            let left = r.x - area.x;
            let right = (area.x + area.width) - (r.x + r.width);
            let above = r.y - area.y;
            let below = (area.y + area.height) - (r.y + r.height);
            &&& 0 <= left <= right <= left + 1
            &&& 0 <= above <= below <= above + 1
        }),
{
}

} // verus!
