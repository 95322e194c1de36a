//! Text building: decimal numbers and the pieces that labels are made of.
use vstd::prelude::*;
use vstd::string::*;

verus! {

/// `String::push` appends one character.
pub assume_specification[ String::push ](s: &mut String, c: char)
    ensures
        final(s)@ == old(s)@.push(c),
;

/// The character that writes the digit `d`.
pub open spec fn digit(d: int) -> char {
    if d == 0 {
        '0'
    } else if d == 1 {
        '1'
    } else if d == 2 {
        '2'
    } else if d == 3 {
        '3'
    } else if d == 4 {
        '4'
    } else if d == 5 {
        '5'
    } else if d == 6 {
        '6'
    } else if d == 7 {
        '7'
    } else if d == 8 {
        '8'
    } else {
        '9'
    }
}

/// The decimal digits of `n`, the highest first and without leading zeros.
pub open spec fn digits(n: nat) -> Seq<char>
    decreases n,
{
    if n < 10 {
        seq![digit(n as int)]
    } else {
        digits(n / 10).push(digit((n % 10) as int))
    }
}

/// A whole number in decimal: a minus sign in front of a negative one.
pub open spec fn decimal(n: int) -> Seq<char> {
    if n < 0 {
        seq!['-'] + digits((-n) as nat)
    } else {
        digits(n as nat)
    }
}

/// A whole number in decimal with its sign in front, a plus sign for zero too.
pub open spec fn signed(n: int) -> Seq<char> {
    if n < 0 {
        seq!['-'] + digits((-n) as nat)
    } else {
        seq!['+'] + digits(n as nat)
    }
}

fn digit_char(d: u64) -> (r: char)
    requires
        d < 10,
    ensures
        r == digit(d as int),
{
    if d == 0 {
        '0'
    } else if d == 1 {
        '1'
    } else if d == 2 {
        '2'
    } else if d == 3 {
        '3'
    } else if d == 4 {
        '4'
    } else if d == 5 {
        '5'
    } else if d == 6 {
        '6'
    } else if d == 7 {
        '7'
    } else if d == 8 {
        '8'
    } else {
        '9'
    }
}

fn push_digits(out: &mut String, n: u64)
    ensures
        final(out)@ == old(out)@ + digits(n as nat),
    decreases n,
{
    if n >= 10 {
        push_digits(out, n / 10);
    }
    out.push(digit_char(n % 10));
    proof {
        assert(out@ =~= old(out)@ + digits(n as nat));
    }
}

fn size_of_negative(n: i64) -> (r: u64)
    requires
        n < 0,
    ensures
        r == -n,
{
    ((-(n + 1)) as u64) + 1
}

/// Append a whole number in decimal.
pub fn push_decimal(out: &mut String, n: i64)
    ensures
        final(out)@ == old(out)@ + decimal(n as int),
{
    if n < 0 {
        out.push('-');
        push_digits(out, size_of_negative(n));
    } else {
        push_digits(out, n as u64);
    }
    proof {
        assert(out@ =~= old(out)@ + decimal(n as int));
    }
}

/// Append a whole number in decimal with its sign in front.
pub fn push_signed(out: &mut String, n: i64)
    ensures
        final(out)@ == old(out)@ + signed(n as int),
{
    if n < 0 {
        out.push('-');
        push_digits(out, size_of_negative(n));
    } else {
        out.push('+');
        push_digits(out, n as u64);
    }
    proof {
        assert(out@ =~= old(out)@ + signed(n as int));
    }
}

/// Append a number that counts something.
pub fn push_count(out: &mut String, n: usize)
    ensures
        final(out)@ == old(out)@ + digits(n as nat),
{
    push_digits(out, n as u64);
}

/// Append a piece of text.
pub fn push_text(out: &mut String, piece: &str)
    ensures
        final(out)@ == old(out)@ + piece@,
{
    out.append(piece);
}

/// The same character over and over.
pub open spec fn repeated(c: char, n: int) -> Seq<char> {
    Seq::new(
        if n > 0 {
            n as nat
        } else {
            0
        },
        |i: int| c,
    )
}

/// A text set to the right in a column of `width`.
pub open spec fn to_right(s: Seq<char>, width: int) -> Seq<char> {
    repeated(' ', width - s.len()) + s
}

/// A text set to the left in a column of `width`.
pub open spec fn to_left(s: Seq<char>, width: int) -> Seq<char> {
    s + repeated(' ', width - s.len())
}

/// A text in the middle of a column of `width`, with the rest filled up; one more on the
/// right where it does not come out even.
pub open spec fn in_middle(s: Seq<char>, fill: char, width: int) -> Seq<char> {
    let rest = if width > s.len() {
        width - s.len()
    } else {
        0
    };
    repeated(fill, rest / 2) + s + repeated(fill, rest - rest / 2)
}

/// Append a character over and over.
pub fn push_repeated(out: &mut String, c: char, n: usize)
    ensures
        final(out)@ == old(out)@ + repeated(c, n as int),
{
    let ghost before = out@;
    let mut i: usize = 0;
    assert(out@ =~= before + repeated(c, 0));
    while i < n
        invariant
            i <= n,
            out@ == before + repeated(c, i as int),
        decreases n - i,
    {
        out.push(c);
        assert(out@ =~= before + repeated(c, i + 1));
        i += 1;
    }
}

/// A text set to the right.
pub fn set_right(piece: &str, width: usize) -> (r: String)
    ensures
        r@ == to_right(piece@, width as int),
{
    let n: usize = piece.unicode_len();
    let mut out = String::new();
    let pad: usize = if width > n {
        width - n
    } else {
        0
    };
    push_repeated(&mut out, ' ', pad);
    push_text(&mut out, piece);
    assert(out@ =~= to_right(piece@, width as int));
    out
}

/// A text set to the left.
pub fn set_left(piece: &str, width: usize) -> (r: String)
    ensures
        r@ == to_left(piece@, width as int),
{
    let n: usize = piece.unicode_len();
    let mut out = String::new();
    push_text(&mut out, piece);
    let pad: usize = if width > n {
        width - n
    } else {
        0
    };
    push_repeated(&mut out, ' ', pad);
    assert(out@ =~= to_left(piece@, width as int));
    out
}

/// A text in the middle.
pub fn set_middle(piece: &str, fill: char, width: usize) -> (r: String)
    ensures
        r@ == in_middle(piece@, fill, width as int),
{
    let n: usize = piece.unicode_len();
    let mut out = String::new();
    let rest: usize = if width > n {
        width - n
    } else {
        0
    };
    push_repeated(&mut out, fill, rest / 2);
    push_text(&mut out, piece);
    push_repeated(&mut out, fill, rest - rest / 2);
    assert(out@ =~= in_middle(piece@, fill, width as int));
    out
}

/// A text of one's own.
pub fn text_of(piece: &str) -> (r: String)
    ensures
        r@ == piece@,
{
    let mut out = String::new();
    push_text(&mut out, piece);
    assert(out@ =~= piece@);
    out
}

} // verus!
