//! Colours and text helpers for showing a board.

use vstd::prelude::*;
use vstd::string::*;
use vstd::utf8::encode_utf8;

verus! {

/// The colours that a cell or a line of text can be shown in.
#[derive(Clone, Copy, Debug, PartialEq, Eq, Structural)]
pub enum Color {
    GREEN,
    YELLOW,
    WHITE,
    CYAN,
    MAGENTA,
    BLUE,
    RED,
}

/// A colour's name, in capitals.
pub open spec fn color_name(c: Color) -> Seq<char> {
    match c {
        Color::GREEN => "GREEN"@,
        Color::YELLOW => "YELLOW"@,
        Color::WHITE => "WHITE"@,
        Color::CYAN => "CYAN"@,
        Color::MAGENTA => "MAGENTA"@,
        Color::BLUE => "BLUE"@,
        Color::RED => "RED"@,
    }
}

/// The number of a colour's pair on the screen: 1 for green up to 7 for red.
pub open spec fn color_code(c: Color) -> int {
    match c {
        Color::GREEN => 1,
        Color::YELLOW => 2,
        Color::WHITE => 3,
        Color::CYAN => 4,
        Color::MAGENTA => 5,
        Color::BLUE => 6,
        Color::RED => 7,
    }
}

impl Color {
    pub fn name(&self) -> (name: String)
        ensures
            name@ == color_name(*self),
    {
        let name = match self {
            Color::GREEN => "GREEN",
            Color::YELLOW => "YELLOW",
            Color::WHITE => "WHITE",
            Color::CYAN => "CYAN",
            Color::MAGENTA => "MAGENTA",
            Color::BLUE => "BLUE",
            Color::RED => "RED",
        };
        name.to_owned()
    }

    pub fn code(&self) -> (code: i16)
        ensures
            code == color_code(*self),
    {
        match self {
            Color::GREEN => 1,
            Color::YELLOW => 2,
            Color::WHITE => 3,
            Color::CYAN => 4,
            Color::MAGENTA => 5,
            Color::BLUE => 6,
            Color::RED => 7,
        }
    }
}

/// Two colours with one name are one colour.
pub proof fn lemma_color_names_differ(a: Color, b: Color)
    ensures
        color_name(a) == color_name(b) <==> a == b,
{
    reveal_strlit("GREEN");
    reveal_strlit("YELLOW");
    reveal_strlit("WHITE");
    reveal_strlit("CYAN");
    reveal_strlit("MAGENTA");
    reveal_strlit("BLUE");
    reveal_strlit("RED");
    if a != b {
        let x = color_name(a);
        let y = color_name(b);
        assert(x.len() != y.len() || x[0] != y[0]);
    }
}

/// `n` blanks.
pub open spec fn spaces(n: nat) -> Seq<char> {
    Seq::new(n, |i: int| ' ')
}

/// `text`, which takes `len` places, in the middle of `width` places: the
/// blanks that are missing go half behind it and the rest, one more if their
/// number is odd, before it. A text that fills the width is left as it is.
pub open spec fn centered(text: Seq<char>, len: nat, width: nat) -> Seq<char> {
    if len < width {
        let end = (width - len) / 2;
        let start = width - len - end;
        spaces(start as nat) + text + spaces(end as nat)
    } else {
        text
    }
}

/// A string of `n` blanks.
fn blanks(n: usize) -> (out: String)
    ensures
        out@ == spaces(n as nat),
{
    let mut out = String::new();
    let mut i: usize = 0;
    while i < n
        invariant
            i <= n,
            out@ == spaces(i as nat),
        decreases n - i,
    {
        proof {
            reveal_strlit(" ");
            assert(spaces(i as nat) + " "@ =~= spaces((i + 1) as nat));
        }
        out.append(" ");
        i += 1;
    }
    out
}

/// Centres `val` in `width` places, counting each byte of `val` as one place.
pub fn format_middle(val: String, width: usize) -> (out: String)
    ensures
        out@ == centered(val@, encode_utf8(val@).len(), width as nat),
{
    let len = val.as_str().as_bytes().len();
    if len < width {
        let end = (width - len) / 2;
        let start = width - len - end;
        let mut out = blanks(start);
        out.append(val.as_str());
        let tail = blanks(end);
        out.append(tail.as_str());
        out
    } else {
        val
    }
}

/// The character for one decimal digit.
pub open spec fn digit(d: nat) -> char {
    if d == 0 {
        '0'
    } else if d == 1 {
        '1'
    } else if d == 2 {
        '2'
    } else if d == 3 {
        '3'
    } else if d == 4 {
        '4'
    } else if d == 5 {
        '5'
    } else if d == 6 {
        '6'
    } else if d == 7 {
        '7'
    } else if d == 8 {
        '8'
    } else {
        '9'
    }
}

/// A number in decimal digits, without leading zeros.
pub open spec fn decimal(n: nat) -> Seq<char>
    decreases n,
{
    if n < 10 {
        seq![digit(n)]
    } else {
        decimal(n / 10).push(digit(n % 10))
    }
}

/// The text of one decimal digit.
fn digit_text(d: u32) -> (text: &'static str)
    requires
        d < 10,
    ensures
        text@ == seq![digit(d as nat)],
{
    proof {
        reveal_strlit("0");
        reveal_strlit("1");
        reveal_strlit("2");
        reveal_strlit("3");
        reveal_strlit("4");
        reveal_strlit("5");
        reveal_strlit("6");
        reveal_strlit("7");
        reveal_strlit("8");
        reveal_strlit("9");
    }
    let text = match d {
        0 => "0",
        1 => "1",
        2 => "2",
        3 => "3",
        4 => "4",
        5 => "5",
        6 => "6",
        7 => "7",
        8 => "8",
        _ => "9",
    };
    assert(text@ =~= seq![digit(d as nat)]);
    text
}

/// Writes a number in decimal digits.
pub fn decimal_string(n: u32) -> (text: String)
    ensures
        text@ == decimal(n as nat),
    decreases n,
{
    if n < 10 {
        digit_text(n).to_owned()
    } else {
        let mut text = decimal_string(n / 10);
        let last = digit_text(n % 10);
        text.append(last);
        assert(text@ =~= decimal(n as nat));
        text
    }
}

} // verus!
