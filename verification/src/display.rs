use vstd::prelude::*;

use crate::card::{number_rank, Card, Color, Shading, Shape};
use crate::text::{char_to_string, decimal, decimal_string, push_spaces, spaces, chars_of, text_eq, concat3, to_lowercase, trim, trimmed, unicode_lowercase};

verus! {

/// A terminal color: one of the sixteen standard colors, or an RGB triple.
#[derive(Clone, Copy, PartialEq, Eq, Debug, Structural)]
pub enum TermColor {
    Black,
    Red,
    Green,
    Yellow,
    Blue,
    Magenta,
    Cyan,
    White,
    BrightBlack,
    BrightRed,
    BrightGreen,
    BrightYellow,
    BrightBlue,
    BrightMagenta,
    BrightCyan,
    BrightWhite,
    TrueColor { r: u8, g: u8, b: u8 },
}

/// Maps the game's abstract card colors to concrete terminal colors, so
/// players can adjust the palette for their terminal theme or color vision.
#[derive(Clone, Copy, PartialEq, Eq, Debug, Structural)]
pub struct Palette {
    pub red: TermColor,
    pub green: TermColor,
    pub purple: TermColor,
}

impl Default for Palette {
    fn default() -> (p: Palette)
        ensures
            p == (Palette { red: TermColor::Red, green: TermColor::Green, purple: TermColor::Magenta }),
    {
        Palette { red: TermColor::Red, green: TermColor::Green, purple: TermColor::Magenta }
    }
}

/// The value of an ASCII hexadecimal digit, if the character is one.
pub open spec fn hex_value(c: char) -> Option<int> {
    if '0' <= c <= '9' {
        Some(c as int - '0' as int)
    } else if 'a' <= c <= 'f' {
        Some(c as int - 'a' as int + 10)
    } else if 'A' <= c <= 'F' {
        Some(c as int - 'A' as int + 10)
    } else {
        None
    }
}

/// The text without one leading `#`, if it has one.
pub open spec fn without_hash(s: Seq<char>) -> Seq<char> {
    if s.len() > 0 && s[0] == '#' {
        s.drop_first()
    } else {
        s
    }
}

/// The byte written by two hexadecimal digits.
pub open spec fn hex_pair(s: Seq<char>, i: int) -> u8 {
    (hex_value(s[i])->0 * 16 + hex_value(s[i + 1])->0) as u8
}

/// The RGB triple that a hex code such as `#ff8800` or `ff8800` spells:
/// six hexadecimal digits after at most one `#`.
pub open spec fn hex_rgb(s: Seq<char>) -> Option<(u8, u8, u8)> {
    let h = without_hash(s);
    if h.len() == 6 && forall|i: int| 0 <= i < 6 ==> #[trigger] hex_value(h[i]) is Some {
        Some((hex_pair(h, 0), hex_pair(h, 2), hex_pair(h, 4)))
    } else {
        None
    }
}

fn hex_digit(c: char) -> (r: Option<u8>)
    ensures
        match hex_value(c) {
            Some(v) => r == Some(v as u8) && v < 16,
            None => r is None,
        },
{
    if '0' <= c && c <= '9' {
        Some((c as u32 - '0' as u32) as u8)
    } else if 'a' <= c && c <= 'f' {
        Some((c as u32 - 'a' as u32 + 10) as u8)
    } else if 'A' <= c && c <= 'F' {
        Some((c as u32 - 'A' as u32 + 10) as u8)
    } else {
        None
    }
}

/// Parses a hex color code ("#ff8800" or "ff8800") into an RGB triple.
fn parse_hex_code(s: &str) -> (r: Option<(u8, u8, u8)>)
    ensures
        r == hex_rgb(s@),
{
    let cs = chars_of(s);
    let start: usize = if cs.len() > 0 && cs[0] == '#' { 1 } else { 0 };
    let ghost h = without_hash(s@);
    assert(h =~= cs@.subrange(start as int, cs@.len() as int));
    if cs.len() - start != 6 {
        return None;
    }
    let mut vals: Vec<u8> = Vec::new();
    let mut i: usize = 0;
    while i < 6
        invariant
            i <= 6,
            cs@ == s@,
            h == cs@.subrange(start as int, cs@.len() as int),
            h.len() == 6,
            start <= 1,
            cs@.len() == start + 6,
            vals@.len() == i,
            forall|t: int| 0 <= t < i ==> #[trigger] hex_value(h[t]) is Some && vals@[t] == hex_value(h[t])->0 && vals@[t] < 16,
        decreases 6 - i,
    {
        match hex_digit(cs[start + i]) {
            Some(v) => vals.push(v),
            None => {
                return None;
            },
        }
        i = i + 1;
    }
    let r = vals[0] * 16 + vals[1];
    let g = vals[2] * 16 + vals[3];
    let b = vals[4] * 16 + vals[5];
    Some((r, g, b))
}

/// The terminal color a lowercase color name stands for.
pub open spec fn named_color(s: Seq<char>) -> Option<TermColor> {
    if s == "black"@ {
        Some(TermColor::Black)
    } else if s == "red"@ {
        Some(TermColor::Red)
    } else if s == "green"@ {
        Some(TermColor::Green)
    } else if s == "yellow"@ {
        Some(TermColor::Yellow)
    } else if s == "blue"@ {
        Some(TermColor::Blue)
    } else if s == "magenta"@ {
        Some(TermColor::Magenta)
    } else if s == "purple"@ {
        Some(TermColor::Magenta)
    } else if s == "cyan"@ {
        Some(TermColor::Cyan)
    } else if s == "white"@ {
        Some(TermColor::White)
    } else if s == "bright_black"@ {
        Some(TermColor::BrightBlack)
    } else if s == "gray"@ {
        Some(TermColor::BrightBlack)
    } else if s == "grey"@ {
        Some(TermColor::BrightBlack)
    } else if s == "bright_red"@ {
        Some(TermColor::BrightRed)
    } else if s == "bright_green"@ {
        Some(TermColor::BrightGreen)
    } else if s == "bright_yellow"@ {
        Some(TermColor::BrightYellow)
    } else if s == "bright_blue"@ {
        Some(TermColor::BrightBlue)
    } else if s == "bright_magenta"@ {
        Some(TermColor::BrightMagenta)
    } else if s == "bright_cyan"@ {
        Some(TermColor::BrightCyan)
    } else if s == "bright_white"@ {
        Some(TermColor::BrightWhite)
    } else {
        None
    }
}

/// The terminal color a lowercase color name stands for, such as
/// `bright_blue`, or `None` for a name it does not know.
pub fn color_from_name(name: &str) -> (r: Option<TermColor>)
    ensures
        r == named_color(name@),
{
    if text_eq(name, "black") {
        Some(TermColor::Black)
    } else if text_eq(name, "red") {
        Some(TermColor::Red)
    } else if text_eq(name, "green") {
        Some(TermColor::Green)
    } else if text_eq(name, "yellow") {
        Some(TermColor::Yellow)
    } else if text_eq(name, "blue") {
        Some(TermColor::Blue)
    } else if text_eq(name, "magenta") {
        Some(TermColor::Magenta)
    } else if text_eq(name, "purple") {
        Some(TermColor::Magenta)
    } else if text_eq(name, "cyan") {
        Some(TermColor::Cyan)
    } else if text_eq(name, "white") {
        Some(TermColor::White)
    } else if text_eq(name, "bright_black") {
        Some(TermColor::BrightBlack)
    } else if text_eq(name, "gray") {
        Some(TermColor::BrightBlack)
    } else if text_eq(name, "grey") {
        Some(TermColor::BrightBlack)
    } else if text_eq(name, "bright_red") {
        Some(TermColor::BrightRed)
    } else if text_eq(name, "bright_green") {
        Some(TermColor::BrightGreen)
    } else if text_eq(name, "bright_yellow") {
        Some(TermColor::BrightYellow)
    } else if text_eq(name, "bright_blue") {
        Some(TermColor::BrightBlue)
    } else if text_eq(name, "bright_magenta") {
        Some(TermColor::BrightMagenta)
    } else if text_eq(name, "bright_cyan") {
        Some(TermColor::BrightCyan)
    } else if text_eq(name, "bright_white") {
        Some(TermColor::BrightWhite)
    } else {
        None
    }
}

/// The conventional name of each of the sixteen standard terminal colors.
pub open spec fn standard_name(c: TermColor) -> Seq<char> {
    match c {
        TermColor::Black => "black"@,
        TermColor::Red => "red"@,
        TermColor::Green => "green"@,
        TermColor::Yellow => "yellow"@,
        TermColor::Blue => "blue"@,
        TermColor::Magenta => "magenta"@,
        TermColor::Cyan => "cyan"@,
        TermColor::White => "white"@,
        TermColor::BrightBlack => "bright_black"@,
        TermColor::BrightRed => "bright_red"@,
        TermColor::BrightGreen => "bright_green"@,
        TermColor::BrightYellow => "bright_yellow"@,
        TermColor::BrightBlue => "bright_blue"@,
        TermColor::BrightMagenta => "bright_magenta"@,
        TermColor::BrightCyan => "bright_cyan"@,
        TermColor::BrightWhite => "bright_white"@,
        TermColor::TrueColor { .. } => Seq::empty(),
    }
}

/// Every standard terminal color is reached by its own name, and two
/// names give the same color only where one is an alias of the other
/// (`purple` for magenta; `gray` and `grey` for bright black): no other
/// name is shared, and no name gives an RGB color.
pub proof fn lemma_color_names(c: TermColor, a: Seq<char>, b: Seq<char>)
    ensures
        !(c is TrueColor) ==> named_color(standard_name(c)) == Some(c),
        named_color(a) is Some ==> !(named_color(a)->0 is TrueColor),
        named_color(a) is Some && named_color(a) == named_color(b) ==> a == b || (named_color(a)
            == Some(TermColor::Magenta) && (a == "magenta"@ || a == "purple"@) && (b == "magenta"@
            || b == "purple"@)) || (named_color(a) == Some(TermColor::BrightBlack) && (a
            == "bright_black"@ || a == "gray"@ || a == "grey"@) && (b == "bright_black"@ || b
            == "gray"@ || b == "grey"@)),
{
    reveal_strlit("black");
    reveal_strlit("red");
    reveal_strlit("green");
    reveal_strlit("yellow");
    reveal_strlit("blue");
    reveal_strlit("magenta");
    reveal_strlit("purple");
    reveal_strlit("cyan");
    reveal_strlit("white");
    reveal_strlit("bright_black");
    reveal_strlit("gray");
    reveal_strlit("grey");
    reveal_strlit("bright_red");
    reveal_strlit("bright_green");
    reveal_strlit("bright_yellow");
    reveal_strlit("bright_blue");
    reveal_strlit("bright_magenta");
    reveal_strlit("bright_cyan");
    reveal_strlit("bright_white");
    assert("black"@[0] != "red"@[0]);
    assert("black"@[0] != "green"@[0]);
    assert("red"@[0] != "green"@[0]);
    assert("black"@[0] != "yellow"@[0]);
    assert("red"@[0] != "yellow"@[0]);
    assert("green"@[0] != "yellow"@[0]);
    assert("black"@[2] != "blue"@[2]);
    assert("red"@[0] != "blue"@[0]);
    assert("green"@[0] != "blue"@[0]);
    assert("yellow"@[0] != "blue"@[0]);
    assert("black"@[0] != "magenta"@[0]);
    assert("red"@[0] != "magenta"@[0]);
    assert("green"@[0] != "magenta"@[0]);
    assert("yellow"@[0] != "magenta"@[0]);
    assert("blue"@[0] != "magenta"@[0]);
    assert("black"@[0] != "purple"@[0]);
    assert("red"@[0] != "purple"@[0]);
    assert("green"@[0] != "purple"@[0]);
    assert("yellow"@[0] != "purple"@[0]);
    assert("blue"@[0] != "purple"@[0]);
    assert("magenta"@[0] != "purple"@[0]);
    assert("black"@[0] != "cyan"@[0]);
    assert("red"@[0] != "cyan"@[0]);
    assert("green"@[0] != "cyan"@[0]);
    assert("yellow"@[0] != "cyan"@[0]);
    assert("blue"@[0] != "cyan"@[0]);
    assert("magenta"@[0] != "cyan"@[0]);
    assert("purple"@[0] != "cyan"@[0]);
    assert("black"@[0] != "white"@[0]);
    assert("red"@[0] != "white"@[0]);
    assert("green"@[0] != "white"@[0]);
    assert("yellow"@[0] != "white"@[0]);
    assert("blue"@[0] != "white"@[0]);
    assert("magenta"@[0] != "white"@[0]);
    assert("purple"@[0] != "white"@[0]);
    assert("cyan"@[0] != "white"@[0]);
    assert("black"@[1] != "bright_black"@[1]);
    assert("red"@[0] != "bright_black"@[0]);
    assert("green"@[0] != "bright_black"@[0]);
    assert("yellow"@[0] != "bright_black"@[0]);
    assert("blue"@[1] != "bright_black"@[1]);
    assert("magenta"@[0] != "bright_black"@[0]);
    assert("purple"@[0] != "bright_black"@[0]);
    assert("cyan"@[0] != "bright_black"@[0]);
    assert("white"@[0] != "bright_black"@[0]);
    assert("black"@[0] != "gray"@[0]);
    assert("red"@[0] != "gray"@[0]);
    assert("green"@[2] != "gray"@[2]);
    assert("yellow"@[0] != "gray"@[0]);
    assert("blue"@[0] != "gray"@[0]);
    assert("magenta"@[0] != "gray"@[0]);
    assert("purple"@[0] != "gray"@[0]);
    assert("cyan"@[0] != "gray"@[0]);
    assert("white"@[0] != "gray"@[0]);
    assert("bright_black"@[0] != "gray"@[0]);
    assert("black"@[0] != "grey"@[0]);
    assert("red"@[0] != "grey"@[0]);
    assert("green"@[3] != "grey"@[3]);
    assert("yellow"@[0] != "grey"@[0]);
    assert("blue"@[0] != "grey"@[0]);
    assert("magenta"@[0] != "grey"@[0]);
    assert("purple"@[0] != "grey"@[0]);
    assert("cyan"@[0] != "grey"@[0]);
    assert("white"@[0] != "grey"@[0]);
    assert("bright_black"@[0] != "grey"@[0]);
    assert("gray"@[2] != "grey"@[2]);
    assert("black"@[1] != "bright_red"@[1]);
    assert("red"@[0] != "bright_red"@[0]);
    assert("green"@[0] != "bright_red"@[0]);
    assert("yellow"@[0] != "bright_red"@[0]);
    assert("blue"@[1] != "bright_red"@[1]);
    assert("magenta"@[0] != "bright_red"@[0]);
    assert("purple"@[0] != "bright_red"@[0]);
    assert("cyan"@[0] != "bright_red"@[0]);
    assert("white"@[0] != "bright_red"@[0]);
    assert("bright_black"@[7] != "bright_red"@[7]);
    assert("gray"@[0] != "bright_red"@[0]);
    assert("grey"@[0] != "bright_red"@[0]);
    assert("black"@[1] != "bright_green"@[1]);
    assert("red"@[0] != "bright_green"@[0]);
    assert("green"@[0] != "bright_green"@[0]);
    assert("yellow"@[0] != "bright_green"@[0]);
    assert("blue"@[1] != "bright_green"@[1]);
    assert("magenta"@[0] != "bright_green"@[0]);
    assert("purple"@[0] != "bright_green"@[0]);
    assert("cyan"@[0] != "bright_green"@[0]);
    assert("white"@[0] != "bright_green"@[0]);
    assert("bright_black"@[7] != "bright_green"@[7]);
    assert("gray"@[0] != "bright_green"@[0]);
    assert("grey"@[0] != "bright_green"@[0]);
    assert("bright_red"@[7] != "bright_green"@[7]);
    assert("black"@[1] != "bright_yellow"@[1]);
    assert("red"@[0] != "bright_yellow"@[0]);
    assert("green"@[0] != "bright_yellow"@[0]);
    assert("yellow"@[0] != "bright_yellow"@[0]);
    assert("blue"@[1] != "bright_yellow"@[1]);
    assert("magenta"@[0] != "bright_yellow"@[0]);
    assert("purple"@[0] != "bright_yellow"@[0]);
    assert("cyan"@[0] != "bright_yellow"@[0]);
    assert("white"@[0] != "bright_yellow"@[0]);
    assert("bright_black"@[7] != "bright_yellow"@[7]);
    assert("gray"@[0] != "bright_yellow"@[0]);
    assert("grey"@[0] != "bright_yellow"@[0]);
    assert("bright_red"@[7] != "bright_yellow"@[7]);
    assert("bright_green"@[7] != "bright_yellow"@[7]);
    assert("black"@[1] != "bright_blue"@[1]);
    assert("red"@[0] != "bright_blue"@[0]);
    assert("green"@[0] != "bright_blue"@[0]);
    assert("yellow"@[0] != "bright_blue"@[0]);
    assert("blue"@[1] != "bright_blue"@[1]);
    assert("magenta"@[0] != "bright_blue"@[0]);
    assert("purple"@[0] != "bright_blue"@[0]);
    assert("cyan"@[0] != "bright_blue"@[0]);
    assert("white"@[0] != "bright_blue"@[0]);
    assert("bright_black"@[9] != "bright_blue"@[9]);
    assert("gray"@[0] != "bright_blue"@[0]);
    assert("grey"@[0] != "bright_blue"@[0]);
    assert("bright_red"@[7] != "bright_blue"@[7]);
    assert("bright_green"@[7] != "bright_blue"@[7]);
    assert("bright_yellow"@[7] != "bright_blue"@[7]);
    assert("black"@[1] != "bright_magenta"@[1]);
    assert("red"@[0] != "bright_magenta"@[0]);
    assert("green"@[0] != "bright_magenta"@[0]);
    assert("yellow"@[0] != "bright_magenta"@[0]);
    assert("blue"@[1] != "bright_magenta"@[1]);
    assert("magenta"@[0] != "bright_magenta"@[0]);
    assert("purple"@[0] != "bright_magenta"@[0]);
    assert("cyan"@[0] != "bright_magenta"@[0]);
    assert("white"@[0] != "bright_magenta"@[0]);
    assert("bright_black"@[7] != "bright_magenta"@[7]);
    assert("gray"@[0] != "bright_magenta"@[0]);
    assert("grey"@[0] != "bright_magenta"@[0]);
    assert("bright_red"@[7] != "bright_magenta"@[7]);
    assert("bright_green"@[7] != "bright_magenta"@[7]);
    assert("bright_yellow"@[7] != "bright_magenta"@[7]);
    assert("bright_blue"@[7] != "bright_magenta"@[7]);
    assert("black"@[1] != "bright_cyan"@[1]);
    assert("red"@[0] != "bright_cyan"@[0]);
    assert("green"@[0] != "bright_cyan"@[0]);
    assert("yellow"@[0] != "bright_cyan"@[0]);
    assert("blue"@[1] != "bright_cyan"@[1]);
    assert("magenta"@[0] != "bright_cyan"@[0]);
    assert("purple"@[0] != "bright_cyan"@[0]);
    assert("cyan"@[0] != "bright_cyan"@[0]);
    assert("white"@[0] != "bright_cyan"@[0]);
    assert("bright_black"@[7] != "bright_cyan"@[7]);
    assert("gray"@[0] != "bright_cyan"@[0]);
    assert("grey"@[0] != "bright_cyan"@[0]);
    assert("bright_red"@[7] != "bright_cyan"@[7]);
    assert("bright_green"@[7] != "bright_cyan"@[7]);
    assert("bright_yellow"@[7] != "bright_cyan"@[7]);
    assert("bright_blue"@[7] != "bright_cyan"@[7]);
    assert("bright_magenta"@[7] != "bright_cyan"@[7]);
    assert("black"@[1] != "bright_white"@[1]);
    assert("red"@[0] != "bright_white"@[0]);
    assert("green"@[0] != "bright_white"@[0]);
    assert("yellow"@[0] != "bright_white"@[0]);
    assert("blue"@[1] != "bright_white"@[1]);
    assert("magenta"@[0] != "bright_white"@[0]);
    assert("purple"@[0] != "bright_white"@[0]);
    assert("cyan"@[0] != "bright_white"@[0]);
    assert("white"@[0] != "bright_white"@[0]);
    assert("bright_black"@[7] != "bright_white"@[7]);
    assert("gray"@[0] != "bright_white"@[0]);
    assert("grey"@[0] != "bright_white"@[0]);
    assert("bright_red"@[7] != "bright_white"@[7]);
    assert("bright_green"@[7] != "bright_white"@[7]);
    assert("bright_yellow"@[7] != "bright_white"@[7]);
    assert("bright_blue"@[7] != "bright_white"@[7]);
    assert("bright_magenta"@[7] != "bright_white"@[7]);
    assert("bright_cyan"@[7] != "bright_white"@[7]);
}

/// The color a palette entry spells: a hex code, or else a color name in
/// any letter case, with surrounding white space ignored.
pub open spec fn spec_color(s: Seq<char>) -> Option<TermColor> {
    match hex_rgb(trimmed(s)) {
        Some((r, g, b)) => Some(TermColor::TrueColor { r, g, b }),
        None => named_color(unicode_lowercase(trimmed(s))),
    }
}

/// Parses a terminal color name (e.g. "red", "bright_blue") or a hex RGB
/// code (e.g. "#ff8800") for use in a custom palette. Returns None for
/// unrecognized values.
pub fn parse_color_name(s: &str) -> (r: Option<TermColor>)
    ensures
        r == spec_color(s@),
{
    let t = trim(s);
    if let Some((r, g, b)) = parse_hex_code(t) {
        return Some(TermColor::TrueColor { r, g, b });
    }
    let lower = to_lowercase(t);
    color_from_name(lower.as_str())
}

/// The pieces of a text between commas, as `str::split(',')` gives them.
pub open spec fn comma_pieces(s: Seq<char>) -> Seq<Seq<char>>
    decreases s.len(),
{
    if s.len() == 0 {
        seq![Seq::empty()]
    } else if s.last() == ',' {
        comma_pieces(s.drop_last()).push(Seq::empty())
    } else {
        let p = comma_pieces(s.drop_last());
        p.update(p.len() - 1, p.last().push(s.last()))
    }
}

proof fn lemma_comma_pieces_nonempty(s: Seq<char>)
    ensures
        comma_pieces(s).len() >= 1,
    decreases s.len(),
{
    if s.len() > 0 {
        lemma_comma_pieces_nonempty(s.drop_last());
    }
}

/// Splits a text at its commas.
pub fn split_commas(s: &str) -> (pieces: Vec<&str>)
    ensures
        pieces@.map_values(|p: &str| p@) == comma_pieces(s@),
{
    let cs = chars_of(s);
    let n = cs.len();
    let mut pieces: Vec<&str> = Vec::new();
    let mut start: usize = 0;
    let mut i: usize = 0;
    assert(s@.take(0) =~= Seq::<char>::empty());
    assert(pieces@.map_values(|p: &str| p@).push(s@.subrange(0, 0)) =~= seq![Seq::<char>::empty()]);
    while i < n
        invariant
            cs@ == s@,
            n == s@.len(),
            start <= i <= n,
            pieces@.map_values(|p: &str| p@).push(s@.subrange(start as int, i as int))
                == comma_pieces(s@.take(i as int)),
        decreases n - i,
    {
        let ghost before = pieces@.map_values(|p: &str| p@);
        assert(s@.take(i + 1).drop_last() =~= s@.take(i as int));
        assert(s@.take(i + 1).last() == s@[i as int]);
        if cs[i] == ',' {
            pieces.push(s.substring_char(start, i));
            assert(pieces@.map_values(|p: &str| p@) =~= before.push(s@.subrange(start as int, i as int)));
            start = i + 1;
            assert(s@.subrange(start as int, i + 1) =~= Seq::<char>::empty());
        } else {
            assert(s@.subrange(start as int, i + 1) =~= s@.subrange(start as int, i as int).push(s@[i as int]));
            assert(before.push(s@.subrange(start as int, i + 1)) =~= before.push(s@.subrange(start as int, i as int)).update(before.len() as int, s@.subrange(start as int, i as int).push(s@[i as int])));
        }
        i = i + 1;
    }
    let ghost before = pieces@.map_values(|p: &str| p@);
    pieces.push(s.substring_char(start, n));
    assert(pieces@.map_values(|p: &str| p@) =~= before.push(s@.subrange(start as int, n as int)));
    assert(s@.take(n as int) =~= s@);
    pieces
}

/// The message for a palette that is not three colors.
pub open spec fn palette_count_message(spec: Seq<char>) -> Seq<char> {
    "--colors needs 3 comma-separated colors (red,green,purple), got \""@ + spec + "\""@
}

/// The message for a palette entry that is no color.
pub open spec fn unknown_color_message(part: Seq<char>) -> Seq<char> {
    "unknown color \""@ + part + "\" (use a name like \"red\" or a hex code like \"#ff8800\")"@
}

/// What a `--colors <red>,<green>,<purple>` value gives: a palette, or the
/// message naming the first offending piece.
pub open spec fn spec_palette(spec: Seq<char>) -> Result<Palette, Seq<char>> {
    let p = comma_pieces(spec);
    if p.len() != 3 {
        Err(palette_count_message(spec))
    } else if spec_color(p[0]) is None {
        Err(unknown_color_message(p[0]))
    } else if spec_color(p[1]) is None {
        Err(unknown_color_message(p[1]))
    } else if spec_color(p[2]) is None {
        Err(unknown_color_message(p[2]))
    } else {
        Ok(Palette { red: spec_color(p[0])->0, green: spec_color(p[1])->0, purple: spec_color(p[2])->0 })
    }
}

/// An executable palette result agrees with a specified one.
pub open spec fn same_palette(r: Result<Palette, String>, s: Result<Palette, Seq<char>>) -> bool {
    match (r, s) {
        (Ok(a), Ok(b)) => a == b,
        (Err(m), Err(t)) => m@ == t,
        _ => false,
    }
}

/// Parses a `--colors <red>,<green>,<purple>` value into a Palette.
/// Returns an error message naming the offending token on failure.
pub fn parse_palette(spec: &str) -> (r: Result<Palette, String>)
    ensures
        same_palette(r, spec_palette(spec@)),
{
    let parts = split_commas(spec);
    if parts.len() != 3 {
        return Err(concat3(
            "--colors needs 3 comma-separated colors (red,green,purple), got \"",
            spec,
            "\"",
        ));
    }
    let ghost p = comma_pieces(spec@);
    assert(parts@[0]@ == p[0] && parts@[1]@ == p[1] && parts@[2]@ == p[2]);
    let red = match parse_color_name(parts[0]) {
        Some(c) => c,
        None => return Err(unknown_color(parts[0])),
    };
    let green = match parse_color_name(parts[1]) {
        Some(c) => c,
        None => return Err(unknown_color(parts[1])),
    };
    let purple = match parse_color_name(parts[2]) {
        Some(c) => c,
        None => return Err(unknown_color(parts[2])),
    };
    Ok(Palette { red, green, purple })
}

fn unknown_color(part: &str) -> (m: String)
    ensures
        m@ == unknown_color_message(part@),
{
    concat3(
        "unknown color \"",
        part,
        "\" (use a name like \"red\" or a hex code like \"#ff8800\")",
    )
}

/// The symbol drawn for a shape with a shading.
pub open spec fn glyph_of(shape: Shape, shading: Shading) -> char {
    match (shape, shading) {
        (Shape::Diamond, Shading::Solid) => '◆',
        (Shape::Diamond, Shading::Striped) => '⬖',
        (Shape::Diamond, Shading::Empty) => '◇',
        (Shape::Squiggle, Shading::Solid) => '■',
        (Shape::Squiggle, Shading::Striped) => '◧',
        (Shape::Squiggle, Shading::Empty) => '□',
        (Shape::Oval, Shading::Solid) => '●',
        (Shape::Oval, Shading::Striped) => '◐',
        (Shape::Oval, Shading::Empty) => '○',
    }
}

/// The symbol drawn for a shape with a shading.
pub fn glyph(shape: Shape, shading: Shading) -> (g: char)
    ensures
        g == glyph_of(shape, shading),
{
    match (shape, shading) {
        (Shape::Diamond, Shading::Solid) => '◆',
        (Shape::Diamond, Shading::Striped) => '⬖',
        (Shape::Diamond, Shading::Empty) => '◇',
        (Shape::Squiggle, Shading::Solid) => '■',
        (Shape::Squiggle, Shading::Striped) => '◧',
        (Shape::Squiggle, Shading::Empty) => '□',
        (Shape::Oval, Shading::Solid) => '●',
        (Shape::Oval, Shading::Striped) => '◐',
        (Shape::Oval, Shading::Empty) => '○',
    }
}

/// The terminal color the palette gives a card color.
pub open spec fn color_in(color: Color, palette: Palette) -> TermColor {
    match color {
        Color::Red => palette.red,
        Color::Green => palette.green,
        Color::Purple => palette.purple,
    }
}

/// The terminal color the palette gives a card color.
pub fn term_color(color: Color, palette: &Palette) -> (t: TermColor)
    ensures
        t == color_in(color, *palette),
{
    match color {
        Color::Red => palette.red,
        Color::Green => palette.green,
        Color::Purple => palette.purple,
    }
}

/// The seven characters inside a card's frame: its symbols, centered and
/// separated by spaces.
pub open spec fn content_of(card: Card) -> Seq<char> {
    let g = glyph_of(card.shape, card.shading);
    if number_rank(card.number) == 0 {
        spaces(3) + seq![g] + spaces(3)
    } else if number_rank(card.number) == 1 {
        spaces(2) + seq![g] + spaces(1) + seq![g] + spaces(2)
    } else {
        spaces(1) + seq![g] + spaces(1) + seq![g] + spaces(1) + seq![g] + spaces(1)
    }
}

/// The inside of a card's frame.
pub fn card_content(card: &Card) -> (s: String)
    ensures
        s@ == content_of(*card),
{
    let g = char_to_string(glyph(card.shape, card.shading));
    let mut s = String::new();
    match card.number.count() {
        1 => {
            push_spaces(&mut s, 3);
            s.append(g.as_str());
            push_spaces(&mut s, 3);
        },
        2 => {
            push_spaces(&mut s, 2);
            s.append(g.as_str());
            push_spaces(&mut s, 1);
            s.append(g.as_str());
            push_spaces(&mut s, 2);
        },
        _ => {
            push_spaces(&mut s, 1);
            s.append(g.as_str());
            push_spaces(&mut s, 1);
            s.append(g.as_str());
            push_spaces(&mut s, 1);
            s.append(g.as_str());
            push_spaces(&mut s, 1);
        },
    }
    assert(s@ =~= content_of(*card));
    s
}

/// Every shape with every shading has a symbol of its own, and none of
/// them is a space: two cards are drawn with the same symbol only when
/// they have the same shape and the same shading.
pub proof fn lemma_glyphs_distinct(shape1: Shape, shading1: Shading, shape2: Shape, shading2: Shading)
    ensures
        glyph_of(shape1, shading1) != ' ',
        glyph_of(shape1, shading1) == glyph_of(shape2, shading2) ==> shape1 == shape2 && shading1
            == shading2,
{
}

/// A card's face tells its number, shape and shading: two cards whose
/// frames hold the same characters agree on all three.
pub proof fn lemma_face_tells_card(a: Card, b: Card)
    ensures
        content_of(a).len() == 7,
        content_of(a) == content_of(b) ==> a.number == b.number && a.shape == b.shape && a.shading
            == b.shading,
{
    lemma_glyphs_distinct(a.shape, a.shading, b.shape, b.shading);
    let (ca, cb) = (content_of(a), content_of(b));
    if ca == cb {
        assert(ca[1] == cb[1] && ca[2] == cb[2] && ca[3] == cb[3]);
    }
}

/// How many cards a board row shows.
pub const COLUMNS: usize = 4;

/// The width of a card's inside.
pub const CARD_INNER_WIDTH: usize = 7;

/// The label under slot number `n` (1-based): `[n]` centered in the width
/// of a framed card, the extra space going to the right.
pub open spec fn label_of(n: nat) -> Seq<char> {
    let core = seq!['['] + decimal(n) + seq![']'];
    let width = CARD_INNER_WIDTH + 2;
    if core.len() >= width {
        core
    } else {
        let pad = width - core.len();
        spaces((pad / 2) as nat) + core + spaces((pad - pad / 2) as nat)
    }
}

/// The label under slot number `n`.
pub fn slot_label(n: u64) -> (s: String)
    ensures
        s@ == label_of(n as nat),
{
    let digits = decimal_string(n);
    let open = char_to_string('[');
    let close = char_to_string(']');
    let core = concat3(open.as_str(), digits.as_str(), close.as_str());
    let len = core.unicode_len();
    let width = CARD_INNER_WIDTH + 2;
    if len >= width {
        core
    } else {
        let pad = width - len;
        let mut s = String::new();
        push_spaces(&mut s, pad / 2);
        s.append(core.as_str());
        push_spaces(&mut s, pad - pad / 2);
        assert(s@ =~= label_of(n as nat));
        s
    }
}

/// What one board slot shows: the inside of its card frame (blank for an
/// empty slot), the color to draw it in, the label under it, and whether
/// the label is highlighted as newly dealt.
pub struct SlotView {
    pub content: String,
    pub color: Option<TermColor>,
    pub label: String,
    pub highlighted: bool,
}

/// The inside of a slot's frame.
pub open spec fn slot_content(slot: Option<Card>) -> Seq<char> {
    match slot {
        Some(c) => content_of(c),
        None => spaces(CARD_INNER_WIDTH as nat),
    }
}

/// The color of a slot.
pub open spec fn slot_color(slot: Option<Card>, palette: Palette) -> Option<TermColor> {
    match slot {
        Some(c) => Some(color_in(c.color, palette)),
        None => None,
    }
}

/// What the board shows, row by row: `COLUMNS` slots per row (fewer in the
/// last), slot `k` of the board at row `k / COLUMNS`, place `k % COLUMNS`,
/// labelled with `k + 1` and highlighted when highlighting is on and `k`
/// is among the newly dealt slots.
pub fn board_layout(
    cards: &[Option<Card>],
    palette: &Palette,
    new_indices: &[usize],
    highlight: bool,
) -> (rows: Vec<Vec<SlotView>>)
    ensures
        rows@.len() == (cards@.len() + COLUMNS - 1) / COLUMNS as int,
        forall|r: int|
            0 <= r < rows@.len() ==> #[trigger] rows@[r]@.len() == if cards@.len() - r * COLUMNS
                >= COLUMNS {
                COLUMNS as int
            } else {
                cards@.len() - r * COLUMNS
            },
        forall|r: int, c: int|
            0 <= r < rows@.len() && 0 <= c < rows@[r]@.len() ==> {
                let k = r * COLUMNS + c;
                let v = #[trigger] rows@[r]@[c];
                &&& v.content@ == slot_content(cards@[k])
                &&& v.color == slot_color(cards@[k], *palette)
                &&& v.label@ == label_of((k + 1) as nat)
                &&& v.highlighted == (highlight && new_indices@.contains(k as usize))
            },
{
    let n = cards.len();
    let mut rows: Vec<Vec<SlotView>> = Vec::new();
    let mut start: usize = 0;
    while start < n
        invariant
            n == cards@.len(),
            start <= n,
            start == rows@.len() * COLUMNS || start == n,
            rows@.len() == (start + COLUMNS - 1) / COLUMNS as int,
            forall|r: int|
                0 <= r < rows@.len() ==> #[trigger] rows@[r]@.len() == if cards@.len() - r * COLUMNS
                    >= COLUMNS {
                    COLUMNS as int
                } else {
                    cards@.len() - r * COLUMNS
                },
            forall|r: int, c: int|
                0 <= r < rows@.len() && 0 <= c < rows@[r]@.len() ==> {
                    let k = r * COLUMNS + c;
                    let v = #[trigger] rows@[r]@[c];
                    &&& v.content@ == slot_content(cards@[k])
                    &&& v.color == slot_color(cards@[k], *palette)
                    &&& v.label@ == label_of((k + 1) as nat)
                    &&& v.highlighted == (highlight && new_indices@.contains(k as usize))
                },
        decreases n - start,
    {
        let end = if n - start >= COLUMNS { start + COLUMNS } else { n };
        let mut row: Vec<SlotView> = Vec::new();
        let mut k = start;
        while k < end
            invariant
                n == cards@.len(),
                start < end <= n,
                start <= k <= end,
                row@.len() == k - start,
                forall|c: int|
                    0 <= c < row@.len() ==> {
                        let kk = start + c;
                        let v = #[trigger] row@[c];
                        &&& v.content@ == slot_content(cards@[kk])
                        &&& v.color == slot_color(cards@[kk], *palette)
                        &&& v.label@ == label_of((kk + 1) as nat)
                        &&& v.highlighted == (highlight && new_indices@.contains(kk as usize))
                    },
            decreases end - k,
        {
            let (content, color) = match cards[k] {
                Some(card) => (card_content(&card), Some(term_color(card.color, palette))),
                None => {
                    let mut blank = String::new();
                    push_spaces(&mut blank, CARD_INNER_WIDTH);
                    (blank, None)
                },
            };
            let label = slot_label(k as u64 + 1);
            let highlighted = highlight && contains_index(new_indices, k);
            row.push(SlotView { content, color, label, highlighted });
            k = k + 1;
        }
        rows.push(row);
        start = end;
    }
    rows
}

/// Whether `k` is among `idxs`.
fn contains_index(idxs: &[usize], k: usize) -> (r: bool)
    ensures
        r == idxs@.contains(k),
{
    let mut t: usize = 0;
    while t < idxs.len()
        invariant
            t <= idxs@.len(),
            forall|x: int| 0 <= x < t ==> idxs@[x] != k,
        decreases idxs@.len() - t,
    {
        if idxs[t] == k {
            return true;
        }
        t = t + 1;
    }
    false
}

} // verus!
