//! Terminal decoration of progress lines with ANSI escape codes.
use vstd::prelude::*;
use vstd::string::{StrSliceExecFns, StringExecFns};

verus! {

#[derive(Clone, Copy, Debug, PartialEq, Eq, Structural)]
pub enum Color {
    Black,
    Red,
    Green,
    Yellow,
    Blue,
    Purple,
    Cyan,
    White,
}

#[derive(Clone, Copy, Debug, PartialEq, Eq, Structural)]
pub enum Style {
    Regular,
    Bold,
    Underline,
}

#[derive(Clone, Copy, Debug, PartialEq, Eq, Structural)]
pub enum Intensity {
    Low,
    High,
}

/// The foreground code: 30 to 37, or 90 to 97 when bright.
pub open spec fn color_code(color: Color, intensity: Intensity) -> nat {
    let base: nat = match color {
        Color::Black => 30,
        Color::Red => 31,
        Color::Green => 32,
        Color::Yellow => 33,
        Color::Blue => 34,
        Color::Purple => 35,
        Color::Cyan => 36,
        Color::White => 37,
    };
    match intensity {
        Intensity::Low => base,
        Intensity::High => base + 60,
    }
}

pub open spec fn style_code(style: Style) -> nat {
    match style {
        Style::Regular => 0,
        Style::Bold => 1,
        Style::Underline => 4,
    }
}

/// Decimal text of `n`, without leading zeros.
pub open spec fn dec_of(n: nat) -> Seq<char>
    decreases n,
{
    if n < 10 {
        seq![(('0' as nat) + n) as char]
    } else {
        dec_of(n / 10).push((('0' as nat) + n % 10) as char)
    }
}

/// `line` between the escape that selects the style and color and the
/// escape that resets them.
pub open spec fn colored_spec(line: Seq<char>, color: Color, style: Style, intensity: Intensity) -> Seq<
    char,
> {
    seq!['\x1b', '['] + dec_of(style_code(style)) + seq![';'] + dec_of(color_code(color, intensity))
        + seq!['m'] + line + seq!['\x1b', '[', '0', 'm']
}

fn decimal(n: u8) -> (r: String)
    ensures
        r@ == dec_of(n as nat),
    decreases n,
{
    let digits = "0123456789";
    proof {
        reveal_strlit("0123456789");
    }
    if n < 10 {
        let d = n as usize;
        let s = digits.substring_char(d, d + 1);
        assert(s@ =~= seq![(('0' as nat) + n) as char]);
        String::from_str(s)
    } else {
        let mut r = decimal(n / 10);
        let d = (n % 10) as usize;
        let s = digits.substring_char(d, d + 1);
        assert(s@ =~= seq![(('0' as nat) + n % 10) as char]);
        r.append(s);
        r
    }
}

/// `line` wrapped in the ANSI escapes for `color`, `style` and `intensity`.
pub fn colored_string(line: &str, color: Color, style: Style, intensity: Intensity) -> (r: String)
    ensures
        r@ == colored_spec(line@, color, style, intensity),
{
    let base: u8 = match color {
        Color::Black => 30,
        Color::Red => 31,
        Color::Green => 32,
        Color::Yellow => 33,
        Color::Blue => 34,
        Color::Purple => 35,
        Color::Cyan => 36,
        Color::White => 37,
    };
    let color_number: u8 = match intensity {
        Intensity::Low => base,
        Intensity::High => base + 60,
    };
    let style_number: u8 = match style {
        Style::Regular => 0,
        Style::Bold => 1,
        Style::Underline => 4,
    };
    let open = "\x1b[";
    let semi = ";";
    let m = "m";
    let reset = "\x1b[0m";
    proof {
        reveal_strlit("\x1b[");
        reveal_strlit(";");
        reveal_strlit("m");
        reveal_strlit("\x1b[0m");
    }
    let mut r = String::from_str(open);
    r.append(decimal(style_number).as_str());
    r.append(semi);
    r.append(decimal(color_number).as_str());
    r.append(m);
    r.append(line);
    r.append(reset);
    assert(r@ =~= colored_spec(line@, color, style, intensity));
    r
}

} // verus!
