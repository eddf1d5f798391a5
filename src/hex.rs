//! Upper-case hexadecimal rendering of unsigned integers, as `{:X}` prints them.
use vstd::prelude::*;

verus! {

/// The upper-case hexadecimal digit for a value below sixteen.
pub open spec fn hex_digit(d: nat) -> char {
    if d < 10 {
        (('0' as nat) + d) as char
    } else {
        (('A' as nat) + d - 10) as char
    }
}

/// Upper-case hexadecimal text of `n`, most significant digit first, no padding.
pub open spec fn hex_of(n: nat) -> Seq<char>
    decreases n,
{
    if n < 16 {
        seq![hex_digit(n)]
    } else {
        hex_of(n / 16).push(hex_digit(n % 16))
    }
}

/// The one-character text of a digit below sixteen.
fn digit_text(d: u128) -> (r: &'static str)
    requires
        d < 16,
    ensures
        r@ == seq![hex_digit(d as nat)],
{
    let alphabet = "0123456789ABCDEF";
    proof {
        reveal_strlit("0123456789ABCDEF");
    }
    let i = d as usize;
    let r = alphabet.substring_char(i, i + 1);
    assert(alphabet@[i as int] == hex_digit(d as nat));
    assert(r@ =~= seq![hex_digit(d as nat)]);
    r
}

/// `n` in upper-case hexadecimal, without leading zeros (`0` is `"0"`).
pub fn hex_upper(n: u128) -> (r: String)
    ensures
        r@ == hex_of(n as nat),
    decreases n,
{
    if n < 16 {
        String::from_str(digit_text(n))
    } else {
        let mut r = hex_upper(n / 16);
        r.append(digit_text(n % 16));
        r
    }
}

} // verus!
