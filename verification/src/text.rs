//! Numbers as text, for messages.

use vstd::prelude::*;
use vstd::string::StringExecFns;

verus! {

/// The digit for a value below sixteen.
pub open spec fn digit(d: int) -> Seq<char> {
    if d == 0 {
        "0"@
    } else if d == 1 {
        "1"@
    } else if d == 2 {
        "2"@
    } else if d == 3 {
        "3"@
    } else if d == 4 {
        "4"@
    } else if d == 5 {
        "5"@
    } else if d == 6 {
        "6"@
    } else if d == 7 {
        "7"@
    } else if d == 8 {
        "8"@
    } else if d == 9 {
        "9"@
    } else if d == 10 {
        "a"@
    } else if d == 11 {
        "b"@
    } else if d == 12 {
        "c"@
    } else if d == 13 {
        "d"@
    } else if d == 14 {
        "e"@
    } else {
        "f"@
    }
}

/// `n` in decimal, without leading zeros.
pub open spec fn decimal(n: int) -> Seq<char>
    decreases n,
{
    if n < 10 {
        digit(n)
    } else {
        decimal(n / 10) + digit(n % 10)
    }
}

/// The last `width` hexadecimal digits of `n`.
pub open spec fn hex_digits(n: int, width: nat) -> Seq<char>
    decreases width,
{
    if width == 0 {
        Seq::empty()
    } else {
        hex_digits(n / 16, (width - 1) as nat) + digit(n % 16)
    }
}

/// `n` as `0x` and sixteen hexadecimal digits.
pub open spec fn hex_u64(n: u64) -> Seq<char> {
    "0x"@ + hex_digits(n as int, 16)
}

fn digit_str(d: u64) -> (s: &'static str)
    requires
        d < 16,
    ensures
        s@ == digit(d as int),
{
    match d {
        0 => "0",
        1 => "1",
        2 => "2",
        3 => "3",
        4 => "4",
        5 => "5",
        6 => "6",
        7 => "7",
        8 => "8",
        9 => "9",
        10 => "a",
        11 => "b",
        12 => "c",
        13 => "d",
        14 => "e",
        _ => "f",
    }
}

/// Appends `n` in decimal.
pub fn push_decimal(text: &mut String, n: u128)
    ensures
        final(text)@ == old(text)@ + decimal(n as int),
    decreases n,
{
    if n >= 10 {
        push_decimal(text, n / 10);
        text.append(digit_str((n % 10) as u64));
        assert(text@ =~= old(text)@ + decimal(n as int));
    } else {
        text.append(digit_str(n as u64));
    }
}

fn push_hex_digits(text: &mut String, n: u64, width: u8)
    ensures
        final(text)@ == old(text)@ + hex_digits(n as int, width as nat),
    decreases width,
{
    if width > 0 {
        push_hex_digits(text, n / 16, width - 1);
        text.append(digit_str(n % 16));
    }
    assert(text@ =~= old(text)@ + hex_digits(n as int, width as nat));
}

/// Appends `n` as `0x` and sixteen hexadecimal digits.
pub fn push_hex(text: &mut String, n: u64)
    ensures
        final(text)@ == old(text)@ + hex_u64(n),
{
    text.append("0x");
    push_hex_digits(text, n, 16);
    assert(text@ =~= old(text)@ + hex_u64(n));
}

} // verus!
