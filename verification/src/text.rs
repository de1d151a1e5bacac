//! Numbers as decimal text.

use vstd::prelude::*;

verus! {

/// The character of one decimal digit.
pub open spec fn digit_char(digit: nat) -> char {
    if digit == 0 {
        '0'
    } else if digit == 1 {
        '1'
    } else if digit == 2 {
        '2'
    } else if digit == 3 {
        '3'
    } else if digit == 4 {
        '4'
    } else if digit == 5 {
        '5'
    } else if digit == 6 {
        '6'
    } else if digit == 7 {
        '7'
    } else if digit == 8 {
        '8'
    } else {
        '9'
    }
}

/// The decimal digits of `number`, without leading zeros.
pub open spec fn decimal(number: nat) -> Seq<char>
    decreases number,
{
    if number < 10 {
        seq![digit_char(number)]
    } else {
        decimal(number / 10).push(digit_char(number % 10))
    }
}

/// A number of tenths as decimal text: the whole part, and after a point the
/// tenths where there are any.
pub open spec fn tenths(number: nat) -> Seq<char> {
    if number % 10 == 0 {
        decimal(number / 10)
    } else {
        decimal(number / 10).push('.').push(digit_char(number % 10))
    }
}

/// One decimal digit as text.
pub fn digit_str(digit: u8) -> (text: &'static str)
    requires
        digit < 10,
    ensures
        text@ == seq![digit_char(digit as nat)],
{
    proof {
        reveal_strlit("0");
        reveal_strlit("1");
        reveal_strlit("2");
        reveal_strlit("3");
        reveal_strlit("4");
        reveal_strlit("5");
        reveal_strlit("6");
        reveal_strlit("7");
        reveal_strlit("8");
        reveal_strlit("9");
    }
    let text = match digit {
        0 => "0",
        1 => "1",
        2 => "2",
        3 => "3",
        4 => "4",
        5 => "5",
        6 => "6",
        7 => "7",
        8 => "8",
        _ => "9",
    };
    assert(text@ =~= seq![digit_char(digit as nat)]);
    text
}

/// Writes the decimal digits of `number` at the end of `out`.
pub fn append_decimal(out: &mut String, number: u64)
    ensures
        final(out)@ == old(out)@ + decimal(number as nat),
    decreases number,
{
    if number >= 10 {
        append_decimal(out, number / 10);
    }
    out.append(digit_str((number % 10) as u8));
    assert(out@ =~= old(out)@ + decimal(number as nat));
}

/// Writes `number`, a number of tenths, at the end of `out`.
pub fn append_tenths(out: &mut String, number: u64)
    ensures
        final(out)@ == old(out)@ + tenths(number as nat),
{
    append_decimal(out, number / 10);
    if number % 10 != 0 {
        out.append(".");
        out.append(digit_str((number % 10) as u8));
        proof {
            reveal_strlit(".");
        }
    }
    assert(out@ =~= old(out)@ + tenths(number as nat));
}

} // verus!
