//! The channels of a colour: read from hexadecimal text, and darkened for
//! the core of a class.

use crate::utils::rand_isize_in_range;
use vstd::prelude::*;

verus! {

/// Why a text is not a colour.
#[derive(Clone, Copy, Debug, PartialEq, Eq)]
pub enum HexError {
    /// The text does not begin with `#`.
    NoHash,
    /// Nothing follows the `#`.
    Empty,
    /// A character after the `#` is no hexadecimal digit, or a `+` stands
    /// there alone.
    InvalidDigit,
    /// The number is above what 32 bits hold.
    Overflow,
}

/// By how much a channel is darkened, and below which it is drawn anew.
pub const CORE_SHADE: u8 = 30;

/// The value of a hexadecimal digit, in either case.
pub open spec fn hex_digit(c: char) -> Option<nat> {
    if '0' <= c <= '9' {
        Some((c as nat - '0' as nat) as nat)
    } else if 'a' <= c <= 'f' {
        Some((c as nat - 'a' as nat + 10) as nat)
    } else if 'A' <= c <= 'F' {
        Some((c as nat - 'A' as nat + 10) as nat)
    } else {
        None
    }
}

/// Every character of `digits` is a hexadecimal digit.
pub open spec fn all_hex(digits: Seq<char>) -> bool {
    forall|i: int| 0 <= i < digits.len() ==> hex_digit(#[trigger] digits[i]) is Some
}

/// The number that hexadecimal digits stand for, the first digit counting most.
pub open spec fn hex_value(digits: Seq<char>) -> nat
    decreases digits.len(),
{
    if digits.len() == 0 {
        0
    } else {
        hex_value(digits.drop_last()) * 16 + hex_digit(digits.last()).unwrap()
    }
}

/// The digits of a colour text: what follows the `#`, and a `+` after it.
pub open spec fn hex_digits(text: Seq<char>) -> Seq<char> {
    if text.len() >= 2 && text[1] == '+' {
        text.skip(2)
    } else {
        text.skip(1)
    }
}

/// The red, green and blue channel of a colour number: the third, second and
/// first byte from its low end.
pub open spec fn channels(number: nat) -> (u8, u8, u8) {
    ((number / 65536 % 256) as u8, (number / 256 % 256) as u8, (number % 256) as u8)
}

/// The first `n` characters of `digits` are hexadecimal digits, and the
/// next one, where there is one, is none.
pub open spec fn is_valid_prefix(digits: Seq<char>, n: int) -> bool {
    &&& 0 <= n <= digits.len()
    &&& all_hex(digits.take(n))
    &&& n == digits.len() || hex_digit(digits[n]) is None
}

/// The number of hexadecimal digits at the head of `digits`.
pub open spec fn valid_len(digits: Seq<char>) -> int {
    choose|n: int| is_valid_prefix(digits, n)
}

/// What a colour text holds: its channels, or why it is no colour. A colour
/// is a `#`, then one or more hexadecimal digits, before them a `+` or
/// nothing, for a number that 32 bits hold. The digits are read from the
/// left, and the first fault decides: a number that has outgrown 32 bits
/// before a character that is no digit is an overflow.
pub open spec fn read_hex(text: Seq<char>) -> Result<(u8, u8, u8), HexError> {
    if text.len() == 0 || text[0] != '#' {
        Err(HexError::NoHash)
    } else if text.len() == 1 {
        Err(HexError::Empty)
    } else {
        let digits = hex_digits(text);
        let valid = digits.take(valid_len(digits));
        if hex_value(valid) > u32::MAX {
            Err(HexError::Overflow)
        } else if valid.len() < digits.len() || digits.len() == 0 {
            Err(HexError::InvalidDigit)
        } else {
            Ok(channels(hex_value(digits)))
        }
    }
}

/// The value of a hexadecimal digit, in either case.
pub fn hex_digit_value(c: char) -> (value: Option<u8>)
    ensures
        match value {
            Some(digit) => hex_digit(c) == Some(digit as nat) && digit < 16,
            None => hex_digit(c) is None,
        },
{
    if '0' <= c && c <= '9' {
        Some((c as u32 - '0' as u32) as u8)
    } else if 'a' <= c && c <= 'f' {
        Some((c as u32 - 'a' as u32 + 10) as u8)
    } else if 'A' <= c && c <= 'F' {
        Some((c as u32 - 'A' as u32 + 10) as u8)
    } else {
        None
    }
}

/// The value of hexadecimal digits grows with every digit that is added.
proof fn lemma_hex_value_grows(digits: Seq<char>, shorter: int, longer: int)
    requires
        0 <= shorter <= longer <= digits.len(),
        all_hex(digits.take(longer)),
    ensures
        hex_value(digits.take(shorter)) <= hex_value(digits.take(longer)),
    decreases longer - shorter,
{
    if shorter < longer {
        lemma_hex_value_grows(digits, shorter, longer - 1);
        assert(digits.take(longer).drop_last() =~= digits.take(longer - 1));
        assert forall|k: int| 0 <= k < longer - 1 implies hex_digit(
            #[trigger] digits.take(longer - 1)[k],
        ) is Some by {
            assert(digits.take(longer)[k] == digits[k]);
        }
        assert(digits.take(longer)[longer - 1] == digits[longer - 1]);
    }
}

/// The hexadecimal digits at the head of `digits` end somewhere at or after `from`.
proof fn lemma_valid_prefix_from(digits: Seq<char>, from: int) -> (n: int)
    requires
        0 <= from <= digits.len(),
        all_hex(digits.take(from)),
    ensures
        is_valid_prefix(digits, n),
        from <= n,
    decreases digits.len() - from,
{
    if from == digits.len() || hex_digit(digits[from]) is None {
        from
    } else {
        assert forall|k: int| 0 <= k < from + 1 implies hex_digit(
            #[trigger] digits.take(from + 1)[k],
        ) is Some by {
            if k < from {
                assert(digits.take(from)[k] == digits[k]);
            }
        }
        lemma_valid_prefix_from(digits, from + 1)
    }
}

/// The hexadecimal digits at the head of `digits` end at one place only.
proof fn lemma_valid_prefix_unique(digits: Seq<char>, n: int)
    requires
        is_valid_prefix(digits, n),
    ensures
        valid_len(digits) == n,
{
    let m = valid_len(digits);
    assert(is_valid_prefix(digits, m));
    if m < n {
        assert(digits.take(n)[m] == digits[m]);
    }
    if n < m {
        assert(digits.take(m)[n] == digits[n]);
    }
}

/// The red, green and blue channel of the colour that `hex` names.
pub fn hex_channels(hex: &str) -> (colour: Result<(u8, u8, u8), HexError>)
    ensures
        colour == read_hex(hex@),
{
    let len = hex.unicode_len();
    if len == 0 || hex.get_char(0) != '#' {
        return Err(HexError::NoHash);
    }
    if len == 1 {
        return Err(HexError::Empty);
    }
    let first: usize = if hex.get_char(1) == '+' {
        2
    } else {
        1
    };
    let ghost digits = hex_digits(hex@);
    let mut number: u32 = 0;
    let mut i: usize = first;
    assert(digits.take(0) =~= Seq::empty());
    while i < len
        invariant
            first <= i <= len,
            2 <= len == hex@.len(),
            hex@[0] == '#',
            digits == hex_digits(hex@),
            digits == hex@.skip(first as int),
            all_hex(digits.take(i - first)),
            number == hex_value(digits.take(i - first)),
        decreases len - i,
    {
        assert(digits[i - first] == hex@[i as int]);
        assert(digits.take(i + 1 - first).drop_last() =~= digits.take(i - first));
        match hex_digit_value(hex.get_char(i)) {
            None => {
                proof {
                    lemma_valid_prefix_unique(digits, i - first);
                }
                return Err(HexError::InvalidDigit);
            },
            Some(digit) => {
                proof {
                    assert forall|k: int| 0 <= k < i + 1 - first implies hex_digit(
                        #[trigger] digits.take(i + 1 - first)[k],
                    ) is Some by {
                        if k < i - first {
                            assert(digits.take(i - first)[k] == digits[k]);
                        }
                    }
                    assert(hex_value(digits.take(i + 1 - first)) == number * 16 + digit);
                }
                if number > (u32::MAX - digit as u32) / 16 {
                    proof {
                        let n = lemma_valid_prefix_from(digits, i + 1 - first);
                        lemma_valid_prefix_unique(digits, n);
                        lemma_hex_value_grows(digits, i + 1 - first, n);
                    }
                    return Err(HexError::Overflow);
                }
                number = number * 16 + digit as u32;
            },
        }
        i += 1;
    }
    proof {
        lemma_valid_prefix_unique(digits, len - first);
        assert(digits.take(len - first) =~= digits);
    }
    if first == len {
        return Err(HexError::InvalidDigit);
    }
    Ok(((number / 65536 % 256) as u8, (number / 256 % 256) as u8, (number % 256) as u8))
}

/// The channel of a core colour for `channel`, where `draw` stands for a
/// number up to `bound`: darker by the shade, or drawn anew where the channel
/// is below the shade.
pub open spec fn core_channel(channel: u8, bound: u8, draw: int) -> int {
    if channel >= CORE_SHADE {
        channel - CORE_SHADE
    } else {
        draw
    }
}

/// The channel of a core colour for `channel`: darker by the shade, or a
/// random number up to `bound` where the channel is below the shade.
pub fn rand_core_channel(channel: u8, bound: u8) -> (core: u8)
    ensures
        exists|draw: int| 0 <= draw <= bound && core == core_channel(channel, bound, draw),
{
    if channel >= CORE_SHADE {
        assert(0 <= 0 <= bound && channel - CORE_SHADE == core_channel(channel, bound, 0));
        channel - CORE_SHADE
    } else {
        let draw = rand_isize_in_range(0, bound as isize);
        assert(0 <= draw <= bound && draw == core_channel(channel, bound, draw as int));
        draw as u8
    }
}

} // verus!
