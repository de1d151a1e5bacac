use clustering_labs::color::{hex_channels, rand_core_channel, HexError, CORE_SHADE};
use std::num::IntErrorKind;

fn by_std(text: &str) -> Result<(u8, u8, u8), HexError> {
    if !text.starts_with('#') {
        return Err(HexError::NoHash);
    }
    match u32::from_str_radix(&text[1..], 16) {
        Ok(number) => Ok((
            ((number & 0xff0000) >> 16) as u8,
            ((number & 0xff00) >> 8) as u8,
            (number & 0xff) as u8,
        )),
        Err(error) => Err(match error.kind() {
            IntErrorKind::Empty => HexError::Empty,
            IntErrorKind::InvalidDigit => HexError::InvalidDigit,
            IntErrorKind::PosOverflow => HexError::Overflow,
            other => panic!("{:?}", other),
        }),
    }
}

#[test]
fn hex_channels_reads_six_digits() {
    assert_eq!(hex_channels("#1e6b8a"), Ok((0x1e, 0x6b, 0x8a)));
    assert_eq!(hex_channels("#FFFFFF"), Ok((255, 255, 255)));
    assert_eq!(hex_channels("#000000"), Ok((0, 0, 0)));
    assert_eq!(hex_channels("#b90000"), Ok((0xb9, 0, 0)));
    assert_eq!(hex_channels("#C8b84A"), Ok((0xc8, 0xb8, 0x4a)));
}

#[test]
fn hex_channels_reads_shorter_and_longer_numbers() {
    assert_eq!(hex_channels("#f"), Ok((0, 0, 15)));
    assert_eq!(hex_channels("#abc"), Ok((0, 0x0a, 0xbc)));
    assert_eq!(hex_channels("#+12345"), Ok((0x01, 0x23, 0x45)));
    assert_eq!(hex_channels("#ff123456"), Ok((0x12, 0x34, 0x56)));
    assert_eq!(hex_channels("#ffffffff"), Ok((255, 255, 255)));
    assert_eq!(hex_channels("#00000000000012ab34"), Ok((0x12, 0xab, 0x34)));
}

#[test]
fn hex_channels_says_why_a_text_is_no_colour() {
    assert_eq!(hex_channels(""), Err(HexError::NoHash));
    assert_eq!(hex_channels("1e6b8a"), Err(HexError::NoHash));
    assert_eq!(hex_channels(" #1e6b8a"), Err(HexError::NoHash));
    assert_eq!(hex_channels("#"), Err(HexError::Empty));
    assert_eq!(hex_channels("#+"), Err(HexError::InvalidDigit));
    assert_eq!(hex_channels("#-1"), Err(HexError::InvalidDigit));
    assert_eq!(hex_channels("#12g456"), Err(HexError::InvalidDigit));
    assert_eq!(hex_channels("#12 456"), Err(HexError::InvalidDigit));
    assert_eq!(hex_channels("#ffffff\u{25a0}"), Err(HexError::InvalidDigit));
    assert_eq!(hex_channels("#100000000"), Err(HexError::Overflow));
    assert_eq!(hex_channels("#fffffffff"), Err(HexError::Overflow));
}

#[test]
fn hex_channels_reports_the_first_fault() {
    assert_eq!(hex_channels("#ffffffffg"), Err(HexError::InvalidDigit));
    assert_eq!(hex_channels("#fffffffffg"), Err(HexError::Overflow));
    assert_eq!(hex_channels("#g fffffffff"), Err(HexError::InvalidDigit));
}

#[test]
fn hex_channels_agrees_with_std() {
    let texts = [
        "#", "#+", "#-", "#++1", "#+-1", "#0", "#+0", "#a", "#G", "#1e6b8a", "#1E6B8A", "#1e6b8",
        "#1e6b8a0", "#ffffffff", "#100000000", "#0ffffffff", "#00000000ffffffff", "#fffffffffg",
        "#ffffffffg", "#12_34", "# 12", "#12 ", "#\u{663}", "#x", "#0x12", "x", "", "##12",
    ];
    for text in texts {
        assert_eq!(hex_channels(text), by_std(text), "{:?}", text);
    }
}

#[test]
fn rand_core_channel_darkens_by_the_shade() {
    assert_eq!(CORE_SHADE, 30);
    assert_eq!(rand_core_channel(30, 0), 0);
    assert_eq!(rand_core_channel(255, 7), 225);
    assert_eq!(rand_core_channel(138, 200), 108);
}

#[test]
fn rand_core_channel_draws_below_the_shade() {
    assert_eq!(rand_core_channel(0, 0), 0);
    assert_eq!(rand_core_channel(29, 0), 0);
    for _ in 0..200 {
        assert!(rand_core_channel(29, 29) <= 29);
        assert!(rand_core_channel(5, 200) <= 200);
    }
    assert!((0..200).any(|_| rand_core_channel(5, 200) > 5));
}
