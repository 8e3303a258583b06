use colorblind_sim::color_parser::parse_color;

#[test]
fn test_parse_hex_with_hash() {
    assert_eq!(parse_color("#FF0000").unwrap(), (255, 0, 0));
    assert_eq!(parse_color("#00FF00").unwrap(), (0, 255, 0));
    assert_eq!(parse_color("#0000FF").unwrap(), (0, 0, 255));
}

#[test]
fn test_parse_hex_without_hash() {
    assert_eq!(parse_color("FF0000").unwrap(), (255, 0, 0));
}

#[test]
fn test_parse_rgb() {
    assert_eq!(parse_color("255,0,0").unwrap(), (255, 0, 0));
    assert_eq!(parse_color("0, 255, 0").unwrap(), (0, 255, 0));
    assert_eq!(parse_color("0,0,255").unwrap(), (0, 0, 255));
}

#[test]
fn test_parse_rgbl() {
    assert_eq!(parse_color("255,0,0,128").unwrap(), (255, 0, 0));
}

#[test]
fn test_invalid_formats() {
    assert!(parse_color("").is_err());
    assert!(parse_color("#GG0000").is_err());
    assert!(parse_color("256,0,0").is_err());
}

use colorblind_sim::color_parser::{
    parse_channel, parse_hex, parse_rgb, parse_rgbl, Channel, ColorParseError,
};

fn channel_error(channel: Channel, text: &str) -> ColorParseError {
    ColorParseError::ChannelValue(channel, text.to_string())
}

#[test]
fn whitespace_around_the_text_is_ignored() {
    assert_eq!(parse_color("  #FF8000\t\n"), Ok((255, 128, 0)));
    assert_eq!(parse_color("\u{a0}12,34,56\u{3000}"), Ok((12, 34, 56)));
    assert_eq!(parse_color(" \u{2003}0a0B0c\u{85}"), Ok((10, 11, 12)));
}

#[test]
fn nothing_but_whitespace_is_empty_input() {
    assert_eq!(parse_color(""), Err(ColorParseError::EmptyInput));
    assert_eq!(parse_color("   "), Err(ColorParseError::EmptyInput));
    assert_eq!(parse_color("\t\r\n\u{2028}"), Err(ColorParseError::EmptyInput));
}

#[test]
fn hex_digits_in_either_case() {
    assert_eq!(parse_color("#abcdef"), Ok((0xab, 0xcd, 0xef)));
    assert_eq!(parse_color("#ABCDEF"), Ok((0xab, 0xcd, 0xef)));
    assert_eq!(parse_color("#aBcDeF"), Ok((0xab, 0xcd, 0xef)));
    assert_eq!(parse_color("abcdef"), Ok((0xab, 0xcd, 0xef)));
    assert_eq!(parse_color("012345"), Ok((0x01, 0x23, 0x45)));
}

#[test]
fn hex_of_wrong_length() {
    assert_eq!(parse_color("#"), Err(ColorParseError::HexLength));
    assert_eq!(parse_color("#FFF"), Err(ColorParseError::HexLength));
    assert_eq!(parse_color("#FF00000"), Err(ColorParseError::HexLength));
    assert_eq!(parse_color("#FF0000FF"), Err(ColorParseError::HexLength));
    assert_eq!(parse_color("##FF0000"), Err(ColorParseError::HexLength));
    assert_eq!(parse_color("# FF0000"), Err(ColorParseError::HexLength));
    assert_eq!(parse_color("#\u{e9}00000"), Err(ColorParseError::HexLength));
}

#[test]
fn hex_with_a_wrong_digit_names_the_channel() {
    assert_eq!(parse_color("#GG0000"), Err(ColorParseError::HexDigit(Channel::Red)));
    assert_eq!(parse_color("#0G0000"), Err(ColorParseError::HexDigit(Channel::Red)));
    assert_eq!(parse_color("#00G000"), Err(ColorParseError::HexDigit(Channel::Green)));
    assert_eq!(parse_color("#000G00"), Err(ColorParseError::HexDigit(Channel::Green)));
    assert_eq!(parse_color("#0000G0"), Err(ColorParseError::HexDigit(Channel::Blue)));
    assert_eq!(parse_color("#00000G"), Err(ColorParseError::HexDigit(Channel::Blue)));
    assert_eq!(parse_color("#00GG0G"), Err(ColorParseError::HexDigit(Channel::Green)));
    assert_eq!(parse_color("#+F0000"), Err(ColorParseError::HexDigit(Channel::Red)));
    assert_eq!(parse_color("#12,345"), Err(ColorParseError::HexDigit(Channel::Green)));
}

#[test]
fn hex_of_six_bytes_that_are_not_six_characters() {
    assert_eq!(parse_color("#\u{e9}\u{e9}\u{e9}"), Err(ColorParseError::HexDigit(Channel::Red)));
    assert_eq!(parse_color("#ab\u{20ac}c"), Err(ColorParseError::HexDigit(Channel::Green)));
    assert_eq!(parse_color("#abcd\u{e9}"), Err(ColorParseError::HexDigit(Channel::Blue)));
}

#[test]
fn parse_hex_takes_the_text_with_or_without_the_mark() {
    assert_eq!(parse_hex("#102030"), Ok((16, 32, 48)));
    assert_eq!(parse_hex("102030"), Ok((16, 32, 48)));
    assert_eq!(parse_hex(""), Err(ColorParseError::HexLength));
    assert_eq!(parse_hex(" #102030"), Err(ColorParseError::HexLength));
    assert_eq!(parse_hex("#10203"), Err(ColorParseError::HexLength));
}

#[test]
fn decimal_fields_may_be_padded_signed_and_zero_filled() {
    assert_eq!(parse_color(" 1 ,\t2 , 3 "), Ok((1, 2, 3)));
    assert_eq!(parse_color("+1,+20,+255"), Ok((1, 20, 255)));
    assert_eq!(parse_color("001,0000000000255,000"), Ok((1, 255, 0)));
    assert_eq!(parse_color("0,0,0"), Ok((0, 0, 0)));
    assert_eq!(parse_color("255,255,255"), Ok((255, 255, 255)));
}

#[test]
fn decimal_field_out_of_range_names_the_channel() {
    assert_eq!(parse_color("256,0,0"), Err(channel_error(Channel::Red, "256")));
    assert_eq!(parse_color("0,256,0"), Err(channel_error(Channel::Green, "256")));
    assert_eq!(parse_color("0,0, 1000 "), Err(channel_error(Channel::Blue, "1000")));
    assert_eq!(parse_color("300,400,500"), Err(channel_error(Channel::Red, "300")));
    assert_eq!(
        parse_color("1,99999999999999999999999999,1"),
        Err(channel_error(Channel::Green, "99999999999999999999999999"))
    );
}

#[test]
fn decimal_field_that_is_no_number_names_the_channel() {
    assert_eq!(parse_color("a,0,0"), Err(channel_error(Channel::Red, "a")));
    assert_eq!(parse_color("-1,0,0"), Err(channel_error(Channel::Red, "-1")));
    assert_eq!(parse_color("1.5,0,0"), Err(channel_error(Channel::Red, "1.5")));
    assert_eq!(parse_color("1,,3"), Err(channel_error(Channel::Green, "")));
    assert_eq!(parse_color("1,+,3"), Err(channel_error(Channel::Green, "+")));
    assert_eq!(parse_color("1,2,++3"), Err(channel_error(Channel::Blue, "++3")));
    assert_eq!(parse_color("1,2,1 2"), Err(channel_error(Channel::Blue, "1 2")));
    assert_eq!(parse_color("1,2,"), Err(channel_error(Channel::Blue, "")));
    assert_eq!(parse_color(",2,3"), Err(channel_error(Channel::Red, "")));
    assert_eq!(parse_color("1,2,\u{663}"), Err(channel_error(Channel::Blue, "\u{663}")));
}

#[test]
fn fourth_field_is_not_looked_at() {
    assert_eq!(parse_color("1,2,3,4"), Ok((1, 2, 3)));
    assert_eq!(parse_color("1,2,3,"), Ok((1, 2, 3)));
    assert_eq!(parse_color("1,2,3,luminance"), Ok((1, 2, 3)));
    assert_eq!(parse_color("1,2,3,999"), Ok((1, 2, 3)));
    assert_eq!(parse_color("1,2,x,4"), Err(channel_error(Channel::Blue, "x")));
}

#[test]
fn other_numbers_of_fields_are_no_format() {
    assert_eq!(parse_color("1,2"), Err(ColorParseError::InvalidFormat));
    assert_eq!(parse_color(","), Err(ColorParseError::InvalidFormat));
    assert_eq!(parse_color("1,2,3,4,5"), Err(ColorParseError::InvalidFormat));
    assert_eq!(parse_color("12"), Err(ColorParseError::InvalidFormat));
    assert_eq!(parse_color("red"), Err(ColorParseError::InvalidFormat));
    assert_eq!(parse_color("FFF"), Err(ColorParseError::InvalidFormat));
    assert_eq!(parse_color("FF00000"), Err(ColorParseError::InvalidFormat));
    assert_eq!(parse_color("GG0000"), Err(ColorParseError::InvalidFormat));
    assert_eq!(parse_color("FF 000"), Err(ColorParseError::InvalidFormat));
    assert_eq!(parse_color("rgb(1,2,3)x"), Err(channel_error(Channel::Red, "rgb(1")));
}

#[test]
fn parse_rgb_wants_three_fields() {
    assert_eq!(parse_rgb(&["1", "2", "3"]), Ok((1, 2, 3)));
    assert_eq!(parse_rgb(&[" 1", "2 ", " 3 "]), Ok((1, 2, 3)));
    assert_eq!(parse_rgb(&["1", "2"]), Err(ColorParseError::RgbFieldCount));
    assert_eq!(parse_rgb(&["1", "2", "3", "4"]), Err(ColorParseError::RgbFieldCount));
    assert_eq!(parse_rgb(&[]), Err(ColorParseError::RgbFieldCount));
    assert_eq!(parse_rgb(&["1", "x", "y"]), Err(channel_error(Channel::Green, "x")));
}

#[test]
fn parse_rgbl_wants_four_fields() {
    assert_eq!(parse_rgbl(&["1", "2", "3", "4"]), Ok((1, 2, 3)));
    assert_eq!(parse_rgbl(&["1", "2", "3", "?"]), Ok((1, 2, 3)));
    assert_eq!(parse_rgbl(&["1", "2", "3"]), Err(ColorParseError::RgblFieldCount));
    assert_eq!(parse_rgbl(&["1", "2", "3", "4", "5"]), Err(ColorParseError::RgblFieldCount));
    assert_eq!(parse_rgbl(&["256", "2", "3", "4"]), Err(channel_error(Channel::Red, "256")));
}

#[test]
fn parse_channel_reads_a_byte() {
    assert_eq!(parse_channel("0", Channel::Red), Ok(0));
    assert_eq!(parse_channel(" 255 ", Channel::Green), Ok(255));
    assert_eq!(parse_channel("+7", Channel::Blue), Ok(7));
    assert_eq!(parse_channel("256", Channel::Blue), Err(channel_error(Channel::Blue, "256")));
    assert_eq!(parse_channel("", Channel::Red), Err(channel_error(Channel::Red, "")));
    assert_eq!(parse_channel(" 2 5 ", Channel::Red), Err(channel_error(Channel::Red, "2 5")));
}

#[test]
fn every_byte_is_read_back_from_decimal() {
    for v in 0..=255u8 {
        assert_eq!(parse_channel(&v.to_string(), Channel::Red), Ok(v));
        assert_eq!(parse_color(&format!("{},{},{}", v, 255 - v, v / 2)), Ok((v, 255 - v, v / 2)));
    }
    for v in 256..=1200u32 {
        assert!(parse_channel(&v.to_string(), Channel::Red).is_err());
    }
}

#[test]
fn messages_say_the_reason() {
    assert_eq!(ColorParseError::EmptyInput.message(), "Empty input");
    assert_eq!(
        ColorParseError::HexLength.message(),
        "HEX color must be 6 characters (e.g., #FF0000)"
    );
    assert_eq!(
        ColorParseError::HexDigit(Channel::Red).message(),
        "Invalid HEX value for red channel"
    );
    assert_eq!(
        ColorParseError::HexDigit(Channel::Green).message(),
        "Invalid HEX value for green channel"
    );
    assert_eq!(
        ColorParseError::HexDigit(Channel::Blue).message(),
        "Invalid HEX value for blue channel"
    );
    assert_eq!(
        ColorParseError::RgbFieldCount.message(),
        "RGB format requires exactly 3 values"
    );
    assert_eq!(
        ColorParseError::RgblFieldCount.message(),
        "RGBL format requires exactly 4 values"
    );
    assert_eq!(
        channel_error(Channel::Green, "abc").message(),
        "Invalid green channel value: 'abc'. Must be 0-255"
    );
    assert_eq!(
        ColorParseError::InvalidFormat.message(),
        "Invalid color format. Use HEX (#FF0000), RGB (255,0,0), or RGBL format"
    );
    assert_eq!(
        parse_color("256,0,0").unwrap_err().message(),
        "Invalid red channel value: '256'. Must be 0-255"
    );
    assert_eq!(Channel::Red.name_text(), "red");
    assert_eq!(Channel::Green.name_text(), "green");
    assert_eq!(Channel::Blue.name_text(), "blue");
}
