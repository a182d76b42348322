use richparse::tag::parse_color;
use richparse::Color;

#[test]
fn standard_names() {
    assert_eq!(parse_color("black"), Some(Color::Black));
    assert_eq!(parse_color("red"), Some(Color::Red));
    assert_eq!(parse_color("green"), Some(Color::Green));
    assert_eq!(parse_color("yellow"), Some(Color::Yellow));
    assert_eq!(parse_color("blue"), Some(Color::Blue));
    assert_eq!(parse_color("magenta"), Some(Color::Magenta));
    assert_eq!(parse_color("cyan"), Some(Color::Cyan));
    assert_eq!(parse_color("white"), Some(Color::White));
}

#[test]
fn bright_names_with_underscore_or_space() {
    let colors = [
        ("black", Color::BrightBlack),
        ("red", Color::BrightRed),
        ("green", Color::BrightGreen),
        ("yellow", Color::BrightYellow),
        ("blue", Color::BrightBlue),
        ("magenta", Color::BrightMagenta),
        ("cyan", Color::BrightCyan),
        ("white", Color::BrightWhite),
    ];
    for (name, color) in colors {
        assert_eq!(parse_color(&format!("bright_{}", name)), Some(color));
        assert_eq!(parse_color(&format!("bright {}", name)), Some(color));
    }
}

#[test]
fn names_are_matched_as_they_stand() {
    assert_eq!(parse_color("Red"), None);
    assert_eq!(parse_color("RED"), None);
    assert_eq!(parse_color(" red"), None);
    assert_eq!(parse_color("red "), None);
    assert_eq!(parse_color("bright  red"), None);
    assert_eq!(parse_color("brightred"), None);
    assert_eq!(parse_color("bright-red"), None);
    assert_eq!(parse_color("default"), None);
    assert_eq!(parse_color("orange"), None);
}

#[test]
fn hex_colors() {
    assert_eq!(parse_color("#000000"), Some(Color::Rgb(0, 0, 0)));
    assert_eq!(parse_color("#ffffff"), Some(Color::Rgb(255, 255, 255)));
    assert_eq!(parse_color("#FF0000"), Some(Color::Rgb(255, 0, 0)));
    assert_eq!(parse_color("#00FF00"), Some(Color::Rgb(0, 255, 0)));
    assert_eq!(parse_color("#0000fF"), Some(Color::Rgb(0, 0, 255)));
    assert_eq!(parse_color("#0a1B9c"), Some(Color::Rgb(10, 27, 156)));
    assert_eq!(parse_color("#102030"), Some(Color::Rgb(16, 32, 48)));
    assert_eq!(parse_color("#aAfF09"), Some(Color::Rgb(170, 255, 9)));
}

#[test]
fn what_is_no_hex_color() {
    assert_eq!(parse_color("#"), None);
    assert_eq!(parse_color("#12345"), None);
    assert_eq!(parse_color("#1234567"), None);
    assert_eq!(parse_color("#12345g"), None);
    assert_eq!(parse_color("#g12345"), None);
    assert_eq!(parse_color("#12 456"), None);
    assert_eq!(parse_color("#+1+2+3"), None);
    assert_eq!(parse_color("#-1-2-3"), None);
    assert_eq!(parse_color("ff0000"), None);
    assert_eq!(parse_color("0xff0000"), None);
    assert_eq!(parse_color("##ff000"), None);
}

#[test]
fn hex_colors_with_other_characters_are_no_colors() {
    // Seven bytes, of which two are one character.
    assert_eq!(parse_color("#1\u{e9}234"), None);
    assert_eq!(parse_color("#\u{e9}1234"), None);
    // Seven characters, more bytes.
    assert_eq!(parse_color("#12345\u{e9}"), None);
    assert_eq!(parse_color("#\u{ff11}\u{ff12}3456"), None);
}

#[test]
fn palette_numbers() {
    assert_eq!(parse_color("0"), Some(Color::Ansi256(0)));
    assert_eq!(parse_color("7"), Some(Color::Ansi256(7)));
    assert_eq!(parse_color("42"), Some(Color::Ansi256(42)));
    assert_eq!(parse_color("123"), Some(Color::Ansi256(123)));
    assert_eq!(parse_color("200"), Some(Color::Ansi256(200)));
    assert_eq!(parse_color("255"), Some(Color::Ansi256(255)));
    assert_eq!(parse_color("007"), Some(Color::Ansi256(7)));
    assert_eq!(parse_color("+5"), Some(Color::Ansi256(5)));
    assert_eq!(parse_color("+255"), Some(Color::Ansi256(255)));
    assert_eq!(parse_color("0000000000000000000000000000255"), Some(Color::Ansi256(255)));
}

#[test]
fn every_number_up_to_255_is_a_palette_entry() {
    for n in 0..=255u8 {
        assert_eq!(parse_color(&n.to_string()), Some(Color::Ansi256(n)));
    }
    for n in 256..=1000u32 {
        assert_eq!(parse_color(&n.to_string()), None);
    }
}

#[test]
fn what_is_no_palette_number() {
    assert_eq!(parse_color(""), None);
    assert_eq!(parse_color("+"), None);
    assert_eq!(parse_color("-"), None);
    assert_eq!(parse_color("-1"), None);
    assert_eq!(parse_color("-0"), None);
    assert_eq!(parse_color("++1"), None);
    assert_eq!(parse_color("+-1"), None);
    assert_eq!(parse_color("1+"), None);
    assert_eq!(parse_color("256"), None);
    assert_eq!(parse_color("260"), None);
    assert_eq!(parse_color("1000"), None);
    assert_eq!(parse_color("99999999999999999999999999999999"), None);
    assert_eq!(parse_color("1 "), None);
    assert_eq!(parse_color(" 1"), None);
    assert_eq!(parse_color("1_0"), None);
    assert_eq!(parse_color("1e1"), None);
    assert_eq!(parse_color("1.0"), None);
    assert_eq!(parse_color("0x10"), None);
    assert_eq!(parse_color("12a"), None);
    assert_eq!(parse_color("\u{ff11}\u{ff12}"), None);
    assert_eq!(parse_color("1\u{e9}"), None);
}
