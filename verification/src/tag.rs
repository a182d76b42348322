//! What one tag does to a style: color names and values, and the keywords
//! and attributes that a tag may hold.

use crate::style::{Color, Style, StyleView};
use crate::text::{
    after_first, before_first, lower, lowered, split_once, str_eq, trim, trimmed,
};
use std::borrow::Cow;
use vstd::prelude::*;
use vstd::string::StringSliceAdditionalSpecFns;
use vstd::utf8::*;

verus! {

/// The color that one of the eight standard names stands for.
pub open spec fn standard_color(name: Seq<char>) -> Option<Color> {
    if name == "black"@ {
        Some(Color::Black)
    } else if name == "red"@ {
        Some(Color::Red)
    } else if name == "green"@ {
        Some(Color::Green)
    } else if name == "yellow"@ {
        Some(Color::Yellow)
    } else if name == "blue"@ {
        Some(Color::Blue)
    } else if name == "magenta"@ {
        Some(Color::Magenta)
    } else if name == "cyan"@ {
        Some(Color::Cyan)
    } else if name == "white"@ {
        Some(Color::White)
    } else {
        None
    }
}

/// The color that the name of a bright color stands for, written with an
/// underscore or with a space.
pub open spec fn bright_color(name: Seq<char>) -> Option<Color> {
    if name == "bright_black"@ || name == "bright black"@ {
        Some(Color::BrightBlack)
    } else if name == "bright_red"@ || name == "bright red"@ {
        Some(Color::BrightRed)
    } else if name == "bright_green"@ || name == "bright green"@ {
        Some(Color::BrightGreen)
    } else if name == "bright_yellow"@ || name == "bright yellow"@ {
        Some(Color::BrightYellow)
    } else if name == "bright_blue"@ || name == "bright blue"@ {
        Some(Color::BrightBlue)
    } else if name == "bright_magenta"@ || name == "bright magenta"@ {
        Some(Color::BrightMagenta)
    } else if name == "bright_cyan"@ || name == "bright cyan"@ {
        Some(Color::BrightCyan)
    } else if name == "bright_white"@ || name == "bright white"@ {
        Some(Color::BrightWhite)
    } else {
        None
    }
}

/// The value of a hexadecimal digit, in either case.
pub open spec fn hex_digit(c: char) -> Option<nat> {
    if '0' <= c <= '9' {
        Some((c as int - '0' as int) as nat)
    } else if 'a' <= c <= 'f' {
        Some((c as int - 'a' as int + 10) as nat)
    } else if 'A' <= c <= 'F' {
        Some((c as int - 'A' as int + 10) as nat)
    } else {
        None
    }
}

/// The byte that two hexadecimal digits spell.
pub open spec fn hex_byte(high: char, low: char) -> Option<u8> {
    match (hex_digit(high), hex_digit(low)) {
        (Some(h), Some(l)) => Some((16 * h + l) as u8),
        _ => None,
    }
}

/// The color that `#RRGGBB` stands for: seven characters, of which the last
/// six are hexadecimal digits.
pub open spec fn hex_color(name: Seq<char>) -> Option<Color> {
    if name.len() == 7 && name[0] == '#' {
        match (hex_byte(name[1], name[2]), hex_byte(name[3], name[4]), hex_byte(name[5], name[6])) {
            (Some(r), Some(g), Some(b)) => Some(Color::Rgb(r, g, b)),
            _ => None,
        }
    } else {
        None
    }
}

/// True when every character is a decimal digit.
pub open spec fn all_digits(s: Seq<char>) -> bool {
    forall|i: int| 0 <= i < s.len() ==> '0' <= #[trigger] s[i] <= '9'
}

/// The number that a sequence of decimal digits spells.
pub open spec fn decimal_value(digits: Seq<char>) -> nat
    decreases digits.len(),
{
    if digits.len() == 0 {
        0
    } else {
        10 * decimal_value(digits.drop_last()) + (digits.last() as int - '0' as int) as nat
    }
}

/// The palette entry that a number from 0 to 255 stands for: decimal digits,
/// any number of them, after an optional `+`.
pub open spec fn indexed_color(name: Seq<char>) -> Option<Color> {
    let digits = if name.len() > 0 && name[0] == '+' {
        name.skip(1)
    } else {
        name
    };
    if digits.len() > 0 && all_digits(digits) && decimal_value(digits) <= 255 {
        Some(Color::Ansi256(decimal_value(digits) as u8))
    } else {
        None
    }
}

/// The color that a value stands for: a standard or bright name, else
/// `#RRGGBB`, else a palette number; `None` for anything else. Names are
/// matched as they stand, in lower case.
pub open spec fn color_of(name: Seq<char>) -> Option<Color> {
    if standard_color(name) is Some {
        standard_color(name)
    } else if bright_color(name) is Some {
        bright_color(name)
    } else if hex_color(name) is Some {
        hex_color(name)
    } else {
        indexed_color(name)
    }
}

/// A longer run of digits spells no smaller number than its start.
proof fn lemma_decimal_value_grows(digits: Seq<char>, k: int)
    requires
        0 <= k <= digits.len(),
    ensures
        decimal_value(digits.take(k)) <= decimal_value(digits),
    decreases digits.len() - k,
{
    if k == digits.len() {
        assert(digits.take(k) =~= digits);
    } else {
        lemma_decimal_value_grows(digits.drop_last(), k);
        assert(digits.drop_last().take(k) =~= digits.take(k));
    }
}

fn standard_name(name: &str) -> (color: Option<Color>)
    ensures
        color == standard_color(name@),
{
    if str_eq(name, "black") {
        Some(Color::Black)
    } else if str_eq(name, "red") {
        Some(Color::Red)
    } else if str_eq(name, "green") {
        Some(Color::Green)
    } else if str_eq(name, "yellow") {
        Some(Color::Yellow)
    } else if str_eq(name, "blue") {
        Some(Color::Blue)
    } else if str_eq(name, "magenta") {
        Some(Color::Magenta)
    } else if str_eq(name, "cyan") {
        Some(Color::Cyan)
    } else if str_eq(name, "white") {
        Some(Color::White)
    } else {
        None
    }
}

fn bright_name(name: &str) -> (color: Option<Color>)
    ensures
        color == bright_color(name@),
{
    if str_eq(name, "bright_black") || str_eq(name, "bright black") {
        Some(Color::BrightBlack)
    } else if str_eq(name, "bright_red") || str_eq(name, "bright red") {
        Some(Color::BrightRed)
    } else if str_eq(name, "bright_green") || str_eq(name, "bright green") {
        Some(Color::BrightGreen)
    } else if str_eq(name, "bright_yellow") || str_eq(name, "bright yellow") {
        Some(Color::BrightYellow)
    } else if str_eq(name, "bright_blue") || str_eq(name, "bright blue") {
        Some(Color::BrightBlue)
    } else if str_eq(name, "bright_magenta") || str_eq(name, "bright magenta") {
        Some(Color::BrightMagenta)
    } else if str_eq(name, "bright_cyan") || str_eq(name, "bright cyan") {
        Some(Color::BrightCyan)
    } else if str_eq(name, "bright_white") || str_eq(name, "bright white") {
        Some(Color::BrightWhite)
    } else {
        None
    }
}

fn hex_digit_of(b: u8) -> (value: Option<u8>)
    requires
        b <= 0x7f,
    ensures
        value is Some <==> hex_digit(b as char) is Some,
        value is Some ==> value->0 as nat == hex_digit(b as char)->0 && value->0 < 16,
{
    if 48 <= b && b <= 57 {
        Some(b - 48)
    } else if 97 <= b && b <= 102 {
        Some(b - 87)
    } else if 65 <= b && b <= 70 {
        Some(b - 55)
    } else {
        None
    }
}

fn hex_byte_of(high: u8, low: u8) -> (value: Option<u8>)
    requires
        high <= 0x7f,
        low <= 0x7f,
    ensures
        value == hex_byte(high as char, low as char),
{
    match (hex_digit_of(high), hex_digit_of(low)) {
        (Some(h), Some(l)) => Some(16 * h + l),
        _ => None,
    }
}

/// The bytes of ASCII text are its characters.
proof fn lemma_ascii_bytes(s: Seq<char>)
    requires
        is_ascii_chars(s),
    ensures
        encode_utf8(s).len() == s.len(),
        forall|i: int| 0 <= i < s.len() ==> encode_utf8(s)[i] <= 0x7f && encode_utf8(s)[i] as char == #[trigger] s[i],
{
    is_ascii_chars_encode_utf8(s);
    assert forall|i: int| 0 <= i < s.len() implies encode_utf8(s)[i] <= 0x7f && encode_utf8(
        s,
    )[i] as char == #[trigger] s[i] by {
        char_u32_cast(s[i], s[i] as u32);
    }
}

fn hex_name(name: &str) -> (color: Option<Color>)
    requires
        is_ascii_chars(name@),
    ensures
        color == hex_color(name@),
{
    let bytes = name.as_bytes();
    proof {
        lemma_ascii_bytes(name@);
    }
    if bytes.len() == 7 && bytes[0] == 35 {
        match (
            hex_byte_of(bytes[1], bytes[2]),
            hex_byte_of(bytes[3], bytes[4]),
            hex_byte_of(bytes[5], bytes[6]),
        ) {
            (Some(r), Some(g), Some(b)) => Some(Color::Rgb(r, g, b)),
            _ => None,
        }
    } else {
        None
    }
}

fn indexed_name(name: &str) -> (color: Option<Color>)
    requires
        is_ascii_chars(name@),
    ensures
        color == indexed_color(name@),
{
    let bytes = name.as_bytes();
    let n = bytes.len();
    proof {
        lemma_ascii_bytes(name@);
    }
    let start: usize = if n > 0 && bytes[0] == 43 {
        1
    } else {
        0
    };
    let ghost digits = if name@.len() > 0 && name@[0] == '+' {
        name@.skip(1)
    } else {
        name@
    };
    if start == n {
        return None;
    }
    let mut value: u16 = 0;
    let mut i: usize = start;
    while i < n
        invariant
            start <= i <= n == bytes@.len() == name@.len(),
            bytes@ == name.spec_bytes(),
            is_ascii_chars(name@),
            digits.len() == n - start,
            digits == (if name@.len() > 0 && name@[0] == '+' {
                name@.skip(1)
            } else {
                name@
            }),
            forall|j: int| 0 <= j < digits.len() ==> digits[j] == name@[j + start],
            all_digits(digits.take(i - start)),
            value == decimal_value(digits.take(i - start)),
            value <= 255,
        decreases n - i,
    {
        let b = bytes[i];
        let ghost before = digits.take(i - start);
        let ghost after = digits.take(i - start + 1);
        proof {
            lemma_ascii_bytes(name@);
            assert(digits[i - start] == name@[i as int]);
            assert(after.drop_last() =~= before);
            assert(after.last() == digits[i - start]);
        }
        if !(48 <= b && b <= 57) {
            proof {
                assert(!('0' <= digits[i - start] <= '9'));
            }
            return None;
        }
        value = value * 10 + (b - 48) as u16;
        proof {
            assert(value == decimal_value(after));
            assert forall|j: int| 0 <= j < after.len() implies '0' <= #[trigger] after[j]
                <= '9' by {
                if j < before.len() {
                    assert(after[j] == before[j]);
                }
            }
        }
        if value > 255 {
            proof {
                lemma_decimal_value_grows(digits, i - start + 1);
            }
            return None;
        }
        i += 1;
    }
    proof {
        assert(digits.take(i - start) =~= digits);
    }
    Some(Color::Ansi256(value as u8))
}

/// The color that a value stands for, if it stands for one. Names are
/// matched as they stand: the caller passes the value in lower case.
pub fn parse_color(name: &str) -> (color: Option<Color>)
    ensures
        color == color_of(name@),
{
    let standard = standard_name(name);
    if standard.is_some() {
        return standard;
    }
    let bright = bright_name(name);
    if bright.is_some() {
        return bright;
    }
    if !name.is_ascii() {
        proof {
            lemma_color_value_is_ascii(name@);
        }
        return None;
    }
    let hex = hex_name(name);
    if hex.is_some() {
        return hex;
    }
    indexed_name(name)
}

/// A value that spells `#RRGGBB` or a palette number is ASCII text.
proof fn lemma_color_value_is_ascii(name: Seq<char>)
    ensures
        hex_color(name) is Some || indexed_color(name) is Some ==> is_ascii_chars(name),
{
    if hex_color(name) is Some {
        assert forall|i: int| 0 <= i < name.len() implies '\0' <= #[trigger] name[i] <= '\u{7f}' by {
            assert(hex_digit(name[1]) is Some && hex_digit(name[2]) is Some);
            assert(hex_digit(name[3]) is Some && hex_digit(name[4]) is Some);
            assert(hex_digit(name[5]) is Some && hex_digit(name[6]) is Some);
        }
    } else if indexed_color(name) is Some {
        let digits = if name.len() > 0 && name[0] == '+' {
            name.skip(1)
        } else {
            name
        };
        assert forall|i: int| 0 <= i < name.len() implies '\0' <= #[trigger] name[i] <= '\u{7f}' by {
            if name[0] == '+' {
                if i > 0 {
                    assert(name[i] == digits[i - 1]);
                }
            } else {
                assert(name[i] == digits[i]);
            }
        }
    }
}

/// The color that a background keyword stands for: `bg_` and a standard name.
pub open spec fn background_keyword(key: Seq<char>) -> Option<Color> {
    if key == "bg_black"@ {
        Some(Color::Black)
    } else if key == "bg_red"@ {
        Some(Color::Red)
    } else if key == "bg_green"@ {
        Some(Color::Green)
    } else if key == "bg_yellow"@ {
        Some(Color::Yellow)
    } else if key == "bg_blue"@ {
        Some(Color::Blue)
    } else if key == "bg_magenta"@ {
        Some(Color::Magenta)
    } else if key == "bg_cyan"@ {
        Some(Color::Cyan)
    } else if key == "bg_white"@ {
        Some(Color::White)
    } else {
        None
    }
}

/// What a tag without a value can ask for.
#[derive(Debug, Clone, Copy, PartialEq, Eq, Structural)]
pub enum Keyword {
    Foreground(Color),
    Background(Color),
    Bold,
    Italic,
    Underline,
    DoubleUnderline,
    CurlyUnderline,
    Overline,
    Strikethrough,
    Dim,
    Blink,
    Hidden,
    Inverse,
    Clear,
}

/// The keyword that a key in lower case spells, if it spells one: a
/// standard color name for the foreground, `bg_` and such a name for the
/// background, a decoration by its name or its short form, or `clear`.
pub open spec fn keyword(key: Seq<char>) -> Option<Keyword> {
    if standard_color(key) is Some {
        Some(Keyword::Foreground(standard_color(key)->0))
    } else if background_keyword(key) is Some {
        Some(Keyword::Background(background_keyword(key)->0))
    } else if key == "b"@ || key == "bold"@ {
        Some(Keyword::Bold)
    } else if key == "i"@ || key == "italic"@ {
        Some(Keyword::Italic)
    } else if key == "u"@ || key == "underline"@ {
        Some(Keyword::Underline)
    } else if key == "uu"@ || key == "dunderline"@ {
        Some(Keyword::DoubleUnderline)
    } else if key == "cu"@ || key == "cunderline"@ {
        Some(Keyword::CurlyUnderline)
    } else if key == "o"@ || key == "overline"@ {
        Some(Keyword::Overline)
    } else if key == "s"@ || key == "strikethrough"@ {
        Some(Keyword::Strikethrough)
    } else if key == "dim"@ {
        Some(Keyword::Dim)
    } else if key == "blink"@ {
        Some(Keyword::Blink)
    } else if key == "hidden"@ {
        Some(Keyword::Hidden)
    } else if key == "inverse"@ {
        Some(Keyword::Inverse)
    } else if key == "clear"@ {
        Some(Keyword::Clear)
    } else {
        None
    }
}

impl Keyword {
    /// The style that the keyword makes of `style`: a color keyword sets
    /// that color, a decoration sets its one flag, and `Clear` gives the
    /// default style.
    pub open spec fn applied(self, style: StyleView) -> StyleView {
        match self {
            Keyword::Foreground(c) => StyleView { fg: c, ..style },
            Keyword::Background(c) => StyleView { bg: c, ..style },
            Keyword::Bold => StyleView { bold: true, ..style },
            Keyword::Italic => StyleView { italic: true, ..style },
            Keyword::Underline => StyleView { underline: true, ..style },
            Keyword::DoubleUnderline => StyleView { double_underline: true, ..style },
            Keyword::CurlyUnderline => StyleView { curly_underline: true, ..style },
            Keyword::Overline => StyleView { overline: true, ..style },
            Keyword::Strikethrough => StyleView { strikethrough: true, ..style },
            Keyword::Dim => StyleView { dim: true, ..style },
            Keyword::Blink => StyleView { blink: true, ..style },
            Keyword::Hidden => StyleView { hidden: true, ..style },
            Keyword::Inverse => StyleView { inverse: true, ..style },
            Keyword::Clear => StyleView::plain(),
        }
    }

    /// Applies the keyword to a style.
    pub fn apply<'a>(self, style: Style<'a>) -> (out: Style<'a>)
        ensures
            out@ == self.applied(style@),
            style.is_borrowed() ==> out.is_borrowed(),
    {
        match self {
            Keyword::Foreground(c) => style.fg(c),
            Keyword::Background(c) => style.bg(c),
            Keyword::Bold => style.bold(),
            Keyword::Italic => style.italic(),
            Keyword::Underline => style.underline(),
            Keyword::DoubleUnderline => style.double_underline(),
            Keyword::CurlyUnderline => style.curly_underline(),
            Keyword::Overline => style.overline(),
            Keyword::Strikethrough => style.strikethrough(),
            Keyword::Dim => style.dim(),
            Keyword::Blink => style.blink(),
            Keyword::Hidden => style.hidden(),
            Keyword::Inverse => style.inverse(),
            Keyword::Clear => Style::default(),
        }
    }
}

/// The style that a tag without a value makes of `style`: what its keyword
/// makes of it, or `style` as it is where the key spells no keyword.
pub open spec fn keyword_style(key: Seq<char>, style: StyleView) -> StyleView {
    match keyword(key) {
        Some(k) => k.applied(style),
        None => style,
    }
}

/// `style` with the foreground that `value` stands for, or as it is where
/// `value` stands for no color.
pub open spec fn with_foreground(style: StyleView, value: Seq<char>) -> StyleView {
    match color_of(value) {
        Some(c) => StyleView { fg: c, ..style },
        None => style,
    }
}

/// `style` with the background that `value` stands for, or as it is where
/// `value` stands for no color.
pub open spec fn with_background(style: StyleView, value: Seq<char>) -> StyleView {
    match color_of(value) {
        Some(c) => StyleView { bg: c, ..style },
        None => style,
    }
}

/// `style` with the underline color that `value` stands for, or as it is
/// where `value` stands for no color.
pub open spec fn with_underline_color(style: StyleView, value: Seq<char>) -> StyleView {
    match color_of(value) {
        Some(c) => StyleView { underline_color: Some(c), ..style },
        None => style,
    }
}

/// The style that a tag `key=raw` makes of `style`, where `value` is `raw` in
/// lower case. `color`/`fg` and `background`/`bg` set a color where `value`
/// stands for one; `link` sets the hyperlink target to `raw`; `cu`, `u` and
/// `uu` (or `cunderline`, `underline`, `dunderline`) set their underline flag
/// and, where `value` stands for a color, the underline color; any other key
/// leaves the style as it is.
pub open spec fn attribute_style(
    key: Seq<char>,
    raw: Seq<char>,
    value: Seq<char>,
    style: StyleView,
) -> StyleView {
    if key == "color"@ || key == "fg"@ {
        with_foreground(style, value)
    } else if key == "background"@ || key == "bg"@ {
        with_background(style, value)
    } else if key == "link"@ {
        StyleView { url: Some(raw), ..style }
    } else if key == "cu"@ || key == "cunderline"@ {
        with_underline_color(StyleView { curly_underline: true, ..style }, value)
    } else if key == "u"@ || key == "underline"@ {
        with_underline_color(StyleView { underline: true, ..style }, value)
    } else if key == "uu"@ || key == "dunderline"@ {
        with_underline_color(StyleView { double_underline: true, ..style }, value)
    } else {
        style
    }
}

/// The key of a tag: what stands before its first `=`, without white space
/// at the ends and in lower case.
pub open spec fn tag_key(tag: Seq<char>) -> Seq<char> {
    lowered(trimmed(before_first(tag, '=')))
}

/// The value of a tag: what stands after its first `=`, without white space
/// at the ends; `None` where the tag holds no `=`.
pub open spec fn tag_value(tag: Seq<char>) -> Option<Seq<char>> {
    match after_first(tag, '=') {
        Some(raw) => Some(trimmed(raw)),
        None => None,
    }
}

/// The style that an opening tag makes of the style around it.
pub open spec fn tag_style(tag: Seq<char>, style: StyleView) -> StyleView {
    match tag_value(tag) {
        Some(raw) => attribute_style(tag_key(tag), raw, lowered(raw), style),
        None => keyword_style(tag_key(tag), style),
    }
}

fn background_name(key: &str) -> (color: Option<Color>)
    ensures
        color == background_keyword(key@),
{
    if str_eq(key, "bg_black") {
        Some(Color::Black)
    } else if str_eq(key, "bg_red") {
        Some(Color::Red)
    } else if str_eq(key, "bg_green") {
        Some(Color::Green)
    } else if str_eq(key, "bg_yellow") {
        Some(Color::Yellow)
    } else if str_eq(key, "bg_blue") {
        Some(Color::Blue)
    } else if str_eq(key, "bg_magenta") {
        Some(Color::Magenta)
    } else if str_eq(key, "bg_cyan") {
        Some(Color::Cyan)
    } else if str_eq(key, "bg_white") {
        Some(Color::White)
    } else {
        None
    }
}

/// The keyword that a key in lower case spells, if it spells one.
pub fn keyword_of(key: &str) -> (found: Option<Keyword>)
    ensures
        found == keyword(key@),
{
    if let Some(c) = standard_name(key) {
        Some(Keyword::Foreground(c))
    } else if let Some(c) = background_name(key) {
        Some(Keyword::Background(c))
    } else if str_eq(key, "b") || str_eq(key, "bold") {
        Some(Keyword::Bold)
    } else if str_eq(key, "i") || str_eq(key, "italic") {
        Some(Keyword::Italic)
    } else if str_eq(key, "u") || str_eq(key, "underline") {
        Some(Keyword::Underline)
    } else if str_eq(key, "uu") || str_eq(key, "dunderline") {
        Some(Keyword::DoubleUnderline)
    } else if str_eq(key, "cu") || str_eq(key, "cunderline") {
        Some(Keyword::CurlyUnderline)
    } else if str_eq(key, "o") || str_eq(key, "overline") {
        Some(Keyword::Overline)
    } else if str_eq(key, "s") || str_eq(key, "strikethrough") {
        Some(Keyword::Strikethrough)
    } else if str_eq(key, "dim") {
        Some(Keyword::Dim)
    } else if str_eq(key, "blink") {
        Some(Keyword::Blink)
    } else if str_eq(key, "hidden") {
        Some(Keyword::Hidden)
    } else if str_eq(key, "inverse") {
        Some(Keyword::Inverse)
    } else if str_eq(key, "clear") {
        Some(Keyword::Clear)
    } else {
        None
    }
}

/// Applies a tag that has no value, whose key is given in lower case.
pub fn apply_keyword<'a>(key: &str, style: Style<'a>) -> (out: Style<'a>)
    ensures
        out@ == keyword_style(key@, style@),
        style.is_borrowed() ==> out.is_borrowed(),
{
    match keyword_of(key) {
        Some(k) => k.apply(style),
        None => style,
    }
}

fn set_underline_color<'a>(style: Style<'a>, value: &str) -> (out: Style<'a>)
    ensures
        out@ == with_underline_color(style@, value@),
        style.is_borrowed() ==> out.is_borrowed(),
{
    match parse_color(value) {
        Some(c) => style.underline_color(c),
        None => style,
    }
}

fn set_foreground<'a>(style: Style<'a>, value: &str) -> (out: Style<'a>)
    ensures
        out@ == with_foreground(style@, value@),
        style.is_borrowed() ==> out.is_borrowed(),
{
    match parse_color(value) {
        Some(c) => style.fg(c),
        None => style,
    }
}

fn set_background<'a>(style: Style<'a>, value: &str) -> (out: Style<'a>)
    ensures
        out@ == with_background(style@, value@),
        style.is_borrowed() ==> out.is_borrowed(),
{
    match parse_color(value) {
        Some(c) => style.bg(c),
        None => style,
    }
}

fn set_link<'a>(style: Style<'a>, target: &'a str) -> (out: Style<'a>)
    ensures
        out@ == (StyleView { url: Some(target@), ..style@ }),
        out.is_borrowed(),
{
    let mut style = style;
    style.url = Some(Cow::Borrowed(target));
    style
}

/// Applies a tag `key=raw`, whose key and whose value `value` are given in
/// lower case; `raw` is the value as it was written.
pub fn apply_attribute<'a>(key: &str, raw: &'a str, value: &str, style: Style<'a>) -> (out: Style<
    'a,
>)
    ensures
        out@ == attribute_style(key@, raw@, value@, style@),
        style.is_borrowed() ==> out.is_borrowed(),
{
    if str_eq(key, "color") || str_eq(key, "fg") {
        set_foreground(style, value)
    } else if str_eq(key, "background") || str_eq(key, "bg") {
        set_background(style, value)
    } else if str_eq(key, "link") {
        set_link(style, raw)
    } else if str_eq(key, "cu") || str_eq(key, "cunderline") {
        set_underline_color(style.curly_underline(), value)
    } else if str_eq(key, "u") || str_eq(key, "underline") {
        set_underline_color(style.underline(), value)
    } else if str_eq(key, "uu") || str_eq(key, "dunderline") {
        set_underline_color(style.double_underline(), value)
    } else {
        style
    }
}

/// Applies an opening tag, given as the text between `<` and `>`, to the
/// style around it.
pub fn apply_tag<'a>(tag: &'a str, style: Style<'a>) -> (out: Style<'a>)
    ensures
        out@ == tag_style(tag@, style@),
        style.is_borrowed() ==> out.is_borrowed(),
{
    let (head, tail) = split_once(tag, '=');
    let key = lower(trim(head));
    match tail {
        Some(tail) => {
            let raw = trim(tail);
            let value = lower(raw);
            apply_attribute(key.as_str(), raw, value.as_str(), style)
        },
        None => apply_keyword(key.as_str(), style),
    }
}

} // verus!
