//! Colors, the escape sequences that select them, and the style of one
//! fragment of text.

use crate::text::{cow_clone, cow_into_owned, decimal, push_decimal};
use std::borrow::Cow;
use vstd::prelude::*;

verus! {

/// A terminal color.
#[derive(Debug, Clone, Copy, PartialEq, Eq, Structural)]
pub enum Color {
    Black,
    Red,
    Green,
    Yellow,
    Blue,
    Magenta,
    Cyan,
    White,
    BrightBlack,
    BrightRed,
    BrightGreen,
    BrightYellow,
    BrightBlue,
    BrightMagenta,
    BrightCyan,
    BrightWhite,
    /// Whatever the terminal uses when no color is set.
    Default,
    /// An entry of the 256-color palette.
    Ansi256(u8),
    /// Red, green and blue channels.
    Rgb(u8, u8, u8),
}

/// A control sequence that selects a graphic rendition: `ESC [`, the
/// parameters, `m`.
pub open spec fn sgr(params: Seq<char>) -> Seq<char> {
    "\x1b["@ + params + "m"@
}

/// Parameters that pick entry `n` of the 256-color palette for the channel
/// that `selector` names (38 foreground, 48 background, 58 underline).
pub open spec fn indexed_params(selector: nat, n: nat) -> Seq<char> {
    decimal(selector) + ";5;"@ + decimal(n)
}

/// Parameters that pick a 24-bit color for the channel that `selector` names.
pub open spec fn rgb_params(selector: nat, r: nat, g: nat, b: nat) -> Seq<char> {
    decimal(selector) + ";2;"@ + decimal(r) + ";"@ + decimal(g) + ";"@ + decimal(b)
}

impl Color {
    /// Position of a named color in the sixteen-color palette: the eight
    /// standard colors, then their bright variants.
    pub open spec fn palette_index(self) -> Option<nat> {
        match self {
            Color::Black => Some(0),
            Color::Red => Some(1),
            Color::Green => Some(2),
            Color::Yellow => Some(3),
            Color::Blue => Some(4),
            Color::Magenta => Some(5),
            Color::Cyan => Some(6),
            Color::White => Some(7),
            Color::BrightBlack => Some(8),
            Color::BrightRed => Some(9),
            Color::BrightGreen => Some(10),
            Color::BrightYellow => Some(11),
            Color::BrightBlue => Some(12),
            Color::BrightMagenta => Some(13),
            Color::BrightCyan => Some(14),
            Color::BrightWhite => Some(15),
            _ => None,
        }
    }

    /// Parameters that select this color for a channel whose standard colors
    /// start at `base`, whose bright colors start at `base + 60`, whose
    /// extended selector is `base + 8` and whose reset is `base + 9`.
    pub open spec fn channel_params(self, base: nat) -> Seq<char> {
        match self {
            Color::Default => decimal(base + 9),
            Color::Ansi256(n) => indexed_params(base + 8, n as nat),
            Color::Rgb(r, g, b) => rgb_params(base + 8, r as nat, g as nat, b as nat),
            _ => {
                let i = self.palette_index().unwrap();
                if i < 8 {
                    decimal(base + i)
                } else {
                    decimal(base + 52 + i)
                }
            },
        }
    }

    /// The sequence that sets this color as foreground: 30 to 37, 90 to 97,
    /// `38;5;n`, `38;2;r;g;b`, or 39 for the default.
    pub open spec fn fg_code(self) -> Seq<char> {
        sgr(self.channel_params(30))
    }

    /// The sequence that sets this color as background: 40 to 47, 100 to 107,
    /// `48;5;n`, `48;2;r;g;b`, or 49 for the default.
    pub open spec fn bg_code(self) -> Seq<char> {
        sgr(self.channel_params(40))
    }

    /// The sequence that sets this color for underlines: `58;5;n` with the
    /// palette position of a named color, `58;2;r;g;b`, or 59 for the default.
    pub open spec fn underline_code(self) -> Seq<char> {
        sgr(
            match self {
                Color::Default => decimal(59),
                Color::Ansi256(n) => indexed_params(58, n as nat),
                Color::Rgb(r, g, b) => rgb_params(58, r as nat, g as nat, b as nat),
                _ => indexed_params(58, self.palette_index().unwrap()),
            },
        )
    }

    fn index(&self) -> (i: Option<u8>)
        ensures
            i is Some <==> self.palette_index() is Some,
            i is Some ==> i->0 as nat == self.palette_index()->0,
            i is Some ==> i->0 < 16,
    {
        match self {
            Color::Black => Some(0),
            Color::Red => Some(1),
            Color::Green => Some(2),
            Color::Yellow => Some(3),
            Color::Blue => Some(4),
            Color::Magenta => Some(5),
            Color::Cyan => Some(6),
            Color::White => Some(7),
            Color::BrightBlack => Some(8),
            Color::BrightRed => Some(9),
            Color::BrightGreen => Some(10),
            Color::BrightYellow => Some(11),
            Color::BrightBlue => Some(12),
            Color::BrightMagenta => Some(13),
            Color::BrightCyan => Some(14),
            Color::BrightWhite => Some(15),
            _ => None,
        }
    }

    fn push_channel(&self, out: &mut String, base: u8)
        requires
            base <= 40,
        ensures
            final(out)@ == old(out)@ + sgr(self.channel_params(base as nat)),
    {
        out.append("\x1b[");
        match self {
            Color::Default => push_decimal(out, base + 9),
            Color::Ansi256(n) => push_indexed(out, base + 8, *n),
            Color::Rgb(r, g, b) => push_rgb(out, base + 8, *r, *g, *b),
            _ => {
                let i = self.index().unwrap();
                if i < 8 {
                    push_decimal(out, base + i);
                } else {
                    push_decimal(out, base + 52 + i);
                }
            },
        }
        out.append("m");
        proof {
            assert(out@ =~= old(out)@ + sgr(self.channel_params(base as nat)));
        }
    }

    /// The escape sequence that makes this color the foreground.
    pub fn as_ansi_fg(&self) -> (code: String)
        ensures
            code@ == self.fg_code(),
    {
        let mut code = String::new();
        self.push_channel(&mut code, 30);
        code
    }

    /// The escape sequence that makes this color the background.
    pub fn as_ansi_bg(&self) -> (code: String)
        ensures
            code@ == self.bg_code(),
    {
        let mut code = String::new();
        self.push_channel(&mut code, 40);
        code
    }

    /// The escape sequence that makes this color the color of underlines.
    pub fn as_ansi_underline_color(&self) -> (code: String)
        ensures
            code@ == self.underline_code(),
    {
        let mut code = String::new();
        code.append("\x1b[");
        match self {
            Color::Default => push_decimal(&mut code, 59),
            Color::Ansi256(n) => push_indexed(&mut code, 58, *n),
            Color::Rgb(r, g, b) => push_rgb(&mut code, 58, *r, *g, *b),
            _ => push_indexed(&mut code, 58, self.index().unwrap()),
        }
        code.append("m");
        proof {
            assert(code@ =~= self.underline_code());
        }
        code
    }
}

fn push_indexed(out: &mut String, selector: u8, n: u8)
    ensures
        final(out)@ == old(out)@ + indexed_params(selector as nat, n as nat),
{
    push_decimal(out, selector);
    out.append(";5;");
    push_decimal(out, n);
    proof {
        assert(out@ =~= old(out)@ + indexed_params(selector as nat, n as nat));
    }
}

fn push_rgb(out: &mut String, selector: u8, r: u8, g: u8, b: u8)
    ensures
        final(out)@ == old(out)@ + rgb_params(selector as nat, r as nat, g as nat, b as nat),
{
    push_decimal(out, selector);
    out.append(";2;");
    push_decimal(out, r);
    out.append(";");
    push_decimal(out, g);
    out.append(";");
    push_decimal(out, b);
    proof {
        assert(out@ =~= old(out)@ + rgb_params(
            selector as nat,
            r as nat,
            g as nat,
            b as nat,
        ));
    }
}

/// How one fragment of text looks: colors, decorations and an optional
/// hyperlink target.
#[derive(Debug, PartialEq, Eq)]
pub struct Style<'a> {
    pub fg: Color,
    pub bg: Color,
    pub bold: bool,
    pub italic: bool,
    pub underline: bool,
    pub double_underline: bool,
    pub curly_underline: bool,
    pub overline: bool,
    pub strikethrough: bool,
    pub dim: bool,
    pub blink: bool,
    pub inverse: bool,
    pub hidden: bool,
    pub url: Option<Cow<'a, str>>,
    pub underline_color: Option<Color>,
}

/// A style as a mathematical value: the hyperlink target is its text,
/// whoever owns it.
pub struct StyleView {
    pub fg: Color,
    pub bg: Color,
    pub bold: bool,
    pub italic: bool,
    pub underline: bool,
    pub double_underline: bool,
    pub curly_underline: bool,
    pub overline: bool,
    pub strikethrough: bool,
    pub dim: bool,
    pub blink: bool,
    pub inverse: bool,
    pub hidden: bool,
    pub url: Option<Seq<char>>,
    pub underline_color: Option<Color>,
}

impl StyleView {
    /// The default style: default colors, no decoration, no underline color,
    /// no hyperlink.
    pub open spec fn plain() -> StyleView {
        StyleView {
            fg: Color::Default,
            bg: Color::Default,
            bold: false,
            italic: false,
            underline: false,
            double_underline: false,
            curly_underline: false,
            overline: false,
            strikethrough: false,
            dim: false,
            blink: false,
            inverse: false,
            hidden: false,
            url: None,
            underline_color: None,
        }
    }
}

impl<'a> View for Style<'a> {
    type V = StyleView;

    open spec fn view(&self) -> StyleView {
        StyleView {
            fg: self.fg,
            bg: self.bg,
            bold: self.bold,
            italic: self.italic,
            underline: self.underline,
            double_underline: self.double_underline,
            curly_underline: self.curly_underline,
            overline: self.overline,
            strikethrough: self.strikethrough,
            dim: self.dim,
            blink: self.blink,
            inverse: self.inverse,
            hidden: self.hidden,
            url: match self.url {
                Some(u) => Some(u@),
                None => None,
            },
            underline_color: self.underline_color,
        }
    }
}

impl<'a> Default for Style<'a> {
    fn default() -> (style: Self)
        ensures
            style@ == StyleView::plain(),
            style.url is None,
    {
        Style {
            fg: Color::Default,
            bg: Color::Default,
            bold: false,
            italic: false,
            underline: false,
            double_underline: false,
            curly_underline: false,
            overline: false,
            strikethrough: false,
            dim: false,
            blink: false,
            inverse: false,
            hidden: false,
            url: None,
            underline_color: None,
        }
    }
}

impl<'a> Clone for Style<'a> {
    fn clone(&self) -> (style: Self)
        ensures
            style@ == self@,
            style.is_borrowed() == self.is_borrowed(),
    {
        Style {
            fg: self.fg,
            bg: self.bg,
            bold: self.bold,
            italic: self.italic,
            underline: self.underline,
            double_underline: self.double_underline,
            curly_underline: self.curly_underline,
            overline: self.overline,
            strikethrough: self.strikethrough,
            dim: self.dim,
            blink: self.blink,
            inverse: self.inverse,
            hidden: self.hidden,
            url: match &self.url {
                Some(u) => Some(cow_clone(u)),
                None => None,
            },
            underline_color: self.underline_color,
        }
    }
}

impl<'a> Style<'a> {
    /// True when a hyperlink target, if there is one, is an owned string.
    pub open spec fn is_owned(&self) -> bool {
        match self.url {
            Some(u) => u is Owned,
            None => true,
        }
    }

    /// True when a hyperlink target, if there is one, is a borrowed slice.
    pub open spec fn is_borrowed(&self) -> bool {
        match self.url {
            Some(u) => u is Borrowed,
            None => true,
        }
    }

    /// The default style.
    pub fn new() -> (style: Self)
        ensures
            style@ == StyleView::plain(),
            style.url is None,
    {
        Style::default()
    }

    /// The same style with the given foreground.
    pub fn fg(self, color: Color) -> (style: Self)
        ensures
            style@ == (StyleView { fg: color, ..self@ }),
            style.url == self.url,
    {
        let mut style = self;
        style.fg = color;
        style
    }

    /// The same style with the given background.
    pub fn bg(self, color: Color) -> (style: Self)
        ensures
            style@ == (StyleView { bg: color, ..self@ }),
            style.url == self.url,
    {
        let mut style = self;
        style.bg = color;
        style
    }

    /// The same style with the given color for underlines.
    pub fn underline_color(self, color: Color) -> (style: Self)
        ensures
            style@ == (StyleView { underline_color: Some(color), ..self@ }),
            style.url == self.url,
    {
        let mut style = self;
        style.underline_color = Some(color);
        style
    }

    /// The same style, bold.
    pub fn bold(self) -> (style: Self)
        ensures
            style@ == (StyleView { bold: true, ..self@ }),
            style.url == self.url,
    {
        let mut style = self;
        style.bold = true;
        style
    }

    /// The same style, italic.
    pub fn italic(self) -> (style: Self)
        ensures
            style@ == (StyleView { italic: true, ..self@ }),
            style.url == self.url,
    {
        let mut style = self;
        style.italic = true;
        style
    }

    /// The same style, underlined.
    pub fn underline(self) -> (style: Self)
        ensures
            style@ == (StyleView { underline: true, ..self@ }),
            style.url == self.url,
    {
        let mut style = self;
        style.underline = true;
        style
    }

    /// The same style, underlined twice.
    pub fn double_underline(self) -> (style: Self)
        ensures
            style@ == (StyleView { double_underline: true, ..self@ }),
            style.url == self.url,
    {
        let mut style = self;
        style.double_underline = true;
        style
    }

    /// The same style, underlined with a curly line.
    pub fn curly_underline(self) -> (style: Self)
        ensures
            style@ == (StyleView { curly_underline: true, ..self@ }),
            style.url == self.url,
    {
        let mut style = self;
        style.curly_underline = true;
        style
    }

    /// The same style, overlined.
    pub fn overline(self) -> (style: Self)
        ensures
            style@ == (StyleView { overline: true, ..self@ }),
            style.url == self.url,
    {
        let mut style = self;
        style.overline = true;
        style
    }

    /// The same style, struck through.
    pub fn strikethrough(self) -> (style: Self)
        ensures
            style@ == (StyleView { strikethrough: true, ..self@ }),
            style.url == self.url,
    {
        let mut style = self;
        style.strikethrough = true;
        style
    }

    /// The same style, dim.
    pub fn dim(self) -> (style: Self)
        ensures
            style@ == (StyleView { dim: true, ..self@ }),
            style.url == self.url,
    {
        let mut style = self;
        style.dim = true;
        style
    }

    /// The same style, blinking.
    pub fn blink(self) -> (style: Self)
        ensures
            style@ == (StyleView { blink: true, ..self@ }),
            style.url == self.url,
    {
        let mut style = self;
        style.blink = true;
        style
    }

    /// The same style, with foreground and background swapped.
    pub fn inverse(self) -> (style: Self)
        ensures
            style@ == (StyleView { inverse: true, ..self@ }),
            style.url == self.url,
    {
        let mut style = self;
        style.inverse = true;
        style
    }

    /// The same style, hidden.
    pub fn hidden(self) -> (style: Self)
        ensures
            style@ == (StyleView { hidden: true, ..self@ }),
            style.url == self.url,
    {
        let mut style = self;
        style.hidden = true;
        style
    }

    /// The same style with a hyperlink to the given target.
    pub fn url<S: Into<Cow<'a, str>>>(self, url: S) -> (style: Self)
        ensures
            style.url is Some,
            call_ensures(<S as Into<Cow<'a, str>>>::into, (url,), style.url->0),
            style@ == (StyleView { url: Some(style.url->0@), ..self@ }),
    {
        let mut style = self;
        style.url = Some(url.into());
        style
    }

    /// The same style with all its text owned, so that it can outlive the
    /// markup it was read from.
    pub fn into_owned(self) -> (style: Style<'static>)
        ensures
            style@ == self@,
            style.is_owned(),
    {
        Style {
            fg: self.fg,
            bg: self.bg,
            bold: self.bold,
            italic: self.italic,
            underline: self.underline,
            double_underline: self.double_underline,
            curly_underline: self.curly_underline,
            overline: self.overline,
            strikethrough: self.strikethrough,
            dim: self.dim,
            blink: self.blink,
            inverse: self.inverse,
            hidden: self.hidden,
            url: match self.url {
                Some(u) => Some(cow_into_owned(u)),
                None => None,
            },
            underline_color: self.underline_color,
        }
    }
}

} // verus!
