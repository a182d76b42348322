//! A fragment of text with its style, and the escape sequences that print it.

use crate::style::{sgr, Style, StyleView};
use crate::text::{cow_clone, cow_into_owned, cow_str};
use std::borrow::Cow;
use vstd::prelude::*;

verus! {

/// A run of text that is printed in one style.
#[derive(Debug, PartialEq, Eq)]
pub struct Span<'a> {
    pub text: Cow<'a, str>,
    pub style: Style<'a>,
}

/// A fragment as a mathematical value.
pub struct SpanView {
    pub text: Seq<char>,
    pub style: StyleView,
}

impl<'a> View for Span<'a> {
    type V = SpanView;

    open spec fn view(&self) -> SpanView {
        SpanView { text: self.text@, style: self.style@ }
    }
}

impl<'a> Clone for Span<'a> {
    fn clone(&self) -> (span: Self)
        ensures
            span@ == self@,
            span.is_borrowed() == self.is_borrowed(),
    {
        Span { text: cow_clone(&self.text), style: self.style.clone() }
    }
}

/// The sequence for a decoration that is switched on; nothing for one that
/// is off.
pub open spec fn flag_code(on: bool, params: Seq<char>) -> Seq<char> {
    if on {
        sgr(params)
    } else {
        Seq::empty()
    }
}

/// The sequences for the decorations of a style that are switched on, in
/// their fixed order: bold, italic, underline, double underline, curly
/// underline, overline, strikethrough, dim, blink, inverse, hidden.
pub open spec fn decoration_codes(style: StyleView) -> Seq<char> {
    flag_code(style.bold, "1"@)
        + flag_code(style.italic, "3"@)
        + flag_code(style.underline, "4"@)
        + flag_code(style.double_underline, "4:2"@)
        + flag_code(style.curly_underline, "4:3"@)
        + flag_code(style.overline, "53"@)
        + flag_code(style.strikethrough, "9"@)
        + flag_code(style.dim, "2"@)
        + flag_code(style.blink, "5"@)
        + flag_code(style.inverse, "7"@)
        + flag_code(style.hidden, "8"@)
}

/// The sequence that starts a hyperlink to `target`: `ESC ] 8 ; ;`, the
/// target, `ESC \`.
pub open spec fn link_open(target: Seq<char>) -> Seq<char> {
    "\x1b]8;;"@ + target + "\x1b\\"@
}

/// The sequence that ends a hyperlink: one that starts a link to nothing.
pub open spec fn link_close() -> Seq<char> {
    link_open(Seq::empty())
}

/// The sequence that resets every attribute.
pub open spec fn reset_code() -> Seq<char> {
    sgr("0"@)
}

/// What is printed before the text of a fragment: foreground, background,
/// underline color if one is set, the decorations, and the start of the
/// hyperlink if there is one.
pub open spec fn style_prefix(style: StyleView) -> Seq<char> {
    style.fg.fg_code() + style.bg.bg_code() + (match style.underline_color {
        Some(c) => c.underline_code(),
        None => Seq::empty(),
    }) + decoration_codes(style) + (match style.url {
        Some(target) => link_open(target),
        None => Seq::empty(),
    })
}

/// What is printed after the text of a fragment: the end of the hyperlink
/// if there is one, then the reset, always.
pub open spec fn style_suffix(style: StyleView) -> Seq<char> {
    (if style.url is Some {
        link_close()
    } else {
        Seq::empty()
    }) + reset_code()
}

/// A fragment as it is printed.
pub open spec fn rendered(span: SpanView) -> Seq<char> {
    style_prefix(span.style) + span.text + style_suffix(span.style)
}

fn push_code(out: &mut String, params: &str)
    ensures
        final(out)@ == old(out)@ + sgr(params@),
{
    out.append("\x1b[");
    out.append(params);
    out.append("m");
    proof {
        assert(out@ =~= old(out)@ + sgr(params@));
    }
}

fn push_flag(out: &mut String, on: bool, params: &str)
    ensures
        final(out)@ == old(out)@ + flag_code(on, params@),
{
    if on {
        push_code(out, params);
    }
    proof {
        assert(out@ =~= old(out)@ + flag_code(on, params@));
    }
}

/// Appending piece after piece is appending the pieces joined.
proof fn lemma_append_step(start: Seq<char>, done: Seq<char>, piece: Seq<char>)
    ensures
        (start + done) + piece == start + (done + piece),
{
    assert((start + done) + piece =~= start + (done + piece));
}

fn push_decorations(out: &mut String, style: &Style<'_>)
    ensures
        final(out)@ == old(out)@ + decoration_codes(style@),
{
    let ghost start = out@;
    push_flag(out, style.bold, "1");
    let ghost done = flag_code(style.bold, "1"@);
    push_flag(out, style.italic, "3");
    proof {
        lemma_append_step(start, done, flag_code(style.italic, "3"@));
    }
    let ghost done = done + flag_code(style.italic, "3"@);
    push_flag(out, style.underline, "4");
    proof {
        lemma_append_step(start, done, flag_code(style.underline, "4"@));
    }
    let ghost done = done + flag_code(style.underline, "4"@);
    push_flag(out, style.double_underline, "4:2");
    proof {
        lemma_append_step(start, done, flag_code(style.double_underline, "4:2"@));
    }
    let ghost done = done + flag_code(style.double_underline, "4:2"@);
    push_flag(out, style.curly_underline, "4:3");
    proof {
        lemma_append_step(start, done, flag_code(style.curly_underline, "4:3"@));
    }
    let ghost done = done + flag_code(style.curly_underline, "4:3"@);
    push_flag(out, style.overline, "53");
    proof {
        lemma_append_step(start, done, flag_code(style.overline, "53"@));
    }
    let ghost done = done + flag_code(style.overline, "53"@);
    push_flag(out, style.strikethrough, "9");
    proof {
        lemma_append_step(start, done, flag_code(style.strikethrough, "9"@));
    }
    let ghost done = done + flag_code(style.strikethrough, "9"@);
    push_flag(out, style.dim, "2");
    proof {
        lemma_append_step(start, done, flag_code(style.dim, "2"@));
    }
    let ghost done = done + flag_code(style.dim, "2"@);
    push_flag(out, style.blink, "5");
    proof {
        lemma_append_step(start, done, flag_code(style.blink, "5"@));
    }
    let ghost done = done + flag_code(style.blink, "5"@);
    push_flag(out, style.inverse, "7");
    proof {
        lemma_append_step(start, done, flag_code(style.inverse, "7"@));
    }
    let ghost done = done + flag_code(style.inverse, "7"@);
    push_flag(out, style.hidden, "8");
    proof {
        lemma_append_step(start, done, flag_code(style.hidden, "8"@));
    }
}

fn push_link_open(out: &mut String, target: &str)
    ensures
        final(out)@ == old(out)@ + link_open(target@),
{
    out.append("\x1b]8;;");
    out.append(target);
    out.append("\x1b\\");
    proof {
        assert(out@ =~= old(out)@ + link_open(target@));
    }
}

fn push_underline_color(out: &mut String, style: &Style<'_>)
    ensures
        final(out)@ == old(out)@ + (match style@.underline_color {
            Some(c) => c.underline_code(),
            None => Seq::empty(),
        }),
{
    if let Some(c) = style.underline_color {
        let code = c.as_ansi_underline_color();
        out.append(code.as_str());
    }
    proof {
        assert(out@ =~= old(out)@ + (match style@.underline_color {
            Some(c) => c.underline_code(),
            None => Seq::empty(),
        }));
    }
}

fn push_link(out: &mut String, style: &Style<'_>)
    ensures
        final(out)@ == old(out)@ + (match style@.url {
            Some(target) => link_open(target),
            None => Seq::empty(),
        }),
{
    if let Some(target) = &style.url {
        push_link_open(out, cow_str(target));
    }
    proof {
        assert(out@ =~= old(out)@ + (match style@.url {
            Some(target) => link_open(target),
            None => Seq::empty(),
        }));
    }
}

fn push_prefix(out: &mut String, style: &Style<'_>)
    ensures
        final(out)@ == old(out)@ + style_prefix(style@),
{
    let ghost start = out@;
    let fg = style.fg.as_ansi_fg();
    out.append(fg.as_str());
    let ghost done = style.fg.fg_code();
    let bg = style.bg.as_ansi_bg();
    out.append(bg.as_str());
    proof {
        lemma_append_step(start, done, style.bg.bg_code());
    }
    let ghost done = done + style.bg.bg_code();
    let ghost piece = match style@.underline_color {
        Some(c) => c.underline_code(),
        None => Seq::empty(),
    };
    push_underline_color(out, style);
    proof {
        lemma_append_step(start, done, piece);
    }
    let ghost done = done + piece;
    push_decorations(out, style);
    proof {
        lemma_append_step(start, done, decoration_codes(style@));
    }
    let ghost done = done + decoration_codes(style@);
    let ghost piece = match style@.url {
        Some(target) => link_open(target),
        None => Seq::empty(),
    };
    push_link(out, style);
    proof {
        lemma_append_step(start, done, piece);
    }
}

fn push_suffix(out: &mut String, style: &Style<'_>)
    ensures
        final(out)@ == old(out)@ + style_suffix(style@),
{
    if style.url.is_some() {
        push_link_open(out, "");
        proof {
            reveal_strlit("");
            assert(""@ =~= Seq::<char>::empty());
        }
    }
    push_code(out, "0");
    proof {
        assert(out@ =~= old(out)@ + style_suffix(style@));
    }
}

impl<'a> Span<'a> {
    /// A fragment of the given text and style.
    pub fn new<S: Into<Cow<'a, str>>>(text: S, style: Style<'a>) -> (span: Self)
        ensures
            call_ensures(<S as Into<Cow<'a, str>>>::into, (text,), span.text),
            span.style == style,
    {
        Span { text: text.into(), style }
    }

    /// True when the text and a hyperlink target, if there is one, are
    /// borrowed slices.
    pub open spec fn is_borrowed(&self) -> bool {
        self.text is Borrowed && self.style.is_borrowed()
    }

    /// True when neither the text nor a hyperlink target borrows its string.
    pub open spec fn is_owned(&self) -> bool {
        self.text is Owned && self.style.is_owned()
    }

    /// The same fragment with all its text owned, so that it can outlive the
    /// markup it was read from.
    pub fn into_owned(self) -> (span: Span<'static>)
        ensures
            span@ == self@,
            span.is_owned(),
    {
        Span { text: cow_into_owned(self.text), style: self.style.into_owned() }
    }

    /// The fragment as it is printed: the codes of its style, the text, the
    /// end of the hyperlink if there is one, and the reset.
    pub fn to_string(&self) -> (out: String)
        ensures
            out@ == rendered(self@),
    {
        let mut out = String::new();
        self.push_to(&mut out);
        out
    }

    /// Appends the fragment as it is printed.
    pub fn push_to(&self, out: &mut String)
        ensures
            final(out)@ == old(out)@ + rendered(self@),
    {
        let ghost start = out@;
        push_prefix(out, &self.style);
        out.append(cow_str(&self.text));
        proof {
            lemma_append_step(start, style_prefix(self.style@), self.text@);
        }
        push_suffix(out, &self.style);
        proof {
            lemma_append_step(
                start,
                style_prefix(self.style@) + self.text@,
                style_suffix(self.style@),
            );
        }
    }
}

} // verus!
