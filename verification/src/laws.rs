//! What holds of every document that the scan reads, proved from the
//! definition of the scan.

use crate::parser::{
    fragments, joined_text, less_than_fragment, no_empty_text, rendered_all, scan, stack_after,
    stripped, text_fragment,
};
use crate::span::{
    decoration_codes, link_close, link_open, rendered, reset_code, style_prefix, style_suffix,
    SpanView,
};
use crate::style::StyleView;
use crate::tag::{keyword, tag_key, tag_style, tag_value, Keyword};
use crate::text::{
    after_first, ascii_lower, before_first, leading_spaces, lemma_first_absent,
    lemma_first_index, lemma_first_present, lowered, trailing_spaces, trimmed,
};
use vstd::prelude::*;
use vstd::utf8::is_ascii_chars;

verus! {

/// The text of two runs of fragments is the text of the first, then the
/// text of the second.
pub proof fn lemma_joined_text_concat(a: Seq<SpanView>, b: Seq<SpanView>)
    ensures
        joined_text(a + b) == joined_text(a) + joined_text(b),
    decreases b.len(),
{
    if b.len() == 0 {
        assert(a + b =~= a);
        assert(joined_text(a) + joined_text(b) =~= joined_text(a));
    } else {
        lemma_joined_text_concat(a, b.drop_last());
        assert((a + b).drop_last() =~= a + b.drop_last());
        assert((a + b).last() == b.last());
        assert(joined_text(a + b) =~= joined_text(a) + joined_text(b));
    }
}

/// Markup that holds no `<` is one fragment in the plain style, with the
/// markup as its text; empty markup gives no fragment.
pub proof fn lemma_no_tags(input: Seq<char>)
    requires
        !input.contains('<'),
    ensures
        fragments(input) == text_fragment(input, StyleView::plain()),
        input.len() == 0 ==> fragments(input).len() == 0,
        input.len() > 0 ==> fragments(input) == seq![
            SpanView { text: input, style: StyleView::plain() },
        ],
{
    lemma_first_absent(input, '<');
}

/// The texts of the fragments, joined, are the markup without its tags,
/// whatever styles are in force.
pub proof fn lemma_text_round_trip(input: Seq<char>, stack: Seq<StyleView>)
    ensures
        joined_text(scan(input, stack)) == stripped(input),
    decreases input.len(),
{
    let top = stack.last();
    lemma_first_index(input, '<');
    match after_first(input, '<') {
        None => {
            assert(input.take(input.len() as int) =~= input);
            lemma_text_of_fragment(input, top);
        },
        Some(after) => {
            let text = before_first(input, '<');
            let head = text_fragment(text, top);
            lemma_text_of_fragment(text, top);
            lemma_text_of_less_than(top);
            if after.len() > 0 && after[0] == '<' {
                lemma_text_round_trip(after.skip(1), stack);
                lemma_joined_text_concat(head, less_than_fragment(top));
                lemma_joined_text_concat(
                    head + less_than_fragment(top),
                    scan(after.skip(1), stack),
                );
            } else {
                lemma_first_index(after, '>');
                match after_first(after, '>') {
                    None => {
                        lemma_text_round_trip(after, stack);
                        lemma_joined_text_concat(head, less_than_fragment(top));
                        lemma_joined_text_concat(
                            head + less_than_fragment(top),
                            scan(after, stack),
                        );
                    },
                    Some(next) => {
                        let stack2 = stack_after(before_first(after, '>'), stack);
                        lemma_text_round_trip(next, stack2);
                        lemma_joined_text_concat(head, scan(next, stack2));
                    },
                }
            }
        },
    }
}

/// The text of the fragment for a run of text is that text.
proof fn lemma_text_of_fragment(text: Seq<char>, style: StyleView)
    ensures
        joined_text(text_fragment(text, style)) == text,
{
    let f = text_fragment(text, style);
    reveal_with_fuel(joined_text, 2);
    if text.len() > 0 {
        assert(f.drop_last() =~= Seq::<SpanView>::empty());
        assert(joined_text(f) =~= text);
    } else {
        assert(joined_text(f) =~= text);
    }
}

/// The text of the fragment for a `<` that stands for itself is `<`.
proof fn lemma_text_of_less_than(style: StyleView)
    ensures
        joined_text(less_than_fragment(style)) == seq!['<'],
{
    let f = less_than_fragment(style);
    reveal_with_fuel(joined_text, 2);
    assert(f.drop_last() =~= Seq::<SpanView>::empty());
    assert(joined_text(f) =~= seq!['<']);
}

/// No fragment is empty: text that would be is left out.
pub proof fn lemma_no_empty_fragment(input: Seq<char>, stack: Seq<StyleView>)
    ensures
        no_empty_text(scan(input, stack)),
    decreases input.len(),
{
    let top = stack.last();
    lemma_first_index(input, '<');
    match after_first(input, '<') {
        None => {},
        Some(after) => {
            let head = text_fragment(before_first(input, '<'), top);
            let less_than = less_than_fragment(top);
            assert(no_empty_text(head + less_than));
            if after.len() > 0 && after[0] == '<' {
                lemma_no_empty_fragment(after.skip(1), stack);
            } else {
                lemma_first_index(after, '>');
                match after_first(after, '>') {
                    None => {
                        lemma_no_empty_fragment(after, stack);
                    },
                    Some(next) => {
                        lemma_no_empty_fragment(
                            next,
                            stack_after(before_first(after, '>'), stack),
                        );
                    },
                }
            }
        },
    }
}

/// A tag as it is written: `<`, what it holds, `>`.
pub open spec fn written_tag(content: Seq<char>) -> Seq<char> {
    seq!['<'] + content + seq!['>']
}

/// True for what a tag can hold: no `>`, and no `<` at the start, which
/// would make `<<` of it.
pub open spec fn is_tag_content(content: Seq<char>) -> bool {
    !content.contains('>') && !(content.len() > 0 && content[0] == '<')
}

/// A tag gives no fragment: the markup after it is read with the stack that
/// the tag leaves.
pub proof fn lemma_scan_tag(content: Seq<char>, rest: Seq<char>, stack: Seq<StyleView>)
    requires
        is_tag_content(content),
    ensures
        scan(written_tag(content) + rest, stack) == scan(rest, stack_after(content, stack)),
{
    let input = written_tag(content) + rest;
    let after = content + seq!['>'] + rest;
    assert(!Seq::<char>::empty().contains('<'));
    assert(input =~= Seq::<char>::empty() + seq!['<'] + after);
    lemma_first_present(Seq::<char>::empty(), '<', after);
    lemma_first_present(content, '>', rest);
    assert(after.len() > 0);
    if content.len() > 0 {
        assert(after[0] == content[0]);
    } else {
        assert(after[0] == '>');
    }
    let head = text_fragment(Seq::<char>::empty(), stack.last());
    assert(head + scan(rest, stack_after(content, stack)) =~= scan(
        rest,
        stack_after(content, stack),
    ));
}

/// Text before a tag, or at the end of the markup, is one fragment in the
/// style on top of the stack.
pub proof fn lemma_scan_text(text: Seq<char>, rest: Seq<char>, stack: Seq<StyleView>)
    requires
        !text.contains('<'),
        rest.len() == 0 || rest[0] == '<',
    ensures
        scan(text + rest, stack) == text_fragment(text, stack.last()) + scan(rest, stack),
{
    let top = stack.last();
    if rest.len() == 0 {
        assert(text + rest =~= text);
        lemma_first_absent(text, '<');
        lemma_first_absent(rest, '<');
        assert(text_fragment(text, top) + text_fragment(rest, top) =~= text_fragment(text, top));
    } else {
        let after = rest.skip(1);
        assert(rest =~= Seq::<char>::empty() + seq!['<'] + after);
        assert(text + rest =~= text + seq!['<'] + after);
        assert(!Seq::<char>::empty().contains('<'));
        lemma_first_present(text, '<', after);
        lemma_first_present(Seq::<char>::empty(), '<', after);
        let head = text_fragment(text, top);
        let none = text_fragment(Seq::<char>::empty(), top);
        if after.len() > 0 && after[0] == '<' {
            let tail = less_than_fragment(top) + scan(after.skip(1), stack);
            assert(scan(rest, stack) =~= tail);
            assert(scan(text + rest, stack) =~= head + tail);
        } else {
            match after_first(after, '>') {
                None => {
                    let tail = less_than_fragment(top) + scan(after, stack);
                    assert(scan(rest, stack) =~= tail);
                    assert(scan(text + rest, stack) =~= head + tail);
                },
                Some(next) => {
                    let tail = scan(next, stack_after(before_first(after, '>'), stack));
                    assert(scan(rest, stack) =~= tail);
                },
            }
        }
    }
}

/// No tag empties the stack or touches its bottom: the style that the scan
/// starts with stays in force below every other.
pub proof fn lemma_stack_floor(tag: Seq<char>, stack: Seq<StyleView>)
    requires
        stack.len() >= 1,
    ensures
        stack_after(tag, stack).len() >= 1,
        stack_after(tag, stack)[0] == stack[0],
{
}

/// What an opening tag changes holds up to its closing tag: text between
/// the two, with no tag in it, is a fragment in the style that the opening
/// tag makes, and what follows the closing tag is read as if neither tag
/// had been there.
pub proof fn lemma_scope(
    open: Seq<char>,
    body: Seq<char>,
    close: Seq<char>,
    rest: Seq<char>,
    stack: Seq<StyleView>,
)
    requires
        stack.len() >= 1,
        is_tag_content(open),
        !(open.len() > 0 && open[0] == '/'),
        !body.contains('<'),
        !close.contains('>'),
    ensures
        scan(written_tag(open) + body + written_tag(seq!['/'] + close) + rest, stack)
            == text_fragment(body, tag_style(open, stack.last())) + scan(rest, stack),
{
    let closing = seq!['/'] + close;
    let inner = stack.push(tag_style(open, stack.last()));
    let tail = written_tag(closing) + rest;
    assert(written_tag(open) + body + written_tag(closing) + rest =~= written_tag(open) + (body
        + tail));
    lemma_scan_tag(open, body + tail, stack);
    assert(tail[0] == '<');
    lemma_scan_text(body, tail, inner);
    assert forall|i: int| 0 <= i < closing.len() implies closing[i] != '>' by {
        if i > 0 {
            assert(closing[i] == close[i - 1]);
            assert(close.contains(close[i - 1]));
        }
    }
    lemma_scan_tag(closing, rest, inner);
    assert(stack_after(closing, inner) =~= stack);
}

/// A run of closing tags, one for each of the given names.
pub open spec fn closing_tags(names: Seq<Seq<char>>) -> Seq<char>
    decreases names.len(),
{
    if names.len() == 0 {
        Seq::empty()
    } else {
        written_tag(seq!['/'] + names[0]) + closing_tags(names.drop_first())
    }
}

/// Closing tags that close nothing are ignored: however many of them stand
/// before a text without tags, the document is that text in the plain
/// style.
pub proof fn lemma_unmatched_closing_tags(names: Seq<Seq<char>>, text: Seq<char>)
    requires
        forall|i: int| 0 <= i < names.len() ==> !(#[trigger] names[i]).contains('>'),
        !text.contains('<'),
    ensures
        fragments(closing_tags(names) + text) == text_fragment(text, StyleView::plain()),
    decreases names.len(),
{
    let stack = seq![StyleView::plain()];
    if names.len() == 0 {
        assert(closing_tags(names) + text =~= text);
        lemma_no_tags(text);
    } else {
        let closing = seq!['/'] + names[0];
        let rest = closing_tags(names.drop_first()) + text;
        assert(closing_tags(names) + text =~= written_tag(closing) + rest);
        assert forall|i: int| 0 <= i < closing.len() implies closing[i] != '>' by {
            if i > 0 {
                assert(closing[i] == names[0][i - 1]);
                assert(names[0].contains(names[0][i - 1]));
            }
        }
        lemma_scan_tag(closing, rest, stack);
        assert forall|i: int| 0 <= i < names.drop_first().len() implies !(
        #[trigger] names.drop_first()[i]).contains('>') by {
            assert(names.drop_first()[i] == names[i + 1]);
        }
        lemma_unmatched_closing_tags(names.drop_first(), text);
    }
}

/// True for a word of small letters, digits and underscores.
pub open spec fn is_lower_word(word: Seq<char>) -> bool {
    forall|i: int|
        0 <= i < word.len() ==> {
            let c = #[trigger] word[i];
            'a' <= c <= 'z' || '0' <= c <= '9' || c == '_'
        }
}

/// A word of small letters, digits and underscores is a tag without a value
/// and is its own key: there is nothing in it to split off, to trim or to
/// lower.
pub proof fn lemma_lower_word(word: Seq<char>)
    requires
        is_lower_word(word),
    ensures
        tag_value(word) is None,
        tag_key(word) == word,
{
    assert forall|i: int| 0 <= i < word.len() implies word[i] != '=' by {
        let c = word[i];
    }
    lemma_first_absent(word, '=');
    assert(is_ascii_chars(word)) by {
        assert forall|i: int| 0 <= i < word.len() implies '\0' <= #[trigger] word[i]
            <= '\u{7f}' by {
            let c = word[i];
        }
    }
    assert(leading_spaces(word) == 0) by {
        if word.len() > 0 {
            let c = word[0];
        }
    }
    let rest = word.skip(0);
    assert(rest =~= word);
    assert(trailing_spaces(word) == 0) by {
        if word.len() > 0 {
            let c = word[word.len() - 1];
        }
    }
    assert(trimmed(word) =~= word);
    assert(lowered(word) =~= word) by {
        assert forall|i: int| 0 <= i < word.len() implies ascii_lower(#[trigger] word[i])
            == word[i] by {
            let c = word[i];
        }
    }
}

/// `clear` gives the plain style, whatever the style around it.
pub proof fn lemma_clear(style: StyleView)
    ensures
        tag_style("clear"@, style) == StyleView::plain(),
{
    let word = "clear"@;
    reveal_strlit("clear");
    lemma_lower_word(word);
    lemma_clear_is_no_other_keyword();
}

/// `clear` spells the keyword that clears, and no other.
proof fn lemma_clear_is_no_other_keyword()
    ensures
        keyword("clear"@) == Some(Keyword::Clear),
{
    reveal_strlit("clear");
    reveal_strlit("black");
    reveal_strlit("red");
    reveal_strlit("green");
    reveal_strlit("yellow");
    reveal_strlit("blue");
    reveal_strlit("magenta");
    reveal_strlit("cyan");
    reveal_strlit("white");
    reveal_strlit("bg_black");
    reveal_strlit("bg_red");
    reveal_strlit("bg_green");
    reveal_strlit("bg_yellow");
    reveal_strlit("bg_blue");
    reveal_strlit("bg_magenta");
    reveal_strlit("bg_cyan");
    reveal_strlit("bg_white");
    reveal_strlit("b");
    reveal_strlit("bold");
    reveal_strlit("i");
    reveal_strlit("italic");
    reveal_strlit("u");
    reveal_strlit("underline");
    reveal_strlit("uu");
    reveal_strlit("dunderline");
    reveal_strlit("cu");
    reveal_strlit("cunderline");
    reveal_strlit("o");
    reveal_strlit("overline");
    reveal_strlit("s");
    reveal_strlit("strikethrough");
    reveal_strlit("dim");
    reveal_strlit("blink");
    reveal_strlit("hidden");
    reveal_strlit("inverse");
    assert("clear"@[0] == 'c' && "clear"@[1] == 'l');
    assert("black"@[0] == 'b');
    assert("white"@[0] == 'w');
    assert("green"@[0] == 'g');
    assert("blink"@[0] == 'b');
}

/// Inside `<clear>` text is plain whatever tags are open around it, and
/// after the closing tag the styles in force are those from before the
/// `<clear>`.
pub proof fn lemma_clear_scope(
    body: Seq<char>,
    close: Seq<char>,
    rest: Seq<char>,
    stack: Seq<StyleView>,
)
    requires
        stack.len() >= 1,
        !body.contains('<'),
        !close.contains('>'),
    ensures
        scan(written_tag("clear"@) + body + written_tag(seq!['/'] + close) + rest, stack)
            == text_fragment(body, StyleView::plain()) + scan(rest, stack),
{
    let word = "clear"@;
    reveal_strlit("clear");
    assert(is_tag_content(word)) by {
        assert forall|i: int| 0 <= i < word.len() implies word[i] != '>' by {}
    }
    lemma_clear(stack.last());
    lemma_scope(word, body, close, rest, stack);
}

/// What starts a text starts the text with more behind it.
proof fn lemma_prefix_grows(start: Seq<char>, text: Seq<char>, more: Seq<char>)
    requires
        start.is_prefix_of(text),
    ensures
        start.is_prefix_of(text + more),
{
    assert((text + more).subrange(0, start.len() as int) =~= text.subrange(0, start.len() as int));
}

/// What ends a text ends the text with more before it.
proof fn lemma_suffix_grows(end: Seq<char>, more: Seq<char>, text: Seq<char>)
    requires
        end.is_suffix_of(text),
    ensures
        end.is_suffix_of(more + text),
{
    let whole = more + text;
    assert(whole.subrange(whole.len() - end.len(), whole.len() as int) =~= text.subrange(
        text.len() - end.len(),
        text.len() as int,
    ));
}

/// Every fragment is printed on its own terms: it starts with the code of
/// its foreground and ends with the reset, whatever its style and text.
pub proof fn lemma_rendered_frame(span: SpanView)
    ensures
        span.style.fg.fg_code().is_prefix_of(rendered(span)),
        reset_code().is_suffix_of(rendered(span)),
{
    let style = span.style;
    let fg = style.fg.fg_code();
    let colors = fg + style.bg.bg_code();
    let underline = match style.underline_color {
        Some(c) => c.underline_code(),
        None => Seq::empty(),
    };
    let link = match style.url {
        Some(target) => link_open(target),
        None => Seq::empty(),
    };
    assert(fg.is_prefix_of(fg)) by {
        assert(fg.subrange(0, fg.len() as int) =~= fg);
    }
    lemma_prefix_grows(fg, fg, style.bg.bg_code());
    lemma_prefix_grows(fg, colors, underline);
    lemma_prefix_grows(fg, colors + underline, decoration_codes(style));
    lemma_prefix_grows(fg, colors + underline + decoration_codes(style), link);
    lemma_prefix_grows(fg, style_prefix(style), span.text);
    lemma_prefix_grows(fg, style_prefix(style) + span.text, style_suffix(style));
    let reset = reset_code();
    let close = if style.url is Some {
        link_close()
    } else {
        Seq::empty()
    };
    assert(reset.is_suffix_of(reset)) by {
        assert(reset.subrange(0, reset.len() as int) =~= reset);
    }
    lemma_suffix_grows(reset, close, reset);
    lemma_suffix_grows(reset, style_prefix(style) + span.text, style_suffix(style));
}

/// A document of two runs of fragments is printed as the first run, then
/// the second.
pub proof fn lemma_rendered_all_concat(a: Seq<SpanView>, b: Seq<SpanView>)
    ensures
        rendered_all(a + b) == rendered_all(a) + rendered_all(b),
    decreases b.len(),
{
    if b.len() == 0 {
        assert(a + b =~= a);
        assert(rendered_all(a) + rendered_all(b) =~= rendered_all(a));
    } else {
        lemma_rendered_all_concat(a, b.drop_last());
        assert((a + b).drop_last() =~= a + b.drop_last());
        assert((a + b).last() == b.last());
        assert(rendered_all(a + b) =~= rendered_all(a) + rendered_all(b));
    }
}

} // verus!
