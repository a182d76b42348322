//! A document of styled fragments, and the scan that reads one from markup.

use crate::laws::{lemma_no_empty_fragment, lemma_no_tags, lemma_text_round_trip};
use crate::span::{rendered, Span, SpanView};
use crate::style::{Style, StyleView};
use crate::tag::{apply_tag, tag_style};
use crate::text::{
    after_first, before_first, lemma_first_index, split_once, starts_with, strip_prefix,
};
use vstd::prelude::*;

verus! {

/// Text in fragments, each with its own style.
#[derive(Debug, PartialEq, Eq)]
pub struct RichString<'a> {
    pub spans: Vec<Span<'a>>,
}

/// The fragments as mathematical values.
pub open spec fn span_views<'a>(spans: Seq<Span<'a>>) -> Seq<SpanView> {
    spans.map_values(|span: Span<'a>| span@)
}

/// The styles as mathematical values.
pub open spec fn style_views<'a>(styles: Seq<Style<'a>>) -> Seq<StyleView> {
    styles.map_values(|style: Style<'a>| style@)
}

impl<'a> View for RichString<'a> {
    type V = Seq<SpanView>;

    open spec fn view(&self) -> Seq<SpanView> {
        span_views(self.spans@)
    }
}

impl<'a> Clone for RichString<'a> {
    fn clone(&self) -> (doc: Self)
        ensures
            doc@ == self@,
    {
        let mut spans: Vec<Span<'a>> = Vec::new();
        for i in 0..self.spans.len()
            invariant
                spans.len() == i,
                forall|j: int| 0 <= j < i ==> spans[j]@ == self.spans[j]@,
        {
            spans.push(self.spans[i].clone());
        }
        proof {
            assert(span_views(spans@) =~= span_views(self.spans@));
        }
        RichString { spans }
    }
}

/// The fragment for a run of text: none where the text is empty.
pub open spec fn text_fragment(text: Seq<char>, style: StyleView) -> Seq<SpanView> {
    if text.len() > 0 {
        seq![SpanView { text, style }]
    } else {
        Seq::empty()
    }
}

/// The fragment for a `<` that stands for itself.
pub open spec fn less_than_fragment(style: StyleView) -> Seq<SpanView> {
    seq![SpanView { text: seq!['<'], style }]
}

/// The stack of styles after a tag. A closing tag, one that starts with `/`,
/// takes the top style away unless it is the only one; any other tag puts
/// on top what it makes of the top style.
pub open spec fn stack_after(tag: Seq<char>, stack: Seq<StyleView>) -> Seq<StyleView> {
    if tag.len() > 0 && tag[0] == '/' {
        if stack.len() > 1 {
            stack.drop_last()
        } else {
            stack
        }
    } else {
        stack.push(tag_style(tag, stack.last()))
    }
}

/// The fragments of the markup `rest`, read with `stack` as the styles in
/// force, the innermost last.
///
/// Text up to the next `<` is a fragment in the top style. `<<` is a
/// fragment `<`. A `<` with no `>` after it is a fragment `<` too, and what
/// follows it is read as markup again. Otherwise what stands between `<` and
/// the next `>` is a tag: it changes the stack and gives no fragment.
pub open spec fn scan(rest: Seq<char>, stack: Seq<StyleView>) -> Seq<SpanView>
    decreases rest.len(),
{
    let top = stack.last();
    match after_first(rest, '<') {
        None => text_fragment(rest, top),
        Some(after) => {
            let head = text_fragment(before_first(rest, '<'), top);
            if after.len() > 0 && after[0] == '<' {
                head + less_than_fragment(top) + scan(after.skip(1), stack)
            } else {
                match after_first(after, '>') {
                    None => head + less_than_fragment(top) + scan(after, stack),
                    Some(next) => head + scan(
                        next,
                        stack_after(before_first(after, '>'), stack),
                    ),
                }
            }
        },
    }
}

/// The fragments of a whole document: the scan that starts with the plain
/// style alone on the stack.
pub open spec fn fragments(input: Seq<char>) -> Seq<SpanView> {
    scan(input, seq![StyleView::plain()])
}

/// The texts of the fragments, one after the other.
pub open spec fn joined_text(spans: Seq<SpanView>) -> Seq<char>
    decreases spans.len(),
{
    if spans.len() == 0 {
        Seq::empty()
    } else {
        joined_text(spans.drop_last()) + spans.last().text
    }
}

/// Markup without its tags: text stays as it is, `<<` stands for `<`, a `<`
/// that no `>` follows stands for itself, and a tag stands for nothing.
pub open spec fn stripped(input: Seq<char>) -> Seq<char>
    decreases input.len(),
{
    match after_first(input, '<') {
        None => input,
        Some(after) => {
            let head = before_first(input, '<');
            if after.len() > 0 && after[0] == '<' {
                head + seq!['<'] + stripped(after.skip(1))
            } else {
                match after_first(after, '>') {
                    None => head + seq!['<'] + stripped(after),
                    Some(next) => head + stripped(next),
                }
            }
        },
    }
}

/// True when every fragment has some text.
pub open spec fn no_empty_text(spans: Seq<SpanView>) -> bool {
    forall|i: int| 0 <= i < spans.len() ==> (#[trigger] spans[i]).text.len() > 0
}

/// A document as it is printed: its fragments, each as it is printed, one
/// after the other.
pub open spec fn rendered_all(spans: Seq<SpanView>) -> Seq<char>
    decreases spans.len(),
{
    if spans.len() == 0 {
        Seq::empty()
    } else {
        rendered_all(spans.drop_last()) + rendered(spans.last())
    }
}

/// True when no style owns its hyperlink target.
pub open spec fn styles_borrowed<'a>(styles: Seq<Style<'a>>) -> bool {
    forall|i: int| 0 <= i < styles.len() ==> (#[trigger] styles[i]).is_borrowed()
}

/// True when no fragment owns its text or its hyperlink target.
pub open spec fn spans_borrowed<'a>(spans: Seq<Span<'a>>) -> bool {
    forall|i: int| 0 <= i < spans.len() ==> (#[trigger] spans[i]).is_borrowed()
}

fn top_style<'a>(stack: &Vec<Style<'a>>) -> (style: Style<'a>)
    requires
        stack.len() >= 1,
    ensures
        style@ == style_views(stack@).last(),
        styles_borrowed(stack@) ==> style.is_borrowed(),
{
    stack[stack.len() - 1].clone()
}

fn push_text<'a>(spans: &mut Vec<Span<'a>>, text: &'a str, style: Style<'a>)
    ensures
        span_views(final(spans)@) == span_views(old(spans)@) + seq![
            SpanView { text: text@, style: style@ },
        ],
        spans_borrowed(old(spans)@) && style.is_borrowed() ==> spans_borrowed(final(spans)@),
{
    let span = Span::new(text, style);
    spans.push(span);
    proof {
        assert(span_views(spans@) =~= span_views(old(spans)@) + seq![
            SpanView { text: text@, style: style@ },
        ]);
    }
}

fn apply_to_stack<'a>(stack: &mut Vec<Style<'a>>, tag: &'a str)
    requires
        old(stack).len() >= 1,
    ensures
        final(stack).len() >= 1,
        style_views(final(stack)@) == stack_after(tag@, style_views(old(stack)@)),
        styles_borrowed(old(stack)@) ==> styles_borrowed(final(stack)@),
{
    if starts_with(tag, '/') {
        if stack.len() > 1 {
            stack.pop();
        }
        proof {
            assert(style_views(stack@) =~= stack_after(tag@, style_views(old(stack)@)));
        }
    } else {
        let style = apply_tag(tag, top_style(stack));
        stack.push(style);
        proof {
            assert(style_views(stack@) =~= stack_after(tag@, style_views(old(stack)@)));
        }
    }
}

impl<'a> RichString<'a> {
    /// A document of the given fragments, in their order.
    pub fn new(spans: Vec<Span<'a>>) -> (doc: Self)
        ensures
            doc.spans == spans,
    {
        RichString { spans }
    }

    /// Reads markup. Every input gives a document: what is no well-formed
    /// tag is kept as text or ignored. The texts of the fragments, joined,
    /// are the markup without its tags; markup without `<` is one plain
    /// fragment, or none where it is empty. No fragment is empty. Texts and
    /// hyperlink targets are slices of the markup: nothing is copied.
    pub fn parse(input: &'a str) -> (doc: Self)
        ensures
            doc@ == fragments(input@),
            joined_text(doc@) == stripped(input@),
            !input@.contains('<') ==> doc@ == text_fragment(input@, StyleView::plain()),
            no_empty_text(doc@),
            doc.is_borrowed(),
    {
        let mut spans: Vec<Span<'a>> = Vec::new();
        let mut stack: Vec<Style<'a>> = Vec::new();
        stack.push(Style::default());
        let mut rest: &'a str = input;
        proof {
            assert(style_views(stack@) =~= seq![StyleView::plain()]);
            assert(span_views(spans@) =~= Seq::<SpanView>::empty());
            assert(span_views(spans@) + scan(rest@, style_views(stack@)) =~= fragments(input@));
        }
        loop
            invariant_except_break
                stack.len() >= 1,
                span_views(spans@) + scan(rest@, style_views(stack@)) == fragments(input@),
            invariant
                styles_borrowed(stack@),
                spans_borrowed(spans@),
            ensures
                span_views(spans@) == fragments(input@),
            decreases rest@.len(),
        {
            let ghost done = span_views(spans@);
            let ghost styles = style_views(stack@);
            let ghost top = styles.last();
            let (head, after) = split_once(rest, '<');
            if !head.is_empty() {
                push_text(&mut spans, head, top_style(&stack));
            }
            assert(span_views(spans@) =~= done + text_fragment(before_first(rest@, '<'), top));
            match after {
                None => {
                    proof {
                        lemma_first_index(rest@, '<');
                        assert(before_first(rest@, '<') =~= rest@);
                        assert(scan(rest@, styles) == text_fragment(rest@, top));
                    }
                    break ;
                },
                Some(after) => {
                    match strip_prefix(after, '<') {
                        Some(next) => {
                            push_text(&mut spans, "<", top_style(&stack));
                            proof {
                                reveal_strlit("<");
                                assert("<"@ =~= seq!['<']);
                                assert(span_views(spans@) + scan(next@, styles) =~= done + scan(
                                    rest@,
                                    styles,
                                ));
                            }
                            rest = next;
                        },
                        None => {
                            let (tag, next) = split_once(after, '>');
                            match next {
                                None => {
                                    push_text(&mut spans, "<", top_style(&stack));
                                    proof {
                                        reveal_strlit("<");
                                        assert("<"@ =~= seq!['<']);
                                        assert(span_views(spans@) + scan(after@, styles) =~= done
                                            + scan(rest@, styles));
                                    }
                                    rest = after;
                                },
                                Some(next) => {
                                    apply_to_stack(&mut stack, tag);
                                    proof {
                                        assert(span_views(spans@) + scan(
                                            next@,
                                            style_views(stack@),
                                        ) =~= done + scan(rest@, styles));
                                    }
                                    rest = next;
                                },
                            }
                        },
                    }
                },
            }
        }
        proof {
            lemma_text_round_trip(input@, seq![StyleView::plain()]);
            lemma_no_empty_fragment(input@, seq![StyleView::plain()]);
            if !input@.contains('<') {
                lemma_no_tags(input@);
            }
        }
        RichString { spans }
    }

    /// True when no fragment owns its text or its hyperlink target: nothing
    /// was copied.
    pub open spec fn is_borrowed(&self) -> bool {
        spans_borrowed(self.spans@)
    }

    /// True when no fragment borrows its text or its hyperlink target.
    pub open spec fn is_owned(&self) -> bool {
        forall|i: int| 0 <= i < self.spans.len() ==> (#[trigger] self.spans[i]).is_owned()
    }

    /// The same document with all its text owned, so that it can outlive the
    /// markup it was read from.
    pub fn into_owned(self) -> (doc: RichString<'static>)
        ensures
            doc@ == self@,
            doc.is_owned(),
    {
        let ghost source = self.spans@;
        let mut spans: Vec<Span<'static>> = Vec::new();
        for span in it: self.spans
            invariant
                it.seq() == source,
                spans.len() == it.index(),
                forall|j: int| 0 <= j < spans.len() ==> spans[j]@ == source[j]@,
                forall|j: int| 0 <= j < spans.len() ==> (#[trigger] spans[j]).is_owned(),
        {
            spans.push(span.into_owned());
        }
        proof {
            assert(span_views(spans@) =~= span_views(source));
        }
        RichString { spans }
    }

    /// The document as it is printed: every fragment as `Span::to_string`
    /// gives it, in order.
    pub fn to_string(&self) -> (out: String)
        ensures
            out@ == rendered_all(self@),
    {
        let mut out = String::new();
        for i in 0..self.spans.len()
            invariant
                out@ == rendered_all(self@.take(i as int)),
        {
            self.spans[i].push_to(&mut out);
            proof {
                let done = self@.take(i + 1);
                assert(done.drop_last() =~= self@.take(i as int));
                assert(done.last() == self.spans[i as int]@);
            }
        }
        proof {
            assert(self@.take(self.spans.len() as int) =~= self@);
        }
        out
    }
}

} // verus!
