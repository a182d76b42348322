use richparse::{Color, RichString, Span, Style};
use std::borrow::Cow;

fn plain() -> Style<'static> {
    Style {
        fg: Color::Default,
        bg: Color::Default,
        bold: false,
        italic: false,
        underline: false,
        double_underline: false,
        curly_underline: false,
        overline: false,
        strikethrough: false,
        dim: false,
        blink: false,
        inverse: false,
        hidden: false,
        url: None,
        underline_color: None,
    }
}

#[test]
fn default_style_is_plain() {
    assert_eq!(Style::default(), plain());
    assert_eq!(Style::new(), plain());
}

#[test]
fn each_builder_changes_one_field() {
    assert_eq!(Style::new().fg(Color::Red), Style { fg: Color::Red, ..plain() });
    assert_eq!(Style::new().bg(Color::Rgb(1, 2, 3)), Style { bg: Color::Rgb(1, 2, 3), ..plain() });
    assert_eq!(
        Style::new().underline_color(Color::Ansi256(4)),
        Style { underline_color: Some(Color::Ansi256(4)), ..plain() }
    );
    assert_eq!(Style::new().bold(), Style { bold: true, ..plain() });
    assert_eq!(Style::new().italic(), Style { italic: true, ..plain() });
    assert_eq!(Style::new().underline(), Style { underline: true, ..plain() });
    assert_eq!(Style::new().double_underline(), Style { double_underline: true, ..plain() });
    assert_eq!(Style::new().curly_underline(), Style { curly_underline: true, ..plain() });
    assert_eq!(Style::new().overline(), Style { overline: true, ..plain() });
    assert_eq!(Style::new().strikethrough(), Style { strikethrough: true, ..plain() });
    assert_eq!(Style::new().dim(), Style { dim: true, ..plain() });
    assert_eq!(Style::new().blink(), Style { blink: true, ..plain() });
    assert_eq!(Style::new().inverse(), Style { inverse: true, ..plain() });
    assert_eq!(Style::new().hidden(), Style { hidden: true, ..plain() });
    assert_eq!(
        Style::new().url("https://example.com"),
        Style { url: Some(Cow::Borrowed("https://example.com")), ..plain() }
    );
}

#[test]
fn builders_keep_what_was_set_before() {
    let style = Style::new().fg(Color::Red).bold().bg(Color::Blue).url("u").dim();
    assert_eq!(
        style,
        Style {
            fg: Color::Red,
            bg: Color::Blue,
            bold: true,
            dim: true,
            url: Some(Cow::Borrowed("u")),
            ..plain()
        }
    );
    assert_eq!(style.clone().fg(Color::Green).fg, Color::Green);
    assert_eq!(style.clone().fg(Color::Green).bg, Color::Blue);
}

#[test]
fn url_takes_a_slice_or_a_string() {
    let a = Style::new().url("x");
    assert!(matches!(a.url, Some(Cow::Borrowed("x"))));
    let b = Style::new().url(String::from("x"));
    assert!(matches!(b.url, Some(Cow::Owned(_))));
    assert_eq!(a, b);
}

#[test]
fn clone_gives_an_equal_value() {
    let style = Style::new().fg(Color::Ansi256(7)).url(String::from("u")).underline();
    assert_eq!(style.clone(), style);
    let span = Span::new("t", style);
    assert_eq!(span.clone(), span);
    let doc = RichString::new(vec![span.clone(), span]);
    assert_eq!(doc.clone(), doc);
    assert_eq!(doc.clone().spans.len(), 2);
}

#[test]
fn clone_keeps_a_borrow_a_borrow() {
    let style = Style::new().url("u");
    assert!(matches!(style.clone().url, Some(Cow::Borrowed("u"))));
}

#[test]
fn style_into_owned_keeps_every_field() {
    let style = {
        let target = String::from("https://example.com");
        Style::new()
            .fg(Color::Red)
            .bg(Color::Ansi256(3))
            .underline_color(Color::Rgb(1, 2, 3))
            .italic()
            .url(target.as_str())
            .into_owned()
    };
    assert!(matches!(style.url, Some(Cow::Owned(_))));
    assert_eq!(
        style,
        Style {
            fg: Color::Red,
            bg: Color::Ansi256(3),
            underline_color: Some(Color::Rgb(1, 2, 3)),
            italic: true,
            url: Some(Cow::Borrowed("https://example.com")),
            ..plain()
        }
    );
    assert_eq!(Style::new().into_owned(), plain());
}

#[test]
fn span_into_owned_keeps_text_and_style() {
    let span = {
        let text = String::from("hello");
        let target = String::from("t");
        Span::new(text.as_str(), Style::new().bold().url(target.as_str())).into_owned()
    };
    assert!(matches!(span.text, Cow::Owned(_)));
    assert!(matches!(span.style.url, Some(Cow::Owned(_))));
    assert_eq!(span.text, "hello");
    assert_eq!(span.style, Style::new().bold().url("t"));
}

#[test]
fn document_into_owned_keeps_every_fragment() {
    let markup = String::from("a<red>b<link=HTTP://x>c</link></red>d<<");
    let parsed = RichString::parse(&markup);
    let copy = parsed.clone();
    let owned = parsed.into_owned();
    assert_eq!(owned, copy);
    assert_eq!(owned.spans.len(), 5);
    for span in &owned.spans {
        assert!(matches!(span.text, Cow::Owned(_)));
        assert!(!matches!(span.style.url, Some(Cow::Borrowed(_))));
    }
    assert_eq!(owned.to_string(), copy.to_string());
}

#[test]
fn parsed_fragments_borrow_from_the_markup() {
    let markup = String::from("ab<red>cd</red>");
    let doc = RichString::parse(&markup);
    assert_eq!(doc.spans.len(), 2);
    for span in &doc.spans {
        assert!(matches!(span.text, Cow::Borrowed(_)));
    }
    let start = markup.as_ptr() as usize;
    assert_eq!(doc.spans[0].text.as_ptr() as usize, start);
    assert_eq!(doc.spans[1].text.as_ptr() as usize, start + 7);
}

#[test]
fn new_keeps_the_fragments_as_given() {
    let doc = RichString::new(vec![Span::new("a", Style::new()), Span::new("", Style::new().bold())]);
    assert_eq!(doc.spans.len(), 2);
    assert_eq!(doc.spans[0].text, "a");
    assert_eq!(doc.spans[1].text, "");
    assert_eq!(doc.spans[1].style.bold, true);
}
