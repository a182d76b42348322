use richparse::{Color, RichString, Style};

fn joined(doc: &RichString<'_>) -> String {
    doc.spans.iter().map(|span| span.text.as_ref()).collect()
}

#[test]
fn markup_without_lt_is_one_plain_fragment() {
    for input in [
        "a",
        "Hello, world",
        "a>b",
        "/red>",
        "color=red",
        " ",
        "\n",
        "h\u{e9}llo \u{1f600}",
        ">>>",
        "&lt;",
    ] {
        let doc = RichString::parse(input);
        assert_eq!(doc.spans.len(), 1, "input {:?}", input);
        assert_eq!(doc.spans[0].text, input);
        assert_eq!(doc.spans[0].style, Style::default());
    }
    assert_eq!(RichString::parse("").spans.len(), 0);
}

#[test]
fn joined_texts_are_the_markup_without_tags() {
    for (input, plain) in [
        ("", ""),
        ("abc", "abc"),
        ("<red>Hi</red>", "Hi"),
        ("Hello <red>World</red>", "Hello World"),
        ("<red>R <blue>B</blue> R</red>", "R B R"),
        ("a<<b", "a<b"),
        ("<<", "<"),
        ("<<<<", "<<"),
        ("<<red>Tag", "<red>Tag"),
        ("Escaped <<red>Tag", "Escaped <red>Tag"),
        ("a<b", "a<b"),
        ("a<", "a<"),
        ("<", "<"),
        ("a<b<<c", "a<b<c"),
        ("<>", ""),
        ("</>", ""),
        ("x<y>z", "xz"),
        ("<a<b>c", "c"),
        ("</a></b>t", "t"),
        ("<link=https://example.com>Click</link>", "Click"),
        ("1 << 2 <b>and</b> 2 > 1", "1 < 2 and 2 > 1"),
        ("<b>\u{65e5}\u{672c}</b>\u{8a9e}<<", "\u{65e5}\u{672c}\u{8a9e}<"),
        ("<red>>x", ">x"),
    ] {
        let doc = RichString::parse(input);
        assert_eq!(joined(&doc), plain, "input {:?}", input);
    }
}

#[test]
fn no_fragment_is_empty() {
    for input in ["", "<red></red>", "a<b></b>c", "<<", "<a><b>x</b></a>", "<>"] {
        for span in &RichString::parse(input).spans {
            assert!(!span.text.is_empty(), "input {:?}", input);
        }
    }
}

#[test]
fn clear_gives_the_plain_style_within_any_scope() {
    let doc = RichString::parse(
        "<red><bg=blue><b><i><u=green><link=x>a<clear>b</clear>c</link></u></i></b></bg></red>",
    );
    assert_eq!(doc.spans.len(), 3);
    let around = Style::new()
        .fg(Color::Red)
        .bg(Color::Blue)
        .bold()
        .italic()
        .underline()
        .underline_color(Color::Green)
        .url("x");
    assert_eq!(doc.spans[0].text, "a");
    assert_eq!(doc.spans[0].style, around);
    assert_eq!(doc.spans[1].text, "b");
    assert_eq!(doc.spans[1].style, Style::default());
    assert_eq!(doc.spans[2].text, "c");
    assert_eq!(doc.spans[2].style, around);
}

#[test]
fn tags_inside_clear_start_from_the_plain_style() {
    let doc = RichString::parse("<red><b><clear><i>x</i></clear>y");
    assert_eq!(doc.spans.len(), 2);
    assert_eq!(doc.spans[0].style, Style::new().italic());
    assert_eq!(doc.spans[1].style, Style::new().fg(Color::Red).bold());
}

#[test]
fn closing_a_scope_restores_the_style_before_it() {
    let doc = RichString::parse("<red>a<blue>b</blue>c<b>d</b>e</red>f");
    let styles: Vec<Style> = doc.spans.iter().map(|span| span.style.clone()).collect();
    assert_eq!(
        styles,
        [
            Style::new().fg(Color::Red),
            Style::new().fg(Color::Blue),
            Style::new().fg(Color::Red),
            Style::new().fg(Color::Red).bold(),
            Style::new().fg(Color::Red),
            Style::new(),
        ]
    );
}

#[test]
fn any_number_of_unmatched_closing_tags_leaves_the_plain_style() {
    for n in 0..50 {
        let mut markup = String::new();
        for i in 0..n {
            markup.push_str(if i % 2 == 0 { "</red>" } else { "</>" });
        }
        markup.push_str("text");
        let doc = RichString::parse(&markup);
        assert_eq!(doc.spans.len(), 1, "{} closing tags", n);
        assert_eq!(doc.spans[0].text, "text");
        assert_eq!(doc.spans[0].style, Style::default());
    }
}

#[test]
fn closing_tags_never_take_the_bottom_style_away() {
    let doc = RichString::parse("</a><b>x</b></b></b><i>y</i></i>z");
    let styles: Vec<Style> = doc.spans.iter().map(|span| span.style.clone()).collect();
    assert_eq!(styles, [Style::new().bold(), Style::new().italic(), Style::new()]);
}

#[test]
fn parsing_twice_gives_the_same_document() {
    let markup = "a<red>b<<c</red><link=X>d</link><";
    assert_eq!(RichString::parse(markup), RichString::parse(markup));
    assert_eq!(RichString::parse(markup).to_string(), RichString::parse(markup).to_string());
}
