use richparse::{Color, RichString, Style};

fn texts<'d>(doc: &'d RichString<'_>) -> Vec<&'d str> {
    doc.spans.iter().map(|span| span.text.as_ref()).collect()
}

#[test]
fn empty_markup_has_no_fragment() {
    let doc = RichString::parse("");
    assert_eq!(doc.spans.len(), 0);
}

#[test]
fn plain_text_is_one_fragment() {
    let doc = RichString::parse("plain text");
    assert_eq!(texts(&doc), ["plain text"]);
    assert_eq!(doc.spans[0].style, Style::default());
}

#[test]
fn gt_alone_is_text() {
    let doc = RichString::parse("a>b");
    assert_eq!(texts(&doc), ["a>b"]);
    let doc = RichString::parse(">/=#");
    assert_eq!(texts(&doc), [">/=#"]);
}

#[test]
fn doubled_lt_is_one_lt() {
    let doc = RichString::parse("a<<b");
    assert_eq!(texts(&doc), ["a", "<", "b"]);
    assert_eq!(texts(&doc).concat(), "a<b");
    assert_eq!(texts(&doc).iter().filter(|text| **text == "<").count(), 1);
    for span in &doc.spans {
        assert_eq!(span.style, Style::default());
    }
}

#[test]
fn runs_of_lt() {
    assert_eq!(texts(&RichString::parse("<")), ["<"]);
    assert_eq!(texts(&RichString::parse("<<")), ["<"]);
    assert_eq!(texts(&RichString::parse("<<<")), ["<", "<"]);
    assert_eq!(texts(&RichString::parse("<<<<")), ["<", "<"]);
    assert_eq!(texts(&RichString::parse("<<<<<")), ["<", "<", "<"]);
}

#[test]
fn doubled_lt_is_never_a_tag() {
    let doc = RichString::parse("<<red>x");
    assert_eq!(texts(&doc), ["<", "red>x"]);
    assert_eq!(doc.spans[1].style, Style::default());
    let doc = RichString::parse("<<<red>x");
    assert_eq!(texts(&doc), ["<", "x"]);
    assert_eq!(doc.spans[0].style, Style::default());
    assert_eq!(doc.spans[1].style, Style::new().fg(Color::Red));
}

#[test]
fn doubled_lt_takes_the_style_in_force() {
    let doc = RichString::parse("<red>a<<b</red>");
    assert_eq!(texts(&doc), ["a", "<", "b"]);
    for span in &doc.spans {
        assert_eq!(span.style, Style::new().fg(Color::Red));
    }
}

#[test]
fn lt_without_gt_is_text() {
    assert_eq!(texts(&RichString::parse("a<b")), ["a", "<", "b"]);
    assert_eq!(texts(&RichString::parse("a<")), ["a", "<"]);
    assert_eq!(texts(&RichString::parse("<b")), ["<", "b"]);
    assert_eq!(texts(&RichString::parse("a < b")), ["a ", "<", " b"]);
}

#[test]
fn text_after_an_open_lt_is_read_again() {
    let doc = RichString::parse("a<b<<c");
    assert_eq!(texts(&doc), ["a", "<", "b", "<", "c"]);
    let doc = RichString::parse("<red>x</red><y<z");
    assert_eq!(texts(&doc), ["x", "<", "y", "<", "z"]);
    assert_eq!(doc.spans[0].style, Style::new().fg(Color::Red));
    for span in &doc.spans[1..] {
        assert_eq!(span.style, Style::default());
    }
}

#[test]
fn open_lt_takes_the_style_in_force() {
    let doc = RichString::parse("<b>x<y");
    assert_eq!(texts(&doc), ["x", "<", "y"]);
    for span in &doc.spans {
        assert_eq!(span.style, Style::new().bold());
    }
}

#[test]
fn tags_give_no_fragment() {
    assert_eq!(RichString::parse("<red>").spans.len(), 0);
    assert_eq!(RichString::parse("<red></red>").spans.len(), 0);
    assert_eq!(RichString::parse("<>").spans.len(), 0);
    assert_eq!(RichString::parse("</>").spans.len(), 0);
    assert_eq!(RichString::parse("<a><b><c>").spans.len(), 0);
    assert_eq!(texts(&RichString::parse("<>a")), ["a"]);
}

#[test]
fn unknown_tags_open_a_scope_that_changes_nothing() {
    let doc = RichString::parse("x<y>z</y>w");
    assert_eq!(texts(&doc), ["x", "z", "w"]);
    for span in &doc.spans {
        assert_eq!(span.style, Style::default());
    }
    let doc = RichString::parse("<red>a<nothing>b</nothing>c</red>d");
    assert_eq!(texts(&doc), ["a", "b", "c", "d"]);
    assert_eq!(doc.spans[0].style.fg, Color::Red);
    assert_eq!(doc.spans[1].style.fg, Color::Red);
    assert_eq!(doc.spans[2].style.fg, Color::Red);
    assert_eq!(doc.spans[3].style, Style::default());
}

#[test]
fn tag_runs_to_the_next_gt() {
    let doc = RichString::parse("<a<b>c");
    assert_eq!(texts(&doc), ["c"]);
    let doc = RichString::parse("<red\n>x");
    assert_eq!(texts(&doc), ["x"]);
    assert_eq!(doc.spans[0].style, Style::new().fg(Color::Red));
    let doc = RichString::parse("<red>>x");
    assert_eq!(texts(&doc), [">x"]);
}

#[test]
fn closing_tag_closes_whatever_is_open() {
    let doc = RichString::parse("<red>a</blue>b");
    assert_eq!(texts(&doc), ["a", "b"]);
    assert_eq!(doc.spans[0].style, Style::new().fg(Color::Red));
    assert_eq!(doc.spans[1].style, Style::default());
    let doc = RichString::parse("<red>a</>b");
    assert_eq!(doc.spans[1].style, Style::default());
}

#[test]
fn closing_tag_starts_with_the_slash() {
    // With a space before the slash this is an unknown opening tag.
    let doc = RichString::parse("<red>a< /red>b</x></x>c");
    assert_eq!(texts(&doc), ["a", "b", "c"]);
    assert_eq!(doc.spans[1].style, Style::new().fg(Color::Red));
    assert_eq!(doc.spans[2].style, Style::default());
}

#[test]
fn unmatched_closing_tags_are_ignored() {
    let doc = RichString::parse("</red>text");
    assert_eq!(texts(&doc), ["text"]);
    assert_eq!(doc.spans[0].style, Style::default());
    let doc = RichString::parse("<red>a</red></red></red>b<blue>c");
    assert_eq!(texts(&doc), ["a", "b", "c"]);
    assert_eq!(doc.spans[0].style, Style::new().fg(Color::Red));
    assert_eq!(doc.spans[1].style, Style::default());
    assert_eq!(doc.spans[2].style, Style::new().fg(Color::Blue));
}

#[test]
fn nested_tags_add_up() {
    let doc = RichString::parse("<red><bold>x</bold>y</red>z");
    assert_eq!(texts(&doc), ["x", "y", "z"]);
    assert_eq!(doc.spans[0].style, Style::new().fg(Color::Red).bold());
    assert_eq!(doc.spans[1].style, Style::new().fg(Color::Red));
    assert_eq!(doc.spans[2].style, Style::default());
}

#[test]
fn inner_tag_overrides_within_its_scope() {
    let doc = RichString::parse("<red>R <blue>B</blue> R</red>");
    assert_eq!(texts(&doc), ["R ", "B", " R"]);
    assert_eq!(doc.spans[0].style, Style::new().fg(Color::Red));
    assert_eq!(doc.spans[1].style, Style::new().fg(Color::Blue));
    assert_eq!(doc.spans[2].style, Style::new().fg(Color::Red));
}

#[test]
fn nesting_has_no_limit() {
    let mut markup = String::new();
    for _ in 0..2000 {
        markup.push_str("<i>");
    }
    markup.push_str("<b>x");
    for _ in 0..2001 {
        markup.push_str("</>");
    }
    markup.push('y');
    let doc = RichString::parse(&markup);
    assert_eq!(texts(&doc), ["x", "y"]);
    assert_eq!(doc.spans[0].style, Style::new().italic().bold());
    assert_eq!(doc.spans[1].style, Style::default());
}

#[test]
fn white_space_is_text() {
    let doc = RichString::parse("<red> </red>\n");
    assert_eq!(texts(&doc), [" ", "\n"]);
    assert_eq!(doc.spans[0].style, Style::new().fg(Color::Red));
}

#[test]
fn text_with_wide_characters() {
    let doc = RichString::parse("h\u{e9}llo <red>w\u{f6}rld</red> \u{2713}");
    assert_eq!(texts(&doc), ["h\u{e9}llo ", "w\u{f6}rld", " \u{2713}"]);
    assert_eq!(doc.spans[1].style, Style::new().fg(Color::Red));
    let doc = RichString::parse("\u{65e5}\u{672c}<b>\u{8a9e}</b>\u{1f600}<<\u{1f600}<");
    assert_eq!(
        texts(&doc),
        ["\u{65e5}\u{672c}", "\u{8a9e}", "\u{1f600}", "<", "\u{1f600}", "<"]
    );
    let doc = RichString::parse("<\u{e9}>x</\u{e9}>");
    assert_eq!(texts(&doc), ["x"]);
    assert_eq!(doc.spans[0].style, Style::default());
}

#[test]
fn curly_underline_with_color() {
    let doc = RichString::parse("<cu=red>X</cu>");
    assert_eq!(texts(&doc), ["X"]);
    assert_eq!(
        doc.spans[0].style,
        Style::new().curly_underline().underline_color(Color::Red)
    );
}

#[test]
fn link_in_markup() {
    let doc = RichString::parse("<link=https://example.com>Click</link>");
    assert_eq!(texts(&doc), ["Click"]);
    assert_eq!(doc.spans[0].style, Style::new().url("https://example.com"));
}

#[test]
fn hex_color_in_markup() {
    let doc = RichString::parse("<color=#00FF00>G</color>");
    assert_eq!(texts(&doc), ["G"]);
    assert_eq!(doc.spans[0].style, Style::new().fg(Color::Rgb(0, 255, 0)));
}

#[test]
fn palette_color_in_markup() {
    let doc = RichString::parse("<color=123>X</color>");
    assert_eq!(texts(&doc), ["X"]);
    assert_eq!(doc.spans[0].style, Style::new().fg(Color::Ansi256(123)));
}

#[test]
fn link_is_inherited_and_closed() {
    let doc = RichString::parse("<link=U>a<b>b</b></link>c");
    assert_eq!(texts(&doc), ["a", "b", "c"]);
    assert_eq!(doc.spans[0].style, Style::new().url("U"));
    assert_eq!(doc.spans[1].style, Style::new().url("U").bold());
    assert_eq!(doc.spans[2].style, Style::default());
}

#[test]
fn misspelled_tags_and_bad_colors_are_no_errors() {
    let doc = RichString::parse("<rde>a</rde><color=#zzzzzz>b</color><bg=999>c</bg><=>d");
    assert_eq!(texts(&doc), ["a", "b", "c", "d"]);
    for span in &doc.spans {
        assert_eq!(span.style, Style::default());
    }
}
