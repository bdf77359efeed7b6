use ratatui::style::{Color, Style};
use ratatui::text::{Line, Span, Text};
use tui_pattern_highlighter::slicing::{byte_len, substring};
use tui_pattern_highlighter::text::split_first_line;
use tui_pattern_highlighter::{highlight_line, highlight_text, try_highlight_text};

const STYLE: Style = Style::new().bg(Color::Blue);
const TEXT: &str =
    "Hello @Henry. Why are you named @nobody\nBecause yes, and you @John. Btw Where @Bill is ?";
const MENTION: &str = r"@\w+";

fn expected_line_count(text: &str) -> usize {
    let newlines = text.chars().filter(|&c| c == '\n').count();
    if !text.is_empty() && !text.ends_with('\n') {
        newlines + 1
    } else {
        newlines
    }
}

#[test]
fn highlighting_text_test() {
    let returned_text = highlight_text(TEXT.to_string(), r"@\w+", STYLE);
    let text = Text::from(vec![
        Line::from(vec![
            Span::from("Hello "),
            Span::from("@Henry").style(STYLE),
            Span::from(". Why are you named "),
            Span::from("@nobody").style(STYLE),
        ]),
        Line::from(vec![
            Span::from("Because yes, and you "),
            Span::from("@John").style(STYLE),
            Span::from(". Btw Where "),
            Span::from("@Bill").style(STYLE),
            Span::from(" is ?"),
        ]),
    ]);

    assert_eq!(returned_text, text);
}

#[test]
fn two_lines_are_highlighted_apart() {
    let text = highlight_text(String::from("Hi @buddy\n@stranger hello"), MENTION, STYLE);
    let expected = Text::from(vec![
        Line::from(vec![
            Span::from("Hi "),
            Span::from("@buddy").style(Style::new().bg(Color::Blue)),
        ]),
        Line::from(vec![
            Span::from("@stranger").style(Style::new().bg(Color::Blue)),
            Span::from(" hello"),
        ]),
    ]);
    assert_eq!(text, expected);
}

#[test]
fn empty_text_has_no_line() {
    let text = highlight_text(String::new(), MENTION, STYLE);
    assert_eq!(text, Text::default());
    assert!(text.lines.is_empty());
}

#[test]
fn trailing_newline_adds_no_line() {
    let text = highlight_text(String::from("Hi @buddy\n"), MENTION, STYLE);
    let expected = Text::from(vec![Line::from(vec![
        Span::from("Hi "),
        Span::from("@buddy").style(STYLE),
    ])]);
    assert_eq!(text, expected);
    assert_eq!(text.lines.len(), 1);
}

#[test]
fn empty_lines_are_kept() {
    let text = highlight_text(String::from("a\n\n@b"), MENTION, STYLE);
    let expected = Text::from(vec![
        Line::from(vec![Span::from("a")]),
        Line::default(),
        Line::from(vec![Span::from("@b").style(STYLE)]),
    ]);
    assert_eq!(text, expected);

    let text = highlight_text(String::from("\n"), MENTION, STYLE);
    assert_eq!(text, Text::from(vec![Line::default()]));

    let text = highlight_text(String::from("\n\n"), MENTION, STYLE);
    assert_eq!(text, Text::from(vec![Line::default(), Line::default()]));

    let text = highlight_text(String::from("\nx"), MENTION, STYLE);
    assert_eq!(text, Text::from(vec![Line::default(), Line::from(vec![Span::from("x")])]));
}

#[test]
fn matches_do_not_cross_a_newline() {
    let text = highlight_text(String::from("a\nb"), "a\\nb", STYLE);
    let expected = Text::from(vec![
        Line::from(vec![Span::from("a")]),
        Line::from(vec![Span::from("b")]),
    ]);
    assert_eq!(text, expected);

    let text = highlight_text(String::from("ab\nab"), "^a", STYLE);
    let expected = Text::from(vec![
        Line::from(vec![Span::from("a").style(STYLE), Span::from("b")]),
        Line::from(vec![Span::from("a").style(STYLE), Span::from("b")]),
    ]);
    assert_eq!(text, expected);
}

#[test]
fn each_line_is_what_highlight_line_gives() {
    let text = highlight_text(TEXT.to_string(), MENTION, STYLE);
    let lines: Vec<&str> = TEXT.split('\n').collect();
    assert_eq!(text.lines.len(), lines.len());
    for (shown, line) in text.lines.iter().zip(lines) {
        assert_eq!(*shown, highlight_line(line.to_string(), MENTION, STYLE));
    }
}

#[test]
fn line_count_follows_the_newlines() {
    let inputs = [
        ("", 0),
        ("a", 1),
        ("a\n", 1),
        ("a\nb", 2),
        ("a\nb\n", 2),
        ("\n", 1),
        ("\n\n", 2),
        ("\n\na", 3),
        ("é\nñ\n@ü", 3),
        (TEXT, 2),
    ];
    for (input, count) in inputs {
        let text = highlight_text(input.to_string(), MENTION, STYLE);
        assert_eq!(text.lines.len(), count);
        assert_eq!(text.lines.len(), expected_line_count(input));
    }
}

#[test]
fn multibyte_text_is_cut_at_newlines() {
    let text = highlight_text(String::from("héllo @bób\nñandú @é"), MENTION, STYLE);
    let expected = Text::from(vec![
        Line::from(vec![Span::from("héllo "), Span::from("@bób").style(STYLE)]),
        Line::from(vec![Span::from("ñandú "), Span::from("@é").style(STYLE)]),
    ]);
    assert_eq!(text, expected);
}

#[test]
fn text_has_no_style_of_its_own() {
    let text = highlight_text(String::from("Hi @buddy\nbye"), MENTION, STYLE);
    assert_eq!(text.style, Style::default());
    assert_eq!(text.alignment, None);
}

#[test]
fn same_inputs_give_equal_texts() {
    let first = highlight_text(TEXT.to_string(), MENTION, STYLE);
    let second = highlight_text(TEXT.to_string(), MENTION, STYLE);
    assert_eq!(first, second);
}

#[test]
fn invalid_pattern_gives_no_text() {
    assert_eq!(try_highlight_text(TEXT.to_string(), "(", STYLE), None);
    assert_eq!(try_highlight_text(String::new(), "(", STYLE), None);
    assert_eq!(try_highlight_text(String::from("\n"), "[", STYLE), None);
}

#[test]
fn valid_pattern_gives_the_highlighted_text() {
    let text = try_highlight_text(TEXT.to_string(), MENTION, STYLE);
    assert_eq!(text, Some(highlight_text(TEXT.to_string(), MENTION, STYLE)));
    let text = try_highlight_text(String::new(), MENTION, STYLE);
    assert_eq!(text, Some(Text::default()));
}

#[test]
fn split_first_line_cuts_at_the_first_newline() {
    assert_eq!(split_first_line("a\nb\nc"), Some(("a", "b\nc")));
    assert_eq!(split_first_line("abc"), None);
    assert_eq!(split_first_line(""), None);
    assert_eq!(split_first_line("\n"), Some(("", "")));
    assert_eq!(split_first_line("\nx"), Some(("", "x")));
    assert_eq!(split_first_line("x\n"), Some(("x", "")));
    assert_eq!(split_first_line("hé\nñ"), Some(("hé", "ñ")));
}

#[test]
fn substring_copies_the_bytes_between_two_offsets() {
    assert_eq!(substring("Hi @buddy", 3, 9), "@buddy");
    assert_eq!(substring("Hi @buddy", 0, 3), "Hi ");
    assert_eq!(substring("Hi @buddy", 4, 4), "");
    assert_eq!(substring("héllo", 1, 3), "é");
    assert_eq!(substring("héllo", 0, 6), "héllo");
}

#[test]
fn byte_len_counts_bytes() {
    assert_eq!(byte_len(""), 0);
    assert_eq!(byte_len("abc"), 3);
    assert_eq!(byte_len("héllo"), 6);
}
