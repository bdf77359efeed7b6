use ratatui::style::{Color, Modifier, Style};
use ratatui::text::{Line, Span};
use tui_pattern_highlighter::fragments::{push_plain, push_styled};
use tui_pattern_highlighter::{
    assemble_line, find_spans, highlight_line, is_valid_pattern, try_highlight_line,
};

const STYLE: Style = Style::new().bg(Color::Blue);
const TEXT: &str =
    "Hello @Henry. Why are you named @nobody\nBecause yes, and you @John. Btw Where @Bill is ?";
const MENTION: &str = r"@\w+";

fn shown(line: &Line) -> String {
    let mut all = String::new();
    for span in &line.spans {
        all.push_str(&span.content);
    }
    all
}

#[test]
fn highlighting_line_test() {
    let returned_line = highlight_line(TEXT[0..39].to_string(), r"@\w+", STYLE);

    let line = Line::from(vec![
        Span::from("Hello "),
        Span::from("@Henry").style(STYLE),
        Span::from(". Why are you named "),
        Span::from("@nobody").style(STYLE),
    ]);

    assert_eq!(returned_line, line);
}

#[test]
fn plain_text_then_a_match() {
    let line = highlight_line(String::from("Hi @buddy"), MENTION, STYLE);
    let expected = Line::from(vec![
        Span::from("Hi "),
        Span::from("@buddy").style(Style::new().bg(Color::Blue)),
    ]);
    assert_eq!(line, expected);
    assert_eq!(line.spans.len(), 2);
    assert_eq!(line.spans[0].style, Style::default());
    assert_eq!(line.spans[1].style, STYLE);
}

#[test]
fn a_match_then_plain_text() {
    let line = highlight_line(String::from("@stranger hello"), MENTION, STYLE);
    let expected = Line::from(vec![
        Span::from("@stranger").style(STYLE),
        Span::from(" hello"),
    ]);
    assert_eq!(line, expected);
}

#[test]
fn empty_line_has_no_fragment() {
    let line = highlight_line(String::new(), MENTION, STYLE);
    assert_eq!(line, Line::default());
    assert!(line.spans.is_empty());
    let line = highlight_line(String::new(), "x*", STYLE);
    assert_eq!(line, Line::from(vec![Span::from("").style(STYLE)]));
}

#[test]
fn line_without_match_is_one_plain_fragment() {
    let line = highlight_line(String::from("no mentions here"), MENTION, STYLE);
    assert_eq!(line, Line::from(vec![Span::from("no mentions here")]));
    assert_eq!(line.spans.len(), 1);
    assert_eq!(line.spans[0].style, Style::default());
}

#[test]
fn whole_line_matched_is_one_highlighted_fragment() {
    let line = highlight_line(String::from("@everyone"), MENTION, STYLE);
    assert_eq!(line, Line::from(vec![Span::from("@everyone").style(STYLE)]));
}

#[test]
fn adjacent_matches_leave_no_empty_gap() {
    let line = highlight_line(String::from("a12b"), r"\d", STYLE);
    let expected = Line::from(vec![
        Span::from("a"),
        Span::from("1").style(STYLE),
        Span::from("2").style(STYLE),
        Span::from("b"),
    ]);
    assert_eq!(line, expected);
}

#[test]
fn adjacent_mentions_stay_apart() {
    let line = highlight_line(String::from("@a@b"), MENTION, STYLE);
    let expected = Line::from(vec![
        Span::from("@a").style(STYLE),
        Span::from("@b").style(STYLE),
    ]);
    assert_eq!(line, expected);
}

#[test]
fn empty_matches_become_empty_highlighted_fragments() {
    let line = highlight_line(String::from("ab"), "x*", STYLE);
    let expected = Line::from(vec![
        Span::from("").style(STYLE),
        Span::from("a"),
        Span::from("").style(STYLE),
        Span::from("b"),
        Span::from("").style(STYLE),
    ]);
    assert_eq!(line, expected);
}

#[test]
fn offsets_count_bytes_not_characters() {
    let line = highlight_line(String::from("héllo @bób ñ"), MENTION, STYLE);
    let expected = Line::from(vec![
        Span::from("héllo "),
        Span::from("@bób").style(STYLE),
        Span::from(" ñ"),
    ]);
    assert_eq!(line, expected);
}

#[test]
fn style_is_applied_as_given() {
    let style = Style::new().fg(Color::Red).add_modifier(Modifier::BOLD);
    let line = highlight_line(String::from("x 42"), r"\d+", style);
    assert_eq!(line.spans.len(), 2);
    assert_eq!(line.spans[0], Span::raw("x "));
    assert_eq!(line.spans[1], Span::styled("42", style));
    assert_eq!(line.spans[1].style.fg, Some(Color::Red));
    assert_eq!(line.spans[1].style.add_modifier, Modifier::BOLD);
}

#[test]
fn empty_style_still_cuts_at_matches() {
    let line = highlight_line(String::from("a1"), r"\d", Style::default());
    assert_eq!(line, Line::from(vec![Span::raw("a"), Span::raw("1")]));
}

#[test]
fn line_has_no_style_of_its_own() {
    let line = highlight_line(String::from("Hi @buddy"), MENTION, STYLE);
    assert_eq!(line.style, Style::default());
    assert_eq!(line.alignment, None);
}

#[test]
fn fragments_rebuild_the_line() {
    let inputs = [
        "",
        "Hi @buddy",
        "@a@b",
        "no mentions here",
        "héllo @bób ñ",
        "@start and @end",
        "  @  @@ @x@ ",
    ];
    for input in inputs {
        let line = highlight_line(input.to_string(), MENTION, STYLE);
        assert_eq!(shown(&line), input);
        let line = highlight_line(input.to_string(), "x*", STYLE);
        assert_eq!(shown(&line), input);
    }
}

#[test]
fn every_match_is_one_fragment() {
    let input = "@a, @bb and @ccc.";
    let spans = find_spans(MENTION, input);
    let line = highlight_line(input.to_string(), MENTION, STYLE);
    let highlighted: Vec<&str> = line
        .spans
        .iter()
        .filter(|span| span.style == STYLE)
        .map(|span| span.content.as_ref())
        .collect();
    let matched: Vec<&str> = spans.iter().map(|&(start, end)| &input[start..end]).collect();
    assert_eq!(highlighted, matched);
    assert_eq!(highlighted, vec!["@a", "@bb", "@ccc"]);
    let plain: Vec<&str> = line
        .spans
        .iter()
        .filter(|span| span.style == Style::default())
        .map(|span| span.content.as_ref())
        .collect();
    assert_eq!(plain, vec![", ", " and ", "."]);
}

#[test]
fn same_inputs_give_equal_lines() {
    let first = highlight_line(TEXT.to_string(), MENTION, STYLE);
    let second = highlight_line(TEXT.to_string(), MENTION, STYLE);
    assert_eq!(first, second);
}

#[test]
fn find_spans_gives_byte_offsets() {
    assert_eq!(find_spans(MENTION, "Hi @buddy"), vec![(3, 9)]);
    assert_eq!(find_spans(MENTION, "héllo @bób ñ"), vec![(7, 12)]);
    assert_eq!(find_spans(MENTION, "@a@b"), vec![(0, 2), (2, 4)]);
    assert_eq!(find_spans(MENTION, "nothing"), vec![]);
    assert_eq!(find_spans("x*", "ab"), vec![(0, 0), (1, 1), (2, 2)]);
    assert_eq!(find_spans("a|", "a"), vec![(0, 1)]);
}

#[test]
fn patterns_are_told_apart() {
    assert!(is_valid_pattern(MENTION));
    assert!(is_valid_pattern(""));
    assert!(!is_valid_pattern("("));
    assert!(!is_valid_pattern(r"foo(bar"));
    assert!(!is_valid_pattern("[a-"));
    assert!(!is_valid_pattern(r"\w{1000}"));
}

#[test]
fn invalid_pattern_gives_no_line() {
    assert_eq!(try_highlight_line(String::from("Hi @buddy"), "(", STYLE), None);
    assert_eq!(try_highlight_line(String::new(), "(", STYLE), None);
    assert_eq!(try_highlight_line(String::from("a)"), "a)", STYLE), None);
}

#[test]
fn valid_pattern_gives_the_highlighted_line() {
    let line = try_highlight_line(String::from("Hi @buddy"), MENTION, STYLE);
    assert_eq!(line, Some(highlight_line(String::from("Hi @buddy"), MENTION, STYLE)));
    assert_eq!(
        line,
        Some(Line::from(vec![Span::from("Hi "), Span::from("@buddy").style(STYLE)]))
    );
}

#[test]
fn assemble_line_cuts_at_the_given_spans() {
    let line = assemble_line("Hi @buddy", &vec![(3, 9)], STYLE);
    assert_eq!(line, Line::from(vec![Span::from("Hi "), Span::from("@buddy").style(STYLE)]));

    let line = assemble_line("abcdef", &vec![(0, 1), (1, 3), (4, 5)], STYLE);
    let expected = Line::from(vec![
        Span::from("a").style(STYLE),
        Span::from("bc").style(STYLE),
        Span::from("d"),
        Span::from("e").style(STYLE),
        Span::from("f"),
    ]);
    assert_eq!(line, expected);

    let line = assemble_line("abc", &vec![(0, 3)], STYLE);
    assert_eq!(line, Line::from(vec![Span::from("abc").style(STYLE)]));
}

#[test]
fn assemble_line_without_spans_keeps_the_line_plain() {
    let line = assemble_line("plain", &Vec::new(), STYLE);
    assert_eq!(line, Line::from(vec![Span::from("plain")]));
    let line = assemble_line("", &Vec::new(), STYLE);
    assert_eq!(line, Line::default());
}

#[test]
fn assemble_line_takes_empty_spans() {
    let line = assemble_line("ab", &vec![(1, 1)], STYLE);
    let expected = Line::from(vec![
        Span::from("a"),
        Span::from("").style(STYLE),
        Span::from("b"),
    ]);
    assert_eq!(line, expected);
}

#[test]
fn pushed_fragments_come_in_order() {
    let mut line = Line::default();
    push_plain(&mut line, String::from("a"));
    push_styled(&mut line, String::from("b"), STYLE);
    push_plain(&mut line, String::from("c"));
    let expected = Line::from(vec![
        Span::raw("a"),
        Span::styled("b", STYLE),
        Span::raw("c"),
    ]);
    assert_eq!(line, expected);
}
