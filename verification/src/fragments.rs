//! The rendering types that the highlighter fills, and what verified code
//! assumes of them.
//!
//! Spans, lines and texts come from `ratatui` and are opaque here. Their
//! contents are named by spec functions without a body, and each call into
//! `ratatui` goes through one small function whose contract is taken on trust.
//! On top of these names stands the model that the contracts of this crate
//! speak of: a line is a sequence of [`Fragment`]s, a text a sequence of lines.

use ratatui::style::Style;
use ratatui::text::{Line, Span, Text};
use vstd::prelude::*;

verus! {

/// `ratatui::style::Style`, carried through as it is given.
#[verifier::external_type_specification]
#[verifier::external_body]
pub struct ExStyle(Style);

/// `ratatui::text::Span`: a string and the style it is drawn in.
#[verifier::external_type_specification]
#[verifier::external_body]
pub struct ExSpan<'a>(Span<'a>);

/// `ratatui::text::Line`: the spans of one row.
#[verifier::external_type_specification]
#[verifier::external_body]
pub struct ExLine<'a>(Line<'a>);

/// `ratatui::text::Text`: the lines of a document.
#[verifier::external_type_specification]
#[verifier::external_body]
pub struct ExText<'a>(Text<'a>);

/// Whether a style is the empty one, `Style::default()`, which sets no colour
/// and no modifier.
pub uninterp spec fn style_is_plain(style: Style) -> bool;

/// The characters that a span shows: its field `content`.
pub uninterp spec fn span_content(span: Span) -> Seq<char>;

/// The style that a span carries: its field `style`.
pub uninterp spec fn span_style(span: Span) -> Style;

/// The spans that a line holds, first to last: its field `spans`.
pub uninterp spec fn line_spans(line: Line) -> Seq<Span>;

/// The lines that a text holds, first to last: its field `lines`.
pub uninterp spec fn text_lines(text: Text) -> Seq<Line>;

/// `Span::raw` on an owned string. Trusted: the span shows the string and its
/// style is the empty one.
#[verifier::external_body]
pub(crate) fn raw_span<'a>(content: String) -> (span: Span<'a>)
    ensures
        span_content(span) == content@,
        style_is_plain(span_style(span)),
{
    Span::raw(content)
}

/// `Span::style`. Trusted: the style is replaced by the one given, the content
/// is kept.
#[verifier::external_body]
pub(crate) fn with_style<'a>(span: Span<'a>, style: Style) -> (styled: Span<'a>)
    ensures
        span_content(styled) == span_content(span),
        span_style(styled) == style,
{
    span.style(style)
}

/// `Line::default`. Trusted: the line holds no span.
#[verifier::external_body]
pub(crate) fn new_line<'a>() -> (line: Line<'a>)
    ensures
        line_spans(line) == Seq::<Span>::empty(),
{
    Line::default()
}

/// `Line::push_span`. Trusted: the span is appended behind the spans that the
/// line held.
#[verifier::external_body]
pub(crate) fn push_span<'a>(line: &mut Line<'a>, span: Span<'a>)
    ensures
        line_spans(*final(line)) == line_spans(*old(line)).push(span),
{
    line.push_span(span)
}

/// `Text::default`. Trusted: the text holds no line.
#[verifier::external_body]
pub(crate) fn new_text<'a>() -> (text: Text<'a>)
    ensures
        text_lines(text) == Seq::<Line>::empty(),
{
    Text::default()
}

/// `Text::push_line`. Trusted: the line is appended behind the lines that the
/// text held.
#[verifier::external_body]
pub(crate) fn push_line<'a>(text: &mut Text<'a>, line: Line<'a>)
    ensures
        text_lines(*final(text)) == text_lines(*old(text)).push(line),
{
    text.push_line(line)
}

/// A run of characters and the style it is drawn in. `None` stands for a
/// plain fragment, one without a style of its own.
pub struct Fragment {
    pub content: Seq<char>,
    pub style: Option<Style>,
}

/// What drawing in `style` amounts to: nothing for the empty style, the style
/// itself otherwise.
pub open spec fn paint(style: Style) -> Option<Style> {
    if style_is_plain(style) {
        None
    } else {
        Some(style)
    }
}

/// The fragment that a span stands for.
pub open spec fn fragment_of(span: Span) -> Fragment {
    Fragment { content: span_content(span), style: paint(span_style(span)) }
}

/// The fragments of a line, first to last.
pub open spec fn line_view(line: Line) -> Seq<Fragment> {
    line_spans(line).map_values(|span: Span| fragment_of(span))
}

/// The lines of a text, each by its fragments.
pub open spec fn text_view(text: Text) -> Seq<Seq<Fragment>> {
    text_lines(text).map_values(|line: Line| line_view(line))
}

/// The characters of all fragments, one fragment after the other.
pub open spec fn line_content(fragments: Seq<Fragment>) -> Seq<char> {
    fragments.map_values(|f: Fragment| f.content).flatten()
}

/// The characters of every line of a text.
pub open spec fn text_content(lines: Seq<Seq<Fragment>>) -> Seq<Seq<char>> {
    lines.map_values(|fragments: Seq<Fragment>| line_content(fragments))
}

/// Appends a plain fragment that shows `content`.
pub fn push_plain<'a>(line: &mut Line<'a>, content: String)
    ensures
        line_view(*final(line)) == line_view(*old(line)).push(
            Fragment { content: content@, style: None },
        ),
{
    push_span(line, raw_span(content));
    assert(line_view(*line) =~= line_view(*old(line)).push(
        Fragment { content: content@, style: None },
    ));
}

/// Appends a fragment that shows `content` in `style`.
pub fn push_styled<'a>(line: &mut Line<'a>, content: String, style: Style)
    ensures
        line_view(*final(line)) == line_view(*old(line)).push(
            Fragment { content: content@, style: paint(style) },
        ),
{
    push_span(line, with_style(raw_span(content), style));
    assert(line_view(*line) =~= line_view(*old(line)).push(
        Fragment { content: content@, style: paint(style) },
    ));
}

} // verus!
