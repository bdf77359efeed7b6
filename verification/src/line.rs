//! Highlighting one line.

use crate::fragments::{
    line_content, line_view, new_line, paint, push_plain, push_styled, Fragment,
};
use crate::matcher::{find_spans, is_valid_pattern, match_spans, pattern_compiles};
use crate::slicing::{byte_len, lemma_slice_len, lemma_slice_whole, slice_chars, substring};
use crate::spans::{
    gap, lemma_pieces_joined, lemma_pieces_matched, lemma_pieces_tile, lemma_reach,
    matched_spans, pieces, reach, span_fits, span_offsets, span_pieces, spans_fit, tiles, Piece,
};
use ratatui::style::Style;
use ratatui::text::Line;
use vstd::prelude::*;
use vstd::utf8::*;

verus! {

/// The fragment that a piece of `line` is shown as: its characters, drawn in
/// `style` where a match covers the piece and plain otherwise.
pub open spec fn render(line: Seq<char>, piece: Piece, style: Style) -> Fragment {
    Fragment {
        content: slice_chars(line, piece.start, piece.end),
        style: if piece.matched {
            paint(style)
        } else {
            None
        },
    }
}

/// [`render`] for a fixed line and style.
pub open spec fn render_with(line: Seq<char>, style: Style) -> spec_fn(Piece) -> Fragment {
    |piece: Piece| render(line, piece, style)
}

/// The fragments of `line` when `spans` are its matches: one fragment for each
/// piece that the spans cut the line into.
pub open spec fn fragments(line: Seq<char>, spans: Seq<(usize, usize)>, style: Style) -> Seq<
    Fragment,
> {
    pieces(encode_utf8(line).len() as int, spans).map_values(render_with(line, style))
}

/// The fragments of `line` when the matches of `pattern` are highlighted.
pub open spec fn highlighted_line(line: Seq<char>, pattern: Seq<char>, style: Style) -> Seq<
    Fragment,
> {
    fragments(line, match_spans(pattern, line), style)
}

/// A line without a match: one plain fragment that holds it whole, or no
/// fragment where the line is empty.
pub open spec fn plain_line(line: Seq<char>) -> Seq<Fragment> {
    if line.len() == 0 {
        Seq::empty()
    } else {
        seq![Fragment { content: line, style: None }]
    }
}

/// The fragments of a line, joined in order, give the line back.
pub proof fn lemma_fragments_rebuild(line: Seq<char>, spans: Seq<(usize, usize)>, style: Style)
    requires
        spans_fit(line, spans),
    ensures
        line_content(fragments(line, spans, style)) == line,
{
    let parts = pieces(encode_utf8(line).len() as int, spans);
    lemma_pieces_joined(line, spans);
    assert(fragments(line, spans, style).map_values(|f: Fragment| f.content) =~= parts.map_values(
        |p: Piece| slice_chars(line, p.start, p.end),
    ));
}

/// Without a match the line comes back as one plain fragment, or as no
/// fragment at all where it is empty.
pub proof fn lemma_fragments_without_match(line: Seq<char>, style: Style)
    ensures
        fragments(line, Seq::empty(), style) == plain_line(line),
{
    let len = encode_utf8(line).len() as int;
    encode_utf8_valid_utf8(line);
    is_char_boundary_start_end_of_seq(encode_utf8(line));
    lemma_slice_whole(line);
    lemma_slice_len(line, 0, len);
    assert(pieces(len, Seq::empty()) =~= gap(0, len));
    assert(fragments(line, Seq::empty(), style) =~= plain_line(line));
}

/// No fragment boundary splits a match, and no fragment merges two: the
/// fragments of a line stand one for one for pieces that cover the line end
/// to end, and the pieces that a match covers are the spans themselves, one
/// piece for each span and in the same order.
pub proof fn lemma_fragments_keep_matches(
    line: Seq<char>,
    spans: Seq<(usize, usize)>,
    style: Style,
)
    requires
        spans_fit(line, spans),
    ensures
        ({
            let len = encode_utf8(line).len() as int;
            let parts = pieces(len, spans);
            &&& fragments(line, spans, style).len() == parts.len()
            &&& forall|k: int|
                0 <= k < parts.len() ==> #[trigger] fragments(line, spans, style)[k] == render(
                    line,
                    parts[k],
                    style,
                )
            &&& tiles(line, parts, 0, len)
            &&& matched_spans(parts) == span_offsets(spans)
        }),
{
    let len = encode_utf8(line).len() as int;
    lemma_pieces_tile(line, spans);
    lemma_pieces_matched(len, spans);
}

/// Highlighting is a function of its inputs: two lines built from the same
/// line, pattern and style show the same fragments.
pub proof fn lemma_highlight_line_repeats(
    first: Line,
    second: Line,
    line: Seq<char>,
    pattern: Seq<char>,
    style: Style,
)
    requires
        line_view(first) == highlighted_line(line, pattern, style),
        line_view(second) == highlighted_line(line, pattern, style),
    ensures
        line_view(first) == line_view(second),
{
}

/// Cuts `line` at `spans` and builds the line of fragments: every span
/// becomes a fragment in `highlight_style`, every gap between spans, before
/// the first and behind the last becomes a plain fragment, and an empty gap
/// becomes nothing.
pub fn assemble_line<'a>(line: &str, spans: &Vec<(usize, usize)>, highlight_style: Style) -> (out:
    Line<'a>)
    requires
        spans_fit(line@, spans@),
    ensures
        line_view(out) == fragments(line@, spans@, highlight_style),
        line_content(line_view(out)) == line@,
        spans@.len() == 0 ==> line_view(out) == plain_line(line@),
{
    let mut out = new_line();
    let mut cursor: usize = 0;
    let mut i: usize = 0;
    assert(spans@.take(0) =~= Seq::empty());
    assert(line_view(out) =~= span_pieces(spans@.take(0)).map_values(
        render_with(line@, highlight_style),
    ));
    while i < spans.len()
        invariant
            i <= spans.len(),
            spans_fit(line@, spans@),
            cursor == reach(spans@.take(i as int)),
            line_view(out) == span_pieces(spans@.take(i as int)).map_values(
                render_with(line@, highlight_style),
            ),
        decreases spans.len() - i,
    {
        let (start, end) = spans[i];
        proof {
            let done = spans@.take(i as int);
            let next = spans@.take(i + 1);
            assert(next.drop_last() =~= done);
            assert(next.last() == spans@[i as int]);
            lemma_prefix_fits(line@, spans@, i + 1);
            lemma_reach(line@, next);
            lemma_reach(line@, done);
            assert(span_fits(line@, spans@[i as int]));
        }
        let ghost before = line_view(out);
        if start > cursor {
            push_plain(&mut out, substring(line, cursor, start));
        }
        push_styled(&mut out, substring(line, start, end), highlight_style);
        proof {
            let done = spans@.take(i as int);
            let next = spans@.take(i + 1);
            let show = render_with(line@, highlight_style);
            let hit = Piece { start: start as int, end: end as int, matched: true };
            assert(span_pieces(next) == span_pieces(done) + gap(cursor as int, start as int)
                + seq![hit]);
            assert(line_view(out) =~= before + gap(cursor as int, start as int).map_values(show)
                + seq![show(hit)]);
            assert(line_view(out) =~= span_pieces(next).map_values(show));
        }
        cursor = end;
        i += 1;
    }
    proof {
        assert(spans@.take(i as int) =~= spans@);
        lemma_reach(line@, spans@);
    }
    let ghost before = line_view(out);
    let end = byte_len(line);
    if end > cursor {
        push_plain(&mut out, substring(line, cursor, end));
    }
    proof {
        let show = render_with(line@, highlight_style);
        let len = encode_utf8(line@).len() as int;
        assert(line_view(out) =~= before + gap(cursor as int, len).map_values(show));
        assert(line_view(out) =~= fragments(line@, spans@, highlight_style));
        lemma_fragments_rebuild(line@, spans@, highlight_style);
        if spans@.len() == 0 {
            assert(spans@ =~= Seq::empty());
            lemma_fragments_without_match(line@, highlight_style);
        }
    }
    out
}

/// Every prefix of fitting spans fits.
proof fn lemma_prefix_fits(text: Seq<char>, spans: Seq<(usize, usize)>, n: int)
    requires
        spans_fit(text, spans),
        0 <= n <= spans.len(),
    ensures
        spans_fit(text, spans.take(n)),
{
    let head = spans.take(n);
    assert forall|i: int| 0 <= i < head.len() implies span_fits(text, #[trigger] head[i]) by {
        assert(head[i] == spans[i]);
    }
    assert forall|i: int, j: int| 0 <= i < j < head.len() implies (#[trigger] head[i]).1 <= (
    #[trigger] head[j]).0 by {
        assert(head[i] == spans[i] && head[j] == spans[j]);
    }
}

/// Builds a line from `line` in which every match of `pattern` carries
/// `highlight_style` and everything else is plain.
///
/// The pattern must compile; [`try_highlight_line`] takes any pattern.
pub fn highlight_line<'a>(line: String, pattern: &str, highlight_style: Style) -> (out: Line<'a>)
    requires
        pattern_compiles(pattern@),
    ensures
        line_view(out) == highlighted_line(line@, pattern@, highlight_style),
        line_content(line_view(out)) == line@,
        match_spans(pattern@, line@).len() == 0 ==> line_view(out) == plain_line(line@),
{
    let spans = find_spans(pattern, line.as_str());
    assemble_line(line.as_str(), &spans, highlight_style)
}

/// Like [`highlight_line`], for a pattern that may fail to compile: then the
/// result is `None` and nothing is highlighted.
pub fn try_highlight_line<'a>(line: String, pattern: &str, highlight_style: Style) -> (out: Option<
    Line<'a>,
>)
    ensures
        out is Some <==> pattern_compiles(pattern@),
        out matches Some(shown) ==> {
            &&& line_view(shown) == highlighted_line(line@, pattern@, highlight_style)
            &&& line_content(line_view(shown)) == line@
            &&& match_spans(pattern@, line@).len() == 0 ==> line_view(shown) == plain_line(line@)
        },
{
    if is_valid_pattern(pattern) {
        Some(highlight_line(line, pattern, highlight_style))
    } else {
        None
    }
}

} // verus!
