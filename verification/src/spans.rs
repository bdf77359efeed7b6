//! Match spans and the partition of a line that they induce.
//!
//! A span is a pair of byte offsets, start and end, the end exclusive. The
//! spans of one line come ordered and do not overlap. Together with the gaps
//! between them they cut the line into pieces that cover it exactly once.

use crate::slicing::{
    lemma_boundary_in_range, lemma_slice_join, lemma_slice_len, lemma_slice_whole, on_boundary,
    slice_chars,
};
use vstd::prelude::*;
use vstd::seq_lib::lemma_flatten_concat;
use vstd::utf8::*;

verus! {

/// One span lies on character boundaries of `text`, its start not behind its end.
pub open spec fn span_fits(text: Seq<char>, span: (usize, usize)) -> bool {
    &&& span.0 <= span.1
    &&& on_boundary(text, span.0 as int)
    &&& on_boundary(text, span.1 as int)
}

/// Every span fits `text`, and each one ends before the next one starts.
pub open spec fn spans_fit(text: Seq<char>, spans: Seq<(usize, usize)>) -> bool {
    &&& forall|i: int| 0 <= i < spans.len() ==> span_fits(text, #[trigger] spans[i])
    &&& forall|i: int, j: int|
        0 <= i < j < spans.len() ==> (#[trigger] spans[i]).1 <= (#[trigger] spans[j]).0
}

/// A stretch of a line: bytes `start..end`, and whether a match covers it.
pub struct Piece {
    pub start: int,
    pub end: int,
    pub matched: bool,
}

/// The offset behind the last span, 0 where there is none.
pub open spec fn reach(spans: Seq<(usize, usize)>) -> int {
    if spans.len() == 0 {
        0
    } else {
        spans.last().1 as int
    }
}

/// The gap between offsets `from` and `to`: one unmatched piece, or nothing
/// where the two coincide.
pub open spec fn gap(from: int, to: int) -> Seq<Piece> {
    if from < to {
        seq![Piece { start: from, end: to, matched: false }]
    } else {
        Seq::empty()
    }
}

/// The pieces up to the end of the last span: each span as a matched piece,
/// with the gap before it where there is one.
pub open spec fn span_pieces(spans: Seq<(usize, usize)>) -> Seq<Piece>
    decreases spans.len(),
{
    if spans.len() == 0 {
        Seq::empty()
    } else {
        let before = spans.drop_last();
        let last = spans.last();
        span_pieces(before) + gap(reach(before), last.0 as int) + seq![
            Piece { start: last.0 as int, end: last.1 as int, matched: true },
        ]
    }
}

/// The pieces of a line of `len` bytes: those of the spans, then the rest of
/// the line where the spans leave one.
pub open spec fn pieces(len: int, spans: Seq<(usize, usize)>) -> Seq<Piece> {
    span_pieces(spans) + gap(reach(spans), len)
}

/// Picks the pieces that a match covers.
pub open spec fn is_matched() -> spec_fn(Piece) -> bool {
    |p: Piece| p.matched
}

/// The offsets of a piece.
pub open spec fn offsets() -> spec_fn(Piece) -> (int, int) {
    |p: Piece| (p.start, p.end)
}

/// The matched pieces among `parts`, in order, each by its offsets.
pub open spec fn matched_spans(parts: Seq<Piece>) -> Seq<(int, int)> {
    parts.filter(is_matched()).map_values(offsets())
}

/// The spans by their offsets as integers.
pub open spec fn span_offsets(spans: Seq<(usize, usize)>) -> Seq<(int, int)> {
    spans.map_values(|s: (usize, usize)| (s.0 as int, s.1 as int))
}

/// The pieces lie end to end on character boundaries of `text`, from offset
/// `from` to offset `to`, and no unmatched piece is empty.
pub open spec fn tiles(text: Seq<char>, parts: Seq<Piece>, from: int, to: int) -> bool {
    &&& forall|k: int|
        0 <= k < parts.len() ==> {
            &&& (#[trigger] parts[k]).start <= parts[k].end
            &&& on_boundary(text, parts[k].start)
            &&& on_boundary(text, parts[k].end)
            &&& !parts[k].matched ==> parts[k].start < parts[k].end
        }
    &&& forall|k: int| 0 <= k < parts.len() - 1 ==> (#[trigger] parts[k]).end == parts[k + 1].start
    &&& if parts.len() == 0 {
        from == to
    } else {
        parts.first().start == from && parts.last().end == to
    }
}

/// The characters of all pieces, one piece after the other.
pub open spec fn joined(text: Seq<char>, parts: Seq<Piece>) -> Seq<char> {
    parts.map_values(|p: Piece| slice_chars(text, p.start, p.end)).flatten()
}

/// The spans end within the text, on a boundary.
pub proof fn lemma_reach(text: Seq<char>, spans: Seq<(usize, usize)>)
    requires
        spans_fit(text, spans),
    ensures
        0 <= reach(spans) <= encode_utf8(text).len(),
        on_boundary(text, reach(spans)),
        spans.len() > 0 ==> reach(spans.drop_last()) <= spans.last().0 <= reach(spans),
        spans.len() > 0 ==> spans_fit(text, spans.drop_last()),
{
    encode_utf8_valid_utf8(text);
    if spans.len() > 0 {
        let n = spans.len() - 1;
        assert(span_fits(text, spans[n]));
        lemma_boundary_in_range(encode_utf8(text), reach(spans));
        let before = spans.drop_last();
        if before.len() > 0 {
            assert(before.last() == spans[n - 1]);
            assert(spans[n - 1].1 <= spans[n].0);
        }
        assert forall|i: int| 0 <= i < before.len() implies span_fits(
            text,
            #[trigger] before[i],
        ) by {
            assert(before[i] == spans[i]);
        }
        assert forall|i: int, j: int| 0 <= i < j < before.len() implies (#[trigger] before[i]).1
            <= (#[trigger] before[j]).0 by {
            assert(before[i] == spans[i] && before[j] == spans[j]);
        }
    }
}

/// The pieces of the spans cover the line from its start to the end of the
/// last span.
pub proof fn lemma_span_pieces_tile(text: Seq<char>, spans: Seq<(usize, usize)>)
    requires
        spans_fit(text, spans),
    ensures
        tiles(text, span_pieces(spans), 0, reach(spans)),
    decreases spans.len(),
{
    encode_utf8_valid_utf8(text);
    if spans.len() > 0 {
        let before = spans.drop_last();
        let last = spans.last();
        lemma_reach(text, spans);
        lemma_reach(text, before);
        lemma_span_pieces_tile(text, before);
        let head = span_pieces(before);
        let parts = span_pieces(spans);
        let between = gap(reach(before), last.0 as int);
        assert(span_fits(text, last));
        assert(parts == head + between + seq![
            Piece { start: last.0 as int, end: last.1 as int, matched: true },
        ]);
        assert forall|k: int| 0 <= k < parts.len() implies {
            &&& (#[trigger] parts[k]).start <= parts[k].end
            &&& on_boundary(text, parts[k].start)
            &&& on_boundary(text, parts[k].end)
            &&& !parts[k].matched ==> parts[k].start < parts[k].end
        } by {
            if k < head.len() {
                assert(parts[k] == head[k]);
            }
        }
        assert forall|k: int| 0 <= k < parts.len() - 1 implies (#[trigger] parts[k]).end
            == parts[k + 1].start by {
            if k + 1 < head.len() {
                assert(parts[k] == head[k] && parts[k + 1] == head[k + 1]);
            } else if k < head.len() {
                assert(parts[k] == head.last());
            }
        }
        if head.len() > 0 {
            assert(parts.first() == head.first());
        }
    }
}

/// The pieces of a line cover it exactly once: they lie end to end from the
/// first byte to the last, and no gap among them is empty.
pub proof fn lemma_pieces_tile(text: Seq<char>, spans: Seq<(usize, usize)>)
    requires
        spans_fit(text, spans),
    ensures
        tiles(text, pieces(encode_utf8(text).len() as int, spans), 0, encode_utf8(text).len() as int),
{
    let len = encode_utf8(text).len() as int;
    let head = span_pieces(spans);
    let parts = pieces(len, spans);
    encode_utf8_valid_utf8(text);
    is_char_boundary_start_end_of_seq(encode_utf8(text));
    lemma_reach(text, spans);
    lemma_span_pieces_tile(text, spans);
    assert forall|k: int| 0 <= k < parts.len() implies {
        &&& (#[trigger] parts[k]).start <= parts[k].end
        &&& on_boundary(text, parts[k].start)
        &&& on_boundary(text, parts[k].end)
        &&& !parts[k].matched ==> parts[k].start < parts[k].end
    } by {
        if k < head.len() {
            assert(parts[k] == head[k]);
        }
    }
    assert forall|k: int| 0 <= k < parts.len() - 1 implies (#[trigger] parts[k]).end == parts[k
        + 1].start by {
        if k + 1 < head.len() {
            assert(parts[k] == head[k] && parts[k + 1] == head[k + 1]);
        } else {
            assert(parts[k] == head.last());
        }
    }
    if head.len() > 0 {
        assert(parts.first() == head.first());
    }
}

/// A gap holds no matched piece.
proof fn lemma_gap_unmatched(from: int, to: int)
    ensures
        gap(from, to).filter(is_matched()) == Seq::<Piece>::empty(),
{
    reveal_with_fuel(Seq::filter, 2);
    if from < to {
        assert(gap(from, to).drop_last() =~= Seq::<Piece>::empty());
    }
}

/// The matched pieces of the spans are the spans themselves, one piece for
/// each span and in the same order.
pub proof fn lemma_span_pieces_matched(spans: Seq<(usize, usize)>)
    ensures
        matched_spans(span_pieces(spans)) == span_offsets(spans),
    decreases spans.len(),
{
    reveal_with_fuel(Seq::filter, 2);
    if spans.len() == 0 {
        assert(matched_spans(span_pieces(spans)) =~= span_offsets(spans));
    } else {
        let before = spans.drop_last();
        let last = spans.last();
        let head = span_pieces(before);
        let between = gap(reach(before), last.0 as int);
        let hit = seq![Piece { start: last.0 as int, end: last.1 as int, matched: true }];
        lemma_span_pieces_matched(before);
        lemma_gap_unmatched(reach(before), last.0 as int);
        Seq::filter_distributes_over_add(head, between, is_matched());
        Seq::filter_distributes_over_add(head + between, hit, is_matched());
        assert(hit.drop_last() =~= Seq::<Piece>::empty());
        assert(hit.filter(is_matched()) =~= hit);
        let kept = head.filter(is_matched());
        assert(span_pieces(spans).filter(is_matched()) =~= kept + hit);
        assert((kept + hit).map_values(offsets()) =~= kept.map_values(offsets()).push(
            (last.0 as int, last.1 as int),
        ));
        assert(spans =~= before.push(last));
        assert(span_offsets(spans) =~= span_offsets(before).push((last.0 as int, last.1 as int)));
    }
}

/// No match is split and no two matches are merged: the matched pieces of a
/// line are its spans, one piece for each span and in the same order.
pub proof fn lemma_pieces_matched(len: int, spans: Seq<(usize, usize)>)
    ensures
        matched_spans(pieces(len, spans)) == span_offsets(spans),
{
    lemma_span_pieces_matched(spans);
    lemma_gap_unmatched(reach(spans), len);
    Seq::filter_distributes_over_add(span_pieces(spans), gap(reach(spans), len), is_matched());
    assert(matched_spans(pieces(len, spans)) =~= span_offsets(spans));
}

/// Joining goes piecewise over a concatenation.
proof fn lemma_joined_concat(text: Seq<char>, left: Seq<Piece>, right: Seq<Piece>)
    ensures
        joined(text, left + right) == joined(text, left) + joined(text, right),
{
    let content = |p: Piece| slice_chars(text, p.start, p.end);
    assert((left + right).map_values(content) =~= left.map_values(content) + right.map_values(
        content,
    ));
    lemma_flatten_concat(left.map_values(content), right.map_values(content));
}

/// One piece joins to its own slice.
proof fn lemma_joined_one(text: Seq<char>, piece: Piece)
    ensures
        joined(text, seq![piece]) == slice_chars(text, piece.start, piece.end),
{
    let content = |p: Piece| slice_chars(text, p.start, p.end);
    let one = seq![piece].map_values(content);
    assert(one.len() == 1);
    one.lemma_flatten_singleton();
}

/// A gap joins to the slice between its two offsets.
proof fn lemma_joined_gap(text: Seq<char>, from: int, to: int)
    requires
        on_boundary(text, from),
        on_boundary(text, to),
        from <= to,
    ensures
        joined(text, gap(from, to)) == slice_chars(text, from, to),
{
    if from < to {
        lemma_joined_one(text, Piece { start: from, end: to, matched: false });
    } else {
        lemma_slice_len(text, from, to);
        assert(joined(text, gap(from, to)) =~= slice_chars(text, from, to));
    }
}

/// The pieces of the spans hold the line up to the end of the last span.
pub proof fn lemma_span_pieces_joined(text: Seq<char>, spans: Seq<(usize, usize)>)
    requires
        spans_fit(text, spans),
    ensures
        joined(text, span_pieces(spans)) == slice_chars(text, 0, reach(spans)),
    decreases spans.len(),
{
    encode_utf8_valid_utf8(text);
    if spans.len() == 0 {
        lemma_slice_len(text, 0, 0);
        assert(joined(text, span_pieces(spans)) =~= slice_chars(text, 0, 0));
    } else {
        let before = spans.drop_last();
        let last = spans.last();
        let head = span_pieces(before);
        let between = gap(reach(before), last.0 as int);
        let hit = Piece { start: last.0 as int, end: last.1 as int, matched: true };
        lemma_reach(text, spans);
        lemma_reach(text, before);
        assert(span_fits(text, last));
        lemma_span_pieces_joined(text, before);
        lemma_joined_gap(text, reach(before), last.0 as int);
        lemma_joined_one(text, hit);
        lemma_joined_concat(text, head, between);
        lemma_joined_concat(text, head + between, seq![hit]);
        lemma_slice_join(text, 0, reach(before), last.0 as int);
        lemma_slice_join(text, 0, last.0 as int, last.1 as int);
    }
}

/// The pieces of a line, joined in order, give the line back: no character is
/// lost, added or moved.
pub proof fn lemma_pieces_joined(text: Seq<char>, spans: Seq<(usize, usize)>)
    requires
        spans_fit(text, spans),
    ensures
        joined(text, pieces(encode_utf8(text).len() as int, spans)) == text,
{
    let len = encode_utf8(text).len() as int;
    encode_utf8_valid_utf8(text);
    is_char_boundary_start_end_of_seq(encode_utf8(text));
    lemma_reach(text, spans);
    lemma_span_pieces_joined(text, spans);
    lemma_joined_gap(text, reach(spans), len);
    lemma_joined_concat(text, span_pieces(spans), gap(reach(spans), len));
    lemma_slice_join(text, 0, reach(spans), len);
    lemma_slice_whole(text);
}

} // verus!
