//! Highlighting a text of several lines.

use crate::fragments::{
    line_view, new_text, push_line, text_content, text_view, Fragment,
};
use crate::line::{highlight_line, highlighted_line};
use crate::matcher::{is_valid_pattern, pattern_compiles};
use crate::slicing::{lemma_newline_byte, lemma_newline_shows};
use ratatui::style::Style;
use ratatui::text::Text;
use vstd::prelude::*;
use vstd::seq_lib::lemma_multiset_commutative;
use vstd::string::StringSliceAdditionalSpecFns;
use vstd::utf8::*;

verus! {

/// The lines of a text: what stands before each newline, and what stands
/// behind the last one unless that is empty. An empty text has no line.
pub open spec fn split_lines(text: Seq<char>) -> Seq<Seq<char>>
    decreases text.len(),
    via split_lines_terminates
{
    if text.len() == 0 {
        Seq::empty()
    } else {
        match text.index_of_first('\n') {
            Some(at) => seq![text.take(at)] + split_lines(text.skip(at + 1)),
            None => seq![text],
        }
    }
}

#[via_fn]
proof fn split_lines_terminates(text: Seq<char>) {
    text.index_of_first_ensures('\n');
}

/// The number of newlines in a text.
pub open spec fn newline_count(text: Seq<char>) -> nat {
    text.to_multiset().count('\n')
}

/// The number of lines in a text: one for each newline, and one more where
/// characters follow the last newline.
pub open spec fn line_count(text: Seq<char>) -> nat {
    if text.len() > 0 && text.last() != '\n' {
        newline_count(text) + 1
    } else {
        newline_count(text)
    }
}

/// Where the characters before `at` hold no newline and the one at `at` is
/// one, `at` is where the first newline stands.
pub proof fn lemma_first_newline(text: Seq<char>, at: int)
    requires
        0 <= at < text.len(),
        text[at] == '\n',
        !text.take(at).contains('\n'),
    ensures
        text.index_of_first('\n') == Some(at),
{
    text.index_of_first_ensures('\n');
    let found = text.index_of_first('\n')->0;
    if found < at {
        assert(text.take(at)[found] == '\n');
    }
}

/// A text has as many lines as [`line_count`] says.
pub proof fn lemma_line_count(text: Seq<char>)
    ensures
        split_lines(text).len() == line_count(text),
    decreases text.len(),
{
    text.to_multiset_ensures();
    text.index_of_first_ensures('\n');
    if text.len() > 0 {
        match text.index_of_first('\n') {
            Some(at) => {
                let head = text.take(at);
                let tail = text.skip(at + 1);
                lemma_line_count(tail);
                head.to_multiset_ensures();
                if head.contains('\n') {
                    let i = choose|i: int| 0 <= i < head.len() && head[i] == '\n';
                    assert(text[i] == '\n');
                }
                assert(text =~= head.push('\n') + tail);
                lemma_multiset_commutative(head.push('\n'), tail);
                if tail.len() > 0 {
                    assert(text.last() == tail.last());
                }
            },
            None => {},
        }
    }
}

/// Cuts `text` at its first newline into the line before it and the rest
/// behind it. `None` where the text holds no newline.
pub fn split_first_line<'t>(text: &'t str) -> (cut: Option<(&'t str, &'t str)>)
    ensures
        match cut {
            Some((line, rest)) => {
                &&& text@.index_of_first('\n') matches Some(at)
                &&& line@ == text@.take(at)
                &&& rest@ == text@.skip(at + 1)
            },
            None => text@.index_of_first('\n') is None,
        },
{
    let bytes = text.as_bytes();
    let mut i: usize = 0;
    while i < bytes.len()
        invariant
            i <= bytes@.len(),
            bytes@ == encode_utf8(text@),
            forall|j: int| 0 <= j < i ==> bytes@[j] != 10u8,
        decreases bytes.len() - i,
    {
        if bytes[i] == 10u8 {
            proof {
                encode_utf8_valid_utf8(text@);
                is_char_boundary_iff_not_is_continuation_byte(bytes@, i as int);
            }
            let (line, tail) = text.split_at(i);
            proof {
                encode_utf8_valid_utf8(tail@);
                assert(tail.spec_bytes()[0] == 10u8);
                reveal_with_fuel(is_char_boundary, 2);
            }
            let (_, rest) = tail.split_at(1);
            proof {
                let all = bytes@;
                let behind = tail.spec_bytes();
                lemma_newline_byte();
                encode_utf8_decode_utf8(text@);
                encode_utf8_decode_utf8(line@);
                encode_utf8_decode_utf8(tail@);
                encode_utf8_decode_utf8(rest@);
                decode_utf8_split(all, i as int);
                decode_utf8_split(behind, 1);
                assert(behind.subrange(0, 1) =~= seq![10u8]);
                assert(text@ =~= line@ + seq!['\n'] + rest@);
                if line@.contains('\n') {
                    lemma_newline_shows(line@);
                    let j = choose|j: int|
                        0 <= j < encode_utf8(line@).len() && encode_utf8(line@)[j] == 10u8;
                    assert(all[j] == 10u8);
                }
                let at = line@.len() as int;
                assert(text@.take(at) =~= line@);
                assert(text@.skip(at + 1) =~= rest@);
                lemma_first_newline(text@, at);
            }
            return Some((line, rest));
        }
        i += 1;
    }
    proof {
        text@.index_of_first_ensures('\n');
        if text@.contains('\n') {
            lemma_newline_shows(text@);
        }
    }
    None
}

/// [`highlighted_line`] for a fixed pattern and style.
pub open spec fn shown_with(pattern: Seq<char>, style: Style) -> spec_fn(Seq<char>) -> Seq<
    Fragment,
> {
    |line: Seq<char>| highlighted_line(line, pattern, style)
}

/// The lines of `text`, each with the matches of `pattern` highlighted.
pub open spec fn highlighted_text(text: Seq<char>, pattern: Seq<char>, style: Style) -> Seq<
    Seq<Fragment>,
> {
    split_lines(text).map_values(shown_with(pattern, style))
}

/// Highlighting is a function of its inputs: two texts built from the same
/// text, pattern and style show the same lines of fragments.
pub proof fn lemma_highlight_text_repeats(
    first: Text,
    second: Text,
    text: Seq<char>,
    pattern: Seq<char>,
    style: Style,
)
    requires
        text_view(first) == highlighted_text(text, pattern, style),
        text_view(second) == highlighted_text(text, pattern, style),
    ensures
        text_view(first) == text_view(second),
{
}

/// Builds a text from `text`, one line for each of its lines, in which every
/// match of `pattern` carries `highlight_style` and everything else is plain.
/// Matches are sought within each line, never across a newline.
///
/// The pattern must compile; [`try_highlight_text`] takes any pattern.
pub fn highlight_text<'a>(text: String, pattern: &str, highlight_style: Style) -> (out: Text<'a>)
    requires
        pattern_compiles(pattern@),
    ensures
        text_view(out) == highlighted_text(text@, pattern@, highlight_style),
        text_content(text_view(out)) == split_lines(text@),
        text_view(out).len() == line_count(text@),
{
    let mut out = new_text();
    let mut rest: &str = text.as_str();
    let ghost mut done: Seq<Seq<char>> = Seq::empty();
    let ghost show = shown_with(pattern@, highlight_style);
    assert(text_view(out) =~= done.map_values(show));
    assert(text_content(text_view(out)) =~= done);
    loop
        invariant
            pattern_compiles(pattern@),
            show == shown_with(pattern@, highlight_style),
            split_lines(text@) == done + split_lines(rest@),
            text_view(out) == done.map_values(show),
            text_content(text_view(out)) == done,
        ensures
            rest@.index_of_first('\n') is None,
        decreases rest@.len(),
    {
        match split_first_line(rest) {
            Some((line, tail)) => {
                proof {
                    rest@.index_of_first_ensures('\n');
                }
                let ghost before = text_view(out);
                let shown = highlight_line(line.to_owned(), pattern, highlight_style);
                push_line(&mut out, shown);
                proof {
                    assert(text_view(out) =~= before.push(line_view(shown)));
                    assert(done + split_lines(rest@) =~= done.push(line@) + split_lines(tail@));
                    done = done.push(line@);
                    assert(text_view(out) =~= done.map_values(show));
                    assert(text_content(text_view(out)) =~= done);
                }
                rest = tail;
            },
            None => {
                break ;
            },
        }
    }
    let ghost before = text_view(out);
    if !rest.is_empty() {
        let shown = highlight_line(rest.to_owned(), pattern, highlight_style);
        push_line(&mut out, shown);
        proof {
            assert(text_view(out) =~= before.push(line_view(shown)));
            assert(text_view(out) =~= (done + seq![rest@]).map_values(show));
            assert(text_content(text_view(out)) =~= done + seq![rest@]);
        }
    } else {
        assert(done + Seq::<Seq<char>>::empty() =~= done);
    }
    proof {
        lemma_line_count(text@);
    }
    out
}

/// Like [`highlight_text`], for a pattern that may fail to compile: then the
/// result is `None` and nothing is highlighted, whatever the text.
pub fn try_highlight_text<'a>(text: String, pattern: &str, highlight_style: Style) -> (out: Option<
    Text<'a>,
>)
    ensures
        out is Some <==> pattern_compiles(pattern@),
        out matches Some(shown) ==> {
            &&& text_view(shown) == highlighted_text(text@, pattern@, highlight_style)
            &&& text_content(text_view(shown)) == split_lines(text@)
            &&& text_view(shown).len() == line_count(text@)
        },
{
    if is_valid_pattern(pattern) {
        Some(highlight_text(text, pattern, highlight_style))
    } else {
        None
    }
}

} // verus!
