//! Cutting a string at byte offsets.
//!
//! Match offsets count bytes of the UTF-8 form of a string, while the view of
//! a string is its sequence of characters. The functions here relate the two.

use vstd::prelude::*;
use vstd::string::StringSliceAdditionalSpecFns;
use vstd::utf8::*;

verus! {

/// Whether byte offset `at` of the UTF-8 form of `text` is the start of a
/// character or the end of the text.
pub open spec fn on_boundary(text: Seq<char>, at: int) -> bool {
    is_char_boundary(encode_utf8(text), at)
}

/// The characters that bytes `from..to` of the UTF-8 form of `text` encode.
pub open spec fn slice_chars(text: Seq<char>, from: int, to: int) -> Seq<char> {
    decode_utf8(encode_utf8(text).subrange(from, to))
}

/// A boundary lies within the bytes.
pub proof fn lemma_boundary_in_range(bytes: Seq<u8>, at: int)
    requires
        valid_utf8(bytes),
        is_char_boundary(bytes, at),
    ensures
        0 <= at <= bytes.len(),
{
}

/// Between two boundaries the bytes are valid UTF-8 of their own, and a
/// boundary of the whole that lies between them is a boundary of that part.
pub proof fn lemma_boundary_in_slice(bytes: Seq<u8>, from: int, at: int, to: int)
    requires
        valid_utf8(bytes),
        is_char_boundary(bytes, from),
        is_char_boundary(bytes, at),
        is_char_boundary(bytes, to),
        from <= at <= to,
    ensures
        valid_utf8(bytes.subrange(from, to)),
        is_char_boundary(bytes.subrange(from, to), at - from),
{
    let head = bytes.subrange(0, to);
    let part = bytes.subrange(from, to);
    lemma_boundary_in_range(bytes, from);
    lemma_boundary_in_range(bytes, to);
    valid_utf8_split(bytes, to);
    if from == to {
        is_char_boundary_start_end_of_seq(head);
    } else {
        is_char_boundary_iff_not_is_continuation_byte(bytes, from);
        is_char_boundary_iff_not_is_continuation_byte(head, from);
    }
    valid_utf8_split(head, from);
    assert(part =~= head.subrange(from, head.len() as int));
    if at == to {
        is_char_boundary_start_end_of_seq(part);
    } else if at > from {
        is_char_boundary_iff_not_is_continuation_byte(bytes, at);
        is_char_boundary_iff_not_is_continuation_byte(part, at - from);
    }
}

/// Two slices that meet at a boundary join into the slice that spans both.
pub proof fn lemma_slice_join(text: Seq<char>, from: int, at: int, to: int)
    requires
        on_boundary(text, from),
        on_boundary(text, at),
        on_boundary(text, to),
        from <= at <= to,
    ensures
        slice_chars(text, from, at) + slice_chars(text, at, to) == slice_chars(text, from, to),
{
    let bytes = encode_utf8(text);
    let part = bytes.subrange(from, to);
    encode_utf8_valid_utf8(text);
    lemma_boundary_in_range(bytes, from);
    lemma_boundary_in_range(bytes, to);
    lemma_boundary_in_slice(bytes, from, at, to);
    decode_utf8_split(part, at - from);
    assert(part.subrange(0, at - from) =~= bytes.subrange(from, at));
    assert(part.subrange(at - from, part.len() as int) =~= bytes.subrange(at, to));
}

/// The slice over all bytes is the text itself.
pub proof fn lemma_slice_whole(text: Seq<char>)
    ensures
        slice_chars(text, 0, encode_utf8(text).len() as int) == text,
{
    let bytes = encode_utf8(text);
    assert(bytes.subrange(0, bytes.len() as int) =~= bytes);
    encode_utf8_decode_utf8(text);
}

/// A slice holds no character exactly if it holds no byte.
pub proof fn lemma_slice_len(text: Seq<char>, from: int, to: int)
    requires
        on_boundary(text, from),
        on_boundary(text, to),
        from <= to,
    ensures
        slice_chars(text, from, to).len() == 0 <==> from == to,
{
    let bytes = encode_utf8(text);
    encode_utf8_valid_utf8(text);
    lemma_boundary_in_range(bytes, from);
    lemma_boundary_in_range(bytes, to);
    lemma_boundary_in_slice(bytes, from, from, to);
}

/// In a text of ASCII characters bytes and characters coincide: every offset
/// is a boundary, and a slice is the subrange at the same offsets.
pub proof fn lemma_ascii_slices(text: Seq<char>, from: int, to: int)
    requires
        is_ascii_chars(text),
        0 <= from <= to <= text.len(),
    ensures
        encode_utf8(text).len() == text.len(),
        on_boundary(text, from),
        on_boundary(text, to),
        slice_chars(text, from, to) == text.subrange(from, to),
{
    let bytes = encode_utf8(text);
    let part = text.subrange(from, to);
    encode_utf8_valid_utf8(text);
    is_ascii_chars_encode_utf8(text);
    is_ascii_chars_encode_utf8(part);
    is_char_boundary_start_end_of_seq(bytes);
    if from < text.len() {
        is_char_boundary_iff_not_is_continuation_byte(bytes, from);
    }
    if to < text.len() {
        is_char_boundary_iff_not_is_continuation_byte(bytes, to);
    }
    assert(bytes.subrange(from, to) =~= encode_utf8(part));
    encode_utf8_decode_utf8(part);
}

/// A newline among the characters shows as the byte 10 among the bytes.
pub proof fn lemma_newline_shows(text: Seq<char>)
    requires
        text.contains('\n'),
    ensures
        encode_utf8(text).contains(10u8),
    decreases text.len(),
{
    let rest = text.drop_first();
    let first = encode_scalar(text[0] as u32);
    assert(encode_utf8(text) == first + encode_utf8(rest));
    if text[0] == '\n' {
        assert(10u32 & 0x7F == 10u32) by (bit_vector);
        assert(encode_utf8(text)[0] == 10u8);
    } else {
        let i = choose|i: int| 0 <= i < text.len() && text[i] == '\n';
        assert(rest[i - 1] == '\n');
        lemma_newline_shows(rest);
        let j = choose|j: int| 0 <= j < encode_utf8(rest).len() && encode_utf8(rest)[j] == 10u8;
        assert(encode_utf8(text)[first.len() + j] == 10u8);
    }
}

/// The byte 10 alone encodes a newline.
pub proof fn lemma_newline_byte()
    ensures
        valid_utf8(seq![10u8]),
        decode_utf8(seq![10u8]) == seq!['\n'],
{
    assert(10u32 & 0x7F == 10u32) by (bit_vector);
    assert(encode_utf8(seq!['\n']) =~= seq![10u8]) by {
        reveal_with_fuel(encode_utf8, 2);
    }
    encode_utf8_valid_utf8(seq!['\n']);
    encode_utf8_decode_utf8(seq!['\n']);
}

/// The number of bytes of `text`, which is itself a boundary.
pub fn byte_len(text: &str) -> (len: usize)
    ensures
        len == encode_utf8(text@).len(),
        on_boundary(text@, len as int),
{
    proof {
        encode_utf8_valid_utf8(text@);
        is_char_boundary_start_end_of_seq(encode_utf8(text@));
    }
    text.as_bytes().len()
}

/// Copies bytes `from..to` of `text` into a string of their own.
pub fn substring(text: &str, from: usize, to: usize) -> (piece: String)
    requires
        from <= to,
        on_boundary(text@, from as int),
        on_boundary(text@, to as int),
    ensures
        piece@ == slice_chars(text@, from as int, to as int),
{
    proof {
        encode_utf8_valid_utf8(text@);
        lemma_boundary_in_slice(text.spec_bytes(), 0, from as int, to as int);
    }
    let (head, _) = text.split_at(to);
    let (_, piece) = head.split_at(from);
    proof {
        lemma_boundary_in_range(text.spec_bytes(), to as int);
        assert(piece.spec_bytes() =~= text.spec_bytes().subrange(from as int, to as int));
        encode_utf8_decode_utf8(piece@);
    }
    piece.to_owned()
}

} // verus!
