use std::ops::Range;
use vstd::prelude::*;
use vstd::std_specs::iter::IteratorSpec;
use vstd::string::StringSliceAdditionalSpecFns;
use vstd::utf8::*;

verus! {

/// The characters of `chars` that are laid out as glyphs: all but the newlines.
pub open spec fn glyphs(chars: Seq<char>) -> Seq<char> {
    chars.filter(|c: char| c != '\n')
}

/// The newlines among `chars`.
pub open spec fn newlines(chars: Seq<char>) -> Seq<char> {
    chars.filter(|c: char| c == '\n')
}

/// The number of glyphs that `chars` is laid out as.
pub open spec fn glyph_count(chars: Seq<char>) -> nat {
    glyphs(chars).len()
}

/// `start..end` cuts a string out of `text`: the bounds are in order, inside the text's bytes
/// and between two characters.
pub open spec fn is_slice(text: Seq<char>, start: int, end: int) -> bool {
    let bytes = encode_utf8(text);
    &&& 0 <= start <= end <= bytes.len()
    &&& is_char_boundary(bytes, start)
    &&& is_char_boundary(bytes, end)
}

/// The characters that the bytes `start..end` of `text` encode.
pub open spec fn slice(text: Seq<char>, start: int, end: int) -> Seq<char> {
    decode_utf8(encode_utf8(text).subrange(start, end))
}

/// The glyphs that the bytes `start..end` of `text` are laid out as, as a range of glyph
/// indices: as many glyphs come before it as the bytes before `start` hold, and it is as long
/// as the bytes of the range hold glyphs.
pub open spec fn glyph_range(text: Seq<char>, start: int, end: int) -> Range<usize> {
    let head = glyph_count(slice(text, 0, start));
    Range { start: head as usize, end: (head + glyph_count(slice(text, start, end))) as usize }
}

/// A string has as many glyphs as it has characters that are no newline.
pub proof fn lemma_glyph_count(chars: Seq<char>)
    ensures
        glyph_count(chars) == chars.len() - newlines(chars).len(),
        glyph_count(chars) <= chars.len(),
    decreases chars.len(),
{
    reveal(Seq::filter);
    if chars.len() > 0 {
        lemma_glyph_count(chars.drop_last());
    }
}

/// The glyphs of two strings in a row are those of the first and then those of the second.
pub proof fn lemma_glyph_count_concat(a: Seq<char>, b: Seq<char>)
    ensures
        glyph_count(a + b) == glyph_count(a) + glyph_count(b),
{
    Seq::filter_distributes_over_add(a, b, |c: char| c != '\n');
}

/// One more character is one more glyph, unless it is a newline.
pub proof fn lemma_glyph_count_push(chars: Seq<char>, c: char)
    ensures
        glyph_count(chars.push(c)) == glyph_count(chars) + if c == '\n' { 0nat } else { 1nat },
{
    reveal(Seq::filter);
    assert(chars.push(c).drop_last() =~= chars);
}

/// A string takes at least one byte for each character.
pub proof fn lemma_encoding_len(chars: Seq<char>)
    ensures
        chars.len() <= encode_utf8(chars).len(),
    decreases chars.len(),
{
    if chars.len() > 0 {
        lemma_encoding_len(chars.drop_first());
    }
}

/// Two strings in a row are encoded as the bytes of the first and then those of the second.
pub proof fn lemma_encoding_concat(a: Seq<char>, b: Seq<char>)
    ensures
        encode_utf8(a + b) == encode_utf8(a) + encode_utf8(b),
    decreases a.len(),
{
    if a.len() == 0 {
        assert(a + b =~= b);
        assert(encode_utf8(a) + encode_utf8(b) =~= encode_utf8(b));
    } else {
        lemma_encoding_concat(a.drop_first(), b);
        assert((a + b).drop_first() =~= a.drop_first() + b);
        assert(encode_utf8(a + b) =~= encode_utf8(a) + encode_utf8(b));
    }
}

/// Where one string ends and the next begins, the bytes of the two in a row have a character
/// boundary.
pub proof fn lemma_boundary_between(a: Seq<char>, b: Seq<char>)
    ensures
        is_char_boundary(encode_utf8(a + b), encode_utf8(a).len() as int),
    decreases a.len(),
{
    broadcast use encode_utf8_valid_utf8;

    let bytes = encode_utf8(a + b);
    if a.len() > 0 {
        let scalar = encode_scalar(a[0] as u32);
        assert((a + b).drop_first() =~= a.drop_first() + b);
        encode_utf8_first_scalar(a + b);
        assert(pop_first_scalar(bytes) =~= encode_utf8(a.drop_first() + b));
        lemma_boundary_between(a.drop_first(), b);
        assert(encode_utf8(a).len() == scalar.len() + encode_utf8(a.drop_first()).len());
        lemma_encoding_concat(a, b);
    }
}

/// The bytes `start..end` of a string, where they cut a string out of it, are valid UTF-8, and
/// the bytes before and inside the range encode no more characters than the string has bytes
/// up to `end`.
pub proof fn lemma_slice_valid(text: Seq<char>, start: int, end: int)
    requires
        is_slice(text, start, end),
    ensures
        valid_utf8(encode_utf8(text).subrange(0, start)),
        valid_utf8(encode_utf8(text).subrange(start, end)),
        valid_utf8(encode_utf8(text).subrange(start, encode_utf8(text).len() as int)),
        is_char_boundary(
            encode_utf8(text).subrange(start, encode_utf8(text).len() as int),
            end - start,
        ),
        slice(text, 0, start).len() + slice(text, start, end).len() <= end,
{
    broadcast use encode_utf8_valid_utf8;

    let bytes = encode_utf8(text);
    let len = bytes.len() as int;
    let rest = bytes.subrange(start, len);
    valid_utf8_split(bytes, start);
    if end == len {
        is_char_boundary_start_end_of_seq(rest);
    } else {
        is_char_boundary_iff_not_is_continuation_byte(bytes, end);
        if end > start {
            is_char_boundary_iff_not_is_continuation_byte(rest, end - start);
        }
    }
    valid_utf8_split(rest, end - start);
    assert(rest.subrange(0, end - start) =~= bytes.subrange(start, end));
    let head = bytes.subrange(0, start);
    let mid = bytes.subrange(start, end);
    decode_utf8_encode_utf8(head);
    decode_utf8_encode_utf8(mid);
    lemma_encoding_len(decode_utf8(head));
    lemma_encoding_len(decode_utf8(mid));
}

/// A range of glyphs that stands for a range of bytes is in order and ends inside the glyphs
/// of the whole text.
pub proof fn lemma_glyph_range_bounds(text: Seq<char>, start: int, end: int)
    requires
        is_slice(text, start, end),
    ensures
        glyph_count(slice(text, 0, start)) + glyph_count(slice(text, start, end)) <= glyph_count(
            text,
        ),
        glyph_count(text) <= encode_utf8(text).len(),
{
    broadcast use encode_utf8_valid_utf8;

    let bytes = encode_utf8(text);
    let len = bytes.len() as int;
    lemma_slice_valid(text, start, end);
    let rest = bytes.subrange(start, len);
    decode_utf8_split(bytes, start);
    decode_utf8_split(rest, end - start);
    assert(rest.subrange(0, end - start) =~= bytes.subrange(start, end));
    encode_utf8_decode_utf8(text);
    let a = slice(text, 0, start);
    let b = slice(text, start, end);
    let c = decode_utf8(rest.subrange(end - start, rest.len() as int));
    assert(text =~= a + (b + c));
    lemma_glyph_count_concat(a, b + c);
    lemma_glyph_count_concat(b, c);
    lemma_glyph_count(text);
    lemma_encoding_len(text);
}

/// Slicing keeps the glyph count: the bytes of the middle one of three strings in a row stand
/// for the glyphs that follow those of the first string, as many as the middle string has.
pub proof fn lemma_glyph_range_of_parts(a: Seq<char>, b: Seq<char>, c: Seq<char>)
    ensures
        ({
            let start = encode_utf8(a).len() as int;
            let end = start + encode_utf8(b).len();
            &&& is_slice(a + b + c, start, end)
            &&& slice(a + b + c, 0, start) == a
            &&& slice(a + b + c, start, end) == b
            &&& glyph_range(a + b + c, start, end) == Range {
                start: glyph_count(a) as usize,
                end: (glyph_count(a) + glyph_count(b)) as usize,
            }
        }),
{
    let text = a + b + c;
    let start = encode_utf8(a).len() as int;
    let end = start + encode_utf8(b).len();
    assert(text =~= a + (b + c));
    lemma_boundary_between(a, b + c);
    lemma_boundary_between(a + b, c);
    lemma_encoding_concat(a, b);
    lemma_encoding_concat(a + b, c);
    let bytes = encode_utf8(text);
    assert(bytes.subrange(0, start) =~= encode_utf8(a));
    assert(bytes.subrange(start, end) =~= encode_utf8(b));
    encode_utf8_decode_utf8(a);
    encode_utf8_decode_utf8(b);
}

/// Counts the number of chars in the given string, excluding newlines (`\n`),
/// as those are not laid out as glyphs
pub fn str_glyph_count(text: &str) -> (count: usize)
    ensures
        count == glyph_count(text@),
{
    broadcast use vstd::string::group_string_axioms;

    let byte_len = text.as_bytes().len();
    proof {
        lemma_encoding_len(text@);
    }
    let mut count: usize = 0;
    let mut seen: usize = 0;
    let mut chars = text.chars();
    loop
        invariant
            chars.obeys_prophetic_iter_laws(),
            seen <= text@.len() <= usize::MAX,
            chars.remaining() == text@.skip(seen as int),
            count == glyph_count(text@.take(seen as int)),
            count <= seen,
        ensures
            count == glyph_count(text@),
        decreases text@.len() - seen,
    {
        match chars.next() {
            Some(c) => {
                proof {
                    assert(text@.take(seen + 1) =~= text@.take(seen as int).push(c));
                    assert(text@.skip(seen as int).drop_first() =~= text@.skip(seen + 1));
                    lemma_glyph_count_push(text@.take(seen as int), c);
                }
                seen = seen + 1;
                if c != '\n' {
                    count = count + 1;
                }
            },
            None => {
                assert(text@.take(seen as int) =~= text@);
                break ;
            },
        }
    }
    count
}

/// Converts a range of bytes of `text` to the range of glyphs that it is laid out as, or
/// `None` where the bytes cut no string out of the text.
pub fn convert_byte_range_to_char_range(range: Range<usize>, text: &str) -> (r: Option<
    Range<usize>,
>)
    ensures
        r == if is_slice(text@, range.start as int, range.end as int) {
            Some(glyph_range(text@, range.start as int, range.end as int))
        } else {
            None
        },
{
    let start = range.start;
    let end = range.end;
    if start > end || end > text.as_bytes().len() {
        return None;
    }
    if !text.is_char_boundary(start) || !text.is_char_boundary(end) {
        return None;
    }
    proof {
        lemma_slice_valid(text@, start as int, end as int);
        lemma_glyph_range_bounds(text@, start as int, end as int);
        lemma_glyph_count(slice(text@, 0, start as int));
        lemma_glyph_count(slice(text@, start as int, end as int));
    }
    let (head, rest) = text.split_at(start);
    let (tail, _) = rest.split_at(end - start);
    proof {
        let bytes = text.spec_bytes();
        assert(rest.spec_bytes().subrange(0, end - start) =~= bytes.subrange(
            start as int,
            end as int,
        ));
        encode_utf8_decode_utf8(head@);
        encode_utf8_decode_utf8(tail@);
    }
    let head_offset = str_glyph_count(head);
    let tail_offset = head_offset + str_glyph_count(tail);
    Some(head_offset..tail_offset)
}

} // verus!
