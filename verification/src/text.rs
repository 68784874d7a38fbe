use crate::color::{FontId, Style, TextFormat};
use crate::glyph::{is_slice, lemma_encoding_concat, lemma_encoding_len, lemma_slice_valid, slice};
use crate::sections::{byte_ranges, sections_from_marks, sections_of, tiles, LayoutSection};
use std::ops::Range;
use vstd::prelude::*;
use vstd::std_specs::iter::IteratorSpec;
use vstd::string::StringExecFns;
use vstd::string::StringSliceAdditionalSpecFns;
use vstd::utf8::*;

verus! {


/// A text with the sections that it is drawn in.
#[derive(Debug, PartialEq, Eq)]
pub struct LayoutJob {
    pub text: String,
    pub sections: Vec<LayoutSection>,
}

impl LayoutJob {
    /// The sections of the job tile its text.
    pub open spec fn is_tiled(&self) -> bool {
        tiles(byte_ranges(self.sections@), encode_utf8(self.text@).len() as int)
    }
}

impl Default for LayoutJob {
    /// No text and no sections.
    fn default() -> (r: Self)
        ensures
            r.text@ == Seq::<char>::empty(),
            r.sections@ == Seq::<LayoutSection>::empty(),
            r.is_tiled(),
    {
        LayoutJob { text: String::new(), sections: Vec::new() }
    }
}

impl Clone for LayoutJob {
    fn clone(&self) -> (r: Self)
        ensures
            r.text@ == self.text@,
            r.sections@ == self.sections@,
    {
        let mut sections: Vec<LayoutSection> = Vec::new();
        let mut k: usize = 0;
        while k < self.sections.len()
            invariant
                k <= self.sections@.len(),
                sections@ == self.sections@.take(k as int),
            decreases self.sections@.len() - k,
        {
            sections.push(self.sections[k].clone());
            assert(sections@ =~= self.sections@.take(k + 1));
            k = k + 1;
        }
        assert(self.sections@.take(k as int) =~= self.sections@);
        LayoutJob { text: self.text.clone(), sections }
    }
}

/// `len` marks of nothing.
pub fn blank_marks(len: usize) -> (marks: Vec<usize>)
    ensures
        marks@ == Seq::new(len as nat, |i: int| 0usize),
{
    let marks = vec![0usize; len];
    assert(marks@ =~= Seq::new(len as nat, |i: int| 0usize));
    marks
}

/// The number of bytes of a text.
pub fn byte_len(text: &str) -> (len: usize)
    ensures
        len == encode_utf8(text@).len(),
{
    text.as_bytes().len()
}

/// The sections that a text with these marks is drawn in: one for each run of equal marks. A
/// text without bytes is drawn as one empty section in the first format, where there is one.
pub open spec fn job_sections(marks: Seq<usize>, formats: Seq<TextFormat>) -> Seq<LayoutSection> {
    if marks.len() == 0 && formats.len() > 0 {
        seq![LayoutSection { byte_range: Range { start: 0, end: 0 }, format: formats[0] }]
    } else {
        sections_of(marks, formats)
    }
}

/// A text of which each byte is marked with the index of the format that it is drawn in.
#[derive(Debug)]
pub struct TextLayoutJob {
    text: String,
    mapping: Vec<usize>,
    formats: Vec<TextFormat>,
}

impl TextLayoutJob {
    /// Each byte of the text has a mark, and each mark a format.
    pub open spec fn consistent(
        text: Seq<char>,
        mapping: Seq<usize>,
        formats: Seq<TextFormat>,
    ) -> bool {
        &&& mapping.len() == encode_utf8(text).len()
        &&& forall|i: int| 0 <= i < mapping.len() ==> mapping[i] < formats.len()
    }

    #[verifier::type_invariant]
    spec fn inv(self) -> bool {
        Self::consistent(self.text@, self.mapping@, self.formats@)
    }

    pub closed spec fn text(&self) -> Seq<char> {
        self.text@
    }

    /// The mark of each byte of the text.
    pub closed spec fn mapping(&self) -> Seq<usize> {
        self.mapping@
    }

    /// The formats that the marks stand for.
    pub closed spec fn formats(&self) -> Seq<TextFormat> {
        self.formats@
    }

    pub fn new(text: String, mapping: Vec<usize>, formats: Vec<TextFormat>) -> (job: Self)
        requires
            Self::consistent(text@, mapping@, formats@),
        ensures
            job.text() == text@,
            job.mapping() == mapping@,
            job.formats() == formats@,
    {
        Self { text, mapping, formats }
    }

    /// The text of the job.
    pub fn as_str(&self) -> (text: &str)
        ensures
            text@ == self.text(),
    {
        self.text.as_str()
    }

    pub fn convert_to_layout_job(self) -> (job: LayoutJob)
        ensures
            job.text@ == self.text(),
            job.sections@ == job_sections(self.mapping(), self.formats()),
            job.is_tiled(),
    {
        let sections = self.build_layout_sections();
        LayoutJob { text: self.text, sections }
    }

    /// The sections that the text is drawn in.
    pub fn build_layout_sections(&self) -> (sections: Vec<LayoutSection>)
        ensures
            sections@ == job_sections(self.mapping(), self.formats()),
            tiles(byte_ranges(sections@), encode_utf8(self.text()).len() as int),
    {
        proof {
            use_type_invariant(self);
        }
        if self.mapping.len() == 0 && self.formats.len() > 0 {
            let mut sections: Vec<LayoutSection> = Vec::new();
            sections.push(LayoutSection { byte_range: 0..0, format: self.formats[0] });
            assert(sections@ =~= job_sections(self.mapping(), self.formats()));
            return sections;
        }
        sections_from_marks(&self.mapping, &self.formats)
    }
}

/// The number of bytes that a character is encoded in.
pub fn char_len(c: char) -> (len: usize)
    ensures
        len == encode_scalar(c as u32).len(),
        1 <= len <= 4,
{
    let scalar = c as u32;
    if scalar < 0x80 {
        1
    } else if scalar < 0x800 {
        2
    } else if scalar < 0x10000 {
        3
    } else {
        4
    }
}

/// Calls `String::push` of std, which appends the character to the end of the string.
#[verifier::external_body]
fn push_char(text: &mut String, c: char)
    ensures
        final(text)@ == old(text)@.push(c),
{
    text.push(c)
}

/// The byte at `index` is the first byte of a character `c` of the text.
pub open spec fn starts_char(text: Seq<char>, c: char, index: int) -> bool {
    exists|k: int|
        0 <= k < text.len() && text[k] == c && #[trigger] encode_utf8(text.take(k)).len() == index
}

/// The text with each character `from` replaced by the string `to`.
pub open spec fn replaced_text(text: Seq<char>, from: char, to: Seq<char>) -> Seq<char>
    decreases text.len(),
{
    if text.len() == 0 {
        Seq::empty()
    } else {
        replaced_text(text.drop_last(), from, to) + if text.last() == from {
            to
        } else {
            seq![text.last()]
        }
    }
}

/// The marks of a text in which each character `from` is replaced by a string of `count`
/// bytes: each byte of the string has the mark of the first byte of the character in whose
/// place it stands, and the other bytes keep their marks.
pub open spec fn replaced_marks(
    text: Seq<char>,
    mapping: Seq<usize>,
    from: char,
    count: nat,
) -> Seq<usize>
    decreases text.len(),
{
    if text.len() == 0 {
        Seq::empty()
    } else {
        let cut = mapping.len() - encode_scalar(text.last() as u32).len();
        replaced_marks(text.drop_last(), mapping.take(cut), from, count) + if text.last()
            == from {
            Seq::new(count, |i: int| mapping[cut])
        } else {
            mapping.skip(cut)
        }
    }
}

/// A text with one more character is encoded in the bytes of the text and then those of the
/// character.
pub proof fn lemma_encoding_push(text: Seq<char>, c: char)
    ensures
        encode_utf8(text.push(c)) == encode_utf8(text) + encode_scalar(c as u32),
        encode_utf8(text.push(c)).len() == encode_utf8(text).len() + encode_scalar(c as u32).len(),
        1 <= encode_scalar(c as u32).len() <= 4,
{
    reveal_with_fuel(encode_utf8, 2);
    lemma_encoding_concat(text, seq![c]);
    assert(text.push(c) =~= text + seq![c]);
    assert(seq![c].drop_first() =~= Seq::<char>::empty());
    assert(encode_utf8(seq![c]) =~= encode_scalar(c as u32));
}

/// The first bytes of later characters lie further back.
pub proof fn lemma_char_offsets_grow(text: Seq<char>, j: int, k: int)
    requires
        0 <= j < k <= text.len(),
    ensures
        encode_utf8(text.take(j)).len() < encode_utf8(text.take(k)).len(),
    decreases k - j,
{
    lemma_encoding_push(text.take(k - 1), text[k - 1]);
    assert(text.take(k - 1).push(text[k - 1]) =~= text.take(k));
    if j < k - 1 {
        lemma_char_offsets_grow(text, j, k - 1);
    }
}

impl TextLayoutJob {
    /// The part of the job that the bytes `range` of its text make up.
    pub fn substring(&self, range: Range<usize>) -> (job: Self)
        requires
            is_slice(self.text(), range.start as int, range.end as int),
        ensures
            job.text() == slice(self.text(), range.start as int, range.end as int),
            job.mapping() == self.mapping().subrange(range.start as int, range.end as int),
            job.formats() == self.formats(),
    {
        proof {
            use_type_invariant(self);
            lemma_slice_valid(self.text@, range.start as int, range.end as int);
        }
        let (_, rest) = self.text.as_str().split_at(range.start);
        let (part, _) = rest.split_at(range.end - range.start);
        proof {
            assert(rest.spec_bytes().subrange(0, range.end - range.start) =~= encode_utf8(
                self.text@,
            ).subrange(range.start as int, range.end as int));
            encode_utf8_decode_utf8(part@);
        }
        let mut mapping: Vec<usize> = Vec::new();
        let mut i: usize = range.start;
        while i < range.end
            invariant
                range.start <= i <= range.end <= self.mapping@.len(),
                mapping@ == self.mapping@.subrange(range.start as int, i as int),
            decreases range.end - i,
        {
            mapping.push(self.mapping[i]);
            assert(mapping@ =~= self.mapping@.subrange(range.start as int, i + 1));
            i = i + 1;
        }
        let formats = copy_formats(&self.formats);
        Self { text: String::from_str(part), mapping, formats }
    }

    /// Replaces each character `from` of the text by the string `to`. Each byte of the string
    /// is drawn as the character was in whose place it stands.
    pub fn replace(&mut self, from: u8, to: &str)
        ensures
            final(self).text() == replaced_text(old(self).text(), from as char, to@),
            final(self).mapping() == replaced_marks(
                old(self).text(),
                old(self).mapping(),
                from as char,
                encode_utf8(to@).len(),
            ),
            final(self).formats() == old(self).formats(),
    {
        broadcast use vstd::string::group_string_axioms;

        proof {
            use_type_invariant(&*self);
        }
        let from: char = from as char;
        let count = byte_len(to);
        let total = self.mapping.len();
        let ghost text = self.text@;
        let ghost old_mapping = self.mapping@;
        let mut output = String::new();
        let mut mapping: Vec<usize> = Vec::new();
        let mut seen: usize = 0;
        let mut offset: usize = 0;
        let mut chars = self.text.as_str().chars();
        proof {
            lemma_encoding_len(text);
            assert(text.take(0) =~= Seq::<char>::empty());
            assert(old_mapping.take(0) =~= Seq::<usize>::empty());
        }
        loop
            invariant
                chars.obeys_prophetic_iter_laws(),
                text == self.text@,
                old_mapping == self.mapping@,
                old_mapping.len() == encode_utf8(text).len() <= usize::MAX,
                forall|i: int| 0 <= i < old_mapping.len() ==> old_mapping[i] < self.formats@.len(),
                count == encode_utf8(to@).len(),
                seen <= text.len() <= usize::MAX,
                chars.remaining() == text.skip(seen as int),
                offset == encode_utf8(text.take(seen as int)).len(),
                offset <= old_mapping.len(),
                output@ == replaced_text(text.take(seen as int), from, to@),
                mapping@ == replaced_marks(
                    text.take(seen as int),
                    old_mapping.take(offset as int),
                    from,
                    count as nat,
                ),
                mapping@.len() == encode_utf8(output@).len(),
                forall|i: int| 0 <= i < mapping@.len() ==> mapping@[i] < self.formats@.len(),
            ensures
                output@ == replaced_text(text, from, to@),
                mapping@ == replaced_marks(text, old_mapping, from, count as nat),
                mapping@.len() == encode_utf8(output@).len(),
                forall|i: int| 0 <= i < mapping@.len() ==> mapping@[i] < self.formats@.len(),
            decreases text.len() - seen,
        {
            match chars.next() {
                Some(c) => {
                    let width = char_len(c);
                    proof {
                        assert(text.take(seen + 1) =~= text.take(seen as int).push(c));
                        assert(text.take(seen + 1).drop_last() =~= text.take(seen as int));
                        assert(text.skip(seen as int).drop_first() =~= text.skip(seen + 1));
                        lemma_encoding_push(text.take(seen as int), c);
                        if seen + 1 < text.len() {
                            lemma_char_offsets_grow(text, seen + 1, text.len() as int);
                        }
                        assert(text.take(text.len() as int) =~= text);
                        assert(old_mapping.take(offset + width).take(offset as int)
                            =~= old_mapping.take(offset as int));
                    }
                    let ghost marks_before = mapping@;
                    let ghost output_before = output@;
                    if c == from {
                        let mark = self.mapping[offset];
                        let mut i: usize = 0;
                        while i < count
                            invariant
                                i <= count,
                                mark < self.formats@.len(),
                                forall|i: int|
                                    0 <= i < marks_before.len() ==> marks_before[i]
                                        < self.formats@.len(),
                                mapping@ == marks_before + Seq::new(i as nat, |j: int| mark),
                            decreases count - i,
                        {
                            mapping.push(mark);
                            assert(mapping@ =~= marks_before + Seq::new(
                                (i + 1) as nat,
                                |j: int| mark,
                            ));
                            i = i + 1;
                        }
                        output.append(to);
                        proof {
                            lemma_encoding_concat(output_before, to@);
                            assert(Seq::new(count as nat, |j: int| mark) =~= Seq::new(
                                count as nat,
                                |j: int| old_mapping.take(offset + width)[offset as int],
                            ));
                        }
                    } else {
                        let mut i: usize = 0;
                        while i < width
                            invariant
                                i <= width,
                                offset + width <= old_mapping.len() <= usize::MAX,
                                old_mapping == self.mapping@,
                                forall|i: int|
                                    0 <= i < old_mapping.len() ==> old_mapping[i]
                                        < self.formats@.len(),
                                forall|i: int|
                                    0 <= i < marks_before.len() ==> marks_before[i]
                                        < self.formats@.len(),
                                mapping@ == marks_before + old_mapping.subrange(
                                    offset as int,
                                    offset + i,
                                ),
                            decreases width - i,
                        {
                            mapping.push(self.mapping[offset + i]);
                            assert(mapping@ =~= marks_before + old_mapping.subrange(
                                offset as int,
                                offset + i + 1,
                            ));
                            i = i + 1;
                        }
                        push_char(&mut output, c);
                        proof {
                            lemma_encoding_push(output_before, c);
                            assert(output@ =~= output_before + seq![c]);
                            assert(old_mapping.subrange(offset as int, offset + width)
                                =~= old_mapping.take(offset + width).skip(offset as int));
                        }
                    }
                    seen = seen + 1;
                    offset = offset + width;
                },
                None => {
                    proof {
                        assert(text.take(seen as int) =~= text);
                        assert(old_mapping.take(offset as int) =~= old_mapping);
                    }
                    break ;
                },
            }
        }
        let formats = copy_formats(&self.formats);
        *self = TextLayoutJob { text: output, mapping, formats };
    }

    /// Adds the format to the job and draws the first byte of each character `pattern` of the
    /// text in it.
    pub fn replace_format(&mut self, pattern: char, format: TextFormat)
        ensures
            final(self).text() == old(self).text(),
            final(self).formats() == old(self).formats().push(format),
            final(self).mapping() == Seq::new(
                old(self).mapping().len(),
                |i: int|
                    if starts_char(old(self).text(), pattern, i) {
                        old(self).formats().len() as usize
                    } else {
                        old(self).mapping()[i]
                    },
            ),
    {
        broadcast use vstd::string::group_string_axioms;

        proof {
            use_type_invariant(&*self);
        }
        let new_index = self.formats.len();
        let total = self.mapping.len();
        let ghost text = self.text@;
        let ghost old_mapping = self.mapping@;
        let ghost old_formats = self.formats@;
        let mut mapping: Vec<usize> = Vec::new();
        let mut seen: usize = 0;
        let mut offset: usize = 0;
        let mut chars = self.text.as_str().chars();
        proof {
            lemma_encoding_len(text);
            assert(text.take(0) =~= Seq::<char>::empty());
        }
        loop
            invariant
                chars.obeys_prophetic_iter_laws(),
                text == self.text@,
                old_mapping == self.mapping@,
                old_formats == self.formats@,
                new_index == old_formats.len(),
                old_mapping.len() == encode_utf8(text).len() <= usize::MAX,
                forall|i: int| 0 <= i < old_mapping.len() ==> old_mapping[i] < old_formats.len(),
                seen <= text.len() <= usize::MAX,
                chars.remaining() == text.skip(seen as int),
                offset == encode_utf8(text.take(seen as int)).len(),
                offset <= old_mapping.len(),
                mapping@.len() == offset,
                forall|i: int|
                    0 <= i < offset ==> #[trigger] mapping@[i] == if starts_char(text, pattern, i) {
                        new_index
                    } else {
                        old_mapping[i]
                    },
            ensures
                mapping@.len() == old_mapping.len(),
                forall|i: int|
                    0 <= i < old_mapping.len() ==> #[trigger] mapping@[i] == if starts_char(
                        text,
                        pattern,
                        i,
                    ) {
                        new_index
                    } else {
                        old_mapping[i]
                    },
            decreases text.len() - seen,
        {
            match chars.next() {
                Some(c) => {
                    let width = char_len(c);
                    proof {
                        assert(text.take(seen + 1) =~= text.take(seen as int).push(c));
                        assert(text.skip(seen as int).drop_first() =~= text.skip(seen + 1));
                        lemma_encoding_push(text.take(seen as int), c);
                        if seen + 1 < text.len() {
                            lemma_char_offsets_grow(text, seen + 1, text.len() as int);
                        }
                        assert(text.take(text.len() as int) =~= text);
                    }
                    let ghost marks_before = mapping@;
                    let mut i: usize = 0;
                    while i < width
                        invariant
                            i <= width,
                            offset + width <= old_mapping.len() <= usize::MAX,
                            old_mapping == self.mapping@,
                            mapping@.len() == offset + i,
                            mapping@.take(offset as int) == marks_before,
                            forall|j: int|
                                offset <= j < offset + i ==> #[trigger] mapping@[j] == if j
                                    == offset && c == pattern {
                                    new_index
                                } else {
                                    old_mapping[j]
                                },
                        decreases width - i,
                    {
                        let ghost inner_before = mapping@;
                        if i == 0 && c == pattern {
                            mapping.push(new_index);
                        } else {
                            mapping.push(self.mapping[offset + i]);
                        }
                        assert(mapping@.take(offset as int) =~= inner_before.take(offset as int));
                        i = i + 1;
                    }
                    proof {
                        assert forall|j: int| 0 <= j < offset + width implies #[trigger] mapping@[j]
                            == if starts_char(text, pattern, j) {
                            new_index
                        } else {
                            old_mapping[j]
                        } by {
                            if j < offset {
                                assert(mapping@[j] == mapping@.take(offset as int)[j]);
                            } else {
                                lemma_starts_char_at(text, pattern, seen as int, j);
                            }
                        }
                    }
                    seen = seen + 1;
                    offset = offset + width;
                },
                None => {
                    proof {
                        assert(text.take(seen as int) =~= text);
                    }
                    break ;
                },
            }
        }
        let mut formats = copy_formats(&self.formats);
        formats.push(format);
        self.formats = formats;
        self.mapping = mapping;
        assert(self.mapping@ =~= Seq::new(
            old_mapping.len(),
            |i: int|
                if starts_char(text, pattern, i) {
                    new_index
                } else {
                    old_mapping[i]
                },
        ));
    }
}

/// Among the bytes of the character at `k`, the first one starts a character `c` where the
/// character is `c`, and the others start none.
proof fn lemma_starts_char_at(text: Seq<char>, c: char, k: int, index: int)
    requires
        0 <= k < text.len(),
        encode_utf8(text.take(k)).len() <= index < encode_utf8(text.take(k + 1)).len(),
    ensures
        starts_char(text, c, index) <==> (index == encode_utf8(text.take(k)).len() && text[k]
            == c),
{
    if starts_char(text, c, index) {
        let j = choose|j: int|
            0 <= j < text.len() && text[j] == c && #[trigger] encode_utf8(text.take(j)).len()
                == index;
        if j < k {
            lemma_char_offsets_grow(text, j, k);
        } else if j > k {
            if j > k + 1 {
                lemma_char_offsets_grow(text, k + 1, j);
            }
        }
    }
}

/// A copy of the formats.
fn copy_formats(formats: &Vec<TextFormat>) -> (copy: Vec<TextFormat>)
    ensures
        copy@ == formats@,
{
    let mut copy: Vec<TextFormat> = Vec::new();
    let mut v: usize = 0;
    while v < formats.len()
        invariant
            v <= formats@.len(),
            copy@ == formats@.take(v as int),
        decreases formats@.len() - v,
    {
        copy.push(formats[v]);
        assert(copy@ =~= formats@.take(v + 1));
        v = v + 1;
    }
    assert(formats@.take(v as int) =~= formats@);
    copy
}

impl Default for TextLayoutJob {
    /// No text, to be drawn as one empty section of plain text.
    fn default() -> (r: Self)
        ensures
            r.text() == Seq::<char>::empty(),
            r.mapping() == Seq::<usize>::empty(),
            r.formats() == seq![TextFormat::plain(FontId { id: 0 })],
    {
        let mut formats: Vec<TextFormat> = Vec::new();
        formats.push(TextFormat::default());
        assert(formats@ =~= seq![TextFormat::plain(FontId { id: 0 })]);
        Self { text: String::new(), mapping: Vec::new(), formats }
    }
}

pub fn layout_plain_text_job(text: String, style: &Style) -> (job: TextLayoutJob)
    ensures
        job.text() == text@,
        job.mapping() == Seq::new(encode_utf8(text@).len(), |i: int| 0usize),
        job.formats() == seq![TextFormat::plain(style.monospace)],
{
    let len = byte_len(text.as_str());
    let mut formats: Vec<TextFormat> = Vec::new();
    formats.push(TextFormat::monospace(style));
    assert(formats@ =~= seq![TextFormat::plain(style.monospace)]);
    TextLayoutJob::new(text, blank_marks(len), formats)
}

/// Returns information about how plain text should be rendered
pub fn layout_plain_text(text: String, style: &Style) -> (job: LayoutJob)
    ensures
        job.text@ == text@,
        job.sections@ == seq![
            LayoutSection {
                byte_range: Range { start: 0, end: encode_utf8(text@).len() as usize },
                format: TextFormat::plain(style.monospace),
            },
        ],
        job.is_tiled(),
{
    let len = byte_len(text.as_str());
    let mut sections: Vec<LayoutSection> = Vec::new();
    sections.push(LayoutSection { byte_range: 0..len, format: TextFormat::monospace(style) });
    LayoutJob { text, sections }
}

} // verus!
