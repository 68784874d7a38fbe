use crate::color::{Color32, FontId, FromBackgroundExt, Style, TextFormat};
use crate::engine::{captures_fit, find_captures, regex_captures, regex_pattern, regex_source, rows};
use crate::glyph::{convert_byte_range_to_char_range, glyph_range, is_slice};
use crate::sections::{
    lemma_painted_below, paint_strokes, painted, strokes_below, strokes_fit,
};
use crate::text::{blank_marks, byte_len, layout_plain_text_job, TextLayoutJob};
use regex::Regex;
use std::ops::Range;
use vstd::prelude::*;
use vstd::utf8::*;

verus! {

/// Information about how text that was matched against a regex should be rendered
#[derive(Debug)]
pub struct MatchedTextLayout {
    /// The layout job describing how to render the matched text
    pub job: TextLayoutJob,
    /// For each match in the text, a mapping from the capture groups of the regex, the first
    /// group first, to the glyphs of the text that the group matched; `None` for a group that
    /// took no part in the match
    pub capture_group_chars: Vec<Vec<Option<Range<usize>>>>,
}

impl Default for MatchedTextLayout {
    /// No text, drawn as one empty section of plain text, and no matches.
    fn default() -> (r: Self)
        ensures
            r.is_default(),
    {
        let layout = MatchedTextLayout {
            job: TextLayoutJob::default(),
            capture_group_chars: Vec::new(),
        };
        assert(rows(layout.capture_group_chars) =~= Seq::empty());
        layout
    }
}

/// The strokes that mark what the capture groups before `upto` matched in one match, each with
/// the index of its group. The entry at index 0, the whole match, leaves no mark.
pub open spec fn row_strokes(row: Seq<Option<Range<usize>>>, upto: int) -> Seq<
    (usize, Range<usize>),
>
    decreases upto,
{
    if upto <= 1 {
        Seq::empty()
    } else {
        match row[upto - 1] {
            Some(range) => row_strokes(row, upto - 1).push(((upto - 1) as usize, range)),
            None => row_strokes(row, upto - 1),
        }
    }
}

/// The strokes of all matches, from the first match to the last and from the first group to
/// the last within a match.
pub open spec fn capture_strokes(captures: Seq<Seq<Option<Range<usize>>>>) -> Seq<
    (usize, Range<usize>),
>
    decreases captures.len(),
{
    if captures.len() == 0 {
        Seq::empty()
    } else {
        capture_strokes(captures.drop_last()) + row_strokes(
            captures.last(),
            captures.last().len() as int,
        )
    }
}

/// The glyphs of what each capture group matched in one match, the first group first.
pub open spec fn row_chars(text: Seq<char>, row: Seq<Option<Range<usize>>>) -> Seq<
    Option<Range<usize>>,
> {
    Seq::new(
        if row.len() == 0 {
            0nat
        } else {
            (row.len() - 1) as nat
        },
        |g: int|
            match row[g + 1] {
                Some(range) => Some(glyph_range(text, range.start as int, range.end as int)),
                None => None,
            },
    )
}

/// The glyphs of what each capture group matched, for each match.
pub open spec fn capture_chars(text: Seq<char>, captures: Seq<Seq<Option<Range<usize>>>>) -> Seq<
    Seq<Option<Range<usize>>>,
> {
    Seq::new(captures.len(), |m: int| row_chars(text, captures[m]))
}

/// The format of what each capture group matched, at the index of the group: white on the
/// colour of the group.
pub open spec fn match_formats(colors: Seq<Color32>, font: FontId) -> Seq<TextFormat> {
    Seq::new(colors.len(), |v: int| TextFormat::highlighted(font, colors[v]))
}

/// There are `count` colours, at least one, and one for each capture group that took part in
/// a match.
pub open spec fn colors_cover(captures: Seq<Seq<Option<Range<usize>>>>, count: int) -> bool {
    &&& count > 0
    &&& forall|m: int, g: int|
        0 <= m < captures.len() && 1 <= g < captures[m].len() && (#[trigger] captures[m][g])
            is Some ==> g < count
}

impl MatchedTextLayout {
    /// The layout of no text.
    pub open spec fn is_default(&self) -> bool {
        &&& self.job.text() == Seq::<char>::empty()
        &&& self.job.mapping() == Seq::<usize>::empty()
        &&& self.job.formats() == seq![TextFormat::plain(FontId { id: 0 })]
        &&& rows(self.capture_group_chars) == Seq::<Seq<Option<Range<usize>>>>::empty()
    }

    /// The layout of a text in which nothing is highlighted.
    pub open spec fn is_plain(&self, text: Seq<char>, font: FontId) -> bool {
        &&& self.job.text() == text
        &&& self.job.mapping() == Seq::new(encode_utf8(text).len(), |i: int| 0usize)
        &&& self.job.formats() == seq![TextFormat::plain(font)]
        &&& rows(self.capture_group_chars) == Seq::<Seq<Option<Range<usize>>>>::empty()
    }

    /// The layout of a text with these matches: each byte is marked with the index of the last
    /// capture group that matched it, to be drawn in the colour of that group, and the table
    /// holds the glyphs of what each group matched.
    pub open spec fn is_highlighted(
        &self,
        text: Seq<char>,
        captures: Seq<Seq<Option<Range<usize>>>>,
        font: FontId,
        colors: Seq<Color32>,
    ) -> bool {
        &&& self.job.text() == text
        &&& self.job.mapping() == painted(encode_utf8(text).len(), capture_strokes(captures))
        &&& self.job.formats() == match_formats(colors, font)
        &&& rows(self.capture_group_chars) == capture_chars(text, captures)
    }

    /// The layout is the one of a text that was matched against a pattern: the default for no
    /// text, plain for an empty pattern, else highlighted.
    pub open spec fn is_layout_of(
        &self,
        text: Seq<char>,
        pattern: Seq<char>,
        captures: Seq<Seq<Option<Range<usize>>>>,
        font: FontId,
        colors: Seq<Color32>,
    ) -> bool {
        if text.len() == 0 {
            self.is_default()
        } else if pattern.len() == 0 {
            self.is_plain(text, font)
        } else {
            self.is_highlighted(text, captures, font, colors)
        }
    }
}

/// Each match has `count` entries, at least one: the whole match and then one for each colour
/// behind the first.
pub open spec fn captures_match(captures: Seq<Seq<Option<Range<usize>>>>, count: int) -> bool {
    &&& count > 0
    &&& forall|m: int| 0 <= m < captures.len() ==> (#[trigger] captures[m]).len() == count
}

/// Where each match has as many entries as there are colours, each capture group has one.
pub proof fn lemma_matching_captures_are_covered(
    captures: Seq<Seq<Option<Range<usize>>>>,
    count: int,
)
    requires
        captures_match(captures, count),
    ensures
        colors_cover(captures, count),
{
    assert forall|m: int, g: int|
        0 <= m < captures.len() && 1 <= g < captures[m].len() && (#[trigger] captures[m][g])
            is Some implies g < count by {
        assert(captures[m].len() == count);
    }
}

/// Tells whether each match has `count` entries, at least one.
pub fn check_captures_match(captures: &Vec<Vec<Option<Range<usize>>>>, count: usize) -> (b: bool)
    ensures
        b == captures_match(rows(*captures), count as int),
{
    if count == 0 {
        return false;
    }
    let mut m: usize = 0;
    while m < captures.len()
        invariant
            m <= captures@.len(),
            count > 0,
            forall|n: int| 0 <= n < m ==> (#[trigger] rows(*captures)[n]).len() == count,
        decreases captures@.len() - m,
    {
        if captures[m].len() != count {
            assert(rows(*captures)[m as int].len() != count);
            return false;
        }
        m = m + 1;
    }
    true
}

/// The strokes of one match, with what the capture groups of the match are laid out as.
fn layout_row(
    text: &str,
    row: &Vec<Option<Range<usize>>>,
    strokes: &mut Vec<(usize, Range<usize>)>,
    count: usize,
) -> (chars: Vec<Option<Range<usize>>>)
    requires
        forall|g: int|
            0 <= g < row@.len() && (#[trigger] row@[g]) is Some ==> is_slice(
                text@,
                row@[g]->Some_0.start as int,
                row@[g]->Some_0.end as int,
            ),
        forall|g: int| 1 <= g < row@.len() && (#[trigger] row@[g]) is Some ==> g < count,
        strokes_fit(old(strokes)@, encode_utf8(text@).len() as int),
        strokes_below(old(strokes)@, count as int),
    ensures
        final(strokes)@ == old(strokes)@ + row_strokes(row@, row@.len() as int),
        strokes_fit(final(strokes)@, encode_utf8(text@).len() as int),
        strokes_below(final(strokes)@, count as int),
        chars@ == row_chars(text@, row@),
{
    let mut chars: Vec<Option<Range<usize>>> = Vec::new();
    let mut g: usize = 1;
    assert(old(strokes)@ + row_strokes(row@, 1) =~= old(strokes)@);
    while g < row.len()
        invariant
            1 <= g,
            g <= row@.len() || g == 1,
            forall|g: int|
                0 <= g < row@.len() && (#[trigger] row@[g]) is Some ==> is_slice(
                    text@,
                    row@[g]->Some_0.start as int,
                    row@[g]->Some_0.end as int,
                ),
            forall|g: int| 1 <= g < row@.len() && (#[trigger] row@[g]) is Some ==> g < count,
            strokes@ == old(strokes)@ + row_strokes(row@, g as int),
            strokes_fit(strokes@, encode_utf8(text@).len() as int),
            strokes_below(strokes@, count as int),
            chars@ == row_chars(text@, row@).take(g - 1),
        decreases row@.len() - g,
    {
        let ghost before = strokes@;
        match &row[g] {
            Some(range) => {
                assert(row@[g as int] is Some);
                // Convert the byte ranges into glyph ranges, to later be used to index into
                // the glyphs of the laid out text
                let glyphs = convert_byte_range_to_char_range(range.start..range.end, text);
                chars.push(glyphs);
                strokes.push((g, range.start..range.end));
                proof {
                    assert(strokes@ =~= old(strokes)@ + row_strokes(row@, g + 1));
                    assert forall|k: int| 0 <= k < strokes@.len() implies (
                    #[trigger] strokes@[k]).1.start <= strokes@[k].1.end <= encode_utf8(
                        text@,
                    ).len() by {
                        if k < before.len() {
                            assert(strokes@[k] == before[k]);
                        }
                    }
                    assert forall|k: int| 0 <= k < strokes@.len() implies (
                    #[trigger] strokes@[k]).0 < count by {
                        if k < before.len() {
                            assert(strokes@[k] == before[k]);
                        }
                    }
                }
            },
            None => {
                chars.push(None);
            },
        }
        assert(chars@ =~= row_chars(text@, row@).take(g as int));
        g = g + 1;
    }
    assert(row_chars(text@, row@).take(g - 1) =~= row_chars(text@, row@));
    if row.len() <= 1 {
        assert(row_strokes(row@, row@.len() as int) =~= row_strokes(row@, 1));
    }
    chars
}

/// Lays out a text with the matches that were found in it.
pub fn layout_captures(
    text: String,
    captures: &Vec<Vec<Option<Range<usize>>>>,
    style: &Style,
    capture_group_colors: &Vec<Color32>,
) -> (layout: MatchedTextLayout)
    requires
        text@.len() > 0 ==> captures_fit(rows(*captures), encode_utf8(text@)) && colors_cover(
            rows(*captures),
            capture_group_colors@.len() as int,
        ),
    ensures
        text@.len() == 0 ==> layout.is_default(),
        text@.len() > 0 ==> layout.is_highlighted(
            text@,
            rows(*captures),
            style.monospace,
            capture_group_colors@,
        ),
{
    if text.as_str().is_empty() {
        return MatchedTextLayout::default();
    }
    let len = byte_len(text.as_str());
    let count = capture_group_colors.len();
    let mut capture_group_chars: Vec<Vec<Option<Range<usize>>>> = Vec::new();
    let mut strokes: Vec<(usize, Range<usize>)> = Vec::new();
    let mut m: usize = 0;
    while m < captures.len()
        invariant
            m <= captures@.len(),
            len == encode_utf8(text@).len(),
            count == capture_group_colors@.len(),
            captures_fit(rows(*captures), encode_utf8(text@)),
            colors_cover(rows(*captures), count as int),
            strokes@ == capture_strokes(rows(*captures).take(m as int)),
            strokes_fit(strokes@, len as int),
            strokes_below(strokes@, count as int),
            rows(capture_group_chars) == capture_chars(text@, rows(*captures)).take(m as int),
        decreases captures@.len() - m,
    {
        let row = &captures[m];
        proof {
            assert(row@ == rows(*captures)[m as int]);
            assert forall|g: int| 0 <= g < row@.len() && (#[trigger] row@[g]) is Some implies is_slice(
                text@,
                row@[g]->Some_0.start as int,
                row@[g]->Some_0.end as int,
            ) by {
                assert(rows(*captures)[m as int][g] is Some);
            }
            assert forall|g: int| 1 <= g < row@.len() && (#[trigger] row@[g]) is Some implies g
                < count by {
                assert(rows(*captures)[m as int][g] is Some);
            }
            assert(rows(*captures).take(m + 1).drop_last() =~= rows(*captures).take(m as int));
        }
        let chars = layout_row(text.as_str(), row, &mut strokes, count);
        let ghost table = rows(capture_group_chars);
        capture_group_chars.push(chars);
        assert(rows(capture_group_chars) =~= table.push(chars@));
        assert(rows(capture_group_chars) =~= capture_chars(text@, rows(*captures)).take(m + 1));
        m = m + 1;
    }
    assert(rows(*captures).take(m as int) =~= rows(*captures));
    assert(capture_chars(text@, rows(*captures)).take(m as int) =~= capture_chars(
        text@,
        rows(*captures),
    ));

    let mut section_indexes = blank_marks(len);
    let ghost blank = section_indexes@;
    paint_strokes(&mut section_indexes, &strokes);
    proof {
        lemma_painted_below(blank, strokes@, count as int);
    }

    let font_id = style.monospace;
    let mut formats: Vec<TextFormat> = Vec::new();
    let mut v: usize = 0;
    while v < capture_group_colors.len()
        invariant
            v <= capture_group_colors@.len(),
            formats@ == match_formats(capture_group_colors@, font_id).take(v as int),
        decreases capture_group_colors@.len() - v,
    {
        formats.push(TextFormat::background(font_id, capture_group_colors[v]));
        assert(formats@ =~= match_formats(capture_group_colors@, font_id).take(v + 1));
        v = v + 1;
    }
    assert(match_formats(capture_group_colors@, font_id).take(v as int) =~= match_formats(
        capture_group_colors@,
        font_id,
    ));

    MatchedTextLayout {
        job: TextLayoutJob::new(text, section_indexes, formats),
        capture_group_chars,
    }
}

/// Lays out a text with what the capture groups of the regex match in it.
pub fn layout_matched_text(
    text: String,
    regex: &Regex,
    style: &Style,
    capture_group_colors: &Vec<Color32>,
) -> (layout: MatchedTextLayout)
    requires
        text@.len() > 0 && regex_source(*regex).len() > 0 ==> colors_cover(
            regex_captures(*regex, text@),
            capture_group_colors@.len() as int,
        ),
    ensures
        layout.is_layout_of(
            text@,
            regex_source(*regex),
            regex_captures(*regex, text@),
            style.monospace,
            capture_group_colors@,
        ),
{
    if text.as_str().is_empty() {
        return MatchedTextLayout::default();
    }
    if regex_pattern(regex).is_empty() {
        let layout = MatchedTextLayout {
            job: layout_plain_text_job(text, style),
            capture_group_chars: Vec::new(),
        };
        assert(rows(layout.capture_group_chars) =~= Seq::empty());
        return layout;
    }
    let captures = find_captures(regex, text.as_str());
    layout_captures(text, &captures, style, capture_group_colors)
}

/// Lays out a text with what the capture groups of the regex match in it, or returns `None`
/// where a match does not hold an entry for the whole match and one for each colour behind
/// the first.
pub fn try_layout_matched_text(
    text: String,
    regex: &Regex,
    style: &Style,
    capture_group_colors: &Vec<Color32>,
) -> (r: Option<MatchedTextLayout>)
    ensures
        r is Some <==> (text@.len() > 0 && regex_source(*regex).len() > 0 ==> captures_match(
            regex_captures(*regex, text@),
            capture_group_colors@.len() as int,
        )),
        r matches Some(layout) ==> layout.is_layout_of(
            text@,
            regex_source(*regex),
            regex_captures(*regex, text@),
            style.monospace,
            capture_group_colors@,
        ),
{
    if text.as_str().is_empty() {
        return Some(MatchedTextLayout::default());
    }
    if regex_pattern(regex).is_empty() {
        let layout = MatchedTextLayout {
            job: layout_plain_text_job(text, style),
            capture_group_chars: Vec::new(),
        };
        assert(rows(layout.capture_group_chars) =~= Seq::empty());
        return Some(layout);
    }
    let captures = find_captures(regex, text.as_str());
    if !check_captures_match(&captures, capture_group_colors.len()) {
        return None;
    }
    proof {
        lemma_matching_captures_are_covered(rows(captures), capture_group_colors@.len() as int);
    }
    Some(layout_captures(text, &captures, style, capture_group_colors))
}

} // verus!
