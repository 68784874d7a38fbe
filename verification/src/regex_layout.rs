use crate::color::{
    assign_colors, assigned_colors, lemma_assigned_colors_shape, lemma_colors_carry_over,
    lemma_colors_idempotent, Color32, FontId, FromBackgroundExt, Style, TextFormat, GRAY,
};
use crate::glyph::{convert_byte_range_to_char_range, glyph_range, is_slice};
use crate::parsing::{ast_find_capture_groups, group_depths, group_ranges, AstNode};
use crate::sections::{
    byte_ranges, covers, lemma_last_stroke_decides_format, lemma_painted_below, paint_strokes, painted,
    painted_over, sections_from_marks, sections_of, tiles, LayoutSection,
};
use crate::text::{blank_marks, byte_len, LayoutJob};
use std::ops::Range;
use vstd::prelude::*;
use vstd::utf8::*;

verus! {

/// Information about how a regular expression should be rendered
#[derive(Debug, PartialEq, Eq)]
pub struct RegexLayout {
    /// The layout job describing how to render the regular expression text
    pub job: LayoutJob,
    /// A mapping from capture groups in the regex to ranges of glyphs in the regular expression
    /// text that correspond to those capture groups, each with the weight of the line that is
    /// drawn from the group: the shallower the group, the heavier the line
    pub capture_group_chars: Vec<(usize, Range<usize>)>,
    /// The colors used to highlight each capture group in the regex
    pub capture_group_colors: Vec<Color32>,
}

impl Default for RegexLayout {
    /// No text, no sections and no capture groups.
    fn default() -> (r: Self)
        ensures
            r.job.text@ == Seq::<char>::empty(),
            r.job.sections@ == Seq::<LayoutSection>::empty(),
            r.capture_group_chars@ == Seq::<(usize, Range<usize>)>::empty(),
            r.capture_group_colors@ == Seq::<Color32>::empty(),
            r.job.is_tiled(),
    {
        RegexLayout {
            job: LayoutJob::default(),
            capture_group_chars: Vec::new(),
            capture_group_colors: Vec::new(),
        }
    }
}

impl Clone for RegexLayout {
    fn clone(&self) -> (r: Self)
        ensures
            r.job.text@ == self.job.text@,
            r.job.sections@ == self.job.sections@,
            r.capture_group_chars@ == self.capture_group_chars@,
            r.capture_group_colors@ == self.capture_group_colors@,
    {
        let mut capture_group_chars: Vec<(usize, Range<usize>)> = Vec::new();
        let mut k: usize = 0;
        while k < self.capture_group_chars.len()
            invariant
                k <= self.capture_group_chars@.len(),
                capture_group_chars@ == self.capture_group_chars@.take(k as int),
            decreases self.capture_group_chars@.len() - k,
        {
            let entry = &self.capture_group_chars[k];
            capture_group_chars.push((entry.0, entry.1.start..entry.1.end));
            assert(capture_group_chars@ =~= self.capture_group_chars@.take(k + 1));
            k = k + 1;
        }
        assert(self.capture_group_chars@.take(k as int) =~= self.capture_group_chars@);
        let mut capture_group_colors: Vec<Color32> = Vec::new();
        let mut v: usize = 0;
        while v < self.capture_group_colors.len()
            invariant
                v <= self.capture_group_colors@.len(),
                capture_group_colors@ == self.capture_group_colors@.take(v as int),
            decreases self.capture_group_colors@.len() - v,
        {
            capture_group_colors.push(self.capture_group_colors[v]);
            assert(capture_group_colors@ =~= self.capture_group_colors@.take(v + 1));
            v = v + 1;
        }
        assert(self.capture_group_colors@.take(v as int) =~= self.capture_group_colors@);
        RegexLayout { job: self.job.clone(), capture_group_chars, capture_group_colors }
    }
}

/// The strokes that mark the bytes of each capture group with the index of the group: the
/// groups are counted from 1, and a later stroke is painted over an earlier one.
pub open spec fn group_strokes(ranges: Seq<Range<usize>>) -> Seq<(usize, Range<usize>)> {
    Seq::new(ranges.len(), |k: int| ((k + 1) as usize, ranges[k]))
}

/// The format of the bytes of each capture group, at the index of the group: white on the
/// colour of the group. The bytes of no group, at index 0, keep the colour of plain text.
pub open spec fn group_formats(colors: Seq<Color32>, font: FontId) -> Seq<TextFormat> {
    Seq::new(
        colors.len(),
        |v: int|
            if v == 0 {
                TextFormat { font_id: font, color: GRAY, background: colors[0] }
            } else {
                TextFormat::highlighted(font, colors[v])
            },
    )
}

/// The largest of the depths, or `0` where there is none.
pub open spec fn max_depth(depths: Seq<usize>) -> usize
    decreases depths.len(),
{
    if depths.len() == 0 {
        0
    } else if depths.last() > max_depth(depths.drop_last()) {
        depths.last()
    } else {
        max_depth(depths.drop_last())
    }
}

/// No depth is larger than the largest.
pub proof fn lemma_max_depth(depths: Seq<usize>, k: int)
    requires
        0 <= k < depths.len(),
    ensures
        depths[k] <= max_depth(depths),
    decreases depths.len(),
{
    if k < depths.len() - 1 {
        lemma_max_depth(depths.drop_last(), k);
    }
}

/// For each capture group the weight of its line, which is the larger the shallower the group
/// lies, and the glyphs that the group is laid out as.
pub open spec fn group_chars(
    pattern: Seq<char>,
    depths: Seq<usize>,
    ranges: Seq<Range<usize>>,
) -> Seq<(usize, Range<usize>)> {
    Seq::new(
        ranges.len(),
        |k: int|
            (
                (max_depth(depths) - depths[k]) as usize,
                glyph_range(pattern, ranges[k].start as int, ranges[k].end as int),
            ),
    )
}

/// Each range cuts a string out of the text.
pub open spec fn ranges_fit(ranges: Seq<Range<usize>>, text: Seq<char>) -> bool {
    forall|k: int|
        0 <= k < ranges.len() ==> is_slice(
            text,
            (#[trigger] ranges[k]).start as int,
            ranges[k].end as int,
        )
}

/// The colours of an earlier layout, where there is one.
pub open spec fn previous_colors(previous: Option<&RegexLayout>) -> Seq<Color32> {
    match previous {
        Some(layout) => layout.capture_group_colors@,
        None => Seq::empty(),
    }
}

/// Tells whether each range cuts a string out of the text.
pub fn check_ranges_fit(ranges: &Vec<Range<usize>>, text: &str) -> (b: bool)
    ensures
        b == ranges_fit(ranges@, text@),
{
    let len = byte_len(text);
    let mut k: usize = 0;
    while k < ranges.len()
        invariant
            k <= ranges@.len(),
            len == encode_utf8(text@).len(),
            ranges_fit(ranges@.take(k as int), text@),
        decreases ranges@.len() - k,
    {
        let start = ranges[k].start;
        let end = ranges[k].end;
        if start > end || end > len || !text.is_char_boundary(start) || !text.is_char_boundary(
            end,
        ) {
            assert(!is_slice(text@, ranges@[k as int].start as int, ranges@[k as int].end as int));
            return false;
        }
        assert forall|j: int| 0 <= j < k + 1 implies is_slice(
            text@,
            (#[trigger] ranges@.take(k + 1)[j]).start as int,
            ranges@.take(k + 1)[j].end as int,
        ) by {
            if j < k {
                assert(ranges@.take(k as int)[j] == ranges@[j]);
            }
        }
        k = k + 1;
    }
    assert(ranges@.take(k as int) =~= ranges@);
    true
}

impl RegexLayout {
    /// The layout is the one of a pattern whose capture groups lie at these depths and ranges
    /// of bytes. An empty pattern has the empty layout. Else each group gets a colour, index 0
    /// standing for no group; the bytes of the pattern are marked with the index of the last
    /// group that they lie in, and each run of equal marks is a section in the colour of its
    /// group; and the table of the groups holds their glyphs.
    pub open spec fn is_layout_of(
        &self,
        pattern: Seq<char>,
        depths: Seq<usize>,
        ranges: Seq<Range<usize>>,
        font: FontId,
        previous: Seq<Color32>,
    ) -> bool {
        if pattern.len() == 0 {
            &&& self.job.text@ == pattern
            &&& self.job.sections@ == Seq::<LayoutSection>::empty()
            &&& self.capture_group_chars@ == Seq::<(usize, Range<usize>)>::empty()
            &&& self.capture_group_colors@ == Seq::<Color32>::empty()
        } else {
            let colors = assigned_colors(ranges.len(), previous);
            let marks = painted(encode_utf8(pattern).len(), group_strokes(ranges));
            &&& self.job.text@ == pattern
            &&& self.job.sections@ == sections_of(marks, group_formats(colors, font))
            &&& self.capture_group_chars@ == group_chars(pattern, depths, ranges)
            &&& self.capture_group_colors@ == colors
        }
    }
}

/// Colours are stable across edits: a capture group whose index had a colour in the previous
/// layout has that colour again.
pub proof fn lemma_layout_keeps_colors(
    layout: RegexLayout,
    pattern: Seq<char>,
    depths: Seq<usize>,
    ranges: Seq<Range<usize>>,
    font: FontId,
    previous: Seq<Color32>,
    group: int,
)
    requires
        layout.is_layout_of(pattern, depths, ranges, font, previous),
        pattern.len() > 0,
        1 <= group <= ranges.len(),
        group < previous.len(),
    ensures
        layout.capture_group_colors@[group] == previous[group],
{
    lemma_colors_carry_over(ranges.len(), previous, group);
}

/// Laying out again with the colours of the layout itself changes nothing.
pub proof fn lemma_layout_is_stable(
    layout: RegexLayout,
    pattern: Seq<char>,
    depths: Seq<usize>,
    ranges: Seq<Range<usize>>,
    font: FontId,
    previous: Seq<Color32>,
)
    requires
        layout.is_layout_of(pattern, depths, ranges, font, previous),
    ensures
        layout.is_layout_of(pattern, depths, ranges, font, layout.capture_group_colors@),
{
    lemma_colors_idempotent(ranges.len(), previous);
}

/// Where capture groups overlap, the later one wins: a byte of the pattern that lies in the
/// capture group `group`, counted from 0, and in none behind it is drawn white on the colour
/// of that group.
pub proof fn lemma_later_group_wins(
    layout: RegexLayout,
    pattern: Seq<char>,
    depths: Seq<usize>,
    ranges: Seq<Range<usize>>,
    font: FontId,
    previous: Seq<Color32>,
    group: int,
    index: int,
) -> (k: int)
    requires
        layout.is_layout_of(pattern, depths, ranges, font, previous),
        0 <= group < ranges.len() < usize::MAX,
        0 <= index < encode_utf8(pattern).len() <= usize::MAX,
        ranges[group].start <= index < ranges[group].end,
        forall|later: int|
            group < later < ranges.len() ==> !((#[trigger] ranges[later]).start <= index
                < ranges[later].end),
    ensures
        0 <= k < layout.job.sections@.len(),
        layout.job.sections@[k].byte_range.start <= index < layout.job.sections@[k].byte_range.end,
        layout.job.sections@[k].format == TextFormat::highlighted(
            font,
            layout.capture_group_colors@[group + 1],
        ),
{
    let strokes = group_strokes(ranges);
    let colors = assigned_colors(ranges.len(), previous);
    lemma_assigned_colors_shape(ranges.len(), previous);
    assert(pattern.len() > 0) by {
        if pattern.len() == 0 {
            assert(pattern =~= Seq::<char>::empty());
        }
    }
    assert forall|j: int| group < j < strokes.len() implies !covers(
        #[trigger] strokes[j],
        index,
    ) by {
        assert(strokes[j].1 == ranges[j]);
    }
    lemma_last_stroke_decides_format(
        encode_utf8(pattern).len(),
        strokes,
        group_formats(colors, font),
        index,
        group,
    )
}

/// Marks the bytes of each range with its index, counted from 1, over the marks that are there,
/// and builds the sections of the marks: one for each run of equal marks, in the colour that `colors` holds for the mark.
pub fn build_layout_sections(
    section_indexes: &mut Vec<usize>,
    ranges: &Vec<Range<usize>>,
    font_id: FontId,
    colors: &Vec<Color32>,
) -> (sections: Vec<LayoutSection>)
    requires
        ranges@.len() < colors@.len(),
        forall|i: int|
            0 <= i < old(section_indexes)@.len() ==> old(section_indexes)@[i] < colors@.len(),
        forall|k: int|
            0 <= k < ranges@.len() ==> (#[trigger] ranges@[k]).start <= ranges@[k].end <= old(
                section_indexes,
            )@.len(),
    ensures
        final(section_indexes)@ == painted_over(old(section_indexes)@, group_strokes(ranges@)),
        sections@ == sections_of(final(section_indexes)@, group_formats(colors@, font_id)),
        tiles(byte_ranges(sections@), old(section_indexes)@.len() as int),
{
    let ghost blank = section_indexes@;
    // Mark each byte of the string with the index it corresponds to
    let mut strokes: Vec<(usize, Range<usize>)> = Vec::new();
    let mut k: usize = 0;
    while k < ranges.len()
        invariant
            k <= ranges@.len() < colors@.len(),
            strokes@ == group_strokes(ranges@.take(k as int)),
        decreases ranges@.len() - k,
    {
        strokes.push((k + 1, ranges[k].start..ranges[k].end));
        assert(strokes@ =~= group_strokes(ranges@.take(k + 1)));
        k = k + 1;
    }
    assert(ranges@.take(k as int) =~= ranges@);
    paint_strokes(section_indexes, &strokes);
    let mut formats: Vec<TextFormat> = Vec::new();
    let mut v: usize = 0;
    while v < colors.len()
        invariant
            v <= colors@.len(),
            formats@ == group_formats(colors@, font_id).take(v as int),
        decreases colors@.len() - v,
    {
        let format = if v == 0 {
            TextFormat { font_id, color: GRAY, background: colors[0] }
        } else {
            TextFormat::background(font_id, colors[v])
        };
        formats.push(format);
        assert(formats@ =~= group_formats(colors@, font_id).take(v + 1));
        v = v + 1;
    }
    assert(group_formats(colors@, font_id).take(v as int) =~= group_formats(colors@, font_id));
    proof {
        lemma_painted_below(blank, strokes@, colors@.len() as int);
    }
    sections_from_marks(section_indexes, &formats)
}

/// Lays out a pattern whose capture groups lie at the given depths and ranges of bytes.
pub fn layout_capture_groups(
    regex: String,
    depths: &Vec<usize>,
    ranges: &Vec<Range<usize>>,
    style: &Style,
    previous_layout: Option<&RegexLayout>,
) -> (layout: RegexLayout)
    requires
        regex@.len() > 0 ==> depths@.len() == ranges@.len() && ranges_fit(ranges@, regex@),
    ensures
        layout.is_layout_of(
            regex@,
            depths@,
            ranges@,
            style.monospace,
            previous_colors(previous_layout),
        ),
        layout.job.is_tiled(),
{
    if regex.as_str().is_empty() {
        assert(regex@ =~= Seq::<char>::empty());
        return RegexLayout::default();
    }
    let len = byte_len(regex.as_str());

    // Calculate the color that each capture group will have
    let capture_group_colors = match previous_layout {
        Some(previous) => assign_colors(ranges.len(), &previous.capture_group_colors),
        None => assign_colors(ranges.len(), &Vec::new()),
    };

    let mut section_indexes = blank_marks(len);
    let sections = build_layout_sections(
        &mut section_indexes,
        ranges,
        style.monospace,
        &capture_group_colors,
    );

    let mut deepest: usize = 0;
    let mut k: usize = 0;
    while k < depths.len()
        invariant
            k <= depths@.len(),
            deepest == max_depth(depths@.take(k as int)),
        decreases depths@.len() - k,
    {
        assert(depths@.take(k + 1).drop_last() =~= depths@.take(k as int));
        if depths[k] > deepest {
            deepest = depths[k];
        }
        k = k + 1;
    }
    assert(depths@.take(k as int) =~= depths@);

    // Convert the byte ranges into glyph ranges, to later be used to index into the glyphs of
    // the laid out text
    let mut capture_group_chars: Vec<(usize, Range<usize>)> = Vec::new();
    let mut k: usize = 0;
    while k < ranges.len()
        invariant
            k <= ranges@.len() == depths@.len(),
            ranges_fit(ranges@, regex@),
            deepest == max_depth(depths@),
            capture_group_chars@ == group_chars(regex@, depths@, ranges@).take(k as int),
        decreases ranges@.len() - k,
    {
        proof {
            lemma_max_depth(depths@, k as int);
        }
        let range = ranges[k].start..ranges[k].end;
        match convert_byte_range_to_char_range(range, regex.as_str()) {
            Some(glyphs) => {
                // Invert the depth value, as it will eventually be used as the thickness of
                // the connecting line, so shallower lines should be thicker than deeper lines
                // that may be rendered ontop of them
                capture_group_chars.push((deepest - depths[k], glyphs));
            },
            None => {
                assert(false);
            },
        }
        assert(capture_group_chars@ =~= group_chars(regex@, depths@, ranges@).take(k + 1));
        k = k + 1;
    }
    assert(group_chars(regex@, depths@, ranges@).take(k as int) =~= group_chars(
        regex@,
        depths@,
        ranges@,
    ));

    RegexLayout { job: LayoutJob { text: regex, sections }, capture_group_chars, capture_group_colors }
}

/// Lays out a pattern with the capture groups of its syntax tree.
pub fn regex_parse_ast(
    regex: String,
    ast: &AstNode,
    style: &Style,
    previous_layout: Option<&RegexLayout>,
) -> (layout: RegexLayout)
    requires
        regex@.len() > 0 ==> ast.walkable() && ranges_fit(group_ranges(ast.groups(0)), regex@),
    ensures
        layout.is_layout_of(
            regex@,
            group_depths(ast.groups(0)),
            group_ranges(ast.groups(0)),
            style.monospace,
            previous_colors(previous_layout),
        ),
        layout.job.is_tiled(),
{
    if regex.as_str().is_empty() {
        assert(regex@ =~= Seq::<char>::empty());
        return RegexLayout::default();
    }
    // Find the spans of each of the capture groups in the regular expression
    let (depths, ranges) = ast_find_capture_groups(ast);
    layout_capture_groups(regex, &depths, &ranges, style, previous_layout)
}

} // verus!
