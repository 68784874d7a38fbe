use crate::color::Color32;
use crate::engine::rows;
use crate::matched_layout::MatchedTextLayout;
use crate::regex_layout::RegexLayout;
use std::ops::Range;
use vstd::prelude::*;

verus! {

/// The axis along which a connecting curve leaves and enters its end points.
#[derive(Clone, Copy, PartialEq, Eq, Structural, Debug)]
pub enum Orientation {
    Horizontal,
    Vertical,
}

/// The glyphs of one row of a laid out text that lie inside a range of glyphs of the text.
#[derive(Debug, PartialEq, Eq)]
pub struct RowSegment {
    /// The index of the row.
    pub row: usize,
    /// The glyphs, counted from the first glyph of the row.
    pub glyphs: Range<usize>,
}

/// The number of glyphs in the rows before row `row`.
pub open spec fn row_offset(row_lens: Seq<usize>, row: int) -> int
    decreases row,
{
    if row <= 0 {
        0
    } else {
        row_offset(row_lens, row - 1) + row_lens[row - 1]
    }
}

/// The range reaches into row `row`: it begins before the row ends, and what is left of it
/// where the row begins is not empty.
pub open spec fn reaches_row(row_lens: Seq<usize>, start: int, end: int, row: int) -> bool {
    let offset = row_offset(row_lens, row);
    &&& start < offset + row_lens[row]
    &&& start < end
    &&& offset < end
}

/// The part of the range that lies in row `row`, counted from the first glyph of the row.
pub open spec fn row_segment(row_lens: Seq<usize>, start: int, end: int, row: int) -> RowSegment {
    let offset = row_offset(row_lens, row);
    let from = if start > offset { start - offset } else { 0 };
    let to = if end < offset + row_lens[row] { end - offset } else { row_lens[row] as int };
    RowSegment { row: row as usize, glyphs: Range { start: from as usize, end: to as usize } }
}

/// The parts of the range in each of the first `upto` rows that it reaches into, from the top
/// row down.
pub open spec fn row_segments(row_lens: Seq<usize>, start: int, end: int, upto: int) -> Seq<
    RowSegment,
>
    decreases upto,
{
    if upto <= 0 {
        Seq::empty()
    } else if reaches_row(row_lens, start, end, upto - 1) {
        row_segments(row_lens, start, end, upto - 1).push(
            row_segment(row_lens, start, end, upto - 1),
        )
    } else {
        row_segments(row_lens, start, end, upto - 1)
    }
}

/// Offsets do not shrink from row to row.
pub proof fn lemma_row_offset_grows(row_lens: Seq<usize>, row: int, later: int)
    requires
        0 <= row <= later,
    ensures
        0 <= row_offset(row_lens, row) <= row_offset(row_lens, later),
    decreases later,
{
    if row < later {
        lemma_row_offset_grows(row_lens, row, later - 1);
    } else if row > 0 {
        lemma_row_offset_grows(row_lens, row - 1, later - 1);
    }
}

/// A part of a range lies inside its row, and is empty only in a row without glyphs.
pub proof fn lemma_row_segment_bounds(row_lens: Seq<usize>, start: int, end: int, row: int)
    requires
        0 <= row < row_lens.len(),
        0 <= start,
        reaches_row(row_lens, start, end, row),
    ensures
        row_segment(row_lens, start, end, row).glyphs.start <= row_segment(
            row_lens,
            start,
            end,
            row,
        ).glyphs.end <= row_lens[row],
        row_lens[row] > 0 ==> row_segment(row_lens, start, end, row).glyphs.start < row_segment(
            row_lens,
            start,
            end,
            row,
        ).glyphs.end,
{
    lemma_row_offset_grows(row_lens, 0, row);
}

/// Each part of a range names a row and lies inside of it.
pub proof fn lemma_row_segments_bounds(row_lens: Seq<usize>, start: int, end: int, upto: int)
    requires
        0 <= start,
        0 <= upto <= row_lens.len() <= usize::MAX,
    ensures
        forall|k: int|
            0 <= k < row_segments(row_lens, start, end, upto).len() ==> {
                let segment = #[trigger] row_segments(row_lens, start, end, upto)[k];
                &&& segment.row < upto
                &&& segment.glyphs.start <= segment.glyphs.end <= row_lens[segment.row as int]
            },
    decreases upto,
{
    if upto > 0 {
        let all = row_segments(row_lens, start, end, upto);
        let before = row_segments(row_lens, start, end, upto - 1);
        lemma_row_segments_bounds(row_lens, start, end, upto - 1);
        if reaches_row(row_lens, start, end, upto - 1) {
            lemma_row_segment_bounds(row_lens, start, end, upto - 1);
        }
        assert forall|k: int| 0 <= k < all.len() implies {
            let segment = #[trigger] all[k];
            &&& segment.row < upto
            &&& segment.glyphs.start <= segment.glyphs.end <= row_lens[segment.row as int]
        } by {
            if k < before.len() {
                assert(all[k] == before[k]);
            }
        }
    }
}

/// Splits a range of the glyphs of a text that is laid out in rows of the given lengths into
/// the parts that lie in each row. A range that begins behind the last glyph has no parts; one
/// that ends behind it is cut off there.
pub fn glyph_rows(row_lens: &Vec<usize>, range: &Range<usize>) -> (segments: Vec<RowSegment>)
    ensures
        segments@ == row_segments(
            row_lens@,
            range.start as int,
            range.end as int,
            row_lens@.len() as int,
        ),
        forall|k: int|
            0 <= k < segments@.len() ==> (#[trigger] segments@[k]).row < row_lens@.len()
                && segments@[k].glyphs.start <= segments@[k].glyphs.end
                <= row_lens@[segments@[k].row as int],
{
    let rows = row_lens.len();
    proof {
        lemma_row_segments_bounds(
            row_lens@,
            range.start as int,
            range.end as int,
            rows as int,
        );
    }
    let mut segments: Vec<RowSegment> = Vec::new();
    let mut offset: usize = 0;
    let mut row: usize = 0;
    while row < row_lens.len()
        invariant_except_break
            row <= row_lens@.len(),
            offset == row_offset(row_lens@, row as int),
            segments@ == row_segments(row_lens@, range.start as int, range.end as int, row as int),
        ensures
            segments@ == row_segments(
                row_lens@,
                range.start as int,
                range.end as int,
                row_lens@.len() as int,
            ),
        decreases row_lens@.len() - row,
    {
        let len = row_lens[row];
        let row_end = offset.checked_add(len);
        let begins_before_end = match row_end {
            Some(row_end) => range.start < row_end,
            None => true,
        };
        if begins_before_end && range.start < range.end && offset < range.end {
            // Split off the part of the range that corresponds to this row,
            // leaving the rest of the range that corresponds to the following rows
            let from = if range.start > offset { range.start - offset } else { 0 };
            let to = match row_end {
                Some(row_end) => if range.end < row_end { range.end - offset } else { len },
                None => range.end - offset,
            };
            segments.push(RowSegment { row, glyphs: from..to });
        }
        match row_end {
            Some(row_end) => {
                offset = row_end;
                row = row + 1;
            },
            None => {
                // The rows that follow begin behind every range
                proof {
                    assert(segments@ == row_segments(
                        row_lens@,
                        range.start as int,
                        range.end as int,
                        row + 1,
                    ));
                    lemma_rows_behind(
                        row_lens@,
                        range.start as int,
                        range.end as int,
                        row + 1,
                        row_lens@.len() as int,
                    );
                }
                break ;
            },
        }
    }
    segments
}

/// A range reaches into no row that begins at or behind its end.
proof fn lemma_rows_behind(row_lens: Seq<usize>, start: int, end: int, from: int, upto: int)
    requires
        0 <= from <= upto,
        end <= row_offset(row_lens, from),
    ensures
        row_segments(row_lens, start, end, upto) == row_segments(row_lens, start, end, from),
    decreases upto,
{
    if from < upto {
        lemma_row_offset_grows(row_lens, from, upto - 1);
        lemma_rows_behind(row_lens, start, end, from, upto - 1);
    }
}

/// A line that is to be drawn from a capture group of the pattern to something that the group
/// matched in the text.
#[derive(Debug, PartialEq, Eq)]
pub struct Connector {
    /// The glyphs of the capture group in the pattern.
    pub regex_glyphs: Range<usize>,
    /// The glyphs of what it matched in the text.
    pub input_glyphs: Range<usize>,
    /// The weight of the line: the shallower the group, the heavier.
    pub weight: usize,
    pub color: Color32,
}

/// The layouts go together: the pattern has a colour for each of its capture groups behind the
/// transparent one, and each match has an entry for each group.
pub open spec fn layouts_agree(
    groups: Seq<(usize, Range<usize>)>,
    colors: Seq<Color32>,
    matches: Seq<Seq<Option<Range<usize>>>>,
) -> bool {
    colors.len() > 1 ==> {
        &&& groups.len() == colors.len() - 1
        &&& forall|m: int| 0 <= m < matches.len() ==> (#[trigger] matches[m]).len() == groups.len()
    }
}

/// The lines of one match, for the capture groups before `upto`: one for each group that
/// took part in the match.
pub open spec fn row_connectors(
    groups: Seq<(usize, Range<usize>)>,
    colors: Seq<Color32>,
    row: Seq<Option<Range<usize>>>,
    upto: int,
) -> Seq<Connector>
    decreases upto,
{
    if upto <= 0 {
        Seq::empty()
    } else {
        match row[upto - 1] {
            Some(input_glyphs) => row_connectors(groups, colors, row, upto - 1).push(
                Connector {
                    regex_glyphs: groups[upto - 1].1,
                    input_glyphs,
                    weight: groups[upto - 1].0,
                    color: colors[upto],
                },
            ),
            None => row_connectors(groups, colors, row, upto - 1),
        }
    }
}

/// The lines of all matches, match by match. A pattern without capture groups has none.
pub open spec fn connectors(
    groups: Seq<(usize, Range<usize>)>,
    colors: Seq<Color32>,
    matches: Seq<Seq<Option<Range<usize>>>>,
) -> Seq<Connector>
    decreases matches.len(),
{
    if colors.len() <= 1 || matches.len() == 0 {
        Seq::empty()
    } else {
        connectors(groups, colors, matches.drop_last()) + row_connectors(
            groups,
            colors,
            matches.last(),
            matches.last().len() as int,
        )
    }
}

/// Tells whether the layouts of a pattern and of a text go together.
pub fn check_layouts_agree(regex_layout: &RegexLayout, input_layout: &MatchedTextLayout) -> (b:
    bool)
    ensures
        b == layouts_agree(
            regex_layout.capture_group_chars@,
            regex_layout.capture_group_colors@,
            rows(input_layout.capture_group_chars),
        ),
{
    let groups = regex_layout.capture_group_chars.len();
    let colors = regex_layout.capture_group_colors.len();
    if colors <= 1 {
        return true;
    }
    if groups != colors - 1 {
        return false;
    }
    let mut m: usize = 0;
    while m < input_layout.capture_group_chars.len()
        invariant
            m <= input_layout.capture_group_chars@.len(),
            groups == regex_layout.capture_group_chars@.len(),
            colors == regex_layout.capture_group_colors@.len(),
            colors > 1,
            groups == colors - 1,
            forall|n: int|
                0 <= n < m ==> (#[trigger] rows(input_layout.capture_group_chars)[n]).len()
                    == groups,
        decreases input_layout.capture_group_chars@.len() - m,
    {
        if input_layout.capture_group_chars[m].len() != groups {
            assert(rows(input_layout.capture_group_chars)[m as int].len() != groups);
            return false;
        }
        m = m + 1;
    }
    true
}

/// Lists the lines that connect each capture group of the pattern with what it matched in
/// the text.
pub fn connecting_lines(regex_layout: &RegexLayout, input_layout: &MatchedTextLayout) -> (lines:
    Vec<Connector>)
    requires
        layouts_agree(
            regex_layout.capture_group_chars@,
            regex_layout.capture_group_colors@,
            rows(input_layout.capture_group_chars),
        ),
    ensures
        lines@ == connectors(
            regex_layout.capture_group_chars@,
            regex_layout.capture_group_colors@,
            rows(input_layout.capture_group_chars),
        ),
{
    let mut lines: Vec<Connector> = Vec::new();
    let groups = &regex_layout.capture_group_chars;
    let colors = &regex_layout.capture_group_colors;
    let matches = &input_layout.capture_group_chars;
    // Each capture group in the regex is highlighted with the color at the corresponding
    // index, including the implicit capture group corresponding to the whole match that
    // always occupies index 0, so if there are 0 or 1 colors, the regex does not contain any
    // real capture groups, meaning there isn't anything to draw connecting lines between
    if colors.len() <= 1 {
        return lines;
    }
    let mut m: usize = 0;
    assert(rows(*matches).take(0) =~= Seq::empty());
    while m < matches.len()
        invariant
            m <= matches@.len(),
            colors@.len() > 1,
            groups@.len() == colors@.len() - 1,
            forall|n: int| 0 <= n < matches@.len() ==> (#[trigger] rows(*matches)[n]).len() == groups@.len(),
            lines@ == connectors(groups@, colors@, rows(*matches).take(m as int)),
        decreases matches@.len() - m,
    {
        let row = &matches[m];
        assert(row@ == rows(*matches)[m as int]);
        let mut g: usize = 0;
        let ghost before = lines@;
        while g < row.len()
            invariant
                g <= row@.len() == groups@.len(),
                groups@.len() == colors@.len() - 1,
                lines@ == before + row_connectors(groups@, colors@, row@, g as int),
            decreases row@.len() - g,
        {
            if let Some(input_glyphs) = &row[g] {
                let group = &groups[g];
                lines.push(
                    Connector {
                        regex_glyphs: group.1.start..group.1.end,
                        input_glyphs: input_glyphs.start..input_glyphs.end,
                        weight: group.0,
                        color: colors[g + 1],
                    },
                );
            }
            assert(lines@ =~= before + row_connectors(groups@, colors@, row@, g + 1));
            g = g + 1;
        }
        assert(rows(*matches).take(m + 1).drop_last() =~= rows(*matches).take(m as int));
        assert(rows(*matches).take(m + 1).last() == row@);
        m = m + 1;
    }
    assert(rows(*matches).take(m as int) =~= rows(*matches));
    lines
}

} // verus!
