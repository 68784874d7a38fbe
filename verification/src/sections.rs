use crate::color::TextFormat;
use std::ops::Range;
use vstd::prelude::*;

verus! {

/// A range of the bytes of a text, with the format that they are drawn in.
#[derive(Debug, PartialEq, Eq)]
pub struct LayoutSection {
    pub byte_range: Range<usize>,
    pub format: TextFormat,
}

impl Clone for LayoutSection {
    fn clone(&self) -> (r: Self)
        ensures
            r == *self,
    {
        LayoutSection {
            byte_range: self.byte_range.start..self.byte_range.end,
            format: self.format,
        }
    }
}

/// The marks after `value` was written over the bytes `start..end`: the marks inside the range
/// are overwritten, the others stay.
pub open spec fn paint(marks: Seq<usize>, start: int, end: int, value: usize) -> Seq<usize> {
    Seq::new(marks.len(), |i: int| if start <= i < end { value } else { marks[i] })
}

/// The marks after each of `strokes`, a value with the range of bytes that it is written over,
/// was painted over `marks` in turn.
pub open spec fn painted_over(marks: Seq<usize>, strokes: Seq<(usize, Range<usize>)>) -> Seq<
    usize,
>
    decreases strokes.len(),
{
    if strokes.len() == 0 {
        marks
    } else {
        let (value, range) = strokes.last();
        paint(
            painted_over(marks, strokes.drop_last()),
            range.start as int,
            range.end as int,
            value,
        )
    }
}

/// The marks of a text of `len` bytes after `strokes` were painted over it: each byte is
/// marked `0` at first.
pub open spec fn painted(len: nat, strokes: Seq<(usize, Range<usize>)>) -> Seq<usize> {
    painted_over(Seq::new(len, |i: int| 0usize), strokes)
}

/// The byte at `index` lies under the stroke.
pub open spec fn covers(stroke: (usize, Range<usize>), index: int) -> bool {
    stroke.1.start <= index < stroke.1.end
}

/// Each stroke lies inside a text of `len` bytes and its bounds are in order.
pub open spec fn strokes_fit(strokes: Seq<(usize, Range<usize>)>, len: int) -> bool {
    forall|k: int|
        0 <= k < strokes.len() ==> (#[trigger] strokes[k]).1.start <= strokes[k].1.end <= len
}

/// Each stroke writes a value below `bound`.
pub open spec fn strokes_below(strokes: Seq<(usize, Range<usize>)>, bound: int) -> bool {
    forall|k: int| 0 <= k < strokes.len() ==> (#[trigger] strokes[k]).0 < bound
}

/// Painting keeps the number of marks.
pub proof fn lemma_painted_len(marks: Seq<usize>, strokes: Seq<(usize, Range<usize>)>)
    ensures
        painted_over(marks, strokes).len() == marks.len(),
    decreases strokes.len(),
{
    if strokes.len() > 0 {
        lemma_painted_len(marks, strokes.drop_last());
    }
}

/// Where strokes overlap, the later one wins: a byte carries the value of the last stroke that
/// covers it.
pub proof fn lemma_last_stroke_wins(
    marks: Seq<usize>,
    strokes: Seq<(usize, Range<usize>)>,
    index: int,
    last: int,
)
    requires
        0 <= index < marks.len(),
        0 <= last < strokes.len(),
        covers(strokes[last], index),
        forall|k: int| last < k < strokes.len() ==> !covers(#[trigger] strokes[k], index),
    ensures
        painted_over(marks, strokes)[index] == strokes[last].0,
    decreases strokes.len(),
{
    lemma_painted_len(marks, strokes.drop_last());
    if last + 1 < strokes.len() {
        assert(!covers(strokes[strokes.len() - 1], index));
        lemma_last_stroke_wins(marks, strokes.drop_last(), index, last);
    }
}

/// A byte that no stroke covers keeps its mark.
pub proof fn lemma_uncovered_keeps_mark(
    marks: Seq<usize>,
    strokes: Seq<(usize, Range<usize>)>,
    index: int,
)
    requires
        0 <= index < marks.len(),
        forall|k: int| 0 <= k < strokes.len() ==> !covers(#[trigger] strokes[k], index),
    ensures
        painted_over(marks, strokes)[index] == marks[index],
    decreases strokes.len(),
{
    if strokes.len() > 0 {
        lemma_painted_len(marks, strokes.drop_last());
        assert(!covers(strokes[strokes.len() - 1], index));
        lemma_uncovered_keeps_mark(marks, strokes.drop_last(), index);
    }
}

/// Each mark is one of the marks that were there or a value of a stroke.
pub proof fn lemma_painted_below(
    marks: Seq<usize>,
    strokes: Seq<(usize, Range<usize>)>,
    bound: int,
)
    requires
        strokes_below(strokes, bound),
        forall|i: int| 0 <= i < marks.len() ==> marks[i] < bound,
    ensures
        forall|i: int|
            0 <= i < marks.len() ==> (#[trigger] painted_over(marks, strokes)[i]) < bound,
    decreases strokes.len(),
{
    lemma_painted_len(marks, strokes);
    if strokes.len() > 0 {
        let before = strokes.drop_last();
        assert forall|k: int| 0 <= k < before.len() implies (#[trigger] before[k]).0 < bound by {
            assert(before[k] == strokes[k]);
        }
        lemma_painted_below(marks, before, bound);
        lemma_painted_len(marks, before);
        assert(strokes.last() == strokes[strokes.len() - 1]);
    }
}

/// Writes `value` over the marks `range`.
pub fn paint_range(marks: &mut Vec<usize>, range: &Range<usize>, value: usize)
    requires
        range.start <= range.end <= old(marks)@.len(),
    ensures
        final(marks)@ == paint(old(marks)@, range.start as int, range.end as int, value),
{
    let mut i = range.start;
    while i < range.end
        invariant
            range.start <= i <= range.end <= marks@.len(),
            marks@.len() == old(marks)@.len(),
            forall|j: int|
                0 <= j < marks@.len() ==> marks@[j] == if range.start <= j < i {
                    value
                } else {
                    old(marks)@[j]
                },
        decreases range.end - i,
    {
        marks[i] = value;
        i = i + 1;
    }
    assert(marks@ =~= paint(old(marks)@, range.start as int, range.end as int, value));
}

/// Paints each of `strokes` over the marks, in turn.
pub fn paint_strokes(marks: &mut Vec<usize>, strokes: &Vec<(usize, Range<usize>)>)
    requires
        strokes_fit(strokes@, old(marks)@.len() as int),
    ensures
        final(marks)@ == painted_over(old(marks)@, strokes@),
        final(marks)@.len() == old(marks)@.len(),
{
    let mut k: usize = 0;
    while k < strokes.len()
        invariant
            k <= strokes@.len(),
            strokes_fit(strokes@, old(marks)@.len() as int),
            marks@.len() == old(marks)@.len(),
            marks@ == painted_over(old(marks)@, strokes@.take(k as int)),
        decreases strokes@.len() - k,
    {
        assert(strokes@.take(k + 1).drop_last() =~= strokes@.take(k as int));
        assert(strokes@.take(k + 1).last() == strokes@[k as int]);
        let value = strokes[k].0;
        paint_range(marks, &strokes[k].1, value);
        k = k + 1;
    }
    assert(strokes@.take(k as int) =~= strokes@);
}

/// A stretch of bytes that carry the same mark.
pub struct Run {
    pub start: int,
    pub end: int,
    pub value: usize,
}

/// The marks cut into their runs, from left to right: each run is a longest stretch of equal
/// marks.
pub open spec fn runs(marks: Seq<usize>) -> Seq<Run>
    decreases marks.len(),
{
    if marks.len() == 0 {
        Seq::empty()
    } else {
        let before = runs(marks.drop_last());
        if before.len() > 0 && before.last().value == marks.last() {
            before.drop_last().push(
                Run { start: before.last().start, end: marks.len() as int, value: marks.last() },
            )
        } else {
            before.push(
                Run { start: marks.len() - 1, end: marks.len() as int, value: marks.last() },
            )
        }
    }
}

/// The ranges lie side by side, from the first byte of a text of `len` bytes to its last: no
/// byte is left out and none lies in two of them. A range may be empty.
pub open spec fn tiles(ranges: Seq<Range<usize>>, len: int) -> bool {
    &&& ranges.len() == 0 ==> len == 0
    &&& ranges.len() > 0 ==> ranges[0].start == 0 && ranges.last().end == len
    &&& forall|k: int| 0 <= k < ranges.len() ==> (#[trigger] ranges[k]).start <= ranges[k].end
    &&& forall|k: int|
        0 <= k < ranges.len() - 1 ==> (#[trigger] ranges[k]).end == ranges[k + 1].start
}

/// The byte ranges of the sections, in order.
pub open spec fn byte_ranges(sections: Seq<LayoutSection>) -> Seq<Range<usize>> {
    Seq::new(sections.len(), |k: int| sections[k].byte_range)
}

/// The section that draws `run`, with the format that `formats` holds for its mark.
pub open spec fn section_of(run: Run, formats: Seq<TextFormat>) -> LayoutSection {
    LayoutSection {
        byte_range: Range { start: run.start as usize, end: run.end as usize },
        format: formats[run.value as int],
    }
}

/// One section for each run of the marks.
pub open spec fn sections_of(marks: Seq<usize>, formats: Seq<TextFormat>) -> Seq<LayoutSection> {
    Seq::new(runs(marks).len(), |k: int| section_of(runs(marks)[k], formats))
}

/// `cut` cuts the marks into runs: the runs are not empty, lie side by side from the first mark
/// to the last, hold equal marks each, and a run's mark differs from the next one's.
pub open spec fn is_run_cut(cut: Seq<Run>, marks: Seq<usize>) -> bool {
    &&& marks.len() == 0 <==> cut.len() == 0
    &&& cut.len() <= marks.len()
    &&& marks.len() > 0 ==> cut[0].start == 0 && cut.last().end == marks.len() && cut.last().value
        == marks.last()
    &&& forall|k: int| 0 <= k < cut.len() ==> 0 <= (#[trigger] cut[k]).start < cut[k].end <= marks.len()
    &&& forall|k: int|
        0 <= k < cut.len() - 1 ==> (#[trigger] cut[k]).end == cut[k + 1].start && cut[k].value
            != cut[k + 1].value
    &&& forall|k: int, i: int|
        0 <= k < cut.len() && cut[k].start <= i < cut[k].end ==> #[trigger] marks[i]
            == (#[trigger] cut[k]).value
}

/// A mark that equals the one before it makes the last run one longer.
proof fn lemma_run_cut_extend(before: Seq<Run>, marks: Seq<usize>, value: usize)
    requires
        is_run_cut(before, marks),
        before.len() > 0,
        before.last().value == value,
    ensures
        is_run_cut(
            before.drop_last().push(
                Run { start: before.last().start, end: (marks.len() + 1) as int, value },
            ),
            marks.push(value),
        ),
{
    let cut = before.drop_last().push(
        Run { start: before.last().start, end: (marks.len() + 1) as int, value },
    );
    let longer = marks.push(value);
    assert forall|k: int| 0 <= k < cut.len() implies 0 <= (#[trigger] cut[k]).start < cut[k].end
        <= longer.len() by {
        assert(0 <= before[k].start < before[k].end <= marks.len());
    }
    assert forall|k: int| 0 <= k < cut.len() - 1 implies (#[trigger] cut[k]).end == cut[k
        + 1].start && cut[k].value != cut[k + 1].value by {
        assert(before[k].end == before[k + 1].start && before[k].value != before[k + 1].value);
    }
    assert forall|k: int, i: int|
        0 <= k < cut.len() && cut[k].start <= i < cut[k].end implies #[trigger] longer[i] == (
    #[trigger] cut[k]).value by {
        if i < marks.len() {
            assert(marks[i] == before[k].value);
        }
    }
}

/// A mark that differs from the one before it begins a run.
proof fn lemma_run_cut_append(before: Seq<Run>, marks: Seq<usize>, value: usize)
    requires
        is_run_cut(before, marks),
        before.len() == 0 || before.last().value != value,
    ensures
        is_run_cut(
            before.push(Run { start: marks.len() as int, end: (marks.len() + 1) as int, value }),
            marks.push(value),
        ),
{
    let cut = before.push(Run { start: marks.len() as int, end: (marks.len() + 1) as int, value });
    let longer = marks.push(value);
    assert forall|k: int| 0 <= k < cut.len() implies 0 <= (#[trigger] cut[k]).start < cut[k].end
        <= longer.len() by {
        if k < before.len() {
            assert(0 <= before[k].start < before[k].end <= marks.len());
        }
    }
    assert forall|k: int| 0 <= k < cut.len() - 1 implies (#[trigger] cut[k]).end == cut[k
        + 1].start && cut[k].value != cut[k + 1].value by {
        if k < before.len() - 1 {
            assert(before[k].end == before[k + 1].start && before[k].value != before[k
                + 1].value);
        }
    }
    assert forall|k: int, i: int|
        0 <= k < cut.len() && cut[k].start <= i < cut[k].end implies #[trigger] longer[i] == (
    #[trigger] cut[k]).value by {
        if k < before.len() {
            assert(0 <= before[k].start < before[k].end <= marks.len());
            assert(marks[i] == before[k].value);
        }
    }
}

/// The runs of some marks cut them into runs.
pub proof fn lemma_runs(marks: Seq<usize>)
    ensures
        is_run_cut(runs(marks), marks),
    decreases marks.len(),
{
    if marks.len() > 0 {
        let shorter = marks.drop_last();
        let before = runs(shorter);
        lemma_runs(shorter);
        assert(shorter.push(marks.last()) =~= marks);
        if before.len() > 0 && before.last().value == marks.last() {
            lemma_run_cut_extend(before, shorter, marks.last());
        } else {
            lemma_run_cut_append(before, shorter, marks.last());
        }
    }
}

/// `is_run_cut`, to be taken apart fact by fact.
#[verifier::opaque]
spec fn cuts(cut: Seq<Run>, marks: Seq<usize>) -> bool {
    is_run_cut(cut, marks)
}

/// A cut begins with the first mark and ends with the last one, and has no more runs than
/// there are marks.
proof fn lemma_cuts_ends(cut: Seq<Run>, marks: Seq<usize>)
    requires
        cuts(cut, marks),
    ensures
        marks.len() == 0 <==> cut.len() == 0,
        cut.len() <= marks.len(),
        marks.len() > 0 ==> cut[0].start == 0 && cut[cut.len() - 1].end == marks.len() && cut[cut.len()
            - 1].value == marks[marks.len() - 1],
{
    reveal(cuts);
}

/// A run of a cut is not empty and lies inside the marks, and the next run begins where it
/// ends, with another mark.
proof fn lemma_cuts_run(cut: Seq<Run>, marks: Seq<usize>, k: int)
    requires
        cuts(cut, marks),
        0 <= k < cut.len(),
    ensures
        0 <= cut[k].start < cut[k].end <= marks.len(),
        k < cut.len() - 1 ==> cut[k].end == cut[k + 1].start && cut[k].value != cut[k + 1].value,
{
    reveal(cuts);
}

/// Each mark inside a run of a cut is the mark of the run.
proof fn lemma_cuts_mark(cut: Seq<Run>, marks: Seq<usize>, k: int, i: int)
    requires
        cuts(cut, marks),
        0 <= k < cut.len(),
        cut[k].start <= i < cut[k].end,
    ensures
        marks[i] == cut[k].value,
{
    reveal(cuts);
}

/// In a cut into runs, an earlier run ends where a later one begins, or before.
proof fn lemma_cuts_ordered(cut: Seq<Run>, marks: Seq<usize>, j: int, k: int)
    requires
        cuts(cut, marks),
        0 <= j < k < cut.len(),
    ensures
        cut[j].end <= cut[k].start,
    decreases k - j,
{
    lemma_cuts_run(cut, marks, k - 1);
    if j + 1 < k {
        lemma_cuts_ordered(cut, marks, j, k - 1);
    }
}

/// A run begins behind as many marks as there are runs before it, at least.
proof fn lemma_cuts_start(cut: Seq<Run>, marks: Seq<usize>, k: int)
    requires
        cuts(cut, marks),
        0 <= k < cut.len(),
    ensures
        k <= cut[k].start,
    decreases k,
{
    lemma_cuts_run(cut, marks, k);
    if k > 0 {
        lemma_cuts_start(cut, marks, k - 1);
        lemma_cuts_run(cut, marks, k - 1);
    }
}

/// A last run of two marks or more, cut short by its last mark, is the last run of the marks
/// before.
proof fn lemma_run_cut_shorten(cut: Seq<Run>, marks: Seq<usize>)
    requires
        cuts(cut, marks),
        marks.len() > 0,
        cut[cut.len() - 1].start < marks.len() - 1,
    ensures
        marks[marks.len() - 2] == marks[marks.len() - 1],
        is_run_cut(
            cut.drop_last().push(
                Run {
                    start: cut[cut.len() - 1].start,
                    end: marks.len() - 1,
                    value: marks[marks.len() - 1],
                },
            ),
            marks.drop_last(),
        ),
{
    let shorter = marks.drop_last();
    let n = cut.len() as int;
    lemma_cuts_ends(cut, marks);
    let last = cut[n - 1];
    let before = cut.drop_last().push(
        Run { start: last.start, end: marks.len() - 1, value: marks[marks.len() - 1] },
    );
    lemma_cuts_run(cut, marks, n - 1);
    lemma_cuts_mark(cut, marks, n - 1, marks.len() - 2);
    lemma_cuts_start(cut, marks, n - 1);
    lemma_cuts_run(cut, marks, 0);
    assert(before.len() == n);
    assert(before[0].start == 0);
    assert(before.last().end == shorter.len());
    assert(before.last().value == shorter.last());
    assert forall|k: int| 0 <= k < before.len() implies 0 <= (#[trigger] before[k]).start
        < before[k].end <= shorter.len() by {
        lemma_cuts_run(cut, marks, k);
        if k < n - 1 {
            lemma_cuts_ordered(cut, marks, k, n - 1);
        }
    }
    assert forall|k: int| 0 <= k < before.len() - 1 implies (#[trigger] before[k]).end
        == before[k + 1].start && before[k].value != before[k + 1].value by {
        lemma_cuts_run(cut, marks, k);
    }
    assert forall|k: int, i: int|
        0 <= k < before.len() && before[k].start <= i < before[k].end implies #[trigger] shorter[i]
        == (#[trigger] before[k]).value by {
        lemma_cuts_run(cut, marks, k);
        lemma_cuts_mark(cut, marks, k, i);
    }
}

/// Without a last run of one mark, the runs cut the marks before.
proof fn lemma_run_cut_drop(cut: Seq<Run>, marks: Seq<usize>)
    requires
        cuts(cut, marks),
        marks.len() > 0,
        cut[cut.len() - 1].start == marks.len() - 1,
    ensures
        is_run_cut(cut.drop_last(), marks.drop_last()),
        cut.len() > 1 ==> cut[cut.len() - 2].value != marks[marks.len() - 1],
{
    let shorter = marks.drop_last();
    let before = cut.drop_last();
    let n = cut.len() as int;
    lemma_cuts_ends(cut, marks);
    lemma_cuts_run(cut, marks, n - 1);
    assert forall|k: int| 0 <= k < before.len() implies 0 <= (#[trigger] before[k]).start
        < before[k].end <= shorter.len() by {
        lemma_cuts_run(cut, marks, k);
        lemma_cuts_ordered(cut, marks, k, n - 1);
    }
    assert forall|k: int| 0 <= k < before.len() - 1 implies (#[trigger] before[k]).end
        == before[k + 1].start && before[k].value != before[k + 1].value by {
        lemma_cuts_run(cut, marks, k);
    }
    assert forall|k: int, i: int|
        0 <= k < before.len() && before[k].start <= i < before[k].end implies #[trigger] shorter[i]
        == (#[trigger] before[k]).value by {
        lemma_cuts_run(cut, marks, k);
        lemma_cuts_ordered(cut, marks, k, n - 1);
        lemma_cuts_mark(cut, marks, k, i);
    }
    if n > 1 {
        lemma_cuts_run(cut, marks, n - 2);
        lemma_cuts_mark(cut, marks, n - 2, marks.len() - 2);
        lemma_cuts_run(cut, marks, 0);
    }
}

/// There is one way only to cut marks into runs: a cut into runs that are not empty, lie side
/// by side, hold equal marks each and differ in their mark from the next is the cut of `runs`.
pub proof fn lemma_run_cut_unique(cut: Seq<Run>, marks: Seq<usize>)
    requires
        is_run_cut(cut, marks),
    ensures
        cut == runs(marks),
    decreases marks.len(),
{
    if marks.len() == 0 {
        assert(cut =~= runs(marks));
    } else {
        let shorter = marks.drop_last();
        let n = cut.len() as int;
        let last = cut[n - 1];
        assert(cuts(cut, marks)) by {
            reveal(cuts);
        }
        lemma_cuts_ends(cut, marks);
        lemma_cuts_run(cut, marks, n - 1);
        if last.start < marks.len() - 1 {
            let before = cut.drop_last().push(
                Run { start: last.start, end: marks.len() - 1, value: marks[marks.len() - 1] },
            );
            lemma_run_cut_shorten(cut, marks);
            lemma_run_cut_unique(before, shorter);
            assert(before.drop_last() =~= cut.drop_last());
            assert(cut =~= cut.drop_last().push(last));
        } else {
            let before = cut.drop_last();
            lemma_run_cut_drop(cut, marks);
            lemma_run_cut_unique(before, shorter);
            assert(cut =~= before.push(last));
        }
    }
}

/// Looks for the run that holds `index` among the runs up to `upto`.
proof fn lemma_run_find(cut: Seq<Run>, marks: Seq<usize>, index: int, upto: int) -> (k: int)
    requires
        is_run_cut(cut, marks),
        0 <= upto < cut.len(),
        0 <= index < cut[upto].end,
    ensures
        0 <= k <= upto,
        cut[k].start <= index < cut[k].end,
    decreases upto,
{
    if cut[upto].start <= index {
        upto
    } else {
        assert(cut[upto - 1].end == cut[upto].start);
        lemma_run_find(cut, marks, index, upto - 1)
    }
}

/// Each byte lies in a section, which is drawn in the format of the byte's mark.
pub proof fn lemma_section_of_byte(marks: Seq<usize>, formats: Seq<TextFormat>, index: int) -> (k:
    int)
    requires
        0 <= index < marks.len() <= usize::MAX,
    ensures
        0 <= k < sections_of(marks, formats).len(),
        sections_of(marks, formats)[k].byte_range.start <= index < sections_of(
            marks,
            formats,
        )[k].byte_range.end,
        sections_of(marks, formats)[k].format == formats[marks[index] as int],
{
    lemma_runs(marks);
    let cut = runs(marks);
    let k = lemma_run_find(cut, marks, index, cut.len() - 1);
    assert(0 <= cut[k].start < cut[k].end <= marks.len());
    assert(marks[index] == cut[k].value);
    k
}

/// Where strokes overlap, the later one decides the format: the section that holds a byte is
/// drawn in the format of the last stroke that covers the byte.
pub proof fn lemma_last_stroke_decides_format(
    len: nat,
    strokes: Seq<(usize, Range<usize>)>,
    formats: Seq<TextFormat>,
    index: int,
    last: int,
) -> (k: int)
    requires
        0 <= index < len <= usize::MAX,
        0 <= last < strokes.len(),
        covers(strokes[last], index),
        forall|j: int| last < j < strokes.len() ==> !covers(#[trigger] strokes[j], index),
    ensures
        0 <= k < sections_of(painted(len, strokes), formats).len(),
        sections_of(painted(len, strokes), formats)[k].byte_range.start <= index < sections_of(
            painted(len, strokes),
            formats,
        )[k].byte_range.end,
        sections_of(painted(len, strokes), formats)[k].format == formats[strokes[last].0 as int],
{
    let blank = Seq::new(len, |i: int| 0usize);
    lemma_painted_len(blank, strokes);
    lemma_last_stroke_wins(blank, strokes, index, last);
    lemma_section_of_byte(painted(len, strokes), formats, index)
}

/// The sections that are made of some marks tile the text that the marks stand for.
pub proof fn lemma_sections_tile(marks: Seq<usize>, formats: Seq<TextFormat>)
    requires
        marks.len() <= usize::MAX,
    ensures
        tiles(byte_ranges(sections_of(marks, formats)), marks.len() as int),
{
    lemma_runs(marks);
    let ranges = byte_ranges(sections_of(marks, formats));
    assert forall|k: int| 0 <= k < ranges.len() - 1 implies (#[trigger] ranges[k]).end == ranges[k
        + 1].start by {
        assert(runs(marks)[k].end == runs(marks)[k + 1].start);
    }
}

/// Ranges that tile a text hold each of its bytes once: some range holds the byte, and no
/// other does.
pub proof fn lemma_tiles_cover(ranges: Seq<Range<usize>>, len: int, index: int) -> (k: int)
    requires
        tiles(ranges, len),
        0 <= index < len,
    ensures
        0 <= k < ranges.len(),
        ranges[k].start <= index < ranges[k].end,
        forall|j: int|
            0 <= j < ranges.len() && (#[trigger] ranges[j]).start <= index < ranges[j].end ==> j
                == k,
{
    lemma_tiles_ordered(ranges, len);
    let k = lemma_tiles_find(ranges, len, index, ranges.len() - 1);
    assert forall|j: int|
        0 <= j < ranges.len() && (#[trigger] ranges[j]).start <= index < ranges[j].end implies j
        == k by {
        if j < k {
            assert(ranges[j].end <= ranges[k].start);
        } else if k < j {
            assert(ranges[k].end <= ranges[j].start);
        }
    }
    k
}

/// Among ranges that tile a text, an earlier one ends before a later one begins.
proof fn lemma_tiles_ordered(ranges: Seq<Range<usize>>, len: int)
    requires
        tiles(ranges, len),
    ensures
        forall|j: int, k: int|
            0 <= j < k < ranges.len() ==> (#[trigger] ranges[j]).end <= (#[trigger] ranges[k]).start,
{
    assert forall|j: int, k: int| 0 <= j < k < ranges.len() implies (#[trigger] ranges[j]).end <= (
    #[trigger] ranges[k]).start by {
        lemma_tiles_between(ranges, len, j, k);
    }
}

/// Of two ranges that tile a text, the earlier one ends where the later one begins, or before.
proof fn lemma_tiles_between(ranges: Seq<Range<usize>>, len: int, j: int, k: int)
    requires
        tiles(ranges, len),
        0 <= j < k < ranges.len(),
    ensures
        ranges[j].end <= ranges[k].start,
    decreases k - j,
{
    if j + 1 < k {
        lemma_tiles_between(ranges, len, j, k - 1);
        assert(ranges[k - 1].end == ranges[k].start);
        assert(ranges[k - 1].start <= ranges[k - 1].end);
    } else {
        assert(ranges[j].end == ranges[j + 1].start);
    }
}

/// Looks for the range that holds `index` among the ranges up to `upto`.
proof fn lemma_tiles_find(ranges: Seq<Range<usize>>, len: int, index: int, upto: int) -> (k: int)
    requires
        tiles(ranges, len),
        0 <= upto < ranges.len(),
        0 <= index < ranges[upto].end,
    ensures
        0 <= k <= upto,
        ranges[k].start <= index < ranges[k].end,
    decreases upto,
{
    if ranges[upto].start <= index {
        upto
    } else {
        assert(upto > 0);
        assert(ranges[upto - 1].end == ranges[upto].start);
        lemma_tiles_find(ranges, len, index, upto - 1)
    }
}

/// Cuts the marks of a text into sections: one for each longest stretch of bytes with the same
/// mark, in the format that `formats` holds at that mark.
pub fn sections_from_marks(marks: &Vec<usize>, formats: &Vec<TextFormat>) -> (sections: Vec<
    LayoutSection,
>)
    requires
        forall|i: int| 0 <= i < marks@.len() ==> marks@[i] < formats@.len(),
    ensures
        sections@ == sections_of(marks@, formats@),
        tiles(byte_ranges(sections@), marks@.len() as int),
{
    let mut sections: Vec<LayoutSection> = Vec::new();
    if marks.len() == 0 {
        assert(sections@ =~= sections_of(marks@, formats@));
        return sections;
    }
    // Find consecutive runs of bytes with equal marks, and create a layout section for each run
    let mut head: usize = 0;
    let mut len: usize = 1;
    assert(marks@.take(1).drop_last() =~= Seq::<usize>::empty());
    assert(runs(marks@.take(1)) =~= seq![Run { start: 0, end: 1, value: marks@[0] }]) by {
        assert(runs(marks@.take(1).drop_last()).len() == 0);
    }
    while len < marks.len()
        invariant
            0 <= head < len <= marks@.len(),
            forall|i: int| 0 <= i < marks@.len() ==> marks@[i] < formats@.len(),
            runs(marks@.take(len as int)).len() == sections@.len() + 1,
            runs(marks@.take(len as int)).last() == (Run {
                start: head as int,
                end: len as int,
                value: marks@[head as int],
            }),
            marks@[head as int] == marks@[len - 1],
            forall|k: int|
                0 <= k < sections@.len() ==> #[trigger] sections@[k] == section_of(
                    runs(marks@.take(len as int))[k],
                    formats@,
                ),
        decreases marks@.len() - len,
    {
        let left = marks[len - 1];
        let right = marks[len];
        proof {
            let shorter = marks@.take(len as int);
            let longer = marks@.take(len + 1);
            assert(longer.drop_last() =~= shorter);
            assert(longer.last() == right);
            lemma_runs(shorter);
        }
        if left != right {
            sections.push(LayoutSection { byte_range: head..len, format: formats[left] });
            head = len;
        }
        len = len + 1;
    }
    let i = marks[head];
    sections.push(LayoutSection { byte_range: head..len, format: formats[i] });
    proof {
        assert(marks@.take(len as int) =~= marks@);
        assert(sections@ =~= sections_of(marks@, formats@));
        lemma_sections_tile(marks@, formats@);
    }
    sections
}

} // verus!
