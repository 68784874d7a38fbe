use crate::color::{Color32, FontId, FromBackgroundExt, Style, TextFormat, BG_RED, FG_RED};
use crate::parsing::{RegexError, Span};
use crate::regex_layout::RegexLayout;
use crate::sections::LayoutSection;
use crate::text::{byte_len, LayoutJob};
use std::ops::Range;
use vstd::prelude::*;
use vstd::utf8::*;

verus! {

/// The span that comes first of two: the one that starts first, or ends first where both
/// start at one place.
pub open spec fn first_span(a: Span, b: Span) -> Span {
    if a.start < b.start || (a.start == b.start && a.end <= b.end) {
        a
    } else {
        b
    }
}

/// The span that comes second of two.
pub open spec fn second_span(a: Span, b: Span) -> Span {
    if a.start < b.start || (a.start == b.start && a.end <= b.end) {
        b
    } else {
        a
    }
}

impl RegexError {
    /// The spans of the error lie inside a pattern of `len` bytes, one after the other.
    pub open spec fn fits(self, len: int) -> bool {
        match self {
            RegexError::Parse(error) => match error.auxiliary_span {
                None => error.span.start <= error.span.end <= len,
                Some(aux) => {
                    let first = first_span(error.span, aux);
                    let second = second_span(error.span, aux);
                    first.start <= first.end <= second.start <= second.end <= len
                },
            },
            RegexError::Compile(_) => true,
            RegexError::Internal => true,
        }
    }

    /// Tells whether the spans of the error lie inside the pattern, one after the other.
    pub fn fits_pattern(&self, regex: &str) -> (b: bool)
        ensures
            b == self.fits(encode_utf8(regex@).len() as int),
    {
        let len = byte_len(regex);
        match self {
            RegexError::Parse(error) => match error.auxiliary_span {
                None => error.span.start <= error.span.end && error.span.end <= len,
                Some(aux) => {
                    let span = error.span;
                    let in_order = span.start < aux.start || (span.start == aux.start && span.end
                        <= aux.end);
                    let first = if in_order { span } else { aux };
                    let second = if in_order { aux } else { span };
                    first.start <= first.end && first.end <= second.start && second.start
                        <= second.end && second.end <= len
                },
            },
            RegexError::Compile(_) => true,
            RegexError::Internal => true,
        }
    }
}

/// The section that draws the bytes `start..end` in `format`.
pub open spec fn section(start: int, end: int, format: TextFormat) -> LayoutSection {
    LayoutSection { byte_range: Range { start: start as usize, end: end as usize }, format }
}

/// The sections that a pattern of `len` bytes with an error is drawn in: red, with what the
/// error was found in highlighted. A pattern that could not be compiled is highlighted as a
/// whole.
pub open spec fn error_sections(len: int, font: FontId, error: RegexError) -> Seq<LayoutSection> {
    let plain = TextFormat::colored(font, FG_RED);
    let highlight = TextFormat::highlighted(font, BG_RED);
    match error {
        RegexError::Parse(error) => match error.auxiliary_span {
            None => seq![
                section(0, error.span.start as int, plain),
                section(error.span.start as int, error.span.end as int, highlight),
                section(error.span.end as int, len, plain),
            ],
            Some(aux) => {
                let first = first_span(error.span, aux);
                let second = second_span(error.span, aux);
                seq![
                    section(0, first.start as int, plain),
                    section(first.start as int, first.end as int, highlight),
                    section(first.end as int, second.start as int, plain),
                    section(second.start as int, second.end as int, highlight),
                    section(second.end as int, len, plain),
                ]
            },
        },
        RegexError::Compile(_) => seq![section(0, len, highlight)],
        RegexError::Internal => seq![section(0, len, highlight)],
    }
}

fn plaintext(start: usize, end: usize, font_id: FontId) -> (r: LayoutSection)
    ensures
        r == section(start as int, end as int, TextFormat::colored(font_id, FG_RED)),
{
    LayoutSection { byte_range: start..end, format: TextFormat::simple(font_id, FG_RED) }
}

fn highlight(start: usize, end: usize, font_id: FontId) -> (r: LayoutSection)
    ensures
        r == section(start as int, end as int, TextFormat::highlighted(font_id, BG_RED)),
{
    LayoutSection { byte_range: start..end, format: TextFormat::background(font_id, BG_RED) }
}

/// Returns information about how a malformed regular expression string should be rendered
pub fn layout_regex_err(regex: String, style: &Style, err: &RegexError) -> (layout: RegexLayout)
    requires
        err.fits(encode_utf8(regex@).len() as int),
    ensures
        layout.job.text@ == regex@,
        layout.job.sections@ == error_sections(
            encode_utf8(regex@).len() as int,
            style.monospace,
            *err,
        ),
        layout.job.is_tiled(),
        layout.capture_group_chars@ == Seq::<(usize, Range<usize>)>::empty(),
        layout.capture_group_colors@ == Seq::<Color32>::empty(),
{
    let len = byte_len(regex.as_str());
    let font_id = style.monospace;
    let mut sections: Vec<LayoutSection> = Vec::new();
    match err {
        RegexError::Parse(error) => match error.auxiliary_span {
            None => {
                sections.push(plaintext(0, error.span.start, font_id));
                sections.push(highlight(error.span.start, error.span.end, font_id));
                sections.push(plaintext(error.span.end, len, font_id));
            },
            Some(aux) => {
                let span = error.span;
                let in_order = span.start < aux.start || (span.start == aux.start && span.end
                    <= aux.end);
                let min = if in_order { span } else { aux };
                let max = if in_order { aux } else { span };
                sections.push(plaintext(0, min.start, font_id));
                sections.push(highlight(min.start, min.end, font_id));
                sections.push(plaintext(min.end, max.start, font_id));
                sections.push(highlight(max.start, max.end, font_id));
                sections.push(plaintext(max.end, len, font_id));
            },
        },
        RegexError::Compile(_) => {
            sections.push(highlight(0, len, font_id));
        },
        RegexError::Internal => {
            sections.push(highlight(0, len, font_id));
        },
    }
    assert(sections@ =~= error_sections(len as int, font_id, *err));
    RegexLayout {
        job: LayoutJob { text: regex, sections },
        capture_group_chars: Vec::new(),
        capture_group_colors: Vec::new(),
    }
}

} // verus!
