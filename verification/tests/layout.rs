use regex_visualiser::color::{FontId, Style, BG_BLUE, BG_YELLOW, TRANSPARENT};
use regex_visualiser::layout::{
    check_layouts_agree, connecting_lines, glyph_rows, Connector, Orientation, RowSegment,
};
use regex_visualiser::parsing::compile_regex;
use regex_visualiser::matched_layout::{layout_matched_text, MatchedTextLayout};
use regex_visualiser::regex_layout::{regex_parse_ast, RegexLayout};
use std::ops::Range;

fn segment(row: usize, glyphs: Range<usize>) -> RowSegment {
    RowSegment { row, glyphs }
}

/// The rows and glyphs that a range covers, found row by row as a renderer walks them.
fn walked(row_lens: &[usize], range: &Range<usize>) -> Vec<RowSegment> {
    let mut offset = 0;
    let mut first = None;
    for (row, len) in row_lens.iter().enumerate() {
        if range.start >= offset + len {
            offset += len;
        } else {
            first = Some(row);
            break;
        }
    }
    let mut segments = Vec::new();
    let first = match first {
        Some(first) => first,
        None => return segments,
    };
    let mut tail_start = range.start;
    for row in first..row_lens.len() {
        if tail_start >= range.end {
            break;
        }
        let row_end = offset + row_lens[row];
        segments.push(segment(row, tail_start - offset..range.end.min(row_end) - offset));
        tail_start = row_end;
        offset = row_end;
    }
    segments
}

#[test]
fn orientations() {
    assert_ne!(Orientation::Horizontal, Orientation::Vertical);
    assert_ne!(regex_visualiser::shape::Orientation::Horizontal, regex_visualiser::shape::Orientation::Vertical);
}

#[test]
fn range_inside_one_row() {
    assert_eq!(glyph_rows(&vec![5, 5], &(1..3)), vec![segment(0, 1..3)]);
    assert_eq!(glyph_rows(&vec![5, 5], &(6..10)), vec![segment(1, 1..5)]);
}

#[test]
fn range_over_several_rows() {
    assert_eq!(
        glyph_rows(&vec![3, 4, 5], &(2..9)),
        vec![segment(0, 2..3), segment(1, 0..4), segment(2, 0..2)]
    );
    assert_eq!(glyph_rows(&vec![3, 0, 2], &(1..5)), vec![segment(0, 1..3), segment(1, 0..0), segment(2, 0..2)]);
}

#[test]
fn range_past_the_end_is_cut_off() {
    assert_eq!(glyph_rows(&vec![3, 4], &(5..20)), vec![segment(1, 2..4)]);
    assert_eq!(glyph_rows(&vec![3, 4], &(7..9)), vec![]);
    assert_eq!(glyph_rows(&vec![], &(0..1)), vec![]);
}

#[test]
fn empty_range_has_no_rows() {
    assert_eq!(glyph_rows(&vec![3, 4], &(2..2)), vec![]);
    assert_eq!(glyph_rows(&vec![3, 4], &(4..1)), vec![]);
}

#[test]
fn huge_rows_do_not_overflow() {
    assert_eq!(
        glyph_rows(&vec![usize::MAX, 5, 5], &(usize::MAX - 1..usize::MAX)),
        vec![segment(0, usize::MAX - 1..usize::MAX)]
    );
    assert_eq!(glyph_rows(&vec![10, usize::MAX, 5], &(5..12)), vec![segment(0, 5..10), segment(1, 0..2)]);
}

#[test]
fn glyph_rows_agree_with_walking_the_rows() {
    let layouts: [&[usize]; 5] = [&[], &[4], &[2, 3, 1], &[0, 3, 0, 0, 2], &[1, 1, 1, 1]];
    for row_lens in layouts {
        for start in 0..8 {
            for end in 0..8 {
                let range = start..end;
                assert_eq!(glyph_rows(&row_lens.to_vec(), &range), walked(row_lens, &range));
            }
        }
    }
}

#[test]
fn lines_connect_groups_with_their_matches() {
    let style = Style { monospace: FontId { id: 0 } };
    let (ast, regex) = compile_regex("(a(b))?c").unwrap();
    let regex_layout = regex_parse_ast("(a(b))?c".to_string(), &ast, &style, None);
    let input_layout = layout_matched_text("abc c".to_string(), &regex, &style, &regex_layout.capture_group_colors);
    assert!(check_layouts_agree(&regex_layout, &input_layout));
    assert_eq!(
        connecting_lines(&regex_layout, &input_layout),
        vec![
            Connector { regex_glyphs: 0..6, input_glyphs: 0..2, weight: 2, color: BG_BLUE },
            Connector { regex_glyphs: 2..5, input_glyphs: 1..2, weight: 0, color: BG_YELLOW },
        ]
    );
}

#[test]
fn no_groups_no_lines() {
    let style = Style { monospace: FontId { id: 0 } };
    let (ast, regex) = compile_regex("abc").unwrap();
    let regex_layout = regex_parse_ast("abc".to_string(), &ast, &style, None);
    let input_layout = layout_matched_text("abcabc".to_string(), &regex, &style, &regex_layout.capture_group_colors);
    assert!(check_layouts_agree(&regex_layout, &input_layout));
    assert_eq!(connecting_lines(&regex_layout, &input_layout), vec![]);
    assert!(check_layouts_agree(&RegexLayout::default(), &MatchedTextLayout::default()));
    assert_eq!(connecting_lines(&RegexLayout::default(), &MatchedTextLayout::default()), vec![]);
}

#[test]
fn layouts_of_different_patterns_do_not_agree() {
    let style = Style { monospace: FontId { id: 0 } };
    let (ast, _) = compile_regex("(a)(b)").unwrap();
    let regex_layout = regex_parse_ast("(a)(b)".to_string(), &ast, &style, None);
    let (_, regex) = compile_regex("(a)").unwrap();
    let input_layout = layout_matched_text("a".to_string(), &regex, &style, &vec![TRANSPARENT, BG_BLUE]);
    assert!(!check_layouts_agree(&regex_layout, &input_layout));
    let mut broken = regex_parse_ast("(a)(b)".to_string(), &ast, &style, None);
    broken.capture_group_chars.pop();
    assert!(!check_layouts_agree(&broken, &MatchedTextLayout::default()));
}
