use regex_visualiser::color::{
    FontId, Style, TextFormat, BG_BLUE, BG_PINK, BG_RED, BG_YELLOW, DARK_GRAY, FG_RED, GRAY,
    TRANSPARENT, WHITE,
};
use regex_visualiser::parsing::{compile_regex, AstNode, CompileError, ParseError, RegexError, Span};
use regex_visualiser::sections::LayoutSection;
use regex_visualiser::matched_layout::{
    check_captures_match, layout_captures, layout_matched_text, try_layout_matched_text,
    MatchedTextLayout,
};
use regex_visualiser::error_layout::layout_regex_err;
use regex_visualiser::regex_layout::{
    build_layout_sections, check_ranges_fit, layout_capture_groups, regex_parse_ast, RegexLayout,
};
use regex_visualiser::text::{
    byte_len, char_len, layout_plain_text, layout_plain_text_job, LayoutJob, TextLayoutJob,
};

fn font_id() -> FontId {
    FontId { id: 7 }
}

fn style() -> Style {
    Style { monospace: font_id() }
}

fn plain() -> TextFormat {
    TextFormat { font_id: font_id(), color: GRAY, background: TRANSPARENT }
}

fn red() -> TextFormat {
    TextFormat { font_id: font_id(), color: FG_RED, background: TRANSPARENT }
}

fn highlight() -> TextFormat {
    TextFormat { font_id: font_id(), color: WHITE, background: BG_RED }
}

fn on(background: u32) -> TextFormat {
    TextFormat { font_id: font_id(), color: WHITE, background }
}

fn section(start: usize, end: usize, format: TextFormat) -> LayoutSection {
    LayoutSection { byte_range: start..end, format }
}

fn assert_tiled(job: &LayoutJob) {
    if job.sections.is_empty() {
        assert_eq!(job.text.len(), 0);
        return;
    }
    let mut next = 0;
    for section in &job.sections {
        assert_eq!(section.byte_range.start, next);
        assert!(section.byte_range.start <= section.byte_range.end);
        next = section.byte_range.end;
    }
    assert_eq!(next, job.text.len());
}

#[test]
fn helpers_measure_bytes() {
    assert_eq!(byte_len(""), 0);
    assert_eq!(byte_len("héllo"), 6);
    assert_eq!(char_len('a'), 1);
    assert_eq!(char_len('\u{7f}'), 1);
    assert_eq!(char_len('\u{80}'), 2);
    assert_eq!(char_len('é'), 2);
    assert_eq!(char_len('\u{7ff}'), 2);
    assert_eq!(char_len('\u{800}'), 3);
    assert_eq!(char_len('日'), 3);
    assert_eq!(char_len('\u{ffff}'), 3);
    assert_eq!(char_len('\u{10000}'), 4);
    assert_eq!(char_len('😀'), 4);
    for c in ['a', 'ß', '€', '𝄞'] {
        assert_eq!(char_len(c), c.len_utf8());
    }
}

#[test]
fn plain_text_is_one_section() {
    let job = layout_plain_text("héllo".to_string(), &style());
    assert_eq!(job.text, "héllo");
    assert_eq!(job.sections, vec![section(0, 6, plain())]);
    assert_tiled(&job);
    let job = layout_plain_text(String::new(), &style());
    assert_eq!(job.sections, vec![section(0, 0, plain())]);
    assert_tiled(&job);
}

#[test]
fn plain_text_job_marks_nothing() {
    let job = layout_plain_text_job("abc".to_string(), &style());
    assert_eq!(job.as_str(), "abc");
    assert_eq!(job.build_layout_sections(), vec![section(0, 3, plain())]);
    let job = job.convert_to_layout_job();
    assert_eq!(job, LayoutJob { text: "abc".to_string(), sections: vec![section(0, 3, plain())] });
}

#[test]
fn default_jobs() {
    let job = LayoutJob::default();
    assert_eq!(job, LayoutJob { text: String::new(), sections: vec![] });
    assert_eq!(job.clone(), job);
    let job = TextLayoutJob::default().convert_to_layout_job();
    assert_eq!(job.text, "");
    assert_eq!(job.sections, vec![section(0, 0, TextFormat::default())]);
    let layout = RegexLayout::default();
    assert_eq!(layout.job, LayoutJob::default());
    assert!(layout.capture_group_chars.is_empty());
    assert!(layout.capture_group_colors.is_empty());
    let layout = MatchedTextLayout::default();
    assert_eq!(layout.job.as_str(), "");
    assert!(layout.capture_group_chars.is_empty());
}

#[test]
fn text_job_sections_follow_the_mapping() {
    let formats = vec![plain(), on(BG_BLUE), on(BG_YELLOW)];
    let job = TextLayoutJob::new("abcdef".to_string(), vec![0, 1, 1, 2, 0, 0], formats);
    let job = job.convert_to_layout_job();
    assert_eq!(
        job.sections,
        vec![
            section(0, 1, plain()),
            section(1, 3, on(BG_BLUE)),
            section(3, 4, on(BG_YELLOW)),
            section(4, 6, plain()),
        ]
    );
    assert_tiled(&job);
}

#[test]
fn substring_keeps_the_marks_of_its_bytes() {
    let formats = vec![plain(), on(BG_BLUE)];
    let job = TextLayoutJob::new("aé\nbc".to_string(), vec![0, 1, 1, 1, 0, 0], formats);
    let part = job.substring(1..5);
    assert_eq!(part.as_str(), "é\nb");
    assert_eq!(
        part.build_layout_sections(),
        vec![section(0, 3, on(BG_BLUE)), section(3, 4, plain())]
    );
    let whole = job.substring(0..6);
    assert_eq!(whole.as_str(), "aé\nbc");
    let none = job.substring(3..3);
    assert_eq!(none.as_str(), "");
    assert_eq!(none.build_layout_sections(), vec![section(0, 0, plain())]);
}

#[test]
fn replace_spreads_the_mark_over_the_replacement() {
    let formats = vec![plain(), on(BG_BLUE), on(BG_YELLOW)];
    let mut job = TextLayoutJob::new("a\nb\n".to_string(), vec![0, 1, 0, 2], formats);
    job.replace(b'\n', "\\n");
    assert_eq!(job.as_str(), "a\\nb\\n");
    assert_eq!(
        job.build_layout_sections(),
        vec![
            section(0, 1, plain()),
            section(1, 3, on(BG_BLUE)),
            section(3, 4, plain()),
            section(4, 6, on(BG_YELLOW)),
        ]
    );
}

#[test]
fn replace_leaves_other_characters_alone() {
    let formats = vec![plain(), on(BG_BLUE)];
    let mut job = TextLayoutJob::new("héy".to_string(), vec![0, 1, 1, 0], formats);
    job.replace(b'x', "long");
    assert_eq!(job.as_str(), "héy");
    assert_eq!(
        job.build_layout_sections(),
        vec![section(0, 1, plain()), section(1, 3, on(BG_BLUE)), section(3, 4, plain())]
    );
    job.replace(b'y', "");
    assert_eq!(job.as_str(), "hé");
    assert_eq!(
        job.build_layout_sections(),
        vec![section(0, 1, plain()), section(1, 3, on(BG_BLUE))]
    );
    job.replace(b'h', "日");
    assert_eq!(job.as_str(), "日é");
    assert_eq!(
        job.build_layout_sections(),
        vec![section(0, 3, plain()), section(3, 5, on(BG_BLUE))]
    );
}

#[test]
fn replace_format_marks_each_occurrence() {
    let formats = vec![plain(), on(BG_BLUE)];
    let mut job = TextLayoutJob::new("a\nb\n\n".to_string(), vec![0, 0, 1, 1, 1], formats);
    let gray = TextFormat { font_id: font_id(), color: DARK_GRAY, background: TRANSPARENT };
    job.replace_format('\n', gray);
    assert_eq!(job.as_str(), "a\nb\n\n");
    assert_eq!(
        job.build_layout_sections(),
        vec![
            section(0, 1, plain()),
            section(1, 2, gray),
            section(2, 3, on(BG_BLUE)),
            section(3, 5, gray),
        ]
    );
}

#[test]
fn replace_format_marks_the_first_byte_of_a_wide_character() {
    let formats = vec![plain()];
    let mut job = TextLayoutJob::new("aéé".to_string(), vec![0, 0, 0, 0, 0], formats);
    job.replace_format('é', on(BG_PINK));
    assert_eq!(
        job.build_layout_sections(),
        vec![
            section(0, 1, plain()),
            section(1, 2, on(BG_PINK)),
            section(2, 3, plain()),
            section(3, 4, on(BG_PINK)),
            section(4, 5, plain()),
        ]
    );
}

#[test]
fn error_layout_without_auxiliary_span() {
    let error = RegexError::Parse(ParseError {
        span: Span { start: 2, end: 4 },
        auxiliary_span: None,
        message: "bad".to_string(),
    });
    assert!(error.fits_pattern("abcdef"));
    let layout = layout_regex_err("abcdef".to_string(), &style(), &error);
    assert_eq!(layout.job.text, "abcdef");
    assert_eq!(
        layout.job.sections,
        vec![section(0, 2, red()), section(2, 4, highlight()), section(4, 6, red())]
    );
    assert_tiled(&layout.job);
    assert!(layout.capture_group_chars.is_empty());
    assert!(layout.capture_group_colors.is_empty());
}

#[test]
fn error_layout_orders_the_two_spans() {
    let error = RegexError::Parse(ParseError {
        span: Span { start: 12, end: 13 },
        auxiliary_span: Some(Span { start: 4, end: 5 }),
        message: "duplicate".to_string(),
    });
    let pattern = "(?P<a>x)(?P<a>y)";
    assert!(error.fits_pattern(pattern));
    let layout = layout_regex_err(pattern.to_string(), &style(), &error);
    assert_eq!(
        layout.job.sections,
        vec![
            section(0, 4, red()),
            section(4, 5, highlight()),
            section(5, 12, red()),
            section(12, 13, highlight()),
            section(13, 16, red()),
        ]
    );
    assert_tiled(&layout.job);
    let swapped = RegexError::Parse(ParseError {
        span: Span { start: 4, end: 5 },
        auxiliary_span: Some(Span { start: 12, end: 13 }),
        message: "duplicate".to_string(),
    });
    assert_eq!(layout_regex_err(pattern.to_string(), &style(), &swapped).job, layout.job);
}

#[test]
fn error_layout_of_a_real_duplicate_name() {
    let pattern = "(?P<a>x)(?P<a>y)";
    let error = compile_regex(pattern).err().unwrap();
    assert!(error.fits_pattern(pattern));
    let layout = layout_regex_err(pattern.to_string(), &style(), &error);
    assert_eq!(layout.job.sections.len(), 5);
    assert_eq!(layout.job.sections[1], section(4, 5, highlight()));
    assert_eq!(layout.job.sections[3], section(12, 13, highlight()));
}

#[test]
fn error_layout_of_a_compile_error_highlights_everything() {
    let error = RegexError::Compile(CompileError { message: "too big".to_string() });
    assert!(error.fits_pattern("abc"));
    let layout = layout_regex_err("abc".to_string(), &style(), &error);
    assert_eq!(layout.job.sections, vec![section(0, 3, highlight())]);
    let layout = layout_regex_err("abc".to_string(), &style(), &RegexError::Internal);
    assert_eq!(layout.job.sections, vec![section(0, 3, highlight())]);
}

#[test]
fn error_spans_outside_the_pattern_do_not_fit() {
    let outside = RegexError::Parse(ParseError {
        span: Span { start: 2, end: 7 },
        auxiliary_span: None,
        message: String::new(),
    });
    assert!(!outside.fits_pattern("abcdef"));
    let backwards = RegexError::Parse(ParseError {
        span: Span { start: 3, end: 2 },
        auxiliary_span: None,
        message: String::new(),
    });
    assert!(!backwards.fits_pattern("abcdef"));
    let overlapping = RegexError::Parse(ParseError {
        span: Span { start: 1, end: 4 },
        auxiliary_span: Some(Span { start: 3, end: 5 }),
        message: String::new(),
    });
    assert!(!overlapping.fits_pattern("abcdef"));
    let touching = RegexError::Parse(ParseError {
        span: Span { start: 3, end: 5 },
        auxiliary_span: Some(Span { start: 1, end: 3 }),
        message: String::new(),
    });
    assert!(touching.fits_pattern("abcdef"));
}

#[test]
fn marks_and_sections_of_ranges() {
    let mut marks = vec![0; 6];
    let colors = vec![TRANSPARENT, BG_BLUE, BG_YELLOW];
    let sections = build_layout_sections(&mut marks, &vec![0..6, 1..4], font_id(), &colors);
    assert_eq!(marks, vec![1, 2, 2, 2, 1, 1]);
    assert_eq!(
        sections,
        vec![section(0, 1, on(BG_BLUE)), section(1, 4, on(BG_YELLOW)), section(4, 6, on(BG_BLUE))]
    );
}

#[test]
fn pattern_layout_from_depths_and_ranges() {
    let layout = layout_capture_groups(
        "x(a(b))é(c)".to_string(),
        &vec![1, 3, 1],
        &vec![1..7, 3..6, 9..12],
        &style(),
        None,
    );
    assert_eq!(layout.job.text, "x(a(b))é(c)");
    assert_eq!(
        layout.job.sections,
        vec![
            section(0, 1, plain()),
            section(1, 3, on(BG_BLUE)),
            section(3, 6, on(BG_YELLOW)),
            section(6, 7, on(BG_BLUE)),
            section(7, 9, plain()),
            section(9, 12, on(BG_PINK)),
        ]
    );
    assert_tiled(&layout.job);
    assert_eq!(layout.capture_group_colors, vec![TRANSPARENT, BG_BLUE, BG_YELLOW, BG_PINK]);
    assert_eq!(layout.capture_group_chars, vec![(2, 1..7), (0, 3..6), (2, 8..11)]);
}

#[test]
fn pattern_layout_counts_glyphs_not_bytes() {
    let (ast, _) = compile_regex("é\n(ü)").unwrap();
    let layout = regex_parse_ast("é\n(ü)".to_string(), &ast, &style(), None);
    assert_eq!(layout.capture_group_chars, vec![(0, 1..4)]);
    assert_eq!(layout.job.sections, vec![section(0, 3, plain()), section(3, 7, on(BG_BLUE))]);
}

#[test]
fn pattern_layout_of_a_single_group() {
    let (ast, _) = compile_regex("(abc)").unwrap();
    let layout = regex_parse_ast("(abc)".to_string(), &ast, &style(), None);
    assert_eq!(layout.job.sections, vec![section(0, 5, on(BG_BLUE))]);
    assert_eq!(layout.capture_group_chars, vec![(0, 0..5)]);
}

#[test]
fn pattern_layout_without_groups_is_plain() {
    let (ast, _) = compile_regex("abc").unwrap();
    let layout = regex_parse_ast("abc".to_string(), &ast, &style(), None);
    assert_eq!(layout.job.sections, vec![section(0, 3, plain())]);
    assert!(layout.capture_group_chars.is_empty());
    assert_eq!(layout.capture_group_colors, vec![TRANSPARENT]);
}

#[test]
fn pattern_layout_of_the_empty_pattern_is_empty() {
    let layout = regex_parse_ast(String::new(), &AstNode::Atom(Span { start: 0, end: 0 }), &style(), None);
    assert_eq!(layout, RegexLayout::default());
}

#[test]
fn pattern_layout_keeps_the_colors_of_the_previous_one() {
    let (ast, _) = compile_regex("(a)(b)").unwrap();
    let mut previous = regex_parse_ast("(a)(b)".to_string(), &ast, &style(), None);
    assert_eq!(previous.capture_group_colors, vec![TRANSPARENT, BG_BLUE, BG_YELLOW]);
    previous.capture_group_colors = vec![TRANSPARENT, BG_PINK, BG_BLUE];
    let (ast, _) = compile_regex("(a)x(b)(c)").unwrap();
    let layout = regex_parse_ast("(a)x(b)(c)".to_string(), &ast, &style(), Some(&previous));
    assert_eq!(layout.capture_group_colors, vec![TRANSPARENT, BG_PINK, BG_BLUE, BG_PINK]);
    assert_eq!(layout.job.sections[0], section(0, 3, on(BG_PINK)));
    let again = regex_parse_ast("(a)x(b)(c)".to_string(), &ast, &style(), Some(&layout));
    assert_eq!(again, layout);
}

#[test]
fn ranges_must_cut_strings_out_of_the_text() {
    assert!(check_ranges_fit(&vec![0..1, 1..3, 3..3], "aé"));
    assert!(check_ranges_fit(&vec![], ""));
    assert!(!check_ranges_fit(&vec![0..1, 1..2], "aé"));
    assert!(!check_ranges_fit(&vec![0..4], "aé"));
    assert!(!check_ranges_fit(&vec![2..1], "abc"));
}

#[test]
fn matched_text_layout() {
    let (_, regex) = compile_regex("(a)(b)?").unwrap();
    let colors = vec![TRANSPARENT, BG_BLUE, BG_YELLOW];
    let layout = layout_matched_text("ab-é-a".to_string(), &regex, &style(), &colors);
    assert_eq!(layout.job.as_str(), "ab-é-a");
    assert_eq!(
        layout.job.build_layout_sections(),
        vec![
            section(0, 1, on(BG_BLUE)),
            section(1, 2, on(BG_YELLOW)),
            section(2, 6, on(TRANSPARENT)),
            section(6, 7, on(BG_BLUE)),
        ]
    );
    assert_eq!(
        layout.capture_group_chars,
        vec![vec![Some(0..1), Some(1..2)], vec![Some(5..6), None]]
    );
}

#[test]
fn matched_text_layout_of_no_text_is_the_default() {
    let (_, regex) = compile_regex("(a)").unwrap();
    let layout = layout_matched_text(String::new(), &regex, &style(), &vec![]);
    assert_eq!(layout.job.as_str(), "");
    assert!(layout.capture_group_chars.is_empty());
    assert_eq!(layout.job.build_layout_sections(), vec![section(0, 0, TextFormat::default())]);
}

#[test]
fn matched_text_layout_of_the_empty_pattern_is_plain() {
    let (_, regex) = compile_regex("").unwrap();
    let layout = layout_matched_text("hello".to_string(), &regex, &style(), &vec![]);
    assert_eq!(layout.job.build_layout_sections(), vec![section(0, 5, plain())]);
    assert!(layout.capture_group_chars.is_empty());
}

#[test]
fn matched_text_layout_needs_a_color_for_each_group() {
    let (_, regex) = compile_regex("(a)(b)").unwrap();
    let colors = vec![TRANSPARENT, BG_BLUE];
    assert!(try_layout_matched_text("ab".to_string(), &regex, &style(), &colors).is_none());
    assert!(try_layout_matched_text("xy".to_string(), &regex, &style(), &colors).is_some());
    assert!(try_layout_matched_text("ab".to_string(), &regex, &style(), &vec![]).is_none());
    assert!(try_layout_matched_text(String::new(), &regex, &style(), &vec![]).is_some());
    let colors = vec![TRANSPARENT, BG_BLUE, BG_YELLOW];
    let layout = try_layout_matched_text("ab".to_string(), &regex, &style(), &colors).unwrap();
    assert_eq!(layout.capture_group_chars, vec![vec![Some(0..1), Some(1..2)]]);
    assert!(check_captures_match(&vec![vec![Some(0..2), None], vec![None, None]], 2));
    assert!(!check_captures_match(&vec![vec![Some(0..2), None], vec![None]], 2));
    assert!(!check_captures_match(&vec![], 0));
    assert!(check_captures_match(&vec![], 1));
}

#[test]
fn matched_text_layout_from_captures() {
    let captures = vec![vec![Some(0..3), Some(0..3), Some(1..2)], vec![Some(4..5), None, Some(4..5)]];
    let colors = vec![TRANSPARENT, BG_BLUE, BG_YELLOW];
    let layout = layout_captures("a\nb c".to_string(), &captures, &style(), &colors);
    assert_eq!(
        layout.job.build_layout_sections(),
        vec![
            section(0, 1, on(BG_BLUE)),
            section(1, 2, on(BG_YELLOW)),
            section(2, 3, on(BG_BLUE)),
            section(3, 4, on(TRANSPARENT)),
            section(4, 5, on(BG_YELLOW)),
        ]
    );
    assert_eq!(
        layout.capture_group_chars,
        vec![vec![Some(0..2), Some(1..1)], vec![None, Some(3..4)]]
    );
}
