use regex_visualiser::color::{FontId, TextFormat};
use regex_visualiser::sections::{paint_range, paint_strokes, sections_from_marks, LayoutSection};

fn formats(count: u32) -> Vec<TextFormat> {
    (0..count)
        .map(|i| TextFormat { font_id: FontId { id: i }, color: i, background: 100 + i })
        .collect()
}

#[test]
fn paint_range_overwrites_inside_only() {
    let mut marks = vec![1, 1, 1, 1, 1];
    paint_range(&mut marks, &(1..3), 7);
    assert_eq!(marks, vec![1, 7, 7, 1, 1]);
    paint_range(&mut marks, &(2..2), 9);
    assert_eq!(marks, vec![1, 7, 7, 1, 1]);
    paint_range(&mut marks, &(0..5), 0);
    assert_eq!(marks, vec![0, 0, 0, 0, 0]);
}

#[test]
fn later_stroke_wins() {
    let mut marks = vec![0; 8];
    paint_strokes(&mut marks, &vec![(1, 0..6), (2, 1..4), (3, 3..5)]);
    assert_eq!(marks, vec![1, 2, 2, 3, 3, 1, 0, 0]);
    let mut marks = vec![0; 4];
    paint_strokes(&mut marks, &vec![(2, 1..3), (1, 0..4)]);
    assert_eq!(marks, vec![1, 1, 1, 1]);
}

#[test]
fn sections_are_runs_of_equal_marks() {
    let formats = formats(4);
    let sections = sections_from_marks(&vec![1, 2, 2, 3, 3, 1, 0, 0], &formats);
    assert_eq!(
        sections,
        vec![
            LayoutSection { byte_range: 0..1, format: formats[1] },
            LayoutSection { byte_range: 1..3, format: formats[2] },
            LayoutSection { byte_range: 3..5, format: formats[3] },
            LayoutSection { byte_range: 5..6, format: formats[1] },
            LayoutSection { byte_range: 6..8, format: formats[0] },
        ]
    );
}

#[test]
fn sections_of_uniform_and_empty_marks() {
    let formats = formats(2);
    assert_eq!(
        sections_from_marks(&vec![1, 1, 1], &formats),
        vec![LayoutSection { byte_range: 0..3, format: formats[1] }]
    );
    assert_eq!(
        sections_from_marks(&vec![0], &formats),
        vec![LayoutSection { byte_range: 0..1, format: formats[0] }]
    );
    assert_eq!(sections_from_marks(&vec![], &formats), vec![]);
}

#[test]
fn sections_tile_the_marks() {
    let formats = formats(3);
    let marks = vec![0, 0, 1, 2, 2, 2, 0, 1, 1, 0];
    let sections = sections_from_marks(&marks, &formats);
    let mut next = 0;
    for section in &sections {
        assert_eq!(section.byte_range.start, next);
        assert!(section.byte_range.start < section.byte_range.end);
        next = section.byte_range.end;
    }
    assert_eq!(next, marks.len());
}
