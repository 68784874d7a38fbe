use regex_visualiser::color::{
    assign_colors, FontId, FromBackgroundExt, Style, TextFormat, BACKGROUND_COLORS, BG_BLUE,
    BG_PINK, BG_RED, BG_YELLOW, FG_BLUE, FG_PINK, FG_RED, FG_YELLOW, FOREGROUND_COLORS, GRAY,
    TRANSPARENT, WHITE,
};

#[test]
fn palette_constants() {
    assert_eq!(FOREGROUND_COLORS, [0x179FFFFF, 0xFFD700FF, 0xDA70D6FF]);
    assert_eq!(BACKGROUND_COLORS, [0x264D6DFF, 0x6C5E20FF, 0x613F61FF]);
    assert_eq!([FG_BLUE, FG_YELLOW, FG_PINK], FOREGROUND_COLORS);
    assert_eq!([BG_BLUE, BG_YELLOW, BG_PINK], BACKGROUND_COLORS);
    assert_eq!(FG_RED, 0xFF0000FF);
    assert_eq!(BG_RED, 0x68292FFF);
}

#[test]
fn colors_cycle_through_the_palette() {
    assert_eq!(assign_colors(0, &vec![]), vec![TRANSPARENT]);
    assert_eq!(
        assign_colors(5, &vec![]),
        vec![TRANSPARENT, BG_BLUE, BG_YELLOW, BG_PINK, BG_BLUE, BG_YELLOW]
    );
}

#[test]
fn colors_carry_over_from_the_previous_assignment() {
    let previous = vec![TRANSPARENT, BG_PINK, BG_BLUE];
    assert_eq!(
        assign_colors(4, &previous),
        vec![TRANSPARENT, BG_PINK, BG_BLUE, BG_PINK, BG_BLUE]
    );
    assert_eq!(assign_colors(1, &previous), vec![TRANSPARENT, BG_PINK]);
}

#[test]
fn new_color_does_not_repeat_the_one_before() {
    // The third group's turn of the palette is pink, which the second group already has
    let previous = vec![TRANSPARENT, BG_BLUE, BG_PINK];
    assert_eq!(assign_colors(3, &previous), vec![TRANSPARENT, BG_BLUE, BG_PINK, BG_BLUE]);
}

#[test]
fn colors_fed_back_stay_the_same() {
    let previous = vec![TRANSPARENT, BG_YELLOW];
    let first = assign_colors(6, &previous);
    assert_eq!(assign_colors(6, &first), first);
}

#[test]
fn text_formats() {
    let font_id = FontId { id: 3 };
    assert_eq!(
        TextFormat::default(),
        TextFormat { font_id: FontId { id: 0 }, color: GRAY, background: TRANSPARENT }
    );
    assert_eq!(
        TextFormat::simple(font_id, FG_RED),
        TextFormat { font_id, color: FG_RED, background: TRANSPARENT }
    );
    assert_eq!(
        TextFormat::background(font_id, BG_RED),
        TextFormat { font_id, color: WHITE, background: BG_RED }
    );
    assert_eq!(
        TextFormat::monospace(&Style { monospace: font_id }),
        TextFormat { font_id, color: GRAY, background: TRANSPARENT }
    );
}
