use vstd::prelude::*;

verus! {

/// A colour as four bytes, `0xRRGGBBAA`.
pub type Color32 = u32;

pub const TRANSPARENT: Color32 = 0x0000_0000;

pub const WHITE: Color32 = 0xFFFF_FFFF;

pub const GRAY: Color32 = 0xA0A0_A0FF;

pub const DARK_GRAY: Color32 = 0x6060_60FF;

pub const RED: Color32 = 0xFF00_00FF;

pub const FG_BLUE: Color32 = 0x179F_FFFF;

pub const FG_YELLOW: Color32 = 0xFFD7_00FF;

pub const FG_PINK: Color32 = 0xDA70_D6FF;

pub const FOREGROUND_COLORS: [Color32; 3] = [FG_BLUE, FG_YELLOW, FG_PINK];

pub const BG_BLUE: Color32 = 0x264D_6DFF;

pub const BG_YELLOW: Color32 = 0x6C5E_20FF;

pub const BG_PINK: Color32 = 0x613F_61FF;

/// The colours that capture groups are highlighted with, in the order in which they are handed
/// out.
pub const BACKGROUND_COLORS: [Color32; 3] = [BG_BLUE, BG_YELLOW, BG_PINK];

pub const FG_RED: Color32 = RED;

pub const BG_RED: Color32 = 0x6829_2FFF;

/// Names a font of the renderer. The core only hands it on.
#[derive(Clone, Copy, PartialEq, Eq, Structural, Debug)]
pub struct FontId {
    pub id: u32,
}

/// What the core reads of the renderer's style: the font that code is set in.
#[derive(Clone, Copy, PartialEq, Eq, Structural, Debug)]
pub struct Style {
    pub monospace: FontId,
}

/// How a run of text is drawn.
#[derive(Clone, Copy, PartialEq, Eq, Structural, Debug)]
pub struct TextFormat {
    pub font_id: FontId,
    /// The colour of the glyphs.
    pub color: Color32,
    /// The colour behind the glyphs.
    pub background: Color32,
}

impl Default for TextFormat {
    /// The renderer's own font, gray on nothing.
    fn default() -> (r: Self)
        ensures
            r == TextFormat::plain(FontId { id: 0 }),
    {
        TextFormat { font_id: FontId { id: 0 }, color: GRAY, background: TRANSPARENT }
    }
}

impl TextFormat {
    /// Unhighlighted text in the given font.
    pub open spec fn plain(font_id: FontId) -> TextFormat {
        TextFormat { font_id, color: GRAY, background: TRANSPARENT }
    }

    /// Text of the given colour on no background.
    pub open spec fn colored(font_id: FontId, color: Color32) -> TextFormat {
        TextFormat { font_id, color, background: TRANSPARENT }
    }

    /// White text on the given background.
    pub open spec fn highlighted(font_id: FontId, background: Color32) -> TextFormat {
        TextFormat { font_id, color: WHITE, background }
    }

    /// Unhighlighted text in the style's code font.
    pub fn monospace(style: &Style) -> (r: Self)
        ensures
            r == TextFormat::plain(style.monospace),
    {
        TextFormat { font_id: style.monospace, color: GRAY, background: TRANSPARENT }
    }

    /// A format that only sets the colour of the glyphs.
    pub fn simple(font_id: FontId, color: Color32) -> (r: Self)
        ensures
            r == TextFormat::colored(font_id, color),
    {
        TextFormat { font_id, color, background: TRANSPARENT }
    }
}

pub trait FromBackgroundExt: Sized {
    spec fn with_background(font_id: FontId, background: Color32) -> Self;

    /// A parallel to `simple`, but for specifying the background color instead of the
    /// foreground color
    fn background(font_id: FontId, background: Color32) -> (r: Self)
        ensures
            r == Self::with_background(font_id, background),
    ;
}

impl FromBackgroundExt for TextFormat {
    open spec fn with_background(font_id: FontId, background: Color32) -> Self {
        TextFormat::highlighted(font_id, background)
    }

    fn background(font_id: FontId, background: Color32) -> (r: Self) {
        TextFormat { font_id, color: WHITE, background }
    }
}

/// The colour that group `index` (counted from 1) gets when the palette is handed out in
/// turn.
pub open spec fn palette_color(index: int) -> Color32 {
    BACKGROUND_COLORS@[(index - 1) % 3]
}

/// The colour of group `index`, where the group before it has the colour `preceding` and
/// `previous` holds the colours of an earlier assignment: a group that `previous` has a colour
/// for keeps it; a new group takes its turn of the palette, or the turn after it where that
/// would repeat the colour of the group before.
pub open spec fn next_color(preceding: Color32, index: int, previous: Seq<Color32>) -> Color32 {
    if index < previous.len() {
        previous[index]
    } else if palette_color(index) != preceding {
        palette_color(index)
    } else {
        palette_color(index + 1)
    }
}

/// The colours of `group_count` capture groups, at the indices 1 to `group_count`; index 0 is
/// transparent and stands for no group.
pub open spec fn assigned_colors(group_count: nat, previous: Seq<Color32>) -> Seq<Color32>
    decreases group_count,
{
    if group_count == 0 {
        seq![TRANSPARENT]
    } else {
        let before = assigned_colors((group_count - 1) as nat, previous);
        before.push(next_color(before.last(), group_count as int, previous))
    }
}

/// An assignment of `group_count` colours has one entry more, the transparent one in front, and
/// a shorter assignment is its prefix.
pub proof fn lemma_assigned_colors_shape(group_count: nat, previous: Seq<Color32>)
    ensures
        assigned_colors(group_count, previous).len() == group_count + 1,
        assigned_colors(group_count, previous)[0] == TRANSPARENT,
        forall|n: nat, i: int|
            n <= group_count && 0 <= i <= n ==> #[trigger] assigned_colors(n, previous)[i]
                == assigned_colors(group_count, previous)[i],
    decreases group_count,
{
    if group_count > 0 {
        let m = (group_count - 1) as nat;
        lemma_assigned_colors_shape(m, previous);
        assert forall|n: nat, i: int| n <= group_count && 0 <= i <= n implies #[trigger] assigned_colors(
            n,
            previous,
        )[i] == assigned_colors(group_count, previous)[i] by {
            if n < group_count {
                assert(assigned_colors(n, previous)[i] == assigned_colors(m, previous)[i]);
            }
        }
    }
}

/// Each colour is the one that `next_color` picks after the colour before it.
pub proof fn lemma_assigned_colors_step(group_count: nat, previous: Seq<Color32>, index: int)
    requires
        1 <= index <= group_count,
    ensures
        assigned_colors(group_count, previous)[index] == next_color(
            assigned_colors(group_count, previous)[index - 1],
            index,
            previous,
        ),
{
    lemma_assigned_colors_shape(group_count, previous);
    lemma_assigned_colors_shape(index as nat, previous);
    lemma_assigned_colors_shape((index - 1) as nat, previous);
    let upto = assigned_colors(index as nat, previous);
    let before = assigned_colors((index - 1) as nat, previous);
    assert(upto[index] == next_color(before.last(), index, previous));
    assert(before.last() == before[index - 1]);
    assert(assigned_colors((index - 1) as nat, previous)[index - 1] == assigned_colors(
        group_count,
        previous,
    )[index - 1]);
    assert(assigned_colors(index as nat, previous)[index] == assigned_colors(
        group_count,
        previous,
    )[index]);
}

/// Colours are stable across edits: a group whose index had a colour in the previous
/// assignment has that colour again.
pub proof fn lemma_colors_carry_over(group_count: nat, previous: Seq<Color32>, index: int)
    requires
        1 <= index <= group_count,
        index < previous.len(),
    ensures
        assigned_colors(group_count, previous)[index] == previous[index],
{
    lemma_assigned_colors_step(group_count, previous, index);
}

/// With nothing to carry over, the palette is handed out in turn.
pub proof fn lemma_colors_cycle(group_count: nat, index: int)
    requires
        1 <= index <= group_count,
    ensures
        assigned_colors(group_count, Seq::empty())[index] == palette_color(index),
    decreases index,
{
    let previous = Seq::<Color32>::empty();
    lemma_assigned_colors_step(group_count, previous, index);
    lemma_assigned_colors_shape(group_count, previous);
    if index > 1 {
        lemma_colors_cycle(group_count, index - 1);
        assert(palette_color(index) != palette_color(index - 1));
    }
}

/// A group that is free to choose does not repeat the colour of the group before it.
pub proof fn lemma_new_color_differs(group_count: nat, previous: Seq<Color32>, index: int)
    requires
        1 <= index <= group_count,
        previous.len() <= index,
    ensures
        assigned_colors(group_count, previous)[index] != assigned_colors(
            group_count,
            previous,
        )[index - 1],
{
    lemma_assigned_colors_step(group_count, previous, index);
    assert(palette_color(index + 1) != palette_color(index));
}

/// An assignment that is fed back as the previous one comes out unchanged.
pub proof fn lemma_colors_idempotent(group_count: nat, previous: Seq<Color32>)
    ensures
        assigned_colors(group_count, assigned_colors(group_count, previous)) == assigned_colors(
            group_count,
            previous,
        ),
{
    let first = assigned_colors(group_count, previous);
    let second = assigned_colors(group_count, first);
    lemma_assigned_colors_shape(group_count, previous);
    lemma_assigned_colors_shape(group_count, first);
    assert forall|i: int| 0 <= i < first.len() implies second[i] == first[i] by {
        if i >= 1 {
            lemma_colors_carry_over(group_count, first, i);
        }
    }
    assert(second =~= first);
}

/// Hands out a colour to each of `group_count` capture groups, keeping the colours of
/// `previous` where it has one for the group's index.
pub fn assign_colors(group_count: usize, previous: &Vec<Color32>) -> (colors: Vec<Color32>)
    ensures
        colors@ == assigned_colors(group_count as nat, previous@),
        colors@.len() == group_count + 1,
{
    let mut colors: Vec<Color32> = Vec::new();
    colors.push(TRANSPARENT);
    let mut preceding: Color32 = TRANSPARENT;
    while colors.len() <= group_count
        invariant
            1 <= colors@.len() <= group_count + 1,
            colors@ == assigned_colors((colors@.len() - 1) as nat, previous@),
            preceding == colors@.last(),
        decreases group_count + 1 - colors@.len(),
    {
        let index = colors.len();
        let turn = BACKGROUND_COLORS[(index - 1) % 3];
        let color = if index < previous.len() {
            previous[index]
        } else if turn != preceding {
            turn
        } else {
            BACKGROUND_COLORS[index % 3]
        };
        assert(color == next_color(preceding, index as int, previous@));
        colors.push(color);
        preceding = color;
    }
    colors
}

} // verus!
