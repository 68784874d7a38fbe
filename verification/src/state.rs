use crate::color::{
    assigned_colors, lemma_assigned_colors_shape, lemma_colors_idempotent, Color32, FontId, Style,
};
use crate::engine::{
    compile_error_of, compiled, find_captures, group_names, names, parse_error_of, parsed,
    regex_captures, regex_group_names, regex_replacement, regex_source, replace_all, rows, tree_of,
};
use crate::glyph::{is_slice, lemma_slice_valid, slice};
use crate::layout::layouts_agree;
use crate::loop_vec::LoopVec;
use crate::parsing::{
    compile_regex, group_depths, group_ranges, try_find_capture_groups, AstNode, RegexError,
};
use crate::matched_layout::{captures_match, try_layout_matched_text, MatchedTextLayout};
use crate::regex_layout::{check_ranges_fit, layout_capture_groups, ranges_fit, RegexLayout};
use regex::Regex;
use std::ops::Range;
use vstd::prelude::*;
use vstd::string::StringExecFns;
use vstd::string::StringSliceAdditionalSpecFns;
use vstd::utf8::*;

verus! {

/// Which panel of the tab bar is open, if any.
#[derive(Clone, Copy, PartialEq, Eq, Structural, Debug)]
pub enum TabBarState {
    Collapsed,
    SyntaxGuide,
    Information,
}

impl Default for TabBarState {
    fn default() -> (r: Self)
        ensures
            r == TabBarState::Collapsed,
    {
        TabBarState::Collapsed
    }
}

impl TabBarState {
    /// The state after `variant`'s button was pressed in state `self`: pressing the button of
    /// the open panel closes it, any other button opens its panel.
    pub open spec fn toggled(self, variant: Self) -> Self {
        if self == variant {
            TabBarState::Collapsed
        } else {
            variant
        }
    }

    pub fn toggle(&mut self, variant: Self)
        ensures
            *final(self) == old(self).toggled(variant),
    {
        if *self == variant {
            *self = TabBarState::Collapsed;
        } else {
            *self = variant;
        }
    }
}

/// What the four text fields and the panels of the window hold.
pub struct WidgetState {
    pub regex_text: String,
    pub input_text: String,
    pub replace_text: String,
    pub result_text: String,
    pub tab_bar_state: TabBarState,
    pub about_visible: bool,
}

impl Default for WidgetState {
    /// Empty fields, but for a replacement that hands each match back unchanged.
    fn default() -> (r: Self)
        ensures
            r.regex_text@ == Seq::<char>::empty(),
            r.input_text@ == Seq::<char>::empty(),
            r.replace_text@ == "$0"@,
            r.result_text@ == Seq::<char>::empty(),
            r.tab_bar_state == TabBarState::Collapsed,
            !r.about_visible,
    {
        Self {
            regex_text: String::new(),
            input_text: String::new(),
            replace_text: String::from_str("$0"),
            result_text: String::new(),
            tab_bar_state: TabBarState::Collapsed,
            about_visible: false,
        }
    }
}

/// What took part in one match, up to the entry `upto`: the bytes that each capture group
/// matched and the name of the group, for the whole match first and then for each group that
/// matched anything.
pub open spec fn named_row(
    row: Seq<Option<Range<usize>>>,
    group_names: Seq<Option<Seq<char>>>,
    upto: int,
) -> Seq<(Range<usize>, Option<Seq<char>>)>
    decreases upto,
{
    if upto <= 0 {
        Seq::empty()
    } else {
        match row[upto - 1] {
            Some(range) => named_row(row, group_names, upto - 1).push(
                (range, group_names[upto - 1]),
            ),
            None => named_row(row, group_names, upto - 1),
        }
    }
}

/// The number of entries of a match that have a name to go with them.
pub open spec fn named_len(row: Seq<Option<Range<usize>>>, group_names: Seq<Option<Seq<char>>>) -> int {
    if row.len() <= group_names.len() {
        row.len() as int
    } else {
        group_names.len() as int
    }
}

/// What took part in each match.
pub open spec fn named_rows(
    captures: Seq<Seq<Option<Range<usize>>>>,
    group_names: Seq<Option<Seq<char>>>,
) -> Seq<Seq<(Range<usize>, Option<Seq<char>>)>> {
    Seq::new(
        captures.len(),
        |m: int| named_row(captures[m], group_names, named_len(captures[m], group_names)),
    )
}

/// A range with the name that goes with it.
pub open spec fn entry_view(entry: (Range<usize>, Option<String>)) -> (
    Range<usize>,
    Option<Seq<char>>,
) {
    (
        entry.0,
        match entry.1 {
            Some(name) => Some(name@),
            None => None,
        },
    )
}

/// The entries of one match.
pub open spec fn entries_view(entries: Seq<(Range<usize>, Option<String>)>) -> Seq<
    (Range<usize>, Option<Seq<char>>),
> {
    Seq::new(entries.len(), |g: int| entry_view(entries[g]))
}

/// Steps through the matches of a text and, within a match, through what took part in it.
pub struct MatchesSelector {
    pub text: String,
    pub matches: LoopVec<LoopVec<(Range<usize>, Option<String>)>>,
}

impl Default for MatchesSelector {
    /// No text and no matches.
    fn default() -> (r: Self)
        ensures
            r.text@ == Seq::<char>::empty(),
            r.rows() == Seq::<Seq<(Range<usize>, Option<Seq<char>>)>>::empty(),
    {
        let r = MatchesSelector { text: String::new(), matches: LoopVec::new() };
        assert(r.rows() =~= Seq::empty());
        r
    }
}

impl MatchesSelector {
    /// What took part in each match: the bytes that were matched, with the name of the group.
    pub open spec fn rows(&self) -> Seq<Seq<(Range<usize>, Option<Seq<char>>)>> {
        Seq::new(self.matches@.len(), |m: int| entries_view(self.matches@[m]@))
    }

    /// The bytes that the current entry of the current match holds.
    pub open spec fn spec_current_range(&self) -> Option<Range<usize>> {
        if self.matches@.len() == 0 {
            None
        } else {
            let entries = self.matches@[self.matches.current()];
            if entries@.len() == 0 {
                None
            } else {
                Some(entries@[entries.current()].0)
            }
        }
    }

    /// The matches of the regex in the text, with the first match and its first entry current.
    pub fn create_from_regex(regex: &Regex, text: String) -> (selector: Self)
        ensures
            selector.text@ == text@,
            selector.rows() == named_rows(regex_captures(*regex, text@), regex_group_names(*regex)),
            selector.matches.current() == 0,
            forall|m: int|
                0 <= m < selector.matches@.len() ==> (#[trigger] selector.matches@[m]).current()
                    == 0,
    {
        let captures = find_captures(regex, text.as_str());
        let group_names = group_names(regex);
        let ghost wanted = named_rows(rows(captures), names(group_names));
        let mut matches: Vec<LoopVec<(Range<usize>, Option<String>)>> = Vec::new();
        let mut m: usize = 0;
        while m < captures.len()
            invariant
                m <= captures@.len(),
                wanted == named_rows(rows(captures), names(group_names)),
                matches@.len() == m,
                forall|n: int|
                    0 <= n < m ==> entries_view((#[trigger] matches@[n])@) == wanted[n]
                        && matches@[n].current() == 0,
            decreases captures@.len() - m,
        {
            let row = &captures[m];
            let upto = if row.len() <= group_names.len() {
                row.len()
            } else {
                group_names.len()
            };
            let mut entries: Vec<(Range<usize>, Option<String>)> = Vec::new();
            let mut g: usize = 0;
            while g < upto
                invariant
                    g <= upto <= row@.len(),
                    upto <= group_names@.len(),
                    entries_view(entries@) == named_row(row@, names(group_names), g as int),
                decreases upto - g,
            {
                if let Some(range) = &row[g] {
                    let name = match &group_names[g] {
                        Some(name) => Some(name.clone()),
                        None => None,
                    };
                    let ghost before = entries@;
                    entries.push((range.start..range.end, name));
                    assert(entries_view(entries@) =~= entries_view(before).push(
                        (*range, names(group_names)[g as int]),
                    ));
                }
                g = g + 1;
            }
            assert(row@ == rows(captures)[m as int]);
            matches.push(LoopVec::from_vec(entries));
            m = m + 1;
        }
        let selector = Self { text, matches: LoopVec::from_vec(matches) };
        assert(selector.rows() =~= wanted);
        selector
    }

    /// The text of the current entry of the current match, where there is one and its bytes
    /// cut a string out of the text.
    pub fn current_str(&self) -> (r: Option<&str>)
        ensures
            match r {
                Some(part) => self.spec_current_range() matches Some(range) && is_slice(
                    self.text@,
                    range.start as int,
                    range.end as int,
                ) && part@ == slice(self.text@, range.start as int, range.end as int),
                None => self.spec_current_range() matches Some(range) ==> !is_slice(
                    self.text@,
                    range.start as int,
                    range.end as int,
                ),
            },
    {
        let range = match self.current_range() {
            Some(range) => range,
            None => {
                return None;
            },
        };
        let text = self.text.as_str();
        if range.start > range.end || range.end > text.as_bytes().len() {
            return None;
        }
        if !text.is_char_boundary(range.start) || !text.is_char_boundary(range.end) {
            return None;
        }
        proof {
            lemma_slice_valid(self.text@, range.start as int, range.end as int);
        }
        let (_, rest) = text.split_at(range.start);
        let (part, _) = rest.split_at(range.end - range.start);
        proof {
            assert(rest.spec_bytes().subrange(0, range.end - range.start)
                =~= text.spec_bytes().subrange(range.start as int, range.end as int));
            encode_utf8_decode_utf8(part@);
        }
        Some(part)
    }

    /// The bytes of the current entry of the current match, or `None` where the text has no
    /// match
    pub fn current_range(&self) -> (r: Option<&Range<usize>>)
        ensures
            r == match self.spec_current_range() {
                Some(range) => Some(&range),
                None => None,
            },
    {
        match self.matches.get_current() {
            Some(entries) => match entries.get_current() {
                Some(entry) => Some(&entry.0),
                None => None,
            },
            None => None,
        }
    }
}

/// State for application logic: what was made of a pattern and a text.
pub struct LogicState {
    /// The syntax tree of the pattern.
    pub ast: AstNode,
    /// The matcher of the pattern.
    pub regex: Regex,
    /// The matches of the pattern in the text, to step through.
    pub selector: MatchesSelector,
    /// How the pattern is drawn.
    pub regex_layout: RegexLayout,
    /// How the text is drawn.
    pub input_layout: MatchedTextLayout,
}

/// What was made of a pattern and a text, or why the pattern was refused.
pub type LogicResult = Result<LogicState, RegexError>;

/// The colours of the layout of an earlier state, where there is one.
pub open spec fn carried_colors(previous_state: Option<&LogicState>) -> Seq<Color32> {
    match previous_state {
        Some(state) => state.regex_layout.capture_group_colors@,
        None => Seq::empty(),
    }
}

/// The colours that the capture groups of a tree get in the layout of a pattern: none for an
/// empty pattern.
pub open spec fn layout_colors(
    regex_text: Seq<char>,
    tree: AstNode,
    previous: Seq<Color32>,
) -> Seq<Color32> {
    if regex_text.len() == 0 {
        Seq::empty()
    } else {
        assigned_colors(tree.groups(0).len(), previous)
    }
}

/// The tree fits the text of the pattern: it can be walked, and each capture group cuts a
/// string out of the text. Nothing is asked of the tree of an empty text.
pub open spec fn tree_fits(tree: AstNode, regex_text: Seq<char>) -> bool {
    regex_text.len() > 0 ==> tree.walkable() && ranges_fit(
        group_ranges(tree.groups(0)),
        regex_text,
    )
}

/// The matches fit the colours: each match holds an entry for the whole match and one for each
/// colour behind the first. Nothing is asked where there is no text or no pattern.
pub open spec fn matches_fit(
    pattern: Seq<char>,
    regex: Regex,
    input_text: Seq<char>,
    colors: Seq<Color32>,
) -> bool {
    input_text.len() > 0 && pattern.len() > 0 ==> captures_match(
        regex_captures(regex, input_text),
        colors.len() as int,
    )
}

impl LogicState {
    /// The state holds what the engine and the layouts make of the texts.
    pub open spec fn is_state_of(
        &self,
        pattern: Seq<char>,
        tree: AstNode,
        regex: Regex,
        font: FontId,
        regex_text: Seq<char>,
        input_text: Seq<char>,
        previous: Seq<Color32>,
    ) -> bool {
        &&& self.ast == tree
        &&& self.regex == regex
        &&& regex_source(regex) == pattern
        &&& self.selector.text@ == input_text
        &&& self.selector.rows() == named_rows(
            regex_captures(regex, input_text),
            regex_group_names(regex),
        )
        &&& self.regex_layout.is_layout_of(
            regex_text,
            group_depths(tree.groups(0)),
            group_ranges(tree.groups(0)),
            font,
            previous,
        )
        &&& self.regex_layout.job.is_tiled()
        &&& self.input_layout.is_layout_of(
            input_text,
            pattern,
            regex_captures(regex, input_text),
            font,
            layout_colors(regex_text, tree, previous),
        )
    }

    /// The layouts of the pattern and of the text go together.
    pub open spec fn is_consistent(&self) -> bool {
        layouts_agree(
            self.regex_layout.capture_group_chars@,
            self.regex_layout.capture_group_colors@,
            rows(self.input_layout.capture_group_chars),
        )
    }

    /// What `new` makes of its arguments. A pattern that the engine refuses gives the error of
    /// the parser, or else that of the compiler. A pattern that it takes gives the state of the
    /// texts. Where an error, the tree or the matches do not fit the texts, the result is
    /// `Internal`.
    pub open spec fn is_outcome(
        outcome: LogicResult,
        pattern: Seq<char>,
        font: FontId,
        regex_text: Seq<char>,
        input_text: Seq<char>,
        previous: Seq<Color32>,
    ) -> bool {
        let len = encode_utf8(regex_text).len() as int;
        match parsed(pattern) {
            Err(error) => {
                let found = RegexError::Parse(parse_error_of(error));
                match outcome {
                    Err(RegexError::Parse(error)) => found.fits(len) && RegexError::Parse(error)
                        == found,
                    Err(RegexError::Internal) => !found.fits(len),
                    _ => false,
                }
            },
            Ok(tree) => match compiled(pattern) {
                Err(error) => outcome matches Err(RegexError::Compile(found)) && found
                    == compile_error_of(error),
                Ok(regex) => {
                    let fits = tree_fits(tree_of(tree), regex_text) && matches_fit(
                        pattern,
                        regex,
                        input_text,
                        layout_colors(regex_text, tree_of(tree), previous),
                    );
                    match outcome {
                        Ok(state) => fits && state.is_state_of(
                            pattern,
                            tree_of(tree),
                            regex,
                            font,
                            regex_text,
                            input_text,
                            previous,
                        ),
                        Err(RegexError::Internal) => !fits,
                        _ => false,
                    }
                },
            },
        }
    }

    /// Compiles the given regular expression pattern and lays out the given text accordingly
    pub fn new(
        pattern: &str,
        style: &Style,
        regex_text: String,
        input_text: String,
        previous_state: Option<&LogicState>,
    ) -> (outcome: LogicResult)
        ensures
            Self::is_outcome(
                outcome,
                pattern@,
                style.monospace,
                regex_text@,
                input_text@,
                carried_colors(previous_state),
            ),
            outcome matches Err(error) ==> error.fits(encode_utf8(regex_text@).len() as int),
            outcome matches Ok(state) ==> state.is_consistent(),
    {
        let (ast, regex) = match compile_regex(pattern) {
            Ok(compiled) => compiled,
            Err(error) => {
                if error.fits_pattern(regex_text.as_str()) {
                    return Err(error);
                }
                return Err(RegexError::Internal);
            },
        };
        let selector = MatchesSelector::create_from_regex(&regex, input_text.clone());
        assert(regex_source(regex) == pattern@);

        let previous_layout = match previous_state {
            Some(state) => Some(&state.regex_layout),
            None => None,
        };
        let regex_layout = if regex_text.as_str().is_empty() {
            assert(regex_text@ =~= Seq::<char>::empty());
            RegexLayout::default()
        } else {
            let (depths, ranges) = match try_find_capture_groups(&ast) {
                Some(found) => found,
                None => {
                    return Err(RegexError::Internal);
                },
            };
            if !check_ranges_fit(&ranges, regex_text.as_str()) {
                return Err(RegexError::Internal);
            }
            layout_capture_groups(regex_text, &depths, &ranges, style, previous_layout)
        };

        let input_layout = match try_layout_matched_text(
            input_text,
            &regex,
            style,
            &regex_layout.capture_group_colors,
        ) {
            Some(layout) => layout,
            None => {
                return Err(RegexError::Internal);
            },
        };

        let state = LogicState { ast, regex, selector, regex_layout, input_layout };
        proof {
            lemma_outcome_is_consistent(
                state,
                pattern@,
                style.monospace,
                regex_text@,
                input_text@,
                carried_colors(previous_state),
            );
        }
        Ok(state)
    }

    /// The text with each match of the pattern replaced by the template.
    pub fn replace_all(&self, text: &str, template: &str) -> (output: String)
        ensures
            output@ == regex_replacement(self.regex, text@, template@),
    {
        replace_all(&self.regex, text, template)
    }
}

/// The layouts of a state that was made of some texts go together.
pub proof fn lemma_outcome_is_consistent(
    state: LogicState,
    pattern: Seq<char>,
    font: FontId,
    regex_text: Seq<char>,
    input_text: Seq<char>,
    previous: Seq<Color32>,
)
    requires
        LogicState::is_outcome(Ok(state), pattern, font, regex_text, input_text, previous),
    ensures
        state.is_consistent(),
{
    let groups = state.regex_layout.capture_group_chars@;
    let colors = state.regex_layout.capture_group_colors@;
    let table = rows(state.input_layout.capture_group_chars);
    if colors.len() > 1 {
        let count = state.ast.groups(0).len();
        lemma_assigned_colors_shape(count, previous);
        assert(group_ranges(state.ast.groups(0)).len() == count);
        assert(groups.len() == count);
        assert(colors.len() == count + 1);
        if input_text.len() > 0 && pattern.len() > 0 {
            let captures = regex_captures(state.regex, input_text);
            assert forall|m: int| 0 <= m < table.len() implies (#[trigger] table[m]).len()
                == groups.len() by {
                assert(captures[m].len() == colors.len());
            }
        }
    }
}

/// Recomputing is idempotent: a state that was made of some texts is also what is made of
/// them when the state itself is handed in as the previous one.
pub proof fn lemma_recompute_idempotent(
    state: LogicState,
    pattern: Seq<char>,
    font: FontId,
    regex_text: Seq<char>,
    input_text: Seq<char>,
    previous: Seq<Color32>,
)
    requires
        LogicState::is_outcome(Ok(state), pattern, font, regex_text, input_text, previous),
    ensures
        LogicState::is_outcome(
            Ok(state),
            pattern,
            font,
            regex_text,
            input_text,
            state.regex_layout.capture_group_colors@,
        ),
{
    let count = state.ast.groups(0).len();
    lemma_colors_idempotent(count, previous);
    assert(group_ranges(state.ast.groups(0)).len() == count);
}

/// Recomputing is a function of its inputs: two outcomes of the same texts and colours are the
/// same error, or hold the same layouts.
pub proof fn lemma_recompute_deterministic(
    one: LogicResult,
    other: LogicResult,
    pattern: Seq<char>,
    font: FontId,
    regex_text: Seq<char>,
    input_text: Seq<char>,
    previous: Seq<Color32>,
)
    requires
        LogicState::is_outcome(one, pattern, font, regex_text, input_text, previous),
        LogicState::is_outcome(other, pattern, font, regex_text, input_text, previous),
    ensures
        one is Err ==> other == one,
        one matches Ok(a) ==> other matches Ok(b) && {
            &&& a.ast == b.ast
            &&& a.regex == b.regex
            &&& a.selector.text@ == b.selector.text@
            &&& a.selector.rows() == b.selector.rows()
            &&& a.regex_layout.job.text@ == b.regex_layout.job.text@
            &&& a.regex_layout.job.sections@ == b.regex_layout.job.sections@
            &&& a.regex_layout.capture_group_chars@ == b.regex_layout.capture_group_chars@
            &&& a.regex_layout.capture_group_colors@ == b.regex_layout.capture_group_colors@
            &&& a.input_layout.job.text() == b.input_layout.job.text()
            &&& a.input_layout.job.mapping() == b.input_layout.job.mapping()
            &&& a.input_layout.job.formats() == b.input_layout.job.formats()
            &&& rows(a.input_layout.capture_group_chars) == rows(b.input_layout.capture_group_chars)
        },
{
}

/// An empty pattern has empty layouts: where the engine takes it, the layout of the pattern
/// holds no text, no sections and no capture groups, the text that it is matched against is
/// plain, and no match is listed. Where the parser takes it, it does not lead to `Internal`.
pub proof fn lemma_empty_pattern(
    outcome: LogicResult,
    font: FontId,
    input_text: Seq<char>,
    previous: Seq<Color32>,
)
    requires
        LogicState::is_outcome(
            outcome,
            Seq::<char>::empty(),
            font,
            Seq::<char>::empty(),
            input_text,
            previous,
        ),
    ensures
        parsed(Seq::<char>::empty()) is Ok ==> !(outcome matches Err(RegexError::Internal)),
        outcome matches Ok(state) ==> {
            &&& state.regex_layout.job.text@ == Seq::<char>::empty()
            &&& state.regex_layout.job.sections@.len() == 0
            &&& state.regex_layout.capture_group_chars@.len() == 0
            &&& state.regex_layout.capture_group_colors@.len() == 0
            &&& rows(state.input_layout.capture_group_chars).len() == 0
            &&& input_text.len() > 0 ==> state.input_layout.is_plain(input_text, font)
            &&& input_text.len() == 0 ==> state.input_layout.is_default()
        },
{
}

/// State for the application as a whole: the texts of the window and what was made of them.
pub struct AppState {
    pub widgets: WidgetState,
    pub logic: LogicResult,
}

/// The layout colours that a result carries over to the next one.
pub open spec fn result_colors(logic: LogicResult) -> Seq<Color32> {
    match logic {
        Ok(state) => state.regex_layout.capture_group_colors@,
        Err(_) => Seq::empty(),
    }
}

impl AppState {
    /// The state of a window in which nothing was typed yet.
    pub fn new(style: &Style) -> (state: Self)
        ensures
            state.widgets.regex_text@ == Seq::<char>::empty(),
            state.widgets.input_text@ == Seq::<char>::empty(),
            state.widgets.replace_text@ == "$0"@,
            state.widgets.result_text@ == Seq::<char>::empty(),
            LogicState::is_outcome(
                state.logic,
                Seq::<char>::empty(),
                style.monospace,
                Seq::<char>::empty(),
                Seq::<char>::empty(),
                Seq::<Color32>::empty(),
            ),
    {
        let widgets = WidgetState::default();
        let pattern = String::new();
        let logic = LogicState::new(pattern.as_str(), style, String::new(), String::new(), None);
        AppState { widgets, logic }
    }

    /// The text that the matches of the pattern are replaced into: the input text with each
    /// match replaced by the template. An empty pattern replaces nothing.
    pub open spec fn replaced(
        state: LogicState,
        regex_text: Seq<char>,
        input_text: Seq<char>,
        replace_text: Seq<char>,
    ) -> Seq<char> {
        if regex_text.len() == 0 {
            input_text
        } else {
            regex_replacement(state.regex, input_text, replace_text)
        }
    }

    /// Replaces the matches of the pattern in the input text and keeps the outcome as the
    /// result text. Where the pattern was refused, the result text stays as it was.
    pub fn update_result(&mut self)
        ensures
            final(self).widgets.regex_text@ == old(self).widgets.regex_text@,
            final(self).widgets.input_text@ == old(self).widgets.input_text@,
            final(self).widgets.replace_text@ == old(self).widgets.replace_text@,
            final(self).widgets.tab_bar_state == old(self).widgets.tab_bar_state,
            final(self).widgets.about_visible == old(self).widgets.about_visible,
            final(self).logic == old(self).logic,
            final(self).widgets.result_text@ == match old(self).logic {
                Ok(state) => Self::replaced(
                    state,
                    old(self).widgets.regex_text@,
                    old(self).widgets.input_text@,
                    old(self).widgets.replace_text@,
                ),
                Err(_) => old(self).widgets.result_text@,
            },
    {
        if let Ok(state) = &self.logic {
            if self.widgets.regex_text.as_str().is_empty() {
                self.widgets.result_text = self.widgets.input_text.clone();
            } else {
                self.widgets.result_text = state.replace_all(
                    self.widgets.input_text.as_str(),
                    self.widgets.replace_text.as_str(),
                );
            }
        }
    }

    /// Makes everything anew of the texts of the window: the pattern is compiled and laid out,
    /// with the colours of the layout before where there was one, the input text is matched
    /// and laid out, and the matches are replaced. Where the pattern is refused, the result
    /// text stays as it was.
    pub fn recompute(&mut self, style: &Style)
        ensures
            final(self).widgets.regex_text@ == old(self).widgets.regex_text@,
            final(self).widgets.input_text@ == old(self).widgets.input_text@,
            final(self).widgets.replace_text@ == old(self).widgets.replace_text@,
            final(self).widgets.tab_bar_state == old(self).widgets.tab_bar_state,
            final(self).widgets.about_visible == old(self).widgets.about_visible,
            LogicState::is_outcome(
                final(self).logic,
                old(self).widgets.regex_text@,
                style.monospace,
                old(self).widgets.regex_text@,
                old(self).widgets.input_text@,
                result_colors(old(self).logic),
            ),
            final(self).widgets.result_text@ == match final(self).logic {
                Ok(state) => Self::replaced(
                    state,
                    old(self).widgets.regex_text@,
                    old(self).widgets.input_text@,
                    old(self).widgets.replace_text@,
                ),
                Err(_) => old(self).widgets.result_text@,
            },
    {
        let previous_state = match &self.logic {
            Ok(state) => Some(state),
            Err(_) => None,
        };
        let logic = LogicState::new(
            self.widgets.regex_text.as_str(),
            style,
            self.widgets.regex_text.clone(),
            self.widgets.input_text.clone(),
            previous_state,
        );
        self.logic = logic;
        self.update_result();
    }
}

} // verus!
