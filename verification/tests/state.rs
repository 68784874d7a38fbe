use regex_visualiser::color::{FontId, Style, BG_BLUE, BG_PINK, BG_YELLOW, TRANSPARENT};
use regex_visualiser::parsing::{compile_regex, RegexError};
use regex_visualiser::state::{AppState, LogicState, MatchesSelector, TabBarState, WidgetState};

fn style() -> Style {
    Style { monospace: FontId { id: 1 } }
}

#[test]
fn tab_bar_toggles() {
    let mut state = TabBarState::default();
    assert_eq!(state, TabBarState::Collapsed);
    state.toggle(TabBarState::SyntaxGuide);
    assert_eq!(state, TabBarState::SyntaxGuide);
    state.toggle(TabBarState::Information);
    assert_eq!(state, TabBarState::Information);
    state.toggle(TabBarState::Information);
    assert_eq!(state, TabBarState::Collapsed);
    state.toggle(TabBarState::Collapsed);
    assert_eq!(state, TabBarState::Collapsed);
}

#[test]
fn default_widgets() {
    let widgets = WidgetState::default();
    assert_eq!(widgets.regex_text, "");
    assert_eq!(widgets.input_text, "");
    assert_eq!(widgets.replace_text, "$0");
    assert_eq!(widgets.result_text, "");
    assert_eq!(widgets.tab_bar_state, TabBarState::Collapsed);
    assert!(!widgets.about_visible);
}

#[test]
fn selector_lists_what_took_part_in_each_match() {
    let (_, regex) = compile_regex(r"(?P<word>\w+)(?: (\d))?").unwrap();
    let mut selector = MatchesSelector::create_from_regex(&regex, "ab 1 cd".to_string());
    assert_eq!(selector.text, "ab 1 cd");
    assert_eq!(selector.matches.len(), 2);
    let first = selector.matches.get(0).unwrap();
    assert_eq!(first.len(), 3);
    assert_eq!(first.get(0), Some(&(0..4, None)));
    assert_eq!(first.get(1), Some(&(0..2, Some("word".to_string()))));
    assert_eq!(first.get(2), Some(&(3..4, None)));
    let second = selector.matches.get(1).unwrap();
    assert_eq!(second.len(), 2);
    assert_eq!(second.get(0), Some(&(5..7, None)));
    assert_eq!(second.get(1), Some(&(5..7, Some("word".to_string()))));

    assert_eq!(selector.current_range(), Some(&(0..4)));
    assert_eq!(selector.current_str(), Some("ab 1"));
    selector.matches.get_current_mut().unwrap().inc();
    assert_eq!(selector.current_str(), Some("ab"));
    selector.matches.inc();
    assert_eq!(selector.current_range(), Some(&(5..7)));
    assert_eq!(selector.current_str(), Some("cd"));
}

#[test]
fn selector_without_matches_has_nothing_current() {
    let (_, regex) = compile_regex("x").unwrap();
    let selector = MatchesSelector::create_from_regex(&regex, "abc".to_string());
    assert!(selector.matches.is_empty());
    assert_eq!(selector.current_range(), None);
    assert_eq!(selector.current_str(), None);
    let selector = MatchesSelector::default();
    assert_eq!(selector.text, "");
    assert_eq!(selector.current_str(), None);
}

#[test]
fn selector_range_that_cuts_no_string_gives_no_text() {
    let (_, regex) = compile_regex("é").unwrap();
    let mut selector = MatchesSelector::create_from_regex(&regex, "é".to_string());
    assert_eq!(selector.current_str(), Some("é"));
    selector.text = "e".to_string();
    assert_eq!(selector.current_range(), Some(&(0..2)));
    assert_eq!(selector.current_str(), None);
    selector.text = "aéb".to_string();
    assert_eq!(selector.current_str(), None);
}

#[test]
fn logic_state_holds_tree_matcher_and_layouts() {
    let state = LogicState::new("(a)|(b)", &style(), "(a)|(b)".to_string(), "ba".to_string(), None).ok().unwrap();
    assert_eq!(state.regex.as_str(), "(a)|(b)");
    assert_eq!(state.ast, compile_regex("(a)|(b)").unwrap().0);
    assert_eq!(state.regex_layout.capture_group_colors, vec![TRANSPARENT, BG_BLUE, BG_YELLOW]);
    assert_eq!(state.regex_layout.capture_group_chars, vec![(0, 0..3), (0, 4..7)]);
    assert_eq!(
        state.input_layout.capture_group_chars,
        vec![vec![None, Some(0..1)], vec![Some(1..2), None]]
    );
    assert_eq!(state.selector.matches.len(), 2);
    assert_eq!(state.replace_all("ba", "<$1$2>"), "<b><a>");
}

#[test]
fn logic_state_carries_colors_over() {
    let first = LogicState::new("(a)", &style(), "(a)".to_string(), String::new(), None).ok().unwrap();
    let mut edited = first;
    edited.regex_layout.capture_group_colors = vec![TRANSPARENT, BG_YELLOW];
    let second =
        LogicState::new("x(a)(b)", &style(), "x(a)(b)".to_string(), "xab".to_string(), Some(&edited))
            .ok()
            .unwrap();
    // The second group is new: its turn of the palette is yellow, which the first group
    // has, so it takes the turn after that
    assert_eq!(second.regex_layout.capture_group_colors, vec![TRANSPARENT, BG_YELLOW, BG_PINK]);
}

#[test]
fn logic_state_of_a_refused_pattern_is_its_error() {
    let error = LogicState::new("(", &style(), "(".to_string(), "text".to_string(), None).err().unwrap();
    assert!(matches!(error, RegexError::Parse(_)));
    assert!(error.fits_pattern("("));
    let error = LogicState::new(r"\p{Quux}", &style(), r"\p{Quux}".to_string(), String::new(), None)
        .err()
        .unwrap();
    assert!(matches!(error, RegexError::Compile(_)));
}

#[test]
fn logic_state_of_mismatched_texts_is_internal() {
    // The tree of the pattern does not fit a shorter text
    let error = LogicState::new("ab(c)", &style(), "(c)".to_string(), String::new(), None).err().unwrap();
    assert_eq!(error, RegexError::Internal);
    // The error of the pattern does not fit a shorter text
    let error = LogicState::new("abc(", &style(), "(".to_string(), String::new(), None).err().unwrap();
    assert_eq!(error, RegexError::Internal);
    // An empty text has no colours for the capture groups that match
    let error = LogicState::new("(c)", &style(), String::new(), "c".to_string(), None).err().unwrap();
    assert_eq!(error, RegexError::Internal);
}

#[test]
fn new_app_state_is_empty() {
    let state = AppState::new(&style());
    assert_eq!(state.widgets.replace_text, "$0");
    assert_eq!(state.widgets.result_text, "");
    let logic = state.logic.as_ref().unwrap();
    assert_eq!(logic.regex.as_str(), "");
    assert!(logic.regex_layout.job.sections.is_empty());
    assert!(logic.input_layout.capture_group_chars.is_empty());
    // The empty pattern matches the empty text once, without a capture group
    assert_eq!(logic.selector.matches.len(), 1);
    assert_eq!(logic.selector.current_range(), Some(&(0..0)));
}

#[test]
fn recompute_follows_the_widgets() {
    let mut state = AppState::new(&style());
    state.widgets.regex_text = r"(\w)(\w)".to_string();
    state.widgets.input_text = "abcd".to_string();
    state.widgets.replace_text = "$2$1".to_string();
    state.widgets.tab_bar_state = TabBarState::Information;
    state.recompute(&style());
    assert_eq!(state.widgets.result_text, "badc");
    assert_eq!(state.widgets.regex_text, r"(\w)(\w)");
    assert_eq!(state.widgets.input_text, "abcd");
    assert_eq!(state.widgets.replace_text, "$2$1");
    assert_eq!(state.widgets.tab_bar_state, TabBarState::Information);
    state.widgets.regex_text = r"(\w)(\w".to_string();
    state.recompute(&style());
    assert!(state.logic.is_err());
    assert_eq!(state.widgets.result_text, "badc");
    state.widgets.regex_text = String::new();
    state.recompute(&style());
    assert!(state.logic.is_ok());
    assert_eq!(state.widgets.result_text, "abcd");
}
