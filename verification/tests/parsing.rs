use regex_visualiser::parsing::{
    ast_find_capture_groups, compile_regex, try_find_capture_groups, AstNode, GetRangeExt,
    RegexError, Span,
};

fn span(start: usize, end: usize) -> Span {
    Span { start, end }
}

#[test]
fn span_range() {
    assert_eq!(span(2, 5).range(), 2..5);
}

#[test]
fn compile_gives_tree_and_matcher() {
    let (ast, regex) = compile_regex("a(b)c").unwrap();
    assert_eq!(regex.as_str(), "a(b)c");
    assert!(regex.is_match("xabcx"));
    assert_eq!(
        ast,
        AstNode::Concat(
            span(0, 5),
            vec![
                AstNode::Literal(span(0, 1)),
                AstNode::Group(span(1, 4), Some(1), Box::new(AstNode::Literal(span(2, 3)))),
                AstNode::Literal(span(4, 5)),
            ]
        )
    );
}

#[test]
fn compile_reads_every_kind_of_node() {
    let (ast, _) = compile_regex(r"(?:x|\d)+").unwrap();
    assert_eq!(
        ast,
        AstNode::Repetition(
            span(0, 9),
            Box::new(AstNode::Group(
                span(0, 8),
                None,
                Box::new(AstNode::Alternation(
                    span(3, 7),
                    vec![AstNode::Literal(span(3, 4)), AstNode::Atom(span(5, 7))]
                ))
            ))
        )
    );
}

#[test]
fn empty_pattern_compiles() {
    let (ast, regex) = compile_regex("").unwrap();
    assert_eq!(ast, AstNode::Atom(span(0, 0)));
    assert!(regex.is_match(""));
    assert_eq!(regex.find_iter("ab").count(), 3);
}

#[test]
fn syntax_error_is_a_parse_error() {
    match compile_regex("a(b") {
        Err(RegexError::Parse(error)) => {
            assert_eq!(error.span, span(1, 2));
            assert_eq!(error.auxiliary_span, None);
            assert!(error.message.contains("unclosed group"));
        },
        other => panic!("unexpected outcome: {:?}", other.map(|(ast, _)| ast)),
    }
}

#[test]
fn duplicate_name_has_an_auxiliary_span() {
    match compile_regex("(?P<a>x)(?P<a>y)") {
        Err(RegexError::Parse(error)) => {
            assert_eq!(error.span, span(12, 13));
            assert_eq!(error.auxiliary_span, Some(span(4, 5)));
        },
        other => panic!("unexpected outcome: {:?}", other.map(|(ast, _)| ast)),
    }
}

#[test]
fn unknown_class_is_a_compile_error() {
    match compile_regex(r"\p{Quux}") {
        Err(RegexError::Compile(error)) => {
            assert!(!error.message.is_empty());
            assert_eq!(RegexError::Compile(error).message(), regex::Regex::new(r"\p{Quux}").unwrap_err().to_string());
        },
        other => panic!("unexpected outcome: {:?}", other.map(|(ast, _)| ast)),
    }
}

#[test]
fn error_messages() {
    let error = compile_regex("[").err().unwrap();
    assert_eq!(
        error.message(),
        regex_syntax::ast::parse::Parser::new().parse("[").unwrap_err().to_string()
    );
    assert_eq!(RegexError::Internal.message(), "the regex engine contradicted itself");
}

#[test]
fn groups_are_found_outer_first_and_left_to_right() {
    let (ast, _) = compile_regex(r"((a)(b))|(c)+(?:(d))").unwrap();
    let (depths, ranges) = ast_find_capture_groups(&ast);
    assert_eq!(ranges, vec![0..8, 1..4, 4..7, 9..12, 16..19]);
    assert_eq!(depths, vec![1, 3, 3, 3, 3]);
}

#[test]
fn single_group_is_found_at_depth_zero() {
    let (ast, _) = compile_regex("(abc)").unwrap();
    assert_eq!(ast_find_capture_groups(&ast), (vec![0], vec![0..5]));
}

#[test]
fn repeated_group_is_found_once() {
    let (ast, _) = compile_regex("(ab)*").unwrap();
    assert_eq!(ast_find_capture_groups(&ast), (vec![1], vec![0..4]));
}

#[test]
fn parsed_patterns_number_their_groups_in_order() {
    for (pattern, count) in [
        ("", 0),
        ("abc", 0),
        ("(a)", 1),
        ("(a)(b)(c)", 3),
        ("((((a))))", 4),
        ("(a|(b))*(?P<n>c)(?:d)(e)", 4),
        (r"(\d+)-(\d+)", 2),
    ] {
        let (ast, regex) = compile_regex(pattern).unwrap();
        let (depths, ranges) = try_find_capture_groups(&ast).unwrap();
        assert_eq!(depths.len(), count);
        assert_eq!(ranges.len(), count);
        assert_eq!(regex.captures_len(), count + 1);
    }
}

#[test]
fn groups_out_of_turn_are_refused() {
    let one = AstNode::Group(span(0, 3), Some(1), Box::new(AstNode::Literal(span(1, 2))));
    let two = AstNode::Group(span(3, 6), Some(2), Box::new(AstNode::Literal(span(4, 5))));
    let three = AstNode::Group(span(3, 6), Some(3), Box::new(AstNode::Literal(span(4, 5))));
    let in_turn = AstNode::Concat(span(0, 6), vec![one, two]);
    assert_eq!(try_find_capture_groups(&in_turn), Some((vec![1, 1], vec![0..3, 3..6])));
    let one = AstNode::Group(span(0, 3), Some(1), Box::new(AstNode::Literal(span(1, 2))));
    let two = AstNode::Group(span(3, 6), Some(2), Box::new(AstNode::Literal(span(4, 5))));
    assert_eq!(try_find_capture_groups(&AstNode::Concat(span(0, 6), vec![two, one])), None);
    let one = AstNode::Group(span(0, 3), Some(1), Box::new(AstNode::Literal(span(1, 2))));
    assert_eq!(try_find_capture_groups(&AstNode::Concat(span(0, 6), vec![one, three])), None);
    let zero = AstNode::Group(span(0, 3), Some(0), Box::new(AstNode::Literal(span(1, 2))));
    assert_eq!(try_find_capture_groups(&zero), None);
}
