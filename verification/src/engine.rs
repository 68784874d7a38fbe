//! The regular expression engine that the visualiser is built on: the parser of `regex_syntax`
//! and the matcher of `regex`. Nothing in this file is proved. Each function makes one call
//! into the engine and states what its documentation says of the result; where that is a
//! function of the arguments and takes more than a few lines to state, it is given a name.

use crate::parsing::{AstNode, CompileError, ParseError, Span};
use std::ops::Range;
use vstd::prelude::*;
use vstd::utf8::*;

verus! {

#[verifier::external_type_specification]
#[verifier::external_body]
pub struct ExSyntaxTree(regex_syntax::ast::Ast);

#[verifier::external_type_specification]
#[verifier::external_body]
pub struct ExSyntaxError(regex_syntax::ast::Error);

#[verifier::external_type_specification]
#[verifier::external_body]
pub struct ExRegex(regex::Regex);

#[verifier::external_type_specification]
#[verifier::external_body]
pub struct ExRegexError(regex::Error);

/// What `regex_syntax` reads the pattern as: its syntax tree, or the error that it found.
pub uninterp spec fn parsed(pattern: Seq<char>) -> Result<
    regex_syntax::ast::Ast,
    regex_syntax::ast::Error,
>;

/// What a syntax tree of `regex_syntax` holds: its nodes with their spans and capture indices.
pub uninterp spec fn tree_of(tree: regex_syntax::ast::Ast) -> AstNode;

/// What an error of `regex_syntax` holds: its spans and its message.
pub uninterp spec fn parse_error_of(error: regex_syntax::ast::Error) -> ParseError;

/// What `regex` compiles the pattern to: a matcher, or the error that it found.
pub uninterp spec fn compiled(pattern: Seq<char>) -> Result<regex::Regex, regex::Error>;

/// What an error of `regex` holds: its message.
pub uninterp spec fn compile_error_of(error: regex::Error) -> CompileError;

/// The pattern that a matcher was compiled from.
pub uninterp spec fn regex_source(regex: regex::Regex) -> Seq<char>;

/// The matches of a matcher in a text, from left to right. Each match holds an entry for the
/// whole match and then one for each capture group of the pattern, in the order of their
/// opening parentheses: the bytes that the group matched, or `None` where it took no part.
pub uninterp spec fn regex_captures(regex: regex::Regex, text: Seq<char>) -> Seq<
    Seq<Option<Range<usize>>>,
>;

/// The names of the capture groups of a matcher, the whole match first: `None` for a group
/// without a name.
pub uninterp spec fn regex_group_names(regex: regex::Regex) -> Seq<Option<Seq<char>>>;

/// The text with each match of the matcher replaced by the template, in which `$` and a
/// number or a name stands for what that group matched.
pub uninterp spec fn regex_replacement(
    regex: regex::Regex,
    text: Seq<char>,
    template: Seq<char>,
) -> Seq<char>;

/// The rows of a table.
pub open spec fn rows<T>(table: Vec<Vec<T>>) -> Seq<Seq<T>> {
    Seq::new(table@.len(), |i: int| table@[i]@)
}

/// The names, as sequences of characters.
pub open spec fn names(list: Vec<Option<String>>) -> Seq<Option<Seq<char>>> {
    Seq::new(
        list@.len(),
        |i: int|
            match list@[i] {
                Some(name) => Some(name@),
                None => None,
            },
    )
}

/// Each range that a match holds cuts a string out of a text with these bytes: its bounds are
/// in order, inside the text and between two characters.
pub open spec fn captures_fit(captures: Seq<Seq<Option<Range<usize>>>>, bytes: Seq<u8>) -> bool {
    forall|m: int, g: int|
        0 <= m < captures.len() && 0 <= g < captures[m].len() && (#[trigger] captures[m][g])
            is Some ==> {
            let range = captures[m][g]->Some_0;
            &&& range.start <= range.end <= bytes.len()
            &&& is_char_boundary(bytes, range.start as int)
            &&& is_char_boundary(bytes, range.end as int)
        }
}

/// Calls `Parser::new().parse` of `regex_syntax::ast::parse`. The result is the one that the
/// parser has for this pattern; nothing else is claimed of it.
#[verifier::external_body]
pub(crate) fn parse_pattern(pattern: &str) -> (r: Result<
    regex_syntax::ast::Ast,
    regex_syntax::ast::Error,
>)
    ensures
        r == parsed(pattern@),
{
    regex_syntax::ast::parse::Parser::new().parse(pattern)
}

/// Copies a syntax tree of `regex_syntax` node by node, through `Ast::span` and
/// `Group::capture_index`: for each node its kind, the byte offsets of its span, the capture
/// index of a group, and its children in order.
#[verifier::external_body]
pub(crate) fn lower_tree(tree: &regex_syntax::ast::Ast) -> (node: AstNode)
    ensures
        node == tree_of(*tree),
{
    let span = Span { start: tree.span().start.offset, end: tree.span().end.offset };
    match tree {
        regex_syntax::ast::Ast::Literal(_) => AstNode::Literal(span),
        regex_syntax::ast::Ast::Repetition(r) => AstNode::Repetition(span, Box::new(lower_tree(&r.ast))),
        regex_syntax::ast::Ast::Group(g) => AstNode::Group(span, g.capture_index(), Box::new(lower_tree(&g.ast))),
        regex_syntax::ast::Ast::Alternation(a) => AstNode::Alternation(span, a.asts.iter().map(lower_tree).collect()),
        regex_syntax::ast::Ast::Concat(c) => AstNode::Concat(span, c.asts.iter().map(lower_tree).collect()),
        _ => AstNode::Atom(span),
    }
}

/// Reads an error of `regex_syntax` through `Error::span`, `Error::auxiliary_span` and its
/// `Display`: the byte offsets of the two spans, and the message.
#[verifier::external_body]
pub(crate) fn describe_parse_error(error: &regex_syntax::ast::Error) -> (r: ParseError)
    ensures
        r == parse_error_of(*error),
{
    ParseError {
        span: Span { start: error.span().start.offset, end: error.span().end.offset },
        auxiliary_span: error.auxiliary_span().map(|s| Span { start: s.start.offset, end: s.end.offset }),
        message: error.to_string(),
    }
}

/// Calls `Regex::new`. The result is the one that `regex` has for this pattern, and a matcher
/// remembers the pattern that it was made from, as `Regex::as_str` documents.
#[verifier::external_body]
pub(crate) fn compile_pattern(pattern: &str) -> (r: Result<regex::Regex, regex::Error>)
    ensures
        r == compiled(pattern@),
        r matches Ok(regex) ==> regex_source(regex) == pattern@,
{
    regex::Regex::new(pattern)
}

/// Reads the message of an error of `regex` through its `Display`.
#[verifier::external_body]
pub(crate) fn describe_compile_error(error: &regex::Error) -> (r: CompileError)
    ensures
        r == compile_error_of(*error),
{
    CompileError { message: error.to_string() }
}

/// Calls `Regex::as_str`, which returns the string that the matcher was compiled from.
#[verifier::external_body]
pub(crate) fn regex_pattern(regex: &regex::Regex) -> (pattern: &str)
    ensures
        pattern@ == regex_source(*regex),
{
    regex.as_str()
}

/// Calls `Regex::captures_iter` and, on each match, `Captures::iter` and `Match::range`.
/// `regex` documents of `Match::start` and `Match::end` that the start is not behind the end,
/// that both fall on a UTF-8 code point boundary, and that the text that was searched can be
/// sliced with them.
#[verifier::external_body]
pub(crate) fn find_captures(regex: &regex::Regex, text: &str) -> (captures: Vec<
    Vec<Option<Range<usize>>>,
>)
    ensures
        rows(captures) == regex_captures(*regex, text@),
        captures_fit(rows(captures), encode_utf8(text@)),
{
    regex.captures_iter(text).map(|c| c.iter().map(|m| m.map(|m| m.range())).collect()).collect()
}

/// Calls `Regex::capture_names`, which yields a name or `None` for each capture group, the
/// whole match first.
#[verifier::external_body]
pub(crate) fn group_names(regex: &regex::Regex) -> (list: Vec<Option<String>>)
    ensures
        names(list) == regex_group_names(*regex),
{
    regex.capture_names().map(|name| name.map(|name| name.to_string())).collect()
}

/// Calls `Regex::replace_all` with the template as the replacement.
#[verifier::external_body]
pub(crate) fn replace_all(regex: &regex::Regex, text: &str, template: &str) -> (output: String)
    ensures
        output@ == regex_replacement(*regex, text@, template@),
{
    regex.replace_all(text, template).into_owned()
}

} // verus!
