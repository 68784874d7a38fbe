use crate::engine::{
    compile_error_of, compile_pattern, compiled, describe_compile_error, describe_parse_error,
    lower_tree, parse_error_of, parse_pattern, parsed, regex_source, tree_of,
};
use regex::Regex;
use std::ops::Range;
use vstd::prelude::*;
use vstd::string::StringExecFns;

verus! {

/// A range of the bytes of a pattern.
#[derive(Clone, Copy, PartialEq, Eq, Structural, Debug)]
pub struct Span {
    pub start: usize,
    pub end: usize,
}

/// Something that stands for a range of bytes.
pub trait GetRangeExt {
    spec fn spec_range(&self) -> Range<usize>;

    /// The bytes that the value stands for.
    fn range(&self) -> (r: Range<usize>)
        ensures
            r == self.spec_range(),
    ;
}

impl GetRangeExt for Span {
    open spec fn spec_range(&self) -> Range<usize> {
        Range { start: self.start, end: self.end }
    }

    fn range(&self) -> (r: Range<usize>) {
        self.start..self.end
    }
}

/// Why a pattern could not be parsed.
#[derive(Debug, PartialEq, Eq)]
pub struct ParseError {
    /// The part of the pattern that is at fault.
    pub span: Span,
    /// A second part that the error is about, such as the first of two groups of one name.
    pub auxiliary_span: Option<Span>,
    pub message: String,
}

/// Why a pattern that could be parsed could not be compiled.
#[derive(Debug, PartialEq, Eq)]
pub struct CompileError {
    pub message: String,
}

/// Why a pattern gave no syntax tree and matcher.
#[derive(Debug, PartialEq, Eq)]
pub enum RegexError {
    /// The pattern is malformed.
    Parse(ParseError),
    /// The pattern is well-formed, but the matcher does not take it.
    Compile(CompileError),
    /// What the engine handed back does not fit the texts that it was made from: a capture
    /// group out of turn, or a range that cuts no string out of its text.
    Internal,
}

impl RegexError {
    /// The text that tells a user what is wrong.
    pub open spec fn spec_message(self) -> Seq<char> {
        match self {
            RegexError::Parse(error) => error.message@,
            RegexError::Compile(error) => error.message@,
            RegexError::Internal => "the regex engine contradicted itself"@,
        }
    }

    /// The text that tells a user what is wrong.
    pub fn message(&self) -> (text: String)
        ensures
            text@ == self.spec_message(),
    {
        match self {
            RegexError::Parse(error) => error.message.clone(),
            RegexError::Compile(error) => error.message.clone(),
            RegexError::Internal => String::from_str("the regex engine contradicted itself"),
        }
    }
}

/// The syntax tree of a pattern, as far as capture groups depend on it. Every node carries the
/// span of the pattern that it was read from.
#[derive(Debug, PartialEq, Eq)]
pub enum AstNode {
    /// A character class, an assertion, a set of flags, or the empty pattern.
    Atom(Span),
    /// A single character.
    Literal(Span),
    /// A repetition operator applied to a pattern.
    Repetition(Span, Box<AstNode>),
    /// A group, with its capture index where it captures.
    Group(Span, Option<u32>, Box<AstNode>),
    /// A choice between patterns.
    Alternation(Span, Vec<AstNode>),
    /// Patterns in a row.
    Concat(Span, Vec<AstNode>),
}

/// A capture group as it stands in a syntax tree.
pub struct CaptureGroup {
    /// The number that the group is referred to by.
    pub index: u32,
    /// The number of nodes that the group lies inside.
    pub depth: nat,
    pub span: Span,
}

impl AstNode {
    /// The capture groups of a tree that lies `depth` nodes deep, each before the groups
    /// inside of it and before those to the right of it.
    pub open spec fn groups(self, depth: nat) -> Seq<CaptureGroup>
        decreases self,
    {
        match self {
            AstNode::Atom(_) => Seq::empty(),
            AstNode::Literal(_) => Seq::empty(),
            AstNode::Repetition(_, ast) => ast.groups(depth + 1),
            AstNode::Group(span, Some(index), ast) => seq![CaptureGroup { index, depth, span }]
                + ast.groups(depth + 1),
            AstNode::Group(_, None, ast) => ast.groups(depth + 1),
            AstNode::Alternation(_, asts) => Self::groups_of(asts@, depth + 1),
            AstNode::Concat(_, asts) => Self::groups_of(asts@, depth + 1),
        }
    }

    /// The capture groups of trees side by side, from left to right.
    pub open spec fn groups_of(asts: Seq<AstNode>, depth: nat) -> Seq<CaptureGroup>
        decreases asts,
    {
        if asts.len() == 0 {
            Seq::empty()
        } else {
            asts[0].groups(depth) + Self::groups_of(asts.drop_first(), depth)
        }
    }

    /// The depth of each node of a tree that lies `depth` nodes deep is a `usize`.
    pub open spec fn depth_fits(self, depth: nat) -> bool
        decreases self,
    {
        match self {
            AstNode::Atom(_) => true,
            AstNode::Literal(_) => true,
            AstNode::Repetition(_, ast) => depth < usize::MAX && ast.depth_fits(depth + 1),
            AstNode::Group(_, _, ast) => depth < usize::MAX && ast.depth_fits(depth + 1),
            AstNode::Alternation(_, asts) => depth < usize::MAX && Self::depth_fits_all(
                asts@,
                depth + 1,
            ),
            AstNode::Concat(_, asts) => depth < usize::MAX && Self::depth_fits_all(asts@, depth + 1),
        }
    }

    /// The depth of each node of trees that lie side by side, `depth` nodes deep, is a `usize`.
    pub open spec fn depth_fits_all(asts: Seq<AstNode>, depth: nat) -> bool
        decreases asts,
    {
        asts.len() > 0 ==> asts[0].depth_fits(depth) && Self::depth_fits_all(
            asts.drop_first(),
            depth,
        )
    }

    /// The number of nodes of the tree.
    spec fn size(self) -> nat
        decreases self,
    {
        match self {
            AstNode::Atom(_) => 1,
            AstNode::Literal(_) => 1,
            AstNode::Repetition(_, ast) => 1 + ast.size(),
            AstNode::Group(_, _, ast) => 1 + ast.size(),
            AstNode::Alternation(_, asts) => 1 + Self::size_of(asts@),
            AstNode::Concat(_, asts) => 1 + Self::size_of(asts@),
        }
    }

    spec fn size_of(asts: Seq<AstNode>) -> nat
        decreases asts,
    {
        if asts.len() == 0 {
            0
        } else {
            asts[0].size() + Self::size_of(asts.drop_first())
        }
    }

    /// The tree can be walked: its capture groups are numbered 1, 2, 3 and so on in the order
    /// of `groups`, and the depth of each node is a `usize`.
    pub open spec fn walkable(self) -> bool {
        indices_consecutive(self.groups(0)) && self.depth_fits(0)
    }
}

/// What `compile_regex` makes of a pattern: the tree and the matcher that the engine has for
/// it, or the error of the parser, or else that of the compiler.
pub open spec fn is_compile_outcome(
    pattern: Seq<char>,
    outcome: Result<(AstNode, Regex), RegexError>,
) -> bool {
    match outcome {
        Ok((ast, regex)) => parsed(pattern) is Ok && ast == tree_of(parsed(pattern)->Ok_0)
            && compiled(pattern) == Ok::<Regex, regex::Error>(regex) && regex_source(regex)
            == pattern,
        Err(RegexError::Parse(error)) => parsed(pattern) is Err && error == parse_error_of(
            parsed(pattern)->Err_0,
        ),
        Err(RegexError::Compile(error)) => parsed(pattern) is Ok && compiled(pattern) is Err
            && error == compile_error_of(compiled(pattern)->Err_0),
        Err(RegexError::Internal) => false,
    }
}

/// Parses and compiles a regular expression, returning the parsed AST and compiled regex.
pub fn compile_regex(pattern: &str) -> (r: Result<(AstNode, Regex), RegexError>)
    ensures
        is_compile_outcome(pattern@, r),
{
    match parse_pattern(pattern) {
        Err(error) => Err(RegexError::Parse(describe_parse_error(&error))),
        Ok(tree) => {
            let ast = lower_tree(&tree);
            match compile_pattern(pattern) {
                Err(error) => Err(RegexError::Compile(describe_compile_error(&error))),
                Ok(regex) => Ok((ast, regex)),
            }
        },
    }
}

/// The groups are numbered from 1, without a gap.
pub open spec fn indices_consecutive(groups: Seq<CaptureGroup>) -> bool {
    forall|k: int| 0 <= k < groups.len() ==> (#[trigger] groups[k]).index == k + 1
}

/// The depth of each group, in order.
pub open spec fn group_depths(groups: Seq<CaptureGroup>) -> Seq<usize> {
    Seq::new(groups.len(), |k: int| groups[k].depth as usize)
}

/// The bytes of each group, in order.
pub open spec fn group_ranges(groups: Seq<CaptureGroup>) -> Seq<Range<usize>> {
    Seq::new(groups.len(), |k: int| groups[k].span.spec_range())
}

/// The capture groups of the trees that are still to be walked, the last of them first.
spec fn pending_groups(stack: Seq<(usize, &AstNode)>) -> Seq<CaptureGroup>
    decreases stack.len(),
{
    if stack.len() == 0 {
        Seq::empty()
    } else {
        stack.last().1.groups(stack.last().0 as nat) + pending_groups(stack.drop_last())
    }
}

/// The depths of the trees that are still to be walked fit.
spec fn pending_fits(stack: Seq<(usize, &AstNode)>) -> bool
    decreases stack.len(),
{
    stack.len() > 0 ==> stack.last().1.depth_fits(stack.last().0 as nat) && pending_fits(
        stack.drop_last(),
    )
}

/// The number of nodes that are still to be walked.
spec fn pending_size(stack: Seq<(usize, &AstNode)>) -> nat
    decreases stack.len(),
{
    if stack.len() == 0 {
        0
    } else {
        stack.last().1.size() + pending_size(stack.drop_last())
    }
}

/// What is pending with one more tree on the stack: the tree, and then what was pending.
proof fn lemma_pending_push(stack: Seq<(usize, &AstNode)>, depth: usize, node: &AstNode)
    ensures
        pending_groups(stack.push((depth, node))) == node.groups(depth as nat) + pending_groups(
            stack,
        ),
        pending_fits(stack.push((depth, node))) == (node.depth_fits(depth as nat) && pending_fits(
            stack,
        )),
        pending_size(stack.push((depth, node))) == node.size() + pending_size(stack),
{
    assert(stack.push((depth, node)).drop_last() =~= stack);
}

/// Puts the trees `asts` on the stack so that the first of them is walked first.
fn push_children<'a>(stack: &mut Vec<(usize, &'a AstNode)>, asts: &'a Vec<AstNode>, depth: usize)
    ensures
        pending_groups(final(stack)@) == AstNode::groups_of(asts@, depth as nat) + pending_groups(
            old(stack)@,
        ),
        pending_fits(final(stack)@) == (AstNode::depth_fits_all(asts@, depth as nat) && pending_fits(
            old(stack)@,
        )),
        pending_size(final(stack)@) == AstNode::size_of(asts@) + pending_size(old(stack)@),
{
    let mut j = asts.len();
    assert(asts@.skip(j as int) =~= Seq::<AstNode>::empty());
    while j > 0
        invariant
            j <= asts@.len(),
            pending_groups(stack@) == AstNode::groups_of(asts@.skip(j as int), depth as nat)
                + pending_groups(old(stack)@),
            pending_fits(stack@) == (AstNode::depth_fits_all(asts@.skip(j as int), depth as nat)
                && pending_fits(old(stack)@)),
            pending_size(stack@) == AstNode::size_of(asts@.skip(j as int)) + pending_size(
                old(stack)@,
            ),
        decreases j,
    {
        j = j - 1;
        proof {
            let rest = asts@.skip(j as int);
            assert(rest.drop_first() =~= asts@.skip(j + 1));
            assert(rest[0] == asts@[j as int]);
            lemma_pending_push(stack@, depth, &asts@[j as int]);
            assert(asts@[j as int].groups(depth as nat) + (AstNode::groups_of(
                asts@.skip(j + 1),
                depth as nat,
            ) + pending_groups(old(stack)@)) =~= AstNode::groups_of(rest, depth as nat)
                + pending_groups(old(stack)@));
        }
        stack.push((depth, &asts[j]));
    }
    assert(asts@.skip(0) =~= asts@);
}

/// Finds all capture groups in the given AST and returns the depth and span of each one, or
/// `None` where the tree cannot be walked.
pub fn try_find_capture_groups(ast: &AstNode) -> (r: Option<(Vec<usize>, Vec<Range<usize>>)>)
    ensures
        r is Some <==> ast.walkable(),
        r matches Some((depths, ranges)) ==> depths@ == group_depths(ast.groups(0)) && ranges@
            == group_ranges(ast.groups(0)) && depths@.len() == ranges@.len() == ast.groups(
            0,
        ).len(),
{
    let ghost all = ast.groups(0);
    let mut stack: Vec<(usize, &AstNode)> = Vec::new();
    let mut depths: Vec<usize> = Vec::new();
    let mut ranges: Vec<Range<usize>> = Vec::new();
    stack.push((0, ast));
    proof {
        let empty = Seq::<(usize, &AstNode)>::empty();
        lemma_pending_push(empty, 0, ast);
        assert(stack@ =~= empty.push((0usize, ast)));
        assert(all.skip(0) =~= all);
        assert(all.take(0) =~= Seq::<CaptureGroup>::empty());
    }
    while stack.len() > 0
        invariant
            all == ast.groups(0),
            depths@.len() == ranges@.len() <= all.len(),
            pending_groups(stack@) == all.skip(depths@.len() as int),
            pending_fits(stack@) == ast.depth_fits(0),
            indices_consecutive(all.take(depths@.len() as int)),
            depths@ == group_depths(all.take(depths@.len() as int)),
            ranges@ == group_ranges(all.take(depths@.len() as int)),
        decreases pending_size(stack@),
    {
        let ghost before = stack@;
        let (depth, node) = stack.pop().unwrap();
        proof {
            assert(before =~= stack@.push((depth, node)));
            lemma_pending_push(stack@, depth, node);
        }
        match node {
            AstNode::Atom(_) => {},
            AstNode::Literal(_) => {},
            AstNode::Repetition(_, inner) => {
                if depth == usize::MAX {
                    return None;
                }
                proof {
                    lemma_pending_push(stack@, (depth + 1) as usize, &**inner);
                }
                stack.push((depth + 1, &**inner));
            },
            AstNode::Group(span, capture_index, inner) => {
                if depth == usize::MAX {
                    return None;
                }
                if let Some(index) = capture_index {
                    let found = depths.len();
                    proof {
                        let group = CaptureGroup {
                            index: *index,
                            depth: depth as nat,
                            span: *span,
                        };
                        assert(node.groups(depth as nat) == seq![group] + inner.groups(
                            (depth + 1) as nat,
                        ));
                        assert(pending_groups(before)[0] == group);
                        assert(all.skip(found as int).len() > 0);
                        assert(all.skip(found as int)[0] == all[found as int]);
                    }
                    if *index == 0 || (*index - 1) as usize != found {
                        assert(!indices_consecutive(all));
                        return None;
                    }
                    depths.push(depth);
                    ranges.push(span.range());
                    proof {
                        assert(all.take(found + 1) =~= all.take(found as int).push(
                            all[found as int],
                        ));
                        assert(depths@ =~= group_depths(all.take(found + 1)));
                        assert(ranges@ =~= group_ranges(all.take(found + 1)));
                        assert(all.skip(found as int).skip(1) =~= all.skip(found + 1));
                        assert(inner.groups((depth + 1) as nat) + pending_groups(stack@)
                            =~= all.skip(found + 1));
                    }
                }
                proof {
                    lemma_pending_push(stack@, (depth + 1) as usize, &**inner);
                }
                stack.push((depth + 1, &**inner));
            },
            AstNode::Alternation(_, asts) => {
                if depth == usize::MAX {
                    return None;
                }
                push_children(&mut stack, asts, depth + 1);
            },
            AstNode::Concat(_, asts) => {
                if depth == usize::MAX {
                    return None;
                }
                push_children(&mut stack, asts, depth + 1);
            },
        }
    }
    proof {
        assert(all.skip(depths@.len() as int).len() == 0);
        assert(all.take(depths@.len() as int) =~= all);
    }
    Some((depths, ranges))
}

/// Finds all capture groups in the given AST and returns the depth and span of each one
pub fn ast_find_capture_groups(ast: &AstNode) -> (r: (Vec<usize>, Vec<Range<usize>>))
    requires
        ast.walkable(),
    ensures
        r.0@ == group_depths(ast.groups(0)),
        r.1@ == group_ranges(ast.groups(0)),
        r.0@.len() == r.1@.len() == ast.groups(0).len(),
        forall|k: int| 0 <= k < r.1@.len() ==> (#[trigger] ast.groups(0)[k]).index == k + 1,
{
    match try_find_capture_groups(ast) {
        Some(found) => found,
        // Does not happen: the tree can be walked
        None => (Vec::new(), Vec::new()),
    }
}

} // verus!
