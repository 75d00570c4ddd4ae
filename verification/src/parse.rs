//! Building a parse tree from source text with a tree-sitter grammar.
//!
//! The parser and its syntax trees belong to tree-sitter. What it hands out
//! depends on the grammar and the text alone, so it has names here:
//! `language_fits` for whether the parser takes a grammar, `syntax_of` for
//! the syntax tree of a text, `nodes_of` and `arena_of` for what a syntax
//! tree and a syntax node hold. Each is an arena as a `ParseTree` has it:
//! the nodes in document order, each with its kind, its span and the size
//! of its subtree. The parse tree that is built is proved to be that
//! arena.

use crate::tree::{
    concat_trees, flat, lemma_branch_height, lemma_concat_is_flat, lemma_deep_block,
    lemma_flat_block, no_higher, rooted, taken, views_of, well_formed, NodeView, ParseTree, Point,
    Span,
};
use vstd::prelude::*;
use vstd::string::*;

verus! {

/// A tree-sitter grammar.
#[verifier::external_type_specification]
#[verifier::external_body]
pub struct ExLanguage(tree_sitter::Language);

/// The error of a grammar that the parser cannot use.
#[verifier::external_type_specification]
#[verifier::external_body]
pub struct ExLanguageError(tree_sitter::LanguageError);

/// A syntax tree as tree-sitter holds it.
#[verifier::external_type_specification]
#[verifier::external_body]
pub struct ExSyntaxTree(tree_sitter::Tree);

/// A node of a syntax tree as tree-sitter holds it.
#[verifier::external_type_specification]
#[verifier::external_body]
pub struct ExSyntaxNode<'a>(tree_sitter::Node<'a>);

/// Whether tree-sitter's parser takes the grammar.
pub uninterp spec fn language_fits(language: tree_sitter::Language) -> bool;

/// The syntax tree that tree-sitter's parser, given the grammar, hands out
/// for the text, as an arena; none where it hands out none.
pub uninterp spec fn syntax_of(language: tree_sitter::Language, source: Seq<char>) -> Option<
    Seq<NodeView>,
>;

/// The syntax tree that tree-sitter's parser hands out for the text under
/// the grammar of Rust that `tree_sitter_rust::language` hands out.
pub uninterp spec fn rust_syntax(source: Seq<char>) -> Option<Seq<NodeView>>;

/// The syntax tree that tree-sitter's parser hands out for the text under
/// the grammar of JSON that `tree_sitter_json::language` hands out.
pub uninterp spec fn json_syntax(source: Seq<char>) -> Option<Seq<NodeView>>;

/// What a syntax tree holds, as an arena.
pub uninterp spec fn nodes_of(tree: tree_sitter::Tree) -> Seq<NodeView>;

/// What the subtree of a syntax node holds, as an arena.
pub uninterp spec fn arena_of(node: tree_sitter::Node) -> Seq<NodeView>;

/// The arenas of some syntax nodes.
pub open spec fn arenas_of(nodes: Seq<tree_sitter::Node>) -> Seq<Seq<NodeView>> {
    nodes.map_values(|node: tree_sitter::Node| arena_of(node))
}

/// Parses a text under a grammar. Wraps `tree_sitter::Parser::new`,
/// `Parser::set_language` and `Parser::parse`, called on the fresh parser
/// without an earlier tree. `set_language` refuses a grammar by its version
/// alone; the fresh parser has no timeout and no cancellation flag, so
/// what `parse` hands out depends on the grammar and the text alone. The
/// contract gives both their names and claims no more.
#[verifier::external_body]
fn parse_text(language: tree_sitter::Language, source: &str) -> (r: Result<
    Option<tree_sitter::Tree>,
    tree_sitter::LanguageError,
>)
    ensures
        r is Ok <==> language_fits(language),
        r matches Ok(Some(tree)) ==> syntax_of(language, source@) == Some(nodes_of(tree)),
        r matches Ok(None) ==> syntax_of(language, source@) is None,
{
    let mut parser = tree_sitter::Parser::new();
    parser.set_language(language)?;
    Ok(parser.parse(source, None))
}

/// `tree_sitter::Tree::root_node` hands out the root of a syntax tree: the
/// subtree of the root is all that the tree holds.
pub assume_specification<'a>[ tree_sitter::Tree::root_node ](
    tree: &'a tree_sitter::Tree,
) -> (r: tree_sitter::Node<'a>)
    ensures
        arena_of(r) == nodes_of(*tree),
;

/// `tree_sitter::Node::kind` hands out the kind label of a node, which is
/// the kind of the first entry of the node's arena.
pub assume_specification<'a>[ tree_sitter::Node::<'a>::kind ](
    node: &tree_sitter::Node<'a>,
) -> (r: &'static str)
    ensures
        r@ == arena_of(*node)[0].kind,
;

/// `tree_sitter_json::language` hands out the grammar of JSON, the same
/// at every call. The grammar was made for version 14 of tree-sitter's
/// interface, and the parser takes the versions 13 and 14. What the parser
/// hands out under it has the name `json_syntax`.
pub assume_specification[ tree_sitter_json::language ]() -> (r: tree_sitter::Language)
    ensures
        language_fits(r),
        forall|source: Seq<char>| #[trigger] syntax_of(r, source) == json_syntax(source),
;

/// `tree_sitter_rust::language` hands out the grammar of Rust, the same at
/// every call. The grammar was made for version 14 of tree-sitter's
/// interface, and the parser takes the versions 13 and 14. What the parser
/// hands out under it has the name `rust_syntax`.
pub assume_specification[ tree_sitter_rust::language ]() -> (r: tree_sitter::Language)
    ensures
        language_fits(r),
        forall|source: Seq<char>| #[trigger] syntax_of(r, source) == rust_syntax(source),
;

/// The stretch of source text that a node covers. Wraps
/// `tree_sitter::Node::range` and hands out its four fields as they are;
/// they are the span of the first entry of the node's arena.
#[verifier::external_body]
fn span_of(node: &tree_sitter::Node) -> (r: Span)
    ensures
        r == arena_of(*node)[0].span,
{
    let range = node.range();
    Span {
        start_byte: range.start_byte,
        end_byte: range.end_byte,
        start_point: Point { row: range.start_point.row, column: range.start_point.column },
        end_point: Point { row: range.end_point.row, column: range.end_point.column },
    }
}

/// The children of a syntax node, in order. Wraps
/// `tree_sitter::Node::children` on a cursor of the node's own
/// (`Node::walk`). The arena of a node is the node's own entry, whose
/// subtree is all of the arena, followed by the arenas of its children in
/// order; and the arena of a child holds at least the child.
#[verifier::external_body]
fn children_of<'a>(node: &tree_sitter::Node<'a>) -> (r: Vec<tree_sitter::Node<'a>>)
    ensures
        arena_of(*node) == seq![
            NodeView {
                kind: arena_of(*node)[0].kind,
                span: arena_of(*node)[0].span,
                size: 1 + flat(arenas_of(r@)).len(),
            },
        ] + flat(arenas_of(r@)),
        forall|k: int| 0 <= k < r@.len() ==> arena_of(#[trigger] r@[k]).len() >= 1,
{
    node.children(&mut node.walk()).collect()
}

/// The grammars that are built in.
#[derive(Clone, Copy, Debug, PartialEq, Eq, Structural)]
pub enum Grammar {
    Rust,
    Json,
}

/// Why no parse tree was built.
#[derive(Clone, Copy, Debug, PartialEq, Eq, Structural)]
pub enum ParseError {
    /// The parser cannot use the grammar.
    Language,
    /// The parser handed out no syntax tree.
    NoTree,
    /// The syntax tree is higher than allowed.
    TooDeep,
}

/// What a parse comes to: the error of the first step that failed, or the
/// tree that was built. The steps are giving the parser its grammar,
/// parsing, and building the tree.
pub open spec fn conclusion(
    language_set: bool,
    parsed: bool,
    built: Option<ParseTree>,
) -> Result<ParseTree, ParseError> {
    if !language_set {
        Err(ParseError::Language)
    } else if !parsed {
        Err(ParseError::NoTree)
    } else {
        match built {
            Some(tree) => Ok(tree),
            None => Err(ParseError::TooDeep),
        }
    }
}

/// What a parse comes to, given how its steps went: whether the parser
/// took the grammar, whether it handed out a syntax tree, and the parse
/// tree that was built from it, if one was.
pub fn conclude(language_set: bool, parsed: bool, built: Option<ParseTree>) -> (r: Result<
    ParseTree,
    ParseError,
>)
    ensures
        r == conclusion(language_set, parsed, built),
{
    if !language_set {
        Err(ParseError::Language)
    } else if !parsed {
        Err(ParseError::NoTree)
    } else {
        match built {
            Some(tree) => Ok(tree),
            None => Err(ParseError::TooDeep),
        }
    }
}

/// The arena that is built from a syntax arena: the arena itself, if it
/// is no higher than `max_depth`, and none if it is higher.
pub open spec fn built(syntax: Seq<NodeView>, max_depth: int) -> Option<Seq<NodeView>> {
    if no_higher(syntax, max_depth) {
        Some(syntax)
    } else {
        None
    }
}

/// What a parse is to come to: `Language` where the parser does not take
/// the grammar, `NoTree` where it hands out no syntax tree, `TooDeep` where
/// the syntax tree is higher than `max_depth`, and the syntax tree
/// otherwise.
pub open spec fn expected(
    fits: bool,
    syntax: Option<Seq<NodeView>>,
    max_depth: int,
) -> Result<Seq<NodeView>, ParseError> {
    if !fits {
        Err(ParseError::Language)
    } else {
        match syntax {
            None => Err(ParseError::NoTree),
            Some(nodes) => match built(nodes, max_depth) {
                Some(arena) => Ok(arena),
                None => Err(ParseError::TooDeep),
            },
        }
    }
}

/// A tree that was built, taken by its view.
pub open spec fn tree_view(tree: Option<ParseTree>) -> Option<Seq<NodeView>> {
    match tree {
        Some(tree) => Some(tree@),
        None => None,
    }
}

/// The result of a parse, its tree taken by its view.
pub open spec fn result_view(r: Result<ParseTree, ParseError>) -> Result<
    Seq<NodeView>,
    ParseError,
> {
    match r {
        Ok(tree) => Ok(tree@),
        Err(error) => Err(error),
    }
}

/// The parse tree of the subtree of a syntax node: the node's arena, if
/// that is no higher than `max_depth`, and none if it is higher.
pub fn convert(node: tree_sitter::Node, max_depth: usize) -> (r: Option<ParseTree>)
    ensures
        tree_view(r) == built(arena_of(node), max_depth as int),
        rooted(arena_of(node)),
    decreases max_depth,
{
    let kind = String::from_str(node.kind());
    let span = span_of(&node);
    let kids = children_of(&node);
    let ghost all = arena_of(node);
    let ghost below = arenas_of(kids@);
    let ghost root = NodeView { kind: kind@, span, size: 1 + flat(below).len() };
    assert(all == seq![root] + flat(below));
    assert(all[0] == root);
    if kids.len() > 0 && max_depth == 0 {
        proof {
            lemma_flat_block(below, 0);
            assert(below[0] == arena_of(kids@[0]));
        }
        return None;
    }
    let mut parts: Vec<Option<ParseTree>> = Vec::new();
    let mut i: usize = 0;
    while i < kids.len()
        invariant
            i <= kids@.len(),
            parts@.len() == i,
            below == arenas_of(kids@),
            max_depth > 0 || kids@.len() == 0,
            forall|k: int|
                0 <= k < i ==> rooted(#[trigger] below[k]) && tree_view(parts@[k]) == built(
                    below[k],
                    max_depth - 1,
                ) && (parts@[k] matches Some(tree) ==> well_formed(tree@)),
        decreases kids.len() - i,
    {
        let part = convert(kids[i], max_depth - 1);
        proof {
            assert(below[i as int] == arena_of(kids@[i as int]));
        }
        match &part {
            Some(tree) => {
                let _ = tree.len();
            },
            None => {},
        }
        parts.push(part);
        i = i + 1;
    }
    let ghost held = parts@;
    let made = ParseTree::join(kind, span, parts);
    proof {
        if made is Some {
            assert(views_of(taken(held)) =~= below);
            lemma_concat_is_flat(taken(held));
            assert forall|k: int| 0 <= k < taken(held).len() implies well_formed(
                (#[trigger] taken(held)[k])@,
            ) && no_higher(taken(held)[k]@, max_depth - 1) by {
                assert(held[k] is Some);
                assert(rooted(below[k]));
            }
            lemma_branch_height(root, taken(held), max_depth as int);
        } else {
            let j = choose|j: int| 0 <= j < held.len() && !(#[trigger] held[j] is Some);
            assert(rooted(below[j]));
            assert forall|k: int| 0 <= k <= j implies rooted(#[trigger] below[k]) by {}
            lemma_deep_block(root, below, j, max_depth as int);
        }
    }
    made
}

/// The syntax tree that tree-sitter's parser hands out for the text under
/// the built-in grammar of a name.
pub open spec fn builtin_syntax(grammar: Grammar, source: Seq<char>) -> Option<Seq<NodeView>> {
    match grammar {
        Grammar::Rust => rust_syntax(source),
        Grammar::Json => json_syntax(source),
    }
}

/// The grammar of a name: what `tree_sitter_rust::language` or
/// `tree_sitter_json::language` hands out. The parser takes it, and what
/// it hands out under it is the syntax of that name.
fn language_of(grammar: Grammar) -> (r: tree_sitter::Language)
    ensures
        language_fits(r),
        forall|source: Seq<char>| #[trigger] syntax_of(r, source) == builtin_syntax(grammar, source),
{
    match grammar {
        Grammar::Rust => tree_sitter_rust::language(),
        Grammar::Json => tree_sitter_json::language(),
    }
}

/// Parses a text with a grammar and builds the parse tree: the syntax
/// tree that tree-sitter hands out for the text, if the parser takes the
/// grammar, hands out a syntax tree, and that tree is no higher than
/// `max_depth`; else the error that says which of these failed.
pub fn parse_with(source: &str, language: tree_sitter::Language, max_depth: usize) -> (r: Result<
    ParseTree,
    ParseError,
>)
    ensures
        result_view(r) == expected(
            language_fits(language),
            syntax_of(language, source@),
            max_depth as int,
        ),
{
    match parse_text(language, source) {
        Err(_) => conclude(false, false, None),
        Ok(None) => conclude(true, false, None),
        Ok(Some(syntax)) => conclude(true, true, convert(syntax.root_node(), max_depth)),
    }
}

/// Parses a text with a built-in grammar and builds the parse tree: the
/// syntax tree that tree-sitter hands out for the text under the grammar of
/// that name, if it hands one out and that tree is no higher than
/// `max_depth`; else the error that says which of the two failed. The
/// parser takes every built-in grammar.
pub fn parse(source: &str, grammar: Grammar, max_depth: usize) -> (r: Result<ParseTree, ParseError>)
    ensures
        result_view(r) == expected(true, builtin_syntax(grammar, source@), max_depth as int),
{
    parse_with(source, language_of(grammar), max_depth)
}

} // verus!
