use structless::parse::{conclude, convert, parse, parse_with, Grammar, ParseError};
use structless::tree::{ParseTree, Point, Span};

fn kinds(tree: &ParseTree) -> Vec<String> {
    (0..tree.len()).map(|node| tree.kind(node).to_string()).collect()
}

fn sizes(tree: &ParseTree) -> Vec<usize> {
    (0..tree.len()).map(|node| tree.subtree_len(node)).collect()
}

#[test]
fn a_json_array_is_parsed_into_its_tree() {
    let tree = parse("[1, 22]", Grammar::Json, 100).unwrap();
    assert_eq!(
        kinds(&tree),
        vec!["document", "array", "[", "number", ",", "number", "]"]
    );
    assert_eq!(sizes(&tree), vec![7, 6, 1, 1, 1, 1, 1]);
    assert_eq!(tree.children(1), vec![2, 3, 4, 5, 6]);
    assert_eq!(
        tree.span(5),
        Span {
            start_byte: 4,
            end_byte: 6,
            start_point: Point { row: 0, column: 4 },
            end_point: Point { row: 0, column: 6 },
        }
    );
    assert_eq!(tree.span(0).start_byte, 0);
    assert_eq!(tree.span(0).end_byte, 7);
}

#[test]
fn positions_count_rows_and_columns() {
    let tree = parse("[\n  true\n]", Grammar::Json, 100).unwrap();
    assert_eq!(kinds(&tree), vec!["document", "array", "[", "true", "]"]);
    assert_eq!(
        tree.span(3),
        Span {
            start_byte: 4,
            end_byte: 8,
            start_point: Point { row: 1, column: 2 },
            end_point: Point { row: 1, column: 6 },
        }
    );
}

#[test]
fn a_rust_item_is_parsed_into_its_tree() {
    let tree = parse("fn f() {}", Grammar::Rust, 100).unwrap();
    assert_eq!(
        kinds(&tree),
        vec![
            "source_file",
            "function_item",
            "fn",
            "identifier",
            "parameters",
            "(",
            ")",
            "block",
            "{",
            "}",
        ]
    );
    assert_eq!(sizes(&tree), vec![10, 9, 1, 1, 3, 1, 1, 3, 1, 1]);
}

#[test]
fn a_tree_that_is_too_high_is_refused() {
    assert_eq!(parse("[[1]]", Grammar::Json, 2).err(), Some(ParseError::TooDeep));
    assert_eq!(parse("[[1]]", Grammar::Json, 0).err(), Some(ParseError::TooDeep));
    let tree = parse("[[1]]", Grammar::Json, 3).unwrap();
    assert_eq!(
        kinds(&tree),
        vec!["document", "array", "[", "array", "[", "number", "]", "]"]
    );
}

#[test]
fn the_empty_text_is_a_tree_of_one_node() {
    let tree = parse("", Grammar::Json, 0).unwrap();
    assert_eq!(kinds(&tree), vec!["document"]);
}

#[test]
fn parsing_with_a_grammar_at_hand() {
    let tree = parse_with("null", tree_sitter_json::language(), 5).unwrap();
    assert_eq!(kinds(&tree), vec!["document", "null"]);
    let other = parse("null", Grammar::Json, 5).unwrap();
    assert_eq!(kinds(&other), kinds(&tree));
    let rust = parse_with("null", tree_sitter_rust::language(), 5).unwrap();
    assert_eq!(rust.kind(0), "source_file");
}

#[test]
fn a_syntax_node_is_converted_with_its_subtree() {
    let mut parser = tree_sitter::Parser::new();
    parser.set_language(tree_sitter_json::language()).unwrap();
    let syntax = parser.parse("{\"a\": [1]}", None).unwrap();
    let object = syntax.root_node().child(0).unwrap();
    let tree = convert(object, 10).unwrap();
    assert_eq!(
        kinds(&tree),
        vec![
            "object",
            "{",
            "pair",
            "string",
            "\"",
            "string_content",
            "\"",
            ":",
            "array",
            "[",
            "number",
            "]",
            "}",
        ]
    );
    assert_eq!(tree.span(0).end_byte, 10);
    assert!(convert(object, 2).is_none());
    assert!(convert(object, 3).is_some());
}

fn leaf(kind: &str) -> ParseTree {
    let here = Span {
        start_byte: 0,
        end_byte: 0,
        start_point: Point { row: 0, column: 0 },
        end_point: Point { row: 0, column: 0 },
    };
    ParseTree::leaf(kind.to_string(), here)
}

#[test]
fn a_parse_comes_to_the_error_of_the_first_step_that_failed() {
    assert_eq!(
        conclude(false, false, None).err(),
        Some(ParseError::Language)
    );
    assert_eq!(
        conclude(false, true, Some(leaf("x"))).err(),
        Some(ParseError::Language)
    );
    assert_eq!(conclude(true, false, None).err(), Some(ParseError::NoTree));
    assert_eq!(
        conclude(true, false, Some(leaf("x"))).err(),
        Some(ParseError::NoTree)
    );
    assert_eq!(conclude(true, true, None).err(), Some(ParseError::TooDeep));
}

#[test]
fn a_parse_whose_steps_all_went_well_comes_to_its_tree() {
    let tree = conclude(true, true, Some(leaf("only"))).unwrap();
    assert_eq!(kinds(&tree), vec!["only"]);
}

#[test]
fn joining_parts_that_are_all_there_gives_the_branch() {
    let here = leaf("x").span(0);
    let inner = ParseTree::join("inner".to_string(), here, vec![Some(leaf("a"))]).unwrap();
    let tree = ParseTree::join(
        "root".to_string(),
        here,
        vec![Some(leaf("first")), Some(inner), Some(leaf("last"))],
    )
    .unwrap();
    assert_eq!(kinds(&tree), vec!["root", "first", "inner", "a", "last"]);
    assert_eq!(sizes(&tree), vec![5, 1, 2, 1, 1]);
    let bare = ParseTree::join("bare".to_string(), here, Vec::new()).unwrap();
    assert_eq!(kinds(&bare), vec!["bare"]);
    assert_eq!(sizes(&bare), vec![1]);
}

#[test]
fn joining_parts_of_which_one_is_missing_gives_nothing() {
    let here = leaf("x").span(0);
    assert!(ParseTree::join("root".to_string(), here, vec![None]).is_none());
    assert!(
        ParseTree::join("root".to_string(), here, vec![Some(leaf("a")), None, Some(leaf("b"))])
            .is_none()
    );
    assert!(ParseTree::join("root".to_string(), here, vec![Some(leaf("a")), None]).is_none());
}
