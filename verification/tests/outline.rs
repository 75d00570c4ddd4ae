use structless::fold::FoldSet;
use structless::outline::{flatten, Line, LineKind};
use structless::search::{contains, filter, node_text};
use structless::tree::{span_ranges, Point, Span, ParseTree};

fn span(start: usize, end: usize) -> Span {
    Span {
        start_byte: start,
        end_byte: end,
        start_point: Point { row: 0, column: start },
        end_point: Point { row: 0, column: end },
    }
}

fn leaf(kind: &str, start: usize, end: usize) -> ParseTree {
    ParseTree::leaf(kind.to_string(), span(start, end))
}

fn branch(kind: &str, start: usize, end: usize, children: Vec<ParseTree>) -> ParseTree {
    ParseTree::branch(kind.to_string(), span(start, end), children)
}

fn line(node: usize, indent: usize, kind: LineKind) -> Line {
    Line { node, indent, kind }
}

/// The chain root -> b -> c -> text over the source `a(b(c)d)e`.
fn chain() -> ParseTree {
    branch(
        "root",
        0,
        9,
        vec![branch(
            "b",
            1,
            8,
            vec![branch("c", 3, 6, vec![leaf("text", 4, 5)])],
        )],
    )
}

/// root
///   first: "foo"
///   group
///     inner: "needle"
///   last: "bar"
fn bushy() -> (ParseTree, &'static str) {
    let tree = branch(
        "root",
        0,
        16,
        vec![
            leaf("first", 0, 3),
            branch("group", 4, 12, vec![leaf("inner", 5, 11)]),
            leaf("last", 13, 16),
        ],
    );
    (tree, "foo (needle) bar")
}

fn well_nested(lines: &[Line]) -> bool {
    let has_partner = |at: usize, forward: bool| -> bool {
        let here = lines[at];
        let mut k = at;
        loop {
            if forward {
                k += 1;
                if k >= lines.len() {
                    return false;
                }
            } else {
                if k == 0 {
                    return false;
                }
                k -= 1;
            }
            let there = lines[k];
            if there.indent <= here.indent {
                let wanted = if forward { LineKind::End } else { LineKind::Start };
                return there.indent == here.indent
                    && there.node == here.node
                    && there.kind == wanted;
            }
        }
    };
    (0..lines.len()).all(|at| match lines[at].kind {
        LineKind::Start => has_partner(at, true),
        LineKind::End => has_partner(at, false),
        LineKind::Whole => true,
    })
}

#[test]
fn a_tree_is_stored_in_document_order() {
    let (tree, _) = bushy();
    assert_eq!(tree.len(), 5);
    assert_eq!(tree.kind(0), "root");
    assert_eq!(tree.kind(1), "first");
    assert_eq!(tree.kind(2), "group");
    assert_eq!(tree.kind(3), "inner");
    assert_eq!(tree.kind(4), "last");
    assert_eq!(tree.subtree_len(0), 5);
    assert_eq!(tree.subtree_len(1), 1);
    assert_eq!(tree.subtree_len(2), 2);
    assert_eq!(tree.span(3), span(5, 11));
}

#[test]
fn children_and_descendants() {
    let (tree, _) = bushy();
    assert_eq!(tree.children(0), vec![1, 2, 4]);
    assert_eq!(tree.children(2), vec![3]);
    assert_eq!(tree.children(3), Vec::<usize>::new());
    assert_eq!(tree.descendants(0), vec![1, 3, 2, 4]);
    assert_eq!(tree.descendants(2), vec![3]);
    assert_eq!(tree.descendants(4), Vec::<usize>::new());
    assert_eq!(chain().descendants(0), vec![3, 2, 1]);
    assert_eq!(chain().descendants(1), vec![3, 2]);
    let wide = branch(
        "root",
        0,
        9,
        vec![
            branch("a", 0, 3, vec![leaf("b", 0, 1), leaf("c", 1, 2)]),
            branch("d", 3, 9, vec![branch("e", 3, 6, vec![leaf("f", 3, 4)]), leaf("g", 7, 8)]),
        ],
    );
    assert_eq!(wide.descendants(0), vec![2, 3, 1, 6, 5, 7, 4]);
    assert_eq!(wide.descendants(4), vec![6, 5, 7]);
}

#[test]
fn a_leaf_is_one_whole_line() {
    let tree = leaf("only", 0, 1);
    let lines = flatten(&tree, 0, 0, &FoldSet::new());
    assert_eq!(lines, vec![line(0, 0, LineKind::Whole)]);
}

#[test]
fn an_unfolded_tree_is_bracketed_by_start_and_end_lines() {
    let (tree, _) = bushy();
    let lines = flatten(&tree, 0, 0, &FoldSet::new());
    assert_eq!(
        lines,
        vec![
            line(0, 0, LineKind::Start),
            line(1, 1, LineKind::Whole),
            line(2, 1, LineKind::Start),
            line(3, 2, LineKind::Whole),
            line(2, 1, LineKind::End),
            line(4, 1, LineKind::Whole),
            line(0, 0, LineKind::End),
        ]
    );
    assert!(well_nested(&lines));
}

#[test]
fn a_folded_node_is_one_whole_line() {
    let (tree, _) = bushy();
    let mut folded = FoldSet::new();
    folded.fold(&tree, 2);
    let lines = flatten(&tree, 0, 0, &folded);
    assert_eq!(
        lines,
        vec![
            line(0, 0, LineKind::Start),
            line(1, 1, LineKind::Whole),
            line(2, 1, LineKind::Whole),
            line(4, 1, LineKind::Whole),
            line(0, 0, LineKind::End),
        ]
    );
    let mut folded = FoldSet::new();
    folded.fold(&tree, 0);
    assert_eq!(
        flatten(&tree, 0, 0, &folded),
        vec![line(0, 0, LineKind::Whole)]
    );
}

#[test]
fn folding_c_in_the_chain_leaves_five_lines() {
    let tree = chain();
    let mut folded = FoldSet::new();
    folded.fold(&tree, 2);
    let lines = flatten(&tree, 0, 0, &folded);
    assert_eq!(lines.len(), 2 * 2 + 1);
    assert_eq!(
        lines,
        vec![
            line(0, 0, LineKind::Start),
            line(1, 1, LineKind::Start),
            line(2, 2, LineKind::Whole),
            line(1, 1, LineKind::End),
            line(0, 0, LineKind::End),
        ]
    );
    assert_eq!(tree.kind(2), "c");
}

#[test]
fn a_subtree_can_be_flattened_at_any_depth() {
    let (tree, _) = bushy();
    let lines = flatten(&tree, 2, 7, &FoldSet::new());
    assert_eq!(
        lines,
        vec![
            line(2, 7, LineKind::Start),
            line(3, 8, LineKind::Whole),
            line(2, 7, LineKind::End),
        ]
    );
}

#[test]
fn flatten_gives_the_same_lines_each_time() {
    let (tree, _) = bushy();
    let mut folded = FoldSet::new();
    folded.fold(&tree, 2);
    assert_eq!(flatten(&tree, 0, 0, &folded), flatten(&tree, 0, 0, &folded));
}

#[test]
fn a_deep_tree_is_flattened_without_recursion() {
    let mut tree = leaf("bottom", 0, 0);
    let depth = 20_000;
    for _ in 0..depth {
        tree = branch("level", 0, 0, vec![tree]);
    }
    let lines = flatten(&tree, 0, 0, &FoldSet::new());
    assert_eq!(lines.len(), 2 * depth + 1);
    assert_eq!(lines[depth], line(depth, depth, LineKind::Whole));
    assert_eq!(lines[2 * depth], line(0, 0, LineKind::End));
}

#[test]
fn fold_then_unfold_restores_the_outline() {
    let (tree, _) = bushy();
    let mut folded = FoldSet::new();
    let before = flatten(&tree, 0, 0, &folded);
    folded.fold(&tree, 2);
    assert_ne!(flatten(&tree, 0, 0, &folded), before);
    folded.unfold(&tree, 2);
    assert_eq!(flatten(&tree, 0, 0, &folded), before);
    assert!(!folded.contains(2));
}

#[test]
fn folding_twice_folds_everything_below() {
    let (tree, _) = bushy();
    let mut folded = FoldSet::new();
    folded.fold(&tree, 0);
    assert!(folded.contains(0));
    assert!(!folded.contains(1));
    folded.fold(&tree, 0);
    for node in 0..5 {
        assert!(folded.contains(node));
    }
    folded.unfold(&tree, 0);
    assert!(!folded.contains(0));
    assert_eq!(
        flatten(&tree, 0, 0, &folded),
        vec![
            line(0, 0, LineKind::Start),
            line(1, 1, LineKind::Whole),
            line(2, 1, LineKind::Whole),
            line(4, 1, LineKind::Whole),
            line(0, 0, LineKind::End),
        ]
    );
}

#[test]
fn unfolding_twice_unfolds_everything_below() {
    let (tree, _) = bushy();
    let mut folded = FoldSet::all_folded(&tree);
    folded.unfold(&tree, 0);
    assert!(!folded.contains(0));
    assert!(folded.contains(2));
    assert!(folded.contains(3));
    folded.unfold(&tree, 0);
    for node in 0..5 {
        assert!(!folded.contains(node));
    }
}

#[test]
fn unfolding_an_unfolded_node_twice_unfolds_everything_below() {
    let (tree, _) = bushy();
    let mut folded = FoldSet::new();
    folded.fold(&tree, 2);
    folded.fold(&tree, 3);
    folded.unfold(&tree, 0);
    folded.unfold(&tree, 0);
    for node in 0..5 {
        assert!(!folded.contains(node));
    }
}

#[test]
fn toggle_folds_and_unfolds_one_node() {
    let (tree, _) = bushy();
    let mut folded = FoldSet::new();
    folded.toggle(2);
    assert!(folded.contains(2));
    assert!(!folded.contains(3));
    folded.toggle(2);
    assert!(!folded.contains(2));
    folded.fold(&tree, 2);
    folded.toggle(2);
    assert!(!folded.contains(2));
}

#[test]
fn contains_finds_a_needle_anywhere() {
    assert!(contains(b"haystack", b"hay"));
    assert!(contains(b"haystack", b"stack"));
    assert!(contains(b"haystack", b"yst"));
    assert!(contains(b"haystack", b"haystack"));
    assert!(contains(b"haystack", b""));
    assert!(contains(b"", b""));
    assert!(!contains(b"haystack", b"Hay"));
    assert!(!contains(b"haystack", b"haystacks"));
    assert!(!contains(b"", b"a"));
    assert!(!contains(b"aab", b"abb"));
}

#[test]
fn node_text_is_the_covered_part_of_the_source() {
    let source = b"foo (needle) bar";
    assert_eq!(node_text(source, span(5, 11)), b"needle");
    assert_eq!(node_text(source, span(0, 16)), &source[..]);
    assert_eq!(node_text(source, span(3, 3)), b"");
    assert_eq!(node_text(source, span(5, 17)), b"");
    assert_eq!(node_text(source, span(7, 5)), b"");
}

#[test]
fn the_empty_term_filters_nothing_out() {
    let (tree, source) = bushy();
    let lines = flatten(&tree, 0, 0, &FoldSet::new());
    assert_eq!(filter(&lines, &tree, source, ""), lines);
    let none: Vec<Line> = Vec::new();
    assert_eq!(filter(&none, &tree, source, ""), none);
}

#[test]
fn a_term_in_a_deep_leaf_keeps_the_leaf_and_what_encloses_it() {
    let (tree, source) = bushy();
    let lines = flatten(&tree, 0, 0, &FoldSet::new());
    let kept = filter(&lines, &tree, source, "needle");
    assert!(!kept.is_empty());
    assert_eq!(
        kept,
        vec![
            line(0, 0, LineKind::Start),
            line(2, 1, LineKind::Start),
            line(3, 2, LineKind::Whole),
            line(2, 1, LineKind::End),
            line(0, 0, LineKind::End),
        ]
    );
    assert!(well_nested(&kept));
}

#[test]
fn the_filter_is_case_sensitive() {
    let (tree, source) = bushy();
    let lines = flatten(&tree, 0, 0, &FoldSet::new());
    assert!(filter(&lines, &tree, source, "Needle").is_empty());
    assert_eq!(
        filter(&lines, &tree, source, "bar"),
        vec![
            line(0, 0, LineKind::Start),
            line(4, 1, LineKind::Whole),
            line(0, 0, LineKind::End),
        ]
    );
}

#[test]
fn a_line_of_no_node_passes_the_empty_term_only() {
    let (tree, source) = bushy();
    let stray = vec![line(99, 0, LineKind::Whole)];
    assert_eq!(filter(&stray, &tree, source, ""), stray);
    assert!(filter(&stray, &tree, source, "f").is_empty());
}

#[test]
fn smaller_child_range_descends_along_first_children() {
    let tree = chain();
    assert_eq!(
        tree.get_smaller_child_range(0),
        Some(span_ranges(span(1, 8), span(1, 8)))
    );
    assert_eq!(tree.get_smaller_child_range(3), None);
    let same = branch(
        "outer",
        0,
        4,
        vec![branch("middle", 0, 4, vec![leaf("x", 0, 1), leaf("y", 2, 3)])],
    );
    assert_eq!(same.get_smaller_child_range(0), Some(span(0, 3)));
    let never = branch("outer", 0, 4, vec![leaf("all", 0, 4)]);
    assert_eq!(never.get_smaller_child_range(0), None);
}

#[test]
fn span_ranges_goes_from_the_first_start_to_the_last_end() {
    let a = Span {
        start_byte: 2,
        end_byte: 5,
        start_point: Point { row: 1, column: 2 },
        end_point: Point { row: 1, column: 5 },
    };
    let b = Span {
        start_byte: 7,
        end_byte: 9,
        start_point: Point { row: 2, column: 0 },
        end_point: Point { row: 2, column: 2 },
    };
    assert_eq!(
        span_ranges(a, b),
        Span {
            start_byte: 2,
            end_byte: 9,
            start_point: Point { row: 1, column: 2 },
            end_point: Point { row: 2, column: 2 },
        }
    );
}

#[test]
fn every_shown_node_has_its_one_line_or_pair_and_a_hidden_node_none() {
    let (tree, _) = bushy();
    let mut folded = FoldSet::new();
    folded.fold(&tree, 2);
    let lines = flatten(&tree, 0, 0, &folded);
    let count = |node: usize, kind: LineKind| {
        lines
            .iter()
            .filter(|l| l.node == node && l.kind == kind)
            .count()
    };
    let counts = |node: usize| {
        (
            count(node, LineKind::Whole),
            count(node, LineKind::Start),
            count(node, LineKind::End),
        )
    };
    assert_eq!(counts(0), (0, 1, 1));
    assert_eq!(counts(1), (1, 0, 0));
    assert_eq!(counts(2), (1, 0, 0));
    assert_eq!(counts(3), (0, 0, 0));
    assert_eq!(counts(4), (1, 0, 0));
}

#[test]
fn a_child_is_indented_one_more_than_its_parent() {
    let tree = chain();
    let lines = flatten(&tree, 0, 3, &FoldSet::new());
    let indents: Vec<usize> = lines.iter().map(|l| l.indent).collect();
    assert_eq!(indents, vec![3, 4, 5, 6, 5, 4, 3]);
}
