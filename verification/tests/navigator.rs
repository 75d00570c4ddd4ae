use structless::navigator::{
    command_for, Action, App, Command, FoldPolicy, InputMode, Key, ViewMode,
};
use structless::outline::{Line, LineKind};
use structless::tree::{Point, Span, ParseTree};

fn span(start: usize, end: usize) -> Span {
    Span {
        start_byte: start,
        end_byte: end,
        start_point: Point { row: 0, column: start },
        end_point: Point { row: 0, column: end },
    }
}

fn leaf(kind: &str, start: usize, end: usize) -> ParseTree {
    ParseTree::leaf(kind.to_string(), span(start, end))
}

fn branch(kind: &str, start: usize, end: usize, children: Vec<ParseTree>) -> ParseTree {
    ParseTree::branch(kind.to_string(), span(start, end), children)
}

fn line(node: usize, indent: usize, kind: LineKind) -> Line {
    Line { node, indent, kind }
}

fn bushy(policy: FoldPolicy) -> App {
    let tree = branch(
        "root",
        0,
        16,
        vec![
            leaf("first", 0, 3),
            branch("group", 4, 12, vec![leaf("inner", 5, 11)]),
            leaf("last", 13, 16),
        ],
    );
    App::new(tree, "foo (needle) bar".to_string(), policy)
}

fn press(app: App, keys: &[Key]) -> App {
    let mut app = app;
    for key in keys {
        let (next, action) = app.handle_key(*key);
        assert_eq!(action, Action::Continue);
        app = next;
        assert!(app.cursor() < app.visible_lines().len());
    }
    app
}

fn typed(text: &str) -> Vec<Key> {
    let mut keys = vec![Key::Char('/')];
    keys.extend(text.chars().map(Key::Char));
    keys
}

#[test]
fn the_initial_state() {
    let app = bushy(FoldPolicy::AllFolded);
    assert_eq!(app.cursor(), 0);
    assert_eq!(app.search_term(), "");
    assert_eq!(app.input_mode(), InputMode::Normal);
    assert_eq!(app.view_mode(), ViewMode::Outline);
    assert_eq!(app.source(), "foo (needle) bar");
    assert_eq!(app.tree().len(), 5);
    assert_eq!(app.visible_lines(), vec![line(0, 0, LineKind::Whole)]);
    for node in 0..5 {
        assert!(app.is_folded(node));
    }
    let app = bushy(FoldPolicy::AllUnfolded);
    assert_eq!(app.visible_lines().len(), 7);
    for node in 0..5 {
        assert!(!app.is_folded(node));
    }
}

#[test]
fn a_tree_starts_folded_unless_told_otherwise() {
    assert_eq!(FoldPolicy::default(), FoldPolicy::AllFolded);
    let app = bushy(FoldPolicy::default());
    assert_eq!(app.visible_lines(), vec![line(0, 0, LineKind::Whole)]);
}

#[test]
fn key_bindings() {
    let normal = InputMode::Normal;
    assert_eq!(command_for(normal, Key::Char('/')), Command::StartSearch);
    assert_eq!(command_for(normal, Key::Char('q')), Command::Quit);
    assert_eq!(command_for(normal, Key::Down), Command::MoveDown);
    assert_eq!(command_for(normal, Key::Char('s')), Command::MoveDown);
    assert_eq!(command_for(normal, Key::Up), Command::MoveUp);
    assert_eq!(command_for(normal, Key::Char('w')), Command::MoveUp);
    assert_eq!(command_for(normal, Key::Right), Command::Expand);
    assert_eq!(command_for(normal, Key::Char('d')), Command::Expand);
    assert_eq!(command_for(normal, Key::Left), Command::Collapse);
    assert_eq!(command_for(normal, Key::Char('a')), Command::Collapse);
    assert_eq!(command_for(normal, Key::Char(' ')), Command::Toggle);
    assert_eq!(command_for(normal, Key::Char('p')), Command::Parent);
    assert_eq!(command_for(normal, Key::Char('c')), Command::FirstChild);
    assert_eq!(command_for(normal, Key::Char('n')), Command::NextSibling);
    assert_eq!(command_for(normal, Key::Enter), Command::SwitchView);
    assert_eq!(command_for(normal, Key::Char('x')), Command::Nothing);
    assert_eq!(command_for(normal, Key::Backspace), Command::Nothing);
    assert_eq!(command_for(normal, Key::Esc), Command::Nothing);
    assert_eq!(command_for(normal, Key::Other), Command::Nothing);
    let editing = InputMode::Editing;
    assert_eq!(command_for(editing, Key::Char('q')), Command::Insert('q'));
    assert_eq!(command_for(editing, Key::Char('/')), Command::Insert('/'));
    assert_eq!(command_for(editing, Key::Backspace), Command::DeleteBack);
    assert_eq!(command_for(editing, Key::Esc), Command::StopSearch);
    assert_eq!(command_for(editing, Key::Enter), Command::Nothing);
    assert_eq!(command_for(editing, Key::Down), Command::Nothing);
    assert_eq!(command_for(editing, Key::Other), Command::Nothing);
}

#[test]
fn q_quits_and_changes_nothing() {
    let app = press(bushy(FoldPolicy::AllUnfolded), &[Key::Down, Key::Down]);
    let (app, action) = app.handle_key(Key::Char('q'));
    assert_eq!(action, Action::Quit);
    assert_eq!(app.cursor(), 2);
    assert_eq!(app.visible_lines().len(), 7);
}

#[test]
fn the_cursor_moves_down_and_stops_at_the_last_line() {
    let mut app = bushy(FoldPolicy::AllUnfolded);
    for expected in [1, 2, 3, 4, 5, 6, 6, 6] {
        app = press(app, &[Key::Down]);
        assert_eq!(app.cursor(), expected);
    }
}

#[test]
fn the_cursor_moves_up_and_stops_at_the_first_line() {
    let mut app = press(bushy(FoldPolicy::AllUnfolded), &[Key::Down, Key::Char('s')]);
    for expected in [1, 0, 0, 0] {
        app = press(app, &[Key::Up]);
        assert_eq!(app.cursor(), expected);
    }
    let app = press(app, &[Key::Down, Key::Char('w')]);
    assert_eq!(app.cursor(), 0);
}

#[test]
fn the_cursor_stays_put_on_a_tree_of_one_line() {
    let app = App::new(leaf("only", 0, 1), "x".to_string(), FoldPolicy::AllUnfolded);
    let app = press(
        app,
        &[
            Key::Down,
            Key::Down,
            Key::Up,
            Key::Up,
            Key::Left,
            Key::Left,
            Key::Right,
            Key::Right,
            Key::Char(' '),
            Key::Enter,
            Key::Enter,
            Key::Char('/'),
            Key::Char('z'),
            Key::Backspace,
            Key::Backspace,
            Key::Esc,
            Key::Down,
        ],
    );
    assert_eq!(app.cursor(), 0);
    assert_eq!(app.visible_lines(), vec![line(0, 0, LineKind::Whole)]);
}

#[test]
fn expanding_step_by_step_from_the_folded_tree() {
    let app = bushy(FoldPolicy::AllFolded);
    let app = press(app, &[Key::Right]);
    assert_eq!(
        app.visible_lines(),
        vec![
            line(0, 0, LineKind::Start),
            line(1, 1, LineKind::Whole),
            line(2, 1, LineKind::Whole),
            line(4, 1, LineKind::Whole),
            line(0, 0, LineKind::End),
        ]
    );
    assert!(app.is_folded(2));
    let app = press(app, &[Key::Right]);
    assert_eq!(app.visible_lines().len(), 7);
    assert!(!app.is_folded(2));
    assert!(!app.is_folded(3));
}

#[test]
fn collapsing_clamps_the_cursor() {
    let app = bushy(FoldPolicy::AllUnfolded);
    let app = press(app, &[Key::Down; 6]);
    assert_eq!(app.cursor(), 6);
    assert_eq!(app.selected_node(), 0);
    let app = press(app, &[Key::Left]);
    assert_eq!(app.visible_lines(), vec![line(0, 0, LineKind::Whole)]);
    assert_eq!(app.cursor(), 0);
    let app = press(app, &[Key::Left]);
    for node in 0..5 {
        assert!(app.is_folded(node));
    }
    assert_eq!(app.cursor(), 0);
}

#[test]
fn collapse_and_expand_at_the_cursor_restore_the_lines() {
    let app = press(bushy(FoldPolicy::AllUnfolded), &[Key::Down, Key::Down]);
    assert_eq!(app.selected_node(), 2);
    let before = app.visible_lines();
    let app = press(app, &[Key::Char('a')]);
    assert_eq!(app.visible_lines().len(), 5);
    assert_eq!(app.cursor(), 2);
    let app = press(app, &[Key::Char('d')]);
    assert_eq!(app.visible_lines(), before);
    assert_eq!(app.cursor(), 2);
}

#[test]
fn toggle_at_the_cursor() {
    let app = press(bushy(FoldPolicy::AllUnfolded), &[Key::Down, Key::Down]);
    let app = press(app, &[Key::Char(' ')]);
    assert!(app.is_folded(2));
    assert!(!app.is_folded(3));
    let app = press(app, &[Key::Char(' ')]);
    assert!(!app.is_folded(2));
    assert_eq!(app.visible_lines().len(), 7);
}

#[test]
fn switching_the_view_twice_returns_to_the_outline() {
    let app = press(bushy(FoldPolicy::AllUnfolded), &[Key::Down, Key::Down, Key::Down]);
    assert_eq!(app.view_mode(), ViewMode::Outline);
    let app = press(app, &[Key::Enter]);
    assert_eq!(app.view_mode(), ViewMode::Source);
    assert_eq!(app.cursor(), 3);
    let app = press(app, &[Key::Enter]);
    assert_eq!(app.view_mode(), ViewMode::Outline);
    assert_eq!(app.cursor(), 3);
}

#[test]
fn the_source_view_shows_the_text_of_the_selected_node() {
    let app = press(bushy(FoldPolicy::AllUnfolded), &[Key::Down, Key::Down, Key::Down]);
    assert_eq!(app.selected_node(), 3);
    assert_eq!(app.selected_text(), b"needle");
    let app = press(app, &[Key::Up]);
    assert_eq!(app.selected_text(), b"(needle)");
}

#[test]
fn typing_a_search_term() {
    let app = bushy(FoldPolicy::AllUnfolded);
    let app = press(app, &[Key::Char('/')]);
    assert_eq!(app.input_mode(), InputMode::Editing);
    let app = press(app, &[Key::Char('b'), Key::Char('a'), Key::Char('q')]);
    assert_eq!(app.search_term(), "baq");
    let app = press(app, &[Key::Backspace]);
    assert_eq!(app.search_term(), "ba");
    assert_eq!(
        app.visible_lines(),
        vec![
            line(0, 0, LineKind::Start),
            line(4, 1, LineKind::Whole),
            line(0, 0, LineKind::End),
        ]
    );
    let app = press(app, &[Key::Enter, Key::Esc]);
    assert_eq!(app.input_mode(), InputMode::Normal);
    assert_eq!(app.search_term(), "ba");
    let app = press(app, &[Key::Char('/'), Key::Backspace, Key::Backspace, Key::Backspace]);
    assert_eq!(app.search_term(), "");
    assert_eq!(app.visible_lines().len(), 7);
}

#[test]
fn a_term_in_a_deep_leaf_narrows_the_outline() {
    let app = press(bushy(FoldPolicy::AllUnfolded), &typed("needle"));
    let lines = app.visible_lines();
    assert_eq!(
        lines,
        vec![
            line(0, 0, LineKind::Start),
            line(2, 1, LineKind::Start),
            line(3, 2, LineKind::Whole),
            line(2, 1, LineKind::End),
            line(0, 0, LineKind::End),
        ]
    );
}

#[test]
fn a_term_that_matches_nothing_shows_the_whole_outline() {
    let app = press(bushy(FoldPolicy::AllUnfolded), &[Key::Down; 4]);
    assert!(app.has_matches());
    let app = press(app, &typed("zzz"));
    assert_eq!(app.search_term(), "zzz");
    assert!(!app.has_matches());
    assert_eq!(app.visible_lines().len(), 7);
    assert_eq!(app.cursor(), 4);
    let app = press(app, &[Key::Esc, Key::Down, Key::Down, Key::Down]);
    assert_eq!(app.cursor(), 6);
}

#[test]
fn the_cursor_follows_its_line_when_the_term_changes() {
    let app = press(bushy(FoldPolicy::AllUnfolded), &[Key::Down; 5]);
    assert_eq!(app.selected_node(), 4);
    let app = press(app, &typed("bar"));
    assert_eq!(app.cursor(), 1);
    assert_eq!(app.selected_node(), 4);
    let app = press(app, &[Key::Backspace, Key::Backspace, Key::Backspace]);
    assert_eq!(app.cursor(), 5);
    assert_eq!(app.selected_node(), 4);
}

#[test]
fn the_cursor_is_clamped_when_its_line_is_filtered_out() {
    let app = press(bushy(FoldPolicy::AllUnfolded), &[Key::Down; 5]);
    let app = press(app, &typed("foo"));
    assert_eq!(
        app.visible_lines(),
        vec![
            line(0, 0, LineKind::Start),
            line(1, 1, LineKind::Whole),
            line(0, 0, LineKind::End),
        ]
    );
    assert_eq!(app.cursor(), 2);
    let app = press(bushy(FoldPolicy::AllUnfolded), &[Key::Down]);
    let app = press(app, &typed("needle"));
    assert_eq!(app.cursor(), 1);
    assert_eq!(app.selected_node(), 2);
}

#[test]
fn folding_under_a_search_term_acts_on_the_visible_line() {
    let app = press(bushy(FoldPolicy::AllUnfolded), &typed("needle"));
    let app = press(app, &[Key::Esc, Key::Down]);
    assert_eq!(app.selected_node(), 2);
    let app = press(app, &[Key::Left]);
    assert!(app.is_folded(2));
    assert_eq!(
        app.visible_lines(),
        vec![
            line(0, 0, LineKind::Start),
            line(2, 1, LineKind::Whole),
            line(0, 0, LineKind::End),
        ]
    );
    assert_eq!(app.cursor(), 1);
}

#[test]
fn the_single_steps_agree_with_the_keys() {
    let app = bushy(FoldPolicy::AllUnfolded).move_down().move_down();
    assert_eq!(app.cursor(), 2);
    let app = app.collapse_at_cursor();
    assert!(app.is_folded(2));
    let app = app.expand_at_cursor().toggle_at_cursor().toggle_at_cursor();
    assert!(!app.is_folded(2));
    let app = app.move_up().toggle_view_mode();
    assert_eq!(app.cursor(), 1);
    assert_eq!(app.view_mode(), ViewMode::Source);
    let app = app.with_input_mode(InputMode::Editing).insert_char('o').insert_char('o');
    assert_eq!(app.search_term(), "oo");
    assert_eq!(app.selected_node(), 1);
    let app = app.delete_char().apply(Command::StopSearch).apply(Command::Nothing);
    assert_eq!(app.search_term(), "o");
    assert_eq!(app.input_mode(), InputMode::Normal);
}

#[test]
fn a_search_term_beyond_ascii() {
    let tree = branch("root", 0, 8, vec![leaf("word", 0, 6), leaf("tail", 7, 8)]);
    let app = App::new(tree, "caf\u{e9}s x".to_string(), FoldPolicy::AllUnfolded);
    let app = press(app, &[Key::Char('/'), Key::Char('\u{e9}'), Key::Char('s')]);
    assert_eq!(app.search_term(), "\u{e9}s");
    assert_eq!(
        app.visible_lines(),
        vec![
            line(0, 0, LineKind::Start),
            line(1, 1, LineKind::Whole),
            line(0, 0, LineKind::End),
        ]
    );
    let app = press(app, &[Key::Backspace]);
    assert_eq!(app.search_term(), "\u{e9}");
}

fn at(app: App, index: usize) -> App {
    let mut app = press(app, &[Key::Up; 8]);
    for _ in 0..index {
        app = press(app, &[Key::Down]);
    }
    assert_eq!(app.cursor(), index);
    app
}

#[test]
fn stepping_to_the_parent() {
    for (from, to) in [(3, 2), (2, 0), (0, 0), (5, 0), (4, 0), (1, 0), (6, 6)] {
        let app = at(bushy(FoldPolicy::AllUnfolded), from);
        let app = press(app, &[Key::Char('p')]);
        assert_eq!(app.cursor(), to);
    }
}

#[test]
fn stepping_into_the_children() {
    for (from, to) in [(0, 1), (2, 3), (1, 1), (3, 3), (4, 4), (5, 5), (6, 6)] {
        let app = at(bushy(FoldPolicy::AllUnfolded), from);
        let app = press(app, &[Key::Char('c')]);
        assert_eq!(app.cursor(), to);
    }
}

#[test]
fn stepping_to_the_next_sibling() {
    for (from, to) in [(1, 2), (2, 5), (5, 5), (3, 3), (0, 0), (4, 5), (6, 6)] {
        let app = at(bushy(FoldPolicy::AllUnfolded), from);
        let app = press(app, &[Key::Char('n')]);
        assert_eq!(app.cursor(), to);
    }
}

#[test]
fn stepping_lands_on_a_visible_line_when_nodes_are_hidden() {
    let app = press(bushy(FoldPolicy::AllUnfolded), &[Key::Down, Key::Down, Key::Left]);
    assert_eq!(app.selected_node(), 2);
    let app = press(app, &[Key::Char('c')]);
    assert_eq!(app.cursor(), 2);
    let app = press(app, &[Key::Char('n')]);
    assert_eq!(app.selected_node(), 4);
    let app = press(bushy(FoldPolicy::AllUnfolded), &typed("needle"));
    let app = press(app, &[Key::Esc, Key::Down]);
    assert_eq!(app.selected_node(), 2);
    let app = press(app, &[Key::Char('n')]);
    assert_eq!(app.selected_node(), 2);
    let app = press(app, &[Key::Char('c')]);
    assert_eq!(app.selected_node(), 3);
    let app = press(app, &[Key::Char('p'), Key::Char('p')]);
    assert_eq!(app.cursor(), 0);
    let app = app.step_into_children().step_to_next_sibling().step_to_parent();
    assert_eq!(app.cursor(), 0);
}

#[test]
fn on_the_whole_outline_the_steps_agree_with_the_tree() {
    let app = bushy(FoldPolicy::AllUnfolded);
    let lines = app.visible_lines();
    let tree_parent = [None, Some(0), Some(0), Some(2), Some(0)];
    for index in 0..lines.len() {
        let here = lines[index];
        let up = at(bushy(FoldPolicy::AllUnfolded), index).step_to_parent();
        match tree_parent[here.node] {
            None => assert_eq!(up.cursor(), index),
            Some(parent) => {
                assert_eq!(up.visible_lines()[up.cursor()], line(parent, here.indent - 1, LineKind::Start))
            }
        }
        let down = at(bushy(FoldPolicy::AllUnfolded), index).step_into_children();
        if here.kind == LineKind::Start {
            assert_eq!(down.selected_node(), here.node + 1);
        } else {
            assert_eq!(down.cursor(), index);
        }
        let next = at(bushy(FoldPolicy::AllUnfolded), index).step_to_next_sibling();
        if next.cursor() != index {
            assert_eq!(
                next.selected_node(),
                here.node + next.tree().subtree_len(here.node)
            );
        }
    }
}
