//! The navigator: one state value and the transition that a key press
//! makes on it.
//!
//! The state holds the tree and its source text, the fold state, the search
//! term, the cursor and the two modes. The cursor is an index into the
//! visible lines: the outline of the whole tree under the fold state,
//! narrowed by the search term. A term that matches no line narrows
//! nothing, so there is always at least one visible line, and the cursor
//! always stands on one.

use crate::fold::{all_nodes, fold_spec, toggle_spec, unfold_spec, FoldSet};
use crate::nesting::{
    lemma_filter_well_nested, lemma_flatten_node_nested, lemma_flatten_node_within, nodes_within,
    well_nested,
};
use crate::outline::{flatten, flatten_node, Line, LineKind};
use crate::search::{filter, filter_spec, keeps, node_text, text_of};
use crate::stepping::{
    child_target, find_child, find_parent, find_sibling, lemma_last_shallower_bounds,
    lemma_next_not_deeper_bounds, parent_target, sibling_target,
};
use crate::text::{pop_char, push_char};
use crate::tree::{well_formed, NodeView, ParseTree};
use vstd::prelude::*;
use vstd::string::*;
use vstd::utf8::encode_utf8;

verus! {

/// What the screen shows: the outline, or the source text of the selected
/// node.
#[derive(Clone, Copy, Debug, PartialEq, Eq, Structural)]
pub enum ViewMode {
    Outline,
    Source,
}

/// Whether key presses are commands or go into the search term.
#[derive(Clone, Copy, Debug, PartialEq, Eq, Structural)]
pub enum InputMode {
    Normal,
    Editing,
}

/// The fold state that a freshly loaded tree starts in.
#[derive(Clone, Copy, Debug, PartialEq, Eq, Structural)]
pub enum FoldPolicy {
    AllFolded,
    AllUnfolded,
}

impl Default for FoldPolicy {
    /// A tree starts with every node folded.
    fn default() -> (r: FoldPolicy)
        ensures
            r == FoldPolicy::AllFolded,
    {
        FoldPolicy::AllFolded
    }
}

/// A key press.
#[derive(Clone, Copy, Debug, PartialEq, Eq, Structural)]
pub enum Key {
    Char(char),
    Up,
    Down,
    Left,
    Right,
    Enter,
    Backspace,
    Esc,
    Other,
}

/// What a key press asks for.
#[derive(Clone, Copy, Debug, PartialEq, Eq, Structural)]
pub enum Command {
    Nothing,
    Quit,
    StartSearch,
    StopSearch,
    Insert(char),
    DeleteBack,
    MoveDown,
    MoveUp,
    Expand,
    Collapse,
    Toggle,
    Parent,
    FirstChild,
    NextSibling,
    SwitchView,
}

/// What the caller's loop is to do after a key press.
#[derive(Clone, Copy, Debug, PartialEq, Eq, Structural)]
pub enum Action {
    Continue,
    Quit,
}

/// The navigator's state, mathematically.
pub ghost struct AppView {
    pub nodes: Seq<NodeView>,
    pub source: Seq<u8>,
    pub search_term: Seq<char>,
    pub input_mode: InputMode,
    pub folded: Set<usize>,
    pub cursor: int,
    pub view_mode: ViewMode,
}

/// The key bindings.
pub open spec fn command_spec(mode: InputMode, key: Key) -> Command {
    match mode {
        InputMode::Normal => match key {
            Key::Char(c) => if c == '/' {
                Command::StartSearch
            } else if c == 'q' {
                Command::Quit
            } else if c == 's' {
                Command::MoveDown
            } else if c == 'w' {
                Command::MoveUp
            } else if c == 'd' {
                Command::Expand
            } else if c == 'a' {
                Command::Collapse
            } else if c == ' ' {
                Command::Toggle
            } else if c == 'p' {
                Command::Parent
            } else if c == 'c' {
                Command::FirstChild
            } else if c == 'n' {
                Command::NextSibling
            } else {
                Command::Nothing
            },
            Key::Down => Command::MoveDown,
            Key::Up => Command::MoveUp,
            Key::Right => Command::Expand,
            Key::Left => Command::Collapse,
            Key::Enter => Command::SwitchView,
            _ => Command::Nothing,
        },
        InputMode::Editing => match key {
            Key::Char(c) => Command::Insert(c),
            Key::Backspace => Command::DeleteBack,
            Key::Esc => Command::StopSearch,
            _ => Command::Nothing,
        },
    }
}

/// The outline of the whole tree.
pub open spec fn outline(nodes: Seq<NodeView>, folded: Set<usize>) -> Seq<Line> {
    flatten_node(nodes, folded, 0, 0)
}

/// The lines on the screen: the outline narrowed by the search term, or
/// the whole outline when the term matches none of its lines.
pub open spec fn visible_lines(
    nodes: Seq<NodeView>,
    source: Seq<u8>,
    folded: Set<usize>,
    term: Seq<char>,
) -> Seq<Line> {
    let all = outline(nodes, folded);
    let narrowed = filter_spec(all, nodes, source, encode_utf8(term));
    if narrowed.len() == 0 {
        all
    } else {
        narrowed
    }
}

/// The lines on the screen in state `v`.
pub open spec fn visible(v: AppView) -> Seq<Line> {
    visible_lines(v.nodes, v.source, v.folded, v.search_term)
}

/// A state is valid when its tree is well formed and its cursor stands on
/// a visible line.
pub open spec fn valid(v: AppView) -> bool {
    &&& well_formed(v.nodes)
    &&& 0 <= v.cursor < visible(v).len()
}

/// The index nearest to `cursor` in a list of `len` lines; 0 in an empty
/// list.
pub open spec fn clamp(cursor: int, len: int) -> int {
    if len <= 0 || cursor < 0 {
        0
    } else if cursor >= len {
        len - 1
    } else {
        cursor
    }
}

/// The first index from `from` on at which `target` stands in `lines`, or
/// the length of `lines` when it stands at none.
pub open spec fn first_index_from(lines: Seq<Line>, target: Line, from: int) -> int
    decreases lines.len() - from,
{
    if from >= lines.len() {
        lines.len() as int
    } else if lines[from] == target {
        from
    } else {
        first_index_from(lines, target, from + 1)
    }
}

/// Where the cursor goes when the visible lines change from `before` to
/// `after` under a new search term: to the first line that is the one it
/// stood on, or, when that line is gone, to the nearest index.
pub open spec fn remap(before: Seq<Line>, cursor: int, after: Seq<Line>) -> int {
    let found = first_index_from(after, before[cursor], 0);
    if found < after.len() {
        found
    } else {
        clamp(cursor, after.len() as int)
    }
}

/// The state after the cursor moved one line down.
pub open spec fn move_down_spec(v: AppView) -> AppView {
    AppView { cursor: clamp(v.cursor + 1, visible(v).len() as int), ..v }
}

/// The state after the cursor moved one line up.
pub open spec fn move_up_spec(v: AppView) -> AppView {
    AppView {
        cursor: if v.cursor >= 1 {
            v.cursor - 1
        } else {
            0
        },
        ..v
    }
}

/// The state with another fold state, the cursor clamped to the new
/// visible lines.
pub open spec fn with_folded(v: AppView, folded: Set<usize>) -> AppView {
    let w = AppView { folded, ..v };
    AppView { cursor: clamp(v.cursor, visible(w).len() as int), ..w }
}

/// The node of the line that the cursor stands on.
pub open spec fn selected(v: AppView) -> usize {
    visible(v)[v.cursor].node
}

/// The state after an unfold at the cursor.
pub open spec fn expand_spec(v: AppView) -> AppView {
    with_folded(v, unfold_spec(v.folded, v.nodes, selected(v)))
}

/// The state after a fold at the cursor.
pub open spec fn collapse_spec(v: AppView) -> AppView {
    with_folded(v, fold_spec(v.folded, v.nodes, selected(v)))
}

/// The state after a toggle at the cursor.
pub open spec fn toggle_fold_spec(v: AppView) -> AppView {
    with_folded(v, toggle_spec(v.folded, selected(v)))
}

/// The state with another search term, the cursor following the line it
/// stood on.
pub open spec fn with_term(v: AppView, term: Seq<char>) -> AppView {
    let w = AppView { search_term: term, ..v };
    AppView { cursor: remap(visible(v), v.cursor, visible(w)), ..w }
}

/// The search term without its last character.
pub open spec fn shortened(term: Seq<char>) -> Seq<char> {
    if term.len() > 0 {
        term.drop_last()
    } else {
        term
    }
}

/// The other view mode.
pub open spec fn other_view(mode: ViewMode) -> ViewMode {
    match mode {
        ViewMode::Outline => ViewMode::Source,
        ViewMode::Source => ViewMode::Outline,
    }
}

/// The state after a command.
pub open spec fn apply_spec(v: AppView, command: Command) -> AppView {
    match command {
        Command::Nothing => v,
        Command::Quit => v,
        Command::StartSearch => AppView { input_mode: InputMode::Editing, ..v },
        Command::StopSearch => AppView { input_mode: InputMode::Normal, ..v },
        Command::Insert(c) => with_term(v, v.search_term.push(c)),
        Command::DeleteBack => with_term(v, shortened(v.search_term)),
        Command::MoveDown => move_down_spec(v),
        Command::MoveUp => move_up_spec(v),
        Command::Expand => expand_spec(v),
        Command::Collapse => collapse_spec(v),
        Command::Toggle => toggle_fold_spec(v),
        Command::Parent => AppView { cursor: parent_target(visible(v), v.cursor), ..v },
        Command::FirstChild => AppView { cursor: child_target(visible(v), v.cursor), ..v },
        Command::NextSibling => AppView { cursor: sibling_target(visible(v), v.cursor), ..v },
        Command::SwitchView => AppView { view_mode: other_view(v.view_mode), ..v },
    }
}

/// The state after a key press.
pub open spec fn step(v: AppView, key: Key) -> AppView {
    apply_spec(v, command_spec(v.input_mode, key))
}

/// What the caller's loop is to do after a command: stop on `Quit`, go on
/// after any other.
pub open spec fn action_spec(command: Command) -> Action {
    if command == Command::Quit {
        Action::Quit
    } else {
        Action::Continue
    }
}

/// The state after a run of key presses.
pub open spec fn run(v: AppView, keys: Seq<Key>) -> AppView
    decreases keys.len(),
{
    if keys.len() == 0 {
        v
    } else {
        step(run(v, keys.drop_last()), keys.last())
    }
}

/// There is always a visible line.
pub proof fn lemma_visible_nonempty(
    nodes: Seq<NodeView>,
    source: Seq<u8>,
    folded: Set<usize>,
    term: Seq<char>,
)
    requires
        well_formed(nodes),
    ensures
        visible_lines(nodes, source, folded, term).len() >= 1,
{
    lemma_flatten_node_nested(nodes, folded, 0, 0);
}

/// Every visible line stands for a node of the tree.
pub proof fn lemma_visible_within(
    nodes: Seq<NodeView>,
    source: Seq<u8>,
    folded: Set<usize>,
    term: Seq<char>,
)
    requires
        well_formed(nodes),
    ensures
        nodes_within(visible_lines(nodes, source, folded, term), 0, nodes.len() as int),
{
    let all = outline(nodes, folded);
    let pred = keeps(nodes, source, encode_utf8(term));
    let shown = visible_lines(nodes, source, folded, term);
    lemma_flatten_node_within(nodes, folded, 0, 0);
    assert forall|k: int| 0 <= k < shown.len() implies 0 <= (#[trigger] shown[k]).node
        < nodes.len() by {
        if shown != all {
            assert(all.filter(pred).contains(shown[k]));
            all.lemma_filter_contains_rev(pred, shown[k]);
            let j = choose|j: int| 0 <= j < all.len() && all[j] == shown[k];
            assert(all[j].node < nodes.len());
        }
    }
}

/// The visible lines are well nested, whatever the fold state and the
/// search term.
pub proof fn lemma_visible_well_nested(
    nodes: Seq<NodeView>,
    source: Seq<u8>,
    folded: Set<usize>,
    term: Seq<char>,
)
    requires
        well_formed(nodes),
    ensures
        well_nested(visible_lines(nodes, source, folded, term)),
{
    lemma_flatten_node_nested(nodes, folded, 0, 0);
    lemma_filter_well_nested(
        outline(nodes, folded),
        keeps(nodes, source, encode_utf8(term)),
    );
}

/// Whatever the new fold state, the clamped cursor stands on a visible
/// line.
pub proof fn lemma_with_folded_valid(v: AppView, folded: Set<usize>)
    requires
        well_formed(v.nodes),
    ensures
        valid(with_folded(v, folded)),
{
    let w = with_folded(v, folded);
    lemma_visible_nonempty(v.nodes, v.source, folded, v.search_term);
    assert(visible(w) == visible_lines(v.nodes, v.source, folded, v.search_term));
}

/// Whatever the new search term, the remapped cursor stands on a visible
/// line.
pub proof fn lemma_with_term_valid(v: AppView, term: Seq<char>)
    requires
        well_formed(v.nodes),
    ensures
        valid(with_term(v, term)),
{
    let w = with_term(v, term);
    let after = visible_lines(v.nodes, v.source, v.folded, term);
    lemma_visible_nonempty(v.nodes, v.source, v.folded, term);
    assert(visible(w) == after);
    lemma_first_index_bounds(after, visible(v)[v.cursor], 0);
}

/// The cursor of a valid state stands on a visible line after any command.
pub proof fn lemma_apply_valid(v: AppView, command: Command)
    requires
        valid(v),
    ensures
        valid(apply_spec(v, command)),
{
    match command {
        Command::Insert(c) => {
            lemma_with_term_valid(v, v.search_term.push(c));
        },
        Command::DeleteBack => {
            lemma_with_term_valid(v, shortened(v.search_term));
        },
        Command::Expand => {
            lemma_with_folded_valid(v, unfold_spec(v.folded, v.nodes, selected(v)));
        },
        Command::Collapse => {
            lemma_with_folded_valid(v, fold_spec(v.folded, v.nodes, selected(v)));
        },
        Command::Toggle => {
            lemma_with_folded_valid(v, toggle_spec(v.folded, selected(v)));
        },
        Command::Parent => {
            assert(visible(apply_spec(v, command)) == visible(v));
            lemma_last_shallower_bounds(visible(v), visible(v)[v.cursor].indent, v.cursor);
        },
        Command::FirstChild => {
            assert(visible(apply_spec(v, command)) == visible(v));
        },
        Command::NextSibling => {
            assert(visible(apply_spec(v, command)) == visible(v));
            lemma_next_not_deeper_bounds(visible(v), visible(v)[v.cursor].indent, v.cursor + 1);
        },
        Command::MoveDown => {
            assert(visible(move_down_spec(v)) == visible(v));
        },
        Command::MoveUp => {
            assert(visible(move_up_spec(v)) == visible(v));
        },
        Command::StartSearch => {
            assert(visible(apply_spec(v, command)) == visible(v));
        },
        Command::StopSearch => {
            assert(visible(apply_spec(v, command)) == visible(v));
        },
        Command::SwitchView => {
            assert(visible(apply_spec(v, command)) == visible(v));
        },
        _ => {},
    }
}

/// The cursor of a valid state stands on a visible line after any key
/// press.
pub proof fn lemma_step_valid(v: AppView, key: Key)
    requires
        valid(v),
    ensures
        valid(step(v, key)),
{
    lemma_apply_valid(v, command_spec(v.input_mode, key));
}

/// The cursor of a valid state stands on a visible line after any run of
/// key presses.
pub proof fn lemma_run_valid(v: AppView, keys: Seq<Key>)
    requires
        valid(v),
    ensures
        valid(run(v, keys)),
    decreases keys.len(),
{
    if keys.len() > 0 {
        lemma_run_valid(v, keys.drop_last());
        lemma_step_valid(run(v, keys.drop_last()), keys.last());
    }
}

/// Switching the view twice changes nothing.
pub proof fn lemma_switch_view_twice(v: AppView)
    ensures
        apply_spec(apply_spec(v, Command::SwitchView), Command::SwitchView) == v,
{
}

/// `first_index_from` finds the first line equal to the target: it lies
/// between `from` and the length, no line before it from `from` on is the
/// target, and inside the list it is the target.
pub proof fn lemma_first_index_bounds(lines: Seq<Line>, target: Line, from: int)
    requires
        0 <= from <= lines.len(),
    ensures
        from <= first_index_from(lines, target, from) <= lines.len(),
        first_index_from(lines, target, from) < lines.len() ==> lines[first_index_from(
            lines,
            target,
            from,
        )] == target,
        forall|k: int| from <= k < first_index_from(lines, target, from) ==> lines[k] != target,
    decreases lines.len() - from,
{
    if from < lines.len() && lines[from] != target {
        lemma_first_index_bounds(lines, target, from + 1);
    }
}

/// When the visible lines change under a new search term, the cursor
/// follows the line it stood on: it stands on that line again if the line
/// is still there, and is clamped if it is gone.
pub proof fn lemma_remap_follows(before: Seq<Line>, cursor: int, after: Seq<Line>)
    requires
        0 <= cursor < before.len(),
    ensures
        after.contains(before[cursor]) ==> 0 <= remap(before, cursor, after) < after.len()
            && after[remap(before, cursor, after)] == before[cursor],
        !after.contains(before[cursor]) ==> remap(before, cursor, after) == clamp(
            cursor,
            after.len() as int,
        ),
{
    lemma_first_index_bounds(after, before[cursor], 0);
    let found = first_index_from(after, before[cursor], 0);
    if after.contains(before[cursor]) {
        let k = choose|k: int| 0 <= k < after.len() && after[k] == before[cursor];
        assert(found <= k);
    }
}

/// The navigator's state.
#[derive(Debug)]
pub struct App {
    tree: ParseTree,
    source: String,
    search_term: String,
    input_mode: InputMode,
    collapsed: FoldSet,
    line_index: usize,
    view_mode: ViewMode,
}

impl View for App {
    type V = AppView;

    closed spec fn view(&self) -> AppView {
        AppView {
            nodes: self.tree@,
            source: encode_utf8(self.source@),
            search_term: self.search_term@,
            input_mode: self.input_mode,
            folded: self.collapsed@,
            cursor: self.line_index as int,
            view_mode: self.view_mode,
        }
    }
}

/// The fold state that a policy starts a tree in.
pub open spec fn initial_folded(nodes: Seq<NodeView>, policy: FoldPolicy) -> Set<usize> {
    match policy {
        FoldPolicy::AllFolded => all_nodes(nodes),
        FoldPolicy::AllUnfolded => Set::empty(),
    }
}

/// The state that the navigator starts in: no search term, commands
/// expected, the outline shown, the cursor on the first line.
pub open spec fn initial(nodes: Seq<NodeView>, source: Seq<u8>, policy: FoldPolicy) -> AppView {
    AppView {
        nodes,
        source,
        search_term: Seq::empty(),
        input_mode: InputMode::Normal,
        folded: initial_folded(nodes, policy),
        cursor: 0,
        view_mode: ViewMode::Outline,
    }
}

/// The initial state of a well-formed tree is valid.
pub proof fn lemma_initial_valid(nodes: Seq<NodeView>, source: Seq<u8>, policy: FoldPolicy)
    requires
        well_formed(nodes),
    ensures
        valid(initial(nodes, source, policy)),
{
    lemma_visible_nonempty(nodes, source, initial_folded(nodes, policy), Seq::empty());
}

/// The command that a key press stands for in a mode.
pub fn command_for(mode: InputMode, key: Key) -> (r: Command)
    ensures
        r == command_spec(mode, key),
{
    match mode {
        InputMode::Normal => match key {
            Key::Char(c) => if c == '/' {
                Command::StartSearch
            } else if c == 'q' {
                Command::Quit
            } else if c == 's' {
                Command::MoveDown
            } else if c == 'w' {
                Command::MoveUp
            } else if c == 'd' {
                Command::Expand
            } else if c == 'a' {
                Command::Collapse
            } else if c == ' ' {
                Command::Toggle
            } else if c == 'p' {
                Command::Parent
            } else if c == 'c' {
                Command::FirstChild
            } else if c == 'n' {
                Command::NextSibling
            } else {
                Command::Nothing
            },
            Key::Down => Command::MoveDown,
            Key::Up => Command::MoveUp,
            Key::Right => Command::Expand,
            Key::Left => Command::Collapse,
            Key::Enter => Command::SwitchView,
            _ => Command::Nothing,
        },
        InputMode::Editing => match key {
            Key::Char(c) => Command::Insert(c),
            Key::Backspace => Command::DeleteBack,
            Key::Esc => Command::StopSearch,
            _ => Command::Nothing,
        },
    }
}

/// The lines on the screen for a tree, its source, a fold state and a
/// search term.
fn lines_for(tree: &ParseTree, source: &str, folded: &FoldSet, term: &str) -> (r: Vec<Line>)
    ensures
        r@ == visible_lines(tree@, source.spec_bytes(), folded@, term@),
        r@.len() >= 1,
        nodes_within(r@, 0, tree@.len() as int),
        well_formed(tree@),
{
    let total = tree.len();
    proof {
        lemma_visible_nonempty(tree@, source.spec_bytes(), folded@, term@);
        lemma_visible_within(tree@, source.spec_bytes(), folded@, term@);
    }
    let all = flatten(tree, 0, 0, folded);
    let narrowed = filter(&all, tree, source, term);
    if narrowed.len() == 0 {
        all
    } else {
        narrowed
    }
}

/// The index nearest to `cursor` in a list of `len` lines.
fn clamp_index(cursor: usize, len: usize) -> (r: usize)
    ensures
        r == clamp(cursor as int, len as int),
{
    if len == 0 {
        0
    } else if cursor >= len {
        len - 1
    } else {
        cursor
    }
}

/// Where the cursor goes when the visible lines change from `before` to
/// `after` under a new search term.
fn remap_index(before: &Vec<Line>, cursor: usize, after: &Vec<Line>) -> (r: usize)
    requires
        cursor < before@.len(),
    ensures
        r == remap(before@, cursor as int, after@),
{
    let target = before[cursor];
    let mut k: usize = 0;
    while k < after.len()
        invariant
            k <= after@.len(),
            target == before@[cursor as int],
            first_index_from(after@, target, 0) == first_index_from(after@, target, k as int),
        decreases after.len() - k,
    {
        if after[k] == target {
            return k;
        }
        k = k + 1;
    }
    clamp_index(cursor, after.len())
}

impl App {
    #[verifier::type_invariant]
    spec fn inv(self) -> bool {
        valid(self@)
    }

    /// The navigator for a tree and its source text, in its initial state.
    pub fn new(tree: ParseTree, source: String, policy: FoldPolicy) -> (r: App)
        ensures
            r@ == initial(tree@, encode_utf8(source@), policy),
            valid(r@),
    {
        let collapsed = match policy {
            FoldPolicy::AllFolded => FoldSet::all_folded(&tree),
            FoldPolicy::AllUnfolded => FoldSet::new(),
        };
        let search_term = String::new();
        let total = tree.len();
        proof {
            lemma_initial_valid(tree@, encode_utf8(source@), policy);
        }
        App {
            tree,
            source,
            search_term,
            input_mode: InputMode::Normal,
            collapsed,
            line_index: 0,
            view_mode: ViewMode::Outline,
        }
    }

    /// The lines on the screen.
    pub fn visible_lines(&self) -> (r: Vec<Line>)
        ensures
            r@ == visible(self@),
            valid(self@),
            nodes_within(r@, 0, self@.nodes.len() as int),
            well_nested(r@),
    {
        proof {
            use_type_invariant(self);
            lemma_visible_well_nested(
                self@.nodes,
                self@.source,
                self@.folded,
                self@.search_term,
            );
        }
        lines_for(&self.tree, self.source.as_str(), &self.collapsed, self.search_term.as_str())
    }

    /// The index of the visible line that the cursor stands on.
    pub fn cursor(&self) -> (r: usize)
        ensures
            r == self@.cursor,
            valid(self@),
    {
        proof {
            use_type_invariant(self);
        }
        self.line_index
    }

    /// The search term.
    pub fn search_term(&self) -> (r: &str)
        ensures
            r@ == self@.search_term,
    {
        self.search_term.as_str()
    }

    /// Whether key presses are commands or go into the search term.
    pub fn input_mode(&self) -> (r: InputMode)
        ensures
            r == self@.input_mode,
    {
        self.input_mode
    }

    /// Whether the outline is shown or the source text of the selected
    /// node.
    pub fn view_mode(&self) -> (r: ViewMode)
        ensures
            r == self@.view_mode,
    {
        self.view_mode
    }

    /// The tree.
    pub fn tree(&self) -> (r: &ParseTree)
        ensures
            r@ == self@.nodes,
    {
        &self.tree
    }

    /// The source text.
    pub fn source(&self) -> (r: &str)
        ensures
            r.spec_bytes() == self@.source,
    {
        self.source.as_str()
    }

    /// Whether a node is folded.
    pub fn is_folded(&self, node: usize) -> (r: bool)
        ensures
            r == self@.folded.contains(node),
    {
        self.collapsed.contains(node)
    }

    /// Whether the search term matches any line of the outline. Where it
    /// matches none, the whole outline is shown.
    pub fn has_matches(&self) -> (r: bool)
        ensures
            r == (filter_spec(
                outline(self@.nodes, self@.folded),
                self@.nodes,
                self@.source,
                encode_utf8(self@.search_term),
            ).len() > 0),
    {
        let total = self.tree.len();
        let all = flatten(&self.tree, 0, 0, &self.collapsed);
        let narrowed = filter(&all, &self.tree, self.source.as_str(), self.search_term.as_str());
        narrowed.len() > 0
    }

    /// The node of the line that the cursor stands on.
    pub fn selected_node(&self) -> (r: usize)
        ensures
            r == selected(self@),
            r < self@.nodes.len(),
    {
        proof {
            use_type_invariant(self);
        }
        let lines = self.visible_lines();
        lines[self.line_index].node
    }

    /// The source text of the node that the cursor stands on, which is
    /// what the source view shows.
    pub fn selected_text(&self) -> (r: &[u8])
        ensures
            r@ == text_of(self@.source, self@.nodes[selected(self@) as int].span),
    {
        let node = self.selected_node();
        node_text(self.source.as_str().as_bytes(), self.tree.span(node))
    }

    /// The state after the cursor moved one line down, stopping at the
    /// last line.
    pub fn move_down(self) -> (r: App)
        ensures
            r@ == move_down_spec(self@),
            valid(r@),
    {
        proof {
            use_type_invariant(&self);
            lemma_apply_valid(self@, Command::MoveDown);
        }
        let lines = self.visible_lines();
        let App { tree, source, search_term, input_mode, collapsed, line_index, view_mode } = self;
        let line_index = if line_index < lines.len() - 1 {
            line_index + 1
        } else {
            lines.len() - 1
        };
        App { tree, source, search_term, input_mode, collapsed, line_index, view_mode }
    }

    /// The state after the cursor moved one line up, stopping at the first
    /// line.
    pub fn move_up(self) -> (r: App)
        ensures
            r@ == move_up_spec(self@),
            valid(r@),
    {
        proof {
            use_type_invariant(&self);
            lemma_apply_valid(self@, Command::MoveUp);
        }
        let App { tree, source, search_term, input_mode, collapsed, line_index, view_mode } = self;
        let line_index = if line_index >= 1 {
            line_index - 1
        } else {
            0
        };
        App { tree, source, search_term, input_mode, collapsed, line_index, view_mode }
    }

    /// The state after an unfold at the cursor.
    pub fn expand_at_cursor(self) -> (r: App)
        ensures
            r@ == expand_spec(self@),
            valid(r@),
    {
        proof {
            use_type_invariant(&self);
            lemma_apply_valid(self@, Command::Expand);
        }
        let lines = self.visible_lines();
        let App { tree, source, search_term, input_mode, mut collapsed, line_index, view_mode } =
            self;
        collapsed.unfold(&tree, lines[line_index].node);
        let after = lines_for(&tree, source.as_str(), &collapsed, search_term.as_str());
        let line_index = clamp_index(line_index, after.len());
        App { tree, source, search_term, input_mode, collapsed, line_index, view_mode }
    }

    /// The state after a fold at the cursor.
    pub fn collapse_at_cursor(self) -> (r: App)
        ensures
            r@ == collapse_spec(self@),
            valid(r@),
    {
        proof {
            use_type_invariant(&self);
            lemma_apply_valid(self@, Command::Collapse);
        }
        let lines = self.visible_lines();
        let App { tree, source, search_term, input_mode, mut collapsed, line_index, view_mode } =
            self;
        collapsed.fold(&tree, lines[line_index].node);
        let after = lines_for(&tree, source.as_str(), &collapsed, search_term.as_str());
        let line_index = clamp_index(line_index, after.len());
        App { tree, source, search_term, input_mode, collapsed, line_index, view_mode }
    }

    /// The state after a toggle at the cursor: the node is folded if it
    /// was not, and unfolded if it was.
    pub fn toggle_at_cursor(self) -> (r: App)
        ensures
            r@ == toggle_fold_spec(self@),
            valid(r@),
    {
        proof {
            use_type_invariant(&self);
            lemma_apply_valid(self@, Command::Toggle);
        }
        let lines = self.visible_lines();
        let App { tree, source, search_term, input_mode, mut collapsed, line_index, view_mode } =
            self;
        collapsed.toggle(lines[line_index].node);
        let after = lines_for(&tree, source.as_str(), &collapsed, search_term.as_str());
        let line_index = clamp_index(line_index, after.len());
        App { tree, source, search_term, input_mode, collapsed, line_index, view_mode }
    }

    /// The state after a step to the parent: the cursor stands on the
    /// nearest line above that is indented less, if there is one.
    pub fn step_to_parent(self) -> (r: App)
        ensures
            r@ == apply_spec(self@, Command::Parent),
            valid(r@),
    {
        proof {
            use_type_invariant(&self);
            lemma_apply_valid(self@, Command::Parent);
        }
        let lines = self.visible_lines();
        let App { tree, source, search_term, input_mode, collapsed, line_index, view_mode } = self;
        let found = find_parent(&lines, line_index);
        App { tree, source, search_term, input_mode, collapsed, line_index: found, view_mode }
    }

    /// The state after a step into the children: the cursor stands on the
    /// next line, if that is indented more.
    pub fn step_into_children(self) -> (r: App)
        ensures
            r@ == apply_spec(self@, Command::FirstChild),
            valid(r@),
    {
        proof {
            use_type_invariant(&self);
            lemma_apply_valid(self@, Command::FirstChild);
        }
        let lines = self.visible_lines();
        let App { tree, source, search_term, input_mode, collapsed, line_index, view_mode } = self;
        let line_index = find_child(&lines, line_index);
        App { tree, source, search_term, input_mode, collapsed, line_index, view_mode }
    }

    /// The state after a step to the next sibling: the cursor stands on
    /// the first line below that begins a node at the same depth, unless a
    /// line that is indented less comes first.
    pub fn step_to_next_sibling(self) -> (r: App)
        ensures
            r@ == apply_spec(self@, Command::NextSibling),
            valid(r@),
    {
        proof {
            use_type_invariant(&self);
            lemma_apply_valid(self@, Command::NextSibling);
        }
        let lines = self.visible_lines();
        let App { tree, source, search_term, input_mode, collapsed, line_index, view_mode } = self;
        let found = find_sibling(&lines, line_index);
        App { tree, source, search_term, input_mode, collapsed, line_index: found, view_mode }
    }

    /// The state after a character was put behind the search term.
    pub fn insert_char(self, c: char) -> (r: App)
        ensures
            r@ == with_term(self@, self@.search_term.push(c)),
            valid(r@),
    {
        proof {
            use_type_invariant(&self);
            lemma_apply_valid(self@, Command::Insert(c));
        }
        let before = self.visible_lines();
        let App { tree, source, mut search_term, input_mode, collapsed, line_index, view_mode } =
            self;
        push_char(&mut search_term, c);
        let after = lines_for(&tree, source.as_str(), &collapsed, search_term.as_str());
        let line_index = remap_index(&before, line_index, &after);
        App { tree, source, search_term, input_mode, collapsed, line_index, view_mode }
    }

    /// The state after the last character of the search term was taken
    /// away.
    pub fn delete_char(self) -> (r: App)
        ensures
            r@ == with_term(self@, shortened(self@.search_term)),
            valid(r@),
    {
        proof {
            use_type_invariant(&self);
            lemma_apply_valid(self@, Command::DeleteBack);
        }
        let before = self.visible_lines();
        let App { tree, source, mut search_term, input_mode, collapsed, line_index, view_mode } =
            self;
        let _ = pop_char(&mut search_term);
        let after = lines_for(&tree, source.as_str(), &collapsed, search_term.as_str());
        let line_index = remap_index(&before, line_index, &after);
        App { tree, source, search_term, input_mode, collapsed, line_index, view_mode }
    }

    /// The state in another input mode.
    pub fn with_input_mode(self, mode: InputMode) -> (r: App)
        ensures
            r@ == (AppView { input_mode: mode, ..self@ }),
            valid(r@),
    {
        proof {
            use_type_invariant(&self);
            assert(visible(AppView { input_mode: mode, ..self@ }) == visible(self@));
        }
        let App { tree, source, search_term, input_mode, collapsed, line_index, view_mode } = self;
        App { tree, source, search_term, input_mode: mode, collapsed, line_index, view_mode }
    }

    /// The state with the view switched between outline and source.
    pub fn toggle_view_mode(self) -> (r: App)
        ensures
            r@ == (AppView { view_mode: other_view(self@.view_mode), ..self@ }),
            valid(r@),
    {
        proof {
            use_type_invariant(&self);
            lemma_apply_valid(self@, Command::SwitchView);
        }
        let App { tree, source, search_term, input_mode, collapsed, line_index, view_mode } = self;
        let view_mode = match view_mode {
            ViewMode::Outline => ViewMode::Source,
            ViewMode::Source => ViewMode::Outline,
        };
        App { tree, source, search_term, input_mode, collapsed, line_index, view_mode }
    }

    /// The state after a command.
    pub fn apply(self, command: Command) -> (r: App)
        ensures
            r@ == apply_spec(self@, command),
            valid(r@),
    {
        proof {
            use_type_invariant(&self);
        }
        match command {
            Command::Nothing => self,
            Command::Quit => self,
            Command::StartSearch => self.with_input_mode(InputMode::Editing),
            Command::StopSearch => self.with_input_mode(InputMode::Normal),
            Command::Insert(c) => self.insert_char(c),
            Command::DeleteBack => self.delete_char(),
            Command::MoveDown => self.move_down(),
            Command::MoveUp => self.move_up(),
            Command::Expand => self.expand_at_cursor(),
            Command::Collapse => self.collapse_at_cursor(),
            Command::Toggle => self.toggle_at_cursor(),
            Command::Parent => self.step_to_parent(),
            Command::FirstChild => self.step_into_children(),
            Command::NextSibling => self.step_to_next_sibling(),
            Command::SwitchView => self.toggle_view_mode(),
        }
    }

    /// The state after a key press, and whether the caller's loop is to go
    /// on.
    pub fn handle_key(self, key: Key) -> (r: (App, Action))
        ensures
            r.0@ == step(self@, key),
            r.1 == action_spec(command_spec(self@.input_mode, key)),
            valid(r.0@),
    {
        let command = command_for(self.input_mode, key);
        let action = match command {
            Command::Quit => Action::Quit,
            _ => Action::Continue,
        };
        (self.apply(command), action)
    }
}

} // verus!
