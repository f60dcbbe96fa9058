//! The cursor over the directory tree and the transitions that keys cause.
use vstd::prelude::*;
use crate::index::PathIndex;

verus! {

/// A transition of the browser, as a key asks for it.
#[derive(Clone, Copy, Debug, PartialEq, Eq)]
pub enum Action {
    /// Select the next row.
    Down,
    /// Select the previous row.
    Up,
    /// Select the first row, the browsed node itself.
    First,
    /// Select the last row.
    Last,
    /// Browse the parent of the browsed node.
    Ascend,
    /// Browse the selected child.
    Descend,
    /// Scroll the detail pane down by one viewport.
    PageDown,
    /// Scroll the detail pane up by one viewport.
    PageUp,
    /// Scroll the detail pane to its top.
    Top,
    /// Scroll the detail pane to its bottom.
    Bottom,
    /// Show or hide the list of files in the report.
    ToggleListFiles,
    /// Show the report compact or in full.
    ToggleCompact,
    /// End the session.
    Quit,
}

/// The modifiers held with a key.
#[derive(Clone, Copy, Debug, PartialEq, Eq)]
pub enum Mods {
    Plain,
    Shift,
    Control,
    Other,
}

/// The action bound to a key: `key` is the character typed, `None` for a
/// key that types none.
pub open spec fn binding(key: Option<char>, mods: Mods) -> Option<Action> {
    match (key, mods) {
        (Some('c'), Mods::Plain) => Some(Action::ToggleCompact),
        (Some('f'), Mods::Plain) => Some(Action::ToggleListFiles),
        (Some('f'), Mods::Control) => Some(Action::PageDown),
        (Some('b'), Mods::Control) => Some(Action::PageUp),
        (Some('j'), Mods::Plain) => Some(Action::Down),
        (Some('J'), Mods::Shift) => Some(Action::Last),
        (Some('k'), Mods::Plain) => Some(Action::Up),
        (Some('K'), Mods::Shift) => Some(Action::First),
        (Some('h'), Mods::Plain) => Some(Action::Ascend),
        (Some('l'), Mods::Plain) => Some(Action::Descend),
        (Some('g'), Mods::Plain) => Some(Action::Top),
        (Some('G'), Mods::Shift) => Some(Action::Bottom),
        (Some('q'), Mods::Plain) => Some(Action::Quit),
        _ => None,
    }
}

/// The action bound to a key, if any.
pub fn action_for(key: Option<char>, mods: Mods) -> (r: Option<Action>)
    ensures
        r == binding(key, mods),
{
    match (key, mods) {
        (Some('c'), Mods::Plain) => Some(Action::ToggleCompact),
        (Some('f'), Mods::Plain) => Some(Action::ToggleListFiles),
        (Some('f'), Mods::Control) => Some(Action::PageDown),
        (Some('b'), Mods::Control) => Some(Action::PageUp),
        (Some('j'), Mods::Plain) => Some(Action::Down),
        (Some('J'), Mods::Shift) => Some(Action::Last),
        (Some('k'), Mods::Plain) => Some(Action::Up),
        (Some('K'), Mods::Shift) => Some(Action::First),
        (Some('h'), Mods::Plain) => Some(Action::Ascend),
        (Some('l'), Mods::Plain) => Some(Action::Descend),
        (Some('g'), Mods::Plain) => Some(Action::Top),
        (Some('G'), Mods::Shift) => Some(Action::Bottom),
        (Some('q'), Mods::Plain) => Some(Action::Quit),
        _ => None,
    }
}

/// The display options of the report, independent of the position in the tree.
#[derive(Clone, Copy, Debug, PartialEq, Eq)]
pub struct DisplayFlags {
    pub list_files: bool,
    pub compact: bool,
}

impl DisplayFlags {
    /// Both options off.
    pub fn new() -> (r: DisplayFlags)
        ensures
            !r.list_files,
            !r.compact,
    {
        DisplayFlags { list_files: false, compact: false }
    }

    /// The flags after `a`: a toggle flips its flag, every other action
    /// leaves both.
    pub open spec fn after(self, a: Action) -> DisplayFlags {
        match a {
            Action::ToggleListFiles => DisplayFlags { list_files: !self.list_files, ..self },
            Action::ToggleCompact => DisplayFlags { compact: !self.compact, ..self },
            _ => self,
        }
    }
}

/// Where the user stands: the node browsed, the row selected among `.` and
/// its children (`None` until the first move, shown as row 0), and the scroll
/// offset of the detail pane.
#[derive(Clone, Copy, Debug, PartialEq, Eq)]
pub struct NavigationState {
    pub current_root: usize,
    pub selected: Option<usize>,
    pub offset: u16,
}

/// The smaller of two integers.
pub open spec fn min(a: int, b: int) -> int {
    if a <= b { a } else { b }
}

/// The larger of two integers.
pub open spec fn max(a: int, b: int) -> int {
    if a >= b { a } else { b }
}

impl NavigationState {
    /// The state at the start of a session: the common root browsed, no row
    /// chosen yet, no scroll.
    pub fn new() -> (r: NavigationState)
        ensures
            r.current_root == 0,
            r.selected == None::<usize>,
            r.offset == 0,
    {
        NavigationState { current_root: 0, selected: None, offset: 0 }
    }

    /// The selected row, with `None` read as row 0.
    pub open spec fn row(self) -> int {
        match self.selected {
            Some(s) => s as int,
            None => 0,
        }
    }

    /// The node browsed is the root node or a key of `index`, and the
    /// selected row is `.` or one of its children.
    pub open spec fn valid(self, index: &PathIndex) -> bool {
        &&& self.current_root < index.count()
        &&& (self.current_root == 0 || index.is_key(self.current_root as int))
        &&& self.row() <= index.num_children(self.current_root as int)
    }

    /// The number of children of the node browsed.
    pub open spec fn rows(self, index: &PathIndex) -> int {
        index.num_children(self.current_root as int)
    }

    /// The state after `a`, with `height` the viewport's height.
    pub open spec fn step(self, index: &PathIndex, a: Action, height: u16) -> NavigationState {
        let n = self.rows(index);
        let row = self.row();
        match a {
            Action::Down => NavigationState { selected: Some(min(row + 1, n) as usize), offset: 0, ..self },
            Action::Up => NavigationState { selected: Some(max(row - 1, 0) as usize), offset: 0, ..self },
            Action::First => NavigationState { selected: Some(0), offset: 0, ..self },
            Action::Last => NavigationState { selected: Some(n as usize), offset: 0, ..self },
            Action::Ascend => if self.current_root == 0 {
                self
            } else {
                NavigationState {
                    current_root: index.parents@[self.current_root as int],
                    selected: Some(0),
                    ..self
                }
            },
            Action::Descend => if row > 0 && index.is_key(index.child_id(self.current_root as int, row - 1)) {
                NavigationState {
                    current_root: index.child_id(self.current_root as int, row - 1) as usize,
                    selected: Some(0),
                    ..self
                }
            } else {
                self
            },
            Action::PageDown => NavigationState { offset: min(self.offset + height, u16::MAX as int) as u16, ..self },
            Action::PageUp => NavigationState { offset: max(self.offset - height, 0) as u16, ..self },
            Action::Top => NavigationState { offset: 0, ..self },
            Action::Bottom => NavigationState { offset: u16::MAX, ..self },
            _ => self,
        }
    }

    /// The selected row, with `None` read as row 0.
    pub fn selected_row(&self) -> (r: usize)
        ensures
            r == self.row(),
    {
        match self.selected {
            Some(s) => s,
            None => 0,
        }
    }

    /// Selects the next row, if there is one, and scrolls to the top.
    pub fn move_down(&mut self, index: &PathIndex)
        requires
            index.wf(),
            old(self).valid(index),
        ensures
            *final(self) == old(self).step(index, Action::Down, 0),
    {
        let n = index.child_count(self.current_root);
        let row = self.selected_row();
        let next = if row < n { row + 1 } else { n };
        self.selected = Some(next);
        self.offset = 0;
    }

    /// Selects the previous row, if there is one, and scrolls to the top.
    pub fn move_up(&mut self, index: &PathIndex)
        requires
            index.wf(),
            old(self).valid(index),
        ensures
            *final(self) == old(self).step(index, Action::Up, 0),
    {
        let row = self.selected_row();
        let next = if row > 0 { row - 1 } else { 0 };
        self.selected = Some(next);
        self.offset = 0;
    }

    /// Selects the first row and scrolls to the top.
    pub fn select_first(&mut self, index: &PathIndex)
        requires
            index.wf(),
            old(self).valid(index),
        ensures
            *final(self) == old(self).step(index, Action::First, 0),
    {
        self.selected = Some(0);
        self.offset = 0;
    }

    /// Selects the last row and scrolls to the top.
    pub fn select_last(&mut self, index: &PathIndex)
        requires
            index.wf(),
            old(self).valid(index),
        ensures
            *final(self) == old(self).step(index, Action::Last, 0),
    {
        self.selected = Some(index.child_count(self.current_root));
        self.offset = 0;
    }

    /// Browses the parent of the node browsed and selects its first row;
    /// nothing changes at the common root.
    pub fn ascend(&mut self, index: &PathIndex)
        requires
            index.wf(),
            old(self).valid(index),
        ensures
            *final(self) == old(self).step(index, Action::Ascend, 0),
    {
        if self.current_root != 0 {
            self.current_root = index.parent(self.current_root);
            self.selected = Some(0);
        }
    }

    /// Browses the selected child and selects its first row, where a child
    /// that has children of its own is selected; nothing changes otherwise.
    pub fn descend(&mut self, index: &PathIndex)
        requires
            index.wf(),
            old(self).valid(index),
        ensures
            *final(self) == old(self).step(index, Action::Descend, 0),
    {
        let row = self.selected_row();
        if row > 0 {
            let c = index.child(self.current_root, row - 1);
            if index.is_dir(c) {
                self.current_root = c;
                self.selected = Some(0);
            }
        }
    }

    /// Applies `a`, with `height` the viewport's height; answers whether the
    /// session goes on.
    pub fn apply(&mut self, flags: &mut DisplayFlags, index: &PathIndex, a: Action, height: u16) -> (r: bool)
        requires
            index.wf(),
            old(self).valid(index),
        ensures
            *final(self) == old(self).step(index, a, height),
            *final(flags) == old(flags).after(a),
            r == (a != Action::Quit),
    {
        match a {
            Action::Down => self.move_down(index),
            Action::Up => self.move_up(index),
            Action::First => self.select_first(index),
            Action::Last => self.select_last(index),
            Action::Ascend => self.ascend(index),
            Action::Descend => self.descend(index),
            Action::PageDown => self.offset = self.offset.saturating_add(height),
            Action::PageUp => self.offset = self.offset.saturating_sub(height),
            Action::Top => self.offset = 0,
            Action::Bottom => self.offset = u16::MAX,
            Action::ToggleListFiles => flags.list_files = !flags.list_files,
            Action::ToggleCompact => flags.compact = !flags.compact,
            Action::Quit => return false,
        }
        true
    }
}

/// The state after the actions of `actions`, in order.
pub open spec fn run(s: NavigationState, index: &PathIndex, actions: Seq<Action>, height: u16) -> NavigationState
    decreases actions.len(),
{
    if actions.len() == 0 {
        s
    } else {
        run(s.step(index, actions[0], height), index, actions.drop_first(), height)
    }
}

/// Every transition keeps the state valid.
pub proof fn lemma_step_valid(s: NavigationState, index: &PathIndex, a: Action, height: u16)
    requires
        index.wf(),
        s.valid(index),
    ensures
        s.step(index, a, height).valid(index),
{
    if a == Action::Ascend && s.current_root != 0 {
        let c = s.current_root as int;
        assert(index.has_child(index.parents@[c] as int, c));
    }
}

/// The state a session starts in is valid for every index.
pub proof fn lemma_start_valid(index: &PathIndex)
    requires
        index.wf(),
    ensures
        (NavigationState { current_root: 0, selected: None, offset: 0 }).valid(index),
{
}

/// Every state reached from a valid one by any sequence of transitions is
/// valid: the node browsed is the common root or a key, and the selected row
/// lies in `[0, number of children]`.
pub proof fn lemma_run_valid(s: NavigationState, index: &PathIndex, actions: Seq<Action>, height: u16)
    requires
        index.wf(),
        s.valid(index),
    ensures
        run(s, index, actions, height).valid(index),
    decreases actions.len(),
{
    if actions.len() > 0 {
        lemma_step_valid(s, index, actions[0], height);
        lemma_run_valid(s.step(index, actions[0], height), index, actions.drop_first(), height);
    }
}

/// At the common root, ascending any number of times changes nothing.
pub proof fn lemma_ascend_at_root(s: NavigationState, index: &PathIndex, n: nat, height: u16)
    requires
        s.current_root == 0,
    ensures
        run(s, index, Seq::new(n, |i: int| Action::Ascend), height) == s,
    decreases n,
{
    if n > 0 {
        let acts = Seq::new(n, |i: int| Action::Ascend);
        assert(acts.drop_first() =~= Seq::new((n - 1) as nat, |i: int| Action::Ascend));
        lemma_ascend_at_root(s, index, (n - 1) as nat, height);
    }
}

/// Descending into a child and ascending again browses the starting node,
/// with its first row selected.
pub proof fn lemma_descend_ascend(s: NavigationState, index: &PathIndex, height: u16)
    requires
        index.wf(),
        s.valid(index),
        s.row() > 0,
        index.is_key(index.child_id(s.current_root as int, s.row() - 1)),
    ensures
        s.step(index, Action::Descend, height).step(index, Action::Ascend, height).current_root == s.current_root,
        s.step(index, Action::Descend, height).step(index, Action::Ascend, height).selected == Some(0usize),
{
    let c = index.child_id(s.current_root as int, s.row() - 1);
    assert(0 < c < index.count());
}

/// Changing the selected row always scrolls the detail pane to its top.
pub proof fn lemma_row_change_resets_scroll(s: NavigationState, index: &PathIndex, a: Action, height: u16)
    requires
        a == Action::Down || a == Action::Up || a == Action::First || a == Action::Last,
    ensures
        s.step(index, a, height).offset == 0,
{
}

} // verus!
