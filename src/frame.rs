//! What each redraw derives from the index and the navigation state.
use vstd::prelude::*;
use crate::index::PathIndex;
use crate::nav::{max, min, NavigationState};
use crate::paths::copy_bytes;

verus! {

/// Rows of the terminal that the panes' borders take.
pub const CHROME_ROWS: u16 = 2;

/// The rows of a terminal of `rows` rows left for text inside the borders.
pub fn viewport_height(rows: u16) -> (r: u16)
    ensures
        r == max(rows - CHROME_ROWS, 0),
{
    rows.saturating_sub(CHROME_ROWS)
}

/// The largest scroll offset that still fills a viewport of `height` rows
/// with a report of `lines` lines.
pub open spec fn max_offset(lines: int, height: int) -> int {
    max(lines - height, 0)
}

/// `offset` clamped to the largest useful offset for a report of `lines`
/// lines in a viewport of `height` rows.
pub fn clamp_offset(offset: u16, lines: usize, height: u16) -> (r: u16)
    ensures
        r == min(offset as int, max_offset(lines as int, height as int)),
        0 <= r <= max_offset(lines as int, height as int),
        r <= offset,
{
    if lines <= height as usize {
        0
    } else if lines - (height as usize) < offset as usize {
        (lines - height as usize) as u16
    } else {
        offset
    }
}

impl NavigationState {
    /// The node shown in the detail pane: the browsed node on row 0, else
    /// the child on the selected row.
    pub open spec fn shown(self, index: &PathIndex) -> int {
        if self.row() == 0 {
            self.current_root as int
        } else {
            index.child_id(self.current_root as int, self.row() - 1)
        }
    }

    /// The node shown in the detail pane.
    pub fn current_node(&self, index: &PathIndex) -> (r: usize)
        requires
            index.wf(),
            self.valid(index),
        ensures
            r == self.shown(index),
            r < index.count(),
    {
        let row = self.selected_row();
        if row == 0 {
            self.current_root
        } else {
            index.child(self.current_root, row - 1)
        }
    }

    /// Clamps the scroll offset for a report of `lines` lines in a viewport
    /// of `height` rows; the rest of the state stays.
    pub fn clamp_scroll(&mut self, lines: usize, height: u16)
        ensures
            final(self).offset == clamp_offset_spec(old(self).offset, lines, height),
            final(self).current_root == old(self).current_root,
            final(self).selected == old(self).selected,
    {
        self.offset = clamp_offset(self.offset, lines, height);
    }

    /// The labels of the navigation pane: `.` (byte 46) for the browsed node, then the
    /// last component of each child, in order.
    pub fn labels(&self, index: &PathIndex) -> (r: Vec<Vec<u8>>)
        requires
            index.wf(),
            self.valid(index),
        ensures
            r@.len() == self.rows(index) + 1,
            r@[0]@ == seq![46u8],
            forall|t: int| 0 < t < r@.len() ==> #[trigger] r@[t]@ == index.path(
                index.child_id(self.current_root as int, t - 1),
            ).last(),
    {
        let mut r: Vec<Vec<u8>> = Vec::new();
        r.push(vec![46u8]);
        let n = index.child_count(self.current_root);
        let mut t: usize = 0;
        while t < n
            invariant
                index.wf(),
                self.valid(index),
                n == self.rows(index),
                t <= n,
                r@.len() == t + 1,
                r@[0]@ == seq![46u8],
                forall|u: int| 0 < u < r@.len() ==> #[trigger] r@[u]@ == index.path(
                    index.child_id(self.current_root as int, u - 1),
                ).last(),
            decreases n - t,
        {
            let c = index.child(self.current_root, t);
            let name = copy_bytes(index.name_of(c));
            r.push(name);
            t = t + 1;
        }
        r
    }
}

/// The scroll offset that `clamp_offset` gives.
pub open spec fn clamp_offset_spec(offset: u16, lines: usize, height: u16) -> u16 {
    min(offset as int, max_offset(lines as int, height as int)) as u16
}

} // verus!
