//! Moving around: scrolling the diff, the tree cursor, the sidebar's width.

use vstd::prelude::*;

use crate::app::session::App;
use crate::app::state::{
    chunk_at, tree_ok, AppState, MIN_DIFF_WIDTH, MIN_TREE_WIDTH, MOUSE_SCROLL_LINES,
    TREE_RESIZE_STEP,
};
use crate::app::types::{Effect, Focus, MouseEvent, MouseKind, ViewMode};
use crate::model::tree::toggled;
use crate::render::viewport::clamp_offset;

verus! {

impl App {
    // ── scrolling ──────────────────────────────────────────────────────────

    /// Number of render rows in the active view.
    pub(crate) fn active_row_count(&self) -> (r: usize)
        ensures
            r == self@.row_count(),
    {
        proof {
            reveal(App::state);
        }
        match self.view {
            ViewMode::Unified => self.diff_rows.len(),
            ViewMode::SideBySide => self.side_rows.len(),
        }
    }

    /// Per-chunk header row indices for the active view.
    pub(crate) fn active_chunk_starts(&self) -> (r: &Vec<usize>)
        ensures
            r@ == self@.starts(),
    {
        proof {
            reveal(App::state);
        }
        match self.view {
            ViewMode::Unified => &self.chunk_starts,
            ViewMode::SideBySide => &self.side_chunk_starts,
        }
    }

    /// The height of the diff viewport, at least one row.
    pub(crate) fn height(&self) -> (r: usize)
        ensures
            r == self@.height(),
            r >= 1,
    {
        proof {
            reveal(App::state);
        }
        if self.diff_height >= 1 {
            self.diff_height
        } else {
            1
        }
    }

    /// The chunk that row `scroll` belongs to: the last one whose header is at or
    /// above it.
    fn chunk_at_row(&self, scroll: usize) -> (r: usize)
        ensures
            r == chunk_at(self@.starts(), scroll, 0, 0),
    {
        let starts = self.active_chunk_starts();
        let n = starts.len();
        let mut last: usize = 0;
        let mut i: usize = 0;
        while i < n
            invariant
                n == starts@.len(),
                starts@ == self@.starts(),
                i <= n,
                chunk_at(starts@, scroll, 0, 0) == chunk_at(starts@, scroll, i as int, last),
            decreases n - i,
        {
            if starts[i] > scroll {
                return last;
            }
            last = i;
            i += 1;
        }
        last
    }

    /// Scroll to `row` (in range already), keeping the current chunk in sync.
    fn scroll_to(&mut self, row: usize)
        requires
            old(self).wf(),
        ensures
            final(self)@ == old(self)@.scrolled_to(row as int),
            final(self).wf(),
    {
        proof {
            reveal(App::state);
        }
        let chunk = self.chunk_at_row(row);
        proof {
            reveal(AppState::scrolled_to);
            reveal(AppState::synced);
        }
        self.scroll = row;
        self.current_chunk = chunk;
        self.dirty = true;
    }

    /// Scroll down by `rows`.
    pub(crate) fn scroll_down(&mut self, rows: usize)
        requires
            old(self).wf(),
        ensures
            final(self)@ == old(self)@.scrolled(rows as int),
            final(self).wf(),
    {
        proof {
            reveal(App::state);
        }
        let target = self.scroll.saturating_add(rows);
        let row = clamp_offset(target, self.height(), self.active_row_count());
        proof {
            reveal(AppState::scrolled);
            reveal(AppState::scrolled_to);
            reveal(AppState::synced);
        }
        self.scroll_to(row);
    }

    /// Scroll up by `rows`.
    pub(crate) fn scroll_up(&mut self, rows: usize)
        requires
            old(self).wf(),
        ensures
            final(self)@ == old(self)@.scrolled(-(rows as int)),
            final(self).wf(),
    {
        proof {
            reveal(App::state);
        }
        let target = self.scroll.saturating_sub(rows);
        let row = clamp_offset(target, self.height(), self.active_row_count());
        proof {
            reveal(AppState::scrolled);
            reveal(AppState::scrolled_to);
            reveal(AppState::synced);
        }
        self.scroll_to(row);
    }

    /// Scroll to the first row.
    pub(crate) fn scroll_to_top(&mut self)
        requires
            old(self).wf(),
        ensures
            final(self)@ == old(self)@.scrolled_to(0),
            final(self).wf(),
    {
        self.scroll_to(0);
    }

    /// The largest scroll offset.
    pub(crate) fn max_scroll(&self) -> (r: usize)
        ensures
            r == crate::render::viewport::max_offset(self@.height(), self@.row_count() as int),
    {
        let rows = self.active_row_count();
        let height = self.height();
        if rows > height {
            rows - height
        } else {
            0
        }
    }

    /// Scroll to the last row.
    pub(crate) fn scroll_to_bottom(&mut self)
        requires
            old(self).wf(),
        ensures
            final(self)@ == old(self)@.scrolled_to(
                crate::render::viewport::max_offset(
                    old(self)@.height(),
                    old(self)@.row_count() as int,
                ),
            ),
            final(self).wf(),
    {
        let row = self.max_scroll();
        self.scroll_to(row);
    }

    /// Scroll to the header of the current chunk.
    pub(crate) fn scroll_to_current_chunk(&mut self)
        requires
            old(self).wf(),
        ensures
            final(self)@ == old(self)@.at_current_chunk(),
            final(self).wf(),
    {
        proof {
            reveal(App::state);
        }
        let starts = self.active_chunk_starts();
        let row = if self.current_chunk < starts.len() {
            clamp_offset(starts[self.current_chunk], self.height(), self.active_row_count())
        } else {
            self.scroll
        };
        proof {
            reveal(AppState::at_current_chunk);
        }
        self.scroll = row;
        self.dirty = true;
    }

    /// Make `chunk` the current one, and scroll to it.
    pub(crate) fn go_to_chunk(&mut self, chunk: usize)
        requires
            old(self).wf(),
        ensures
            final(self)@ == (AppState {
                current_chunk: chunk,
                ..old(self)@
            }).at_current_chunk(),
            final(self).wf(),
    {
        proof {
            reveal(App::state);
        }
        self.current_chunk = chunk;
        self.scroll_to_current_chunk();
    }

    pub(crate) fn next_chunk(&mut self)
        requires
            old(self).wf(),
        ensures
            final(self)@ == old(self)@.on_next_chunk(),
            final(self).wf(),
    {
        proof {
            reveal(App::state);
        }
        proof {
            reveal(AppState::on_next_chunk);
        }
        let n = self.active_chunk_starts().len();
        if n == 0 {
            return;
        }
        let next = if self.current_chunk < n - 1 {
            self.current_chunk + 1
        } else {
            n - 1
        };
        self.go_to_chunk(next);
    }

    pub(crate) fn prev_chunk(&mut self)
        requires
            old(self).wf(),
        ensures
            final(self)@ == old(self)@.on_prev_chunk(),
            final(self).wf(),
    {
        proof {
            reveal(App::state);
        }
        proof {
            reveal(AppState::on_prev_chunk);
        }
        if self.active_chunk_starts().len() == 0 {
            return;
        }
        let prev = self.current_chunk.saturating_sub(1);
        self.go_to_chunk(prev);
    }

    /// Toggle unified and side-by-side, keeping the current chunk in view. The
    /// choice is saved so it sticks across runs.
    pub(crate) fn toggle_view(&mut self)
        requires
            old(self).wf(),
        ensures
            final(self)@ == old(self)@.view_toggled(),
            final(self).wf(),
    {
        proof {
            reveal(AppState::view_toggled);
        }
        let view = self.other_view();
        self.set_view(view);
        self.scroll_to_current_chunk();
        self.ask(Effect::SaveView(view));
        self.set_dirty();
    }

    fn other_view(&self) -> (r: ViewMode)
        ensures
            r == match self@.view {
                ViewMode::Unified => ViewMode::SideBySide,
                ViewMode::SideBySide => ViewMode::Unified,
            },
    {
        proof {
            reveal(App::state);
        }
        match self.view {
            ViewMode::Unified => ViewMode::SideBySide,
            ViewMode::SideBySide => ViewMode::Unified,
        }
    }

    fn set_view(&mut self, view: ViewMode)
        requires
            old(self).wf(),
        ensures
            final(self)@ == (AppState {
                view,
                config: crate::config::load::ConfigModel { view, ..old(self)@.config },
                ..old(self)@
            }),
            final(self).wf(),
    {
        proof {
            reveal(App::state);
        }
        self.view = view;
        self.config.view = view;
    }

    // ── the cursor ─────────────────────────────────────────────────────────

    /// Move the cursor to row `i` of the sidebar.
    fn move_to_row(&mut self, i: usize)
        requires
            old(self).wf(),
        ensures
            final(self)@ == old(self)@.at_row(i as int),
            final(self).wf(),
    {
        proof {
            reveal(AppState::at_row);
        }
        self.set_cursor(i);
        self.ensure_diff_loaded();
        self.set_dirty();
    }

    pub(crate) fn cursor_down(&mut self)
        requires
            old(self).wf(),
        ensures
            final(self)@ == old(self)@.cursor_moved_down(),
            final(self).wf(),
    {
        proof {
            reveal(App::state);
        }
        proof {
            reveal(AppState::cursor_moved_down);
        }
        let n = self.tree.visible.len();
        if n > 0 && self.tree_cursor < n - 1 {
            let i = self.tree_cursor + 1;
            self.move_to_row(i);
            return;
        }
    }

    pub(crate) fn cursor_up(&mut self)
        requires
            old(self).wf(),
        ensures
            final(self)@ == old(self)@.cursor_moved_up(),
            final(self).wf(),
    {
        proof {
            reveal(App::state);
        }
        proof {
            reveal(AppState::cursor_moved_up);
        }
        if self.tree_cursor > 0 {
            let i = self.tree_cursor - 1;
            self.move_to_row(i);
            return;
        }
    }

    pub(crate) fn next_file(&mut self)
        requires
            old(self).wf(),
        ensures
            final(self)@ == old(self)@.on_next_file(),
            final(self).wf(),
    {
        proof {
            reveal(App::state);
        }
        proof {
            reveal(AppState::on_next_file);
        }
        let n = self.tree.visible.len();
        if self.tree_cursor >= n {
            return;
        }
        if let Some(i) = self.leaf_from(self.tree_cursor + 1) {
            self.move_to_row(i);
            return;
        }
    }

    pub(crate) fn prev_file(&mut self)
        requires
            old(self).wf(),
        ensures
            final(self)@ == old(self)@.on_prev_file(),
            final(self).wf(),
    {
        proof {
            reveal(App::state);
        }
        proof {
            reveal(AppState::on_prev_file);
        }
        let n = self.tree.visible.len();
        let from = if self.tree_cursor <= n {
            self.tree_cursor
        } else {
            n
        };
        if let Some(i) = self.leaf_before(from) {
            self.move_to_row(i);
            return;
        }
    }

    /// Enter: toggle a folder, or focus the diff panel on a file.
    pub(crate) fn activate(&mut self)
        requires
            old(self).wf(),
        ensures
            final(self)@ == old(self)@.activated(),
            final(self).wf(),
    {
        proof {
            reveal(App::state);
        }
        proof {
            reveal(AppState::activated);
        }
        let node = match self.node_at_cursor() {
            Some(n) => n,
            None => {
                return;
            },
        };
        if self.tree.is_dir(node) {
            self.fold(node);
            return;
        }
        self.focus_diff();
    }

    fn focus_diff(&mut self)
        requires
            old(self).wf(),
        ensures
            final(self)@ == old(self)@.on_diff(),
            final(self).wf(),
    {
        proof {
            reveal(App::state);
        }
        proof {
            reveal(AppState::on_diff);
        }
        self.focus = Focus::Diff;
        self.dirty = true;
    }

    fn fold(&mut self, node: usize)
        requires
            old(self).wf(),
            node < old(self)@.tree.nodes.len(),
        ensures
            final(self)@ == old(self)@.folder_toggled(node as int),
            final(self).wf(),
    {
        proof {
            reveal(AppState::folder_toggled);
        }
        self.toggle_folder(node);
        self.recompute_view();
        self.ensure_diff_loaded();
        self.set_dirty();
    }

    fn toggle_folder(&mut self, node: usize)
        requires
            old(self).wf(),
            node < old(self)@.tree.nodes.len(),
        ensures
            final(self)@ == (AppState {
                tree: toggled(old(self)@.tree, node as int),
                ..old(self)@
            }),
            final(self).wf(),
    {
        proof {
            reveal(App::state);
        }
        proof {
            reveal(tree_ok);
            lemma_toggle_keeps_leaves(self@.tree, node as int, self@.files.len());
        }
        self.tree.toggle(node);
    }

    // ── the sidebar's width ────────────────────────────────────────────────

    /// Upper bound on the sidebar width given the current terminal size; the lower
    /// bound until a body width is known.
    fn max_tree_width(&self) -> (r: u16)
        ensures
            r == self@.max_tree_width(),
    {
        proof {
            reveal(App::state);
        }
        let room = self.body_width.saturating_sub(MIN_DIFF_WIDTH);
        if room >= MIN_TREE_WIDTH {
            room
        } else {
            MIN_TREE_WIDTH
        }
    }

    /// Set the sidebar width, clamped to its bounds.
    fn set_tree_width(&mut self, w: u16)
        requires
            old(self).wf(),
        ensures
            final(self)@ == old(self)@.with_tree_width(w as int),
            final(self).wf(),
    {
        proof {
            reveal(App::state);
        }
        proof {
            reveal(AppState::with_tree_width);
        }
        let most = self.max_tree_width();
        let new = if w > most {
            most
        } else if w < MIN_TREE_WIDTH {
            MIN_TREE_WIDTH
        } else {
            w
        };
        if new != self.tree_width {
            self.tree_width = new;
            self.dirty = true;
            return;
        }
    }

    pub(crate) fn widen_tree(&mut self)
        requires
            old(self).wf(),
        ensures
            final(self)@ == old(self)@.with_tree_width(
                crate::app::state::saturated(
                    old(self)@.tree_width + TREE_RESIZE_STEP,
                    u16::MAX as int,
                ),
            ),
            final(self).wf(),
    {
        proof {
            reveal(App::state);
        }
        let w = self.tree_width.saturating_add(TREE_RESIZE_STEP);
        self.set_tree_width(w);
    }

    pub(crate) fn narrow_tree(&mut self)
        requires
            old(self).wf(),
        ensures
            final(self)@ == old(self)@.with_tree_width(
                crate::render::viewport::max_of(old(self)@.tree_width - TREE_RESIZE_STEP, 0),
            ),
            final(self).wf(),
    {
        proof {
            reveal(App::state);
        }
        let w = self.tree_width.saturating_sub(TREE_RESIZE_STEP);
        self.set_tree_width(w);
    }

    /// The two-column hit zone for the tree/diff divider. Either the tree's right
    /// border or the diff's left border counts as a grab.
    fn is_divider_column(&self, column: u16) -> (r: bool)
        ensures
            r == self@.is_divider(column),
    {
        proof {
            reveal(App::state);
        }
        let left = self.tree_width.saturating_sub(1);
        column == left || column == self.tree_width
    }

    /// Route mouse events: a wheel notch scrolls the panel under the pointer, and
    /// a left-click on the tree/diff divider starts a drag-to-resize.
    pub fn on_mouse(&mut self, ev: MouseEvent)
        requires
            old(self).wf(),
        ensures
            final(self)@ == old(self)@.after_mouse(ev),
            final(self).wf(),
    {
        proof {
            reveal(App::state);
        }
        proof {
            reveal(AppState::after_mouse);
        }
        match ev.kind {
            MouseKind::LeftDown => {
                if self.is_divider_column(ev.column) {
                    self.dragging_divider = true;
                    return;
                }
                return;
            },
            MouseKind::LeftDrag => {
                if self.dragging_divider {
                    // Column X means the tree's right border sits at X.
                    self.set_tree_width(ev.column.saturating_add(1));
                    return;
                }
                return;
            },
            MouseKind::LeftUp => {
                self.dragging_divider = false;
                return;
            },
            MouseKind::ScrollDown => {
                if ev.column >= self.diff_x {
                    self.scroll_down(MOUSE_SCROLL_LINES);
                    return;
                }
                self.cursor_down();
                return;
            },
            MouseKind::ScrollUp => {
                if ev.column >= self.diff_x {
                    self.scroll_up(MOUSE_SCROLL_LINES);
                    return;
                }
                self.cursor_up();
                return;
            },
            MouseKind::Other => {
                return;
            },
        }
    }
}

/// A toggle leaves the leaves alone.
pub proof fn lemma_toggle_keeps_leaves(
    tree: crate::model::tree::TreeModel,
    node: int,
    n: nat,
)
    requires
        0 <= node < tree.nodes.len(),
        crate::model::tree::leaves_below(tree.nodes, n as int),
    ensures
        crate::model::tree::leaves_below(toggled(tree, node).nodes, n as int),
{
    let after = toggled(tree, node).nodes;
    assert forall|i: int| 0 <= i < after.len() && (#[trigger] after[i]).file is Some implies
        after[i].file->0 < n by {
        assert(tree.nodes[i].file == after[i].file);
    }
}

} // verus!
