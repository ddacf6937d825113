//! The application: its state in memory, and the operations on it.
//!
//! `App` is owned and changed in one place, in response to events. What needs the
//! outside world (git, files, the clipboard, worker threads) is asked for with an
//! [`Effect`], which the program carries out before the next event.

use std::sync::Arc;

use vstd::hash_map::StringHashMap;
use vstd::hash_set::StringHashSet;
use vstd::prelude::*;
use vstd::string::*;
use vstd::utf8::*;

use crate::app::state::{
    diff_ok, highlightable, leaf_of_path, line_count, next_leaf, prev_leaf, rows_ok, tree_ok,
    AppState,
};
use crate::app::types::{
    effect_models, EditorRequest, Effect, EffectModel, Focus, HighlightRequest, Mode, PickerModel,
    RowRef, SideRow, ThemePicker, Toast, ViewMode,
};
use crate::cache::{share, DiffCache};
use crate::config::load::Config;
use crate::git::diff::{hash_models, hash_text, DiffBase};
use crate::glyphs::Glyphs;
use crate::highlight::FileHighlight;
use crate::model::diff::{DiffModel, FileDiff};
use crate::model::file::{file_models, ChangedFile};
use crate::model::review::{
    chunk_reviewed, derive_file, reviewed_chunk_count, FileHashes, ReviewStatus,
};
use crate::model::tree::{lemma_rows_same_choice, mask_of, FileTree, TreeModel};
use crate::pager::diff_models;
use crate::persist::{HiddenStore, ReviewStore};
use crate::text::{chars_of, find_from, lower_text, opt_string, same, strings, unicode_lower};

verus! {

/// A computed highlight, with the theme and the diff that it is for.
#[derive(Debug)]
pub struct CachedHighlight {
    pub theme: String,
    pub hash: u64,
    pub highlight: Arc<FileHighlight>,
}

impl View for CachedHighlight {
    type V = (Seq<char>, u64, Arc<FileHighlight>);

    open spec fn view(&self) -> (Seq<char>, u64, Arc<FileHighlight>) {
        (self.theme@, self.hash, self.highlight)
    }
}

/// The application.
pub struct App {
    pub repo_root: String,
    pub base: DiffBase,
    pub files: Vec<ChangedFile>,
    pub tree: FileTree,
    /// Index into `tree.visible`.
    pub tree_cursor: usize,
    /// The diff of the currently selected file (if any), shared with the cache.
    pub diff: Option<Arc<FileDiff>>,
    /// Flattened render rows for `diff` (unified view).
    pub diff_rows: Vec<RowRef>,
    /// Row index where each chunk's header sits in `diff_rows`.
    pub chunk_starts: Vec<usize>,
    /// Flattened render rows for the side-by-side view.
    pub side_rows: Vec<SideRow>,
    /// Row index where each chunk's header sits in `side_rows`.
    pub side_chunk_starts: Vec<usize>,
    /// Which file index `diff` belongs to, to avoid redundant reloads.
    pub diff_file: Option<usize>,
    /// Syntax highlighting for `diff`. `None` when highlighting is off, the diff
    /// is too large, no diff is loaded, or the highlight has not arrived yet.
    pub highlight: Option<Arc<FileHighlight>>,
    /// The theme currently used for highlighting: the configured one, except while
    /// the theme picker previews a candidate.
    pub active_theme: String,
    /// Open theme picker overlay, if any.
    pub theme_picker: Option<ThemePicker>,
    /// Every theme name available for selection.
    pub themes: Vec<String>,
    /// Whether the terminal supports 24-bit colour.
    pub truecolor: bool,
    /// Whether there is a pool that takes prefetch jobs.
    pub prefetch_ready: bool,
    /// How many prefetch jobs may be in flight at once.
    pub prefetch_parallelism: usize,
    /// Paths with a prefetch job currently in flight.
    pub prefetch_inflight: StringHashSet,
    /// Paths skipped by prefetch (binary, oversized or without a diff). Cleared
    /// when the file list changes.
    pub prefetch_skip: StringHashSet,
    /// Tag for highlight requests, so a result for a superseded selection is
    /// dropped instead of flashing in.
    pub highlight_gen: u64,
    /// Computed highlights by path, so a revisited file renders coloured at once.
    pub highlight_cache: StringHashMap<CachedHighlight>,
    /// LRU cache of parsed diffs, keyed by file signature.
    pub cache: DiffCache,
    /// True for a session on a repository. False in pager mode: the diff was piped
    /// in and the application is a read-only viewer.
    pub live: bool,
    /// Parsed diffs by path, in pager mode.
    pub preloaded: StringHashMap<Arc<FileDiff>>,
    pub scroll: usize,
    pub current_chunk: usize,
    /// Whether each chunk of the diff is folded to its header.
    pub chunk_collapsed: Vec<bool>,
    /// Content hash of each chunk of the diff.
    pub chunk_hashes: Vec<u64>,
    /// Reviewed state, by path.
    pub review: ReviewStore,
    /// Current hashes of reviewed files, to detect changes after a review.
    pub hashes: StringHashMap<FileHashes>,
    /// Files hidden from the review.
    pub hidden: HiddenStore,
    /// When true, the sidebar shows only hidden files.
    pub hidden_view: bool,
    pub focus: Focus,
    pub mode: Mode,
    pub view: ViewMode,
    /// Glyph set used for rendering.
    pub glyphs: Glyphs,
    /// Active file-filter query (empty = no filter).
    pub filter: String,
    pub should_quit: bool,
    /// The screen has to be drawn again.
    pub dirty: bool,
    /// Diff viewport height in rows, set with each frame.
    pub diff_height: usize,
    /// Left column of the diff panel, set with each frame.
    pub diff_x: u16,
    /// Width of the file-tree sidebar in columns.
    pub tree_width: u16,
    /// Width of the terminal, set with each frame.
    pub body_width: u16,
    /// True while the divider between the panels is dragged.
    pub dragging_divider: bool,
    pub status_msg: Option<String>,
    pub error: Option<String>,
    /// Set when the user asks to open the current file in the editor.
    pub pending_editor: Option<EditorRequest>,
    /// The resolved configuration.
    pub config: Config,
    /// Where the user config lives on disk.
    pub config_path: String,
    /// Set when the user asks to edit the config.
    pub pending_config_edit: bool,
    /// A persistent config problem, shown until a clean reload clears it.
    pub config_error: Option<String>,
    /// A transient toast.
    pub toast: Option<Toast>,
    /// Effects that were asked for, in order.
    pub outbox: Vec<Effect>,
}

pub open spec fn opt_diff(d: Option<Arc<FileDiff>>) -> Option<DiffModel> {
    match d {
        Some(d) => Some(d@),
        None => None,
    }
}

pub open spec fn opt_picker(p: Option<ThemePicker>) -> Option<PickerModel> {
    match p {
        Some(p) => Some(p@),
        None => None,
    }
}

pub open spec fn opt_editor(r: Option<EditorRequest>) -> Option<(Seq<char>, u32)> {
    match r {
        Some(r) => Some(r@),
        None => None,
    }
}

pub open spec fn opt_toast(t: Option<Toast>) -> Option<(Seq<char>, u64)> {
    match t {
        Some(t) => Some(t@),
        None => None,
    }
}

pub open spec fn highlight_models(m: Map<Seq<char>, CachedHighlight>) -> Map<
    Seq<char>,
    (Seq<char>, u64, Arc<FileHighlight>),
> {
    m.map_values(|h: CachedHighlight| h@)
}

impl View for App {
    type V = AppState;

    open spec fn view(&self) -> AppState {
        self.state()
    }
}

impl App {
    /// The state that the fields hold.
    #[verifier::opaque]
    pub open spec fn state(&self) -> AppState {
        AppState {
            repo_root: self.repo_root@,
            base: self.base,
            files: file_models(self.files@),
            tree: self.tree@,
            tree_cursor: self.tree_cursor,
            diff: opt_diff(self.diff),
            diff_rows: self.diff_rows@,
            chunk_starts: self.chunk_starts@,
            side_rows: self.side_rows@,
            side_chunk_starts: self.side_chunk_starts@,
            diff_file: self.diff_file,
            highlight: self.highlight,
            active_theme: self.active_theme@,
            theme_picker: opt_picker(self.theme_picker),
            themes: strings(self.themes@),
            truecolor: self.truecolor,
            prefetch_ready: self.prefetch_ready,
            prefetch_parallelism: self.prefetch_parallelism,
            prefetch_inflight: self.prefetch_inflight@,
            prefetch_skip: self.prefetch_skip@,
            highlight_gen: self.highlight_gen,
            highlight_cache: highlight_models(self.highlight_cache@),
            cache: self.cache@,
            live: self.live,
            preloaded: diff_models(self.preloaded@),
            scroll: self.scroll,
            current_chunk: self.current_chunk,
            chunk_collapsed: self.chunk_collapsed@,
            chunk_hashes: self.chunk_hashes@,
            review: self.review@,
            review_file: self.review.file_path(),
            hashes: hash_models(self.hashes@),
            hidden: self.hidden@,
            hidden_file: self.hidden.file_path(),
            hidden_view: self.hidden_view,
            focus: self.focus,
            mode: self.mode,
            view: self.view,
            glyphs: self.glyphs,
            filter: self.filter@,
            should_quit: self.should_quit,
            dirty: self.dirty,
            diff_height: self.diff_height,
            diff_x: self.diff_x,
            tree_width: self.tree_width,
            body_width: self.body_width,
            dragging_divider: self.dragging_divider,
            status_msg: opt_string(self.status_msg),
            error: opt_string(self.error),
            pending_editor: opt_editor(self.pending_editor),
            config: self.config@,
            config_path: self.config_path@,
            pending_config_edit: self.pending_config_edit,
            config_error: opt_string(self.config_error),
            toast: opt_toast(self.toast),
            outbox: effect_models(self.outbox@),
        }
    }

    /// The state is valid, and so are the collections that hold it.
    pub open spec fn wf(self) -> bool {
        &&& self@.wf()
        &&& self.review.wf()
        &&& self.hidden.wf()
        &&& self.config.keys.wf()
    }

    // ── single changes ─────────────────────────────────────────────────────

    pub(crate) fn set_dirty(&mut self)
        requires
            old(self).wf(),
        ensures
            final(self)@ == (AppState { dirty: true, ..old(self)@ }),
            final(self).wf(),
    {
        proof {
            reveal(App::state);
        }
        self.dirty = true;
    }

    pub(crate) fn set_cursor(&mut self, row: usize)
        requires
            old(self).wf(),
        ensures
            final(self)@ == (AppState { tree_cursor: row, ..old(self)@ }),
            final(self).wf(),
    {
        proof {
            reveal(App::state);
        }
        self.tree_cursor = row;
    }

    pub(crate) fn set_mode(&mut self, mode: Mode)
        requires
            old(self).wf(),
        ensures
            final(self)@ == (AppState { mode, ..old(self)@ }),
            final(self).wf(),
    {
        proof {
            reveal(App::state);
        }
        self.mode = mode;
    }

    pub(crate) fn set_error(&mut self, text: String)
        requires
            old(self).wf(),
        ensures
            final(self)@ == (AppState { error: Some(text@), ..old(self)@ }),
            final(self).wf(),
    {
        proof {
            reveal(App::state);
        }
        self.error = Some(text);
    }

    // ── selection ──────────────────────────────────────────────────────────

    pub(crate) fn node_at_cursor(&self) -> (r: Option<usize>)
        requires
            self.wf(),
        ensures
            r == self@.node_at_cursor(),
            r is Some ==> r->0 < self@.tree.nodes.len(),
    {
        proof {
            reveal(App::state);
        }
        proof {
            reveal(tree_ok);
        }
        if self.tree_cursor < self.tree.visible.len() {
            Some(self.tree.visible[self.tree_cursor])
        } else {
            None
        }
    }

    /// File index under the cursor, or `None` if the cursor is on a folder.
    pub fn current_file_index(&self) -> (r: Option<usize>)
        requires
            self.wf(),
        ensures
            r == self@.current_file(),
            r is Some ==> r->0 < self@.files.len(),
    {
        proof {
            reveal(App::state);
        }
        proof {
            reveal(tree_ok);
        }
        match self.node_at_cursor() {
            Some(n) => {
                assert(self@.tree.nodes[n as int] == self.tree.nodes@[n as int]@);
                self.tree.nodes[n].file
            },
            None => None,
        }
    }

    /// The first listed leaf at or behind `from`.
    pub(crate) fn leaf_from(&self, from: usize) -> (r: Option<usize>)
        requires
            self.wf(),
        ensures
            r == next_leaf(self@.tree.nodes, self@.tree.visible, from as int),
            r is Some ==> from <= r->0 < self@.tree.visible.len(),
    {
        proof {
            reveal(App::state);
        }
        proof {
            reveal(tree_ok);
        }
        let n = self.tree.visible.len();
        let mut i: usize = from;
        while i < n
            invariant
                self.wf(),
                n == self.tree.visible@.len(),
                from <= i,
                next_leaf(self@.tree.nodes, self@.tree.visible, from as int) == next_leaf(
                    self@.tree.nodes,
                    self@.tree.visible,
                    i as int,
                ),
            decreases n - i,
        {
            proof {
                reveal(App::state);
            }
            proof {
                reveal(tree_ok);
            }
            let node = self.tree.visible[i];
            assert(self@.tree.visible[i as int] == node);
            assert(self@.tree.nodes[node as int] == self.tree.nodes@[node as int]@);
            if self.tree.nodes[node].file.is_some() {
                return Some(i);
            }
            i += 1;
        }
        None
    }

    /// The last listed leaf before `to`.
    pub(crate) fn leaf_before(&self, to: usize) -> (r: Option<usize>)
        requires
            self.wf(),
            to <= self@.tree.visible.len(),
        ensures
            r == prev_leaf(self@.tree.nodes, self@.tree.visible, to as int),
            r is Some ==> r->0 < to,
    {
        proof {
            reveal(App::state);
        }
        proof {
            reveal(tree_ok);
        }
        let mut i: usize = to;
        while i > 0
            invariant
                self.wf(),
                i <= to <= self@.tree.visible.len(),
                prev_leaf(self@.tree.nodes, self@.tree.visible, to as int) == prev_leaf(
                    self@.tree.nodes,
                    self@.tree.visible,
                    i as int,
                ),
            decreases i,
        {
            proof {
                reveal(App::state);
            }
            proof {
                reveal(tree_ok);
            }
            let node = self.tree.visible[i - 1];
            assert(self@.tree.visible[i - 1] == node);
            assert(self@.tree.nodes[node as int] == self.tree.nodes@[node as int]@);
            if self.tree.nodes[node].file.is_some() {
                return Some(i - 1);
            }
            i -= 1;
        }
        None
    }

    /// Visible-list index of the first file leaf, if any.
    pub fn first_file_cursor(&self) -> (r: Option<usize>)
        requires
            self.wf(),
        ensures
            r == self@.first_leaf(),
    {
        self.leaf_from(0)
    }

    /// Visible-list index of the node holding `path`, if currently visible.
    pub fn cursor_for_path(&self, path: &str) -> (r: Option<usize>)
        requires
            self.wf(),
        ensures
            r == leaf_of_path(
                self@.tree.nodes,
                self@.tree.visible,
                self@.files,
                path@,
                0,
            ),
    {
        proof {
            reveal(App::state);
        }
        proof {
            reveal(tree_ok);
        }
        let n = self.tree.visible.len();
        let mut i: usize = 0;
        while i < n
            invariant
                self.wf(),
                n == self.tree.visible@.len(),
                leaf_of_path(self@.tree.nodes, self@.tree.visible, self@.files, path@, 0)
                    == leaf_of_path(
                    self@.tree.nodes,
                    self@.tree.visible,
                    self@.files,
                    path@,
                    i as int,
                ),
            decreases n - i,
        {
            proof {
                reveal(App::state);
            }
            proof {
                reveal(tree_ok);
            }
            let node = self.tree.visible[i];
            assert(self@.tree.visible[i as int] == node);
            assert(self@.tree.nodes[node as int] == self.tree.nodes@[node as int]@);
            if let Some(fi) = self.tree.nodes[node].file {
                assert(self@.files[fi as int] == self.files@[fi as int]@);
                if same(self.files[fi].path.as_str(), path) {
                    return Some(i);
                }
            }
            i += 1;
        }
        None
    }

    // ── reviewed state ─────────────────────────────────────────────────────

    /// Derived review status for a file (by index into `files`).
    pub fn review_status(&self, file_idx: usize) -> (r: ReviewStatus)
        requires
            self.wf(),
            file_idx < self@.files.len(),
        ensures
            r == self@.status(file_idx as int),
    {
        proof {
            reveal(App::state);
        }
        let path = self.files[file_idx].path.as_str();
        derive_file(self.review.get(path), self.hashes.get(path))
    }

    /// `(reviewed, total)` chunk counts for a file, for the sidebar `n/m` badge.
    /// Zero/zero when the file has no record or no known hashes yet.
    pub fn reviewed_chunk_count(&self, file_idx: usize) -> (r: (usize, usize))
        requires
            self.wf(),
            file_idx < self@.files.len(),
        ensures
            (r.0 as nat, r.1 as nat) == self@.chunk_counts(file_idx as int),
    {
        proof {
            reveal(App::state);
        }
        let path = self.files[file_idx].path.as_str();
        let hashes = self.hashes.get(path);
        let total = match hashes {
            Some(h) => h.chunks.len(),
            None => 0,
        };
        (reviewed_chunk_count(self.review.get(path), hashes), total)
    }

    /// Whether chunk `h` of the diff in view is marked reviewed.
    pub fn chunk_reviewed(&self, h: usize) -> (r: bool)
        requires
            self.wf(),
        ensures
            r == self@.is_chunk_reviewed(h as int),
    {
        proof {
            reveal(App::state);
        }
        match &self.diff {
            Some(d) => {
                if h < self.chunk_hashes.len() {
                    chunk_reviewed(self.review.get(d.path.as_str()), self.chunk_hashes[h])
                } else {
                    false
                }
            },
            None => false,
        }
    }

    /// Paths that currently have a review record (asked of the git worker so it
    /// hashes only those on refresh).
    pub fn reviewed_paths(&self) -> (r: Vec<String>)
        requires
            self.wf(),
        ensures
            strings(r@).no_duplicates(),
            forall|p: Seq<char>| #[trigger]
                strings(r@).contains(p) <==> self@.review.contains_key(p),
    {
        proof {
            reveal(App::state);
        }
        self.review.reviewed_paths()
    }

    // ── hidden state ───────────────────────────────────────────────────────

    /// Whether file `fi` is hidden: either interactively or by a config auto-hide
    /// rule.
    pub fn is_file_hidden(&self, fi: usize) -> (r: bool)
        requires
            fi < self@.files.len(),
        ensures
            r == self@.is_hidden(fi as int),
    {
        proof {
            reveal(App::state);
        }
        let path = self.files[fi].path.as_str();
        self.hidden.is_hidden(path) || self.config.hide.matches(path)
    }

    /// Number of currently-changed files that are hidden.
    pub fn hidden_count(&self) -> (r: usize)
        ensures
            r == self@.count_hidden(self@.files.len() as int),
            r <= self@.files.len(),
    {
        proof {
            reveal(App::state);
        }
        let n = self.files.len();
        let mut count: usize = 0;
        for i in 0..n
            invariant
                n == self.files@.len(),
                count <= i,
                count == self@.count_hidden(i as int),
        {
            proof {
                reveal(App::state);
            }
            if self.is_file_hidden(i) {
                count += 1;
            }
        }
        count
    }

    /// Number of currently-changed files that are not hidden (the normal "Changed
    /// files" total).
    pub fn shown_count(&self) -> (r: usize)
        ensures
            r == self@.files.len() - self@.count_hidden(self@.files.len() as int),
    {
        proof {
            reveal(App::state);
        }
        self.files.len() - self.hidden_count()
    }

    /// Whether a filter is active.
    pub fn is_filtering(&self) -> (r: bool)
        ensures
            r == (self@.filter.len() > 0),
    {
        proof {
            reveal(App::state);
        }
        self.filter.as_str().unicode_len() > 0
    }

    /// For every node, whether it is a leaf of the list in view.
    fn kept_mask(&self) -> (r: Vec<bool>)
        requires
            self.wf(),
        ensures
            r@.len() == self@.tree.nodes.len(),
            forall|j: int| 0 <= j < r@.len() ==> #[trigger] r@[j] == self@.keeps(j),
    {
        proof {
            reveal(App::state);
        }
        let n = self.tree.nodes.len();
        let mut mask: Vec<bool> = Vec::new();
        for i in 0..n
            invariant
                n == self.tree.nodes@.len(),
                self.wf(),
                mask@.len() == i,
                forall|j: int| 0 <= j < i ==> #[trigger] mask@[j] == self@.keeps(j),
        {
            proof {
                reveal(App::state);
            }
            proof {
                reveal(tree_ok);
            }
            assert(self@.tree.nodes[i as int] == self.tree.nodes@[i as int]@);
            let kept = match self.tree.nodes[i].file {
                Some(fi) => self.is_file_hidden(fi) == self.hidden_view,
                None => false,
            };
            mask.push(kept);
        }
        mask
    }

    /// The leaves of the list in view that match the filter.
    fn filtered_rows(&self, mask: &Vec<bool>) -> (r: Vec<usize>)
        requires
            self.wf(),
            mask@.len() == self@.tree.nodes.len(),
            forall|j: int| 0 <= j < mask@.len() ==> #[trigger] mask@[j] == self@.keeps(j),
        ensures
            r@ == self@.filtered(self@.tree.nodes.len() as int),
            forall|j: int| 0 <= j < r@.len() ==> #[trigger] r@[j] < self@.tree.nodes.len(),
    {
        proof {
            reveal(App::state);
        }
        let n = self.tree.nodes.len();
        let q = lower_text(self.filter.as_str());
        let q = chars_of(q.as_str());
        let mut rows: Vec<usize> = Vec::new();
        for i in 0..n
            invariant
                n == self.tree.nodes@.len(),
                self.wf(),
                mask@.len() == n,
                q@ == unicode_lower(self@.filter),
                forall|j: int| 0 <= j < n ==> #[trigger] mask@[j] == self@.keeps(j),
                rows@ == self@.filtered(i as int),
                forall|j: int| 0 <= j < rows@.len() ==> #[trigger] rows@[j] < n,
        {
            proof {
                reveal(App::state);
            }
            proof {
                reveal(tree_ok);
            }
            assert(self@.tree.nodes[i as int] == self.tree.nodes@[i as int]@);
            if mask[i] {
                if let Some(fi) = self.tree.nodes[i].file {
                    assert(self@.files[fi as int] == self.files@[fi as int]@);
                    let path = lower_text(self.files[fi].path.as_str());
                    let path = chars_of(path.as_str());
                    if find_from(path.as_slice(), q.as_slice(), 0).is_some() {
                        rows.push(i);
                    }
                }
            }
        }
        rows
    }

    /// The rows of the sidebar.
    fn sidebar_list(&self) -> (r: Vec<usize>)
        requires
            self.wf(),
        ensures
            r@ == self@.sidebar_rows(),
            forall|j: int| 0 <= j < r@.len() ==> #[trigger] r@[j] < self@.tree.nodes.len(),
    {
        proof {
            reveal(App::state);
        }
        let mask = self.kept_mask();
        if self.is_filtering() {
            return self.filtered_rows(&mask);
        }
        proof {
            reveal(tree_ok);
            let root = self@.tree.root as int;
            lemma_rows_same_choice(
                self@.tree.nodes,
                root,
                self@.tree.nodes[root].children.len() as int,
                mask_of(mask@),
                self@.kept(),
            );
        }
        self.tree.rows_with(&mask)
    }

    /// Recompute the tree's visible list. One predicate gates both the
    /// hidden/normal view split and the text filter. With an active filter the
    /// tree collapses to a flat list of matching files; otherwise it is the normal
    /// hierarchical view with empty folders pruned.
    pub fn recompute_view(&mut self)
        requires
            old(self).wf(),
        ensures
            final(self)@ == old(self)@.recomputed(),
            final(self).wf(),
    {
        proof {
            reveal(App::state);
        }
        let rows = self.sidebar_list();
        let n = rows.len();
        let cursor = if self.tree_cursor < n {
            self.tree_cursor
        } else if n > 0 {
            n - 1
        } else {
            0
        };
        proof {
            reveal(AppState::recomputed);
            lemma_tree_ok_rows(self@.tree, rows@, self@.files.len());
        }
        self.tree.visible = rows;
        self.tree_cursor = cursor;
    }

    /// Where the cursor goes to be on a file leaf.
    fn snap_target(&self) -> (r: usize)
        requires
            self.wf(),
        ensures
            r == self@.snapped().tree_cursor,
    {
        proof {
            reveal(App::state);
        }
        proof {
            reveal(AppState::snapped);
        }
        let n = self.tree.visible.len();
        if n == 0 {
            return 0;
        }
        let at = if self.tree_cursor < n {
            self.tree_cursor
        } else {
            n - 1
        };
        match self.leaf_from(at) {
            Some(i) => i,
            None => match self.leaf_before(at) {
                Some(i) => i,
                None => at,
            },
        }
    }

    /// Keep the cursor on a file leaf after the visible list changes: clamp into
    /// range, then look forward (the natural "next file") and finally backward.
    pub(crate) fn snap_cursor_to_file(&mut self)
        requires
            old(self).wf(),
        ensures
            final(self)@ == old(self)@.snapped(),
            final(self).wf(),
    {
        proof {
            reveal(App::state);
        }
        proof {
            reveal(AppState::snapped);
        }
        let target = self.snap_target();
        self.tree_cursor = target;
    }

    // ── the diff in view ───────────────────────────────────────────────────

    pub(crate) fn ask(&mut self, effect: Effect)
        requires
            old(self).wf(),
        ensures
            final(self)@ == old(self)@.asking(effect@),
            final(self).wf(),
    {
        proof {
            reveal(App::state);
        }
        proof {
            reveal(AppState::asking);
        }
        let ghost before = self@;
        let ghost view = effect@;
        self.outbox.push(effect);
        assert(self@.outbox =~= before.outbox.push(view));
        assert(self@ == before.asking(view));
    }

    /// Takes the effect that was asked for first.
    pub fn take_effect(&mut self) -> (r: Option<Effect>)
        requires
            old(self).wf(),
        ensures
            r is Some <==> old(self)@.outbox.len() > 0,
            r is Some ==> r->0@ == old(self)@.outbox[0] && final(self)@ == (AppState {
                outbox: old(self)@.outbox.skip(1),
                ..old(self)@
            }),
            r is None ==> final(self)@ == old(self)@,
            final(self).wf(),
    {
        proof {
            reveal(App::state);
        }
        let ghost before = self@;
        if self.outbox.len() == 0 {
            return None;
        }
        let effect = self.outbox.remove(0);
        assert(self@.outbox =~= before.outbox.skip(1));
        assert(self@ == (AppState { outbox: before.outbox.skip(1), ..before }));
        Some(effect)
    }

    pub(crate) fn clear_diff(&mut self)
        requires
            old(self).wf(),
        ensures
            final(self)@ == old(self)@.cleared(),
            final(self).wf(),
    {
        proof {
            reveal(App::state);
        }
        proof {
            reveal(AppState::cleared);
        }
        let ghost before = self@;
        proof {
            reveal(rows_ok);
            reveal(diff_ok);
        }
        self.diff = None;
        self.highlight = None;
        self.diff_rows = Vec::new();
        self.chunk_starts = Vec::new();
        self.side_rows = Vec::new();
        self.side_chunk_starts = Vec::new();
        self.chunk_collapsed = Vec::new();
        self.chunk_hashes = Vec::new();
        assert(self@ == before.cleared());
    }

    /// Whether a diff is highlighted: it is text, and within the size guard.
    pub(crate) fn can_highlight(&self, d: &FileDiff) -> (r: bool)
        ensures
            r == highlightable(self@.config, d@),
    {
        proof {
            reveal(App::state);
        }
        if d.is_binary {
            return false;
        }
        let most = self.config.theme.max_lines;
        let mut lines: usize = 0;
        let n = d.chunks.len();
        for i in 0..n
            invariant
                n == d.chunks@.len(),
                most == self.config.theme.max_lines,
                lines == line_count(d@.chunks, i as int),
                lines <= most,
        {
            proof {
                reveal(App::state);
            }
            let here = d.chunks[i].lines.len();
            assert(d@.chunks[i as int].lines.len() == here);
            if here > most - lines {
                proof {
                    lemma_line_count(d@.chunks, i + 1, n as int);
                }
                return false;
            }
            lines += here;
        }
        true
    }

    /// The cached highlight for the active theme of the diff with this hash.
    fn find_highlight(&self, path: &str, hash: u64) -> (r: Option<Arc<FileHighlight>>)
        ensures
            r == if self@.highlight_cache.contains_key(path@) && self@.highlight_cache[path@].0
                == self@.active_theme && self@.highlight_cache[path@].1 == hash {
                Some(self@.highlight_cache[path@].2)
            } else {
                None
            },
    {
        proof {
            reveal(App::state);
        }
        match self.highlight_cache.get(path) {
            Some(h) => {
                if same(h.theme.as_str(), self.active_theme.as_str()) && h.hash == hash {
                    Some(share(&h.highlight))
                } else {
                    None
                }
            },
            None => None,
        }
    }

    /// (Re)compute syntax highlighting for the current diff with the active theme:
    /// a cached one is shown at once, any other is asked for (the panel shows a
    /// flat diff until it arrives). There is none when highlighting is disabled,
    /// there is no textual diff, or the diff exceeds the size guard.
    pub fn recompute_highlight(&mut self)
        requires
            old(self).wf(),
        ensures
            final(self)@ == old(self)@.highlighted(),
            final(self).wf(),
    {
        proof {
            reveal(App::state);
        }
        let (highlight, request) = self.highlight_plan();
        proof {
            reveal(AppState::highlighted);
        }
        self.highlight = highlight;
        if let Some(r) = request {
            let ghost before = self@.outbox;
            let ghost view = r@;
            self.highlight_gen = r.generation;
            self.outbox.push(Effect::Highlight(r));
            assert(self@.outbox =~= before.push(EffectModel::Highlight(view)));
        }
    }

    /// The highlight to show, and the request for one that is not there.
    fn highlight_plan(&self) -> (r: (Option<Arc<FileHighlight>>, Option<HighlightRequest>))
        ensures
            r.0 == self@.highlighted().highlight,
            r.1 is Some <==> self@.needs_highlight(),
            r.1 is Some ==> r.1->0@ == self@.highlight_request(),
    {
        proof {
            reveal(App::state);
        }
        proof {
            reveal(AppState::highlighted);
        }
        let diff = match &self.diff {
            Some(d) => share(d),
            None => {
                return (None, None);
            },
        };
        if !self.config.theme.syntax || !self.can_highlight(&diff) {
            return (None, None);
        }
        let diff_hash = hash_text(diff.text.as_str());
        let hit = self.find_highlight(diff.path.as_str(), diff_hash);
        if hit.is_some() {
            return (hit, None);
        }
        let request = HighlightRequest {
            path: diff.path.clone(),
            diff,
            theme: self.active_theme.clone(),
            truecolor: self.truecolor,
            diff_hash,
            generation: self.highlight_gen.wrapping_add(1),
        };
        (None, Some(request))
    }
}

/// A tree with other rows.
proof fn lemma_tree_ok_rows(tree: TreeModel, rows: Seq<usize>, n: nat)
    requires
        tree_ok(tree, n),
        forall|j: int| 0 <= j < rows.len() ==> #[trigger] rows[j] < tree.nodes.len(),
    ensures
        tree_ok(TreeModel { visible: rows, ..tree }, n),
{
    reveal(tree_ok);
}

proof fn lemma_line_count(chunks: Seq<crate::model::diff::HunkModel>, k: int, n: int)
    requires
        0 <= k <= n,
    ensures
        line_count(chunks, k) <= line_count(chunks, n),
    decreases n - k,
{
    if k < n {
        lemma_line_count(chunks, k, n - 1);
    }
}

} // verus!
