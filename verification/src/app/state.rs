//! The application state as a mathematical value, and what every operation does
//! to it.

use std::sync::Arc;

use vstd::prelude::*;
use vstd::utf8::*;

use crate::app::fuzzy::fuzzy_matches;
use crate::app::rows::{
    first_no, side_rows_of, side_starts_of, unified_rows, unified_starts,
};
use crate::app::types::{
    Clock, EffectModel, Focus, HighlightModel, KeyEvent, Mode, MouseEvent, MouseKind, PickerModel,
    PlaceModel, ReviewedDisplay, RowRef, SideRow, ViewMode,
};
use crate::cache::{CacheModel, Signature};
use crate::config::action::Action;
use crate::config::chord::{normalized, KeyCode};
use crate::config::keymap::action_at;
use crate::config::load::{default_config, ConfigModel, LoadModel};
use crate::git::diff::{hashes_model, parse_model, seahash_of, DiffBase};
use crate::glyphs::Glyphs;
use crate::highlight::FileHighlight;
use crate::model::diff::{count_in_chunks, low_bits, DiffModel, HunkModel, LineKind};
use crate::model::file::{FileModel, KindModel};
use crate::model::review::{
    chunk_is_reviewed, reviewed_count_of, status_of, HashesModel, RecordModel, ReviewStatus,
};
use crate::model::snapshot::SnapshotModel;
use crate::model::tree::{leaves_below, toggled, tree_of, visible_rows, NodeModel, TreeModel};
use crate::path::join_of;
use crate::persist::{hidden_file, record_at, review_file, unmark_chunk_in, with_chunk};
use crate::reference::{chunk_span, method_name, reference_text, CopyMethod};
use crate::render::viewport::{clamped, max_of, max_offset, min_of};
use crate::text::{joined, text_contains, unicode_lower, utf8_lossy};

verus! {

/// Max parsed diffs kept in the LRU cache.
pub const DIFF_CACHE_CAP: usize = 128;

/// Max computed highlights cached for instant (flicker-free) revisits. Cleared
/// wholesale when exceeded: a coarse but cheap bound.
pub const HIGHLIGHT_CACHE_CAP: usize = 256;

/// Rows the diff scrolls per mouse-wheel notch.
pub const MOUSE_SCROLL_LINES: usize = 3;

/// Default width of the file-tree sidebar, in columns.
pub const DEFAULT_TREE_WIDTH: u16 = 44;

/// Lower bound on the sidebar width: narrow enough to be useful, wide enough to
/// still fit a status glyph and a short filename.
pub const MIN_TREE_WIDTH: u16 = 16;

/// Lower bound on the diff panel width; the sidebar may not grow past
/// `body_width - MIN_DIFF_WIDTH`.
pub const MIN_DIFF_WIDTH: u16 = 20;

/// Columns the sidebar grows/shrinks per key press.
pub const TREE_RESIZE_STEP: u16 = 2;

/// How long a transient toast stays up before it dismisses itself, in
/// milliseconds.
pub const TOAST_TTL_MS: u64 = 900;

/// The application state as a mathematical value.
#[verifier::ext_equal]
pub struct AppState {
    pub repo_root: Seq<char>,
    pub base: DiffBase,
    pub files: Seq<FileModel>,
    pub tree: TreeModel,
    pub tree_cursor: usize,
    pub diff: Option<DiffModel>,
    pub diff_rows: Seq<RowRef>,
    pub chunk_starts: Seq<usize>,
    pub side_rows: Seq<SideRow>,
    pub side_chunk_starts: Seq<usize>,
    pub diff_file: Option<usize>,
    pub highlight: Option<Arc<FileHighlight>>,
    pub active_theme: Seq<char>,
    pub theme_picker: Option<PickerModel>,
    pub themes: Seq<Seq<char>>,
    pub truecolor: bool,
    pub prefetch_ready: bool,
    pub prefetch_parallelism: usize,
    pub prefetch_inflight: Set<Seq<char>>,
    pub prefetch_skip: Set<Seq<char>>,
    pub highlight_gen: u64,
    pub highlight_cache: Map<Seq<char>, (Seq<char>, u64, Arc<FileHighlight>)>,
    pub cache: CacheModel,
    pub live: bool,
    pub preloaded: Map<Seq<char>, DiffModel>,
    pub scroll: usize,
    pub current_chunk: usize,
    pub chunk_collapsed: Seq<bool>,
    pub chunk_hashes: Seq<u64>,
    pub review: Map<Seq<char>, RecordModel>,
    /// The file that the reviewed state is backed by.
    pub review_file: Seq<char>,
    pub hashes: Map<Seq<char>, HashesModel>,
    pub hidden: Set<Seq<char>>,
    /// The file that the hidden files are backed by.
    pub hidden_file: Seq<char>,
    pub hidden_view: bool,
    pub focus: Focus,
    pub mode: Mode,
    pub view: ViewMode,
    pub glyphs: Glyphs,
    pub filter: Seq<char>,
    pub should_quit: bool,
    pub dirty: bool,
    pub diff_height: usize,
    pub diff_x: u16,
    pub tree_width: u16,
    pub body_width: u16,
    pub dragging_divider: bool,
    pub status_msg: Option<Seq<char>>,
    pub error: Option<Seq<char>>,
    pub pending_editor: Option<(Seq<char>, u32)>,
    pub config: ConfigModel,
    pub config_path: Seq<char>,
    pub pending_config_edit: bool,
    pub config_error: Option<Seq<char>>,
    pub toast: Option<(Seq<char>, u64)>,
    pub outbox: Seq<EffectModel>,
}

// ── rows of the tree ───────────────────────────────────────────────────────

/// The first listed leaf at or behind `i`.
pub open spec fn next_leaf(nodes: Seq<NodeModel>, visible: Seq<usize>, i: int) -> Option<usize>
    decreases visible.len() - i,
{
    if i < 0 || i >= visible.len() {
        None
    } else if nodes[visible[i] as int].file is Some {
        Some(i as usize)
    } else {
        next_leaf(nodes, visible, i + 1)
    }
}

/// The last listed leaf before `i`.
pub open spec fn prev_leaf(nodes: Seq<NodeModel>, visible: Seq<usize>, i: int) -> Option<usize>
    decreases i,
{
    if i <= 0 || i > visible.len() {
        None
    } else if nodes[visible[i - 1] as int].file is Some {
        Some((i - 1) as usize)
    } else {
        prev_leaf(nodes, visible, i - 1)
    }
}

/// The first listed leaf at or behind `i` whose file is at `path`.
pub open spec fn leaf_of_path(
    nodes: Seq<NodeModel>,
    visible: Seq<usize>,
    files: Seq<FileModel>,
    path: Seq<char>,
    i: int,
) -> Option<usize>
    decreases visible.len() - i,
{
    if i < 0 || i >= visible.len() {
        None
    } else if nodes[visible[i] as int].file is Some
        && files[nodes[visible[i] as int].file->0 as int].path == path {
        Some(i as usize)
    } else {
        leaf_of_path(nodes, visible, files, path, i + 1)
    }
}

/// The last of the leading chunks whose header is at or above row `scroll`.
pub open spec fn chunk_at(starts: Seq<usize>, scroll: usize, i: int, last: usize) -> usize
    decreases starts.len() - i,
{
    if i < 0 || i >= starts.len() || starts[i] > scroll {
        last
    } else {
        chunk_at(starts, scroll, i + 1, i as usize)
    }
}

/// The number of lines in the first `n` chunks.
pub open spec fn line_count(chunks: Seq<HunkModel>, n: int) -> nat
    decreases n,
{
    if n <= 0 {
        0
    } else {
        line_count(chunks, n - 1) + chunks[n - 1].lines.len()
    }
}

/// Whether a diff is highlighted with these options.
pub open spec fn highlightable(config: ConfigModel, d: DiffModel) -> bool {
    !d.is_binary && line_count(d.chunks, d.chunks.len() as int) <= config.theme.max_lines
}

/// The value or 0.
pub open spec fn or_zero(v: Option<usize>) -> usize {
    match v {
        Some(n) => n,
        None => 0,
    }
}

/// The first of two that is there.
pub open spec fn or_else<T>(a: Option<T>, b: Option<T>) -> Option<T> {
    if a is Some {
        a
    } else {
        b
    }
}

/// The action has no meaning for a static piped diff.
pub open spec fn needs_repository(action: Action) -> bool {
    ||| action == Action::ToggleReviewed
    ||| action == Action::ToggleChunkReviewed
    ||| action == Action::ToggleHidden
    ||| action == Action::ToggleHiddenView
    ||| action == Action::OpenEditor
    ||| action == Action::EditConfig
}

/// A sum, held at the largest value.
pub open spec fn saturated(n: int, most: int) -> int {
    min_of(n, most)
}

// ── validity ───────────────────────────────────────────────────────────────

/// The tree is one, and its leaves are among `n` files.
#[verifier::opaque]
pub open spec fn tree_ok(tree: TreeModel, n: nat) -> bool {
    tree.wf() && leaves_below(tree.nodes, n as int)
}

/// The rows are those of the diff and the fold state; without a diff there are
/// none.
#[verifier::opaque]
pub open spec fn rows_ok(
    diff: Option<DiffModel>,
    chunk_hashes: Seq<u64>,
    chunk_collapsed: Seq<bool>,
    diff_rows: Seq<RowRef>,
    chunk_starts: Seq<usize>,
    side_rows: Seq<SideRow>,
    side_chunk_starts: Seq<usize>,
) -> bool {
    match diff {
        Some(d) => {
            let n = d.chunks.len() as int;
            &&& chunk_hashes == hashes_model(d).chunks
            &&& chunk_collapsed.len() == d.chunks.len()
            &&& diff_rows == unified_rows(d.chunks, chunk_collapsed, n)
            &&& chunk_starts == unified_starts(d.chunks, chunk_collapsed)
            &&& side_rows == side_rows_of(d.chunks, chunk_collapsed, n)
            &&& side_chunk_starts == side_starts_of(d.chunks, chunk_collapsed)
        },
        None => {
            &&& chunk_hashes.len() == 0
            &&& chunk_collapsed.len() == 0
            &&& diff_rows.len() == 0
            &&& chunk_starts.len() == 0
            &&& side_rows.len() == 0
            &&& side_chunk_starts.len() == 0
        },
    }
}

/// The diff in view is well-formed.
#[verifier::opaque]
pub open spec fn diff_ok(diff: Option<DiffModel>) -> bool {
    diff is Some ==> diff->0.wf()
}

/// The cache is well-formed, and so is every diff in it.
#[verifier::opaque]
pub open spec fn cache_ok(cache: CacheModel) -> bool {
    cache.wf() && forall|p: Seq<char>| #[trigger]
        cache.entries.contains_key(p) ==> cache.entries[p].1.wf()
}

/// Every piped diff is well-formed.
#[verifier::opaque]
pub open spec fn preloaded_ok(preloaded: Map<Seq<char>, DiffModel>) -> bool {
    forall|p: Seq<char>| #[trigger] preloaded.contains_key(p) ==> preloaded[p].wf()
}

impl AppState {
    // ── validity ───────────────────────────────────────────────────────────

    pub open spec fn wf(self) -> bool {
        &&& tree_ok(self.tree, self.files.len())
        &&& rows_ok(
            self.diff,
            self.chunk_hashes,
            self.chunk_collapsed,
            self.diff_rows,
            self.chunk_starts,
            self.side_rows,
            self.side_chunk_starts,
        )
        &&& diff_ok(self.diff)
        &&& cache_ok(self.cache)
        &&& preloaded_ok(self.preloaded)
    }

    // ── what is selected ───────────────────────────────────────────────────

    /// The tree node under the cursor.
    pub open spec fn node_at_cursor(self) -> Option<usize> {
        if self.tree_cursor < self.tree.visible.len() {
            Some(self.tree.visible[self.tree_cursor as int])
        } else {
            None
        }
    }

    /// The file under the cursor; none where the cursor is on a folder.
    pub open spec fn current_file(self) -> Option<usize> {
        match self.node_at_cursor() {
            Some(n) => self.tree.nodes[n as int].file,
            None => None,
        }
    }

    pub open spec fn first_leaf(self) -> Option<usize> {
        next_leaf(self.tree.nodes, self.tree.visible, 0)
    }

    // ── reviewed state ─────────────────────────────────────────────────────

    pub open spec fn record(self, path: Seq<char>) -> Option<RecordModel> {
        record_at(self.review, path)
    }

    pub open spec fn hashes_of(self, path: Seq<char>) -> Option<HashesModel> {
        if self.hashes.contains_key(path) {
            Some(self.hashes[path])
        } else {
            None
        }
    }

    /// The review status of a file.
    pub open spec fn status(self, fi: int) -> ReviewStatus {
        let path = self.files[fi].path;
        status_of(self.record(path), self.hashes_of(path))
    }

    /// The number of reviewed chunks of a file, and of all its chunks.
    pub open spec fn chunk_counts(self, fi: int) -> (nat, nat) {
        let path = self.files[fi].path;
        (
            reviewed_count_of(self.record(path), self.hashes_of(path)),
            match self.hashes_of(path) {
                Some(h) => h.chunks.len(),
                None => 0,
            },
        )
    }

    /// Whether chunk `h` of the diff in view is reviewed.
    pub open spec fn is_chunk_reviewed(self, h: int) -> bool {
        &&& self.diff is Some
        &&& 0 <= h < self.chunk_hashes.len()
        &&& chunk_is_reviewed(self.record(self.diff->0.path), self.chunk_hashes[h])
    }

    // ── hidden state ───────────────────────────────────────────────────────

    /// File `fi` is hidden: interactively, or by a config rule.
    pub open spec fn is_hidden(self, fi: int) -> bool {
        let path = self.files[fi].path;
        self.hidden.contains(path) || self.config.hide.hides(path)
    }

    /// The number of the first `n` files that are hidden.
    pub open spec fn count_hidden(self, n: int) -> nat
        decreases n,
    {
        if n <= 0 {
            0
        } else {
            self.count_hidden(n - 1) + if self.is_hidden(n - 1) {
                1nat
            } else {
                0nat
            }
        }
    }

    // ── the sidebar ────────────────────────────────────────────────────────

    /// The leaf `n` belongs to the list in view: the hidden files in the hidden
    /// view, the others otherwise.
    pub open spec fn keeps(self, n: int) -> bool {
        self.tree.nodes[n].file is Some && self.is_hidden(self.tree.nodes[n].file->0 as int)
            == self.hidden_view
    }

    /// The choice of leaves of the list in view.
    pub open spec fn kept(self) -> spec_fn(int) -> bool {
        |n: int| self.keeps(n)
    }

    /// The leaf `n` matches the filter.
    pub open spec fn matches_filter(self, n: int) -> bool {
        text_contains(
            unicode_lower(self.files[self.tree.nodes[n].file->0 as int].path),
            unicode_lower(self.filter),
        )
    }

    /// The leaves among the first `n` nodes that are kept and match the filter.
    pub open spec fn filtered(self, n: int) -> Seq<usize>
        decreases n,
    {
        if n <= 0 {
            Seq::empty()
        } else if self.keeps(n - 1) && self.matches_filter(n - 1) {
            self.filtered(n - 1).push((n - 1) as usize)
        } else {
            self.filtered(n - 1)
        }
    }

    /// The rows of the sidebar: the tree, or with a filter the flat list of
    /// matching files.
    pub open spec fn sidebar_rows(self) -> Seq<usize> {
        if self.filter.len() == 0 {
            visible_rows(self.tree.nodes, self.tree.root as int, self.kept())
        } else {
            self.filtered(self.tree.nodes.len() as int)
        }
    }

    /// After the sidebar was worked out anew; the cursor stays in range.
    #[verifier::opaque]
    pub open spec fn recomputed(self) -> AppState {
        let rows = self.sidebar_rows();
        AppState {
            tree: TreeModel { visible: rows, ..self.tree },
            tree_cursor: if self.tree_cursor < rows.len() {
                self.tree_cursor
            } else {
                max_of(rows.len() - 1, 0) as usize
            },
            ..self
        }
    }

    /// After the cursor was moved to a leaf: the one it is on, the next one, or
    /// the one before.
    #[verifier::opaque]
    pub open spec fn snapped(self) -> AppState {
        let rows = self.tree.visible;
        if rows.len() == 0 {
            AppState { tree_cursor: 0, ..self }
        } else {
            let at = if self.tree_cursor < rows.len() {
                self.tree_cursor
            } else {
                (rows.len() - 1) as usize
            };
            let to = or_else(
                next_leaf(self.tree.nodes, rows, at as int),
                prev_leaf(self.tree.nodes, rows, at as int),
            );
            AppState {
                tree_cursor: match to {
                    Some(i) => i,
                    None => at,
                },
                ..self
            }
        }
    }

    #[verifier::opaque]
    pub open spec fn on_first_leaf(self) -> AppState {
        AppState { tree_cursor: or_zero(self.first_leaf()), ..self }
    }

    // ── the diff in view ───────────────────────────────────────────────────

    #[verifier::opaque]
    pub open spec fn with_rows(self, d: DiffModel) -> AppState {
        let n = d.chunks.len() as int;
        AppState {
            diff_rows: unified_rows(d.chunks, self.chunk_collapsed, n),
            chunk_starts: unified_starts(d.chunks, self.chunk_collapsed),
            side_rows: side_rows_of(d.chunks, self.chunk_collapsed, n),
            side_chunk_starts: side_starts_of(d.chunks, self.chunk_collapsed),
            ..self
        }
    }

    #[verifier::opaque]
    pub open spec fn cleared(self) -> AppState {
        AppState {
            diff: None,
            highlight: None,
            diff_rows: Seq::empty(),
            chunk_starts: Seq::empty(),
            side_rows: Seq::empty(),
            side_chunk_starts: Seq::empty(),
            chunk_collapsed: Seq::empty(),
            chunk_hashes: Seq::empty(),
            ..self
        }
    }

    /// With one more effect asked for.
    #[verifier::opaque]
    pub open spec fn asking(self, effect: EffectModel) -> AppState {
        AppState { outbox: self.outbox.push(effect), ..self }
    }

    pub open spec fn should_highlight(self) -> bool {
        self.config.theme.syntax && self.diff is Some && highlightable(self.config, self.diff->0)
    }

    /// The cached highlight of the diff in view, for the active theme.
    pub open spec fn cached_highlight(self) -> Option<Arc<FileHighlight>> {
        let d = self.diff->0;
        if self.highlight_cache.contains_key(d.path) {
            let (theme, hash, highlight) = self.highlight_cache[d.path];
            if theme == self.active_theme && hash == seahash_of(encode_utf8(d.text)) {
                Some(highlight)
            } else {
                None
            }
        } else {
            None
        }
    }

    /// A new highlight has to be asked for.
    pub open spec fn needs_highlight(self) -> bool {
        self.should_highlight() && self.cached_highlight() is None
    }

    /// The tag of the next highlight request.
    pub open spec fn next_generation(self) -> u64 {
        ((self.highlight_gen + 1) % 0x1_0000_0000_0000_0000) as u64
    }

    /// The request for the highlight of the diff in view.
    pub open spec fn highlight_request(self) -> HighlightModel {
        let d = self.diff->0;
        HighlightModel {
            path: d.path,
            diff: d,
            theme: self.active_theme,
            truecolor: self.truecolor,
            diff_hash: seahash_of(encode_utf8(d.text)),
            generation: self.next_generation(),
        }
    }

    /// After the highlight of the diff in view was looked up, or asked for.
    #[verifier::opaque]
    pub open spec fn highlighted(self) -> AppState {
        AppState {
            highlight: if self.should_highlight() {
                self.cached_highlight()
            } else {
                None
            },
            highlight_gen: if self.needs_highlight() {
                self.next_generation()
            } else {
                self.highlight_gen
            },
            outbox: if self.needs_highlight() {
                self.outbox.push(EffectModel::Highlight(self.highlight_request()))
            } else {
                self.outbox
            },
            ..self
        }
    }

    /// With diff `d` of file `fi` in view.
    #[verifier::opaque]
    pub open spec fn adopted(self, fi: int, d: DiffModel) -> AppState {
        let path = self.files[fi].path;
        let record = self.record(path);
        let chunk_hashes = hashes_model(d).chunks;
        let collapse = self.config.reviewed_chunks == ReviewedDisplay::Collapse;
        let a = AppState {
            files: self.files.update(
                fi,
                FileModel {
                    additions: low_bits(count_in_chunks(d.chunks, LineKind::Add)),
                    deletions: low_bits(count_in_chunks(d.chunks, LineKind::Del)),
                    ..self.files[fi]
                },
            ),
            chunk_hashes,
            chunk_collapsed: chunk_hashes.map_values(
                |h: u64| collapse && chunk_is_reviewed(record, h),
            ),
            hashes: if record is Some {
                self.hashes.insert(path, hashes_model(d))
            } else {
                self.hashes.remove(path)
            },
            diff: Some(d),
            diff_file: Some(fi as usize),
            scroll: 0,
            current_chunk: 0,
            error: None,
            ..self
        };
        a.with_rows(d).highlighted()
    }

    /// The file of `place` is in view again, and its diff did not change.
    pub open spec fn is_back_at(self, place: Option<PlaceModel>) -> bool {
        &&& place is Some
        &&& place->0.path is Some
        &&& self.current_file() is Some
        &&& place->0.path->0 == self.files[self.current_file()->0 as int].path
        &&& place->0.text is Some
        &&& self.diff is Some
        &&& place->0.text->0 == self.diff->0.text
    }

    /// With the chunks folded as they were at `place`.
    #[verifier::opaque]
    pub open spec fn refolded(self, collapsed: Seq<bool>) -> AppState {
        if self.diff is Some && collapsed.len() == self.chunk_collapsed.len() {
            AppState { chunk_collapsed: collapsed, ..self }.with_rows(self.diff->0)
        } else {
            self
        }
    }

    /// Back at `place`, where the same file is in view and its diff did not
    /// change: the folds, the scroll position and the current chunk are as they
    /// were.
    #[verifier::opaque]
    pub open spec fn restored(self, place: Option<PlaceModel>) -> AppState {
        if self.is_back_at(place) {
            AppState {
                scroll: place->0.scroll,
                current_chunk: place->0.chunk,
                ..self.refolded(place->0.collapsed)
            }
        } else {
            self
        }
    }

    /// After the diff of the file under the cursor was looked for: a piped diff is
    /// at hand, any other is asked for.
    #[verifier::opaque]
    pub open spec fn loading(self, use_cache: bool, place: Option<PlaceModel>) -> AppState {
        match self.current_file() {
            None => AppState { diff_file: None, ..self.cleared() }.restored(place),
            Some(fi) => if self.diff_file == Some(fi) {
                self.restored(place)
            } else if !self.live {
                let path = self.files[fi as int].path;
                if self.preloaded.contains_key(path) {
                    self.adopted(fi as int, self.preloaded[path]).restored(place)
                } else {
                    AppState { diff_file: Some(fi), ..self.cleared() }.restored(place)
                }
            } else {
                self.asking(EffectModel::Load { file: fi, use_cache, place })
            },
        }
    }

    /// After the signature of a file that is to be loaded is known: a cached diff
    /// is used where it may be and matches.
    #[verifier::opaque]
    pub open spec fn load_begun(
        self,
        fi: int,
        use_cache: bool,
        sig: Option<Signature>,
        place: Option<PlaceModel>,
    ) -> AppState {
        if self.cached(fi, use_cache, sig) {
            let path = self.files[fi].path;
            let d = self.cache.entries[path].1;
            AppState { cache: self.cache.after_get(path, sig->0), ..self }.adopted(fi, d).restored(
                place,
            )
        } else {
            self
        }
    }

    /// A load is served from the cache.
    pub open spec fn cached(self, fi: int, use_cache: bool, sig: Option<Signature>) -> bool {
        &&& use_cache
        &&& sig is Some
        &&& self.cache.hits(self.files[fi].path, sig->0)
    }

    /// After git answered for a file that is to be loaded.
    #[verifier::opaque]
    pub open spec fn load_finished(
        self,
        fi: int,
        sig: Option<Signature>,
        out: Result<Seq<u8>, Seq<char>>,
        place: Option<PlaceModel>,
    ) -> AppState {
        match out {
            Ok(bytes) => {
                let path = self.files[fi].path;
                let d = parse_model(utf8_lossy(bytes), path);
                self.caching(path, sig, d).adopted(fi, d).restored(place)
            },
            Err(e) => AppState {
                error: Some("diff failed: "@ + e),
                diff_file: Some(fi as usize),
                ..self.cleared()
            }.restored(place),
        }
    }

    /// With a diff cached, where the signature of its file is known.
    #[verifier::opaque]
    pub open spec fn caching(
        self,
        path: Seq<char>,
        sig: Option<Signature>,
        d: DiffModel,
    ) -> AppState {
        match sig {
            Some(s) => AppState { cache: self.cache.after_put(path, s, d), ..self },
            None => self,
        }
    }

    // ── reviewing ──────────────────────────────────────────────────────────

    /// The hashes of the diff in view.
    pub open spec fn current_hashes(self) -> HashesModel {
        HashesModel {
            whole: seahash_of(encode_utf8(self.diff->0.text)),
            chunks: self.chunk_hashes,
        }
    }

    /// With the hashes of the diff in view kept current.
    #[verifier::opaque]
    pub open spec fn refreshed_hashes(self) -> AppState {
        match self.diff {
            None => self,
            Some(d) => AppState {
                hashes: if self.record(d.path) is Some {
                    self.hashes.insert(d.path, self.current_hashes())
                } else {
                    self.hashes.remove(d.path)
                },
                ..self
            },
        }
    }

    /// With every chunk folded, or none.
    #[verifier::opaque]
    pub open spec fn all_collapsed(self, collapsed: bool) -> AppState {
        let a = AppState {
            chunk_collapsed: Seq::new(self.chunk_collapsed.len(), |h: int| collapsed),
            ..self
        };
        match self.diff {
            Some(d) => a.with_rows(d),
            None => a,
        }
    }

    /// The first chunk from `i` on that is not reviewed.
    pub open spec fn next_unreviewed(self, i: int) -> Option<usize>
        decreases self.chunk_hashes.len() - i,
    {
        if i < 0 || i >= self.chunk_hashes.len() {
            None
        } else if !self.is_chunk_reviewed(i) {
            Some(i as usize)
        } else {
            self.next_unreviewed(i + 1)
        }
    }

    /// On the first unreviewed chunk behind `from`, if there is one.
    #[verifier::opaque]
    pub open spec fn advanced(self, from: int) -> AppState {
        match self.next_unreviewed(from + 1) {
            Some(h) => AppState { current_chunk: h, ..self }.at_current_chunk(),
            None => self,
        }
    }

    /// With the chunk that has this hash marked reviewed, or unmarked.
    #[verifier::opaque]
    pub open spec fn chunk_marked(self, hash: u64, mark: bool, now: Clock) -> AppState {
        let d = self.diff->0;
        AppState {
            review: if mark {
                self.review.insert(
                    d.path,
                    with_chunk(
                        self.record(d.path),
                        seahash_of(encode_utf8(d.text)),
                        hash,
                        now.unix,
                    ),
                )
            } else {
                unmark_chunk_in(self.review, d.path, hash)
            },
            ..self
        }.asking(EffectModel::SaveReview).refreshed_hashes()
    }

    /// With chunk `h` folded or unfolded, where reviewed chunks are folded.
    #[verifier::opaque]
    pub open spec fn chunk_folded(self, h: int, fold: bool) -> AppState {
        if self.config.reviewed_chunks == ReviewedDisplay::Collapse {
            AppState {
                chunk_collapsed: self.chunk_collapsed.update(h, fold),
                ..self
            }.with_rows(self.diff->0)
        } else {
            self
        }
    }

    /// After chunk `h` was marked reviewed (and the next unreviewed one selected),
    /// or unmarked.
    #[verifier::opaque]
    pub open spec fn chunk_toggled_at(self, h: int, now: Clock) -> AppState {
        let hash = self.chunk_hashes[h];
        let mark = !self.is_chunk_reviewed(h);
        let a = self.chunk_marked(hash, mark, now).chunk_folded(h, mark);
        let b = if mark {
            a.advanced(h)
        } else {
            a
        };
        AppState { dirty: true, ..b }
    }

    /// After the current chunk was marked reviewed, or unmarked; a file without
    /// chunks is marked as a whole.
    #[verifier::opaque]
    pub open spec fn chunk_toggled(self, now: Clock) -> AppState {
        if self.diff is None {
            self
        } else if self.chunk_hashes.len() == 0 {
            self.file_toggled(now)
        } else {
            self.chunk_toggled_at(
                min_of(self.current_chunk as int, self.chunk_hashes.len() - 1),
                now,
            )
        }
    }

    /// With file `fi` no longer reviewed.
    #[verifier::opaque]
    pub open spec fn file_unmarked(self, fi: int) -> AppState {
        let path = self.files[fi].path;
        let a = AppState {
            review: self.review.remove(path),
            hashes: self.hashes.remove(path),
            ..self
        };
        let b = if self.diff_file == Some(fi as usize) {
            a.all_collapsed(false)
        } else {
            a
        };
        AppState { dirty: true, ..b.asking(EffectModel::SaveReview) }
    }

    /// With file `fi` reviewed as the diff in view has it.
    #[verifier::opaque]
    pub open spec fn file_marked(self, fi: int, now: Clock) -> AppState {
        let path = self.files[fi].path;
        let fh = self.current_hashes();
        let a = AppState {
            review: self.review.insert(
                path,
                RecordModel {
                    reviewed_hash: fh.whole,
                    reviewed_at: now.unix,
                    reviewed_chunks: fh.chunks,
                },
            ),
            hashes: self.hashes.insert(path, fh),
            ..self
        };
        let b = if self.diff_file == Some(fi as usize) && self.config.reviewed_chunks
            == ReviewedDisplay::Collapse {
            a.all_collapsed(true)
        } else {
            a
        };
        AppState { dirty: true, ..b.asking(EffectModel::SaveReview) }
    }

    /// After the whole file under the cursor was marked reviewed, or unmarked.
    #[verifier::opaque]
    pub open spec fn file_toggled(self, now: Clock) -> AppState {
        match self.current_file() {
            None => self,
            Some(fi) => if self.status(fi as int) == ReviewStatus::Reviewed {
                self.file_unmarked(fi as int)
            } else if self.diff is None {
                AppState { error: Some("no diff to mark reviewed"@), ..self }
            } else {
                self.file_marked(fi as int, now)
            },
        }
    }

    /// With every folded chunk open again; what is reviewed stays reviewed.
    #[verifier::opaque]
    pub open spec fn expanded(self) -> AppState {
        if exists|h: int| 0 <= h < self.chunk_collapsed.len() && #[trigger] self.chunk_collapsed[h] {
            AppState { dirty: true, ..self.all_collapsed(false) }
        } else {
            self
        }
    }

    // ── hiding ─────────────────────────────────────────────────────────────

    /// After the file under the cursor was hidden, or shown again.
    #[verifier::opaque]
    pub open spec fn hidden_toggled(self) -> AppState {
        match self.current_file() {
            None => self,
            Some(fi) => {
                let path = self.files[fi as int].path;
                let a = AppState {
                    hidden: if self.hidden.contains(path) {
                        self.hidden.remove(path)
                    } else {
                        self.hidden.insert(path)
                    },
                    ..self
                }.asking(EffectModel::SaveHidden);
                AppState { dirty: true, ..a.recomputed().snapped().loading(true, None) }
            },
        }
    }

    /// After switching between the normal sidebar and the hidden files.
    #[verifier::opaque]
    pub open spec fn hidden_view_toggled(self) -> AppState {
        let a = AppState { hidden_view: !self.hidden_view, ..self };
        AppState { dirty: true, ..a.recomputed().on_first_leaf().loading(true, None) }
    }

    // ── messages ───────────────────────────────────────────────────────────

    #[verifier::opaque]
    pub open spec fn toasting(self, text: Seq<char>, now: Clock) -> AppState {
        AppState {
            toast: Some((text, saturated(now.millis + TOAST_TTL_MS, u64::MAX as int) as u64)),
            dirty: true,
            ..self
        }
    }

    /// After the toast was taken down, if its time is over.
    #[verifier::opaque]
    pub open spec fn toast_expired(self, now: Clock) -> AppState {
        if self.toast is Some && now.millis >= (self.toast->0).1 {
            AppState { toast: None, dirty: true, ..self }
        } else {
            self
        }
    }

    /// The reference of the current chunk, if there is one.
    pub open spec fn reference(self) -> Option<Seq<char>> {
        if self.diff is Some && self.diff->0.chunks.len() > 0 {
            let d = self.diff->0;
            let h = min_of(self.current_chunk as int, d.chunks.len() - 1);
            Some(reference_text(d.path, chunk_span(d.chunks[h])))
        } else {
            None
        }
    }

    #[verifier::opaque]
    pub open spec fn copying(self) -> AppState {
        match self.reference() {
            Some(text) => AppState { dirty: true, ..self.asking(EffectModel::Copy(text)) },
            None => AppState { error: Some("no chunk to copy"@), dirty: true, ..self },
        }
    }

    #[verifier::opaque]
    pub open spec fn copied(self, result: Result<CopyMethod, Seq<char>>, now: Clock) -> AppState {
        match result {
            Ok(method) => self.toasting("AI reference · "@ + method_name(method), now),
            Err(e) => AppState { error: Some("copy failed: "@ + e), dirty: true, ..self },
        }
    }

    // ── the editor ─────────────────────────────────────────────────────────

    /// The line number of a cell of the side-by-side view.
    pub open spec fn new_no_at(self, cell: Option<(usize, usize)>) -> Option<u32> {
        match cell {
            Some((h, l)) => self.diff->0.chunks[h as int].lines[l as int].new_no,
            None => None,
        }
    }

    pub open spec fn old_no_at(self, cell: Option<(usize, usize)>) -> Option<u32> {
        match cell {
            Some((h, l)) => self.diff->0.chunks[h as int].lines[l as int].old_no,
            None => None,
        }
    }

    /// The line number at the top of the diff viewport.
    pub open spec fn top_line(self) -> Option<u32> {
        if self.diff is None {
            None
        } else {
            let d = self.diff->0;
            match self.view {
                ViewMode::Unified => if self.scroll < self.diff_rows.len() {
                    match self.diff_rows[self.scroll as int] {
                        RowRef::Header(h) => first_no(d.chunks[h as int]),
                        RowRef::Line(h, l) => or_else(
                            d.chunks[h as int].lines[l as int].new_no,
                            d.chunks[h as int].lines[l as int].old_no,
                        ),
                    }
                } else {
                    None
                },
                ViewMode::SideBySide => if self.scroll < self.side_rows.len() {
                    match self.side_rows[self.scroll as int] {
                        SideRow::Header(h) => first_no(d.chunks[h as int]),
                        SideRow::Pair { left, right } => or_else(
                            self.new_no_at(right),
                            self.old_no_at(left),
                        ),
                    }
                } else {
                    None
                },
            }
        }
    }

    #[verifier::opaque]
    pub open spec fn opening_editor(self) -> AppState {
        match self.current_file() {
            None => self,
            Some(fi) => if self.files[fi as int].kind == KindModel::Deleted {
                AppState {
                    error: Some("file was deleted; nothing to open"@),
                    dirty: true,
                    ..self
                }
            } else {
                AppState {
                    pending_editor: Some(
                        (
                            self.files[fi as int].path,
                            match self.top_line() {
                                Some(n) => n,
                                None => 1,
                            },
                        ),
                    ),
                    ..self
                }
            },
        }
    }

    // ── refresh ────────────────────────────────────────────────────────────

    /// Where the view is.
    pub open spec fn place(self) -> PlaceModel {
        PlaceModel {
            path: match self.current_file() {
                Some(fi) => Some(self.files[fi as int].path),
                None => None,
            },
            text: match self.diff {
                Some(d) => Some(d.text),
                None => None,
            },
            scroll: self.scroll,
            chunk: self.current_chunk,
            collapsed: self.chunk_collapsed,
        }
    }

    /// With a new list of files, and the cursor on the file at `keep` where it is
    /// listed, else on the first file.
    #[verifier::opaque]
    pub open spec fn with_files(self, files: Seq<FileModel>, keep: Option<Seq<char>>) -> AppState {
        let a = AppState {
            files,
            tree: tree_of(files),
            prefetch_skip: Set::empty(),
            ..self
        }.recomputed();
        let kept = match keep {
            Some(path) => leaf_of_path(a.tree.nodes, a.tree.visible, a.files, path, 0),
            None => None,
        };
        AppState { tree_cursor: or_zero(or_else(kept, a.first_leaf())), ..a }
    }

    /// After a snapshot of the repository arrived.
    #[verifier::opaque]
    pub open spec fn reconciled(self, snapshot: SnapshotModel) -> AppState {
        let a = AppState { hashes: snapshot.hashes, ..self }.with_files(
            snapshot.files,
            self.place().path,
        );
        AppState {
            dirty: true,
            ..AppState { diff_file: None, ..a }.loading(false, Some(self.place()))
        }
    }

    // ── scrolling ──────────────────────────────────────────────────────────

    pub open spec fn row_count(self) -> nat {
        match self.view {
            ViewMode::Unified => self.diff_rows.len(),
            ViewMode::SideBySide => self.side_rows.len(),
        }
    }

    pub open spec fn starts(self) -> Seq<usize> {
        match self.view {
            ViewMode::Unified => self.chunk_starts,
            ViewMode::SideBySide => self.side_chunk_starts,
        }
    }

    /// The height of the diff viewport, at least one row.
    pub open spec fn height(self) -> int {
        max_of(self.diff_height as int, 1)
    }

    /// With the current chunk being the one at the top of the viewport.
    #[verifier::opaque]
    pub open spec fn synced(self) -> AppState {
        AppState { current_chunk: chunk_at(self.starts(), self.scroll, 0, 0), ..self }
    }

    #[verifier::opaque]
    pub open spec fn scrolled(self, delta: int) -> AppState {
        let target = max_of(self.scroll + delta, 0);
        let a = AppState {
            scroll: clamped(target, self.height(), self.row_count() as int) as usize,
            ..self
        }.synced();
        AppState { dirty: true, ..a }
    }

    #[verifier::opaque]
    pub open spec fn scrolled_to(self, row: int) -> AppState {
        AppState { dirty: true, ..AppState { scroll: row as usize, ..self }.synced() }
    }

    /// Scrolled so that the current chunk's header is at the top, as far as that
    /// goes.
    #[verifier::opaque]
    pub open spec fn at_current_chunk(self) -> AppState {
        let starts = self.starts();
        let a = if self.current_chunk < starts.len() {
            AppState {
                scroll: clamped(
                    starts[self.current_chunk as int] as int,
                    self.height(),
                    self.row_count() as int,
                ) as usize,
                ..self
            }
        } else {
            self
        };
        AppState { dirty: true, ..a }
    }

    #[verifier::opaque]
    pub open spec fn on_next_chunk(self) -> AppState {
        let n = self.starts().len();
        if n == 0 {
            self
        } else {
            AppState {
                current_chunk: min_of(self.current_chunk + 1, n - 1) as usize,
                ..self
            }.at_current_chunk()
        }
    }

    #[verifier::opaque]
    pub open spec fn on_prev_chunk(self) -> AppState {
        if self.starts().len() == 0 {
            self
        } else {
            AppState {
                current_chunk: max_of(self.current_chunk - 1, 0) as usize,
                ..self
            }.at_current_chunk()
        }
    }

    /// With the other view, the current chunk still in view.
    #[verifier::opaque]
    pub open spec fn view_toggled(self) -> AppState {
        let view = match self.view {
            ViewMode::Unified => ViewMode::SideBySide,
            ViewMode::SideBySide => ViewMode::Unified,
        };
        let a = AppState {
            view,
            config: ConfigModel { view, ..self.config },
            ..self
        }.at_current_chunk();
        AppState { dirty: true, ..a.asking(EffectModel::SaveView(view)) }
    }

    // ── moving the cursor ──────────────────────────────────────────────────

    /// With the cursor moved to row `i` of the sidebar.
    #[verifier::opaque]
    pub open spec fn at_row(self, i: int) -> AppState {
        AppState {
            dirty: true,
            ..AppState { tree_cursor: i as usize, ..self }.loading(true, None)
        }
    }

    #[verifier::opaque]
    pub open spec fn cursor_moved_down(self) -> AppState {
        if self.tree_cursor + 1 < self.tree.visible.len() {
            self.at_row(self.tree_cursor + 1)
        } else {
            self
        }
    }

    #[verifier::opaque]
    pub open spec fn cursor_moved_up(self) -> AppState {
        if self.tree_cursor > 0 {
            self.at_row(self.tree_cursor - 1)
        } else {
            self
        }
    }

    #[verifier::opaque]
    pub open spec fn on_next_file(self) -> AppState {
        match next_leaf(self.tree.nodes, self.tree.visible, self.tree_cursor + 1) {
            Some(i) => self.at_row(i as int),
            None => self,
        }
    }

    #[verifier::opaque]
    pub open spec fn on_prev_file(self) -> AppState {
        match prev_leaf(
            self.tree.nodes,
            self.tree.visible,
            min_of(self.tree_cursor as int, self.tree.visible.len() as int),
        ) {
            Some(i) => self.at_row(i as int),
            None => self,
        }
    }

    /// With a folder folded or unfolded. A toggle lists every file; hidden and
    /// filtered ones leave the list again.
    #[verifier::opaque]
    pub open spec fn folder_toggled(self, n: int) -> AppState {
        let a = AppState { tree: toggled(self.tree, n), ..self };
        AppState { dirty: true, ..a.recomputed().loading(true, None) }
    }

    /// With the focus on the diff.
    #[verifier::opaque]
    pub open spec fn on_diff(self) -> AppState {
        AppState { focus: Focus::Diff, dirty: true, ..self }
    }

    /// A folder is folded or unfolded; a file moves the focus to its diff.
    #[verifier::opaque]
    pub open spec fn activated(self) -> AppState {
        match self.node_at_cursor() {
            None => self,
            Some(n) => if self.tree.nodes[n as int].file is None {
                self.folder_toggled(n as int)
            } else {
                self.on_diff()
            },
        }
    }

    // ── the sidebar's width ────────────────────────────────────────────────

    pub open spec fn max_tree_width(self) -> int {
        max_of(max_of(self.body_width - MIN_DIFF_WIDTH, 0), MIN_TREE_WIDTH as int)
    }

    #[verifier::opaque]
    pub open spec fn with_tree_width(self, w: int) -> AppState {
        let new = max_of(min_of(w, self.max_tree_width()), MIN_TREE_WIDTH as int) as u16;
        if new != self.tree_width {
            AppState { tree_width: new, dirty: true, ..self }
        } else {
            self
        }
    }

    /// The two columns of the divider between sidebar and diff.
    pub open spec fn is_divider(self, column: u16) -> bool {
        column == max_of(self.tree_width - 1, 0) || column == self.tree_width
    }

    #[verifier::opaque]
    pub open spec fn after_mouse(self, ev: MouseEvent) -> AppState {
        match ev.kind {
            MouseKind::LeftDown => if self.is_divider(ev.column) {
                AppState { dragging_divider: true, ..self }
            } else {
                self
            },
            MouseKind::LeftDrag => if self.dragging_divider {
                self.with_tree_width(saturated(ev.column + 1, u16::MAX as int))
            } else {
                self
            },
            MouseKind::LeftUp => AppState { dragging_divider: false, ..self },
            MouseKind::ScrollDown => if ev.column >= self.diff_x {
                self.scrolled(MOUSE_SCROLL_LINES as int)
            } else {
                self.cursor_moved_down()
            },
            MouseKind::ScrollUp => if ev.column >= self.diff_x {
                self.scrolled(-(MOUSE_SCROLL_LINES as int))
            } else {
                self.cursor_moved_up()
            },
            MouseKind::Other => self,
        }
    }

    // ── the theme picker ───────────────────────────────────────────────────

    /// The place of the active theme in the list.
    pub open spec fn theme_index(self, i: int) -> Option<usize>
        decreases self.themes.len() - i,
    {
        if i < 0 || i >= self.themes.len() {
            None
        } else if self.themes[i] == self.active_theme {
            Some(i as usize)
        } else {
            self.theme_index(i + 1)
        }
    }

    #[verifier::opaque]
    pub open spec fn picker_opened(self) -> AppState {
        AppState {
            theme_picker: Some(
                PickerModel {
                    query: Seq::empty(),
                    matches: self.themes,
                    cursor: or_zero(self.theme_index(0)),
                    original: self.active_theme,
                },
            ),
            mode: Mode::ThemePicker,
            dirty: true,
            ..self
        }
    }

    /// The theme that the picker is on.
    pub open spec fn picked(self) -> Option<Seq<char>> {
        match self.theme_picker {
            Some(p) => if p.cursor < p.matches.len() {
                Some(p.matches[p.cursor as int])
            } else {
                None
            },
            None => None,
        }
    }

    /// With the picked theme applied to the diff in view.
    #[verifier::opaque]
    pub open spec fn previewed(self) -> AppState {
        match self.picked() {
            Some(name) => if name != self.active_theme {
                AppState { active_theme: name, ..self }.highlighted()
            } else {
                self
            },
            None => self,
        }
    }

    #[verifier::opaque]
    pub open spec fn picker_moved(self, delta: int) -> AppState {
        match self.theme_picker {
            None => self,
            Some(p) => if p.matches.len() == 0 {
                self
            } else {
                AppState {
                    theme_picker: Some(
                        PickerModel {
                            cursor: max_of(
                                min_of(p.cursor + delta, p.matches.len() - 1),
                                0,
                            ) as usize,
                            ..p
                        },
                    ),
                    ..self
                }.previewed()
            },
        }
    }

    /// With the picker's query changed.
    #[verifier::opaque]
    pub open spec fn picker_queried(self, query: Seq<char>) -> AppState {
        match self.theme_picker {
            None => self,
            Some(p) => AppState {
                theme_picker: Some(
                    PickerModel {
                        query,
                        matches: fuzzy_matches(query, self.themes),
                        cursor: 0,
                        ..p
                    },
                ),
                ..self
            }.previewed(),
        }
    }

    /// With no picker.
    #[verifier::opaque]
    pub open spec fn without_picker(self) -> AppState {
        AppState { theme_picker: None, ..self }
    }

    /// With another theme applied to the diff in view.
    #[verifier::opaque]
    pub open spec fn with_theme(self, name: Seq<char>) -> AppState {
        AppState { active_theme: name, ..self }.highlighted()
    }

    /// With another theme in the configuration.
    #[verifier::opaque]
    pub open spec fn with_config_theme(self, name: Seq<char>) -> AppState {
        AppState {
            config: ConfigModel {
                theme: crate::config::load::ThemeModel { theme: name, ..self.config.theme },
                ..self.config
            },
            ..self
        }
    }

    /// In the normal mode again, to be drawn.
    #[verifier::opaque]
    pub open spec fn back_to_normal(self) -> AppState {
        AppState { mode: Mode::Normal, dirty: true, ..self }
    }

    /// The picker is closed and the theme from before is back.
    #[verifier::opaque]
    pub open spec fn picker_cancelled(self) -> AppState {
        let original = self.theme_picker->0.original;
        if self.active_theme != original {
            self.without_picker().with_theme(original).back_to_normal()
        } else {
            self.without_picker().back_to_normal()
        }
    }

    /// The picker is closed, and the picked theme stays and is saved.
    #[verifier::opaque]
    pub open spec fn picker_accepted(self) -> AppState {
        let chosen = match self.picked() {
            Some(name) => name,
            None => self.active_theme,
        };
        self.without_picker().with_config_theme(chosen).with_theme(chosen).asking(
            EffectModel::SaveTheme(chosen),
        ).back_to_normal()
    }

    /// After the picker was closed.
    #[verifier::opaque]
    pub open spec fn picker_closed(self, cancel: bool) -> AppState {
        if self.theme_picker is None {
            AppState { mode: Mode::Normal, ..self }
        } else if cancel {
            self.picker_cancelled()
        } else {
            self.picker_accepted()
        }
    }

    /// After the chosen theme was written to the config file, or could not be.
    #[verifier::opaque]
    pub open spec fn theme_saved(
        self,
        name: Seq<char>,
        result: Result<(), Seq<char>>,
        now: Clock,
    ) -> AppState {
        match result {
            Ok(_) => self.toasting("theme: "@ + name, now),
            Err(e) => self.toasting("theme set (not saved: "@ + e + ")"@, now),
        }
    }

    pub open spec fn query(self) -> Seq<char> {
        match self.theme_picker {
            Some(p) => p.query,
            None => Seq::empty(),
        }
    }

    /// What a key does in the picker.
    #[verifier::opaque]
    pub open spec fn picker_pressed(self, key: KeyEvent) -> AppState {
        let ctrl = key.modifiers.control;
        match key.code {
            KeyCode::Esc => self.picker_closed(true),
            KeyCode::Enter => self.picker_closed(false),
            KeyCode::Down => self.picker_moved(1),
            KeyCode::Up => self.picker_moved(-1),
            KeyCode::Backspace => self.picker_queried(without_last(self.query())),
            KeyCode::Char(c) => if ctrl && c == 'n' {
                self.picker_moved(1)
            } else if ctrl && c == 'p' {
                self.picker_moved(-1)
            } else if ctrl {
                self
            } else {
                self.picker_queried(self.query().push(c))
            },
            _ => self,
        }
    }

    #[verifier::opaque]
    pub open spec fn picker_key(self, key: KeyEvent) -> AppState {
        AppState { dirty: true, ..self.picker_pressed(key) }
    }

    // ── keys ───────────────────────────────────────────────────────────────

    /// With the filter changed: the list is worked out anew, and its first row is
    /// selected.
    #[verifier::opaque]
    pub open spec fn with_filter(self, filter: Seq<char>) -> AppState {
        AppState {
            tree_cursor: 0,
            ..AppState { filter, ..self }.recomputed()
        }.loading(true, None)
    }

    /// What a key does while the filter is edited.
    #[verifier::opaque]
    pub open spec fn filter_pressed(self, key: KeyEvent) -> AppState {
        match key.code {
            KeyCode::Esc => AppState { mode: Mode::Normal, ..self.with_filter(Seq::empty()) },
            KeyCode::Enter => AppState { mode: Mode::Normal, ..self },
            KeyCode::Backspace => self.with_filter(without_last(self.filter)),
            KeyCode::Char(c) => self.with_filter(self.filter.push(c)),
            _ => self,
        }
    }

    #[verifier::opaque]
    pub open spec fn filter_key(self, key: KeyEvent) -> AppState {
        AppState { dirty: true, ..self.filter_pressed(key) }
    }

    /// The action that a key triggers.
    pub open spec fn bound_action(self, key: KeyEvent) -> Option<Action> {
        action_at(self.config.keys, normalized(key.code, key.modifiers))
    }

    #[verifier::opaque]
    pub open spec fn normal_key(self, key: KeyEvent, now: Clock) -> AppState {
        let a = AppState { status_msg: None, ..self };
        if key.code == KeyCode::Esc && a.filter.len() > 0 {
            AppState { dirty: true, ..a.with_filter(Seq::empty()) }
        } else {
            match a.bound_action(key) {
                Some(action) => a.dispatched(action, now),
                None => a,
            }
        }
    }

    #[verifier::opaque]
    pub open spec fn after_key(self, key: KeyEvent, now: Clock) -> AppState {
        if key.release {
            self
        } else {
            match self.mode {
                Mode::Help => AppState { mode: Mode::Normal, dirty: true, ..self },
                Mode::Filter => self.filter_key(key),
                Mode::ThemePicker => self.picker_key(key),
                Mode::Normal => self.normal_key(key, now),
            }
        }
    }

    /// After a bound action.
    #[verifier::opaque]
    pub open spec fn dispatched(self, action: Action, now: Clock) -> AppState {
        if !self.live && needs_repository(action) {
            self.toasting("read-only (pager mode)"@, now)
        } else {
            match action {
                Action::ScrollDown => match self.focus {
                    Focus::Tree => self.cursor_moved_down(),
                    Focus::Diff => self.scrolled(1),
                },
                Action::ScrollUp => match self.focus {
                    Focus::Tree => self.cursor_moved_up(),
                    Focus::Diff => self.scrolled(-1),
                },
                Action::PageDown => self.scrolled(self.height()),
                Action::PageUp => self.scrolled(-self.height()),
                Action::NextChunk => self.on_next_chunk(),
                Action::PrevChunk => self.on_prev_chunk(),
                Action::NextFile => self.on_next_file(),
                Action::PrevFile => self.on_prev_file(),
                Action::NarrowSidebar => self.with_tree_width(
                    max_of(self.tree_width - TREE_RESIZE_STEP, 0),
                ),
                Action::WidenSidebar => self.with_tree_width(
                    saturated(self.tree_width + TREE_RESIZE_STEP, u16::MAX as int),
                ),
                Action::ToggleView => self.view_toggled(),
                Action::OpenThemePicker => self.picker_opened(),
                Action::Top => self.scrolled_to(0),
                Action::Bottom => self.scrolled_to(
                    max_offset(self.height(), self.row_count() as int),
                ),
                Action::SwitchFocus => AppState {
                    focus: match self.focus {
                        Focus::Tree => Focus::Diff,
                        Focus::Diff => Focus::Tree,
                    },
                    dirty: true,
                    ..self
                },
                Action::Activate => self.activated(),
                Action::ToggleReviewed => self.file_toggled(now),
                Action::ToggleChunkReviewed => self.chunk_toggled(now),
                Action::ExpandAllChunks => self.expanded(),
                Action::ToggleHidden => self.hidden_toggled(),
                Action::ToggleHiddenView => self.hidden_view_toggled(),
                Action::CopyReference => self.copying(),
                Action::OpenEditor => self.opening_editor(),
                Action::EditConfig => AppState { pending_config_edit: true, ..self },
                Action::StartFilter => AppState { mode: Mode::Filter, dirty: true, ..self },
                Action::Help => AppState { mode: Mode::Help, dirty: true, ..self },
                Action::Quit => AppState { should_quit: true, ..self },
            }
        }
    }

    // ── config ─────────────────────────────────────────────────────────────

    /// After the config file was read again.
    #[verifier::opaque]
    pub open spec fn config_reloaded(self, load: LoadModel) -> AppState {
        let a = AppState { config: load.config, ..self }.recomputed().snapped().loading(true, None);
        if load.warnings.len() == 0 {
            AppState {
                config_error: None,
                status_msg: Some("config reloaded"@),
                dirty: true,
                ..a
            }
        } else {
            AppState {
                config_error: Some(joined(load.warnings, "; "@)),
                status_msg: None,
                dirty: true,
                ..a
            }
        }
    }

    // ── highlights ─────────────────────────────────────────────────────────

    /// With a highlight kept for later.
    #[verifier::opaque]
    pub open spec fn keeping_highlight(
        self,
        path: Seq<char>,
        theme: Seq<char>,
        hash: u64,
        highlight: Arc<FileHighlight>,
    ) -> AppState {
        let cache = if self.highlight_cache.len() >= HIGHLIGHT_CACHE_CAP
            && !self.highlight_cache.contains_key(path) {
            Map::empty()
        } else {
            self.highlight_cache
        };
        AppState { highlight_cache: cache.insert(path, (theme, hash, highlight)), ..self }
    }

    /// After a highlight arrived: it is kept in any case, and shown where it is
    /// the one that was asked for last.
    #[verifier::opaque]
    pub open spec fn highlight_arrived(
        self,
        path: Seq<char>,
        theme: Seq<char>,
        hash: u64,
        generation: u64,
        highlight: Arc<FileHighlight>,
    ) -> AppState {
        let a = AppState {
            prefetch_inflight: self.prefetch_inflight.remove(path),
            ..self
        }.keeping_highlight(path, theme, hash, highlight);
        if generation == self.highlight_gen && self.diff is Some && self.diff->0.path == path {
            AppState { highlight: Some(highlight), dirty: true, ..a }
        } else {
            a
        }
    }

    /// The file at `path` needs no prefetch job: one is running, it was skipped,
    /// or its highlight is there.
    pub open spec fn is_warm(self, path: Seq<char>) -> bool {
        ||| self.prefetch_inflight.contains(path)
        ||| self.prefetch_skip.contains(path)
        ||| self.highlight_cache.contains_key(path) && self.highlight_cache[path].0
            == self.active_theme
    }

    /// The first listed file from row `i` on that needs a prefetch job.
    pub open spec fn next_cold(self, i: int) -> Option<usize>
        decreases self.tree.visible.len() - i,
    {
        if i < 0 || i >= self.tree.visible.len() {
            None
        } else {
            let file = self.tree.nodes[self.tree.visible[i] as int].file;
            if file is Some && !self.is_warm(self.files[file->0 as int].path) {
                file
            } else {
                self.next_cold(i + 1)
            }
        }
    }

    /// The next file to prefetch, while there is room for a job.
    pub open spec fn prefetch_target(self) -> Option<usize> {
        if self.prefetch_ready && self.config.theme.syntax && self.prefetch_inflight.len()
            < self.prefetch_parallelism {
            self.next_cold(0)
        } else {
            None
        }
    }

    /// After the diff of a file to prefetch is known (or cannot be had).
    #[verifier::opaque]
    pub open spec fn prefetched(self, fi: int, diff: Option<DiffModel>) -> AppState {
        let path = self.files[fi].path;
        if diff is Some && highlightable(self.config, diff->0) {
            let d = diff->0;
            AppState {
                prefetch_inflight: self.prefetch_inflight.insert(path),
                ..self
            }.asking(
                EffectModel::Prefetch(
                    HighlightModel {
                        path,
                        diff: d,
                        theme: self.active_theme,
                        truecolor: self.truecolor,
                        diff_hash: seahash_of(encode_utf8(d.text)),
                        generation: 0,
                    },
                ),
            )
        } else {
            AppState { prefetch_skip: self.prefetch_skip.insert(path), ..self }
        }
    }

    /// After the signature of a file to prefetch is known: a cached diff is used
    /// where it matches.
    #[verifier::opaque]
    pub open spec fn prefetch_begun(self, fi: int, sig: Option<Signature>) -> AppState {
        if self.cached(fi, true, sig) {
            let path = self.files[fi].path;
            AppState { cache: self.cache.after_get(path, sig->0), ..self }.prefetched(
                fi,
                Some(self.cache.entries[path].1),
            )
        } else {
            self
        }
    }

    /// After git answered for a file to prefetch.
    #[verifier::opaque]
    pub open spec fn prefetch_finished(
        self,
        fi: int,
        sig: Option<Signature>,
        out: Result<Seq<u8>, Seq<char>>,
    ) -> AppState {
        match out {
            Ok(bytes) => {
                let path = self.files[fi].path;
                let d = parse_model(utf8_lossy(bytes), path);
                self.caching(path, sig, d).prefetched(fi, Some(d))
            },
            Err(_) => self.prefetched(fi, None),
        }
    }

    pub open spec fn preloaded_diff(self, fi: int) -> Option<DiffModel> {
        let path = self.files[fi].path;
        if self.preloaded.contains_key(path) {
            Some(self.preloaded[path])
        } else {
            None
        }
    }

    /// After at most `n` files of a piped diff were prefetched.
    pub open spec fn pumped(self, n: nat) -> AppState
        decreases n,
    {
        match self.prefetch_target() {
            Some(fi) => if n == 0 || self.live {
                self
            } else {
                self.prefetched(fi as int, self.preloaded_diff(fi as int)).pumped((n - 1) as nat)
            },
            None => self,
        }
    }
}

/// A state with nothing loaded yet.
pub open spec fn blank_state(
    repo_root: Seq<char>,
    base: DiffBase,
    files: Seq<FileModel>,
    truecolor: bool,
    glyphs: Glyphs,
    config_path: Seq<char>,
) -> AppState {
    AppState {
        repo_root,
        base,
        files,
        tree: tree_of(files),
        tree_cursor: 0,
        diff: None,
        diff_rows: Seq::empty(),
        chunk_starts: Seq::empty(),
        side_rows: Seq::empty(),
        side_chunk_starts: Seq::empty(),
        diff_file: None,
        highlight: None,
        active_theme: default_config().theme.theme,
        theme_picker: None,
        themes: Seq::empty(),
        truecolor,
        prefetch_ready: false,
        prefetch_parallelism: 0,
        prefetch_inflight: Set::empty(),
        prefetch_skip: Set::empty(),
        highlight_gen: 0,
        highlight_cache: Map::empty(),
        cache: CacheModel {
            entries: Map::empty(),
            order: Seq::empty(),
            cap: DIFF_CACHE_CAP as nat,
        },
        live: true,
        preloaded: Map::empty(),
        scroll: 0,
        current_chunk: 0,
        chunk_collapsed: Seq::empty(),
        chunk_hashes: Seq::empty(),
        review: Map::empty(),
        review_file: review_file(join_of(repo_root, ".git"@)),
        hashes: Map::empty(),
        hidden: Set::empty(),
        hidden_file: hidden_file(join_of(repo_root, ".git"@)),
        hidden_view: false,
        focus: Focus::Tree,
        mode: Mode::Normal,
        view: ViewMode::Unified,
        glyphs,
        filter: Seq::empty(),
        should_quit: false,
        dirty: true,
        diff_height: 0,
        diff_x: 0,
        tree_width: DEFAULT_TREE_WIDTH,
        body_width: 0,
        dragging_divider: false,
        status_msg: None,
        error: None,
        pending_editor: None,
        config: default_config(),
        config_path,
        pending_config_edit: false,
        config_error: None,
        toast: None,
        outbox: Seq::empty(),
    }
}

impl AppState {
    /// With the configuration of a session.
    #[verifier::opaque]
    pub open spec fn configured(
        self,
        config: ConfigModel,
        config_path: Seq<char>,
        themes: Seq<Seq<char>>,
    ) -> AppState {
        AppState {
            view: config.view,
            active_theme: config.theme.theme,
            config,
            config_path,
            themes,
            ..self
        }
    }

    /// With the sidebar worked out, the first file selected and its diff asked
    /// for.
    #[verifier::opaque]
    pub open spec fn opened(self) -> AppState {
        self.recomputed().on_first_leaf().loading(true, None)
    }
}

/// `s` without its last character.
pub open spec fn without_last(s: Seq<char>) -> Seq<char> {
    if s.len() > 0 {
        s.drop_last()
    } else {
        s
    }
}

} // verus!
