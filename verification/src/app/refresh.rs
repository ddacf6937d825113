//! Starting a session, refreshing it from the repository, and highlights that
//! arrive in the background.

use std::sync::Arc;

use vstd::hash_map::StringHashMap;
use vstd::hash_set::StringHashSet;
use vstd::prelude::*;
use vstd::string::*;

use crate::app::loading::{answer_model, copy_folds};
use crate::app::session::{highlight_models, App, CachedHighlight};
use crate::app::state::{
    blank_state, cache_ok, diff_ok, preloaded_ok, rows_ok, tree_ok, AppState, DEFAULT_TREE_WIDTH,
    DIFF_CACHE_CAP, HIGHLIGHT_CACHE_CAP,
};
use crate::app::types::{Effect, Focus, HighlightRequest, Mode, Place, ViewMode};
use crate::cache::{share, DiffCache, Signature};
use crate::config::load::Config;
use crate::git::diff::{
    diff_args, diff_args_of, fetch_file_diff, hash_models, hash_text, DiffBase,
};
use crate::glyphs::Glyphs;
use crate::highlight::FileHighlight;
use crate::model::diff::FileDiff;
use crate::model::file::{file_models, ChangedFile};
use crate::model::review::FileHashes;
use crate::model::snapshot::GitSnapshot;
use crate::model::tree::{tree_of, FileTree};
use crate::pager::{diff_models, diffs_ok};
use crate::path::path_join;
use crate::persist::{HiddenStore, ReviewStore};
use crate::text::{copy_of, opt_string, same, strings};

verus! {

/// Keeps a highlight, emptying a cache that is full.
fn keep_highlight(
    cache: &mut StringHashMap<CachedHighlight>,
    path: &str,
    theme: String,
    hash: u64,
    highlight: Arc<FileHighlight>,
)
    ensures
        highlight_models(final(cache)@) == (if highlight_models(old(cache)@).len()
            >= HIGHLIGHT_CACHE_CAP && !highlight_models(old(cache)@).contains_key(path@) {
            Map::empty()
        } else {
            highlight_models(old(cache)@)
        }).insert(path@, (theme@, hash, highlight)),
{
    assert(highlight_models(cache@).dom() =~= cache@.dom());
    if cache.len() >= HIGHLIGHT_CACHE_CAP && !cache.contains_key(path) {
        cache.clear();
        assert(highlight_models(cache@) =~= Map::empty());
    }
    let ghost before = highlight_models(cache@);
    let entry = CachedHighlight { theme, hash, highlight };
    let ghost view = entry@;
    cache.insert(copy_of(path), entry);
    assert(highlight_models(cache@) =~= before.insert(path@, view));
}

impl App {
    // ── starting ───────────────────────────────────────────────────────────

    /// Construct an application from an already-resolved file list, without
    /// touching git. `config_path` is where the config file is by default.
    pub fn with_files(
        repo_root: String,
        base: DiffBase,
        files: Vec<ChangedFile>,
        truecolor: bool,
        glyphs: Glyphs,
        config_path: String,
    ) -> (r: Self)
        ensures
            r@ == blank_state(
                repo_root@,
                base,
                file_models(files@),
                truecolor,
                glyphs,
                config_path@,
            ),
            r.wf(),
    {
        let tree = FileTree::build(files.as_slice());
        let git_dir = path_join(repo_root.as_str(), ".git");
        let review = ReviewStore::empty(git_dir.as_str());
        let hidden = HiddenStore::empty(git_dir.as_str());
        let config = Config::default();
        let active_theme = config.theme.theme.clone();
        let app = App {
            repo_root,
            base,
            files,
            tree,
            tree_cursor: 0,
            diff: None,
            diff_rows: Vec::new(),
            chunk_starts: Vec::new(),
            side_rows: Vec::new(),
            side_chunk_starts: Vec::new(),
            diff_file: None,
            highlight: None,
            active_theme,
            theme_picker: None,
            themes: Vec::new(),
            truecolor,
            prefetch_ready: false,
            prefetch_parallelism: 0,
            prefetch_inflight: StringHashSet::new(),
            prefetch_skip: StringHashSet::new(),
            highlight_gen: 0,
            highlight_cache: StringHashMap::new(),
            cache: DiffCache::new(DIFF_CACHE_CAP),
            live: true,
            preloaded: StringHashMap::new(),
            scroll: 0,
            current_chunk: 0,
            chunk_collapsed: Vec::new(),
            chunk_hashes: Vec::new(),
            review,
            hashes: StringHashMap::new(),
            hidden,
            hidden_view: false,
            focus: Focus::Tree,
            mode: Mode::Normal,
            view: ViewMode::Unified,
            glyphs,
            filter: String::new(),
            should_quit: false,
            dirty: true,
            diff_height: 0,
            diff_x: 0,
            tree_width: DEFAULT_TREE_WIDTH,
            body_width: 0,
            dragging_divider: false,
            status_msg: None,
            error: None,
            pending_editor: None,
            config,
            config_path,
            pending_config_edit: false,
            config_error: None,
            toast: None,
            outbox: Vec::new(),
        };
        proof {
            reveal(App::state);
            reveal(tree_ok);
            reveal(rows_ok);
            reveal(diff_ok);
            reveal(cache_ok);
            reveal(preloaded_ok);
            let want = blank_state(
                repo_root@,
                base,
                file_models(files@),
                truecolor,
                glyphs,
                config_path@,
            );
            assert(app@.diff_rows =~= want.diff_rows);
            assert(app@.chunk_starts =~= want.chunk_starts);
            assert(app@.side_rows =~= want.side_rows);
            assert(app@.side_chunk_starts =~= want.side_chunk_starts);
            assert(app@.themes =~= want.themes);
            assert(app@.highlight_cache =~= want.highlight_cache);
            assert(app@.preloaded =~= want.preloaded);
            assert(app@.chunk_collapsed =~= want.chunk_collapsed);
            assert(app@.chunk_hashes =~= want.chunk_hashes);
            assert(app@.hashes =~= want.hashes);
            assert(app@.filter =~= want.filter);
            assert(app@.outbox =~= want.outbox);
            assert(app@.cache =~= want.cache);
            assert(app@ == want);
        }
        app
    }

    fn configure(&mut self, config: Config, config_path: String, themes: Vec<String>)
        requires
            old(self).wf(),
            config.keys.wf(),
        ensures
            final(self)@ == old(self)@.configured(config@, config_path@, strings(themes@)),
            final(self).wf(),
    {
        proof {
            reveal(App::state);
            reveal(AppState::configured);
        }
        self.view = config.view;
        self.active_theme = config.theme.theme.clone();
        self.config = config;
        self.config_path = config_path;
        self.themes = themes;
    }

    fn open(&mut self)
        requires
            old(self).wf(),
        ensures
            final(self)@ == old(self)@.opened(),
            final(self).wf(),
    {
        proof {
            reveal(AppState::opened);
        }
        // The hidden set and rules apply before the first file is picked, so the
        // selection lands on a shown file rather than a hidden one.
        self.recompute_view();
        self.select_first_file();
        self.ensure_diff_loaded();
    }

    fn set_stores(
        &mut self,
        review: ReviewStore,
        hashes: StringHashMap<FileHashes>,
        hidden: HiddenStore,
    )
        requires
            old(self).wf(),
            review.wf(),
            hidden.wf(),
        ensures
            final(self)@ == (AppState {
                review: review@,
                review_file: review.file_path(),
                hashes: hash_models(hashes@),
                hidden: hidden@,
                hidden_file: hidden.file_path(),
                ..old(self)@
            }),
            final(self).wf(),
    {
        proof {
            reveal(App::state);
        }
        self.review = review;
        self.hashes = hashes;
        self.hidden = hidden;
    }

    /// A session on a repository: its changed files, what was reviewed (with the
    /// current hashes of those files, so their status is right on the first paint)
    /// and what is hidden.
    pub fn new(
        blank: App,
        review: ReviewStore,
        hashes: StringHashMap<FileHashes>,
        hidden: HiddenStore,
        config: Config,
        config_path: String,
        themes: Vec<String>,
    ) -> (r: Self)
        requires
            blank.wf(),
            review.wf(),
            hidden.wf(),
            config.keys.wf(),
        ensures
            r@ == (AppState {
                review: review@,
                review_file: review.file_path(),
                hashes: hash_models(hashes@),
                hidden: hidden@,
                hidden_file: hidden.file_path(),
                ..blank@
            }).configured(config@, config_path@, strings(themes@)).opened(),
            r.wf(),
    {
        let mut app = blank;
        app.set_stores(review, hashes, hidden);
        app.configure(config, config_path, themes);
        app.open();
        app
    }

    fn set_piped(&mut self, diffs: StringHashMap<Arc<FileDiff>>)
        requires
            old(self).wf(),
            diffs_ok(diffs@),
        ensures
            final(self)@ == (AppState {
                live: false,
                preloaded: diff_models(diffs@),
                ..old(self)@
            }),
            final(self).wf(),
    {
        proof {
            reveal(App::state);
            reveal(preloaded_ok);
            let m = diff_models(diffs@);
            assert forall|p: Seq<char>| #[trigger] m.contains_key(p) implies m[p].wf() by {
                assert(diffs@.contains_key(p));
            }
        }
        self.live = false;
        self.preloaded = diffs;
    }

    /// A read-only pager-mode session on an already-parsed diff (piped in from
    /// `git diff` or `git show`). The file list and every file's diff are supplied
    /// up front; nothing is asked of git and nothing is saved.
    pub fn from_diff(
        blank: App,
        diffs: StringHashMap<Arc<FileDiff>>,
        config: Config,
        config_path: String,
        themes: Vec<String>,
    ) -> (r: Self)
        requires
            blank.wf(),
            diffs_ok(diffs@),
            config.keys.wf(),
        ensures
            r@ == (AppState {
                live: false,
                preloaded: diff_models(diffs@),
                ..blank@
            }).configured(config@, config_path@, strings(themes@)).opened(),
            r.wf(),
    {
        let mut app = blank;
        app.set_piped(diffs);
        app.configure(config, config_path, themes);
        app.open();
        app
    }

    // ── refresh ────────────────────────────────────────────────────────────

    /// Where the view is.
    fn current_place(&self) -> (r: Place)
        requires
            self.wf(),
        ensures
            r@ == self@.place(),
    {
        proof {
            reveal(App::state);
        }
        let path = match self.current_file_index() {
            Some(fi) => {
                assert(self@.files[fi as int] == self.files@[fi as int]@);
                Some(self.files[fi].path.clone())
            },
            None => None,
        };
        let text = match &self.diff {
            Some(d) => Some(d.text.clone()),
            None => None,
        };
        Place {
            path,
            text,
            scroll: self.scroll,
            chunk: self.current_chunk,
            collapsed: copy_folds(&self.chunk_collapsed),
        }
    }

    fn put_files(&mut self, files: Vec<ChangedFile>)
        requires
            old(self).wf(),
        ensures
            final(self)@ == (AppState {
                files: file_models(files@),
                tree: tree_of(file_models(files@)),
                prefetch_skip: Set::empty(),
                ..old(self)@
            }),
            final(self).wf(),
    {
        let tree = FileTree::build(files.as_slice());
        proof {
            reveal(App::state);
            reveal(tree_ok);
        }
        self.files = files;
        self.tree = tree;
        // A file's nature may have changed; skips are decided anew.
        self.prefetch_skip = StringHashSet::new();
    }

    /// Rebuild the file list and tree and restore the cursor to `keep_path` (or
    /// the first file).
    pub fn apply_files(&mut self, files: Vec<ChangedFile>, keep_path: &Option<String>)
        requires
            old(self).wf(),
        ensures
            final(self)@ == old(self)@.with_files(file_models(files@), opt_string(*keep_path)),
            final(self).wf(),
    {
        proof {
            reveal(AppState::with_files);
        }
        self.put_files(files);
        self.recompute_view();
        let kept = match keep_path {
            Some(path) => self.cursor_for_path(path.as_str()),
            None => None,
        };
        let cursor = match kept {
            Some(i) => i,
            None => match self.first_file_cursor() {
                Some(i) => i,
                None => 0,
            },
        };
        self.set_cursor(cursor);
    }

    fn put_hashes(&mut self, hashes: StringHashMap<FileHashes>)
        requires
            old(self).wf(),
        ensures
            final(self)@ == (AppState { hashes: hash_models(hashes@), ..old(self)@ }),
            final(self).wf(),
    {
        proof {
            reveal(App::state);
        }
        self.hashes = hashes;
    }

    /// No file's diff counts as loaded, so the next load is a fresh one.
    fn forget_file(&mut self)
        requires
            old(self).wf(),
        ensures
            final(self)@ == (AppState { diff_file: None, ..old(self)@ }),
            final(self).wf(),
    {
        proof {
            reveal(App::state);
        }
        self.diff_file = None;
    }

    /// Apply a freshly computed snapshot, preserving as much of the user's place as
    /// possible: the selection stays on the same path (or goes to the first file),
    /// and if the selected file's diff is byte-for-byte unchanged the scroll
    /// position and current chunk stay. The snapshot's hashes are what flips a
    /// reviewed chunk back to unreviewed once it changes on disk.
    pub fn reconcile(&mut self, snapshot: GitSnapshot)
        requires
            old(self).wf(),
        ensures
            final(self)@ == old(self)@.reconciled(snapshot@),
            final(self).wf(),
    {
        proof {
            reveal(AppState::reconciled);
        }
        let place = self.current_place();
        let keep = match &place.path {
            Some(p) => Some(p.clone()),
            None => None,
        };
        self.put_hashes(snapshot.hashes);
        self.apply_files(snapshot.files, &keep);
        self.forget_file();
        self.load_diff(false, Some(place));
        self.set_dirty();
    }

    /// Something went wrong in the background.
    pub fn background_error(&mut self, text: String)
        requires
            old(self).wf(),
        ensures
            final(self)@ == (AppState { error: Some(text@), dirty: true, ..old(self)@ }),
            final(self).wf(),
    {
        proof {
            reveal(App::state);
        }
        self.error = Some(text);
        self.dirty = true;
    }

    /// The terminal was resized, or has to be drawn again for another reason.
    pub fn mark_dirty(&mut self)
        requires
            old(self).wf(),
        ensures
            final(self)@ == (AppState { dirty: true, ..old(self)@ }),
            final(self).wf(),
    {
        self.set_dirty();
    }

    /// The screen was drawn, with the diff panel at this place.
    pub fn drawn(&mut self, diff_height: usize, diff_x: u16, body_width: u16)
        requires
            old(self).wf(),
        ensures
            final(self)@ == (AppState {
                diff_height,
                diff_x,
                body_width,
                dirty: false,
                ..old(self)@
            }),
            final(self).wf(),
    {
        proof {
            reveal(App::state);
        }
        self.diff_height = diff_height;
        self.diff_x = diff_x;
        self.body_width = body_width;
        self.dirty = false;
    }

    // ── highlights ─────────────────────────────────────────────────────────

    /// There is a pool for `parallelism` prefetch jobs (at least one) from now on.
    pub fn start_highlighting(&mut self, parallelism: usize)
        requires
            old(self).wf(),
        ensures
            final(self)@ == (AppState {
                prefetch_ready: true,
                prefetch_parallelism: if parallelism >= 1 {
                    parallelism
                } else {
                    1
                },
                ..old(self)@
            }).highlighted(),
            final(self).wf(),
    {
        self.set_pool(if parallelism >= 1 { parallelism } else { 1 });
        self.recompute_highlight();
    }

    fn set_pool(&mut self, parallelism: usize)
        requires
            old(self).wf(),
        ensures
            final(self)@ == (AppState {
                prefetch_ready: true,
                prefetch_parallelism: parallelism,
                ..old(self)@
            }),
            final(self).wf(),
    {
        proof {
            reveal(App::state);
        }
        self.prefetch_ready = true;
        self.prefetch_parallelism = parallelism;
    }

    /// Whether a highlight with this tag for this path is the one to show.
    fn wants_highlight(&self, path: &str, generation: u64) -> (r: bool)
        ensures
            r == (generation == self@.highlight_gen && self@.diff is Some && self@.diff->0.path
                == path@),
    {
        proof {
            reveal(App::state);
        }
        match &self.diff {
            Some(d) => generation == self.highlight_gen && same(d.path.as_str(), path),
            None => false,
        }
    }

    /// Install a highlight. It is kept for reuse in any case (so a prefetched
    /// neighbour is reused on open), but only displayed if it still matches the
    /// current file and the latest request.
    pub fn apply_highlight(
        &mut self,
        path: &str,
        theme: String,
        diff_hash: u64,
        generation: u64,
        highlight: Arc<FileHighlight>,
    )
        requires
            old(self).wf(),
        ensures
            final(self)@ == old(self)@.highlight_arrived(
                path@,
                theme@,
                diff_hash,
                generation,
                highlight,
            ),
            final(self).wf(),
    {
        let show = self.wants_highlight(path, generation);
        self.store_highlight(path, theme, diff_hash, share(&highlight));
        proof {
            reveal(App::state);
            reveal(AppState::highlight_arrived);
            reveal(AppState::keeping_highlight);
        }
        if show {
            self.highlight = Some(highlight);
            self.dirty = true;
            return;
        }
    }

    fn store_highlight(
        &mut self,
        path: &str,
        theme: String,
        hash: u64,
        highlight: Arc<FileHighlight>,
    )
        requires
            old(self).wf(),
        ensures
            final(self)@ == (AppState {
                prefetch_inflight: old(self)@.prefetch_inflight.remove(path@),
                ..old(self)@
            }).keeping_highlight(path@, theme@, hash, highlight),
            final(self).wf(),
    {
        proof {
            reveal(App::state);
            reveal(AppState::keeping_highlight);
        }
        let _ = self.prefetch_inflight.remove(path);
        keep_highlight(&mut self.highlight_cache, path, theme, hash, highlight);
    }

    // ── prefetch ───────────────────────────────────────────────────────────

    /// Whether the file at `path` needs no prefetch job.
    fn path_is_warm(&self, path: &str) -> (r: bool)
        ensures
            r == self@.is_warm(path@),
    {
        proof {
            reveal(App::state);
        }
        if self.prefetch_inflight.contains(path) || self.prefetch_skip.contains(path) {
            return true;
        }
        match self.highlight_cache.get(path) {
            Some(h) => {
                assert(self@.highlight_cache.contains_key(path@));
                same(h.theme.as_str(), self.active_theme.as_str())
            },
            None => false,
        }
    }

    /// The next file to prefetch, in the tree's display order: the first one that
    /// isn't already warm for the active theme, in flight, or skipped.
    fn next_prefetch_file(&self) -> (r: Option<usize>)
        requires
            self.wf(),
        ensures
            r == self@.next_cold(0),
            r is Some ==> r->0 < self@.files.len(),
    {
        proof {
            reveal(App::state);
        }
        let n = self.tree.visible.len();
        let mut i: usize = 0;
        while i < n
            invariant
                self.wf(),
                n == self.tree.visible@.len(),
                n == self@.tree.visible.len(),
                self@.next_cold(0) == self@.next_cold(i as int),
            decreases n - i,
        {
            proof {
                reveal(App::state);
                reveal(tree_ok);
            }
            let node = self.tree.visible[i];
            assert(self@.tree.visible[i as int] == node);
            assert(self@.tree.nodes[node as int] == self.tree.nodes@[node as int]@);
            if let Some(fi) = self.tree.nodes[node].file {
                assert(self@.files[fi as int] == self.files@[fi as int]@);
                if !self.path_is_warm(self.files[fi].path.as_str()) {
                    return Some(fi);
                }
            }
            i += 1;
        }
        None
    }

    /// The next file to prefetch, while there is room for a job.
    pub fn prefetch_target(&self) -> (r: Option<usize>)
        requires
            self.wf(),
        ensures
            r == self@.prefetch_target(),
            r is Some ==> r->0 < self@.files.len(),
    {
        proof {
            reveal(App::state);
        }
        if self.prefetch_ready && self.config.theme.syntax && self.prefetch_inflight.len()
            < self.prefetch_parallelism {
            return self.next_prefetch_file();
        }
        None
    }

    /// The request for the highlight of a file that is not in view.
    fn prefetch_request(&self, fi: usize, diff: Arc<FileDiff>) -> (r: HighlightRequest)
        requires
            fi < self@.files.len(),
        ensures
            r@ == (crate::app::types::HighlightModel {
                path: self@.files[fi as int].path,
                diff: diff@,
                theme: self@.active_theme,
                truecolor: self@.truecolor,
                diff_hash: crate::git::diff::seahash_of(vstd::utf8::encode_utf8(diff@.text)),
                generation: 0,
            }),
    {
        proof {
            reveal(App::state);
        }
        let diff_hash = hash_text(diff.text.as_str());
        HighlightRequest {
            path: self.files[fi].path.clone(),
            diff,
            theme: self.active_theme.clone(),
            truecolor: self.truecolor,
            diff_hash,
            generation: 0,
        }
    }

    fn mark_inflight(&mut self, fi: usize)
        requires
            old(self).wf(),
            fi < old(self)@.files.len(),
        ensures
            final(self)@ == (AppState {
                prefetch_inflight: old(self)@.prefetch_inflight.insert(
                    old(self)@.files[fi as int].path,
                ),
                ..old(self)@
            }),
            final(self).wf(),
    {
        proof {
            reveal(App::state);
        }
        let path = self.files[fi].path.clone();
        let _ = self.prefetch_inflight.insert(path);
    }

    fn mark_skipped(&mut self, fi: usize)
        requires
            old(self).wf(),
            fi < old(self)@.files.len(),
        ensures
            final(self)@ == (AppState {
                prefetch_skip: old(self)@.prefetch_skip.insert(old(self)@.files[fi as int].path),
                ..old(self)@
            }),
            final(self).wf(),
    {
        proof {
            reveal(App::state);
        }
        let path = self.files[fi].path.clone();
        let _ = self.prefetch_skip.insert(path);
    }

    /// Dispatch the prefetch job for a file, or skip it (binary, too large, or
    /// without a diff).
    fn prefetch_with(&mut self, fi: usize, diff: Option<Arc<FileDiff>>)
        requires
            old(self).wf(),
            fi < old(self)@.files.len(),
        ensures
            final(self)@ == old(self)@.prefetched(
                fi as int,
                crate::app::session::opt_diff(diff),
            ),
            final(self).wf(),
    {
        proof {
            reveal(AppState::prefetched);
        }
        if let Some(d) = diff {
            if self.can_highlight(&d) {
                let request = self.prefetch_request(fi, d);
                self.mark_inflight(fi);
                self.ask(Effect::Prefetch(request));
                return;
            }
        }
        self.mark_skipped(fi);
    }

    /// Top up the prefetch jobs so the highlight cache warms in display order, as
    /// far as diffs are at hand: in pager mode. On a repository the diff of
    /// `prefetch_target` has to be loaded first (see `begin_prefetch`).
    pub fn pump_prefetch(&mut self)
        requires
            old(self).wf(),
        ensures
            final(self)@ == old(self)@.pumped(old(self)@.tree.visible.len()),
            final(self).wf(),
    {
        let ghost start = self@;
        let n = self.row_total();
        let mut left: usize = n;
        while left > 0
            invariant
                self.wf(),
                left <= n,
                self@.pumped(left as nat) == start.pumped(n as nat),
            ensures
                self.wf(),
                self@ == start.pumped(n as nat),
            decreases left,
        {
            let target = self.prefetch_target();
            let fi = match target {
                Some(fi) => fi,
                None => {
                    break;
                },
            };
            if self.is_live_session() {
                break;
            }
            let diff = self.piped_diff(fi);
            self.prefetch_with(fi, diff);
            left -= 1;
        }
    }

    fn row_total(&self) -> (r: usize)
        ensures
            r == self@.tree.visible.len(),
    {
        proof {
            reveal(App::state);
        }
        self.tree.visible.len()
    }

    fn is_live_session(&self) -> (r: bool)
        ensures
            r == self@.live,
    {
        proof {
            reveal(App::state);
        }
        self.live
    }

    fn piped_diff(&self, fi: usize) -> (r: Option<Arc<FileDiff>>)
        requires
            self.wf(),
            fi < self@.files.len(),
        ensures
            crate::app::session::opt_diff(r) == self@.preloaded_diff(fi as int),
    {
        proof {
            reveal(App::state);
        }
        match self.preloaded.get(self.files[fi].path.as_str()) {
            Some(d) => {
                assert(self@.preloaded.contains_key(self@.files[fi as int].path));
                Some(share(d))
            },
            None => None,
        }
    }

    /// Goes on with a prefetch once the signature of the file is known: a cached
    /// diff is dispatched; otherwise the result is what git is to be asked.
    pub fn begin_prefetch(&mut self, fi: usize, sig: Option<Signature>) -> (r: Option<Vec<String>>)
        requires
            old(self).wf(),
            fi < old(self)@.files.len(),
        ensures
            final(self)@ == old(self)@.prefetch_begun(fi as int, sig),
            r is None <==> old(self)@.cached(fi as int, true, sig),
            r is Some ==> final(self)@ == old(self)@ && strings(r->0@) == diff_args_of(
                old(self)@.base,
                old(self)@.files[fi as int],
            ),
            final(self).wf(),
    {
        proof {
            reveal(AppState::prefetch_begun);
        }
        match self.find_cached(fi, sig) {
            Some(diff) => {
                self.prefetch_with(fi, Some(diff));
                None
            },
            None => Some(self.args_for(fi)),
        }
    }

    fn args_for(&self, fi: usize) -> (r: Vec<String>)
        requires
            fi < self@.files.len(),
        ensures
            strings(r@) == diff_args_of(self@.base, self@.files[fi as int]),
    {
        proof {
            reveal(App::state);
        }
        diff_args(self.base, &self.files[fi])
    }

    /// The cached diff of a file, which counts as used.
    fn find_cached(&mut self, fi: usize, sig: Option<Signature>) -> (r: Option<Arc<FileDiff>>)
        requires
            old(self).wf(),
            fi < old(self)@.files.len(),
        ensures
            r is Some <==> old(self)@.cached(fi as int, true, sig),
            r is Some ==> r->0@ == old(self)@.cache.entries[old(self)@.files[fi as int].path].1,
            r is Some ==> final(self)@ == (AppState {
                cache: old(self)@.cache.after_get(old(self)@.files[fi as int].path, sig->0),
                ..old(self)@
            }),
            r is None ==> final(self)@ == old(self)@,
            final(self).wf(),
    {
        proof {
            reveal(App::state);
            reveal(cache_ok);
        }
        let path = self.files[fi].path.clone();
        match sig {
            Some(s) => self.cache.get(path.as_str(), s),
            None => None,
        }
    }

    /// Ends a prefetch with git's answer.
    pub fn finish_prefetch(
        &mut self,
        fi: usize,
        sig: Option<Signature>,
        out: Result<Vec<u8>, String>,
    )
        requires
            old(self).wf(),
            fi < old(self)@.files.len(),
        ensures
            final(self)@ == old(self)@.prefetch_finished(fi as int, sig, answer_model(out)),
            final(self).wf(),
    {
        proof {
            reveal(AppState::prefetch_finished);
            reveal(AppState::caching);
        }
        match out {
            Ok(bytes) => {
                let path = self.path_of(fi);
                let diff = Arc::new(fetch_file_diff(path.as_str(), bytes.as_slice()));
                self.keep_diff(path, sig, &diff);
                self.prefetch_with(fi, Some(diff));
            },
            Err(_) => {
                self.prefetch_with(fi, None);
            },
        }
    }

    fn path_of(&self, fi: usize) -> (r: String)
        requires
            fi < self@.files.len(),
        ensures
            r@ == self@.files[fi as int].path,
    {
        proof {
            reveal(App::state);
        }
        self.files[fi].path.clone()
    }
}

} // verus!
