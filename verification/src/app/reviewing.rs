//! Marking chunks and files reviewed, and hiding files.


use vstd::prelude::*;
use vstd::string::*;

use crate::app::loading::set_hashes;
use crate::app::rows::{build_rows, build_side_rows};
use crate::app::session::App;
use crate::app::state::{rows_ok, AppState};
use crate::app::types::{Clock, Effect, ReviewedDisplay};
use crate::git::diff::hash_text;
use crate::model::review::{copy_hashes, FileHashes, RecordModel, ReviewStatus};
use crate::text::copy_of;

verus! {

impl App {
    // ── reviewing ──────────────────────────────────────────────────────────

    /// The whole-diff and per-chunk hashes of the diff in view.
    pub fn current_file_hashes(&self) -> (r: Option<FileHashes>)
        ensures
            r is Some <==> self@.diff is Some,
            r is Some ==> r->0@ == self@.current_hashes(),
    {
        proof {
            reveal(App::state);
        }
        match &self.diff {
            Some(d) => Some(
                FileHashes {
                    whole: hash_text(d.text.as_str()),
                    chunks: copy_hashes(&self.chunk_hashes),
                },
            ),
            None => None,
        }
    }

    /// Keep the hashes of the file in view current (so the sidebar updates right
    /// after a mark, without a refresh).
    fn refresh_current_hashes(&mut self)
        requires
            old(self).wf(),
        ensures
            final(self)@ == old(self)@.refreshed_hashes(),
            final(self).wf(),
    {
        proof {
            reveal(App::state);
        }
        proof {
            reveal(AppState::refreshed_hashes);
        }
        let path = match &self.diff {
            Some(d) => d.path.clone(),
            None => {
                return;
            },
        };
        let known = if self.review.get(path.as_str()).is_some() {
            self.current_file_hashes()
        } else {
            None
        };
        set_hashes(&mut self.hashes, path.as_str(), known);
    }

    /// Set the fold state, and rebuild the rows of the diff in view.
    pub(crate) fn set_folds(&mut self, folds: Vec<bool>)
        requires
            old(self).wf(),
            old(self)@.diff is Some,
            folds@.len() == old(self)@.chunk_collapsed.len(),
        ensures
            final(self)@ == (AppState {
                chunk_collapsed: folds@,
                ..old(self)@
            }).with_rows(old(self)@.diff->0),
            final(self).wf(),
    {
        proof {
            reveal(App::state);
        }
        let (rows, starts) = match &self.diff {
            Some(d) => build_rows(d, &folds),
            None => (Vec::new(), Vec::new()),
        };
        let (side_rows, side_starts) = match &self.diff {
            Some(d) => build_side_rows(d, &folds),
            None => (Vec::new(), Vec::new()),
        };
        proof {
            reveal(AppState::with_rows);
            reveal(rows_ok);
        }
        self.chunk_collapsed = folds;
        self.diff_rows = rows;
        self.chunk_starts = starts;
        self.side_rows = side_rows;
        self.side_chunk_starts = side_starts;
    }

    /// Set every chunk's fold state and rebuild the rows.
    fn set_all_collapsed(&mut self, collapsed: bool)
        requires
            old(self).wf(),
        ensures
            final(self)@ == old(self)@.all_collapsed(collapsed),
            final(self).wf(),
    {
        proof {
            reveal(App::state);
        }
        let n = self.chunk_collapsed.len();
        let mut folds: Vec<bool> = Vec::new();
        for i in 0..n
            invariant
                folds@ == Seq::new(i as nat, |h: int| collapsed),
        {
            proof {
                reveal(App::state);
            }
            folds.push(collapsed);
            assert(folds@ =~= Seq::new((i + 1) as nat, |h: int| collapsed));
        }
        proof {
            reveal(AppState::all_collapsed);
            reveal(rows_ok);
        }
        if self.diff.is_some() {
            self.set_folds(folds);
            return;
        }
        self.chunk_collapsed = folds;
    }

    /// Reveal every folded chunk in the current file without changing reviewed
    /// state. Reviewed chunks keep their marker.
    pub(crate) fn expand_all_chunks(&mut self)
        requires
            old(self).wf(),
        ensures
            final(self)@ == old(self)@.expanded(),
            final(self).wf(),
    {
        proof {
            reveal(App::state);
        }
        proof {
            reveal(AppState::expanded);
        }
        let n = self.chunk_collapsed.len();
        let mut any = false;
        for i in 0..n
            invariant
                n == self.chunk_collapsed@.len(),
                any == exists|h: int| 0 <= h < i && #[trigger] self@.chunk_collapsed[h],
        {
            proof {
                reveal(App::state);
            }
            assert(self@.chunk_collapsed[i as int] == self.chunk_collapsed@[i as int]);
            if self.chunk_collapsed[i] {
                any = true;
            }
        }
        if any {
            self.set_all_collapsed(false);
            self.dirty = true;
            return;
        }
    }

    /// The first chunk from `from` on that is not reviewed.
    fn find_unreviewed(&self, from: usize) -> (r: Option<usize>)
        requires
            self.wf(),
        ensures
            r == self@.next_unreviewed(from as int),
    {
        proof {
            reveal(App::state);
        }
        let n = self.chunk_hashes.len();
        let mut i: usize = from;
        while i < n
            invariant
                self.wf(),
                n == self.chunk_hashes@.len(),
                from <= i,
                self@.next_unreviewed(from as int) == self@.next_unreviewed(i as int),
            decreases n - i,
        {
            proof {
                reveal(App::state);
            }
            if !self.chunk_reviewed(i) {
                return Some(i);
            }
            i += 1;
        }
        None
    }

    /// Move the chunk cursor to the first unreviewed chunk after `from`; if there
    /// is none, stay put.
    fn advance_to_next_unreviewed(&mut self, from: usize)
        requires
            old(self).wf(),
            from < old(self)@.chunk_hashes.len(),
        ensures
            final(self)@ == old(self)@.advanced(from as int),
            final(self).wf(),
    {
        proof {
            reveal(AppState::advanced);
        }
        let n = self.chunk_hashes.len();
        assert(from < n) by {
            reveal(App::state);
        }
        if let Some(h) = self.find_unreviewed(from + 1) {
            self.go_to_chunk(h);
            return;
        }
    }

    /// Record that the chunk with this hash is reviewed, or no longer.
    fn mark_chunk(&mut self, hash: u64, mark: bool, now: Clock)
        requires
            old(self).wf(),
            old(self)@.diff is Some,
        ensures
            final(self)@ == old(self)@.chunk_marked(hash, mark, now),
            final(self).wf(),
    {
        proof {
            reveal(App::state);
        }
        let (path, whole) = match &self.diff {
            Some(d) => (d.path.clone(), hash_text(d.text.as_str())),
            None => (String::new(), 0),
        };
        proof {
            reveal(AppState::chunk_marked);
        }
        set_chunk(&mut self.review, path.as_str(), whole, hash, mark, now.unix);
        self.ask(Effect::SaveReview);
        self.refresh_current_hashes();
    }

    /// Fold or unfold chunk `h`, where reviewed chunks are folded.
    fn fold_chunk(&mut self, h: usize, fold: bool)
        requires
            old(self).wf(),
            old(self)@.diff is Some,
            h < old(self)@.chunk_collapsed.len(),
        ensures
            final(self)@ == old(self)@.chunk_folded(h as int, fold),
            final(self).wf(),
    {
        proof {
            reveal(App::state);
        }
        proof {
            reveal(AppState::chunk_folded);
        }
        if !matches!(self.config.reviewed_chunks, ReviewedDisplay::Collapse) {
            return;
        }
        let mut folds: Vec<bool> = Vec::new();
        let n = self.chunk_collapsed.len();
        let ghost want = self@.chunk_collapsed.update(h as int, fold);
        for i in 0..n
            invariant
                n == self.chunk_collapsed@.len(),
                h < n,
                want == self@.chunk_collapsed.update(h as int, fold),
                folds@ == want.take(i as int),
        {
            proof {
                reveal(App::state);
            }
            let f = if i == h {
                fold
            } else {
                self.chunk_collapsed[i]
            };
            folds.push(f);
            assert(folds@ =~= want.take(i + 1));
        }
        assert(want.take(n as int) =~= want);
        self.set_folds(folds);
    }

    /// Toggle reviewed state for chunk `h`. Marking a chunk folds it (in collapse
    /// mode) and advances to the next unreviewed chunk; un-marking opens it again.
    fn toggle_chunk(&mut self, h: usize, now: Clock)
        requires
            old(self).wf(),
            old(self)@.diff is Some,
            h < old(self)@.chunk_hashes.len(),
        ensures
            final(self)@ == old(self)@.chunk_toggled_at(h as int, now),
            final(self).wf(),
    {
        proof {
            reveal(AppState::chunk_toggled_at);
        }
        let hash = self.hash_at(h);
        let mark = !self.chunk_reviewed(h);
        proof {
            lemma_same_lengths(self@);
            lemma_marked_frame(self@, hash, mark, now);
            let marked = self@.chunk_marked(hash, mark, now);
            lemma_folded_frame(marked, h as int, mark);
        }
        self.mark_chunk(hash, mark, now);
        self.fold_chunk(h, mark);
        if mark {
            self.advance_to_next_unreviewed(h);
        }
        self.set_dirty();
    }

    fn hash_at(&self, h: usize) -> (r: u64)
        requires
            h < self@.chunk_hashes.len(),
        ensures
            r == self@.chunk_hashes[h as int],
    {
        proof {
            reveal(App::state);
        }
        self.chunk_hashes[h]
    }

    /// Toggle reviewed state for the current chunk. Falls back to the whole-file
    /// toggle for files without chunks.
    pub(crate) fn toggle_chunk_reviewed(&mut self, now: Clock)
        requires
            old(self).wf(),
        ensures
            final(self)@ == old(self)@.chunk_toggled(now),
            final(self).wf(),
    {
        proof {
            reveal(App::state);
        }
        proof {
            reveal(AppState::chunk_toggled);
        }
        if self.diff.is_none() {
            return;
        }
        let n = self.chunk_hashes.len();
        if n == 0 {
            self.toggle_reviewed(now);
            return;
        }
        let h = if self.current_chunk < n {
            self.current_chunk
        } else {
            n - 1
        };
        self.toggle_chunk(h, now);
    }

    /// Forget the review of the file at `path`.
    fn drop_record(&mut self, fi: usize)
        requires
            old(self).wf(),
            fi < old(self)@.files.len(),
        ensures
            final(self)@ == (AppState {
                review: old(self)@.review.remove(old(self)@.files[fi as int].path),
                hashes: old(self)@.hashes.remove(old(self)@.files[fi as int].path),
                ..old(self)@
            }),
            final(self).wf(),
    {
        proof {
            reveal(App::state);
        }
        let path = self.files[fi].path.clone();
        self.review.unmark(path.as_str());
        set_hashes(&mut self.hashes, path.as_str(), None);
    }

    /// Record the review of file `fi`.
    fn put_record(&mut self, fi: usize, fh: FileHashes, now: Clock)
        requires
            old(self).wf(),
            fi < old(self)@.files.len(),
        ensures
            final(self)@ == (AppState {
                review: old(self)@.review.insert(
                    old(self)@.files[fi as int].path,
                    RecordModel {
                        reviewed_hash: fh@.whole,
                        reviewed_at: now.unix,
                        reviewed_chunks: fh@.chunks,
                    },
                ),
                hashes: old(self)@.hashes.insert(old(self)@.files[fi as int].path, fh@),
                ..old(self)@
            }),
            final(self).wf(),
    {
        proof {
            reveal(App::state);
        }
        let path = self.files[fi].path.clone();
        self.review.mark(path.as_str(), fh.whole, copy_hashes(&fh.chunks), now.unix);
        set_hashes(&mut self.hashes, path.as_str(), Some(fh));
    }

    /// Whether the diff in view is the one of file `fi`.
    fn shows_file(&self, fi: usize) -> (r: bool)
        ensures
            r == (self@.diff_file == Some(fi)),
    {
        proof {
            reveal(App::state);
        }
        match self.diff_file {
            Some(f) => f == fi,
            None => false,
        }
    }

    /// Whether reviewed chunks are folded.
    fn collapses(&self) -> (r: bool)
        ensures
            r == (self@.config.reviewed_chunks == ReviewedDisplay::Collapse),
    {
        proof {
            reveal(App::state);
        }
        matches!(self.config.reviewed_chunks, ReviewedDisplay::Collapse)
    }

    fn unmark_file(&mut self, fi: usize)
        requires
            old(self).wf(),
            fi < old(self)@.files.len(),
        ensures
            final(self)@ == old(self)@.file_unmarked(fi as int),
            final(self).wf(),
    {
        proof {
            reveal(AppState::file_unmarked);
        }
        let on_current = self.shows_file(fi);
        self.drop_record(fi);
        if on_current {
            self.set_all_collapsed(false);
        }
        self.ask(Effect::SaveReview);
        self.set_dirty();
    }

    fn mark_file(&mut self, fi: usize, fh: FileHashes, now: Clock)
        requires
            old(self).wf(),
            fi < old(self)@.files.len(),
            fh@ == old(self)@.current_hashes(),
        ensures
            final(self)@ == old(self)@.file_marked(fi as int, now),
            final(self).wf(),
    {
        proof {
            reveal(AppState::file_marked);
        }
        let fold = self.shows_file(fi) && self.collapses();
        self.put_record(fi, fh, now);
        if fold {
            self.set_all_collapsed(true);
        }
        self.ask(Effect::SaveReview);
        self.set_dirty();
    }

    /// Toggle reviewed state for the whole file under the cursor: marks/clears
    /// every chunk (and the whole-diff hash for binary files), folding or
    /// revealing all chunks to match.
    pub(crate) fn toggle_reviewed(&mut self, now: Clock)
        requires
            old(self).wf(),
        ensures
            final(self)@ == old(self)@.file_toggled(now),
            final(self).wf(),
    {
        proof {
            reveal(App::state);
        }
        proof {
            reveal(AppState::file_toggled);
        }
        let fi = match self.current_file_index() {
            Some(fi) => fi,
            None => {
                return;
            },
        };
        if matches!(self.review_status(fi), ReviewStatus::Reviewed) {
            self.unmark_file(fi);
            return;
        }
        match self.current_file_hashes() {
            Some(fh) => {
                self.mark_file(fi, fh, now);
                return;
            },
            None => {
                self.set_error(copy_of("no diff to mark reviewed"));
                return;
            },
        }
    }

    /// The reviewed state could not be written: it stays as it is in memory, and
    /// the problem is shown.
    pub fn review_not_saved(&mut self, why: &str)
        requires
            old(self).wf(),
        ensures
            final(self)@ == (AppState {
                error: Some("could not save review state: "@ + why@),
                ..old(self)@
            }),
            final(self).wf(),
    {
        proof {
            reveal(App::state);
        }
        let mut text = copy_of("could not save review state: ");
        text.append(why);
        self.error = Some(text);
    }

    // ── hiding ─────────────────────────────────────────────────────────────

    /// The hidden files could not be written.
    pub fn hidden_not_saved(&mut self, why: &str)
        requires
            old(self).wf(),
        ensures
            final(self)@ == (AppState {
                error: Some("could not save hidden state: "@ + why@),
                ..old(self)@
            }),
            final(self).wf(),
    {
        proof {
            reveal(App::state);
        }
        let mut text = copy_of("could not save hidden state: ");
        text.append(why);
        self.error = Some(text);
    }

    /// Toggle the selected file's hidden state. In the normal view this hides the
    /// file; in the hidden view the selected file is already hidden, so the same
    /// toggle shows it again. Either way the file leaves the current list, so the
    /// selection snaps to the next file.
    pub(crate) fn toggle_hidden(&mut self)
        requires
            old(self).wf(),
        ensures
            final(self)@ == old(self)@.hidden_toggled(),
            final(self).wf(),
    {
        proof {
            reveal(AppState::hidden_toggled);
        }
        let fi = match self.current_file_index() {
            Some(fi) => fi,
            None => {
                return;
            },
        };
        self.flip_file(fi);
        self.ask(Effect::SaveHidden);
        self.recompute_view();
        self.snap_cursor_to_file();
        self.ensure_diff_loaded();
        self.set_dirty();
    }

    /// Hide file `fi`, or show it again.
    fn flip_file(&mut self, fi: usize)
        requires
            old(self).wf(),
            fi < old(self)@.files.len(),
        ensures
            final(self)@ == (AppState {
                hidden: if old(self)@.hidden.contains(old(self)@.files[fi as int].path) {
                    old(self)@.hidden.remove(old(self)@.files[fi as int].path)
                } else {
                    old(self)@.hidden.insert(old(self)@.files[fi as int].path)
                },
                ..old(self)@
            }),
            final(self).wf(),
    {
        proof {
            reveal(App::state);
        }
        let path = self.files[fi].path.clone();
        flip_hidden(&mut self.hidden, path.as_str());
    }

    fn flip_hidden_view(&mut self)
        requires
            old(self).wf(),
        ensures
            final(self)@ == (AppState { hidden_view: !old(self)@.hidden_view, ..old(self)@ }),
            final(self).wf(),
    {
        proof {
            reveal(App::state);
        }
        self.hidden_view = !self.hidden_view;
    }

    /// Toggle between the normal sidebar and the hidden-only view.
    pub(crate) fn toggle_hidden_view(&mut self)
        requires
            old(self).wf(),
        ensures
            final(self)@ == old(self)@.hidden_view_toggled(),
            final(self).wf(),
    {
        proof {
            reveal(AppState::hidden_view_toggled);
        }
        self.flip_hidden_view();
        self.recompute_view();
        self.select_first_file();
        self.ensure_diff_loaded();
        self.set_dirty();
    }

    pub(crate) fn select_first_file(&mut self)
        requires
            old(self).wf(),
        ensures
            final(self)@ == old(self)@.on_first_leaf(),
            final(self).wf(),
    {
        proof {
            reveal(App::state);
        }
        let cursor = match self.first_file_cursor() {
            Some(i) => i,
            None => 0,
        };
        proof {
            reveal(AppState::on_first_leaf);
        }
        self.tree_cursor = cursor;
    }
}

/// Marks or unmarks a chunk of `path`.
fn set_chunk(
    review: &mut crate::persist::ReviewStore,
    path: &str,
    whole: u64,
    hash: u64,
    mark: bool,
    now: i64,
)
    requires
        old(review).wf(),
    ensures
        final(review).wf(),
        final(review).file_path() == old(review).file_path(),
        final(review)@ == if mark {
            old(review)@.insert(
                path@,
                crate::persist::with_chunk(
                    crate::persist::record_at(old(review)@, path@),
                    whole,
                    hash,
                    now,
                ),
            )
        } else {
            crate::persist::unmark_chunk_in(old(review)@, path@, hash)
        },
{
    if mark {
        review.mark_chunk(path, whole, hash, now);
    } else {
        review.unmark_chunk(path, hash);
    }
}

/// Hides `path`, or shows it again.
fn flip_hidden(hidden: &mut crate::persist::HiddenStore, path: &str)
    requires
        old(hidden).wf(),
    ensures
        final(hidden).wf(),
        final(hidden).file_path() == old(hidden).file_path(),
        final(hidden)@ == if old(hidden)@.contains(path@) {
            old(hidden)@.remove(path@)
        } else {
            old(hidden)@.insert(path@)
        },
{
    if hidden.is_hidden(path) {
        hidden.unhide_path(path);
    } else {
        hidden.hide_path(path);
    }
}

/// Hashes and fold states go with the chunks of the diff in view.
pub proof fn lemma_same_lengths(s: AppState)
    requires
        s.wf(),
    ensures
        s.chunk_hashes.len() == s.chunk_collapsed.len(),
        s.diff is Some ==> s.chunk_hashes.len() == s.diff->0.chunks.len(),
{
    reveal(rows_ok);
}

/// Marking a chunk changes neither the diff nor its rows.
pub proof fn lemma_marked_frame(s: AppState, hash: u64, mark: bool, now: Clock)
    requires
        s.diff is Some,
    ensures
        s.chunk_marked(hash, mark, now).diff == s.diff,
        s.chunk_marked(hash, mark, now).chunk_hashes == s.chunk_hashes,
        s.chunk_marked(hash, mark, now).chunk_collapsed == s.chunk_collapsed,
{
    reveal(AppState::chunk_marked);
    reveal(AppState::asking);
    reveal(AppState::refreshed_hashes);
}

/// Folding a chunk changes neither the diff nor its hashes.
pub proof fn lemma_folded_frame(s: AppState, h: int, fold: bool)
    requires
        s.diff is Some,
    ensures
        s.chunk_folded(h, fold).diff == s.diff,
        s.chunk_folded(h, fold).chunk_hashes == s.chunk_hashes,
{
    reveal(AppState::chunk_folded);
    reveal(AppState::with_rows);
}

} // verus!
