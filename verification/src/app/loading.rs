//! Getting the diff of the selected file into view.

use std::sync::Arc;

use vstd::hash_map::StringHashMap;
use vstd::prelude::*;
use vstd::string::*;

use crate::app::rows::{build_rows, build_side_rows};
use crate::app::session::App;
use crate::app::state::{cache_ok, diff_ok, preloaded_ok, rows_ok, AppState};
use crate::app::types::{place_model, Effect, Place, ReviewedDisplay};
use crate::cache::{share, Signature};
use crate::git::diff::{diff_args, diff_args_of, fetch_file_diff, file_hashes, hash_models};
use crate::model::diff::FileDiff;
use crate::model::file::{file_models, ChangedFile, FileModel};
use crate::model::review::{
    chunk_is_reviewed, chunk_reviewed, copy_hashes, record_model, FileHashes, ReviewRecord,
};
use crate::text::{copy_of, same, strings};

verus! {

/// The fold state of chunks: reviewed ones are folded, in collapse mode.
fn folds_for(chunks: &Vec<u64>, record: Option<&ReviewRecord>, collapse: bool) -> (r: Vec<bool>)
    ensures
        r@ == chunks@.map_values(
            |h: u64| collapse && chunk_is_reviewed(record_model(record), h),
        ),
{
    let ghost want = chunks@.map_values(
        |h: u64| collapse && chunk_is_reviewed(record_model(record), h),
    );
    let mut out: Vec<bool> = Vec::new();
    let n = chunks.len();
    for i in 0..n
        invariant
            n == chunks@.len(),
            want == chunks@.map_values(
                |h: u64| collapse && chunk_is_reviewed(record_model(record), h),
            ),
            out@ == want.take(i as int),
    {
        let fold = collapse && chunk_reviewed(record, chunks[i]);
        out.push(fold);
        assert(out@ =~= want.take(i + 1));
    }
    assert(want.take(n as int) =~= want);
    out
}

/// Sets the hashes of `path`, or forgets them.
pub(crate) fn set_hashes(
    map: &mut StringHashMap<FileHashes>,
    path: &str,
    hashes: Option<FileHashes>,
)
    ensures
        hash_models(final(map)@) == match hashes {
            Some(h) => hash_models(old(map)@).insert(path@, h@),
            None => hash_models(old(map)@).remove(path@),
        },
{
    let ghost before = map@;
    match hashes {
        Some(h) => {
            let ghost view = h@;
            map.insert(copy_of(path), h);
            assert(hash_models(map@) =~= hash_models(before).insert(path@, view));
        },
        None => {
            map.remove(path);
            assert(hash_models(map@) =~= hash_models(before).remove(path@));
        },
    }
}

/// Sets the line counts of a file in a list.
fn set_counts(files: &mut Vec<ChangedFile>, fi: usize, additions: u32, deletions: u32)
    requires
        fi < old(files)@.len(),
    ensures
        file_models(final(files)@) == file_models(old(files)@).update(
            fi as int,
            FileModel { additions, deletions, ..old(files)@[fi as int]@ },
        ),
{
    let ghost before = files@;
    let mut f = files[fi].clone();
    f.additions = additions;
    f.deletions = deletions;
    let ghost view = f@;
    files[fi] = f;
    assert(file_models(files@) =~= file_models(before).update(fi as int, view));
}

pub(crate) fn copy_folds(folds: &Vec<bool>) -> (r: Vec<bool>)
    ensures
        r@ == folds@,
{
    let mut out: Vec<bool> = Vec::new();
    let n = folds.len();
    for i in 0..n
        invariant
            n == folds@.len(),
            out@ == folds@.take(i as int),
    {
        out.push(folds[i]);
        assert(out@ =~= folds@.take(i + 1));
    }
    assert(folds@.take(n as int) =~= folds@);
    out
}

impl App {
    /// Install a (freshly loaded or cached) diff as the current one.
    pub fn adopt_diff(&mut self, fi: usize, diff: Arc<FileDiff>)
        requires
            old(self).wf(),
            fi < old(self)@.files.len(),
            diff@.wf(),
        ensures
            final(self)@ == old(self)@.adopted(fi as int, diff@),
            final(self).wf(),
    {
        proof {
            reveal(App::state);
        }
        let ghost before = self@;
        let ghost d = diff@;
        let fh = file_hashes(&diff);
        let chunk_hashes = copy_hashes(&fh.chunks);
        let path = self.files[fi].path.clone();
        let collapse = matches!(self.config.reviewed_chunks, ReviewedDisplay::Collapse);
        let record = self.review.get(path.as_str());
        let folds = folds_for(&chunk_hashes, record, collapse);
        let known = if record.is_some() {
            Some(fh)
        } else {
            None
        };
        let (rows, starts) = build_rows(&diff, &folds);
        let (side_rows, side_starts) = build_side_rows(&diff, &folds);
        assert(folds@.len() == d.chunks.len());
        set_counts(&mut self.files, fi, diff.additions(), diff.deletions());
        set_hashes(&mut self.hashes, path.as_str(), known);
        self.chunk_hashes = chunk_hashes;
        self.chunk_collapsed = folds;
        self.diff_rows = rows;
        self.chunk_starts = starts;
        self.side_rows = side_rows;
        self.side_chunk_starts = side_starts;
        self.diff = Some(diff);
        self.diff_file = Some(fi);
        self.scroll = 0;
        self.current_chunk = 0;
        self.error = None;
        proof {
            reveal(AppState::adopted);
            reveal(AppState::with_rows);
            reveal(rows_ok);
            reveal(diff_ok);
        }
        self.recompute_highlight();
    }

    /// Whether the file of `place` is in view again, and its diff did not change.
    fn is_back(&self, place: &Place) -> (r: bool)
        requires
            self.wf(),
        ensures
            r == self@.is_back_at(Some(place@)),
    {
        proof {
            reveal(App::state);
        }
        let current = match self.current_file_index() {
            Some(fi) => fi,
            None => {
                return false;
            },
        };
        if let (Some(path), Some(text), Some(d)) = (&place.path, &place.text, &self.diff) {
            assert(self@.files[current as int] == self.files@[current as int]@);
            same(path.as_str(), self.files[current].path.as_str()) && same(
                text.as_str(),
                d.text.as_str(),
            )
        } else {
            false
        }
    }

    /// Fold the chunks as they were.
    fn refold(&mut self, folds: Vec<bool>)
        requires
            old(self).wf(),
        ensures
            final(self)@ == old(self)@.refolded(folds@),
            final(self).wf(),
    {
        proof {
            reveal(AppState::refolded);
            reveal(App::state);
        }
        if self.diff.is_some() && folds.len() == self.chunk_collapsed.len() {
            self.set_folds(folds);
        }
    }

    fn go_to(&mut self, scroll: usize, chunk: usize)
        requires
            old(self).wf(),
        ensures
            final(self)@ == (AppState { scroll, current_chunk: chunk, ..old(self)@ }),
            final(self).wf(),
    {
        proof {
            reveal(App::state);
        }
        self.scroll = scroll;
        self.current_chunk = chunk;
    }

    /// Go back to `place` where the same file is in view and its diff is
    /// identical.
    pub(crate) fn restore(&mut self, place: &Option<Place>)
        requires
            old(self).wf(),
        ensures
            final(self)@ == old(self)@.restored(place_model(*place)),
            final(self).wf(),
    {
        proof {
            reveal(AppState::restored);
        }
        if let Some(p) = place {
            if self.is_back(p) {
                self.refold(copy_folds(&p.collapsed));
                self.go_to(p.scroll, p.chunk);
            }
        }
    }

    /// The piped diff of the file at `path`.
    fn preloaded_for(&self, path: &str) -> (r: Option<Arc<FileDiff>>)
        requires
            self.wf(),
        ensures
            r is Some <==> self@.preloaded.contains_key(path@),
            r is Some ==> r->0@ == self@.preloaded[path@] && r->0@.wf(),
    {
        proof {
            reveal(App::state);
        }
        proof {
            reveal(preloaded_ok);
        }
        match self.preloaded.get(path) {
            Some(d) => {
                assert(self@.preloaded.contains_key(path@));
                Some(share(d))
            },
            None => None,
        }
    }

    /// Clear the panel, with nothing loaded for `file`.
    fn unload(&mut self, file: Option<usize>)
        requires
            old(self).wf(),
            file is Some ==> file->0 < old(self)@.files.len(),
        ensures
            final(self)@ == (AppState { diff_file: file, ..old(self)@.cleared() }),
            final(self).wf(),
    {
        proof {
            reveal(App::state);
        }
        self.clear_diff();
        proof {
            reveal(AppState::cleared);
        }
        self.diff_file = file;
    }

    /// Load (or reuse) the diff for the file under the cursor.
    pub fn ensure_diff_loaded(&mut self)
        requires
            old(self).wf(),
        ensures
            final(self)@ == old(self)@.loading(true, None),
            final(self).wf(),
    {
        self.load_diff(true, None);
    }

    /// Load the selected file's diff. `use_cache` is false on a refresh so a
    /// change on disk can't be masked by a stale signature. A piped diff is at
    /// hand (a missing one clears the panel); any other is asked for.
    pub(crate) fn load_diff(&mut self, use_cache: bool, place: Option<Place>)
        requires
            old(self).wf(),
        ensures
            final(self)@ == old(self)@.loading(use_cache, place_model(place)),
            final(self).wf(),
    {
        proof {
            reveal(App::state);
        }
        proof {
            reveal(AppState::loading);
        }
        let fi = match self.current_file_index() {
            Some(fi) => fi,
            None => {
                self.unload(None);
                self.restore(&place);
                return;
            },
        };
        if let Some(f) = self.diff_file {
            if f == fi {
                self.restore(&place);
                return;
            }
        }
        if self.live {
            self.ask(Effect::Load { file: fi, use_cache, place });
            return;
        }
        let path = self.files[fi].path.clone();
        match self.preloaded_for(path.as_str()) {
            Some(diff) => {
                self.adopt_diff(fi, diff);
                self.restore(&place);
                return;
            },
            None => {
                self.unload(Some(fi));
                self.restore(&place);
                return;
            },
        }
    }

    /// Goes on with a load once the signature of the file is known (none where it
    /// cannot be had, e.g. for a deleted file). A cached diff is used where it may
    /// be; otherwise the result is what git is to be asked.
    pub fn begin_load(
        &mut self,
        file: usize,
        use_cache: bool,
        sig: Option<Signature>,
        place: &Option<Place>,
    ) -> (r: Option<Vec<String>>)
        requires
            old(self).wf(),
            file < old(self)@.files.len(),
        ensures
            final(self)@ == old(self)@.load_begun(
                file as int,
                use_cache,
                sig,
                place_model(*place),
            ),
            r is None <==> old(self)@.cached(file as int, use_cache, sig),
            r is Some ==> final(self)@ == old(self)@ && strings(r->0@) == diff_args_of(
                old(self)@.base,
                old(self)@.files[file as int],
            ),
            final(self).wf(),
    {
        proof {
            reveal(App::state);
        }
        proof {
            reveal(AppState::load_begun);
            reveal(cache_ok);
        }
        let path = self.files[file].path.clone();
        if use_cache {
            if let Some(sig) = sig {
                let ghost before = self@;
                let hit = self.cache.get(path.as_str(), sig);
                if let Some(diff) = hit {
                    assert(diff@ == before.cache.entries[path@].1);
                    assert(self@ == (AppState {
                        cache: before.cache.after_get(path@, sig),
                        ..before
                    }));
                    self.adopt_diff(file, diff);
                    self.restore(place);
                    return None;
                }
                assert(self@ == before);
            }
        }
        Some(diff_args(self.base, &self.files[file]))
    }

    /// Ends a load with git's answer.
    pub fn finish_load(
        &mut self,
        file: usize,
        sig: Option<Signature>,
        out: Result<Vec<u8>, String>,
        place: &Option<Place>,
    )
        requires
            old(self).wf(),
            file < old(self)@.files.len(),
        ensures
            final(self)@ == old(self)@.load_finished(
                file as int,
                sig,
                answer_model(out),
                place_model(*place),
            ),
            final(self).wf(),
    {
        proof {
            reveal(App::state);
        }
        proof {
            reveal(AppState::load_finished);
            reveal(AppState::caching);
        }
        match out {
            Ok(bytes) => {
                let path = self.files[file].path.clone();
                let diff = Arc::new(fetch_file_diff(path.as_str(), bytes.as_slice()));
                self.keep_diff(path, sig, &diff);
                self.adopt_diff(file, diff);
                self.restore(place);
                return;
            },
            Err(e) => {
                let mut text = copy_of("diff failed: ");
                text.append(e.as_str());
                self.unload(Some(file));
                proof {
                    reveal(AppState::cleared);
                }
                self.error = Some(text);
                self.restore(place);
                return;
            },
        }
    }

    /// Puts a diff into the cache, where the signature of its file is known.
    pub(crate) fn keep_diff(&mut self, path: String, sig: Option<Signature>, diff: &Arc<FileDiff>)
        requires
            old(self).wf(),
            diff@.wf(),
        ensures
            final(self)@ == old(self)@.caching(path@, sig, diff@),
            final(self).wf(),
    {
        proof {
            reveal(App::state);
        }
        proof {
            reveal(AppState::caching);
            reveal(cache_ok);
        }
        if let Some(s) = sig {
            self.cache.put(path, s, share(diff));
        }
    }
}

/// The value behind git's answer.
pub open spec fn answer_model(out: Result<Vec<u8>, String>) -> Result<Seq<u8>, Seq<char>> {
    match out {
        Ok(b) => Ok(b@),
        Err(e) => Err(e@),
    }
}

} // verus!
