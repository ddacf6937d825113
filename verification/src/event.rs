//! Background events: the file-system watcher and the git worker feed a queue that
//! the UI drains.

use std::sync::Arc;

use vstd::prelude::*;
use vstd::string::*;

use crate::highlight::FileHighlight;
use crate::model::file::{file_models, ChangedFile, FileModel};
use crate::model::snapshot::GitSnapshot;
use crate::persist::index_of_path;
use crate::text::{copy_of, strings};

verus! {

/// What happened in the background.
pub enum Event {
    /// A debounced burst of file-system changes occurred: time for a refresh.
    Fs,
    /// A freshly computed snapshot of the repository's changed files.
    Refreshed(GitSnapshot),
    /// Syntax highlighting for a file. `generation` lets the UI drop a result that
    /// a newer selection has superseded for display; `theme` and `diff_hash` key it
    /// in the highlight cache.
    Highlighted {
        path: String,
        theme: String,
        diff_hash: u64,
        generation: u64,
        highlight: Arc<FileHighlight>,
    },
    /// A background error to surface in the status bar.
    Error(String),
}

/// The request that counts when several are queued: the most recent one.
pub fn latest<T>(first: T, queued: Vec<T>) -> (r: T)
    ensures
        r == if queued@.len() > 0 {
            queued@.last()
        } else {
            first
        },
{
    let mut queued = queued;
    match queued.pop() {
        Some(last) => last,
        None => first,
    }
}

/// The files among the first `n` whose path is wanted.
pub open spec fn wanted_files(files: Seq<FileModel>, paths: Seq<Seq<char>>, n: int) -> Seq<
    FileModel,
>
    decreases n,
{
    if n <= 0 {
        Seq::empty()
    } else if paths.contains(files[n - 1].path) {
        wanted_files(files, paths, n - 1).push(files[n - 1])
    } else {
        wanted_files(files, paths, n - 1)
    }
}

/// The files whose diffs have to be hashed on a refresh: those with a review
/// record, so the cost scales with the (small) reviewed set, not the repository.
pub fn files_to_hash(files: &Vec<ChangedFile>, reviewed: &Vec<String>) -> (r: Vec<ChangedFile>)
    ensures
        file_models(r@) == wanted_files(
            file_models(files@),
            strings(reviewed@),
            files@.len() as int,
        ),
{
    let ghost model = file_models(files@);
    let mut out: Vec<ChangedFile> = Vec::new();
    let n = files.len();
    assert(file_models(out@) =~= wanted_files(model, strings(reviewed@), 0));
    for i in 0..n
        invariant
            n == files@.len(),
            model == file_models(files@),
            file_models(out@) == wanted_files(model, strings(reviewed@), i as int),
    {
        assert(model[i as int] == files@[i as int]@);
        if index_of_path(reviewed, files[i].path.as_str()).is_some() {
            let f = files[i].clone();
            let ghost was = out@;
            let ghost view = f@;
            out.push(f);
            assert(file_models(out@) =~= file_models(was).push(view));
        }
    }
    out
}

/// What is shown when a refresh failed.
pub fn refresh_failed(why: &str) -> (r: Event)
    ensures
        r matches Event::Error(s) && s@ == "git refresh failed: "@ + why@,
{
    let mut s = copy_of("git refresh failed: ");
    s.append(why);
    Event::Error(s)
}

/// The files to hash are those with a review record, in the order of the list.
pub proof fn law_wanted_files(files: Seq<FileModel>, paths: Seq<Seq<char>>, n: int)
    requires
        0 <= n <= files.len(),
    ensures
        wanted_files(files, paths, n) == files.take(n).filter(
            |f: FileModel| paths.contains(f.path),
        ),
    decreases n,
{
    reveal(Seq::filter);
    if n > 0 {
        law_wanted_files(files, paths, n - 1);
        assert(files.take(n).drop_last() =~= files.take(n - 1));
    } else {
        assert(files.take(0) =~= Seq::<FileModel>::empty());
    }
}

} // verus!
