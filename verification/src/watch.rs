//! Which file-system changes call for a refresh.
//!
//! Two things are essential:
//!
//! * Most of `.git/` is filtered out, but ref/HEAD updates are kept. git rewrites
//!   its index and lock files constantly (including as a side effect of a `git
//!   status`); watching them would create an endless refresh loop. Changes to
//!   `HEAD`, `refs/`, `packed-refs` and `ORIG_HEAD` pass, so that a commit,
//!   checkout or reset elsewhere refreshes the view.
//! * Bursts are coalesced: a storm of changes is one refresh, after a short quiet
//!   period.

use vstd::prelude::*;

use crate::path::{components, join_of, split_path};
use crate::path_laws::{law_components_grow, plain_name};
use crate::text::{begins, same, strings};

verus! {

/// Quiet period after the last raw event of a burst before a refresh, in
/// milliseconds.
pub const DEBOUNCE_MS: u64 = 150;

/// `p` lies outside the git directory (a worktree change), or is one of the files
/// in it that change on commit/checkout/reset but never on a passive read.
pub open spec fn path_matters(p: Seq<char>, git_dir: Seq<char>) -> bool {
    let all = components(p);
    let dir = components(git_dir);
    if !begins(all, dir) {
        true
    } else {
        let rel = all.skip(dir.len() as int);
        ||| rel.len() > 0 && rel[0] == "refs"@
        ||| rel == seq!["HEAD"@]
        ||| rel == seq!["ORIG_HEAD"@]
        ||| rel == seq!["packed-refs"@]
    }
}

/// True if `p` is either outside `.git/` (a worktree change) or one of the files
/// in it that flip on commit/checkout/reset but never on a passive `git status`.
pub fn is_relevant_path(p: &str, git_dir: &str) -> (r: bool)
    ensures
        r == path_matters(p@, git_dir@),
{
    let all = split_path(p);
    let dir = split_path(git_dir);
    let ghost ma = strings(all@);
    let ghost md = strings(dir@);
    let n = dir.len();
    if all.len() < n {
        return true;
    }
    for i in 0..n
        invariant
            n == dir@.len(),
            n <= all@.len(),
            ma == strings(all@),
            md == strings(dir@),
            ma == components(p@),
            md == components(git_dir@),
            forall|j: int| 0 <= j < i ==> ma[j] == md[j],
    {
        assert(ma[i as int] == all@[i as int]@ && md[i as int] == dir@[i as int]@);
        if !same(all[i].as_str(), dir[i].as_str()) {
            assert(ma.take(n as int)[i as int] != md[i as int]);
            return true;
        }
    }
    assert(ma.take(n as int) =~= md);
    let ghost rel = ma.skip(n as int);
    if all.len() == n {
        return false;
    }
    let first = all[n].as_str();
    assert(rel[0] == first@);
    if same(first, "refs") {
        return true;
    }
    let single = all.len() - n == 1;
    let named = same(first, "HEAD") || same(first, "ORIG_HEAD") || same(first, "packed-refs");
    proof {
        if single {
            assert(rel =~= seq![first@]);
        }
        assert(rel == seq!["HEAD"@] ==> rel[0] == "HEAD"@ && rel.len() == 1);
        assert(rel == seq!["ORIG_HEAD"@] ==> rel[0] == "ORIG_HEAD"@ && rel.len() == 1);
        assert(rel == seq!["packed-refs"@] ==> rel[0] == "packed-refs"@ && rel.len() == 1);
    }
    single && named
}

/// An event matters if one of its paths does; an error does not.
pub open spec fn event_matters(
    ev: Result<Vec<String>, String>,
    git_dir: Seq<char>,
) -> bool {
    match ev {
        Ok(paths) => exists|i: int|
            0 <= i < paths@.len() && path_matters((#[trigger] paths@[i])@, git_dir),
        Err(_) => false,
    }
}

/// An event (the paths that it names, or an error of the watcher) matters if it
/// touches the worktree, or one of the few `.git/` paths that signal a real state
/// change (commit / checkout / reset / fetch).
pub fn is_relevant(ev: &Result<Vec<String>, String>, git_dir: &str) -> (r: bool)
    ensures
        r == event_matters(*ev, git_dir@),
{
    match ev {
        Ok(paths) => {
            let n = paths.len();
            for i in 0..n
                invariant
                    n == paths@.len(),
                    *ev == Ok::<Vec<String>, String>(*paths),
                    forall|j: int| 0 <= j < i ==> !path_matters((#[trigger] paths@[j])@, git_dir@),
            {
                if is_relevant_path(paths[i].as_str(), git_dir) {
                    assert(path_matters(ev->Ok_0@[i as int]@, git_dir@));
                    return true;
                }
            }
            false
        },
        Err(_) => false,
    }
}

/// The events that arrive within one debounce window.
#[derive(Debug, Clone, Copy, PartialEq, Eq, Structural)]
pub struct Burst {
    /// When the window closes.
    pub deadline: u64,
    /// Whether one of its events matters.
    pub relevant: bool,
}

/// When a window closes that is quiet from `now` on.
pub open spec fn quiet_from(now: u64) -> u64 {
    if now + DEBOUNCE_MS <= u64::MAX {
        (now + DEBOUNCE_MS) as u64
    } else {
        u64::MAX
    }
}

fn deadline_from(now: u64) -> (r: u64)
    ensures
        r == quiet_from(now),
{
    if now <= 0xffff_ffff_ffff_ffff - DEBOUNCE_MS {
        now + DEBOUNCE_MS
    } else {
        0xffff_ffff_ffff_ffff
    }
}

impl Burst {
    /// A window that the event `first` opens at time `now`.
    pub fn open(first: &Result<Vec<String>, String>, git_dir: &str, now: u64) -> (r: Burst)
        ensures
            r.deadline == quiet_from(now),
            r.relevant == event_matters(*first, git_dir@),
    {
        Burst { deadline: deadline_from(now), relevant: is_relevant(first, git_dir) }
    }

    /// How long to wait for more events at time `now`; none when the window is
    /// over.
    pub fn remaining(&self, now: u64) -> (r: Option<u64>)
        ensures
            r == if now >= self.deadline {
                None::<u64>
            } else {
                Some((self.deadline - now) as u64)
            },
    {
        if now >= self.deadline {
            None
        } else {
            Some(self.deadline - now)
        }
    }

    /// One more event in the window at time `now`: it is quiet from then on.
    pub fn absorb(&mut self, ev: &Result<Vec<String>, String>, git_dir: &str, now: u64)
        ensures
            final(self).deadline == quiet_from(now),
            final(self).relevant == (old(self).relevant || event_matters(*ev, git_dir@)),
    {
        let matters = is_relevant(ev, git_dir);
        self.relevant = self.relevant || matters;
        self.deadline = deadline_from(now);
    }
}

/// A change outside the git directory matters: where the path is shorter than that of
/// the directory, or differs from it in a component.
pub proof fn law_worktree_matters(p: Seq<char>, git_dir: Seq<char>, i: int)
    requires
        0 <= i < components(git_dir).len(),
        i >= components(p).len() || components(p)[i] != components(git_dir)[i],
    ensures
        path_matters(p, git_dir),
{
    let all = components(p);
    let dir = components(git_dir);
    if begins(all, dir) {
        assert(all.take(dir.len() as int)[i] == all[i]);
    }
}

/// In the git directory the files that a commit, a checkout or a reset changes matter,
/// and so does all that is below `refs`. Nothing else does, neither the directory itself
/// nor another file in it, at whatever depth.
pub proof fn law_git_files_that_matter(git_dir: Seq<char>, name: Seq<char>, below: Seq<char>)
    requires
        plain_name(name),
        plain_name(below),
    ensures
        !path_matters(git_dir, git_dir),
        path_matters(join_of(git_dir, name), git_dir) <==> name == "refs"@ || name == "HEAD"@
            || name == "ORIG_HEAD"@ || name == "packed-refs"@,
        path_matters(join_of(join_of(git_dir, name), below), git_dir) <==> name == "refs"@,
{
    let dir = components(git_dir);
    let n = dir.len() as int;
    law_components_grow(git_dir, name);
    law_components_grow(join_of(git_dir, name), below);
    assert(dir.take(n) =~= dir);
    assert(dir.skip(n) =~= Seq::<Seq<char>>::empty());
    let one = dir.push(name);
    assert(one.take(n) =~= dir);
    assert(one.skip(n) =~= seq![name]);
    let two = one.push(below);
    assert(two.take(n) =~= dir);
    assert(two.skip(n) =~= seq![name, below]);
    assert(seq![name][0] == name);
    assert(seq![name, below].len() == 2 && seq![name, below][0] == name);
    assert(seq!["HEAD"@].len() == 1 && seq!["HEAD"@][0] == "HEAD"@);
    assert(seq!["ORIG_HEAD"@].len() == 1 && seq!["ORIG_HEAD"@][0] == "ORIG_HEAD"@);
    assert(seq!["packed-refs"@].len() == 1 && seq!["packed-refs"@][0] == "packed-refs"@);
}

/// A burst is over when it has been quiet for 150 milliseconds: no sooner, and one more
/// event puts the end off.
pub proof fn law_quiet_period(now: u64, later: u64)
    requires
        now <= later <= 0xffff_ffff_0000_0000,
    ensures
        quiet_from(now) == now + 150,
        quiet_from(now) <= quiet_from(later),
{
}

/// An event matters exactly where one of the paths that it names does; an error of the
/// watcher names none.
pub proof fn law_event_matters(paths: Vec<String>, why: String, git_dir: Seq<char>, i: int)
    requires
        0 <= i < paths@.len(),
    ensures
        path_matters(paths@[i]@, git_dir) ==> event_matters(Ok(paths), git_dir),
        (forall|j: int| 0 <= j < paths@.len() ==> !path_matters((#[trigger] paths@[j])@, git_dir))
            ==> !event_matters(Ok(paths), git_dir),
        !event_matters(Err(why), git_dir),
{
    let ev: Result<Vec<String>, String> = Ok(paths);
    if path_matters(paths@[i]@, git_dir) {
        assert(path_matters(ev->Ok_0@[i]@, git_dir));
    }
}

} // verus!
