//! Repository discovery.

use vstd::prelude::*;
use vstd::string::*;

use crate::text::{chars_of, copy_of, lossy_string, owned, string_of, strings, trim, trimmed, utf8_lossy};

verus! {

/// What git is asked for the root of the working tree (worktree-aware).
pub fn discover_args() -> (r: Vec<String>)
    ensures
        strings(r@) == seq!["rev-parse"@, "--show-toplevel"@],
{
    let r = owned(&["rev-parse", "--show-toplevel"]);
    assert(strings(r@) =~= seq!["rev-parse"@, "--show-toplevel"@]);
    r
}

/// What git is asked for the git directory. The absolute form resolves for linked
/// worktrees too, where `.git` is a file that points elsewhere.
pub fn git_dir_args() -> (r: Vec<String>)
    ensures
        strings(r@) == seq!["rev-parse"@, "--absolute-git-dir"@],
{
    let r = owned(&["rev-parse", "--absolute-git-dir"]);
    assert(strings(r@) =~= seq!["rev-parse"@, "--absolute-git-dir"@]);
    r
}

/// The root of the working tree that holds `start`, from git's answer; an error
/// where git has no answer, or an empty one.
pub fn discover(start: &str, out: Result<Vec<u8>, String>) -> (r: Result<String, String>)
    ensures
        r is Ok <==> out is Ok && trim(utf8_lossy(out->Ok_0@)).len() > 0,
        r is Ok ==> r->Ok_0@ == trim(utf8_lossy(out->Ok_0@)),
        out is Err ==> r->Err_0@ == "`"@ + start@ + "` is not inside a git repository: "@
            + out->Err_0@,
        out is Ok && r is Err ==> r->Err_0@ == "could not determine git repository root for "@
            + start@,
{
    match out {
        Ok(bytes) => {
            let root = git_dir(bytes.as_slice());
            if root.as_str().unicode_len() == 0 {
                let mut e = copy_of("could not determine git repository root for ");
                e.append(start);
                Err(e)
            } else {
                Ok(root)
            }
        },
        Err(why) => {
            let mut e = copy_of("`");
            e.append(start);
            e.append("` is not inside a git repository: ");
            e.append(why.as_str());
            Err(e)
        },
    }
}

/// The directory that git's answer names.
pub fn git_dir(out: &[u8]) -> (r: String)
    ensures
        r@ == trim(utf8_lossy(out@)),
{
    let text = lossy_string(out);
    let chars = chars_of(text.as_str());
    string_of(trimmed(chars.as_slice()))
}

} // verus!
