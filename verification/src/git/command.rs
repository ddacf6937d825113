//! What a finished run of the system `git` means.

use vstd::prelude::*;
use vstd::string::*;

use crate::text::{chars_of, copy_of, join, joined, lossy_string, string_of, strings, trim, trimmed, utf8_lossy};

verus! {

/// A finished run of git.
#[derive(Debug)]
pub struct GitOutput {
    /// The exit code; none when a signal ended the run.
    pub code: Option<i32>,
    pub stdout: Vec<u8>,
    pub stderr: Vec<u8>,
}

/// What is said of a run that failed.
pub open spec fn failure(args: Seq<Seq<char>>, stderr: Seq<u8>) -> Seq<char> {
    "`git "@ + joined(args, " "@) + "` failed: "@ + trim(utf8_lossy(stderr))
}

fn failure_text(args: &Vec<String>, stderr: &Vec<u8>) -> (r: String)
    ensures
        r@ == failure(strings(args@), stderr@),
{
    let said = lossy_string(stderr.as_slice());
    let said = chars_of(said.as_str());
    let mut out = copy_of("`git ");
    out.append(join(args, " ").as_str());
    out.append("` failed: ");
    out.append(string_of(trimmed(said.as_slice())).as_str());
    out
}

/// The output of a run that has to succeed: any exit but 0 is an error. For
/// plumbing where success is expected (status, rev-parse).
pub fn capture(out: GitOutput, args: &Vec<String>) -> (r: Result<Vec<u8>, String>)
    ensures
        r is Ok <==> out.code == Some(0i32),
        r is Ok ==> r->Ok_0@ == out.stdout@,
        r is Err ==> r->Err_0@ == failure(strings(args@), out.stderr@),
{
    match out.code {
        Some(0) => Ok(out.stdout),
        _ => Err(failure_text(args, &out.stderr)),
    }
}

/// The output of a `git diff` variant: exit code 1 means "differences found", and
/// only other codes are failures.
pub fn capture_diff(out: GitOutput, args: &Vec<String>) -> (r: Result<Vec<u8>, String>)
    ensures
        r is Ok <==> out.code == Some(0i32) || out.code == Some(1i32),
        r is Ok ==> r->Ok_0@ == out.stdout@,
        r is Err ==> r->Err_0@ == failure(strings(args@), out.stderr@),
{
    match out.code {
        Some(0) => Ok(out.stdout),
        Some(1) => Ok(out.stdout),
        _ => Err(failure_text(args, &out.stderr)),
    }
}

/// Whether git ran and exited successfully.
pub fn succeeds(out: Option<GitOutput>) -> (r: bool)
    ensures
        r <==> out is Some && out->0.code == Some(0i32),
{
    match out {
        Some(o) => matches!(o.code, Some(0)),
        None => false,
    }
}

} // verus!
