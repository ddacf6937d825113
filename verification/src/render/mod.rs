//! Making untrusted text safe to draw, and deciding which rows to draw.

pub mod style;
pub mod viewport;

use vstd::prelude::*;

use crate::text::{chars_of, control_char, is_control, push_char};

verus! {

/// The character that is drawn for `c`: U+FFFD for a control character other
/// than the tab.
pub open spec fn inert(c: char) -> char {
    if c == '\t' || !control_char(c) {
        c
    } else {
        '\u{FFFD}'
    }
}

/// `s` with every control character but the tab replaced.
pub open spec fn sanitized(s: Seq<char>) -> Seq<char> {
    s.map_values(|c: char| inert(c))
}

/// Replace control characters with the Unicode replacement character (`U+FFFD`).
///
/// Strings that come from a repository (file paths, diff text, chunk-header
/// context) are untrusted: a file can be named, or contain a line, with embedded
/// escape sequences. Rendering every control character inert closes that off at
/// the source.
///
/// `U+FFFD` is single-width, so callers that track display columns can treat
/// each replaced character as width 1. Tabs are kept for callers (the diff body)
/// that expand them to spaces themselves.
pub fn sanitize(s: &str) -> (r: String)
    ensures
        r@ == sanitized(s@),
{
    let chars = chars_of(s);
    let n = chars.len();
    let mut out = String::new();
    for i in 0..n
        invariant
            n == chars@.len(),
            chars@ == s@,
            out@ == sanitized(s@).take(i as int),
    {
        let c = chars[i];
        if c == '\t' || !is_control(c) {
            push_char(&mut out, c);
        } else {
            push_char(&mut out, '\u{FFFD}');
        }
        assert(out@ =~= sanitized(s@).take(i + 1));
    }
    assert(sanitized(s@).take(n as int) =~= sanitized(s@));
    out
}

/// Sanitized text has no control character but tabs, is as long as the text it
/// comes from, differs from it in the control characters alone, and is not changed
/// by sanitizing it again.
pub proof fn law_sanitized(s: Seq<char>)
    ensures
        sanitized(s).len() == s.len(),
        forall|i: int|
            0 <= i < s.len() ==> #[trigger] sanitized(s)[i] == '\t' || !control_char(
                sanitized(s)[i],
            ),
        forall|i: int|
            0 <= i < s.len() ==> #[trigger] sanitized(s)[i] == if s[i] != '\t' && control_char(
                s[i],
            ) {
                '\u{FFFD}'
            } else {
                s[i]
            },
        sanitized(sanitized(s)) == sanitized(s),
        (forall|i: int| 0 <= i < s.len() ==> #[trigger] s[i] == '\t' || !control_char(s[i]))
            ==> sanitized(s) == s,
{
    assert(sanitized(sanitized(s)) =~= sanitized(s));
    if forall|i: int| 0 <= i < s.len() ==> #[trigger] s[i] == '\t' || !control_char(s[i]) {
        assert(sanitized(s) =~= s);
    }
}

} // verus!
