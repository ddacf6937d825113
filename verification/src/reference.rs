//! References for an agent, and how they get onto the clipboard.
//!
//! A reference is a compact `path:line` pointer to the chunk under the cursor,
//! to be pasted to a coding agent that resolves it against the working tree. The
//! diff itself is left out: an agent with repository access reads the live file.
//! The system clipboard is preferred; an OSC 52 terminal escape still works over
//! tmux and SSH.

use vstd::prelude::*;
use vstd::string::*;
use vstd::utf8::*;

use crate::model::diff::{DiffLine, FileDiff, Hunk, HunkModel};
use crate::text::{
    before, copy_of, decimal, digit, lemma_decimal_round_trip, lemma_take_step, number_of, push_char,
    to_decimal,
};
use crate::text_laws::{law_before, law_number_round_trip};

verus! {

// ── references ─────────────────────────────────────────────────────────────

/// `span` widened to hold `no`.
pub open spec fn widened(span: Option<(u32, u32)>, no: Option<u32>) -> Option<(u32, u32)> {
    match (span, no) {
        (Some((lo, hi)), Some(n)) => Some(
            (
                if n < lo {
                    n
                } else {
                    lo
                },
                if n > hi {
                    n
                } else {
                    hi
                },
            ),
        ),
        (None, Some(n)) => Some((n, n)),
        (span, None) => span,
    }
}

/// The smallest and largest new-file line number of `lines`.
pub open spec fn new_span(lines: Seq<DiffLine>) -> Option<(u32, u32)>
    decreases lines.len(),
{
    if lines.len() == 0 {
        None
    } else {
        widened(new_span(lines.drop_last()), lines.last().new_no)
    }
}

/// The smallest and largest old-file line number of `lines`.
pub open spec fn old_span(lines: Seq<DiffLine>) -> Option<(u32, u32)>
    decreases lines.len(),
{
    if lines.len() == 0 {
        None
    } else {
        widened(old_span(lines.drop_last()), lines.last().old_no)
    }
}

/// The lines that a chunk touches: new-file numbers, or old-file ones for a pure
/// deletion.
pub open spec fn chunk_span(chunk: HunkModel) -> (u32, u32) {
    match (new_span(chunk.lines), old_span(chunk.lines)) {
        (Some(s), _) => s,
        (None, Some(s)) => s,
        (None, None) => (0, 0),
    }
}

/// `path:line`, or `path:first-last` where the two differ.
pub open spec fn reference_text(path: Seq<char>, span: (u32, u32)) -> Seq<char> {
    if span.0 == span.1 {
        path + ":"@ + decimal(span.0 as nat)
    } else {
        path + ":"@ + decimal(span.0 as nat) + "-"@ + decimal(span.1 as nat)
    }
}

fn widen(span: Option<(u32, u32)>, no: Option<u32>) -> (r: Option<(u32, u32)>)
    ensures
        r == widened(span, no),
{
    match (span, no) {
        (Some((lo, hi)), Some(n)) => Some(
            (
                if n < lo {
                    n
                } else {
                    lo
                },
                if n > hi {
                    n
                } else {
                    hi
                },
            ),
        ),
        (None, Some(n)) => Some((n, n)),
        (span, None) => span,
    }
}

/// The new-file line range the chunk touches (falls back to old-file numbers for
/// a pure-deletion chunk).
pub fn new_line_range(hunk: &Hunk) -> (r: (u32, u32))
    ensures
        r == chunk_span(hunk@),
{
    let mut new: Option<(u32, u32)> = None;
    let mut old_side: Option<(u32, u32)> = None;
    let n = hunk.lines.len();
    for i in 0..n
        invariant
            n == hunk.lines@.len(),
            new == new_span(hunk.lines@.take(i as int)),
            old_side == old_span(hunk.lines@.take(i as int)),
    {
        proof {
            lemma_take_step(hunk.lines@, i as int);
        }
        new = widen(new, hunk.lines[i].new_no);
        old_side = widen(old_side, hunk.lines[i].old_no);
    }
    assert(hunk.lines@.take(n as int) =~= hunk.lines@);
    match (new, old_side) {
        (Some(s), _) => s,
        (None, Some(s)) => s,
        (None, None) => (0, 0),
    }
}

/// A line of `lines` has the number `n` on the new side (`new`) or the old one.
pub open spec fn has_number(lines: Seq<DiffLine>, new: bool, n: u32) -> bool {
    exists|i: int|
        0 <= i < lines.len() && (if new {
            (#[trigger] lines[i]).new_no
        } else {
            lines[i].old_no
        }) == Some(n)
}

/// A side of a chunk has numbers.
pub open spec fn has_numbers(lines: Seq<DiffLine>, new: bool) -> bool {
    exists|n: u32| has_number(lines, new, n)
}

/// `span` is the least range that holds every number of one side: both its ends are
/// numbers of lines, and every number lies between them.
pub open spec fn spans_side(lines: Seq<DiffLine>, new: bool, span: (u32, u32)) -> bool {
    &&& has_number(lines, new, span.0)
    &&& has_number(lines, new, span.1)
    &&& forall|n: u32| #[trigger] has_number(lines, new, n) ==> span.0 <= n <= span.1
}

spec fn side_span(lines: Seq<DiffLine>, new: bool) -> Option<(u32, u32)> {
    if new {
        new_span(lines)
    } else {
        old_span(lines)
    }
}

proof fn lemma_side_span(lines: Seq<DiffLine>, new: bool)
    ensures
        side_span(lines, new) is Some <==> has_numbers(lines, new),
        side_span(lines, new) is Some ==> spans_side(lines, new, side_span(lines, new)->0),
    decreases lines.len(),
{
    if lines.len() > 0 {
        let was = lines.drop_last();
        let last = if new {
            lines.last().new_no
        } else {
            lines.last().old_no
        };
        lemma_side_span(was, new);
        assert forall|n: u32| #[trigger] has_number(lines, new, n) <==> has_number(was, new, n)
            || last == Some(n) by {
            if has_number(lines, new, n) {
                let i = choose|i: int|
                    0 <= i < lines.len() && (if new {
                        (#[trigger] lines[i]).new_no
                    } else {
                        lines[i].old_no
                    }) == Some(n);
                if i < was.len() {
                    assert(was[i] == lines[i]);
                }
            }
            if has_number(was, new, n) {
                let i = choose|i: int|
                    0 <= i < was.len() && (if new {
                        (#[trigger] was[i]).new_no
                    } else {
                        was[i].old_no
                    }) == Some(n);
                assert(was[i] == lines[i]);
            }
            if last == Some(n) {
                assert(lines[lines.len() - 1] == lines.last());
            }
        }
        if last is Some {
            assert(has_number(lines, new, last->0));
        }
        if has_numbers(was, new) {
            let n = choose|n: u32| has_number(was, new, n);
            assert(has_number(lines, new, n));
        }
        if has_numbers(lines, new) && last is None {
            let n = choose|n: u32| has_number(lines, new, n);
            assert(has_number(was, new, n));
        }
    } else {
        assert(!has_numbers(lines, new));
    }
}

/// A reference points at all of a chunk and at nothing else: where lines of it have
/// new-file numbers, both ends of the range are such numbers and all of them lie
/// between; where none has, the same holds of the old-file numbers.
pub proof fn law_range_covers_chunk(chunk: HunkModel)
    ensures
        has_numbers(chunk.lines, true) ==> spans_side(chunk.lines, true, chunk_span(chunk)),
        !has_numbers(chunk.lines, true) && has_numbers(chunk.lines, false) ==> spans_side(
            chunk.lines,
            false,
            chunk_span(chunk),
        ),
        !has_numbers(chunk.lines, true) && !has_numbers(chunk.lines, false) ==> chunk_span(chunk)
            == (0u32, 0u32),
{
    lemma_side_span(chunk.lines, true);
    lemma_side_span(chunk.lines, false);
}

/// The path and both ends of the range are read back from a reference: the last `:`
/// parts the path from the range, which is one number or two with a `-` between.
pub proof fn law_reference_reads_back(path: Seq<char>, span: (u32, u32))
    ensures
        ({
            let t = reference_text(path, span);
            let range = t.skip(path.len() as int + 1);
            &&& t.take(path.len() as int) == path
            &&& t[path.len() as int] == ':'
            &&& !range.contains(':')
            &&& number_of(before(range, '-')) == Some(span.0)
            &&& if range.contains('-') {
                number_of(range.skip(before(range, '-').len() as int + 1)) == Some(span.1)
            } else {
                span.0 == span.1
            }
            &&& range.contains('-') ==> span.0 != span.1
        }),
{
    reveal_strlit(":");
    reveal_strlit("-");
    let t = reference_text(path, span);
    let range = t.skip(path.len() as int + 1);
    let lo = decimal(span.0 as nat);
    let hi = decimal(span.1 as nat);
    law_number_round_trip(span.0);
    law_number_round_trip(span.1);
    lemma_decimal_round_trip(span.0 as nat);
    lemma_decimal_round_trip(span.1 as nat);
    assert forall|c: char| lo.contains(c) || hi.contains(c) implies digit(c) by {
        if lo.contains(c) {
            let i = choose|i: int| 0 <= i < lo.len() && lo[i] == c;
            assert(digit(lo[i]));
        } else {
            let i = choose|i: int| 0 <= i < hi.len() && hi[i] == c;
            assert(digit(hi[i]));
        }
    }
    assert(t.take(path.len() as int) =~= path);
    if span.0 == span.1 {
        assert(range =~= lo);
        law_before(lo, '-', hi);
    } else {
        assert(range =~= lo.push('-') + hi);
        law_before(lo, '-', hi);
        assert(range.skip(lo.len() as int + 1) =~= hi);
        assert(range[lo.len() as int] == '-');
        if range.contains(':') {
            let i = choose|i: int| 0 <= i < range.len() && range[i] == ':';
            if i < lo.len() {
                assert(lo.contains(lo[i]));
            } else if i > lo.len() {
                assert(hi.contains(hi[i - lo.len() - 1]));
            }
        }
    }
}

/// Build the reference for chunk `hunk_index` of `fd`: a compact `path:start-end`
/// pointer (`path:line` when the chunk touches a single line).
pub fn build_hunk_reference(fd: &FileDiff, hunk_index: usize) -> (r: String)
    requires
        hunk_index < fd@.chunks.len(),
    ensures
        r@ == reference_text(fd@.path, chunk_span(fd@.chunks[hunk_index as int])),
{
    let (start, end) = new_line_range(&fd.chunks[hunk_index]);
    let mut out = copy_of(fd.path.as_str());
    out.append(":");
    out.append(to_decimal(start as u128).as_str());
    if start != end {
        out.append("-");
        out.append(to_decimal(end as u128).as_str());
    }
    out
}

// ── base64 ─────────────────────────────────────────────────────────────────

/// The character of the standard base64 alphabet for a six-bit value.
pub open spec fn base64_char(v: int) -> char {
    if v < 26 {
        ('A' as u32 + v) as char
    } else if v < 52 {
        ('a' as u32 + (v - 26)) as char
    } else if v < 62 {
        ('0' as u32 + (v - 52)) as char
    } else if v == 62 {
        '+'
    } else {
        '/'
    }
}

/// Byte `i` of `b`; 0 behind its end.
pub open spec fn byte_at(b: Seq<u8>, i: int) -> int {
    if 0 <= i < b.len() {
        b[i] as int
    } else {
        0
    }
}

/// The four characters for the bytes of `b` from `i` on, padded with `=`.
pub open spec fn base64_group(b: Seq<u8>, i: int) -> Seq<char> {
    let b0 = byte_at(b, i);
    let b1 = byte_at(b, i + 1);
    let b2 = byte_at(b, i + 2);
    seq![
        base64_char(b0 / 4),
        base64_char(b0 % 4 * 16 + b1 / 16),
        if i + 1 < b.len() {
            base64_char(b1 % 16 * 4 + b2 / 64)
        } else {
            '='
        },
        if i + 2 < b.len() {
            base64_char(b2 % 64)
        } else {
            '='
        },
    ]
}

/// The base64 form of the bytes of `b` from `i` on.
pub open spec fn base64_from(b: Seq<u8>, i: int) -> Seq<char>
    decreases b.len() + 3 - i,
{
    if i >= b.len() {
        Seq::empty()
    } else {
        base64_group(b, i) + base64_from(b, i + 3)
    }
}

fn alphabet(v: u8) -> (c: char)
    requires
        v < 64,
    ensures
        c == base64_char(v as int),
{
    let b: u8 = if v < 26 {
        0x41 + v
    } else if v < 52 {
        0x61 + (v - 26)
    } else if v < 62 {
        0x30 + (v - 52)
    } else if v == 62 {
        0x2b
    } else {
        0x2f
    };
    b as char
}

/// Minimal standard-alphabet base64.
pub fn base64_encode(input: &[u8]) -> (r: String)
    ensures
        r@ == base64_from(input@, 0),
{
    let n = input.len();
    let mut out = String::new();
    let mut i: usize = 0;
    assert(out@ + base64_from(input@, 0) =~= base64_from(input@, 0));
    while i < n
        invariant
            n == input@.len(),
            i < n + 3,
            out@ + base64_from(input@, i as int) == base64_from(input@, 0),
        decreases n + 3 - i,
    {
        let ghost was = out@;
        let left = n - i;
        let b0: u8 = input[i];
        let b1: u8 = if left > 1 {
            input[i + 1]
        } else {
            0
        };
        let b2: u8 = if left > 2 {
            input[i + 2]
        } else {
            0
        };
        push_char(&mut out, alphabet(b0 / 4));
        push_char(&mut out, alphabet(b0 % 4 * 16 + b1 / 16));
        if left > 1 {
            push_char(&mut out, alphabet(b1 % 16 * 4 + b2 / 64));
        } else {
            push_char(&mut out, '=');
        }
        if left > 2 {
            push_char(&mut out, alphabet(b2 % 64));
        } else {
            push_char(&mut out, '=');
        }
        assert(out@ =~= was + base64_group(input@, i as int));
        assert(was + (base64_group(input@, i as int) + base64_from(input@, i + 3)) =~= out@
            + base64_from(input@, i + 3));
        if left <= 3 {
            assert(out@ + base64_from(input@, i + 3) =~= out@);
            return out;
        }
        i += 3;
    }
    assert(out@ + base64_from(input@, i as int) =~= out@);
    out
}

/// The six-bit value of a base64 character.
pub open spec fn base64_value(c: char) -> int {
    if 'A' <= c <= 'Z' {
        c as u32 - 'A' as u32
    } else if 'a' <= c <= 'z' {
        c as u32 - 'a' as u32 + 26
    } else if '0' <= c <= '9' {
        c as u32 - '0' as u32 + 52
    } else if c == '+' {
        62
    } else {
        63
    }
}

/// The bytes that a base64 text stands for.
pub open spec fn base64_bytes(s: Seq<char>) -> Seq<u8>
    decreases s.len(),
{
    if s.len() < 4 {
        Seq::empty()
    } else {
        let v0 = base64_value(s[0]);
        let v1 = base64_value(s[1]);
        let v2 = base64_value(s[2]);
        let v3 = base64_value(s[3]);
        let first = seq![(v0 * 4 + v1 / 16) as u8];
        let second = if s[2] == '=' {
            Seq::empty()
        } else {
            seq![(v1 % 16 * 16 + v2 / 4) as u8]
        };
        let third = if s[3] == '=' {
            Seq::empty()
        } else {
            seq![(v2 % 4 * 64 + v3) as u8]
        };
        first + second + third + base64_bytes(s.skip(4))
    }
}

proof fn lemma_base64_char(v: int)
    requires
        0 <= v < 64,
    ensures
        base64_value(base64_char(v)) == v,
        base64_char(v) != '=',
{
}

proof fn lemma_base64_round_trip(b: Seq<u8>, i: int)
    requires
        0 <= i,
    ensures
        base64_bytes(base64_from(b, i)) == if i < b.len() {
            b.skip(i)
        } else {
            Seq::empty()
        },
    decreases b.len() + 3 - i,
{
    if i < b.len() {
        let text = base64_from(b, i);
        let b0 = byte_at(b, i);
        let b1 = byte_at(b, i + 1);
        let b2 = byte_at(b, i + 2);
        lemma_base64_char(b0 / 4);
        lemma_base64_char(b0 % 4 * 16 + b1 / 16);
        lemma_base64_char(b1 % 16 * 4 + b2 / 64);
        lemma_base64_char(b2 % 64);
        lemma_base64_round_trip(b, i + 3);
        assert(text.skip(4) =~= base64_from(b, i + 3));
        assert((b0 / 4) * 4 + (b0 % 4 * 16 + b1 / 16) / 16 == b0);
        assert((b0 % 4 * 16 + b1 / 16) % 16 * 16 + (b1 % 16 * 4 + b2 / 64) / 4 == b1);
        assert((b1 % 16 * 4 + b2 / 64) % 4 * 64 + b2 % 64 == b2);
        assert(base64_bytes(text) =~= b.skip(i));
    }
}

/// Decoding gives back the bytes that were encoded.
pub proof fn law_base64_round_trip(b: Seq<u8>)
    ensures
        base64_bytes(base64_from(b, 0)) == b,
{
    lemma_base64_round_trip(b, 0);
    if b.len() > 0 {
        assert(b.skip(0) =~= b);
    } else {
        assert(b =~= Seq::<u8>::empty());
    }
}

// ── copying ────────────────────────────────────────────────────────────────

/// Where a copy ended up, for the status message.
#[derive(Debug, Clone, Copy, PartialEq, Eq, Structural)]
pub enum CopyMethod {
    Clipboard,
    Osc52,
}

/// The name of a copy method in messages.
pub open spec fn method_name(method: CopyMethod) -> Seq<char> {
    match method {
        CopyMethod::Clipboard => "clipboard"@,
        CopyMethod::Osc52 => "terminal (OSC52)"@,
    }
}

impl CopyMethod {
    /// The name of the method in messages.
    pub fn name(&self) -> (r: &'static str)
        ensures
            r@ == method_name(*self),
    {
        match self {
            CopyMethod::Clipboard => "clipboard",
            CopyMethod::Osc52 => "terminal (OSC52)",
        }
    }
}

/// What is left to do for a copy after the system clipboard was tried.
#[derive(Debug)]
pub enum CopyStep {
    /// The clipboard holds the text.
    Done(CopyMethod),
    /// These characters have to be written to the terminal.
    Terminal(String),
}

/// The terminal escape that sets the clipboard: ESC ] 52 ; c ; base64 BEL. It is
/// interpreted by the terminal, not drawn.
pub open spec fn osc52_of(text: Seq<char>) -> Seq<char> {
    "\x1b]52;c;"@ + base64_from(encode_utf8(text), 0) + "\x07"@
}

/// The OSC 52 escape that copies `text`.
pub fn osc52_sequence(text: &str) -> (r: String)
    ensures
        r@ == osc52_of(text@),
{
    let mut out = copy_of("\x1b]52;c;");
    out.append(base64_encode(text.as_bytes()).as_str());
    out.append("\x07");
    out
}

/// Copy `text`, given whether the system clipboard took it: where it did not,
/// the terminal is asked (works over tmux/SSH where there's no local display).
pub fn copy(text: &str, clipboard_took: bool) -> (r: CopyStep)
    ensures
        clipboard_took ==> r == CopyStep::Done(CopyMethod::Clipboard),
        !clipboard_took ==> (r matches CopyStep::Terminal(s) && s@ == osc52_of(text@)),
{
    if clipboard_took {
        CopyStep::Done(CopyMethod::Clipboard)
    } else {
        CopyStep::Terminal(osc52_sequence(text))
    }
}

/// The escape that sets the clipboard begins and ends as the terminal expects it, and what
/// stands between decodes to the text.
pub proof fn law_osc52_carries_text(text: Seq<char>)
    ensures
        ({
            let s = osc52_of(text);
            &&& s.take(7) == seq!['\x1b', ']', '5', '2', ';', 'c', ';']
            &&& s.last() == '\x07'
            &&& base64_bytes(s.subrange(7, s.len() - 1)) == encode_utf8(text)
        }),
{
    reveal_strlit("\x1b]52;c;");
    reveal_strlit("\x07");
    let s = osc52_of(text);
    let b = encode_utf8(text);
    law_base64_round_trip(b);
    assert(s.take(7) =~= seq!['\x1b', ']', '5', '2', ';', 'c', ';']);
    assert(s.subrange(7, s.len() - 1) =~= base64_from(b, 0));
}

} // verus!
