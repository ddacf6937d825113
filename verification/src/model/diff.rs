//! Structured, byte-range-backed representation of a single file's diff.
//!
//! The whole `git diff` output of the file is stored once. Every [`DiffLine`]
//! and chunk header is a range of bytes of that text: no line is copied.

use std::ops::Range;

use vstd::prelude::*;
use vstd::utf8::*;

use crate::text::{lemma_take_step, slice_str, text_range, text_slice};

verus! {

#[derive(Debug, Clone, Copy, PartialEq, Eq, Structural)]
pub enum LineKind {
    Context,
    Add,
    Del,
    /// The `\ No newline at end of file` marker line.
    NoNewline,
}

/// A single line of a chunk. `text` leaves out the leading `+`/`-`/` ` marker,
/// except for [`LineKind::NoNewline`].
#[derive(Debug)]
pub struct DiffLine {
    pub kind: LineKind,
    pub old_no: Option<u32>,
    pub new_no: Option<u32>,
    pub text: Range<usize>,
}

/// A `@@ ... @@` chunk and its lines.
#[derive(Debug)]
pub struct Hunk {
    /// Range of the `@@ -a,b +c,d @@ ...` header line in the backing text.
    pub header: Range<usize>,
    pub lines: Vec<DiffLine>,
}

/// The reviewable unit: a hunk under the name that the interface gives it.
pub type Chunk = Hunk;

/// A fully parsed diff for one file.
#[derive(Debug)]
pub struct FileDiff {
    pub path: String,
    /// The complete `git diff` output, owned once.
    pub text: String,
    pub chunks: Vec<Hunk>,
    pub is_binary: bool,
}

/// A chunk as a mathematical value.
#[verifier::ext_equal]
pub struct HunkModel {
    pub header: Range<usize>,
    pub lines: Seq<DiffLine>,
}

/// A file diff as a mathematical value.
#[verifier::ext_equal]
pub struct DiffModel {
    pub path: Seq<char>,
    pub text: Seq<char>,
    pub chunks: Seq<HunkModel>,
    pub is_binary: bool,
}

impl View for Hunk {
    type V = HunkModel;

    open spec fn view(&self) -> HunkModel {
        HunkModel { header: self.header, lines: self.lines@ }
    }
}

/// The chunks of a list, as mathematical values.
pub open spec fn hunk_models(chunks: Seq<Hunk>) -> Seq<HunkModel> {
    chunks.map_values(|h: Hunk| h@)
}

impl View for FileDiff {
    type V = DiffModel;

    open spec fn view(&self) -> DiffModel {
        DiffModel {
            path: self.path@,
            text: self.text@,
            chunks: hunk_models(self.chunks@),
            is_binary: self.is_binary,
        }
    }
}

impl Clone for DiffLine {
    fn clone(&self) -> (r: Self)
        ensures
            r == *self,
    {
        DiffLine {
            kind: self.kind,
            old_no: self.old_no,
            new_no: self.new_no,
            text: self.text.start..self.text.end,
        }
    }
}

impl Clone for Hunk {
    fn clone(&self) -> (r: Self)
        ensures
            r@ == self@,
    {
        let mut lines: Vec<DiffLine> = Vec::new();
        let n = self.lines.len();
        for i in 0..n
            invariant
                n == self.lines@.len(),
                lines@ == self.lines@.take(i as int),
        {
            lines.push(self.lines[i].clone());
            assert(self.lines@.take(i + 1) =~= self.lines@.take(i as int).push(
                self.lines@[i as int],
            ));
        }
        assert(self.lines@.take(n as int) =~= self.lines@);
        Hunk { header: self.header.start..self.header.end, lines }
    }
}

impl Clone for FileDiff {
    fn clone(&self) -> (r: Self)
        ensures
            r@ == self@,
    {
        let mut chunks: Vec<Hunk> = Vec::new();
        let n = self.chunks.len();
        for i in 0..n
            invariant
                n == self.chunks@.len(),
                hunk_models(chunks@) == self@.chunks.take(i as int),
        {
            let h = self.chunks[i].clone();
            let ghost before = chunks@;
            chunks.push(h);
            assert(hunk_models(chunks@) =~= hunk_models(before).push(h@));
            assert(self@.chunks.take(i + 1) =~= self@.chunks.take(i as int).push(h@));
        }
        assert(self@.chunks.take(n as int) =~= self@.chunks);
        FileDiff {
            path: self.path.clone(),
            text: self.text.clone(),
            chunks,
            is_binary: self.is_binary,
        }
    }
}

/// The number of lines of `kind` among `lines`.
pub open spec fn count_kind(lines: Seq<DiffLine>, kind: LineKind) -> nat
    decreases lines.len(),
{
    if lines.len() == 0 {
        0
    } else {
        count_kind(lines.drop_last(), kind) + if lines.last().kind == kind {
            1nat
        } else {
            0nat
        }
    }
}

/// The number of lines of `kind` in all of `chunks`.
pub open spec fn count_in_chunks(chunks: Seq<HunkModel>, kind: LineKind) -> nat
    decreases chunks.len(),
{
    if chunks.len() == 0 {
        0
    } else {
        count_in_chunks(chunks.drop_last(), kind) + count_kind(chunks.last().lines, kind)
    }
}

/// A count in 32 bits: what is left of it modulo 2^32.
pub open spec fn low_bits(n: nat) -> u32 {
    (n % 0x1_0000_0000) as u32
}

impl HunkModel {
    /// Every range of the chunk is one of `text`.
    pub open spec fn in_text(self, text: Seq<char>) -> bool {
        &&& text_range(text, self.header.start as int, self.header.end as int)
        &&& forall|i: int|
            0 <= i < self.lines.len() ==> text_range(
                text,
                (#[trigger] self.lines[i]).text.start as int,
                self.lines[i].text.end as int,
            )
    }
}

impl DiffModel {
    /// Every range of the diff is one of its text.
    pub open spec fn wf(self) -> bool {
        forall|i: int| 0 <= i < self.chunks.len() ==> (#[trigger] self.chunks[i]).in_text(self.text)
    }
}

/// The lines of `kind` in `lines`, counted on top of `start`.
fn count_lines(lines: &Vec<DiffLine>, kind: LineKind, start: u32) -> (r: u32)
    ensures
        r == low_bits((start + count_kind(lines@, kind)) as nat),
{
    let mut count: u32 = start;
    let n = lines.len();
    for i in 0..n
        invariant
            n == lines@.len(),
            count == low_bits((start + count_kind(lines@.take(i as int), kind)) as nat),
    {
        proof {
            lemma_take_step(lines@, i as int);
        }
        if lines[i].kind == kind {
            count = count.wrapping_add(1);
        }
    }
    assert(lines@.take(n as int) =~= lines@);
    count
}

impl FileDiff {
    /// Slice the backing text for a stored range.
    pub fn slice(&self, r: &Range<usize>) -> (s: &str)
        requires
            text_range(self@.text, r.start as int, r.end as int),
        ensures
            s@ == text_slice(self@.text, r.start as int, r.end as int),
            encode_utf8(s@) == encode_utf8(self@.text).subrange(r.start as int, r.end as int),
    {
        slice_str(self.text.as_str(), r.start, r.end)
    }

    fn count(&self, kind: LineKind) -> (r: u32)
        ensures
            r == low_bits(count_in_chunks(self@.chunks, kind)),
    {
        let mut count: u32 = 0;
        let n = self.chunks.len();
        for i in 0..n
            invariant
                n == self.chunks@.len(),
                count == low_bits(count_in_chunks(self@.chunks.take(i as int), kind)),
        {
            proof {
                lemma_take_step(self@.chunks, i as int);
            }
            count = count_lines(&self.chunks[i].lines, kind, count);
        }
        assert(self@.chunks.take(n as int) =~= self@.chunks);
        count
    }

    /// The number of added lines.
    pub fn additions(&self) -> (r: u32)
        ensures
            r == low_bits(count_in_chunks(self@.chunks, LineKind::Add)),
    {
        self.count(LineKind::Add)
    }

    /// The number of deleted lines.
    pub fn deletions(&self) -> (r: u32)
        ensures
            r == low_bits(count_in_chunks(self@.chunks, LineKind::Del)),
    {
        self.count(LineKind::Del)
    }
}

} // verus!
