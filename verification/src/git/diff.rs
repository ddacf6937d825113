//! Parse what `git diff` prints for one file, and split what it prints for many.
//!
//! The parser is a small line-by-line state machine over git's unified-diff
//! output; its cost is linear in the size of the diff.

use std::ops::Range;
use std::sync::Arc;

use vstd::hash_map::StringHashMap;
use vstd::prelude::*;
use vstd::slice::slice_subrange;
use vstd::utf8::*;

use crate::model::diff::{
    count_in_chunks, count_kind, hunk_models, low_bits, DiffLine, DiffModel, FileDiff, Hunk, HunkModel, LineKind,
};
use crate::git::numstat::content_model;
use crate::git::segment::{classify_model, classify_segment};
use crate::model::file::{ChangedFile, FileModel, KindModel};
use crate::model::review::{FileHashes, HashesModel};
use crate::text::{
    append_bytes, before, begins, begins_with, chars_of, deep, find_from, first_occurrence,
    lemma_line_is_text_range, lemma_line_ranges, lemma_lines_ordered, lemma_take_step, length_before, line_range_ok,
    line_ranges, lossy_string, number_of, owned, parse_number, range_begins, range_model, slice_str, split_lines,
    split_words, strings, text_range, text_slice, utf8_lossy, words, NEWLINE,
};

verus! {

// ── what git is asked ──────────────────────────────────────────────────────

/// The left-hand side of the diff. Normally `HEAD`; when the repository has no
/// commits yet, git's well-known empty-tree object, so that staged and tracked
/// files still show as additions.
#[derive(Debug, Clone, Copy, PartialEq, Eq, Structural)]
pub enum DiffBase {
    Head,
    EmptyTree,
}

impl DiffBase {
    /// How git names the base. The empty tree's object id is the same in all
    /// repositories.
    pub open spec fn arg(self) -> Seq<char> {
        match self {
            DiffBase::Head => "HEAD"@,
            DiffBase::EmptyTree => "4b825dc642cb6eb9a060e54bf8d69288fbee4904"@,
        }
    }

    pub fn as_arg(&self) -> (r: &'static str)
        ensures
            r@ == self.arg(),
    {
        match self {
            DiffBase::Head => "HEAD",
            DiffBase::EmptyTree => "4b825dc642cb6eb9a060e54bf8d69288fbee4904",
        }
    }
}

/// What git is asked to find out whether `HEAD` resolves.
pub fn head_args() -> (r: Vec<String>)
    ensures
        strings(r@) == seq!["rev-parse"@, "--verify"@, "--quiet"@, "HEAD"@],
{
    let r = owned(&["rev-parse", "--verify", "--quiet", "HEAD"]);
    assert(strings(r@) =~= seq!["rev-parse"@, "--verify"@, "--quiet"@, "HEAD"@]);
    r
}

/// The base of the diff, by whether the repository has a resolvable `HEAD`.
pub fn detect_base(head_resolves: bool) -> (r: DiffBase)
    ensures
        r == if head_resolves {
            DiffBase::Head
        } else {
            DiffBase::EmptyTree
        },
{
    if head_resolves {
        DiffBase::Head
    } else {
        DiffBase::EmptyTree
    }
}

/// What git is asked for the diff of a file. An untracked file has no blob in the
/// base, so its diff is made against nothing.
pub open spec fn diff_args_of(base: DiffBase, file: FileModel) -> Seq<Seq<char>> {
    if file.kind == KindModel::Untracked {
        seq![
            "diff"@,
            "--no-color"@,
            "--no-ext-diff"@,
            "--no-index"@,
            "--"@,
            "/dev/null"@,
            file.path,
        ]
    } else {
        seq!["diff"@, "--no-color"@, "--no-ext-diff"@, "-M"@, base.arg(), "--"@, file.path]
    }
}

/// What git is asked for the diff of `file`.
pub fn diff_args(base: DiffBase, file: &ChangedFile) -> (r: Vec<String>)
    ensures
        strings(r@) == diff_args_of(base, file@),
{
    let path = file.path.as_str();
    let r = if file.kind.is_untracked() {
        owned(&["diff", "--no-color", "--no-ext-diff", "--no-index", "--", "/dev/null", path])
    } else {
        owned(&["diff", "--no-color", "--no-ext-diff", "-M", base.as_arg(), "--", path])
    };
    assert(strings(r@) =~= diff_args_of(base, file@));
    r
}

/// The diff of the file at `path`, from git's answer.
pub fn fetch_file_diff(path: &str, out: &[u8]) -> (r: FileDiff)
    ensures
        r@ == parse_model(utf8_lossy(out@), path@),
        r@.wf(),
{
    parse_unified(lossy_string(out), path.to_owned())
}

// ── chunk headers ──────────────────────────────────────────────────────────

/// The part of a chunk header between its `@@` delimiters.
pub open spec fn header_core(h: Seq<char>) -> Seq<char> {
    let after = if begins(h, "@@"@) {
        h.skip("@@"@.len() as int)
    } else {
        h
    };
    match first_occurrence(after, "@@"@, 0) {
        Some(i) => after.take(i),
        None => after,
    }
}

/// The first line number of a `start[,count]` field; 0 where it is no number.
pub open spec fn field_start(field: Seq<char>) -> u32 {
    match number_of(before(field, ',')) {
        Some(n) => n,
        None => 0,
    }
}

/// The first old and new line number that the words of a chunk header give: the
/// last word with `-` gives the old one and the last with `+` the new one.
pub open spec fn header_starts(fields: Seq<Seq<char>>) -> (u32, u32)
    decreases fields.len(),
{
    if fields.len() == 0 {
        (0, 0)
    } else {
        let (old_start, new_start) = header_starts(fields.drop_last());
        let field = fields.last();
        if field.len() > 0 && field[0] == '-' {
            (field_start(field.skip(1)), new_start)
        } else if field.len() > 0 && field[0] == '+' {
            (old_start, field_start(field.skip(1)))
        } else {
            (old_start, new_start)
        }
    }
}

/// The first old and new line number of the chunk with this header.
pub open spec fn chunk_starts(h: Seq<char>) -> (u32, u32) {
    header_starts(words(header_core(h)))
}

fn parse_field_start(field: &[char]) -> (r: u32)
    ensures
        r == field_start(field@),
{
    let n = length_before(field, ',');
    match parse_number(slice_subrange(field, 0, n)) {
        Some(v) => v,
        None => 0,
    }
}

/// Parse the `-old_start[,n]` / `+new_start[,n]` fields of a chunk header,
/// returning the starting line numbers. Only looks inside the `@@ ... @@`
/// delimiters so a trailing function-context string can't confuse it.
pub fn parse_chunk_header(h: &str) -> (r: (u32, u32))
    ensures
        r == chunk_starts(h@),
{
    let chars = chars_of(h);
    let marker = chars_of("@@");
    let mut from: usize = 0;
    if begins_with(chars.as_slice(), "@@") {
        from = marker.len();
    }
    let after = slice_subrange(chars.as_slice(), from, chars.len());
    assert(after@ =~= if begins(h@, "@@"@) { h@.skip("@@"@.len() as int) } else { h@ });
    let end = match find_from(after, marker.as_slice(), 0) {
        Some(i) => i,
        None => after.len(),
    };
    let core = slice_subrange(after, 0, end);
    assert(core@ =~= header_core(h@));
    let fields = split_words(core);
    let ghost model = deep(fields@);
    let mut old_start: u32 = 0;
    let mut new_start: u32 = 0;
    let n = fields.len();
    for i in 0..n
        invariant
            n == fields@.len(),
            model == deep(fields@),
            (old_start, new_start) == header_starts(model.take(i as int)),
    {
        proof {
            lemma_take_step(model, i as int);
        }
        let field = fields[i].as_slice();
        assert(field@ == model[i as int]);
        if field.len() > 0 {
            let rest = slice_subrange(field, 1, field.len());
            assert(rest@ =~= field@.skip(1));
            if field[0] == '-' {
                old_start = parse_field_start(rest);
            } else if field[0] == '+' {
                new_start = parse_field_start(rest);
            }
        }
    }
    assert(model.take(n as int) =~= model);
    (old_start, new_start)
}

// ── the unified format ─────────────────────────────────────────────────────

/// The state of the parser after some lines: the chunks so far, the numbers that
/// the next old and new line get, and whether a binary marker was seen.
#[verifier::ext_equal]
pub struct ParseModel {
    pub chunks: Seq<HunkModel>,
    pub old_no: u32,
    pub new_no: u32,
    pub is_binary: bool,
}

/// The line number behind `n`. Line numbers have 32 bits and wrap.
pub open spec fn next_no(n: u32) -> u32 {
    ((n + 1) % 0x1_0000_0000) as u32
}

pub open spec fn byte_range(start: int, end: int) -> Range<usize> {
    Range { start: start as usize, end: end as usize }
}

/// What a line of a chunk body stands for, by its first byte.
pub open spec fn body_line(
    line: Seq<u8>,
    r: (int, int),
    old_no: u32,
    new_no: u32,
) -> Option<DiffLine> {
    if line.len() == 0 {
        None
    } else if line[0] == 0x2b {  // '+'
        Some(
            DiffLine {
                kind: LineKind::Add,
                old_no: None,
                new_no: Some(new_no),
                text: byte_range(r.0 + 1, r.1),
            },
        )
    } else if line[0] == 0x2d {  // '-'
        Some(
            DiffLine {
                kind: LineKind::Del,
                old_no: Some(old_no),
                new_no: None,
                text: byte_range(r.0 + 1, r.1),
            },
        )
    } else if line[0] == 0x20 {  // ' '
        Some(
            DiffLine {
                kind: LineKind::Context,
                old_no: Some(old_no),
                new_no: Some(new_no),
                text: byte_range(r.0 + 1, r.1),
            },
        )
    } else if line[0] == 0x5c {  // '\\'
        Some(
            DiffLine {
                kind: LineKind::NoNewline,
                old_no: None,
                new_no: None,
                text: byte_range(r.0, r.1),
            },
        )
    } else {
        None
    }
}

/// The chunks with `line` appended to the last one.
pub open spec fn append_line(chunks: Seq<HunkModel>, line: DiffLine) -> Seq<HunkModel> {
    chunks.drop_last().push(
        HunkModel { header: chunks.last().header, lines: chunks.last().lines.push(line) },
    )
}

/// The parser's state after the line in bytes `r` of `text`.
pub open spec fn parse_step(text: Seq<char>, st: ParseModel, r: (int, int)) -> ParseModel {
    let line = encode_utf8(text).subrange(r.0, r.1);
    if begins(line, encode_utf8("@@"@)) {
        let (old_no, new_no) = chunk_starts(text_slice(text, r.0, r.1));
        ParseModel {
            chunks: st.chunks.push(
                HunkModel { header: byte_range(r.0, r.1), lines: Seq::empty() },
            ),
            old_no,
            new_no,
            is_binary: st.is_binary,
        }
    } else if begins(line, encode_utf8("Binary files"@)) || begins(
        line,
        encode_utf8("GIT binary patch"@),
    ) {
        ParseModel { is_binary: true, ..st }
    } else if st.chunks.len() == 0 {
        st
    } else {
        match body_line(line, r, st.old_no, st.new_no) {
            Some(l) => ParseModel {
                chunks: append_line(st.chunks, l),
                old_no: if l.old_no is Some {
                    next_no(st.old_no)
                } else {
                    st.old_no
                },
                new_no: if l.new_no is Some {
                    next_no(st.new_no)
                } else {
                    st.new_no
                },
                is_binary: st.is_binary,
            },
            None => st,
        }
    }
}

/// The parser's state after the lines in the byte ranges `lines` of `text`.
pub open spec fn parse_lines(text: Seq<char>, lines: Seq<(int, int)>) -> ParseModel
    decreases lines.len(),
{
    if lines.len() == 0 {
        ParseModel { chunks: Seq::empty(), old_no: 0, new_no: 0, is_binary: false }
    } else {
        parse_step(text, parse_lines(text, lines.drop_last()), lines.last())
    }
}

/// The diff that `text` writes in the unified format.
pub open spec fn parse_model(text: Seq<char>, path: Seq<char>) -> DiffModel {
    let st = parse_lines(text, line_ranges(encode_utf8(text)));
    DiffModel { path, text, chunks: st.chunks, is_binary: st.is_binary }
}

/// A body line whose first byte is ASCII: what follows it is a range of the text.
proof fn lemma_body_range(text: Seq<char>, r: (int, int))
    requires
        line_range_ok(encode_utf8(text), r),
        r.0 < r.1,
        encode_utf8(text)[r.0] < 0x80,
    ensures
        text_range(text, r.0 + 1, r.1),
{
    lemma_line_is_text_range(text, r);
    encode_utf8_valid_utf8(text);
    crate::text::lemma_boundary_after_ascii(encode_utf8(text), r.0);
}

/// All ranges that the parser makes are ranges of the text.
pub proof fn lemma_parse_in_text(text: Seq<char>, lines: Seq<(int, int)>)
    requires
        forall|i: int| 0 <= i < lines.len() ==> line_range_ok(encode_utf8(text), #[trigger] lines[i]),
        encode_utf8(text).len() <= usize::MAX,
    ensures
        forall|i: int|
            0 <= i < parse_lines(text, lines).chunks.len() ==> (#[trigger] parse_lines(
                text,
                lines,
            ).chunks[i]).in_text(text),
    decreases lines.len(),
{
    if lines.len() > 0 {
        let st = parse_lines(text, lines.drop_last());
        let r = lines.last();
        assert forall|i: int| 0 <= i < lines.drop_last().len() implies line_range_ok(
            encode_utf8(text),
            #[trigger] lines.drop_last()[i],
        ) by {
            assert(lines[i] == lines.drop_last()[i]);
        }
        lemma_parse_in_text(text, lines.drop_last());
        lemma_line_is_text_range(text, r);
        let line = encode_utf8(text).subrange(r.0, r.1);
        if line.len() > 0 {
            assert(line[0] == encode_utf8(text)[r.0]);
            if line[0] < 0x80 {
                lemma_body_range(text, r);
            }
        }
        let chunks = parse_lines(text, lines).chunks;
        assert forall|i: int| 0 <= i < chunks.len() implies (#[trigger] chunks[i]).in_text(
            text,
        ) by {
            if i < st.chunks.len() {
                assert(st.chunks[i].in_text(text));
            }
        }
    }
}

/// Parse unified-diff `text` into a [`FileDiff`]. Header preamble lines
/// (`diff --git`, `index`, `---`, `+++`, mode lines) before the first `@@` are
/// skipped; only chunk bodies are kept.
pub fn parse_unified(text: String, path: String) -> (r: FileDiff)
    ensures
        r@ == parse_model(text@, path@),
        r@.wf(),
{
    let bytes = text.as_str().as_bytes();
    let size = bytes.len();
    let lines = split_lines(bytes);
    let ghost ranges = line_ranges(encode_utf8(text@));
    let mut chunks: Vec<Hunk> = Vec::new();
    let mut open: bool = false;
    let mut header: Range<usize> = 0..0;
    let mut body: Vec<DiffLine> = Vec::new();
    let mut old_no: u32 = 0;
    let mut new_no: u32 = 0;
    let mut is_binary: bool = false;
    let n = lines.len();
    for i in 0..n
        invariant
            n == lines@.len(),
            bytes@ == encode_utf8(text@),
            bytes@.len() == size,
            ranges == line_ranges(bytes@),
            lines@.map_values(|p: (usize, usize)| range_model(p)) == ranges,
            forall|k: int| 0 <= k < lines@.len() ==> line_range_ok(bytes@, range_model(#[trigger] lines@[k])),
            ({
                let st = parse_lines(text@, ranges.take(i as int));
                &&& st.old_no == old_no
                &&& st.new_no == new_no
                &&& st.is_binary == is_binary
                &&& st.chunks == if open {
                    hunk_models(chunks@).push(HunkModel { header, lines: body@ })
                } else {
                    hunk_models(chunks@)
                }
                &&& !open ==> chunks@.len() == 0
            }),
    {
        proof {
            lemma_take_step(ranges, i as int);
            assert(ranges[i as int] == range_model(lines@[i as int]));
            lemma_line_is_text_range(text@, ranges[i as int]);
        }
        let (start, end) = lines[i];
        let ghost st = parse_lines(text@, ranges.take(i as int));
        let ghost next = parse_lines(text@, ranges.take(i + 1));
        let ghost line = bytes@.subrange(start as int, end as int);
        assert(next == parse_step(text@, st, (start as int, end as int)));
        let ghost opened = hunk_models(chunks@).push(HunkModel { header, lines: body@ });
        if range_begins(bytes, start, end, "@@") {
            if open {
                let ghost was = chunks@;
                let ghost done = HunkModel { header, lines: body@ };
                chunks.push(Hunk { header, lines: body });
                assert(hunk_models(chunks@) =~= hunk_models(was).push(done));
            }
            let (old_start, new_start) = parse_chunk_header(slice_str(text.as_str(), start, end));
            old_no = old_start;
            new_no = new_start;
            header = start..end;
            body = Vec::new();
            open = true;
            assert(body@ =~= Seq::<DiffLine>::empty());
        } else if range_begins(bytes, start, end, "Binary files") || range_begins(
            bytes,
            start,
            end,
            "GIT binary patch",
        ) {
            is_binary = true;
        } else if open && start < end {
            assert(line[0] == bytes@[start as int]);
            assert(st.chunks.drop_last() =~= hunk_models(chunks@));
            let ghost had = body@;
            match bytes[start] {
                0x2b => {
                    body.push(
                        DiffLine {
                            kind: LineKind::Add,
                            old_no: None,
                            new_no: Some(new_no),
                            text: start + 1..end,
                        },
                    );
                    new_no = new_no.wrapping_add(1);
                },
                0x2d => {
                    body.push(
                        DiffLine {
                            kind: LineKind::Del,
                            old_no: Some(old_no),
                            new_no: None,
                            text: start + 1..end,
                        },
                    );
                    old_no = old_no.wrapping_add(1);
                },
                0x20 => {
                    body.push(
                        DiffLine {
                            kind: LineKind::Context,
                            old_no: Some(old_no),
                            new_no: Some(new_no),
                            text: start + 1..end,
                        },
                    );
                    old_no = old_no.wrapping_add(1);
                    new_no = new_no.wrapping_add(1);
                },
                0x5c => {
                    // "\\ No newline at end of file": keep the whole line.
                    body.push(
                        DiffLine {
                            kind: LineKind::NoNewline,
                            old_no: None,
                            new_no: None,
                            text: start..end,
                        },
                    );
                },
                _ => {},
            }
        }
    }
    assert(ranges.take(n as int) =~= ranges);
    if open {
        let ghost was = chunks@;
        let ghost done = HunkModel { header, lines: body@ };
        chunks.push(Hunk { header, lines: body });
        assert(hunk_models(chunks@) =~= hunk_models(was).push(done));
    }
    proof {
        lemma_line_ranges(bytes@);
        lemma_parse_in_text(text@, ranges);
    }
    FileDiff { path, text, chunks, is_binary }
}

/// The number of `lines` that have a line number on the old side.
pub open spec fn old_lines(lines: Seq<DiffLine>) -> nat {
    count_kind(lines, LineKind::Context) + count_kind(lines, LineKind::Del)
}

/// The number of `lines` that have a line number on the new side.
pub open spec fn new_lines(lines: Seq<DiffLine>) -> nat {
    count_kind(lines, LineKind::Context) + count_kind(lines, LineKind::Add)
}

/// The line at `i` has exactly the numbers of the sides that it stands on: as
/// many behind the start of a side as lines of that side stand before it.
pub open spec fn line_numbered(starts: (u32, u32), lines: Seq<DiffLine>, i: int) -> bool {
    let line = lines[i];
    &&& line.old_no == if line.kind == LineKind::Context || line.kind == LineKind::Del {
        Some(low_bits(starts.0 as nat + old_lines(lines.take(i))))
    } else {
        None
    }
    &&& line.new_no == if line.kind == LineKind::Context || line.kind == LineKind::Add {
        Some(low_bits(starts.1 as nat + new_lines(lines.take(i))))
    } else {
        None
    }
}

/// The lines of a chunk are numbered from the two numbers in its header.
pub open spec fn numbered(text: Seq<char>, chunk: HunkModel) -> bool {
    let starts = chunk_starts(
        text_slice(text, chunk.header.start as int, chunk.header.end as int),
    );
    forall|i: int| 0 <= i < chunk.lines.len() ==> #[trigger] line_numbered(starts, chunk.lines, i)
}

/// The counters that the parser keeps for the next line of the open chunk.
pub open spec fn counters_ok(text: Seq<char>, chunk: HunkModel, old_no: u32, new_no: u32) -> bool {
    let (old_start, new_start) = chunk_starts(
        text_slice(text, chunk.header.start as int, chunk.header.end as int),
    );
    &&& old_no == low_bits(old_start as nat + old_lines(chunk.lines))
    &&& new_no == low_bits(new_start as nat + new_lines(chunk.lines))
}

proof fn lemma_count_push(lines: Seq<DiffLine>, l: DiffLine, kind: LineKind)
    ensures
        count_kind(lines.push(l), kind) == count_kind(lines, kind) + if l.kind == kind {
            1nat
        } else {
            0nat
        },
{
    assert(lines.push(l).drop_last() =~= lines);
}

proof fn lemma_low_bits_next(n: nat)
    ensures
        next_no(low_bits(n)) == low_bits(n + 1),
{
}

#[verifier::spinoff_prover]
proof fn lemma_append_numbered(
    text: Seq<char>,
    chunk: HunkModel,
    line: Seq<u8>,
    r: (int, int),
    old_no: u32,
    new_no: u32,
)
    requires
        numbered(text, chunk),
        counters_ok(text, chunk, old_no, new_no),
        body_line(line, r, old_no, new_no) is Some,
    ensures
        ({
            let l = body_line(line, r, old_no, new_no)->0;
            let next = HunkModel { header: chunk.header, lines: chunk.lines.push(l) };
            &&& numbered(text, next)
            &&& counters_ok(
                text,
                next,
                if l.old_no is Some {
                    next_no(old_no)
                } else {
                    old_no
                },
                if l.new_no is Some {
                    next_no(new_no)
                } else {
                    new_no
                },
            )
        }),
{
    let l = body_line(line, r, old_no, new_no)->0;
    let next = HunkModel { header: chunk.header, lines: chunk.lines.push(l) };
    let starts = chunk_starts(
        text_slice(text, chunk.header.start as int, chunk.header.end as int),
    );
    lemma_count_push(chunk.lines, l, LineKind::Context);
    lemma_count_push(chunk.lines, l, LineKind::Add);
    lemma_count_push(chunk.lines, l, LineKind::Del);
    lemma_low_bits_next(starts.0 as nat + old_lines(chunk.lines));
    lemma_low_bits_next(starts.1 as nat + new_lines(chunk.lines));
    assert(next.lines.take(chunk.lines.len() as int) =~= chunk.lines);
    assert forall|i: int| 0 <= i < next.lines.len() implies #[trigger] line_numbered(
        starts,
        next.lines,
        i,
    ) by {
        if i < chunk.lines.len() {
            assert(line_numbered(starts, chunk.lines, i));
            assert(next.lines.take(i) =~= chunk.lines.take(i));
        }
    }
}

proof fn lemma_numbered(text: Seq<char>, lines: Seq<(int, int)>)
    requires
        forall|i: int| 0 <= i < lines.len() ==> line_range_ok(encode_utf8(text), #[trigger] lines[i]),
        encode_utf8(text).len() <= usize::MAX,
    ensures
        forall|i: int|
            0 <= i < parse_lines(text, lines).chunks.len() ==> numbered(
                text,
                #[trigger] parse_lines(text, lines).chunks[i],
            ),
        parse_lines(text, lines).chunks.len() > 0 ==> counters_ok(
            text,
            parse_lines(text, lines).chunks.last(),
            parse_lines(text, lines).old_no,
            parse_lines(text, lines).new_no,
        ),
    decreases lines.len(),
{
    reveal_strlit("@@");
    if lines.len() > 0 {
        let was = parse_lines(text, lines.drop_last());
        let st = parse_lines(text, lines);
        let r = lines.last();
        let line = encode_utf8(text).subrange(r.0, r.1);
        assert forall|i: int| 0 <= i < lines.drop_last().len() implies line_range_ok(
            encode_utf8(text),
            #[trigger] lines.drop_last()[i],
        ) by {
            assert(lines[i] == lines.drop_last()[i]);
        }
        lemma_numbered(text, lines.drop_last());
        if st.chunks.len() == was.chunks.len() && st.chunks.len() > 0 {
            assert(numbered(text, was.chunks[was.chunks.len() - 1]));
            if body_line(line, r, was.old_no, was.new_no) is Some {
                lemma_append_numbered(text, was.chunks.last(), line, r, was.old_no, was.new_no);
            }
        }
        if st.chunks.len() > was.chunks.len() {
            assert(counters_ok(text, st.chunks.last(), st.old_no, st.new_no));
            assert(numbered(text, st.chunks.last()));
        }
        assert forall|i: int| 0 <= i < st.chunks.len() implies numbered(
            text,
            #[trigger] st.chunks[i],
        ) by {
            if i < st.chunks.len() - 1 {
                assert(st.chunks[i] == was.chunks[i]);
            }
        }
    }
}

/// The line numbers of a parsed diff are right: in every chunk, old and new lines
/// count up from the numbers in the chunk's header.
pub proof fn law_line_numbers(text: Seq<char>, path: Seq<char>)
    requires
        encode_utf8(text).len() <= usize::MAX,
    ensures
        forall|i: int|
            0 <= i < parse_model(text, path).chunks.len() ==> numbered(
                text,
                #[trigger] parse_model(text, path).chunks[i],
            ),
{
    lemma_line_ranges(encode_utf8(text));
    lemma_numbered(text, line_ranges(encode_utf8(text)));
}

// ── hashes ─────────────────────────────────────────────────────────────────

/// The 64-bit SeaHash of `bytes`, with the crate's fixed seeds.
pub uninterp spec fn seahash_of(bytes: Seq<u8>) -> u64;

/// `seahash::hash`: a function of the bytes alone, with seeds that are part of
/// the algorithm. Which number it is, is not said.
#[verifier::external_body]
fn hash_bytes(bytes: &[u8]) -> (r: u64)
    ensures
        r == seahash_of(bytes@),
{
    seahash::hash(bytes)
}

/// Stable, deterministic hash of a diff's text. SeaHash (not the default,
/// per-process-seeded hasher) so a hash persisted this session still matches
/// next session.
pub fn hash_text(text: &str) -> (r: u64)
    ensures
        r == seahash_of(encode_utf8(text@)),
{
    hash_bytes(text.as_bytes())
}

/// The byte that stands for the kind of a line: the marker in front of it in a
/// unified diff.
pub open spec fn kind_byte(kind: LineKind) -> u8 {
    match kind {
        LineKind::Context => 0x20,
        LineKind::Add => 0x2b,
        LineKind::Del => 0x2d,
        LineKind::NoNewline => 0x5c,
    }
}

fn marker_byte(kind: LineKind) -> (r: u8)
    ensures
        r == kind_byte(kind),
{
    match kind {
        LineKind::Context => 0x20,
        LineKind::Add => 0x2b,
        LineKind::Del => 0x2d,
        LineKind::NoNewline => 0x5c,
    }
}

/// The lines, each behind a newline and the marker of its kind.
pub open spec fn lines_bytes(text: Seq<char>, lines: Seq<DiffLine>) -> Seq<u8>
    decreases lines.len(),
{
    if lines.len() == 0 {
        Seq::empty()
    } else {
        let l = lines.last().text;
        lines_bytes(text, lines.drop_last()).push(NEWLINE).push(kind_byte(lines.last().kind))
            + encode_utf8(text).subrange(l.start as int, l.end as int)
    }
}

/// The content of a chunk that its hash covers: the header and every line.
pub open spec fn chunk_bytes(text: Seq<char>, chunk: HunkModel) -> Seq<u8> {
    encode_utf8(text).subrange(chunk.header.start as int, chunk.header.end as int) + lines_bytes(
        text,
        chunk.lines,
    )
}

/// Stable, deterministic content hash of a single chunk: its `@@` header plus
/// every line. Used to key per-chunk reviewed state, so an unchanged chunk stays
/// reviewed across refreshes and only an edited chunk reverts.
pub fn hash_chunk(fd: &FileDiff, chunk: &Hunk) -> (r: u64)
    requires
        chunk@.in_text(fd@.text),
    ensures
        r == seahash_of(chunk_bytes(fd@.text, chunk@)),
{
    let mut buf: Vec<u8> = Vec::new();
    append_bytes(&mut buf, fd.slice(&chunk.header).as_bytes());
    let ghost head = buf@;
    assert(head =~= encode_utf8(fd@.text).subrange(
        chunk.header.start as int,
        chunk.header.end as int,
    ));
    let n = chunk.lines.len();
    assert(head + lines_bytes(fd@.text, chunk.lines@.take(0)) =~= head);
    for i in 0..n
        invariant
            n == chunk.lines@.len(),
            chunk@.in_text(fd@.text),
            buf@ == head + lines_bytes(fd@.text, chunk.lines@.take(i as int)),
    {
        let line = &chunk.lines[i];
        assert(*line == chunk@.lines[i as int]);
        proof {
            lemma_take_step(chunk.lines@, i as int);
        }
        let ghost was = buf@;
        buf.push(NEWLINE);
        buf.push(marker_byte(line.kind));
        append_bytes(&mut buf, fd.slice(&line.text).as_bytes());
        assert(buf@ =~= head + lines_bytes(fd@.text, chunk.lines@.take(i + 1)));
    }
    assert(chunk.lines@.take(n as int) =~= chunk.lines@);
    hash_bytes(buf.as_slice())
}

/// The hashes of a diff.
pub open spec fn hashes_model(d: DiffModel) -> HashesModel {
    HashesModel {
        whole: seahash_of(encode_utf8(d.text)),
        chunks: d.chunks.map_values(|c: HunkModel| seahash_of(chunk_bytes(d.text, c))),
    }
}

/// The whole-diff hash plus a content hash per chunk for an already-parsed diff.
pub fn file_hashes(fd: &FileDiff) -> (r: FileHashes)
    requires
        fd@.wf(),
    ensures
        r@ == hashes_model(fd@),
{
    let mut chunks: Vec<u64> = Vec::new();
    let n = fd.chunks.len();
    for i in 0..n
        invariant
            n == fd.chunks@.len(),
            fd@.wf(),
            chunks@ == hashes_model(fd@).chunks.take(i as int),
    {
        assert(fd@.chunks[i as int].in_text(fd@.text));
        chunks.push(hash_chunk(fd, &fd.chunks[i]));
        proof {
            lemma_take_step(hashes_model(fd@).chunks, i as int);
        }
    }
    assert(hashes_model(fd@).chunks.take(n as int) =~= hashes_model(fd@).chunks);
    FileHashes { whole: hash_text(fd.text.as_str()), chunks }
}

/// The hashes of the files whose diff could be fetched, by path; of two entries
/// for one path the later one counts.
pub open spec fn hashes_by_path(fetched: Seq<(Seq<char>, Option<Seq<u8>>)>) -> Map<
    Seq<char>,
    HashesModel,
>
    decreases fetched.len(),
{
    if fetched.len() == 0 {
        Map::empty()
    } else {
        let was = hashes_by_path(fetched.drop_last());
        let (path, out) = fetched.last();
        match out {
            Some(out) => was.insert(path, hashes_model(parse_model(utf8_lossy(out), path))),
            None => was,
        }
    }
}

/// The models of a map of hashes.
pub open spec fn hash_models(m: Map<Seq<char>, FileHashes>) -> Map<Seq<char>, HashesModel> {
    m.map_values(|h: FileHashes| h@)
}

pub open spec fn fetched_models(v: Seq<(String, Option<Vec<u8>>)>) -> Seq<
    (Seq<char>, Option<Seq<u8>>),
> {
    v.map_values(|e: (String, Option<Vec<u8>>)| (e.0@, content_model(e.1)))
}

/// Compute current diff hashes for the given files, each with what git printed
/// for it. Files whose diff can't be fetched are left out.
pub fn diff_hashes_for(fetched: &Vec<(String, Option<Vec<u8>>)>) -> (r: StringHashMap<FileHashes>)
    ensures
        hash_models(r@) == hashes_by_path(fetched_models(fetched@)),
{
    let mut map: StringHashMap<FileHashes> = StringHashMap::new();
    let ghost model = fetched_models(fetched@);
    let n = fetched.len();
    assert(hash_models(map@) =~= hashes_by_path(model.take(0)));
    for i in 0..n
        invariant
            n == fetched@.len(),
            model == fetched_models(fetched@),
            hash_models(map@) == hashes_by_path(model.take(i as int)),
    {
        proof {
            lemma_take_step(model, i as int);
        }
        assert(model[i as int] == (fetched@[i as int].0@, content_model(fetched@[i as int].1)));
        if let Some(out) = &fetched[i].1 {
            let path = fetched[i].0.as_str();
            let fd = fetch_file_diff(path, out.as_slice());
            let hashes = file_hashes(&fd);
            let ghost was = map@;
            map.insert(path.to_owned(), hashes);
            assert(hash_models(map@) =~= hash_models(was).insert(path@, hashes@));
        }
    }
    assert(model.take(n as int) =~= model);
    map
}

/// Chunks with the same header and the same lines have the same hash, whatever
/// else their diffs hold.
pub proof fn law_chunk_hash_is_local(a: DiffModel, i: int, b: DiffModel, j: int)
    requires
        0 <= i < a.chunks.len(),
        0 <= j < b.chunks.len(),
        chunk_bytes(a.text, a.chunks[i]) == chunk_bytes(b.text, b.chunks[j]),
    ensures
        hashes_model(a).chunks[i] == hashes_model(b).chunks[j],
{
}

// ── diffs of many files ────────────────────────────────────────────────────

/// Whether a line begins the segment of a file, and if so whether it is one of a
/// combined (merge) diff.
pub open spec fn segment_mark(line: Seq<u8>) -> Option<bool> {
    if begins(line, encode_utf8("diff --git "@)) {
        Some(false)
    } else if begins(line, encode_utf8("diff --cc "@)) || begins(
        line,
        encode_utf8("diff --combined "@),
    ) {
        Some(true)
    } else {
        None
    }
}

/// Where the segments begin that the lines open, and which of them are combined.
pub open spec fn segment_starts(b: Seq<u8>, lines: Seq<(int, int)>) -> Seq<(int, bool)>
    decreases lines.len(),
{
    if lines.len() == 0 {
        Seq::empty()
    } else {
        let r = lines.last();
        match segment_mark(b.subrange(r.0, r.1)) {
            Some(combined) => segment_starts(b, lines.drop_last()).push((r.0, combined)),
            None => segment_starts(b, lines.drop_last()),
        }
    }
}

/// Where segment `i` ends: at the next one, or at the end of the text.
pub open spec fn segment_end(starts: Seq<(int, bool)>, i: int, len: int) -> int {
    if i + 1 < starts.len() {
        starts[i + 1].0
    } else {
        len
    }
}

/// The file and the diff that one segment writes.
pub open spec fn segment_entry(segment: Seq<char>) -> (FileModel, DiffModel) {
    let (path, kind) = classify_model(segment);
    let diff = parse_model(segment, path);
    (
        FileModel {
            path,
            kind,
            additions: low_bits(count_in_chunks(diff.chunks, LineKind::Add)),
            deletions: low_bits(count_in_chunks(diff.chunks, LineKind::Del)),
        },
        diff,
    )
}

/// The entries of the first `n` segments, combined ones left out.
pub open spec fn split_upto(text: Seq<char>, starts: Seq<(int, bool)>, n: int) -> Seq<
    (FileModel, DiffModel),
>
    decreases n,
{
    if n <= 0 {
        Seq::empty()
    } else if starts[n - 1].1 {
        split_upto(text, starts, n - 1)
    } else {
        let end = segment_end(starts, n - 1, encode_utf8(text).len() as int);
        split_upto(text, starts, n - 1).push(
            segment_entry(text_slice(text, starts[n - 1].0, end)),
        )
    }
}

/// The files and diffs that an aggregate diff writes.
pub open spec fn split_model(text: Seq<char>) -> Seq<(FileModel, DiffModel)> {
    let b = encode_utf8(text);
    let starts = segment_starts(b, line_ranges(b));
    split_upto(text, starts, starts.len() as int)
}

/// The models of a list of files with their diffs.
pub open spec fn entry_models(v: Seq<(ChangedFile, Arc<FileDiff>)>) -> Seq<(FileModel, DiffModel)> {
    v.map_values(|e: (ChangedFile, Arc<FileDiff>)| (e.0@, e.1@))
}

/// Segments begin where lines begin, in order.
pub proof fn lemma_segment_starts(text: Seq<char>, n: int)
    requires
        0 <= n <= line_ranges(encode_utf8(text)).len(),
    ensures
        ({
            let b = encode_utf8(text);
            let starts = segment_starts(b, line_ranges(b).take(n));
            &&& forall|i: int|
                0 <= i < starts.len() ==> is_char_boundary(b, (#[trigger] starts[i]).0) && 0
                    <= starts[i].0 <= b.len()
            &&& forall|i: int, j: int|
                0 <= i < j < starts.len() ==> (#[trigger] starts[i]).0 <= (
                #[trigger] starts[j]).0
            &&& forall|i: int|
                0 <= i < starts.len() && n < line_ranges(b).len() ==> (#[trigger] starts[i]).0
                    <= line_ranges(b)[n].0
        }),
    decreases n,
{
    let b = encode_utf8(text);
    let lines = line_ranges(b);
    lemma_line_ranges(b);
    if n > 0 {
        lemma_take_step(lines, n - 1);
        lemma_segment_starts(text, n - 1);
        lemma_line_is_text_range(text, lines[n - 1]);
        if n < lines.len() {
            lemma_lines_ordered(b, n - 1, n);
        }
        let was = segment_starts(b, lines.take(n - 1));
        let now = segment_starts(b, lines.take(n));
        assert(line_range_ok(b, lines[n - 1]));
        assert forall|i: int, j: int| 0 <= i < j < now.len() implies (#[trigger] now[i]).0 <= (
        #[trigger] now[j]).0 by {
            assert(now[i] == was[i]);
            if j < was.len() {
                assert(now[j] == was[j]);
            }
        }
        assert forall|i: int| 0 <= i < now.len() implies is_char_boundary(b, (
        #[trigger] now[i]).0) && 0 <= now[i].0 <= lines[n - 1].0 by {
            if i < was.len() {
                assert(now[i] == was[i]);
            }
        }
    }
}

/// Split an aggregate unified diff (many files, as produced by `git diff` /
/// `git show` / `git log -p`) into per-file `(ChangedFile, FileDiff)` pairs.
///
/// Each file segment starts at a `diff --git ` line and runs to the next one (or
/// to the end); anything before the first segment (commit message, `git show`
/// header) is ignored. Combined diffs (`diff --cc` / `diff --combined`, with
/// `@@@` markers from merges) are skipped, since the unified parser can't read
/// their multi-column markers.
pub fn split_unified(text: &str) -> (r: Vec<(ChangedFile, Arc<FileDiff>)>)
    ensures
        entry_models(r@) == split_model(text@),
        forall|i: int| 0 <= i < r@.len() ==> (#[trigger] r@[i]).1@.wf(),
{
    let bytes = text.as_bytes();
    let size = bytes.len();
    let lines = split_lines(bytes);
    let ghost ranges = line_ranges(bytes@);
    let mut headers: Vec<(usize, bool)> = Vec::new();
    let ghost mark = |h: (usize, bool)| (h.0 as int, h.1);
    let n = lines.len();
    for i in 0..n
        invariant
            n == lines@.len(),
            size == bytes@.len(),
            mark == (|h: (usize, bool)| (h.0 as int, h.1)),
            ranges == line_ranges(bytes@),
            lines@.map_values(|p: (usize, usize)| range_model(p)) == ranges,
            forall|k: int| 0 <= k < lines@.len() ==> line_range_ok(bytes@, range_model(#[trigger] lines@[k])),
            headers@.map_values(mark) == segment_starts(bytes@, ranges.take(i as int)),
    {
        proof {
            lemma_take_step(ranges, i as int);
            assert(ranges[i as int] == range_model(lines@[i as int]));
        }
        let (start, end) = lines[i];
        let ghost was = headers@;
        if range_begins(bytes, start, end, "diff --git ") {
            headers.push((start, false));
            assert(headers@.map_values(mark) =~= was.map_values(mark).push((start as int, false)));
        } else if range_begins(bytes, start, end, "diff --cc ") || range_begins(
            bytes,
            start,
            end,
            "diff --combined ",
        ) {
            headers.push((start, true));
            assert(headers@.map_values(mark) =~= was.map_values(mark).push((start as int, true)));
        }
    }
    assert(ranges.take(n as int) =~= ranges);
    let ghost starts = segment_starts(bytes@, ranges);
    proof {
        lemma_segment_starts(text@, n as int);
    }
    let mut out: Vec<(ChangedFile, Arc<FileDiff>)> = Vec::new();
    let m = headers.len();
    for i in 0..m
        invariant
            m == headers@.len(),
            size == bytes@.len(),
            bytes@ == encode_utf8(text@),
            mark == (|h: (usize, bool)| (h.0 as int, h.1)),
            headers@.map_values(mark) == starts,
            forall|k: int|
                0 <= k < starts.len() ==> is_char_boundary(bytes@, (#[trigger] starts[k]).0) && 0
                    <= starts[k].0 <= bytes@.len(),
            forall|j: int, k: int|
                0 <= j < k < starts.len() ==> (#[trigger] starts[j]).0 <= (
                #[trigger] starts[k]).0,
            entry_models(out@) == split_upto(text@, starts, i as int),
            forall|k: int| 0 <= k < out@.len() ==> (#[trigger] out@[k]).1@.wf(),
    {
        let (start, combined) = headers[i];
        assert(starts[i as int] == mark(headers@[i as int]));
        if !combined {
            let end = if i + 1 < m {
                assert(starts[i + 1] == mark(headers@[i + 1]));
                headers[i + 1].0
            } else {
                size
            };
            proof {
                encode_utf8_valid_utf8(text@);
                is_char_boundary_start_end_of_seq(bytes@);
            }
            let segment = slice_str(text, start, end);
            let (path, kind) = classify_segment(segment);
            let fd = Arc::new(parse_unified(segment.to_owned(), path.clone()));
            let mut cf = ChangedFile::new(path, kind);
            cf.additions = fd.additions();
            cf.deletions = fd.deletions();
            let ghost was = out@;
            let ghost entry = (cf@, fd@);
            out.push((cf, fd));
            assert(entry_models(out@) =~= entry_models(was).push(entry));
            assert(entry == segment_entry(segment@));
        }
    }
    out
}

/// A diff has one hash for each of its chunks, in order, and one for its whole text.
pub proof fn law_hashes_of_diff(d: DiffModel, i: int)
    requires
        0 <= i < d.chunks.len(),
    ensures
        hashes_model(d).chunks.len() == d.chunks.len(),
        hashes_model(d).chunks[i] == seahash_of(chunk_bytes(d.text, d.chunks[i])),
        hashes_model(d).whole == seahash_of(encode_utf8(d.text)),
{
}

/// The hashes of a path are those of git's last answer for it; a path that git gave no
/// answer for has none.
pub proof fn law_hashes_by_path(
    fetched: Seq<(Seq<char>, Option<Seq<u8>>)>,
    path: Seq<char>,
    i: int,
)
    requires
        0 <= i <= fetched.len(),
        i < fetched.len() ==> fetched[i].0 == path && fetched[i].1 is Some,
        forall|j: int|
            i < j < fetched.len() || (i == fetched.len() && 0 <= j < fetched.len())
                ==> (#[trigger] fetched[j]).0 != path || fetched[j].1 is None,
    ensures
        i < fetched.len() ==> hashes_by_path(fetched).contains_key(path) && hashes_by_path(
            fetched,
        )[path] == hashes_model(parse_model(utf8_lossy(fetched[i].1->0), path)),
        i == fetched.len() ==> !hashes_by_path(fetched).contains_key(path),
    decreases fetched.len(),
{
    if fetched.len() > 0 {
        let was = fetched.drop_last();
        let last = fetched.len() - 1;
        assert(fetched[last] == fetched.last());
        if i != last {
            let k = if i == fetched.len() {
                was.len() as int
            } else {
                i
            };
            assert forall|j: int|
                k < j < was.len() || (k == was.len() && 0 <= j < was.len()) implies (
            #[trigger] was[j]).0 != path || was[j].1 is None by {
                assert(was[j] == fetched[j]);
            }
            assert(fetched[last].0 != path || fetched[last].1 is None);
            law_hashes_by_path(was, path, k);
        }
    }
}

/// git is asked for the diff of one file without colours, and of that file alone: its
/// path comes last. A file that git does not know is compared with nothing, any other
/// one with the base, so that a rename is found.
pub proof fn law_diff_args(base: DiffBase, file: FileModel)
    ensures
        ({
            let args = diff_args_of(base, file);
            let new = file.kind == KindModel::Untracked;
            &&& args[0] == "diff"@
            &&& args.last() == file.path
            &&& args.contains("--no-color"@)
            &&& args.contains("--"@)
            &&& new ==> args.contains("--no-index"@) && args[args.len() - 2] == "/dev/null"@
            &&& !new ==> args.contains("-M"@) && args.contains(base.arg()) && args[args.len() - 2]
                == "--"@
        }),
{
    let args = diff_args_of(base, file);
    assert(args[1] == "--no-color"@);
    if file.kind == KindModel::Untracked {
        assert(args[3] == "--no-index"@);
        assert(args[4] == "--"@);
    } else {
        assert(args[3] == "-M"@);
        assert(args[4] == base.arg());
        assert(args[5] == "--"@);
    }
}

} // verus!
