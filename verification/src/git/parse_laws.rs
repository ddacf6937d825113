//! What parsing makes of the lines of a diff, whatever they are.

use vstd::prelude::*;
use vstd::utf8::*;

use crate::git::diff::{body_line, byte_range, parse_lines, parse_model, parse_step};
use crate::model::diff::{count_kind, DiffLine, HunkModel, LineKind};
use crate::text::{begins, lemma_take_step, line_ranges, NEWLINE};
use crate::text_laws::law_lines;

verus! {

// ── lines and their marks ──────────────────────────────────────────────────

/// The lines of a text, without their newlines.
pub open spec fn raw_lines(b: Seq<u8>) -> Seq<Seq<u8>> {
    line_ranges(b).map_values(|r: (int, int)| b.subrange(r.0, r.1))
}

/// The line begins with `@@`: it is the header of a chunk.
pub open spec fn opens_chunk(line: Seq<u8>) -> bool {
    line.len() >= 2 && line[0] == 0x40 && line[1] == 0x40
}

/// The byte in front of a line of the given kind.
pub open spec fn mark_of(kind: LineKind) -> u8 {
    match kind {
        LineKind::Add => 0x2b,
        LineKind::Del => 0x2d,
        LineKind::Context => 0x20,
        LineKind::NoNewline => 0x5c,
    }
}

/// The line has the mark of the given kind in front, however short it is.
pub open spec fn has_mark(line: Seq<u8>, kind: LineKind) -> bool {
    line.len() > 0 && line[0] == mark_of(kind)
}

/// The line is one of a chunk's body.
pub open spec fn in_body(line: Seq<u8>) -> bool {
    ||| has_mark(line, LineKind::Add)
    ||| has_mark(line, LineKind::Del)
    ||| has_mark(line, LineKind::Context)
    ||| has_mark(line, LineKind::NoNewline)
}

/// The bytes of a line of a chunk with its mark in front. The marker of a missing
/// newline is kept whole.
pub open spec fn written_line(b: Seq<u8>, l: DiffLine) -> Seq<u8> {
    let shown = b.subrange(l.text.start as int, l.text.end as int);
    if l.kind == LineKind::NoNewline {
        shown
    } else {
        seq![mark_of(l.kind)] + shown
    }
}

/// The lines of a chunk as they stand in the text.
pub open spec fn written_lines(b: Seq<u8>, lines: Seq<DiffLine>) -> Seq<Seq<u8>> {
    lines.map_values(|l: DiffLine| written_line(b, l))
}

/// The number of lines that open a chunk.
pub open spec fn chunk_count(lines: Seq<Seq<u8>>) -> int {
    lines.filter(|l: Seq<u8>| opens_chunk(l)).len() as int
}

/// The lines that belong to the body of a chunk, in order.
pub open spec fn body_of(lines: Seq<Seq<u8>>) -> Seq<Seq<u8>> {
    lines.filter(|l: Seq<u8>| in_body(l))
}

/// The number of lines with the mark of `kind`.
pub open spec fn marked(lines: Seq<Seq<u8>>, kind: LineKind) -> int {
    lines.filter(|l: Seq<u8>| has_mark(l, kind)).len() as int
}

/// Line `k` opens a chunk that goes up to line `e`.
pub open spec fn chunk_lines(lines: Seq<Seq<u8>>, k: int, e: int) -> bool {
    &&& 0 <= k < e <= lines.len()
    &&& opens_chunk(lines[k])
    &&& forall|j: int| k < j < e ==> !opens_chunk(#[trigger] lines[j])
    &&& e < lines.len() ==> opens_chunk(lines[e])
}

/// The line says that the file is binary.
pub open spec fn says_binary(line: Seq<u8>) -> bool {
    begins(line, encode_utf8("Binary files"@)) || begins(line, encode_utf8("GIT binary patch"@))
}

proof fn lemma_marks()
    ensures
        forall|line: Seq<u8>|
            #![trigger begins(line, encode_utf8("@@"@))]
            begins(line, encode_utf8("@@"@)) <==> opens_chunk(line),
        forall|line: Seq<u8>| says_binary(line) ==> !opens_chunk(line) && !in_body(line),
{
    reveal_strlit("@@");
    reveal_strlit("Binary files");
    reveal_strlit("GIT binary patch");
    let at = "@@"@;
    assert(is_ascii_chars(at));
    is_ascii_chars_encode_utf8(at);
    assert(encode_utf8(at)[0] == 0x40 && encode_utf8(at)[1] == 0x40);
    assert forall|line: Seq<u8>|
        #![trigger begins(line, encode_utf8("@@"@))]
        begins(line, encode_utf8("@@"@)) <==> opens_chunk(line) by {
        if opens_chunk(line) {
            assert(line.take(2) =~= encode_utf8(at));
        }
        if begins(line, encode_utf8(at)) {
            assert(line.take(2)[0] == line[0] && line.take(2)[1] == line[1]);
        }
    }
    let bin = "Binary files"@;
    let git = "GIT binary patch"@;
    assert(is_ascii_chars(bin));
    assert(is_ascii_chars(git));
    is_ascii_chars_encode_utf8(bin);
    is_ascii_chars_encode_utf8(git);
    assert(encode_utf8(bin)[0] == 0x42 && encode_utf8(git)[0] == 0x47);
    assert forall|line: Seq<u8>| says_binary(line) implies !opens_chunk(line) && !in_body(line) by {
        if begins(line, encode_utf8(bin)) {
            assert(line[0] == line.take(bin.len() as int)[0]);
        } else {
            assert(line[0] == line.take(git.len() as int)[0]);
        }
    }
}

pub proof fn lemma_filter_step<T>(s: Seq<T>, x: T, pred: spec_fn(T) -> bool)
    ensures
        s.push(x).filter(pred) == if pred(x) {
            s.filter(pred).push(x)
        } else {
            s.filter(pred)
        },
{
    reveal(Seq::filter);
    assert(s.push(x).drop_last() =~= s);
}

/// The number of chunks grows with the lines.
proof fn lemma_counts_grow(lines: Seq<Seq<u8>>, i: int, j: int)
    requires
        0 <= i <= j <= lines.len(),
    ensures
        chunk_count(lines.take(i)) <= chunk_count(lines.take(j)),
        (forall|k: int| i <= k < j ==> !opens_chunk(#[trigger] lines[k])) ==> chunk_count(
            lines.take(i),
        ) == chunk_count(lines.take(j)),
        i < j && opens_chunk(lines[i]) ==> chunk_count(lines.take(i)) < chunk_count(
            lines.take(j),
        ),
    decreases j - i,
{
    if i < j {
        lemma_counts_grow(lines, i, j - 1);
        lemma_take_step(lines, j - 1);
        lemma_filter_step(lines.take(j - 1), lines[j - 1], |l: Seq<u8>| opens_chunk(l));
    }
}

// ── one line after the other ───────────────────────────────────────────────

/// Lines `k` to `e` make the chunk that they open.
spec fn chunk_read(
    text: Seq<char>,
    chunks: Seq<HunkModel>,
    lines: Seq<Seq<u8>>,
    k: int,
    e: int,
) -> bool {
    let b = encode_utf8(text);
    let c = chunk_count(lines.take(k));
    &&& 0 <= c < chunks.len()
    &&& chunks[c].header == byte_range(line_ranges(b)[k].0, line_ranges(b)[k].1)
    &&& written_lines(b, chunks[c].lines) == body_of(lines.subrange(k + 1, e))
}

/// `chunk_lines` in the first `m` lines.
spec fn chunk_among(lines: Seq<Seq<u8>>, m: int, k: int, e: int) -> bool {
    &&& 0 <= k < e <= m
    &&& opens_chunk(lines[k])
    &&& forall|j: int| k < j < e ==> !opens_chunk(#[trigger] lines[j])
    &&& e < m ==> opens_chunk(lines[e])
}

proof fn lemma_body_line(b: Seq<u8>, r: (int, int), old_no: u32, new_no: u32)
    requires
        0 <= r.0 <= r.1 <= b.len() <= usize::MAX,
    ensures
        ({
            let line = b.subrange(r.0, r.1);
            let l = body_line(line, r, old_no, new_no);
            &&& l is Some <==> in_body(line)
            &&& l is Some ==> written_line(b, l->0) == line && has_mark(line, l->0.kind)
        }),
{
    let line = b.subrange(r.0, r.1);
    let l = body_line(line, r, old_no, new_no);
    if l is Some {
        assert(written_line(b, l->0) =~= line);
    }
}

/// What one more line of the text does to the chunks.
pub proof fn lemma_one_line(text: Seq<char>, m: int)
    requires
        0 < m <= line_ranges(encode_utf8(text)).len(),
        encode_utf8(text).len() <= usize::MAX,
    ensures
        ({
            let b = encode_utf8(text);
            let r = line_ranges(b)[m - 1];
            let line = raw_lines(b)[m - 1];
            let was = parse_lines(text, line_ranges(b).take(m - 1)).chunks;
            let now = parse_lines(text, line_ranges(b).take(m)).chunks;
            let last = was.len() - 1;
            if opens_chunk(line) {
                now == was.push(HunkModel { header: byte_range(r.0, r.1), lines: Seq::empty() })
            } else if in_body(line) && was.len() > 0 {
                &&& now.len() == was.len()
                &&& forall|i: int| 0 <= i < last ==> #[trigger] now[i] == was[i]
                &&& now[last].header == was[last].header
                &&& now[last].lines.len() == was[last].lines.len() + 1
                &&& now[last].lines.drop_last() == was[last].lines
                &&& written_line(b, now[last].lines.last()) == line
                &&& has_mark(line, now[last].lines.last().kind)
            } else {
                now == was
            }
        }),
{
    let b = encode_utf8(text);
    let ranges = line_ranges(b);
    let was = parse_lines(text, ranges.take(m - 1));
    let now = parse_lines(text, ranges.take(m));
    let r = ranges[m - 1];
    let line = raw_lines(b)[m - 1];
    law_lines(b);
    lemma_take_step(ranges, m - 1);
    lemma_marks();
    assert(line == b.subrange(r.0, r.1));
    assert(now == parse_step(text, was, r));
    lemma_body_line(b, r, was.old_no, was.new_no);
    if !opens_chunk(line) && in_body(line) && was.chunks.len() > 0 {
        assert(!says_binary(line));
        let l = body_line(line, r, was.old_no, was.new_no)->0;
        let last = was.chunks.len() - 1;
        assert(now.chunks[last].lines == was.chunks[last].lines.push(l));
        assert(now.chunks[last].lines.drop_last() =~= was.chunks[last].lines);
    }
}

/// The open chunk takes one more line.
proof fn lemma_open_chunk(text: Seq<char>, m: int, k: int)
    requires
        0 < m <= line_ranges(encode_utf8(text)).len(),
        encode_utf8(text).len() <= usize::MAX,
        k < m - 1,
        chunk_among(raw_lines(encode_utf8(text)), m, k, m),
        ({
            let b = encode_utf8(text);
            let was = parse_lines(text, line_ranges(b).take(m - 1)).chunks;
            &&& was.len() == chunk_count(raw_lines(b).take(m - 1))
            &&& chunk_read(text, was, raw_lines(b), k, m - 1)
        }),
    ensures
        chunk_read(
            text,
            parse_lines(text, line_ranges(encode_utf8(text)).take(m)).chunks,
            raw_lines(encode_utf8(text)),
            k,
            m,
        ),
{
    let b = encode_utf8(text);
    let lines = raw_lines(b);
    let line = lines[m - 1];
    let was = parse_lines(text, line_ranges(b).take(m - 1)).chunks;
    let now = parse_lines(text, line_ranges(b).take(m)).chunks;
    let c = chunk_count(lines.take(k));
    lemma_one_line(text, m);
    lemma_counts_grow(lines, k + 1, m - 1);
    lemma_take_step(lines, k);
    lemma_filter_step(lines.take(k), lines[k], |l: Seq<u8>| opens_chunk(l));
    assert(c == was.len() - 1);
    assert(!opens_chunk(line));
    let before = lines.subrange(k + 1, m - 1);
    assert(lines.subrange(k + 1, m) =~= before.push(line));
    lemma_filter_step(before, line, |l: Seq<u8>| in_body(l));
    if in_body(line) {
        let had = was[c].lines;
        let has = now[c].lines;
        assert(has =~= had.push(has.last()));
        assert(written_lines(b, has) =~= written_lines(b, had).push(line));
    }
}

proof fn lemma_parse_prefix(text: Seq<char>, m: int)
    requires
        0 <= m <= line_ranges(encode_utf8(text)).len(),
        encode_utf8(text).len() <= usize::MAX,
    ensures
        ({
            let b = encode_utf8(text);
            let lines = raw_lines(b);
            let st = parse_lines(text, line_ranges(b).take(m));
            &&& st.chunks.len() == chunk_count(lines.take(m))
            &&& forall|k: int, e: int| #[trigger]
                chunk_among(lines, m, k, e) ==> chunk_read(text, st.chunks, lines, k, e)
        }),
    decreases m,
{
    let b = encode_utf8(text);
    let ranges = line_ranges(b);
    let lines = raw_lines(b);
    let now = parse_lines(text, ranges.take(m)).chunks;
    let opens = |l: Seq<u8>| opens_chunk(l);
    if m == 0 {
        assert(ranges.take(0) =~= Seq::<(int, int)>::empty());
        reveal(Seq::filter);
        assert(lines.take(0).filter(opens) =~= Seq::<Seq<u8>>::empty());
    } else {
        lemma_parse_prefix(text, m - 1);
        lemma_take_step(lines, m - 1);
        lemma_filter_step(lines.take(m - 1), lines[m - 1], opens);
        lemma_one_line(text, m);
        let was = parse_lines(text, ranges.take(m - 1)).chunks;
        assert forall|k: int, e: int| #[trigger] chunk_among(lines, m, k, e) implies chunk_read(
            text,
            now,
            lines,
            k,
            e,
        ) by {
            let c = chunk_count(lines.take(k));
            if k == m - 1 {
                lemma_empty_body(lines, m);
                assert(written_lines(b, now[c].lines) =~= Seq::<Seq<u8>>::empty());
            } else if e < m {
                assert(chunk_among(lines, m - 1, k, e));
                lemma_counts_grow(lines, k, e);
                lemma_counts_grow(lines, e, m - 1);
                assert(chunk_read(text, was, lines, k, e));
                assert(now[c] == was[c]);
            } else {
                assert(chunk_among(lines, m - 1, k, m - 1));
                lemma_open_chunk(text, m, k);
            }
        }
    }
}

proof fn lemma_empty_body(lines: Seq<Seq<u8>>, m: int)
    requires
        0 <= m <= lines.len(),
    ensures
        body_of(lines.subrange(m, m)) == Seq::<Seq<u8>>::empty(),
{
    reveal(Seq::filter);
    assert(lines.subrange(m, m) =~= Seq::<Seq<u8>>::empty());
}

/// Nothing of a chunk is lost, made up, moved or taken for something else: every line
/// behind its header, up to the next one, that begins with `+`, `-`, a space or a
/// backslash is one line of the chunk, in order, with the kind of that mark and the text
/// behind it; and the chunk has no other lines.
pub proof fn law_chunk_keeps_lines(text: Seq<char>, path: Seq<char>, k: int, e: int)
    requires
        encode_utf8(text).len() <= usize::MAX,
        chunk_lines(raw_lines(encode_utf8(text)), k, e),
    ensures
        ({
            let b = encode_utf8(text);
            let lines = raw_lines(b);
            let c = chunk_count(lines.take(k));
            let chunks = parse_model(text, path).chunks;
            &&& 0 <= c < chunks.len()
            &&& b.subrange(chunks[c].header.start as int, chunks[c].header.end as int) == lines[k]
            &&& written_lines(b, chunks[c].lines) == body_of(lines.subrange(k + 1, e))
            &&& chunks[c].lines.len() == body_of(lines.subrange(k + 1, e)).len()
        }),
{
    let b = encode_utf8(text);
    let lines = raw_lines(b);
    let ranges = line_ranges(b);
    let n = ranges.len() as int;
    law_lines(b);
    lemma_parse_prefix(text, n);
    assert(ranges.take(n) =~= ranges);
    assert(chunk_among(lines, n, k, e));
    let chunks = parse_model(text, path).chunks;
    assert(chunk_read(text, chunks, lines, k, e));
    let c = chunk_count(lines.take(k));
    assert(written_lines(b, chunks[c].lines).len() == chunks[c].lines.len());
    assert(lines[k] == b.subrange(ranges[k].0, ranges[k].1));
}

/// There is one chunk for every line that begins with `@@`.
pub proof fn law_chunk_for_every_header(text: Seq<char>, path: Seq<char>)
    requires
        encode_utf8(text).len() <= usize::MAX,
    ensures
        parse_model(text, path).chunks.len() == chunk_count(raw_lines(encode_utf8(text))),
{
    let b = encode_utf8(text);
    let n = line_ranges(b).len() as int;
    lemma_parse_prefix(text, n);
    assert(line_ranges(b).take(n) =~= line_ranges(b));
    assert(raw_lines(b).take(n) =~= raw_lines(b));
}

/// A diff is binary exactly when one of its lines says so.
pub proof fn law_binary(text: Seq<char>, path: Seq<char>)
    ensures
        parse_model(text, path).is_binary <==> exists|i: int|
            0 <= i < raw_lines(encode_utf8(text)).len() && says_binary(
                #[trigger] raw_lines(encode_utf8(text))[i],
            ),
{
    let b = encode_utf8(text);
    let n = line_ranges(b).len() as int;
    lemma_binary_prefix(text, n);
    assert(line_ranges(b).take(n) =~= line_ranges(b));
}

proof fn lemma_binary_prefix(text: Seq<char>, m: int)
    requires
        0 <= m <= line_ranges(encode_utf8(text)).len(),
    ensures
        parse_lines(text, line_ranges(encode_utf8(text)).take(m)).is_binary <==> exists|i: int|
            0 <= i < m && says_binary(#[trigger] raw_lines(encode_utf8(text))[i]),
    decreases m,
{
    let b = encode_utf8(text);
    let ranges = line_ranges(b);
    let lines = raw_lines(b);
    if m > 0 {
        lemma_binary_prefix(text, m - 1);
        lemma_take_step(ranges, m - 1);
        lemma_marks();
        let r = ranges[m - 1];
        assert(lines[m - 1] == b.subrange(r.0, r.1));
    }
}

// ── counts ─────────────────────────────────────────────────────────────────

/// The lines of a kind are those with its mark.
proof fn lemma_kinds_by_mark(b: Seq<u8>, lines: Seq<DiffLine>, kind: LineKind)
    requires
        forall|i: int|
            0 <= i < lines.len() ==> has_mark(
                written_line(b, #[trigger] lines[i]),
                lines[i].kind,
            ),
    ensures
        count_kind(lines, kind) == marked(written_lines(b, lines), kind),
    decreases lines.len(),
{
    let w = written_lines(b, lines);
    let pred = |l: Seq<u8>| has_mark(l, kind);
    if lines.len() == 0 {
        reveal(Seq::filter);
        assert(w =~= Seq::<Seq<u8>>::empty());
    } else {
        let was = lines.drop_last();
        assert forall|i: int| 0 <= i < was.len() implies has_mark(
            written_line(b, #[trigger] was[i]),
            was[i].kind,
        ) by {
            assert(was[i] == lines[i]);
        }
        lemma_kinds_by_mark(b, was, kind);
        let last = written_line(b, lines.last());
        assert(w =~= written_lines(b, was).push(last));
        lemma_filter_step(written_lines(b, was), last, pred);
        assert(has_mark(written_line(b, lines[lines.len() - 1]), lines[lines.len() - 1].kind));
    }
}

/// Lines that are none of a body do not count.
proof fn lemma_marked_in_body(lines: Seq<Seq<u8>>, kind: LineKind)
    ensures
        marked(body_of(lines), kind) == marked(lines, kind),
    decreases lines.len(),
{
    let pred = |l: Seq<u8>| has_mark(l, kind);
    let body = |l: Seq<u8>| in_body(l);
    if lines.len() == 0 {
        reveal(Seq::filter);
        assert(body_of(lines) =~= lines);
    } else {
        let was = lines.drop_last();
        lemma_marked_in_body(was, kind);
        assert(was.push(lines.last()) =~= lines);
        lemma_filter_step(was, lines.last(), pred);
        lemma_filter_step(was, lines.last(), body);
        lemma_filter_step(body_of(was), lines.last(), pred);
    }
}

/// Every line that the parser makes stands in the text with the mark of its kind.
spec fn marks_ok(b: Seq<u8>, chunk: HunkModel) -> bool {
    forall|i: int|
        0 <= i < chunk.lines.len() ==> has_mark(
            written_line(b, #[trigger] chunk.lines[i]),
            chunk.lines[i].kind,
        )
}

/// The header and every line of a chunk stand on one line of the text each.
pub open spec fn on_single_lines(b: Seq<u8>, chunk: HunkModel) -> bool {
    &&& !b.subrange(chunk.header.start as int, chunk.header.end as int).contains(NEWLINE)
    &&& forall|i: int|
        0 <= i < chunk.lines.len() ==> !b.subrange(
            (#[trigger] chunk.lines[i]).text.start as int,
            chunk.lines[i].text.end as int,
        ).contains(NEWLINE)
}

proof fn lemma_chunks_ok(text: Seq<char>, m: int)
    requires
        0 <= m <= line_ranges(encode_utf8(text)).len(),
        encode_utf8(text).len() <= usize::MAX,
    ensures
        ({
            let b = encode_utf8(text);
            let chunks = parse_lines(text, line_ranges(b).take(m)).chunks;
            forall|i: int|
                0 <= i < chunks.len() ==> marks_ok(b, #[trigger] chunks[i]) && on_single_lines(
                    b,
                    chunks[i],
                )
        }),
    decreases m,
{
    let b = encode_utf8(text);
    let ranges = line_ranges(b);
    let chunks = parse_lines(text, ranges.take(m)).chunks;
    if m > 0 {
        lemma_chunks_ok(text, m - 1);
        lemma_take_step(ranges, m - 1);
        law_lines(b);
        let was = parse_lines(text, ranges.take(m - 1));
        let r = ranges[m - 1];
        let line = b.subrange(r.0, r.1);
        lemma_body_line(b, r, was.old_no, was.new_no);
        assert forall|s: int, t: int| r.0 <= s <= t <= r.1 implies !(#[trigger] b.subrange(
            s,
            t,
        )).contains(NEWLINE) by {
            let part = b.subrange(s, t);
            if part.contains(NEWLINE) {
                let i = choose|i: int| 0 <= i < part.len() && part[i] == NEWLINE;
                assert(b[s + i] != NEWLINE);
            }
        }
        assert forall|i: int| 0 <= i < chunks.len() implies marks_ok(b, #[trigger] chunks[i])
            && on_single_lines(b, chunks[i]) by {
            if i < was.chunks.len() {
                assert(marks_ok(b, was.chunks[i]) && on_single_lines(b, was.chunks[i]));
            }
            if i == was.chunks.len() - 1 && chunks.len() == was.chunks.len() {
                let l = body_line(line, r, was.old_no, was.new_no);
                if chunks[i] != was.chunks[i] {
                    assert(chunks[i].lines == was.chunks[i].lines.push(l->0));
                    let t = l->0.text;
                    assert(r.0 <= t.start <= t.end <= r.1);
                    assert(!b.subrange(t.start as int, t.end as int).contains(NEWLINE));
                }
            } else if i == was.chunks.len() {
                assert(!b.subrange(r.0, r.1).contains(NEWLINE));
            }
        }
    }
}

/// Every chunk of a parsed diff stands on single lines of the text.
pub proof fn lemma_parsed_on_single_lines(text: Seq<char>, path: Seq<char>)
    requires
        encode_utf8(text).len() <= usize::MAX,
    ensures
        ({
            let chunks = parse_model(text, path).chunks;
            forall|i: int|
                0 <= i < chunks.len() ==> on_single_lines(encode_utf8(text), #[trigger] chunks[i])
        }),
{
    let b = encode_utf8(text);
    let n = line_ranges(b).len() as int;
    lemma_chunks_ok(text, n);
    assert(line_ranges(b).take(n) =~= line_ranges(b));
}

/// The lines of each kind in a chunk are as many as the text has with its mark, from
/// the header on up to the next one.
pub proof fn law_chunk_counts(text: Seq<char>, path: Seq<char>, k: int, e: int, kind: LineKind)
    requires
        encode_utf8(text).len() <= usize::MAX,
        chunk_lines(raw_lines(encode_utf8(text)), k, e),
    ensures
        ({
            let lines = raw_lines(encode_utf8(text));
            let chunk = parse_model(text, path).chunks[chunk_count(lines.take(k))];
            count_kind(chunk.lines, kind) == marked(lines.subrange(k + 1, e), kind)
        }),
{
    let b = encode_utf8(text);
    let lines = raw_lines(b);
    let ranges = line_ranges(b);
    let n = ranges.len() as int;
    law_chunk_keeps_lines(text, path, k, e);
    lemma_chunks_ok(text, n);
    assert(ranges.take(n) =~= ranges);
    let chunk = parse_model(text, path).chunks[chunk_count(lines.take(k))];
    assert(marks_ok(b, chunk));
    lemma_kinds_by_mark(b, chunk.lines, kind);
    lemma_marked_in_body(lines.subrange(k + 1, e), kind);
}

} // verus!
