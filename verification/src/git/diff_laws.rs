//! What holds of parsing, whatever the diff.

use std::ops::Range;

use vstd::prelude::*;
use vstd::utf8::*;

use crate::git::diff::{
    parse_lines, parse_model, parse_step, segment_end, segment_entry, segment_mark,
    segment_starts, split_model, split_upto, ParseModel,
};
use crate::git::parse_laws::{lemma_filter_step, raw_lines};
use crate::git::segment::classify_model;
use crate::model::diff::{
    count_in_chunks, low_bits, DiffLine, DiffModel, HunkModel, LineKind,
};
use crate::model::file::FileModel;
use crate::text::{
    begins, closed_lines, lemma_encode_concat, lemma_encode_injective, lemma_line_ranges,
    lemma_lines_ordered, lemma_slice_bytes, lemma_take_step, line_range_ok, line_ranges,
    line_start, text_range, text_slice, NEWLINE,
};

verus! {

// ── a preamble ─────────────────────────────────────────────────────────────

/// A range moved on by `n` bytes.
pub open spec fn moved(r: Range<usize>, n: int) -> Range<usize> {
    Range { start: (r.start + n) as usize, end: (r.end + n) as usize }
}

/// A line moved on by `n` bytes; its kind and its numbers stay.
pub open spec fn moved_line(l: DiffLine, n: int) -> DiffLine {
    DiffLine { text: moved(l.text, n), ..l }
}

/// A chunk moved on by `n` bytes.
pub open spec fn moved_chunk(c: HunkModel, n: int) -> HunkModel {
    HunkModel {
        header: moved(c.header, n),
        lines: c.lines.map_values(|l: DiffLine| moved_line(l, n)),
    }
}

/// Chunks moved on by `n` bytes.
pub open spec fn moved_chunks(chunks: Seq<HunkModel>, n: int) -> Seq<HunkModel> {
    chunks.map_values(|c: HunkModel| moved_chunk(c, n))
}

/// No line of `b` opens a chunk or says that a file is binary.
pub open spec fn only_header_lines(b: Seq<u8>) -> bool {
    forall|i: int|
        0 <= i < line_ranges(b).len() ==> is_header_line(
            b.subrange((#[trigger] line_ranges(b)[i]).0, line_ranges(b)[i].1),
        )
}

pub open spec fn is_header_line(line: Seq<u8>) -> bool {
    &&& !begins(line, encode_utf8("@@"@))
    &&& !begins(line, encode_utf8("Binary files"@))
    &&& !begins(line, encode_utf8("GIT binary patch"@))
}

/// Line ranges moved on by `n` bytes.
spec fn moved_ranges(v: Seq<(int, int)>, n: int) -> Seq<(int, int)> {
    v.map_values(|r: (int, int)| (r.0 + n, r.1 + n))
}

/// The lines of a prefix do not depend on what follows.
proof fn lemma_lines_of_prefix(p: Seq<u8>, s: Seq<u8>, n: int)
    requires
        0 <= n <= p.len(),
    ensures
        line_start(p + s, n) == line_start(p, n),
        closed_lines(p + s, n) == closed_lines(p, n),
    decreases n,
{
    if n > 0 {
        lemma_lines_of_prefix(p, s, n - 1);
        assert((p + s)[n - 1] == p[n - 1]);
    }
}

/// Behind whole lines, lines are those of the rest, moved on.
proof fn lemma_lines_of_rest(p: Seq<u8>, s: Seq<u8>, k: int)
    requires
        p.len() == 0 || p.last() == NEWLINE,
        0 <= k <= s.len(),
    ensures
        line_start(p + s, p.len() + k) == p.len() + line_start(s, k),
        closed_lines(p + s, p.len() + k) == closed_lines(p, p.len() as int) + moved_ranges(
            closed_lines(s, k),
            p.len() as int,
        ),
    decreases k,
{
    let n = p.len() as int;
    lemma_lines_of_prefix(p, s, n);
    if k == 0 {
        assert(closed_lines(p, n) + moved_ranges(closed_lines(s, 0), n) =~= closed_lines(p, n));
    } else {
        lemma_lines_of_rest(p, s, k - 1);
        assert((p + s)[n + k - 1] == s[k - 1]);
        if s[k - 1] == NEWLINE {
            let was = closed_lines(s, k - 1);
            let r = (line_start(s, k - 1), k - 1);
            assert(moved_ranges(was.push(r), n) =~= moved_ranges(was, n).push((r.0 + n, r.1 + n)));
            assert(closed_lines(p, n) + moved_ranges(was, n).push((r.0 + n, r.1 + n)) =~= (
            closed_lines(p, n) + moved_ranges(was, n)).push((r.0 + n, r.1 + n)));
        }
    }
}

proof fn lemma_lines_split(p: Seq<u8>, s: Seq<u8>)
    requires
        p.len() == 0 || p.last() == NEWLINE,
    ensures
        line_ranges(p + s) == line_ranges(p) + moved_ranges(line_ranges(s), p.len() as int),
{
    let n = p.len() as int;
    let k = s.len() as int;
    lemma_lines_of_rest(p, s, k);
    assert((p + s).len() == n + k);
    assert(line_start(p, n) == n);
    assert(line_ranges(p) == closed_lines(p, n));
    if line_start(s, k) < k {
        let r = (line_start(s, k), k);
        assert(moved_ranges(closed_lines(s, k).push(r), n) =~= moved_ranges(
            closed_lines(s, k),
            n,
        ).push((r.0 + n, r.1 + n)));
        assert(line_ranges(p + s) =~= line_ranges(p) + moved_ranges(line_ranges(s), n));
    }
}

/// Header lines leave the parser where it was at the start.
proof fn lemma_header_lines(text: Seq<char>, p: Seq<u8>, s: Seq<u8>, m: int)
    requires
        encode_utf8(text) == p + s,
        only_header_lines(p),
        0 <= m <= line_ranges(p).len(),
    ensures
        parse_lines(text, line_ranges(p).take(m)) == parse_lines(text, Seq::empty()),
    decreases m,
{
    let lines = line_ranges(p);
    if m == 0 {
        assert(lines.take(0) =~= Seq::<(int, int)>::empty());
    } else {
        lemma_take_step(lines, m - 1);
        lemma_header_lines(text, p, s, m - 1);
        lemma_line_ranges(p);
        let r = lines[m - 1];
        assert(line_range_ok(p, r));
        assert((p + s).subrange(r.0, r.1) =~= p.subrange(r.0, r.1));
        assert(lines.take(m).drop_last() =~= lines.take(m - 1));
    }
}

/// One line behind a preamble of `n` bytes.
proof fn lemma_moved_step(
    whole: Seq<char>,
    rest: Seq<char>,
    a: ParseModel,
    b: ParseModel,
    r: (int, int),
    n: int,
)
    requires
        n >= 0,
        encode_utf8(whole).len() <= usize::MAX,
        encode_utf8(whole).len() == n + encode_utf8(rest).len(),
        encode_utf8(whole).subrange(n, encode_utf8(whole).len() as int) == encode_utf8(rest),
        line_range_ok(encode_utf8(rest), r),
        a == (ParseModel { chunks: moved_chunks(b.chunks, n), ..b }),
    ensures
        ({
            let a2 = parse_step(whole, a, (r.0 + n, r.1 + n));
            let b2 = parse_step(rest, b, r);
            a2 == (ParseModel { chunks: moved_chunks(b2.chunks, n), ..b2 })
        }),
{
    let wb = encode_utf8(whole);
    let rb = encode_utf8(rest);
    assert(wb.subrange(r.0 + n, r.1 + n) =~= wb.subrange(n, wb.len() as int).subrange(r.0, r.1));
    let a2 = parse_step(whole, a, (r.0 + n, r.1 + n));
    let b2 = parse_step(rest, b, r);
    let want = moved_chunks(b2.chunks, n);
    assert(a.chunks.len() == b.chunks.len());
    if a2.chunks.len() > a.chunks.len() {
        assert(a2.chunks =~= want) by {
            let c = b2.chunks.last();
            assert(moved_chunk(c, n).lines =~= Seq::<DiffLine>::empty());
            assert(a2.chunks.last() == moved_chunk(c, n));
        }
    } else if b.chunks.len() > 0 {
        let last = b.chunks.len() - 1;
        assert(a.chunks[last] == moved_chunk(b.chunks[last], n));
        assert(a2.chunks.len() == b2.chunks.len());
        assert(a2.chunks[last].lines =~= want[last].lines);
        assert(a2.chunks[last] == want[last]);
        assert(a2.chunks =~= want);
    } else {
        assert(a2.chunks =~= want);
    }
}

/// The lines behind a preamble of `n` bytes.
proof fn lemma_moved_lines(
    whole: Seq<char>,
    rest: Seq<char>,
    head: Seq<(int, int)>,
    n: int,
    m: int,
)
    requires
        n >= 0,
        encode_utf8(whole).len() <= usize::MAX,
        encode_utf8(whole).len() == n + encode_utf8(rest).len(),
        encode_utf8(whole).subrange(n, encode_utf8(whole).len() as int) == encode_utf8(rest),
        parse_lines(whole, head) == parse_lines(whole, Seq::empty()),
        0 <= m <= line_ranges(encode_utf8(rest)).len(),
    ensures
        ({
            let lines = line_ranges(encode_utf8(rest)).take(m);
            let b = parse_lines(rest, lines);
            parse_lines(whole, head + moved_ranges(lines, n)) == (ParseModel {
                chunks: moved_chunks(b.chunks, n),
                ..b
            })
        }),
    decreases m,
{
    let all = line_ranges(encode_utf8(rest));
    let lines = all.take(m);
    if m == 0 {
        assert(head + moved_ranges(lines, n) =~= head);
        assert(lines =~= Seq::<(int, int)>::empty());
        assert(moved_chunks(Seq::empty(), n) =~= Seq::<HunkModel>::empty());
    } else {
        lemma_moved_lines(whole, rest, head, n, m - 1);
        lemma_take_step(all, m - 1);
        lemma_line_ranges(encode_utf8(rest));
        let r = all[m - 1];
        assert(line_range_ok(encode_utf8(rest), r));
        let before = all.take(m - 1);
        assert(lines.drop_last() =~= before);
        let now = head + moved_ranges(lines, n);
        assert(now.drop_last() =~= head + moved_ranges(before, n));
        assert(now.last() == (r.0 + n, r.1 + n));
        lemma_moved_step(
            whole,
            rest,
            parse_lines(whole, head + moved_ranges(before, n)),
            parse_lines(rest, before),
            r,
            n,
        );
    }
}

/// Header lines in front of a diff change nothing but where its parts stand: the
/// chunks, their lines, kinds and numbers are the same, each range moved on by the
/// bytes of the preamble.
pub proof fn law_preamble_is_skipped(preamble: Seq<char>, rest: Seq<char>, path: Seq<char>)
    requires
        preamble.len() == 0 || preamble.last() == '\n',
        only_header_lines(encode_utf8(preamble)),
        encode_utf8(preamble + rest).len() <= usize::MAX,
    ensures
        ({
            let a = parse_model(preamble + rest, path);
            let b = parse_model(rest, path);
            &&& a.is_binary == b.is_binary
            &&& a.chunks == moved_chunks(b.chunks, encode_utf8(preamble).len() as int)
        }),
{
    let whole = preamble + rest;
    let p = encode_utf8(preamble);
    let s = encode_utf8(rest);
    lemma_encode_concat(preamble, rest);
    if preamble.len() > 0 {
        let body = preamble.drop_last();
        let end = seq!['\n'];
        assert(preamble =~= body + end);
        lemma_encode_concat(body, end);
        assert(is_ascii_chars(end));
        is_ascii_chars_encode_utf8(end);
        assert(end[0] as u8 == NEWLINE);
        assert(p.last() == encode_utf8(end)[0]);
    } else {
        assert(p.len() == 0);
    }
    lemma_lines_split(p, s);
    let head = line_ranges(p);
    lemma_header_lines(whole, p, s, head.len() as int);
    assert(head.take(head.len() as int) =~= head);
    assert(encode_utf8(whole).subrange(p.len() as int, encode_utf8(whole).len() as int) =~= s);
    let lines = line_ranges(s);
    lemma_moved_lines(whole, rest, head, p.len() as int, lines.len() as int);
    assert(lines.take(lines.len() as int) =~= lines);
}

// ── segments ───────────────────────────────────────────────────────────────

/// The number of lines that open the segment of a file.
pub open spec fn git_lines(b: Seq<u8>, lines: Seq<(int, int)>) -> nat
    decreases lines.len(),
{
    if lines.len() == 0 {
        0
    } else {
        let r = lines.last();
        git_lines(b, lines.drop_last()) + if begins(
            b.subrange(r.0, r.1),
            encode_utf8("diff --git "@),
        ) {
            1nat
        } else {
            0nat
        }
    }
}

/// No line opens the segment of a combined diff.
pub open spec fn no_combined(b: Seq<u8>) -> bool {
    forall|i: int|
        0 <= i < line_ranges(b).len() ==> segment_mark(
            b.subrange((#[trigger] line_ranges(b)[i]).0, line_ranges(b)[i].1),
        ) != Some(true)
}

/// The texts of diffs, one behind the other.
pub open spec fn joined_texts(v: Seq<(FileModel, DiffModel)>) -> Seq<char>
    decreases v.len(),
{
    if v.len() == 0 {
        Seq::empty()
    } else {
        joined_texts(v.drop_last()) + v.last().1.text
    }
}

/// Segment `i` begins at line `k`, which ends before the next segment.
spec fn opens_at(
    b: Seq<u8>,
    lines: Seq<(int, int)>,
    starts: Seq<(int, bool)>,
    i: int,
    k: int,
) -> bool {
    &&& 0 <= k < lines.len()
    &&& starts[i].0 == lines[k].0
    &&& segment_mark(b.subrange(lines[k].0, lines[k].1)) == Some(starts[i].1)
    &&& i + 1 < starts.len() ==> lines[k].1 < starts[i + 1].0
}

spec fn has_opening(
    b: Seq<u8>,
    lines: Seq<(int, int)>,
    starts: Seq<(int, bool)>,
    i: int,
    n: int,
) -> bool {
    exists|k: int| k < n && #[trigger] opens_at(b, lines, starts, i, k)
}

proof fn lemma_opening_lines(b: Seq<u8>, n: int)
    requires
        0 <= n <= line_ranges(b).len(),
    ensures
        ({
            let lines = line_ranges(b);
            let starts = segment_starts(b, lines.take(n));
            &&& forall|i: int|
                0 <= i < starts.len() ==> #[trigger] has_opening(b, lines, starts, i, n)
            &&& no_combined(b) ==> starts.len() == git_lines(b, lines.take(n))
            &&& no_combined(b) ==> forall|i: int|
                0 <= i < starts.len() ==> !(#[trigger] starts[i]).1
        }),
    decreases n,
{
    let lines = line_ranges(b);
    if n > 0 {
        lemma_opening_lines(b, n - 1);
        lemma_take_step(lines, n - 1);
        assert(lines.take(n).drop_last() =~= lines.take(n - 1));
        let was = segment_starts(b, lines.take(n - 1));
        let now = segment_starts(b, lines.take(n));
        let r = lines[n - 1];
        let mark = segment_mark(b.subrange(r.0, r.1));
        assert forall|i: int| 0 <= i < now.len() implies #[trigger] has_opening(
            b,
            lines,
            now,
            i,
            n,
        ) by {
            if i < was.len() {
                assert(has_opening(b, lines, was, i, n - 1));
                let k = choose|k: int| k < n - 1 && #[trigger] opens_at(b, lines, was, i, k);
                assert(now[i] == was[i]);
                if i + 1 < was.len() {
                    assert(now[i + 1] == was[i + 1]);
                } else if i + 1 < now.len() {
                    assert(now[i + 1].0 == r.0);
                    lemma_lines_ordered(b, k, n - 1);
                }
                assert(opens_at(b, lines, now, i, k));
            } else {
                assert(opens_at(b, lines, now, i, n - 1));
            }
        }
    } else {
        assert(lines.take(0) =~= Seq::<(int, int)>::empty());
    }
}

/// The first line of a text that begins with `p`, which has no newline, does too.
proof fn lemma_first_line(b: Seq<u8>, p: Seq<u8>)
    requires
        begins(b, p),
        p.len() > 0,
        !p.contains(NEWLINE),
    ensures
        line_ranges(b).len() > 0,
        line_ranges(b)[0].0 == 0,
        begins(b.subrange(line_ranges(b)[0].0, line_ranges(b)[0].1), p),
{
    let lines = line_ranges(b);
    lemma_line_ranges(b);
    lemma_some_line(b, b.len() as int);
    let r = lines[0];
    assert(line_range_ok(b, r));
    if r.1 < p.len() {
        assert(b[r.1] == b.take(p.len() as int)[r.1]);
        assert(p.contains(p[r.1]));
        assert(false);
    }
    assert(b.subrange(0, r.1).take(p.len() as int) =~= b.take(p.len() as int));
}

/// The first line begins at the start.
proof fn lemma_some_line(b: Seq<u8>, n: int)
    requires
        0 <= n <= b.len(),
    ensures
        closed_lines(b, n).len() > 0 ==> closed_lines(b, n)[0].0 == 0,
        closed_lines(b, n).len() == 0 ==> line_start(b, n) == 0,
    decreases n,
{
    if n > 0 {
        lemma_some_line(b, n - 1);
    }
}

proof fn lemma_git_mark()
    ensures
        encode_utf8("diff --git "@).len() > 0,
        !encode_utf8("diff --git "@).contains(NEWLINE),
{
    reveal_strlit("diff --git ");
    let c = "diff --git "@;
    assert(is_ascii_chars(c));
    is_ascii_chars_encode_utf8(c);
    let e = encode_utf8(c);
    if e.contains(NEWLINE) {
        let i = choose|i: int| 0 <= i < e.len() && e[i] == NEWLINE;
        assert(c[i] as u8 == e[i]);
        assert(c[i] != '\n');
        assert(c[i] as u32 <= 0x7f);
    }
}

/// The slices of a text on both sides of a place make the slice around it.
pub proof fn lemma_slices_join(text: Seq<char>, a: int, m: int, z: int)
    requires
        text_range(text, a, m),
        text_range(text, m, z),
    ensures
        text_slice(text, a, m) + text_slice(text, m, z) == text_slice(text, a, z),
{
    let b = encode_utf8(text);
    lemma_slice_bytes(text, a, m);
    lemma_slice_bytes(text, m, z);
    lemma_slice_bytes(text, a, z);
    lemma_encode_concat(text_slice(text, a, m), text_slice(text, m, z));
    assert(b.subrange(a, m) + b.subrange(m, z) =~= b.subrange(a, z));
    lemma_encode_injective(
        text_slice(text, a, m) + text_slice(text, m, z),
        text_slice(text, a, z),
    );
}

/// The entries of the first `n` segments, where none is combined.
proof fn lemma_split_entries(text: Seq<char>, starts: Seq<(int, bool)>, n: int)
    requires
        0 <= n <= starts.len(),
        starts.len() > 0,
        starts[0].0 == 0,
        forall|i: int| 0 <= i < starts.len() ==> !(#[trigger] starts[i]).1,
        forall|i: int|
            0 <= i < starts.len() ==> text_range(
                text,
                (#[trigger] starts[i]).0,
                segment_end(starts, i, encode_utf8(text).len() as int),
            ),
    ensures
        ({
            let len = encode_utf8(text).len() as int;
            let v = split_upto(text, starts, n);
            &&& v.len() == n
            &&& forall|i: int|
                0 <= i < n ==> #[trigger] v[i] == segment_entry(
                    text_slice(text, starts[i].0, segment_end(starts, i, len)),
                )
            &&& n > 0 ==> joined_texts(v) == text_slice(text, 0, segment_end(starts, n - 1, len))
            &&& n > 0 ==> text_range(text, 0, segment_end(starts, n - 1, len))
        }),
    decreases n,
{
    if n > 0 {
        lemma_split_entries(text, starts, n - 1);
        let len = encode_utf8(text).len() as int;
        let v = split_upto(text, starts, n);
        let end = segment_end(starts, n - 1, len);
        assert(!starts[n - 1].1);
        assert(text_range(text, starts[n - 1].0, end));
        assert(v.drop_last() =~= split_upto(text, starts, n - 1));
        let piece = text_slice(text, starts[n - 1].0, end);
        assert(v.last().1.text == piece);
        if n > 1 {
            assert(segment_end(starts, n - 2, len) == starts[n - 1].0);
            lemma_slices_join(text, 0, starts[n - 1].0, end);
        } else {
            assert(joined_texts(v.drop_last()) =~= Seq::<char>::empty());
            assert(Seq::<char>::empty() + piece =~= piece);
        }
    }
}

/// Splitting a diff of many files loses nothing: there is one file for every
/// `diff --git ` line, the texts of the files make the whole text, each begins with
/// such a line, and each is parsed as it stands. Text in front of the first file and
/// combined diffs are left out, so the law is on texts without them.
pub proof fn law_split_keeps_text(text: Seq<char>)
    requires
        begins(encode_utf8(text), encode_utf8("diff --git "@)),
        no_combined(encode_utf8(text)),
    ensures
        ({
            let b = encode_utf8(text);
            let v = split_model(text);
            &&& v.len() == git_lines(b, line_ranges(b))
            &&& joined_texts(v) == text
            &&& forall|i: int|
                0 <= i < v.len() ==> {
                    &&& begins(
                        encode_utf8((#[trigger] v[i]).1.text),
                        encode_utf8("diff --git "@),
                    )
                    &&& v[i].1 == parse_model(v[i].1.text, v[i].0.path)
                    &&& (v[i].0.path, v[i].0.kind) == classify_model(v[i].1.text)
                    &&& v[i].0.additions == low_bits(
                        count_in_chunks(v[i].1.chunks, LineKind::Add),
                    )
                    &&& v[i].0.deletions == low_bits(
                        count_in_chunks(v[i].1.chunks, LineKind::Del),
                    )
                }
        }),
{
    let b = encode_utf8(text);
    let len = b.len() as int;
    let lines = line_ranges(b);
    let mark = encode_utf8("diff --git "@);
    let starts = segment_starts(b, lines);
    let v = split_model(text);
    assert(lines.take(lines.len() as int) =~= lines);
    lemma_opening_lines(b, lines.len() as int);
    lemma_git_mark();
    lemma_first_line(b, mark);
    crate::git::diff::lemma_segment_starts(text, lines.len() as int);
    lemma_first_start(b, lines.len() as int);
    assert(lines.take(lines.len() as int) =~= lines);
    encode_utf8_valid_utf8(text);
    is_char_boundary_start_end_of_seq(b);
    assert forall|i: int| 0 <= i < starts.len() implies text_range(
        text,
        (#[trigger] starts[i]).0,
        segment_end(starts, i, len),
    ) by {
        if i + 1 < starts.len() {
            assert(is_char_boundary(b, starts[i + 1].0));
            assert(starts[i].0 <= starts[i + 1].0);
        }
    }
    lemma_split_entries(text, starts, starts.len() as int);
    assert(text_slice(text, 0, len) == text) by {
        lemma_slice_bytes(text, 0, len);
        assert(b.subrange(0, len) =~= b);
        lemma_encode_injective(text_slice(text, 0, len), text);
    }
    assert forall|i: int| 0 <= i < v.len() implies begins(
        encode_utf8((#[trigger] v[i]).1.text),
        mark,
    ) by {
        let end = segment_end(starts, i, len);
        assert(has_opening(b, lines, starts, i, lines.len() as int));
        let k = choose|k: int| k < lines.len() && #[trigger] opens_at(b, lines, starts, i, k);
        assert(opens_at(b, lines, starts, i, k));
        lemma_line_ranges(b);
        assert(line_range_ok(b, lines[k]));
        assert(!starts[i].1);
        let line = b.subrange(lines[k].0, lines[k].1);
        assert(begins(line, mark));
        assert(text_range(text, starts[i].0, end));
        lemma_slice_bytes(text, starts[i].0, end);
        assert(b.subrange(starts[i].0, end).take(mark.len() as int) =~= line.take(
            mark.len() as int,
        ));
    }
}

/// A first line that opens a segment opens the first one.
proof fn lemma_first_start(b: Seq<u8>, n: int)
    requires
        0 < n <= line_ranges(b).len(),
        segment_mark(b.subrange(line_ranges(b)[0].0, line_ranges(b)[0].1)) is Some,
    ensures
        segment_starts(b, line_ranges(b).take(n)).len() > 0,
        segment_starts(b, line_ranges(b).take(n))[0].0 == line_ranges(b)[0].0,
    decreases n,
{
    let lines = line_ranges(b);
    assert(lines.take(n).drop_last() =~= lines.take(n - 1));
    assert(lines.take(n).last() == lines[n - 1]);
    let was = segment_starts(b, lines.take(n - 1));
    let now = segment_starts(b, lines.take(n));
    let r = lines[n - 1];
    if n > 1 {
        lemma_first_start(b, n - 1);
        assert(now[0] == was[0]);
    } else {
        assert(lines.take(0) =~= Seq::<(int, int)>::empty());
        assert(was.len() == 0);
        assert(now == was.push((r.0, segment_mark(b.subrange(r.0, r.1))->0)));
    }
}

// ── segments among other text ──────────────────────────────────────────────

/// The line begins the diff of a file.
pub open spec fn opens_file(line: Seq<u8>) -> bool {
    begins(line, encode_utf8("diff --git "@))
}

/// The line begins a combined diff, as merges have it.
pub open spec fn opens_merge(line: Seq<u8>) -> bool {
    begins(line, encode_utf8("diff --cc "@)) || begins(line, encode_utf8("diff --combined "@))
}

/// The number of lines that begin the diff of a file.
pub open spec fn file_count(lines: Seq<Seq<u8>>) -> int {
    lines.filter(|l: Seq<u8>| opens_file(l)).len() as int
}

/// The number of lines that begin a diff of either sort.
pub open spec fn diff_count(lines: Seq<Seq<u8>>) -> int {
    lines.filter(|l: Seq<u8>| opens_file(l) || opens_merge(l)).len() as int
}

/// Line `k` begins the diff of a file, which goes up to line `e`.
pub open spec fn file_lines(lines: Seq<Seq<u8>>, k: int, e: int) -> bool {
    &&& 0 <= k < e <= lines.len()
    &&& opens_file(lines[k])
    &&& forall|j: int|
        k < j < e ==> !opens_file(#[trigger] lines[j]) && !opens_merge(lines[j])
    &&& e < lines.len() ==> opens_file(lines[e]) || opens_merge(lines[e])
}

/// Where line `e` begins; behind the last line, the end of the text.
pub open spec fn line_place(b: Seq<u8>, e: int) -> int {
    if e < line_ranges(b).len() {
        line_ranges(b)[e].0
    } else {
        b.len() as int
    }
}

/// The starts of the first `m` lines, sort by sort.
proof fn lemma_starts_of_lines(b: Seq<u8>, m: int)
    requires
        0 <= m <= line_ranges(b).len(),
    ensures
        ({
            let lines = raw_lines(b);
            let starts = segment_starts(b, line_ranges(b).take(m));
            &&& starts.len() == diff_count(lines.take(m))
            &&& starts.filter(|s: (int, bool)| !s.1).len() == file_count(lines.take(m))
            &&& forall|k: int|
                0 <= k < m && (opens_file(#[trigger] lines[k]) || opens_merge(lines[k])) ==> {
                    let s = diff_count(lines.take(k));
                    &&& 0 <= s < starts.len()
                    &&& starts[s] == (line_ranges(b)[k].0, !opens_file(lines[k]))
                    &&& starts.take(s).filter(|s: (int, bool)| !s.1).len() == file_count(
                        lines.take(k),
                    )
                }
        }),
    decreases m,
{
    let lines = raw_lines(b);
    let ranges = line_ranges(b);
    let starts = segment_starts(b, ranges.take(m));
    let file = |l: Seq<u8>| opens_file(l);
    let any = |l: Seq<u8>| opens_file(l) || opens_merge(l);
    let single = |s: (int, bool)| !s.1;
    if m == 0 {
        reveal(Seq::filter);
        assert(ranges.take(0) =~= Seq::<(int, int)>::empty());
        assert(lines.take(0) =~= Seq::<Seq<u8>>::empty());
        assert(starts =~= Seq::<(int, bool)>::empty());
    } else {
        lemma_starts_of_lines(b, m - 1);
        lemma_take_step(ranges, m - 1);
        lemma_take_step(lines, m - 1);
        let line = lines[m - 1];
        let was = segment_starts(b, ranges.take(m - 1));
        assert(line == b.subrange(ranges[m - 1].0, ranges[m - 1].1));
        lemma_filter_step(lines.take(m - 1), line, file);
        lemma_filter_step(lines.take(m - 1), line, any);
        if any(line) {
            let new = (ranges[m - 1].0, !opens_file(line));
            assert(starts == was.push(new));
            lemma_filter_step(was, new, single);
        } else {
            assert(starts == was);
        }
        assert forall|k: int|
            0 <= k < m && (opens_file(#[trigger] lines[k]) || opens_merge(lines[k])) implies {
            let s = diff_count(lines.take(k));
            &&& 0 <= s < starts.len()
            &&& starts[s] == (ranges[k].0, !opens_file(lines[k]))
            &&& starts.take(s).filter(|s: (int, bool)| !s.1).len() == file_count(lines.take(k))
        } by {
            let s = diff_count(lines.take(k));
            if k < m - 1 {
                assert(starts.take(s) =~= was.take(s));
            } else {
                assert(starts.take(s) =~= was);
            }
        }
    }
}

proof fn lemma_diffs_grow(lines: Seq<Seq<u8>>, i: int, j: int)
    requires
        0 <= i <= j <= lines.len(),
        forall|k: int| i <= k < j ==> !opens_file(#[trigger] lines[k]) && !opens_merge(lines[k]),
    ensures
        diff_count(lines.take(i)) == diff_count(lines.take(j)),
    decreases j - i,
{
    if i < j {
        lemma_diffs_grow(lines, i, j - 1);
        lemma_take_step(lines, j - 1);
        lemma_filter_step(
            lines.take(j - 1),
            lines[j - 1],
            |l: Seq<u8>| opens_file(l) || opens_merge(l),
        );
    }
}

proof fn lemma_entries_of_starts(text: Seq<char>, starts: Seq<(int, bool)>, n: int)
    requires
        0 <= n <= starts.len(),
    ensures
        ({
            let v = split_upto(text, starts, n);
            let len = encode_utf8(text).len() as int;
            &&& v.len() == starts.take(n).filter(|s: (int, bool)| !s.1).len()
            &&& forall|s: int|
                0 <= s < n && !(#[trigger] starts[s]).1 ==> {
                    let c = starts.take(s).filter(|s: (int, bool)| !s.1).len() as int;
                    &&& 0 <= c < v.len()
                    &&& v[c] == segment_entry(
                        text_slice(text, starts[s].0, segment_end(starts, s, len)),
                    )
                }
        }),
    decreases n,
{
    let single = |s: (int, bool)| !s.1;
    if n == 0 {
        reveal(Seq::filter);
        assert(starts.take(0) =~= Seq::<(int, bool)>::empty());
    } else {
        lemma_entries_of_starts(text, starts, n - 1);
        lemma_take_step(starts, n - 1);
        lemma_filter_step(starts.take(n - 1), starts[n - 1], single);
    }
}

/// Every `diff --git ` line of a text begins one file, whose diff is the text from that
/// line up to the next diff, parsed and classified on its own; and there are no other
/// files. Text in front of the first diff is in none of them, and neither are combined
/// diffs.
pub proof fn law_split_takes_each_file(text: Seq<char>, k: int, e: int)
    requires
        file_lines(raw_lines(encode_utf8(text)), k, e),
    ensures
        ({
            let b = encode_utf8(text);
            let lines = raw_lines(b);
            let v = split_model(text);
            let c = file_count(lines.take(k));
            let part = text_slice(text, line_place(b, k), line_place(b, e));
            &&& v.len() == file_count(lines)
            &&& 0 <= c < v.len()
            &&& (v[c].0.path, v[c].0.kind) == classify_model(part)
            &&& v[c].1 == parse_model(part, v[c].0.path)
            &&& v[c].0.additions == low_bits(count_in_chunks(v[c].1.chunks, LineKind::Add))
            &&& v[c].0.deletions == low_bits(count_in_chunks(v[c].1.chunks, LineKind::Del))
        }),
{
    let b = encode_utf8(text);
    let lines = raw_lines(b);
    let ranges = line_ranges(b);
    let n = ranges.len() as int;
    let starts = segment_starts(b, ranges);
    assert(ranges.take(n) =~= ranges);
    assert(lines.take(n) =~= lines);
    lemma_starts_of_lines(b, n);
    assert(starts.take(starts.len() as int) =~= starts);
    lemma_entries_of_starts(text, starts, starts.len() as int);
    let s = diff_count(lines.take(k));
    assert(opens_file(lines[k]));
    lemma_take_step(lines, k);
    lemma_filter_step(lines.take(k), lines[k], |l: Seq<u8>| opens_file(l) || opens_merge(l));
    lemma_diffs_grow(lines, k + 1, e);
    if e < n {
        assert(opens_file(lines[e]) || opens_merge(lines[e]));
        assert(starts[s + 1].0 == ranges[e].0);
    } else {
        assert(starts.len() == s + 1);
    }
    assert(segment_end(starts, s, b.len() as int) == line_place(b, e));
    assert(!starts[s].1);
}

/// A text without a `diff --git ` line has no files.
pub proof fn law_no_file_without_its_line(text: Seq<char>)
    ensures
        split_model(text).len() == file_count(raw_lines(encode_utf8(text))),
{
    let b = encode_utf8(text);
    let ranges = line_ranges(b);
    let n = ranges.len() as int;
    let starts = segment_starts(b, ranges);
    assert(ranges.take(n) =~= ranges);
    assert(raw_lines(b).take(n) =~= raw_lines(b));
    lemma_starts_of_lines(b, n);
    assert(starts.take(starts.len() as int) =~= starts);
    lemma_entries_of_starts(text, starts, starts.len() as int);
}

} // verus!
