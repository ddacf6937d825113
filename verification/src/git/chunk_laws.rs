//! What holds of the chunks of a parsed diff: their numbers, their counts, and what
//! their hashes cover.

use vstd::prelude::*;
use vstd::utf8::*;

use crate::git::diff::{
    chunk_bytes, chunk_starts, field_start, header_core, header_starts, kind_byte, law_line_numbers,
    line_numbered, lines_bytes, new_lines, numbered, old_lines, parse_lines, parse_model,
};
use crate::git::parse_laws::{
    chunk_count, chunk_lines, has_mark, law_chunk_counts, law_chunk_keeps_lines, lemma_filter_step,
    lemma_one_line, lemma_parsed_on_single_lines, marked, on_single_lines, opens_chunk, raw_lines,
};
use crate::model::diff::{count_in_chunks, count_kind, low_bits, DiffLine, HunkModel, LineKind};
use crate::text::{
    decimal, digit, first_occurrence, lemma_decimal_round_trip, line_ranges, occurs_at, text_slice,
    words, NEWLINE,
};
use crate::text_laws::{
    law_before, law_first_occurrence, law_number_round_trip, law_one_word, law_words_part, solid,
};

verus! {

// ── headers ────────────────────────────────────────────────────────────────

/// One side of a chunk header: the first line, and the number of lines where it is
/// written.
pub open spec fn side_text(start: u32, count: Option<u32>) -> Seq<char> {
    match count {
        Some(n) => decimal(start as nat).push(',') + decimal(n as nat),
        None => decimal(start as nat),
    }
}

/// The header of a chunk as git writes it, with what it says of the context behind it.
pub open spec fn header_text(
    old_start: u32,
    old_count: Option<u32>,
    new_start: u32,
    new_count: Option<u32>,
    context: Seq<char>,
) -> Seq<char> {
    seq!['@', '@', ' ', '-'] + side_text(old_start, old_count) + seq![' ', '+'] + side_text(
        new_start,
        new_count,
    ) + seq![' ', '@', '@'] + context
}

proof fn lemma_side(start: u32, count: Option<u32>, mark: char)
    requires
        mark == '-' || mark == '+',
    ensures
        field_start(side_text(start, count)) == start,
        solid(seq![mark] + side_text(start, count)),
        forall|i: int|
            0 <= i < side_text(start, count).len() ==> #[trigger] side_text(start, count)[i] != '@',
{
    let d = decimal(start as nat);
    let s = side_text(start, count);
    law_number_round_trip(start);
    lemma_decimal_round_trip(start as nat);
    let n = match count {
        Some(n) => n,
        None => 0,
    };
    let e = decimal(n as nat);
    lemma_decimal_round_trip(n as nat);
    assert(!d.contains(',')) by {
        if d.contains(',') {
            let i = choose|i: int| 0 <= i < d.len() && d[i] == ',';
            assert(digit(d[i]));
        }
    }
    law_before(d, ',', e);
    assert forall|i: int| 0 <= i < s.len() implies digit(#[trigger] s[i]) || s[i] == ',' by {
        if i < d.len() {
            assert(s[i] == d[i]);
            assert(digit(d[i]));
        } else if i > d.len() {
            assert(s[i] == e[i - d.len() - 1]);
            assert(digit(e[i - d.len() - 1]));
        }
    }
    let w = seq![mark] + s;
    assert forall|i: int| 0 <= i < w.len() implies !crate::text::white_space(#[trigger] w[i]) by {
        if i > 0 {
            assert(w[i] == s[i - 1]);
        }
    }
}

/// The first line numbers are read from a header as git writes it, with or without the
/// numbers of lines, whatever is said of the context.
pub proof fn law_header_reads_back(
    old_start: u32,
    old_count: Option<u32>,
    new_start: u32,
    new_count: Option<u32>,
    context: Seq<char>,
)
    ensures
        chunk_starts(header_text(old_start, old_count, new_start, new_count, context)) == (
            old_start,
            new_start,
        ),
{
    reveal_strlit("@@");
    let o = side_text(old_start, old_count);
    let n = side_text(new_start, new_count);
    let h = header_text(old_start, old_count, new_start, new_count, context);
    let at = "@@"@;
    lemma_side(old_start, old_count, '-');
    lemma_side(new_start, new_count, '+');
    assert(h.take(2) =~= at);
    let after = h.skip(2);
    let core = seq![' ', '-'] + o + seq![' ', '+'] + n + seq![' '];
    assert(after =~= core + at + context);
    let len = core.len() as int;
    assert(occurs_at(after, at, len)) by {
        assert(after.subrange(len, len + 2) =~= at);
    }
    law_first_occurrence(after, at, 0);
    let found = first_occurrence(after, at, 0);
    assert(found is Some);
    if found->0 < len {
        assert(after.subrange(found->0, found->0 + 2)[0] == after[found->0]);
        assert(core[found->0] != '@') by {
            let i = found->0;
            if 2 <= i < 2 + o.len() {
                assert(core[i] == o[i - 2]);
            } else if 4 + o.len() <= i < 4 + o.len() + n.len() {
                assert(core[i] == n[i - 4 - o.len()]);
            }
        }
        assert(false);
    }
    assert(found->0 == len);
    assert(after.take(len) =~= core);
    assert(header_core(h) == core);
    let minus = seq!['-'] + o;
    let plus = seq!['+'] + n;
    let e = Seq::<char>::empty();
    let tail = plus.push(' ') + e;
    let rest = minus.push(' ') + tail;
    assert(core =~= e.push(' ') + rest);
    law_words_part(e, ' ', rest);
    law_words_part(minus, ' ', tail);
    law_words_part(plus, ' ', e);
    law_one_word(e);
    law_one_word(minus);
    law_one_word(plus);
    let fields = seq![minus, plus];
    assert(words(core) =~= fields);
    assert(fields.drop_last() =~= seq![minus]);
    assert(seq![minus].drop_last() =~= Seq::<Seq<char>>::empty());
    assert(minus.skip(1) =~= o);
    assert(plus.skip(1) =~= n);
    assert(header_starts(Seq::<Seq<char>>::empty()) == (0u32, 0u32));
    assert(header_starts(seq![minus]) == (old_start, 0u32));
}

// ── numbers ────────────────────────────────────────────────────────────────

/// The lines that have a number in the old file (`old`) or the new one.
pub open spec fn with_number(lines: Seq<DiffLine>, old: bool) -> int {
    lines.filter(
        |l: DiffLine|
            if old {
                l.old_no is Some
            } else {
                l.new_no is Some
            },
    ).len() as int
}

/// The line has a number on the sides that it stands on, and on no other: context on
/// both, a deleted line in the old file, an added one in the new file.
pub open spec fn on_its_sides(l: DiffLine) -> bool {
    &&& l.old_no is Some <==> l.kind == LineKind::Context || l.kind == LineKind::Del
    &&& l.new_no is Some <==> l.kind == LineKind::Context || l.kind == LineKind::Add
}

/// Line `i` has the number behind that of the line before it on each of its sides; the
/// first line of a side has the number in the header.
pub open spec fn counts_up(lines: Seq<DiffLine>, i: int, old_start: u32, new_start: u32) -> bool {
    &&& lines[i].old_no is Some ==> lines[i].old_no->0 == (old_start + with_number(
        lines.take(i),
        true,
    )) % 0x1_0000_0000
    &&& lines[i].new_no is Some ==> lines[i].new_no->0 == (new_start + with_number(
        lines.take(i),
        false,
    )) % 0x1_0000_0000
}

proof fn lemma_with_number(lines: Seq<DiffLine>, old: bool)
    requires
        forall|i: int| 0 <= i < lines.len() ==> on_its_sides(#[trigger] lines[i]),
    ensures
        with_number(lines, old) == if old {
            old_lines(lines)
        } else {
            new_lines(lines)
        },
    decreases lines.len(),
{
    reveal(Seq::filter);
    if lines.len() > 0 {
        let was = lines.drop_last();
        assert forall|i: int| 0 <= i < was.len() implies on_its_sides(#[trigger] was[i]) by {
            assert(was[i] == lines[i]);
        }
        lemma_with_number(was, old);
        assert(on_its_sides(lines[lines.len() - 1]));
    }
}

/// The lines of a chunk have the numbers that its header gives: each stands on the sides
/// of its kind, each side counts up from the number in the header, and where the body
/// holds as many lines of a side as the header says (git's always does), the chunk has
/// exactly those lines on that side.
pub proof fn law_chunk_numbers(
    text: Seq<char>,
    path: Seq<char>,
    k: int,
    e: int,
    old_start: u32,
    old_count: Option<u32>,
    new_start: u32,
    new_count: Option<u32>,
    context: Seq<char>,
)
    requires
        encode_utf8(text).len() <= usize::MAX,
        chunk_lines(raw_lines(encode_utf8(text)), k, e),
        raw_lines(encode_utf8(text))[k] == encode_utf8(
            header_text(old_start, old_count, new_start, new_count, context),
        ),
    ensures
        ({
            let all = raw_lines(encode_utf8(text));
            let body = all.subrange(k + 1, e);
            let lines = parse_model(text, path).chunks[chunk_count(all.take(k))].lines;
            &&& forall|i: int|
                0 <= i < lines.len() ==> on_its_sides(#[trigger] lines[i]) && counts_up(
                    lines,
                    i,
                    old_start,
                    new_start,
                )
            &&& with_number(lines, true) == marked(body, LineKind::Context) + marked(
                body,
                LineKind::Del,
            )
            &&& with_number(lines, false) == marked(body, LineKind::Context) + marked(
                body,
                LineKind::Add,
            )
        }),
{
    let b = encode_utf8(text);
    let all = raw_lines(b);
    let c = chunk_count(all.take(k));
    let h = header_text(old_start, old_count, new_start, new_count, context);
    law_chunk_keeps_lines(text, path, k, e);
    law_line_numbers(text, path);
    law_header_reads_back(old_start, old_count, new_start, new_count, context);
    law_chunk_counts(text, path, k, e, LineKind::Context);
    law_chunk_counts(text, path, k, e, LineKind::Del);
    law_chunk_counts(text, path, k, e, LineKind::Add);
    let chunk = parse_model(text, path).chunks[c];
    let lines = chunk.lines;
    assert(numbered(text, chunk));
    assert(b.subrange(chunk.header.start as int, chunk.header.end as int) == encode_utf8(h));
    encode_utf8_decode_utf8(h);
    assert(text_slice(text, chunk.header.start as int, chunk.header.end as int) == h);
    let starts = (old_start, new_start);
    assert forall|i: int| 0 <= i < lines.len() implies on_its_sides(#[trigger] lines[i]) by {
        assert(line_numbered(starts, lines, i));
    }
    assert forall|i: int| 0 <= i < lines.len() implies #[trigger] on_its_sides(lines[i])
        && counts_up(lines, i, old_start, new_start) by {
        assert(line_numbered(starts, lines, i));
        let before = lines.take(i);
        assert forall|j: int| 0 <= j < before.len() implies on_its_sides(#[trigger] before[j]) by {
            assert(before[j] == lines[j]);
        }
        lemma_with_number(before, true);
        lemma_with_number(before, false);
    }
    lemma_with_number(lines, true);
    lemma_with_number(lines, false);
}

// ── counts ─────────────────────────────────────────────────────────────────

proof fn lemma_count_in_chunks_push(chunks: Seq<HunkModel>, c: HunkModel, kind: LineKind)
    ensures
        count_in_chunks(chunks.push(c), kind) == count_in_chunks(chunks, kind) + count_kind(
            c.lines,
            kind,
        ),
{
    assert(chunks.push(c).drop_last() =~= chunks);
}

proof fn lemma_total_prefix(text: Seq<char>, k: int, m: int, kind: LineKind)
    requires
        encode_utf8(text).len() <= usize::MAX,
        0 <= k <= m <= raw_lines(encode_utf8(text)).len(),
        forall|j: int| 0 <= j < k ==> !opens_chunk(#[trigger] raw_lines(encode_utf8(text))[j]),
        k < m ==> opens_chunk(raw_lines(encode_utf8(text))[k]),
    ensures
        ({
            let b = encode_utf8(text);
            let chunks = parse_lines(text, line_ranges(b).take(m)).chunks;
            &&& k < m <==> chunks.len() > 0
            &&& count_in_chunks(chunks, kind) == marked(raw_lines(b).subrange(k, m), kind)
        }),
    decreases m,
{
    let b = encode_utf8(text);
    let lines = raw_lines(b);
    let pred = |l: Seq<u8>| has_mark(l, kind);
    let now = parse_lines(text, line_ranges(b).take(m)).chunks;
    if m == 0 {
        reveal(Seq::filter);
        assert(lines.subrange(0, 0) =~= Seq::<Seq<u8>>::empty());
        assert(line_ranges(b).take(0) =~= Seq::<(int, int)>::empty());
    } else {
        let was = parse_lines(text, line_ranges(b).take(m - 1)).chunks;
        lemma_one_line(text, m);
        let line = lines[m - 1];
        if k == m {
            lemma_total_prefix(text, k - 1, m - 1, kind);
            reveal(Seq::filter);
            assert(lines.subrange(k, m) =~= Seq::<Seq<u8>>::empty());
            assert(lines.subrange(k - 1, m - 1) =~= Seq::<Seq<u8>>::empty());
            assert(!opens_chunk(lines[m - 1]));
        } else {
            lemma_total_prefix(text, k, m - 1, kind);
            assert(lines.subrange(k, m) =~= lines.subrange(k, m - 1).push(line));
            lemma_filter_step(lines.subrange(k, m - 1), line, pred);
            if opens_chunk(line) {
                lemma_count_in_chunks_push(was, now.last(), kind);
                assert(now.drop_last() =~= was);
            } else if now != was {
                let last = was.len() - 1;
                assert(now.drop_last() =~= was.drop_last());
                assert(now[last].lines.len() > 0);
                assert(now.last() == now[last]);
                assert(was.last() == was[last]);
            } else {
                assert(was.len() > 0);
            }
        }
    }
}

/// The added and the deleted lines of a diff are those with their mark behind the first
/// chunk header, counted in 32 bits.
pub proof fn law_line_totals(text: Seq<char>, path: Seq<char>, k: int, kind: LineKind)
    requires
        encode_utf8(text).len() <= usize::MAX,
        0 <= k <= raw_lines(encode_utf8(text)).len(),
        forall|j: int| 0 <= j < k ==> !opens_chunk(#[trigger] raw_lines(encode_utf8(text))[j]),
        k < raw_lines(encode_utf8(text)).len() ==> opens_chunk(raw_lines(encode_utf8(text))[k]),
    ensures
        ({
            let n = marked(raw_lines(encode_utf8(text)).skip(k), kind);
            let total = count_in_chunks(parse_model(text, path).chunks, kind);
            &&& total == n
            &&& n <= u32::MAX ==> low_bits(total) == n
        }),
{
    let b = encode_utf8(text);
    let lines = raw_lines(b);
    let n = lines.len() as int;
    lemma_total_prefix(text, k, n, kind);
    assert(line_ranges(b).take(n) =~= line_ranges(b));
    assert(lines.subrange(k, n) =~= lines.skip(k));
}

// ── hashes ─────────────────────────────────────────────────────────────────

/// Two chunks say the same: the same header, and line by line the same kind and text.
pub open spec fn same_content(a: Seq<u8>, c: HunkModel, b: Seq<u8>, d: HunkModel) -> bool {
    &&& a.subrange(c.header.start as int, c.header.end as int) == b.subrange(
        d.header.start as int,
        d.header.end as int,
    )
    &&& same_lines(a, c.lines, b, d.lines)
}

pub open spec fn same_lines(
    a: Seq<u8>,
    c: Seq<DiffLine>,
    b: Seq<u8>,
    d: Seq<DiffLine>,
) -> bool {
    &&& c.len() == d.len()
    &&& forall|i: int|
        #![trigger c[i]]
        #![trigger d[i]]
        0 <= i < c.len() ==> c[i].kind == d[i].kind && a.subrange(
            c[i].text.start as int,
            c[i].text.end as int,
        ) == b.subrange(d[i].text.start as int, d[i].text.end as int)
}

/// Two texts with a last line each, behind the last newline.
proof fn lemma_last_line(x: Seq<u8>, s: Seq<u8>, y: Seq<u8>, t: Seq<u8>)
    requires
        !s.contains(NEWLINE),
        !t.contains(NEWLINE),
        x.push(NEWLINE) + s == y.push(NEWLINE) + t,
    ensures
        x == y,
        s == t,
{
    let z = x.push(NEWLINE) + s;
    let w = y.push(NEWLINE) + t;
    assert(z.len() == x.len() + 1 + s.len() && w.len() == y.len() + 1 + t.len());
    assert(z[x.len() as int] == NEWLINE && w[y.len() as int] == NEWLINE);
    if x.len() < y.len() {
        let i = y.len() - x.len() - 1;
        assert(z[y.len() as int] == s[i]);
        assert(s.contains(s[i]));
    } else if y.len() < x.len() {
        let i = x.len() - y.len() - 1;
        assert(w[x.len() as int] == t[i]);
        assert(t.contains(t[i]));
    }
    assert(x =~= z.take(x.len() as int));
    assert(y =~= z.take(x.len() as int));
    assert(s =~= z.skip(x.len() as int + 1));
    assert(t =~= z.skip(x.len() as int + 1));
}

/// `lines_bytes` with a line more.
proof fn lemma_lines_bytes_last(text: Seq<char>, head: Seq<u8>, lines: Seq<DiffLine>)
    requires
        lines.len() > 0,
    ensures
        ({
            let l = lines.last();
            head + lines_bytes(text, lines) == (head + lines_bytes(text, lines.drop_last())).push(
                NEWLINE,
            ) + (seq![kind_byte(l.kind)] + encode_utf8(text).subrange(
                l.text.start as int,
                l.text.end as int,
            ))
        }),
{
    let l = lines.last();
    let had = lines_bytes(text, lines.drop_last());
    let shown = encode_utf8(text).subrange(l.text.start as int, l.text.end as int);
    assert(head + (had.push(NEWLINE).push(kind_byte(l.kind)) + shown) =~= (head + had).push(
        NEWLINE,
    ) + (seq![kind_byte(l.kind)] + shown));
}

proof fn lemma_bytes_tell_lines(
    ta: Seq<char>,
    ha: Seq<u8>,
    la: Seq<DiffLine>,
    tb: Seq<char>,
    hb: Seq<u8>,
    lb: Seq<DiffLine>,
)
    requires
        !ha.contains(NEWLINE),
        !hb.contains(NEWLINE),
        forall|i: int|
            0 <= i < la.len() ==> !encode_utf8(ta).subrange(
                (#[trigger] la[i]).text.start as int,
                la[i].text.end as int,
            ).contains(NEWLINE),
        forall|i: int|
            0 <= i < lb.len() ==> !encode_utf8(tb).subrange(
                (#[trigger] lb[i]).text.start as int,
                lb[i].text.end as int,
            ).contains(NEWLINE),
        ha + lines_bytes(ta, la) == hb + lines_bytes(tb, lb),
    ensures
        ha == hb,
        same_lines(encode_utf8(ta), la, encode_utf8(tb), lb),
    decreases la.len() + lb.len(),
{
    let a = encode_utf8(ta);
    let b = encode_utf8(tb);
    if la.len() == 0 {
        assert(ha + lines_bytes(ta, la) =~= ha);
    }
    if lb.len() == 0 {
        assert(hb + lines_bytes(tb, lb) =~= hb);
    }
    if la.len() > 0 {
        lemma_lines_bytes_last(ta, ha, la);
        let at = (ha + lines_bytes(ta, la.drop_last())).len() as int;
        assert((ha + lines_bytes(ta, la))[at] == NEWLINE);
        if lb.len() == 0 {
            assert(hb[at] == NEWLINE);
        }
    }
    if lb.len() > 0 {
        lemma_lines_bytes_last(tb, hb, lb);
        let at = (hb + lines_bytes(tb, lb.drop_last())).len() as int;
        assert((hb + lines_bytes(tb, lb))[at] == NEWLINE);
        if la.len() == 0 {
            assert(ha[at] == NEWLINE);
        }
    }
    if la.len() > 0 && lb.len() > 0 {
        let x = la.last();
        let y = lb.last();
        let xs = a.subrange(x.text.start as int, x.text.end as int);
        let ys = b.subrange(y.text.start as int, y.text.end as int);
        let s = seq![kind_byte(x.kind)] + xs;
        let t = seq![kind_byte(y.kind)] + ys;
        assert(x == la[la.len() - 1] && y == lb[lb.len() - 1]);
        lemma_no_newline(kind_byte(x.kind), xs);
        lemma_no_newline(kind_byte(y.kind), ys);
        lemma_last_line(
            ha + lines_bytes(ta, la.drop_last()),
            s,
            hb + lines_bytes(tb, lb.drop_last()),
            t,
        );
        assert(s[0] == t[0]);
        assert(s.skip(1) =~= xs);
        assert(t.skip(1) =~= ys);
        let pa = la.drop_last();
        let pb = lb.drop_last();
        assert forall|i: int| 0 <= i < pa.len() implies !a.subrange(
            (#[trigger] pa[i]).text.start as int,
            pa[i].text.end as int,
        ).contains(NEWLINE) by {
            assert(pa[i] == la[i]);
        }
        assert forall|i: int| 0 <= i < pb.len() implies !b.subrange(
            (#[trigger] pb[i]).text.start as int,
            pb[i].text.end as int,
        ).contains(NEWLINE) by {
            assert(pb[i] == lb[i]);
        }
        lemma_bytes_tell_lines(ta, ha, pa, tb, hb, pb);
        assert forall|i: int|
            #![trigger la[i]]
            #![trigger lb[i]]
            0 <= i < la.len() implies la[i].kind == lb[i].kind && a.subrange(
            la[i].text.start as int,
            la[i].text.end as int,
        ) == b.subrange(lb[i].text.start as int, lb[i].text.end as int) by {
            if i < pa.len() {
                assert(pa[i] == la[i] && pb[i] == lb[i]);
            }
        }
    }
}

proof fn lemma_no_newline(mark: u8, s: Seq<u8>)
    requires
        mark != NEWLINE,
        !s.contains(NEWLINE),
    ensures
        !(seq![mark] + s).contains(NEWLINE),
{
    let t = seq![mark] + s;
    if t.contains(NEWLINE) {
        let i = choose|i: int| 0 <= i < t.len() && t[i] == NEWLINE;
        assert(s[i - 1] == NEWLINE);
    }
}

/// What is hashed of a chunk tells all of it: two chunks whose hashed bytes are the same
/// have the same header and the same number of lines, with the same kinds and the same
/// texts. So a chunk that changes in any way hashes other bytes than before.
pub proof fn law_hashed_bytes_tell_chunk(
    ta: Seq<char>,
    pa: Seq<char>,
    i: int,
    tb: Seq<char>,
    pb: Seq<char>,
    j: int,
)
    requires
        encode_utf8(ta).len() <= usize::MAX,
        encode_utf8(tb).len() <= usize::MAX,
        0 <= i < parse_model(ta, pa).chunks.len(),
        0 <= j < parse_model(tb, pb).chunks.len(),
        chunk_bytes(ta, parse_model(ta, pa).chunks[i]) == chunk_bytes(
            tb,
            parse_model(tb, pb).chunks[j],
        ),
    ensures
        same_content(
            encode_utf8(ta),
            parse_model(ta, pa).chunks[i],
            encode_utf8(tb),
            parse_model(tb, pb).chunks[j],
        ),
{
    let a = encode_utf8(ta);
    let b = encode_utf8(tb);
    let c = parse_model(ta, pa).chunks[i];
    let d = parse_model(tb, pb).chunks[j];
    lemma_parsed_on_single_lines(ta, pa);
    lemma_parsed_on_single_lines(tb, pb);
    assert(on_single_lines(a, c));
    assert(on_single_lines(b, d));
    lemma_bytes_tell_lines(
        ta,
        a.subrange(c.header.start as int, c.header.end as int),
        c.lines,
        tb,
        b.subrange(d.header.start as int, d.header.end as int),
        d.lines,
    );
}

/// A chunk that stays as it is hashes the same bytes, whatever else its diff holds and
/// wherever in it the chunk stands.
pub proof fn law_same_chunk_same_bytes(ta: Seq<char>, c: HunkModel, tb: Seq<char>, d: HunkModel)
    requires
        same_content(encode_utf8(ta), c, encode_utf8(tb), d),
    ensures
        chunk_bytes(ta, c) == chunk_bytes(tb, d),
{
    lemma_same_lines_bytes(ta, c.lines, tb, d.lines);
}

proof fn lemma_same_lines_bytes(
    ta: Seq<char>,
    la: Seq<DiffLine>,
    tb: Seq<char>,
    lb: Seq<DiffLine>,
)
    requires
        same_lines(encode_utf8(ta), la, encode_utf8(tb), lb),
    ensures
        lines_bytes(ta, la) == lines_bytes(tb, lb),
    decreases la.len(),
{
    if la.len() > 0 {
        let pa = la.drop_last();
        let pb = lb.drop_last();
        assert(la[la.len() - 1].kind == lb[la.len() - 1].kind);
        assert forall|i: int|
            #![trigger pa[i]]
            #![trigger pb[i]]
            0 <= i < pa.len() implies pa[i].kind == pb[i].kind && encode_utf8(ta).subrange(
            pa[i].text.start as int,
            pa[i].text.end as int,
        ) == encode_utf8(tb).subrange(pb[i].text.start as int, pb[i].text.end as int) by {
            assert(pa[i] == la[i] && pb[i] == lb[i]);
        }
        lemma_same_lines_bytes(ta, pa, tb, pb);
    }
}

} // verus!
