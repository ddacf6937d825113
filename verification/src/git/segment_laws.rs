//! What the header lines of a file's segment say of it, in whatever order they come.

use vstd::prelude::*;
use vstd::utf8::*;

use crate::git::segment::{
    behind, classify_model, content_lines, content_range, git_line_path_of, header_scan,
    header_step, no_header, side_path_of, unescape, unquoted, HeaderModel,
};
use crate::model::file::KindModel;
use crate::text::{
    begins, last_occurrence, lemma_boundary_at_ascii, lemma_encode_concat,
    lemma_line_is_text_range, lemma_line_ranges, lemma_slice_bytes, line_range_ok, line_ranges,
    occurs_at, utf8_lossy,
};
use crate::text_laws::{law_before, law_last_occurrence};

verus! {

/// The header of a segment: the lines in front of its first chunk.
pub open spec fn header_lines(lines: Seq<Seq<char>>, e: int) -> bool {
    &&& 0 <= e <= lines.len()
    &&& forall|j: int| 0 <= j < e ==> !begins(#[trigger] lines[j], "@@"@)
    &&& e < lines.len() ==> begins(lines[e], "@@"@)
}

/// A line of the header begins with `p`.
pub open spec fn some_line(lines: Seq<Seq<char>>, e: int, p: Seq<char>) -> bool {
    exists|j: int| 0 <= j < e && begins(#[trigger] lines[j], p)
}

/// Line `k` of the header begins with `p`, and none behind it begins with `p` or `q`.
pub open spec fn last_line(
    lines: Seq<Seq<char>>,
    e: int,
    p: Seq<char>,
    q: Seq<char>,
    k: int,
) -> bool {
    &&& 0 <= k < e
    &&& begins(lines[k], p)
    &&& forall|j: int|
        k < j < e ==> !begins(#[trigger] lines[j], p) && !begins(lines[j], q)
}

// ── reading line by line ───────────────────────────────────────────────────

/// What the first `n` lines say.
spec fn read_upto(h: HeaderModel, lines: Seq<Seq<char>>, n: int) -> HeaderModel
    decreases n,
{
    if n <= 0 {
        h
    } else {
        header_step(read_upto(h, lines, n - 1), lines[n - 1])
    }
}

proof fn lemma_read_first(h: HeaderModel, lines: Seq<Seq<char>>, n: int)
    requires
        0 < n <= lines.len(),
    ensures
        read_upto(h, lines, n) == read_upto(header_step(h, lines[0]), lines.skip(1), n - 1),
    decreases n,
{
    if n > 1 {
        lemma_read_first(h, lines, n - 1);
        assert(lines.skip(1)[n - 2] == lines[n - 1]);
    } else {
        assert(read_upto(h, lines, 0) == h);
    }
}

proof fn lemma_scan_is_read(h: HeaderModel, lines: Seq<Seq<char>>, e: int)
    requires
        header_lines(lines, e),
    ensures
        header_scan(h, lines) == read_upto(h, lines, e),
    decreases lines.len(),
{
    if e > 0 {
        let rest = lines.skip(1);
        assert(!begins(lines[0], "@@"@));
        assert forall|j: int| 0 <= j < e - 1 implies !begins(#[trigger] rest[j], "@@"@) by {
            assert(rest[j] == lines[j + 1]);
        }
        if e - 1 < rest.len() {
            assert(rest[e - 1] == lines[e]);
        }
        lemma_scan_is_read(header_step(h, lines[0]), rest, e - 1);
        lemma_read_first(h, lines, e);
    }
}

/// The last of the first `n` lines that begins with `p` or `q`.
spec fn last_at(lines: Seq<Seq<char>>, n: int, p: Seq<char>, q: Seq<char>) -> Option<int>
    decreases n,
{
    if n <= 0 {
        None
    } else if begins(lines[n - 1], p) || begins(lines[n - 1], q) {
        Some(n - 1)
    } else {
        last_at(lines, n - 1, p, q)
    }
}

proof fn lemma_last_at(lines: Seq<Seq<char>>, n: int, p: Seq<char>, q: Seq<char>)
    ensures
        match last_at(lines, n, p, q) {
            Some(k) => {
                &&& 0 <= k < n
                &&& begins(lines[k], p) || begins(lines[k], q)
                &&& forall|j: int|
                    k < j < n ==> !begins(#[trigger] lines[j], p) && !begins(lines[j], q)
            },
            None => forall|j: int|
                0 <= j < n ==> !begins(#[trigger] lines[j], p) && !begins(lines[j], q),
        },
    decreases n,
{
    if n > 0 && !(begins(lines[n - 1], p) || begins(lines[n - 1], q)) {
        lemma_last_at(lines, n - 1, p, q);
    }
}

/// Two header lines that begin differently.
proof fn lemma_tags(line: Seq<char>)
    ensures
        begins(line, "diff --git "@) ==> line[0] == 'd' && line[1] == 'i',
        begins(line, "new file mode "@) ==> line[0] == 'n',
        begins(line, "deleted file mode "@) ==> line[0] == 'd' && line[1] == 'e',
        begins(line, "rename from "@) ==> line[0] == 'r' && line[7] == 'f',
        begins(line, "rename to "@) ==> line[0] == 'r' && line[7] == 't',
        begins(line, "copy from "@) ==> line[0] == 'c' && line[5] == 'f',
        begins(line, "copy to "@) ==> line[0] == 'c' && line[5] == 't',
        begins(line, "--- "@) ==> line[0] == '-',
        begins(line, "+++ "@) ==> line[0] == '+',
        "diff --git "@.len() == 11,
        "rename from "@.len() == 12,
        "rename to "@.len() == 10,
        "copy from "@.len() == 10,
        "copy to "@.len() == 8,
        "--- "@.len() == 4,
        "+++ "@.len() == 4,
{
    reveal_strlit("diff --git ");
    reveal_strlit("new file mode ");
    reveal_strlit("deleted file mode ");
    reveal_strlit("rename from ");
    reveal_strlit("rename to ");
    reveal_strlit("copy from ");
    reveal_strlit("copy to ");
    reveal_strlit("--- ");
    reveal_strlit("+++ ");
    lemma_begins(line, "diff --git "@, 0);
    lemma_begins(line, "diff --git "@, 1);
    lemma_begins(line, "new file mode "@, 0);
    lemma_begins(line, "deleted file mode "@, 0);
    lemma_begins(line, "deleted file mode "@, 1);
    lemma_begins(line, "rename from "@, 0);
    lemma_begins(line, "rename from "@, 7);
    lemma_begins(line, "rename to "@, 0);
    lemma_begins(line, "rename to "@, 7);
    lemma_begins(line, "copy from "@, 0);
    lemma_begins(line, "copy from "@, 5);
    lemma_begins(line, "copy to "@, 0);
    lemma_begins(line, "copy to "@, 5);
    lemma_begins(line, "--- "@, 0);
    lemma_begins(line, "+++ "@, 0);
}

proof fn lemma_begins(line: Seq<char>, p: Seq<char>, i: int)
    requires
        0 <= i < p.len(),
    ensures
        begins(line, p) ==> line[i] == p[i],
{
    if begins(line, p) {
        assert(line.take(p.len() as int)[i] == line[i]);
    }
}

/// What a line has behind the one of two prefixes that it begins with.
spec fn behind_either(line: Seq<char>, p: Seq<char>, q: Seq<char>) -> Seq<char> {
    if begins(line, p) {
        behind(line, p)
    } else {
        behind(line, q)
    }
}

/// What is known after `n` lines comes from the last line of each sort.
#[verifier::spinoff_prover]
proof fn lemma_read(lines: Seq<Seq<char>>, n: int)
    requires
        0 <= n <= lines.len(),
    ensures
        ({
            let h = read_upto(no_header(), lines, n);
            &&& h.new_file <==> last_at(lines, n, "new file mode "@, "new file mode "@) is Some
            &&& h.deleted_file <==> last_at(
                lines,
                n,
                "deleted file mode "@,
                "deleted file mode "@,
            ) is Some
            &&& h.rename_from == match last_at(lines, n, "rename from "@, "copy from "@) {
                Some(k) => Some(
                    unquoted(behind_either(lines[k], "rename from "@, "copy from "@)),
                ),
                None => None,
            }
            &&& h.rename_to == match last_at(lines, n, "rename to "@, "copy to "@) {
                Some(k) => Some(unquoted(behind_either(lines[k], "rename to "@, "copy to "@))),
                None => None,
            }
            &&& h.plus_path == match last_at(lines, n, "+++ "@, "+++ "@) {
                Some(k) => side_path_of(behind(lines[k], "+++ "@)),
                None => None,
            }
            &&& h.minus_path == match last_at(lines, n, "--- "@, "--- "@) {
                Some(k) => side_path_of(behind(lines[k], "--- "@)),
                None => None,
            }
            &&& h.git_line == match last_at(lines, n, "diff --git "@, "diff --git "@) {
                Some(k) => Some(behind(lines[k], "diff --git "@)),
                None => None,
            }
        }),
    decreases n,
{
    if n > 0 {
        lemma_read(lines, n - 1);
        lemma_tags(lines[n - 1]);
    }
}

proof fn lemma_header(segment: Seq<char>, e: int)
    requires
        header_lines(content_lines(segment), e),
    ensures
        header_scan(no_header(), content_lines(segment)) == read_upto(
            no_header(),
            content_lines(segment),
            e,
        ),
{
    lemma_scan_is_read(no_header(), content_lines(segment), e);
    lemma_read(content_lines(segment), e);
}

// ── the kind of change ─────────────────────────────────────────────────────

/// A `rename from` line in front of the first chunk makes the file a renamed one, with
/// the path that the line names, whatever other header lines there are. So does a
/// `copy from` line. Of several such lines the last one counts.
pub proof fn law_rename_is_kept(segment: Seq<char>, e: int, k: int)
    requires
        header_lines(content_lines(segment), e),
    ensures
        last_line(content_lines(segment), e, "rename from "@, "copy from "@, k)
            ==> classify_model(segment).1 == KindModel::Renamed(
            unquoted(content_lines(segment)[k].skip(12)),
        ),
        last_line(content_lines(segment), e, "copy from "@, "rename from "@, k)
            ==> classify_model(segment).1 == KindModel::Renamed(
            unquoted(content_lines(segment)[k].skip(10)),
        ),
{
    let lines = content_lines(segment);
    lemma_header(segment, e);
    lemma_read(lines, e);
    let last = last_at(lines, e, "rename from "@, "copy from "@);
    lemma_last_at(lines, e, "rename from "@, "copy from "@);
    lemma_tags(lines[k]);
    if last_line(lines, e, "rename from "@, "copy from "@, k) || last_line(
        lines,
        e,
        "copy from "@,
        "rename from "@,
        k,
    ) {
        assert(last is Some);
        if last->0 < k {
            assert(!begins(lines[k], "rename from "@) && !begins(lines[k], "copy from "@));
        } else if last->0 > k {
            assert(begins(lines[last->0], "rename from "@) || begins(
                lines[last->0],
                "copy from "@,
            ));
        }
        assert(last->0 == k);
    }
}

/// Without a line that names a source, a file is added exactly where a line says
/// `new file mode`, else deleted exactly where one says `deleted file mode`, and else
/// modified.
pub proof fn law_kind_without_rename(segment: Seq<char>, e: int)
    requires
        header_lines(content_lines(segment), e),
        !some_line(content_lines(segment), e, "rename from "@),
        !some_line(content_lines(segment), e, "copy from "@),
    ensures
        classify_model(segment).1 == if some_line(
            content_lines(segment),
            e,
            "new file mode "@,
        ) {
            KindModel::Added
        } else if some_line(content_lines(segment), e, "deleted file mode "@) {
            KindModel::Deleted
        } else {
            KindModel::Modified
        },
{
    let lines = content_lines(segment);
    lemma_header(segment, e);
    lemma_read(lines, e);
    lemma_last_at(lines, e, "rename from "@, "copy from "@);
    lemma_last_at(lines, e, "new file mode "@, "new file mode "@);
    lemma_last_at(lines, e, "deleted file mode "@, "deleted file mode "@);
    let last = last_at(lines, e, "rename from "@, "copy from "@);
    if last is Some {
        assert(begins(lines[last->0], "rename from "@) || begins(lines[last->0], "copy from "@));
    }
}

// ── the path ───────────────────────────────────────────────────────────────

/// The path that a line `p <path>` of a `---` and `+++` pair names, where the last such
/// line does not say `/dev/null`.
pub open spec fn side_named(
    lines: Seq<Seq<char>>,
    e: int,
    p: Seq<char>,
    path: Seq<char>,
) -> bool {
    exists|k: int| #[trigger]
        last_line(lines, e, p, p, k) && side_path_of(lines[k].skip(4)) == Some(path)
}

/// No line of a side names a path.
pub open spec fn side_missing(lines: Seq<Seq<char>>, e: int, p: Seq<char>) -> bool {
    ||| !some_line(lines, e, p)
    ||| exists|k: int| #[trigger]
        last_line(lines, e, p, p, k) && side_path_of(lines[k].skip(4)) is None
}

/// The path of a renamed or copied file is the one that it has now.
pub proof fn law_path_of_rename(segment: Seq<char>, e: int, k: int)
    requires
        header_lines(content_lines(segment), e),
    ensures
        last_line(content_lines(segment), e, "rename to "@, "copy to "@, k)
            ==> classify_model(segment).0 == unquoted(content_lines(segment)[k].skip(10)),
        last_line(content_lines(segment), e, "copy to "@, "rename to "@, k)
            ==> classify_model(segment).0 == unquoted(content_lines(segment)[k].skip(8)),
{
    let lines = content_lines(segment);
    lemma_header(segment, e);
    lemma_read(lines, e);
    let last = last_at(lines, e, "rename to "@, "copy to "@);
    lemma_last_at(lines, e, "rename to "@, "copy to "@);
    lemma_tags(lines[k]);
    if last_line(lines, e, "rename to "@, "copy to "@, k) || last_line(
        lines,
        e,
        "copy to "@,
        "rename to "@,
        k,
    ) {
        assert(last is Some);
        if last->0 < k {
            assert(!begins(lines[k], "rename to "@) && !begins(lines[k], "copy to "@));
        } else if last->0 > k {
            assert(begins(lines[last->0], "rename to "@) || begins(lines[last->0], "copy to "@));
        }
        assert(last->0 == k);
    }
}

proof fn lemma_one_tag(lines: Seq<Seq<char>>, e: int, p: Seq<char>)
    ensures
        match last_at(lines, e, p, p) {
            Some(k) => last_line(lines, e, p, p, k) && some_line(lines, e, p) && forall|j: int|
                last_line(lines, e, p, p, j) ==> j == k,
            None => !some_line(lines, e, p) && forall|j: int| !last_line(lines, e, p, p, j),
        },
{
    lemma_last_at(lines, e, p, p);
    match last_at(lines, e, p, p) {
        Some(k) => {
            assert(begins(lines[k], p));
            assert forall|j: int| last_line(lines, e, p, p, j) implies j == k by {
                if j < k {
                    assert(!begins(lines[k], p));
                } else if k < j {
                    assert(!begins(lines[j], p));
                }
            }
        },
        None => {
            assert forall|j: int| !last_line(lines, e, p, p, j) by {
                if last_line(lines, e, p, p, j) {
                    assert(begins(lines[j], p));
                }
            }
        },
    }
}

/// A file that was not renamed is at the path of its new side; a deleted one, which has
/// no new side, at that of its old side; and where no side names a path, at that of the
/// `diff --git` line.
pub proof fn law_path_of_sides(segment: Seq<char>, e: int, path: Seq<char>)
    requires
        header_lines(content_lines(segment), e),
        !some_line(content_lines(segment), e, "rename to "@),
        !some_line(content_lines(segment), e, "copy to "@),
    ensures
        ({
            let lines = content_lines(segment);
            let found = classify_model(segment).0;
            &&& side_named(lines, e, "+++ "@, path) ==> found == path
            &&& side_missing(lines, e, "+++ "@) && side_named(lines, e, "--- "@, path) ==> found
                == path
            &&& side_missing(lines, e, "+++ "@) && side_missing(lines, e, "--- "@) && (exists|
                k: int,
            | #[trigger]
                last_line(lines, e, "diff --git "@, "diff --git "@, k) && git_line_path_of(
                    lines[k].skip(11),
                ) == Some(path)) ==> found == path
        }),
{
    let lines = content_lines(segment);
    lemma_header(segment, e);
    lemma_read(lines, e);
    lemma_last_at(lines, e, "rename to "@, "copy to "@);
    let last = last_at(lines, e, "rename to "@, "copy to "@);
    if last is Some {
        assert(begins(lines[last->0], "rename to "@) || begins(lines[last->0], "copy to "@));
    }
    lemma_one_tag(lines, e, "+++ "@);
    lemma_one_tag(lines, e, "--- "@);
    lemma_one_tag(lines, e, "diff --git "@);
    lemma_tags(Seq::empty());
}

// ── paths in header lines ──────────────────────────────────────────────────

/// The path of a side is what stands behind `a/` or `b/`, up to a tab.
pub proof fn law_side_path(side: char, path: Seq<char>, stamp: Seq<char>)
    requires
        side == 'a' || side == 'b',
        !path.contains('\t'),
    ensures
        side_path_of(seq![side, '/'] + path) == Some(path),
        side_path_of((seq![side, '/'] + path).push('\t') + stamp) == Some(path),
{
    let p = seq![side, '/'] + path;
    assert(!p.contains('\t')) by {
        if p.contains('\t') {
            let i = choose|i: int| 0 <= i < p.len() && p[i] == '\t';
            assert(path[i - 2] == '\t');
        }
    }
    law_before(p, '\t', stamp);
    reveal_strlit("/dev/null");
    reveal_strlit("a/");
    reveal_strlit("b/");
    assert(p[0] == side);
    lemma_not_quoted(p);
    assert(p.take(2) =~= seq![side, '/']);
    assert(seq!['a', '/'] =~= "a/"@);
    assert(seq!['b', '/'] =~= "b/"@);
    lemma_begins(p, "a/"@, 0);
    assert(p.skip(2) =~= path);
}

/// A side that is `/dev/null` names no path.
pub proof fn law_no_side(stamp: Seq<char>)
    ensures
        side_path_of("/dev/null"@) is None,
        side_path_of("/dev/null"@.push('\t') + stamp) is None,
{
    reveal_strlit("/dev/null");
    let p = "/dev/null"@;
    assert(!p.contains('\t'));
    law_before(p, '\t', stamp);
}

proof fn lemma_not_quoted(p: Seq<char>)
    requires
        p.len() > 0,
        p[0] == 'a' || p[0] == 'b',
    ensures
        unquoted(p) == p,
{
    let first = seq![p[0]];
    let rest = p.skip(1);
    assert(p =~= first + rest);
    crate::text::lemma_encode_concat(first, rest);
    assert(is_ascii_chars(first));
    is_ascii_chars_encode_utf8(first);
    assert(encode_utf8(p)[0] == encode_utf8(first)[0]);
    assert(first[0] as u8 != 0x22);
}

/// A path is read from a `diff --git` line that names it twice.
pub proof fn law_git_line_path(path: Seq<char>)
    requires
        forall|i: int| !#[trigger] occurs_at(path, " b/"@, i),
    ensures
        git_line_path_of("a/"@ + (path + " b/"@ + path)) == Some(path),
{
    let after = path + " b/"@ + path;
    let rest = "a/"@ + after;
    assert(rest.take("a/"@.len() as int) =~= "a/"@);
    assert(rest.skip("a/"@.len() as int) =~= after);
    lemma_last_place(path, after);
    assert(after.take(path.len() as int) =~= path);
}

proof fn lemma_last_place(path: Seq<char>, after: Seq<char>)
    requires
        forall|i: int| !#[trigger] occurs_at(path, " b/"@, i),
        after == path + " b/"@ + path,
    ensures
        last_occurrence(after, " b/"@, after.len() as int) == Some(path.len() as int),
{
    let n = path.len() as int;
    assert(after.subrange(n, n + " b/"@.len()) =~= " b/"@);
    assert(occurs_at(after, " b/"@, n));
    assert forall|k: int| n < k implies !#[trigger] occurs_at(after, " b/"@, k) by {
        lemma_only_there(path, after, k);
    }
    law_last_occurrence(after, " b/"@, after.len() as int);
}

proof fn lemma_only_there(path: Seq<char>, after: Seq<char>, k: int)
    requires
        forall|i: int| !#[trigger] occurs_at(path, " b/"@, i),
        after == path + " b/"@ + path,
        path.len() < k,
    ensures
        !occurs_at(after, " b/"@, k),
{
    reveal_strlit(" b/");
    let sep = " b/"@;
    let n = path.len() as int;
    if occurs_at(after, sep, k) {
        let part = after.subrange(k, k + 3);
        assert(part[0] == after[k]);
        if k < n + 3 {
            assert(after[k] == sep[k - n]);
        } else {
            assert(path.subrange(k - n - 3, k - n) =~= part);
            assert(occurs_at(path, sep, k - n - 3));
        }
    }
}

/// The lines of a segment are those of its text, without the newline or the carriage
/// return and newline that end them.
pub proof fn law_content_lines(text: Seq<char>, i: int)
    requires
        0 <= i < line_ranges(encode_utf8(text)).len(),
    ensures
        ({
            let b = encode_utf8(text);
            let r = line_ranges(b)[i];
            let line = encode_utf8(content_lines(text)[i]);
            let ended = r.1 < b.len();
            &&& content_lines(text).len() == line_ranges(b).len()
            &&& if ended && r.0 < r.1 && b[r.1 - 1] == 0x0d {
                line.push(0x0d) == b.subrange(r.0, r.1)
            } else {
                line == b.subrange(r.0, r.1)
            }
        }),
{
    let b = encode_utf8(text);
    let r = line_ranges(b)[i];
    lemma_line_ranges(b);
    assert(line_range_ok(b, r));
    lemma_line_is_text_range(text, r);
    encode_utf8_valid_utf8(text);
    let c = content_range(b, r);
    if c.1 < r.1 {
        lemma_boundary_at_ascii(b, c.1);
    }
    lemma_slice_bytes(text, c.0, c.1);
    if c.1 < r.1 {
        assert(b.subrange(c.0, c.1).push(0x0d) =~= b.subrange(r.0, r.1));
    }
}

/// A path between two quotes is unquoted: what it stands for is what its inside stands
/// for.
pub proof fn law_quoted_path(inside: Seq<char>)
    ensures
        unquoted(seq!['"'] + inside + seq!['"']) == utf8_lossy(unescape(encode_utf8(inside))),
{
    let q = seq!['"'];
    let s = q + inside + q;
    lemma_encode_concat(q + inside, q);
    lemma_encode_concat(q, inside);
    assert(is_ascii_chars(q));
    is_ascii_chars_encode_utf8(q);
    let b = encode_utf8(s);
    assert(encode_utf8(q) =~= seq![0x22u8]);
    assert(b =~= seq![0x22u8] + encode_utf8(inside) + seq![0x22u8]);
    assert(b[0] == 0x22 && b.last() == 0x22);
    assert(b.subrange(1, b.len() - 1) =~= encode_utf8(inside));
}

/// A path that does not begin with a quote is taken as it is.
pub proof fn law_plain_path(c: char, rest: Seq<char>)
    requires
        (c as u32) < 0x80,
        c != '"',
    ensures
        unquoted(seq![c] + rest) == seq![c] + rest,
{
    let first = seq![c];
    let p = first + rest;
    lemma_encode_concat(first, rest);
    assert(is_ascii_chars(first));
    is_ascii_chars_encode_utf8(first);
    assert(encode_utf8(p)[0] == encode_utf8(first)[0]);
    assert(first[0] as u8 != 0x22);
}

} // verus!
