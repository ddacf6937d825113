//! The header of one file's segment of a diff: its path and kind of change.

use vstd::prelude::*;
use vstd::slice::slice_subrange;
use vstd::utf8::*;

use crate::model::file::{ChangeKind, KindModel};
use crate::text::{
    before, begins, chars_are, chars_of, deep, find_last, last_occurrence, lemma_boundary_at_ascii,
    lemma_line_is_text_range, length_before, line_range_ok, line_ranges, lossy_string, occurs,
    opt_string, range_model, slice_str, split_lines, split_words, string_of, text_slice, utf8_lossy,
    words,
};

verus! {

// ── quoted paths ───────────────────────────────────────────────────────────

pub open spec fn octal(b: u8) -> bool {
    0x30 <= b <= 0x37
}

/// The number of octal digits that `b` begins with, up to `most`.
pub open spec fn octal_run(b: Seq<u8>, most: nat) -> nat
    decreases most,
{
    if most == 0 || b.len() == 0 || !octal(b[0]) {
        0
    } else {
        1 + octal_run(b.skip(1), (most - 1) as nat)
    }
}

/// The number that octal digits write.
pub open spec fn octal_value(b: Seq<u8>) -> nat
    decreases b.len(),
{
    if b.len() == 0 {
        0
    } else {
        octal_value(b.drop_last()) * 8 + (b.last() - 0x30) as nat
    }
}

/// The byte that the letter of a two-byte escape stands for.
pub open spec fn escape_letter(b: u8) -> Option<u8> {
    if b == 0x6e {  // n
        Some(0x0a)
    } else if b == 0x74 {  // t
        Some(0x09)
    } else if b == 0x72 {  // r
        Some(0x0d)
    } else if b == 0x5c {  // backslash
        Some(0x5c)
    } else if b == 0x22 {  // quote
        Some(0x22)
    } else {
        None
    }
}

/// The bytes that the inside of a quoted path stands for: an escape is one byte,
/// and any other byte is itself.
pub open spec fn unescape(b: Seq<u8>) -> Seq<u8>
    decreases b.len(),
{
    if b.len() == 0 {
        Seq::empty()
    } else if b[0] == 0x5c && b.len() > 1 && escape_letter(b[1]) is Some {
        seq![escape_letter(b[1])->0] + unescape(b.skip(2))
    } else if b[0] == 0x5c && b.len() > 1 && octal(b[1]) {
        let n = octal_run(b.skip(1), 3);
        if 1 <= n < b.len() {
            seq![(octal_value(b.skip(1).take(n as int)) % 256) as u8] + unescape(
                b.skip(1 + n as int),
            )
        } else {
            Seq::empty()
        }
    } else {
        seq![b[0]] + unescape(b.skip(1))
    }
}

/// `s` stands between two quotes.
pub open spec fn quoted(s: Seq<char>) -> bool {
    let b = encode_utf8(s);
    b.len() >= 2 && b[0] == 0x22 && b.last() == 0x22
}

/// The path that `s` writes: `s` itself, unless it is quoted.
pub open spec fn unquoted(s: Seq<char>) -> Seq<char> {
    let b = encode_utf8(s);
    if quoted(s) {
        utf8_lossy(unescape(b.subrange(1, b.len() - 1)))
    } else {
        s
    }
}

pub proof fn lemma_octal_run(b: Seq<u8>, most: nat)
    ensures
        octal_run(b, most) <= most,
        octal_run(b, most) <= b.len(),
        forall|i: int| 0 <= i < octal_run(b, most) ==> octal(#[trigger] b[i]),
        octal_run(b, most) < most && octal_run(b, most) < b.len() ==> !octal(
            b[octal_run(b, most) as int],
        ),
    decreases most,
{
    if !(most == 0 || b.len() == 0 || !octal(b[0])) {
        lemma_octal_run(b.skip(1), (most - 1) as nat);
        let n = octal_run(b.skip(1), (most - 1) as nat);
        assert forall|i: int| 0 <= i < n + 1 implies octal(#[trigger] b[i]) by {
            if i > 0 {
                assert(b.skip(1)[i - 1] == b[i]);
            }
        }
        if n < b.skip(1).len() {
            assert(b.skip(1)[n as int] == b[n as int + 1]);
        }
    }
}

/// A run of octal digits that cannot be made longer is the run.
proof fn lemma_octal_run_is(b: Seq<u8>, most: nat, n: nat)
    requires
        n <= most,
        n <= b.len(),
        forall|i: int| 0 <= i < n ==> octal(#[trigger] b[i]),
        n == most || n == b.len() || !octal(b[n as int]),
    ensures
        octal_run(b, most) == n,
{
    lemma_octal_run(b, most);
    let m = octal_run(b, most);
    if m < n {
        assert(octal(b[m as int]));
    } else if n < m {
        assert(octal(b[n as int]));
    }
}

/// Decode a git C-quoted path (`core.quotepath`). Non-quoted input is returned
/// unchanged. Handles `\\`, `\"`, `\n`, `\t`, `\r`, and `\nnn` octal byte escapes.
pub fn unquote_path(s: &str) -> (r: String)
    ensures
        r@ == unquoted(s@),
{
    let bytes = s.as_bytes();
    let len = bytes.len();
    if len < 2 || bytes[0] != 0x22 || bytes[len - 1] != 0x22 {
        return s.to_owned();
    }
    let inner = slice_subrange(bytes, 1, len - 1);
    let n = inner.len();
    let mut out: Vec<u8> = Vec::new();
    let mut i: usize = 0;
    assert(out@ + unescape(inner@.skip(0)) =~= unescape(inner@)) by {
        assert(inner@.skip(0) =~= inner@);
    }
    while i < n
        invariant
            n == inner@.len(),
            i <= n,
            out@ + unescape(inner@.skip(i as int)) == unescape(inner@),
        decreases n - i,
    {
        let ghost rest = inner@.skip(i as int);
        let ghost was = out@;
        let b = inner[i];
        assert(rest[0] == b);
        if b == 0x5c && i + 1 < n {
            let c = inner[i + 1];
            assert(rest[1] == c);
            if c == 0x6e || c == 0x74 || c == 0x72 || c == 0x5c || c == 0x22 {
                let v: u8 = match c {
                    0x6e => 0x0a,
                    0x74 => 0x09,
                    0x72 => 0x0d,
                    0x5c => 0x5c,
                    _ => 0x22,
                };
                out.push(v);
                assert(rest.skip(2) =~= inner@.skip(i + 2));
                assert(was + (seq![v] + unescape(rest.skip(2))) =~= out@ + unescape(
                    inner@.skip(i + 2),
                ));
                i += 2;
            } else if 0x30 <= c && c <= 0x37 {
                let mut value: u32 = 0;
                let mut k: usize = i + 1;
                let mut count: usize = 0;
                let ghost digits = rest.skip(1);
                while k < n && count < 3 && 0x30 <= inner[k] && inner[k] <= 0x37
                    invariant
                        n == inner@.len(),
                        count <= 3,
                        k == i + 1 + count,
                        k <= n,
                        i + 1 < n,
                        digits == inner@.skip(i + 1),
                        forall|j: int| 0 <= j < count ==> octal(#[trigger] digits[j]),
                        value == octal_value(digits.take(count as int)),
                        count == 0 ==> value == 0,
                        count == 1 ==> value < 8,
                        count == 2 ==> value < 64,
                        count == 3 ==> value < 512,
                    decreases n - k,
                {
                    assert(digits[count as int] == inner@[k as int]);
                    assert(digits.take(count + 1).drop_last() =~= digits.take(count as int));
                    value = value * 8 + (inner[k] - 0x30) as u32;
                    k += 1;
                    count += 1;
                }
                proof {
                    if k < n {
                        assert(digits[count as int] == inner@[k as int]);
                    }
                    assert(digits[0] == c);
                    lemma_octal_run_is(digits, 3, count as nat);
                    assert(rest.skip(1 + count as int) =~= inner@.skip(k as int));
                }
                let v: u8 = (value % 256) as u8;
                out.push(v);
                assert(was + (seq![v] + unescape(inner@.skip(k as int))) =~= out@ + unescape(
                    inner@.skip(k as int),
                ));
                i = k;
            } else {
                out.push(b);
                assert(rest.skip(1) =~= inner@.skip(i + 1));
                assert(was + (seq![b] + unescape(rest.skip(1))) =~= out@ + unescape(
                    inner@.skip(i + 1),
                ));
                i += 1;
            }
        } else {
            out.push(b);
            assert(rest.skip(1) =~= inner@.skip(i + 1));
            assert(was + (seq![b] + unescape(rest.skip(1))) =~= out@ + unescape(
                inner@.skip(i + 1),
            ));
            i += 1;
        }
    }
    assert(out@ =~= unescape(inner@));
    lossy_string(out.as_slice())
}

/// A byte as git quotes it in a path: the common escapes by letter, other bytes
/// outside printable ASCII in three octal digits.
pub open spec fn escape_byte(b: u8) -> Seq<u8> {
    if b == 0x0a {
        seq![0x5c, 0x6e]
    } else if b == 0x09 {
        seq![0x5c, 0x74]
    } else if b == 0x0d {
        seq![0x5c, 0x72]
    } else if b == 0x5c {
        seq![0x5c, 0x5c]
    } else if b == 0x22 {
        seq![0x5c, 0x22]
    } else if b < 0x20 || b >= 0x7f {
        seq![
            0x5c,
            (0x30 + b / 64) as u8,
            (0x30 + b / 8 % 8) as u8,
            (0x30 + b % 8) as u8,
        ]
    } else {
        seq![b]
    }
}

/// A path with every byte quoted.
pub open spec fn escape(path: Seq<u8>) -> Seq<u8>
    decreases path.len(),
{
    if path.len() == 0 {
        Seq::empty()
    } else {
        escape_byte(path[0]) + escape(path.skip(1))
    }
}

/// Unquoting gives back the bytes of a path that was quoted.
pub proof fn law_unescape_escape(path: Seq<u8>)
    ensures
        unescape(escape(path)) == path,
    decreases path.len(),
{
    if path.len() > 0 {
        let b = path[0];
        let e = escape_byte(b);
        let tail = escape(path.skip(1));
        let all = e + tail;
        law_unescape_escape(path.skip(1));
        assert(seq![b] + path.skip(1) =~= path);
        assert(all.skip(e.len() as int) =~= tail);
        assert(all[0] == e[0]);
        if e.len() == 4 {
            let digits = all.skip(1);
            assert(digits[0] == e[1] && digits[1] == e[2] && digits[2] == e[3]);
            lemma_octal_run_is(digits, 3, 3);
            let d = digits.take(3);
            assert(d.drop_last() =~= digits.take(2));
            assert(digits.take(2).drop_last() =~= digits.take(1));
            assert(digits.take(1).drop_last() =~= Seq::<u8>::empty());
            assert(octal_value(digits.take(1).drop_last()) == 0);
            assert(octal_value(digits.take(1)) == b / 64);
            assert(octal_value(digits.take(2)) == (b / 64) * 8 + b / 8 % 8);
            assert(octal_value(d) == b);
            assert(escape_letter(all[1]) is None);
        } else if e.len() == 2 {
            assert(all[1] == e[1]);
        }
    }
}

// ── paths in header lines ──────────────────────────────────────────────────

/// The part of `line` behind the prefix `p`.
fn strip<'a>(line: &'a [char], p: &str) -> (r: Option<&'a [char]>)
    ensures
        r is Some <==> begins(line@, p@),
        r is Some ==> r->0@ == line@.skip(p@.len() as int),
{
    let p = chars_of(p);
    if occurs(line, p.as_slice(), 0) {
        let rest = slice_subrange(line, p.len(), line.len());
        assert(rest@ =~= line@.skip(p@.len() as int));
        Some(rest)
    } else {
        None
    }
}

/// A path without a leading `a/` or `b/`.
pub open spec fn without_side(p: Seq<char>) -> Seq<char> {
    if begins(p, "a/"@) {
        p.skip("a/"@.len() as int)
    } else if begins(p, "b/"@) {
        p.skip("b/"@.len() as int)
    } else {
        p
    }
}

/// Strip a leading `a/` or `b/` diff prefix if present.
fn strip_diff_prefix(p: &[char]) -> (r: String)
    ensures
        r@ == without_side(p@),
{
    if let Some(rest) = strip(p, "a/") {
        string_of(rest)
    } else if let Some(rest) = strip(p, "b/") {
        string_of(rest)
    } else {
        string_of(p)
    }
}

/// The path of a `---`/`+++` line; none where the line names `/dev/null`.
pub open spec fn side_path_of(arg: Seq<char>) -> Option<Seq<char>> {
    let arg = before(arg, '\t');
    if arg == "/dev/null"@ {
        None
    } else {
        Some(without_side(unquoted(arg)))
    }
}

/// Extract the path from a `---`/`+++` side line's argument (the text after the
/// `--- `/`+++ ` marker). Returns `None` for `/dev/null`. Strips the `a/`/`b/`
/// diff prefix (absent under `--no-prefix`) and unquotes C-quoted paths.
pub fn side_path(arg: &[char]) -> (r: Option<String>)
    ensures
        opt_string(r) == side_path_of(arg@),
{
    // Plain `diff -u` appends a tab and a timestamp; git does not.
    let n = length_before(arg, '\t');
    let arg = slice_subrange(arg, 0, n);
    if chars_are(arg, "/dev/null") {
        return None;
    }
    let path = unquote_path(string_of(arg).as_str());
    Some(strip_diff_prefix(chars_of(path.as_str()).as_slice()))
}

/// The path of a `diff --git` line: what stands between `a/` and the last ` b/`,
/// else its first word.
pub open spec fn git_line_path_of(rest: Seq<char>) -> Option<Seq<char>> {
    let after = rest.skip("a/"@.len() as int);
    let split = last_occurrence(after, " b/"@, after.len() as int);
    if begins(rest, "a/"@) && split is Some {
        Some(after.take(split->0))
    } else if words(rest).len() > 0 {
        Some(without_side(unquoted(words(rest)[0])))
    } else {
        None
    }
}

/// Parse the path out of a `diff --git a/<p> b/<p>` line's argument (text after
/// `diff --git `). Used only as a fallback for segments with no `---`/`+++` or
/// rename lines (mode-only changes, binary files). With `--no-prefix` and spaces
/// in the path it is inherently ambiguous and the leading token is taken.
pub fn git_line_path(rest: &[char]) -> (r: Option<String>)
    ensures
        opt_string(r) == git_line_path_of(rest@),
{
    if let Some(after) = strip(rest, "a/") {
        let sep = chars_of(" b/");
        if let Some(idx) = find_last(after, sep.as_slice()) {
            let path = slice_subrange(after, 0, idx);
            assert(path@ =~= after@.take(idx as int));
            return Some(string_of(path));
        }
    }
    let tokens = split_words(rest);
    if tokens.len() == 0 {
        return None;
    }
    assert(deep(tokens@)[0] == tokens@[0]@);
    let path = unquote_path(string_of(tokens[0].as_slice()).as_str());
    Some(strip_diff_prefix(chars_of(path.as_str()).as_slice()))
}

// ── segment headers ────────────────────────────────────────────────────────

/// What the header lines of a segment say.
#[verifier::ext_equal]
pub struct HeaderModel {
    pub new_file: bool,
    pub deleted_file: bool,
    pub rename_from: Option<Seq<char>>,
    pub rename_to: Option<Seq<char>>,
    pub plus_path: Option<Seq<char>>,
    pub minus_path: Option<Seq<char>>,
    pub git_line: Option<Seq<char>>,
}

pub open spec fn no_header() -> HeaderModel {
    HeaderModel {
        new_file: false,
        deleted_file: false,
        rename_from: None,
        rename_to: None,
        plus_path: None,
        minus_path: None,
        git_line: None,
    }
}

/// What `line` has behind the prefix `p`.
pub open spec fn behind(line: Seq<char>, p: Seq<char>) -> Seq<char> {
    line.skip(p.len() as int)
}

/// What is known after one more header line.
pub open spec fn header_step(h: HeaderModel, line: Seq<char>) -> HeaderModel {
    if begins(line, "diff --git "@) {
        HeaderModel { git_line: Some(behind(line, "diff --git "@)), ..h }
    } else if begins(line, "new file mode "@) {
        HeaderModel { new_file: true, ..h }
    } else if begins(line, "deleted file mode "@) {
        HeaderModel { deleted_file: true, ..h }
    } else if begins(line, "rename from "@) {
        HeaderModel { rename_from: Some(unquoted(behind(line, "rename from "@))), ..h }
    } else if begins(line, "rename to "@) {
        HeaderModel { rename_to: Some(unquoted(behind(line, "rename to "@))), ..h }
    } else if begins(line, "copy from "@) {
        HeaderModel { rename_from: Some(unquoted(behind(line, "copy from "@))), ..h }
    } else if begins(line, "copy to "@) {
        HeaderModel { rename_to: Some(unquoted(behind(line, "copy to "@))), ..h }
    } else if begins(line, "--- "@) {
        HeaderModel { minus_path: side_path_of(behind(line, "--- "@)), ..h }
    } else if begins(line, "+++ "@) {
        HeaderModel { plus_path: side_path_of(behind(line, "+++ "@)), ..h }
    } else {
        h
    }
}

/// What is known after the lines up to the first chunk.
pub open spec fn header_scan(h: HeaderModel, lines: Seq<Seq<char>>) -> HeaderModel
    decreases lines.len(),
{
    if lines.len() == 0 || begins(lines[0], "@@"@) {
        h
    } else {
        header_scan(header_step(h, lines[0]), lines.skip(1))
    }
}

/// The range of a line without the carriage return that belongs to its end.
pub open spec fn content_range(b: Seq<u8>, r: (int, int)) -> (int, int) {
    if r.1 < b.len() && r.0 < r.1 && b[r.1 - 1] == 0x0d {
        (r.0, r.1 - 1)
    } else {
        r
    }
}

/// The lines of `text`, without their line ends.
pub open spec fn content_lines(text: Seq<char>) -> Seq<Seq<char>> {
    let b = encode_utf8(text);
    line_ranges(b).map_values(
        |r: (int, int)| text_slice(text, content_range(b, r).0, content_range(b, r).1),
    )
}

/// The first of the path sources that is there, the most reliable one first.
pub open spec fn header_path(h: HeaderModel) -> Seq<char> {
    if h.rename_to is Some {
        h.rename_to->0
    } else if h.plus_path is Some {
        h.plus_path->0
    } else if h.minus_path is Some {
        h.minus_path->0
    } else if h.git_line is Some && git_line_path_of(h.git_line->0) is Some {
        git_line_path_of(h.git_line->0)->0
    } else {
        Seq::empty()
    }
}

pub open spec fn header_kind(h: HeaderModel) -> KindModel {
    if h.rename_from is Some {
        KindModel::Renamed(h.rename_from->0)
    } else if h.new_file {
        KindModel::Added
    } else if h.deleted_file {
        KindModel::Deleted
    } else {
        KindModel::Modified
    }
}

/// The path and the kind of change of a segment.
pub open spec fn classify_model(segment: Seq<char>) -> (Seq<char>, KindModel) {
    let h = header_scan(no_header(), content_lines(segment));
    (header_path(h), header_kind(h))
}

struct Header {
    new_file: bool,
    deleted_file: bool,
    rename_from: Option<String>,
    rename_to: Option<String>,
    plus_path: Option<String>,
    minus_path: Option<String>,
    git_line: Option<String>,
}

impl View for Header {
    type V = HeaderModel;

    closed spec fn view(&self) -> HeaderModel {
        HeaderModel {
            new_file: self.new_file,
            deleted_file: self.deleted_file,
            rename_from: opt_string(self.rename_from),
            rename_to: opt_string(self.rename_to),
            plus_path: opt_string(self.plus_path),
            minus_path: opt_string(self.minus_path),
            git_line: opt_string(self.git_line),
        }
    }
}

impl Header {
    fn read(&mut self, line: &[char])
        ensures
            final(self)@ == header_step(old(self)@, line@),
    {
        if let Some(rest) = strip(line, "diff --git ") {
            self.git_line = Some(string_of(rest));
        } else if let Some(_) = strip(line, "new file mode ") {
            self.new_file = true;
        } else if let Some(_) = strip(line, "deleted file mode ") {
            self.deleted_file = true;
        } else if let Some(p) = strip(line, "rename from ") {
            self.rename_from = Some(unquote_path(string_of(p).as_str()));
        } else if let Some(p) = strip(line, "rename to ") {
            self.rename_to = Some(unquote_path(string_of(p).as_str()));
        } else if let Some(p) = strip(line, "copy from ") {
            // A copy keeps the source; it is shown like a rename.
            self.rename_from = Some(unquote_path(string_of(p).as_str()));
        } else if let Some(p) = strip(line, "copy to ") {
            self.rename_to = Some(unquote_path(string_of(p).as_str()));
        } else if let Some(p) = strip(line, "--- ") {
            self.minus_path = side_path(p);
        } else if let Some(p) = strip(line, "+++ ") {
            self.plus_path = side_path(p);
        }
    }
}

/// Derive a file's path and [`ChangeKind`] from its diff segment by scanning the
/// header lines (everything before the first `@@`). Path sources are tried most
/// reliable first: single-path lines (`rename to`, `+++`, `---`) before the
/// space-ambiguous `diff --git` line.
pub fn classify_segment(segment: &str) -> (r: (String, ChangeKind))
    ensures
        (r.0@, r.1@) == classify_model(segment@),
{
    let bytes = segment.as_bytes();
    let size = bytes.len();
    let lines = split_lines(bytes);
    let ghost model = content_lines(segment@);
    let mut h = Header {
        new_file: false,
        deleted_file: false,
        rename_from: None,
        rename_to: None,
        plus_path: None,
        minus_path: None,
        git_line: None,
    };
    let n = lines.len();
    let mut i: usize = 0;
    assert(model.skip(0) =~= model);
    while i < n
        invariant
            n == lines@.len(),
            i <= n,
            bytes@ == encode_utf8(segment@),
            size == bytes@.len(),
            lines@.map_values(|p: (usize, usize)| range_model(p)) == line_ranges(bytes@),
            forall|k: int| 0 <= k < lines@.len() ==> line_range_ok(bytes@, range_model(#[trigger] lines@[k])),
            model == content_lines(segment@),
            model.len() == n,
            header_scan(h@, model.skip(i as int)) == header_scan(no_header(), model),
        ensures
            h@ == header_scan(no_header(), model),
        decreases n - i,
    {
        let (start, end) = lines[i];
        let ghost r = range_model(lines@[i as int]);
        let ghost rest = model.skip(i as int);
        assert(line_ranges(bytes@)[i as int] == r);
        let mut stop = end;
        if end < size && start < end && bytes[end - 1] == 0x0d {
            stop = end - 1;
        }
        proof {
            lemma_line_is_text_range(segment@, r);
            encode_utf8_valid_utf8(segment@);
            if stop < end {
                lemma_boundary_at_ascii(bytes@, stop as int);
            }
        }
        let line = chars_of(slice_str(segment, start, stop));
        assert(rest[0] == line@);
        if let Some(_) = strip(line.as_slice(), "@@") {
            break;
        }
        h.read(line.as_slice());
        assert(rest.skip(1) =~= model.skip(i + 1));
        i += 1;
    }
    let path = match (h.rename_to, h.plus_path, h.minus_path) {
        (Some(p), _, _) => p,
        (None, Some(p), _) => p,
        (None, None, Some(p)) => p,
        (None, None, None) => {
            let mut found: Option<String> = None;
            if let Some(rest) = h.git_line {
                found = git_line_path(chars_of(rest.as_str()).as_slice());
            }
            match found {
                Some(p) => p,
                None => String::new(),
            }
        },
    };
    let kind = if let Some(from) = h.rename_from {
        ChangeKind::Renamed { from }
    } else if h.new_file {
        ChangeKind::Added
    } else if h.deleted_file {
        ChangeKind::Deleted
    } else {
        ChangeKind::Modified
    };
    (path, kind)
}

} // verus!
