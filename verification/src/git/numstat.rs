//! Per-file added/deleted line counts, known up front so the tree can show
//! `+N -N` for every changed file before its diff is loaded.
//!
//! `git diff --numstat` reports counts for the whole changed set in one cheap
//! command. Untracked files are no part of a diff against the base, so their
//! additions are counted from the working-tree file.

use vstd::hash_map::StringHashMap;
use vstd::prelude::*;

use crate::git::diff::DiffBase;
use crate::model::file::{ChangedFile, FileModel, KindModel};
use crate::text::{
    chars_of, closed_lines, decimal, deep, deep_bytes, digit, fields, lemma_decimal_round_trip,
    lemma_line_start, line_ranges, lossy_string, number_of, owned, parse_number, pieces, split_bytes,
    split_fields, string_of, strings, utf8_lossy, NEWLINE,
};
use crate::text_laws::{law_fields, law_number_round_trip};

verus! {

/// Files larger than this are left without an up-front count (the exact numbers
/// still appear once the file's diff is loaded).
pub const MAX_UNTRACKED_BYTES: usize = 1_048_576;

/// How far into an untracked file a zero byte marks it as binary.
pub const BINARY_PROBE: usize = 8192;

/// What git is asked for the counts.
pub fn numstat_args(base: DiffBase) -> (r: Vec<String>)
    ensures
        strings(r@) == seq![
            "diff"@,
            "--numstat"@,
            "--no-ext-diff"@,
            "-z"@,
            "-M"@,
            base.arg(),
        ],
{
    let r = owned(&["diff", "--numstat", "--no-ext-diff", "-z", "-M", base.as_arg()]);
    assert(strings(r@) =~= seq![
        "diff"@,
        "--numstat"@,
        "--no-ext-diff"@,
        "-z"@,
        "-M"@,
        base.arg(),
    ]);
    r
}

pub type Counts = Map<Seq<char>, (u32, u32)>;

/// `counts` with an entry for `path`, where `added` and `deleted` are numbers.
pub open spec fn with_counts(
    counts: Counts,
    path: Seq<char>,
    added: Seq<char>,
    deleted: Seq<char>,
) -> Counts {
    if number_of(added) is Some && number_of(deleted) is Some {
        counts.insert(path, (number_of(added)->0, number_of(deleted)->0))
    } else {
        counts
    }
}

/// The counts in a stream of entries, on top of `counts`. An entry is
/// `added TAB deleted TAB path`; where the path is empty, the old and the new
/// path of a rename follow as two entries, and the new one counts.
pub open spec fn numstat_from(counts: Counts, entries: Seq<Seq<u8>>) -> Counts
    decreases entries.len(),
{
    if entries.len() == 0 {
        counts
    } else {
        let parts = fields(utf8_lossy(entries[0]), 3, '\t');
        if entries[0].len() == 0 || parts.len() < 3 {
            numstat_from(counts, entries.skip(1))
        } else if parts[2].len() > 0 {
            numstat_from(with_counts(counts, parts[2], parts[0], parts[1]), entries.skip(1))
        } else if entries.len() < 3 {
            counts
        } else {
            numstat_from(
                with_counts(counts, utf8_lossy(entries[2]), parts[0], parts[1]),
                entries.skip(3),
            )
        }
    }
}

/// Parse the NUL-delimited `--numstat -z` stream. Each entry is
/// `added\tdeleted\t<path>`; for a rename the path field is empty and the pre-
/// and post-image paths follow as two separate NUL-terminated fields (the
/// post-image is the key). Binary files report `-` for both counts and are
/// skipped.
pub fn parse_numstat_z(bytes: &[u8]) -> (r: StringHashMap<(u32, u32)>)
    ensures
        r@ == numstat_from(Map::empty(), pieces(bytes@, 0)),
{
    let entries = split_bytes(bytes, 0);
    let ghost model = deep_bytes(entries@);
    let mut map: StringHashMap<(u32, u32)> = StringHashMap::new();
    let n = entries.len();
    let mut i: usize = 0;
    assert(model.skip(0) =~= model);
    while i < n
        invariant
            n == entries@.len(),
            model == deep_bytes(entries@),
            i <= n,
            numstat_from(map@, model.skip(i as int)) == numstat_from(Map::empty(), model),
        ensures
            map@ == numstat_from(Map::empty(), model),
        decreases n - i,
    {
        let ghost rest = model.skip(i as int);
        assert(rest[0] == entries@[i as int]@);
        assert(rest.skip(1) =~= model.skip(i + 1));
        if entries[i].len() == 0 {
            i += 1;
            continue;
        }
        let text = lossy_string(entries[i].as_slice());
        let parts = split_fields(chars_of(text.as_str()).as_slice(), 3, '\t');
        let ghost parts_model = fields(utf8_lossy(rest[0]), 3, '\t');
        assert(deep(parts@) == parts_model);
        if parts.len() < 3 {
            i += 1;
            continue;
        }
        assert(parts_model[0] == parts@[0]@ && parts_model[1] == parts@[1]@ && parts_model[2]
            == parts@[2]@);
        let path;
        let step: usize;
        if parts[2].len() > 0 {
            path = string_of(parts[2].as_slice());
            step = 1;
        } else if n - i < 3 {
            break;
        } else {
            assert(rest[2] == entries@[i + 2]@);
            path = lossy_string(entries[i + 2].as_slice());
            step = 3;
            assert(rest.skip(3) =~= model.skip(i + 3));
        }
        let added = parse_number(parts[0].as_slice());
        let deleted = parse_number(parts[1].as_slice());
        if let (Some(a), Some(d)) = (added, deleted) {
            map.insert(path, (a, d));
        }
        i += step;
    }
    map
}

/// The counts that git's answer gives; none where it failed.
pub fn tracked_counts(out: Result<Vec<u8>, String>) -> (r: StringHashMap<(u32, u32)>)
    ensures
        r@ == match out {
            Ok(bytes) => numstat_from(Map::empty(), pieces(bytes@, 0)),
            Err(_) => Map::empty(),
        },
{
    match out {
        Ok(bytes) => parse_numstat_z(bytes.as_slice()),
        Err(_) => StringHashMap::new(),
    }
}

/// The number of lines of an untracked file: all of them are added. None for an
/// oversized or binary file.
pub open spec fn additions_of(data: Seq<u8>) -> Option<u32> {
    if data.len() > MAX_UNTRACKED_BYTES {
        None
    } else if exists|i: int| 0 <= i < data.len() && i < BINARY_PROBE && #[trigger] data[i] == 0 {
        None
    } else {
        Some(line_ranges(data).len() as u32)
    }
}

/// Count the lines of an untracked working-tree file (its additions, since the
/// whole file is new). `None` for an oversized or binary file. A file without a
/// trailing newline still has a final (unterminated) line.
pub fn untracked_additions(data: &[u8]) -> (r: Option<u32>)
    ensures
        r == additions_of(data@),
{
    let n = data.len();
    if n > MAX_UNTRACKED_BYTES {
        return None;
    }
    let mut lines: u32 = 0;
    for i in 0..n
        invariant
            n == data@.len(),
            n <= MAX_UNTRACKED_BYTES,
            lines == closed_lines(data@, i as int).len(),
            lines <= i,
            forall|j: int| 0 <= j < i && j < BINARY_PROBE ==> data@[j] != 0,
    {
        if i < BINARY_PROBE && data[i] == 0 {
            assert(data@[i as int] == 0);
            return None;
        }
        if data[i] == NEWLINE {
            lines += 1;
        }
    }
    proof {
        lemma_line_start(data@, n as int);
    }
    if n > 0 && data[n - 1] != NEWLINE {
        proof {
            lemma_line_start(data@, n - 1);
        }
        lines += 1;
    }
    Some(lines)
}

/// A file with its line counts: those of the numstat stream, or for an untracked
/// file those of its content where that is known. What is not known stays.
pub open spec fn counted(file: FileModel, counts: Counts, content: Option<Seq<u8>>) -> FileModel {
    if file.kind == KindModel::Untracked {
        if content is Some && additions_of(content->0) is Some {
            FileModel { additions: additions_of(content->0)->0, deletions: 0, ..file }
        } else {
            file
        }
    } else if counts.contains_key(file.path) {
        FileModel { additions: counts[file.path].0, deletions: counts[file.path].1, ..file }
    } else {
        file
    }
}

pub open spec fn content_model(content: Option<Vec<u8>>) -> Option<Seq<u8>> {
    match content {
        Some(v) => Some(v@),
        None => None,
    }
}

/// Fill in `additions`/`deletions` for every entry in `files`: tracked files from
/// `counts`, untracked ones from their content. Anything that is not known is
/// left at its current value.
pub fn fill_line_counts(
    files: &mut Vec<ChangedFile>,
    counts: &StringHashMap<(u32, u32)>,
    contents: &Vec<Option<Vec<u8>>>,
)
    requires
        contents@.len() == old(files)@.len(),
    ensures
        final(files)@.len() == old(files)@.len(),
        forall|i: int|
            0 <= i < old(files)@.len() ==> (#[trigger] final(files)@[i])@ == counted(
                old(files)@[i]@,
                counts@,
                content_model(contents@[i]),
            ),
{
    let n = files.len();
    let ghost before = files@;
    for i in 0..n
        invariant
            n == before.len(),
            n == files@.len(),
            contents@.len() == n,
            forall|j: int|
                0 <= j < i ==> (#[trigger] files@[j])@ == counted(
                    before[j]@,
                    counts@,
                    content_model(contents@[j]),
                ),
            forall|j: int| i <= j < n ==> #[trigger] files@[j] == before[j],
    {
        let mut f = files[i].clone();
        if f.kind.is_untracked() {
            if let Some(data) = &contents[i] {
                if let Some(added) = untracked_additions(data.as_slice()) {
                    f.additions = added;
                    f.deletions = 0;
                }
            }
        } else if let Some(c) = counts.get(f.path.as_str()) {
            f.additions = c.0;
            f.deletions = c.1;
        }
        assert(f@ == counted(before[i as int]@, counts@, content_model(contents@[i as int])));
        files[i] = f;
    }
}

// ── reading back what is written ───────────────────────────────────────────

/// An entry with two numbers and a path gives that path those counts: on top of what
/// came before, and under what comes behind it.
pub proof fn law_counts_read_back(
    counts: Counts,
    entry: Seq<u8>,
    rest: Seq<Seq<u8>>,
    added: u32,
    deleted: u32,
    path: Seq<char>,
)
    requires
        entry.len() > 0,
        path.len() > 0,
        utf8_lossy(entry) == decimal(added as nat).push('\t') + (decimal(deleted as nat).push('\t')
            + path),
    ensures
        numstat_from(counts, seq![entry] + rest) == numstat_from(
            counts.insert(path, (added, deleted)),
            rest,
        ),
        numstat_from(counts, seq![entry]) == counts.insert(path, (added, deleted)),
{
    lemma_counts_entry(added, deleted, path);
    assert((seq![entry] + rest).skip(1) =~= rest);
    assert(seq![entry].skip(1) =~= Seq::<Seq<u8>>::empty());
    assert(numstat_from(counts.insert(path, (added, deleted)), Seq::<Seq<u8>>::empty())
        == counts.insert(path, (added, deleted)));
}

/// A rename is counted for the path that the file has now, which is the second of the
/// two that follow its entry.
pub proof fn law_rename_counts_read_back(
    counts: Counts,
    entry: Seq<u8>,
    from: Seq<u8>,
    to: Seq<u8>,
    rest: Seq<Seq<u8>>,
    added: u32,
    deleted: u32,
)
    requires
        entry.len() > 0,
        utf8_lossy(entry) == decimal(added as nat).push('\t') + (decimal(deleted as nat).push('\t')
            + Seq::<char>::empty()),
    ensures
        numstat_from(counts, seq![entry, from, to] + rest) == numstat_from(
            counts.insert(utf8_lossy(to), (added, deleted)),
            rest,
        ),
{
    lemma_counts_entry(added, deleted, Seq::empty());
    assert((seq![entry, from, to] + rest).skip(3) =~= rest);
    assert((seq![entry, from, to] + rest)[2] == to);
}

/// A binary file, whose counts are `-`, gets none.
pub proof fn law_binary_is_not_counted(
    counts: Counts,
    entry: Seq<u8>,
    rest: Seq<Seq<u8>>,
    path: Seq<char>,
)
    requires
        entry.len() > 0,
        path.len() > 0,
        utf8_lossy(entry) == seq!['-', '\t'] + (seq!['-', '\t'] + path),
    ensures
        numstat_from(counts, seq![entry] + rest) == numstat_from(counts, rest),
{
    let dash = seq!['-'];
    let tail = dash.push('\t') + path;
    assert(dash.push('\t') =~= seq!['-', '\t']);
    law_fields(dash, tail, 3, '\t');
    law_fields(dash, path, 2, '\t');
    let parts = fields(utf8_lossy(entry), 3, '\t');
    assert(parts =~= seq![dash, dash, path]);
    assert(!digit(dash[0]));
    assert((seq![entry] + rest).skip(1) =~= rest);
}

proof fn lemma_counts_entry(added: u32, deleted: u32, path: Seq<char>)
    ensures
        ({
            let a = decimal(added as nat);
            let d = decimal(deleted as nat);
            let parts = fields(a.push('\t') + (d.push('\t') + path), 3, '\t');
            &&& parts == seq![a, d, path]
            &&& number_of(a) == Some(added)
            &&& number_of(d) == Some(deleted)
        }),
{
    let a = decimal(added as nat);
    let d = decimal(deleted as nat);
    lemma_no_tab(added);
    lemma_no_tab(deleted);
    law_number_round_trip(added);
    law_number_round_trip(deleted);
    let tail = d.push('\t') + path;
    law_fields(a, tail, 3, '\t');
    law_fields(d, path, 2, '\t');
    assert(fields(a.push('\t') + tail, 3, '\t') =~= seq![a, d, path]);
}

proof fn lemma_no_tab(n: u32)
    ensures
        !decimal(n as nat).contains('\t'),
{
    let d = decimal(n as nat);
    lemma_decimal_round_trip(n as nat);
    if d.contains('\t') {
        let i = choose|i: int| 0 <= i < d.len() && d[i] == '\t';
        assert(digit(d[i]));
    }
}

/// An untracked text file of moderate size adds as many lines as it has newlines, and
/// one more where it does not end with one. A larger file, and one with a zero byte near
/// its start, is not counted.
pub proof fn law_untracked_lines(data: Seq<u8>)
    ensures
        additions_of(data) is None <==> data.len() > 1_048_576 || data.take(
            if data.len() < 8192 {
                data.len() as int
            } else {
                8192
            },
        ).contains(0),
        additions_of(data) is Some ==> additions_of(data)->0 == data.filter(
            |b: u8| b == 0x0a,
        ).len() + if data.len() > 0 && data.last() != 0x0a {
            1int
        } else {
            0int
        },
{
    let n = data.len() as int;
    let head = data.take(
        if data.len() < 8192 {
            data.len() as int
        } else {
            8192
        },
    );
    if head.contains(0) {
        let i = choose|i: int| 0 <= i < head.len() && head[i] == 0;
        assert(data[i] == 0);
    }
    if exists|i: int| 0 <= i < data.len() && i < BINARY_PROBE && #[trigger] data[i] == 0 {
        let i = choose|i: int| 0 <= i < data.len() && i < BINARY_PROBE && #[trigger] data[i] == 0;
        assert(head[i] == 0);
    }
    lemma_newlines(data, n);
    assert(data.take(n) =~= data);
    lemma_line_start(data, n);
    if n > 0 && data[n - 1] != NEWLINE {
        lemma_line_start(data, n - 1);
    }
    data.lemma_filter_len(|b: u8| b == 0x0a);
}

proof fn lemma_newlines(data: Seq<u8>, n: int)
    requires
        0 <= n <= data.len(),
    ensures
        closed_lines(data, n).len() == data.take(n).filter(|b: u8| b == 0x0a).len(),
    decreases n,
{
    reveal(Seq::filter);
    if n > 0 {
        lemma_newlines(data, n - 1);
        assert(data.take(n).drop_last() =~= data.take(n - 1));
    }
}

/// A file keeps its path and kind when it is counted, and gets the counts that are known
/// of it: those under its path, or the lines of its content where git does not know it.
pub proof fn law_counted(file: FileModel, counts: Counts, content: Option<Seq<u8>>)
    ensures
        ({
            let f = counted(file, counts, content);
            &&& f.path == file.path
            &&& f.kind == file.kind
            &&& file.kind != KindModel::Untracked && counts.contains_key(file.path) ==> (
            f.additions, f.deletions) == counts[file.path]
            &&& file.kind == KindModel::Untracked && content is Some && additions_of(
                content->0,
            ) is Some ==> (f.additions, f.deletions) == (additions_of(content->0)->0, 0u32)
        }),
{
}

} // verus!
